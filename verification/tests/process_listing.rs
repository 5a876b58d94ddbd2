use wx_cli::process_list::{parse_process_line, parse_wechat_pids, require_processes};

#[test]
fn csv_rows_are_parsed_and_ordered_by_memory() {
    let out = b"\"Id\",\"WS\"\r\n\"1234\",\"104857600\"\r\n\"42\",\"524288000\"\r\n\"7\",\"104857600\"\r\n";
    let pids = parse_wechat_pids(Some(out));
    assert_eq!(pids, vec![(42, 524288000), (1234, 104857600), (7, 104857600)]);
}

#[test]
fn no_output_gives_no_process() {
    assert!(parse_wechat_pids(None).is_empty());
    assert!(parse_wechat_pids(Some(b"")).is_empty());
    assert!(parse_wechat_pids(Some(b"\"Id\",\"WS\"")).is_empty());
    assert!(parse_wechat_pids(Some(b"\"5\",\"6\"\n")).is_empty());
}

#[test]
fn bad_rows_are_skipped_and_bad_memory_is_zero() {
    let out = b"header\n\"abc\",\"10\"\n\"12\"\n\"13\",\"lots\"\n+14,+20,extra\n\"4294967296\",\"1\"\n\"4294967295\",\"2\"\n";
    let pids = parse_wechat_pids(Some(out));
    assert_eq!(pids, vec![(14, 20), (4294967295, 2), (13, 0)]);
}

#[test]
fn row_fields_follow_str_parse() {
    assert_eq!(parse_process_line(&b"\"\"\"9\"\"\",\"\"".to_vec()), Some((9, 0)));
    assert_eq!(parse_process_line(&b"+,1".to_vec()), None);
    assert_eq!(parse_process_line(&b"-1,1".to_vec()), None);
    assert_eq!(parse_process_line(&b" 1,1".to_vec()), None);
    assert_eq!(parse_process_line(&b"0001,0".to_vec()), Some((1, 0)));
    assert_eq!(parse_process_line(&b"1,18446744073709551616".to_vec()), Some((1, 0)));
}

#[test]
fn scan_needs_a_process() {
    assert!(require_processes(&Vec::new()).is_err());
    assert!(require_processes(&vec![(1, 2)]).is_ok());
    let e = require_processes(&Vec::new()).unwrap_err();
    assert_eq!(e.message(), "找不到 Weixin.exe 进程，请确认微信正在运行");
}
