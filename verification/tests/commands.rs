use wx_cli::daemon_cmd::{
    cmd_daemon, follow_start, last_lines, pid_label, pid_label_from, status_line, stop_tcp_warning,
    tail_args, DaemonAction, DaemonCommands,
};
use wx_cli::send::{cmd_send, send_outcome, SendError, SEND_SCRIPT};
use wx_cli::text::{decimal_string, join, lines, trim};

#[test]
fn daemon_commands_map_to_actions() {
    match cmd_daemon(DaemonCommands::Status, Some("127.0.0.1:9000")) {
        DaemonAction::Status { tcp_addr } => assert_eq!(tcp_addr.as_deref(), Some("127.0.0.1:9000")),
        _ => panic!("wrong action"),
    }
    match cmd_daemon(DaemonCommands::Stop, None) {
        DaemonAction::Stop { tcp_addr } => assert_eq!(tcp_addr, None),
        _ => panic!("wrong action"),
    }
    match cmd_daemon(DaemonCommands::Logs { follow: true, lines: 30 }, Some("x")) {
        DaemonAction::Logs { follow, lines } => {
            assert!(follow);
            assert_eq!(lines, 30);
        }
        _ => panic!("wrong action"),
    }
}

#[test]
fn daemon_start_prefers_its_own_tcp_address() {
    match cmd_daemon(DaemonCommands::Start { tcp: Some("own:1".to_string()) }, Some("global:2")) {
        DaemonAction::Start { tcp } => assert_eq!(tcp.as_deref(), Some("own:1")),
        _ => panic!("wrong action"),
    }
    match cmd_daemon(DaemonCommands::Start { tcp: None }, Some("global:2")) {
        DaemonAction::Start { tcp } => assert_eq!(tcp.as_deref(), Some("global:2")),
        _ => panic!("wrong action"),
    }
    match cmd_daemon(DaemonCommands::Start { tcp: None }, None) {
        DaemonAction::Start { tcp } => assert_eq!(tcp, None),
        _ => panic!("wrong action"),
    }
}

#[test]
fn pid_file_json_or_plain_text() {
    assert_eq!(pid_label(Some("{\"pid\": 4321, \"port\": 1}")), "4321");
    assert_eq!(pid_label(Some("  777\n")), "777");
    assert_eq!(pid_label(Some("{\"pid\": -3}")), "{\"pid\": -3}");
    assert_eq!(pid_label(Some("{\"pid\": \"12\"}\n")), "{\"pid\": \"12\"}");
    assert_eq!(pid_label(None), "?");
    assert_eq!(pid_label_from(" 9 ", Some(18446744073709551615)), "18446744073709551615");
    assert_eq!(pid_label_from(" 9 ", None), "9");
}

#[test]
fn status_lines() {
    assert_eq!(status_line(None, None), "wx-daemon 未运行");
    assert_eq!(status_line(Some("h:1"), None), "wx-daemon 未运行");
    assert_eq!(status_line(None, Some("12")), "wx-daemon 运行中 (PID 12)");
    assert_eq!(status_line(Some("h:1"), Some("12")), "wx-daemon 运行中 (TCP h:1)");
}

#[test]
fn stop_with_tcp_only_warns() {
    assert_eq!(stop_tcp_warning(None), None);
    let w = stop_tcp_warning(Some("0.0.0.0:7")).unwrap();
    assert_eq!(
        w,
        "⚠ TCP daemon (0.0.0.0:7) 是一个独立进程，无法通过 `wx daemon stop` 停止。\n请手动关闭该进程（例如 kill / taskkill PID）。"
    );
}

#[test]
fn logs_show_the_last_lines() {
    let content = "one\r\ntwo\nthree\n\nfive\r";
    assert_eq!(last_lines(content, 2), vec!["".to_string(), "five\r".to_string()]);
    assert_eq!(last_lines(content, 10), content.lines().map(String::from).collect::<Vec<_>>());
    assert_eq!(last_lines(content, 0), Vec::<String>::new());
    assert_eq!(last_lines("", 5), Vec::<String>::new());
}

#[test]
fn follow_arguments_and_start() {
    assert_eq!(tail_args(50, "/tmp/daemon.log"), vec!["-50".to_string(), "-f".to_string(), "/tmp/daemon.log".to_string()]);
    assert_eq!(follow_start(100_000, 50), 90_000);
    assert_eq!(follow_start(100, 50), 0);
}

#[test]
fn send_refuses_blank_input_and_other_systems() {
    assert!(matches!(cmd_send("chat", "hi", false), Err(SendError::Unsupported)));
    assert!(matches!(cmd_send(" \u{3000}\t", "hi", true), Err(SendError::EmptyChat)));
    assert!(matches!(cmd_send("", "", true), Err(SendError::EmptyChat)));
    assert!(matches!(cmd_send("文件传输助手", "", true), Err(SendError::EmptyMessage)));
    let args = cmd_send("文件传输助手", " ", true).ok().unwrap();
    assert_eq!(args, vec!["-e".to_string(), SEND_SCRIPT.to_string(), "文件传输助手".to_string(), " ".to_string()]);
}

#[test]
fn send_error_messages() {
    assert_eq!(SendError::Unsupported.message(), "send 命令目前只支持 macOS");
    assert_eq!(SendError::EmptyChat.message(), "聊天对象名称不能为空");
    assert_eq!(SendError::EmptyMessage.message(), "消息不能为空");
    assert_eq!(
        SendError::Failed { reason: "boom".to_string() }.message(),
        "发送微信消息失败：boom。请确认微信已登录，并已给当前终端/应用开启“辅助功能”权限"
    );
}

#[test]
fn send_outcome_reports_reason() {
    assert_eq!(send_outcome(true, "", "", "张三").ok().unwrap(), "已发送到 张三");
    match send_outcome(false, "  execution error \n", "exit status: 1", "x") {
        Err(SendError::Failed { reason }) => assert_eq!(reason, "execution error"),
        _ => panic!("expected failure"),
    }
    match send_outcome(false, " \n", "exit status: 1", "x") {
        Err(SendError::Failed { reason }) => assert_eq!(reason, "osascript exited with status exit status: 1"),
        _ => panic!("expected failure"),
    }
}

#[test]
fn text_helpers_match_std() {
    for s in ["", "  a b  ", "\u{85}x\u{a0}", "\u{2000}\u{200a}", "\t\r\n", "no"] {
        assert_eq!(trim(s), s.trim());
    }
    for n in [0u64, 7, 10, 99, 100, 1234567890, u64::MAX] {
        assert_eq!(decimal_string(n), n.to_string());
    }
    for s in ["", "a", "a\n", "a\r\nb", "\n\n", "x\r", "\r\n"] {
        assert_eq!(lines(s), s.lines().map(String::from).collect::<Vec<_>>());
    }
    let v = vec!["a.db".to_string(), "b.db".to_string(), "c.db".to_string()];
    assert_eq!(join(&v, ", "), v.join(", "));
    assert_eq!(join(&Vec::new(), ", "), "");
}
