use wx_cli::pattern::{find_ending_quote, is_hex_char, scan_chunk, search_pattern};

fn literal(hex: &str) -> Vec<u8> {
    let mut v = b"x'".to_vec();
    v.extend_from_slice(hex.as_bytes());
    v.push(b'\'');
    v
}

fn hex_of_len(n: usize, first: char) -> String {
    let mut s = String::new();
    let digits = "0123456789abcdef";
    for i in 0..n {
        if i == 0 {
            s.push(first);
        } else {
            s.push(digits.as_bytes()[i % 16] as char);
        }
    }
    s
}

#[test]
fn hex_digits_are_recognised() {
    for c in b"0123456789abcdefABCDEF" {
        assert!(is_hex_char(*c));
    }
    for c in b"gGxz/:@`' \0" {
        assert!(!is_hex_char(*c));
    }
}

#[test]
fn ending_quote_is_first_in_window() {
    let buf = b"ab'cd'ef";
    assert_eq!(find_ending_quote(buf, 0, 10), Some(2));
    assert_eq!(find_ending_quote(buf, 3, 10), Some(5));
    assert_eq!(find_ending_quote(buf, 3, 2), None);
    assert_eq!(find_ending_quote(buf, 6, 10), None);
    assert_eq!(find_ending_quote(buf, 9, 10), None);
}

#[test]
fn key_and_salt_come_from_the_ends_in_lower_case() {
    let hex = format!("{}{}{}", "AB".repeat(32), "00".repeat(8), "CD".repeat(16));
    assert_eq!(hex.len(), 112);
    let mut buf = b"garbage ".to_vec();
    buf.extend(literal(&hex));
    buf.extend_from_slice(b" tail");
    let mut results = Vec::new();
    search_pattern(&buf, &mut results);
    assert_eq!(results.len(), 1);
    assert_eq!(results[0].0, "ab".repeat(32));
    assert_eq!(results[0].1, "cd".repeat(16));
}

#[test]
fn minimal_key_literal_is_found() {
    let hex = format!("{}{}", "1".repeat(64), "2".repeat(32));
    let buf = literal(&hex);
    let mut results = Vec::new();
    search_pattern(&buf, &mut results);
    assert_eq!(results, vec![("1".repeat(64), "2".repeat(32))]);
}

#[test]
fn short_odd_and_non_hex_literals_are_skipped() {
    let mut results = Vec::new();
    // 94 digits: too short
    search_pattern(&literal(&"a".repeat(94)), &mut results);
    // 97 digits: odd
    let mut buf = literal(&"a".repeat(97));
    buf.extend_from_slice(&[b' '; 10]);
    search_pattern(&buf, &mut results);
    // a non-hex digit inside
    let mut bad = "a".repeat(100);
    bad.replace_range(50..51, "g");
    search_pattern(&literal(&bad), &mut results);
    // 194 digits: more than 192
    search_pattern(&literal(&"a".repeat(194)), &mut results);
    assert!(results.is_empty());
}

#[test]
fn longest_accepted_literal_has_192_digits() {
    let hex = hex_of_len(192, 'f');
    let mut results = Vec::new();
    search_pattern(&literal(&hex), &mut results);
    assert_eq!(results.len(), 1);
    assert_eq!(results[0].0, hex[..64].to_string());
    assert_eq!(results[0].1, hex[160..].to_string());
}

#[test]
fn literal_of_192_equal_digits_is_found() {
    let buf = [b"x'".as_slice(), &[b'a'; 192], b"'"].concat();
    let mut results = Vec::new();
    search_pattern(&buf, &mut results);
    assert_eq!(results, vec![("a".repeat(64), "a".repeat(32))]);
}

#[test]
fn repeated_literal_is_reported_once() {
    let hex = format!("{}{}", "A".repeat(64), "b".repeat(32));
    let lower = format!("{}{}", "a".repeat(64), "b".repeat(32));
    let mut buf = literal(&hex);
    buf.extend(literal(&lower));
    let mut results = vec![("x".to_string(), "y".to_string())];
    search_pattern(&buf, &mut results);
    assert_eq!(results.len(), 2);
    assert_eq!(results[1], ("a".repeat(64), "b".repeat(32)));
}

#[test]
fn buffer_shorter_than_a_literal_finds_nothing() {
    let mut results = Vec::new();
    search_pattern(b"x'abc'", &mut results);
    search_pattern(b"", &mut results);
    assert!(results.is_empty());
}

#[test]
fn chunk_is_searched_only_up_to_the_bytes_read() {
    let hex = format!("{}{}", "1".repeat(64), "2".repeat(32));
    let buf = literal(&hex);
    let mut results = Vec::new();
    scan_chunk(&buf, true, buf.len() - 1, &mut results);
    assert!(results.is_empty());
    scan_chunk(&buf, false, buf.len(), &mut results);
    assert!(results.is_empty());
    scan_chunk(&buf, true, 0, &mut results);
    assert!(results.is_empty());
    scan_chunk(&buf, true, buf.len() + 100, &mut results);
    assert_eq!(results.len(), 1);
}
