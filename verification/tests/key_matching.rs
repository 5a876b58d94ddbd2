use wx_cli::keys::{match_keys, merge_new_keys, unmatched_salts, push_if_new};

fn p(a: &str, b: &str) -> (String, String) {
    (a.to_string(), b.to_string())
}

#[test]
fn keys_from_several_processes_are_merged_once() {
    let mut all = Vec::new();
    let added = merge_new_keys(&mut all, vec![p("k1", "s1"), p("k2", "s2"), p("k1", "s1")]);
    assert_eq!(added, 2);
    let added = merge_new_keys(&mut all, vec![p("k2", "s2"), p("k3", "s3")]);
    assert_eq!(added, 1);
    assert_eq!(all, vec![p("k1", "s1"), p("k2", "s2"), p("k3", "s3")]);
}

#[test]
fn identity_is_key_text_followed_by_salt_text() {
    let mut all = vec![p("ab", "c")];
    assert!(!push_if_new(&mut all, "a".to_string(), "bc".to_string()));
    assert!(push_if_new(&mut all, "ab".to_string(), "d".to_string()));
    assert_eq!(all.len(), 2);
}

#[test]
fn each_salt_is_matched_once_with_its_first_database() {
    let raw = vec![p("key1", "saltA"), p("key2", "saltB"), p("key3", "saltA"), p("key4", "saltZ")];
    let dbs = vec![p("saltA", "message_0.db"), p("saltA", "message_1.db"), p("saltB", "contact.db"), p("saltC", "sns.db")];
    let entries = match_keys(&raw, &dbs);
    assert_eq!(entries.len(), 2);
    assert_eq!(entries[0].db_name, "message_0.db");
    assert_eq!(entries[0].enc_key, "key1");
    assert_eq!(entries[0].salt, "saltA");
    assert_eq!(entries[1].db_name, "contact.db");
    assert_eq!(entries[1].enc_key, "key2");
    assert_eq!(entries[1].salt, "saltB");

    let missing = unmatched_salts(&dbs, &entries);
    assert_eq!(missing.len(), 1);
    assert_eq!(missing[0].0, "saltC");
    assert_eq!(missing[0].1, vec!["sns.db".to_string()]);
}

#[test]
fn unmatched_salt_lists_all_its_databases() {
    let dbs = vec![p("s1", "a.db"), p("s2", "b.db"), p("s1", "c.db")];
    let missing = unmatched_salts(&dbs, &Vec::new());
    assert_eq!(missing.len(), 2);
    assert_eq!(missing[0], ("s1".to_string(), vec!["a.db".to_string(), "c.db".to_string()]));
    assert_eq!(missing[1], ("s2".to_string(), vec!["b.db".to_string()]));
    assert!(match_keys(&Vec::new(), &dbs).is_empty());
}
