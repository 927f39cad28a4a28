use security_smile::persist::{decode_domains, encode_domains};
use security_smile::store::BlockedDomains;

#[test]
fn blocking_twice_keeps_one_entry() {
    let mut store = BlockedDomains::new();
    assert!(store.add("x.test"));
    assert!(!store.add("x.test"));
    assert!(!store.add("x.test"));
    assert_eq!(store.list(), vec!["x.test".to_string()]);
    assert_eq!(store.len(), 1);
}

#[test]
fn redundant_blocks_persist_identically() {
    let mut once = BlockedDomains::new();
    once.add("x.test");
    let file_after_one = once.commit_block("x.test");
    let mut many = BlockedDomains::new();
    let mut file_after_many = String::new();
    for _ in 0..5 {
        file_after_many = many.commit_block("x.test");
    }
    assert_eq!(file_after_one, file_after_many);
}

#[test]
fn domains_are_case_normalized() {
    let mut store = BlockedDomains::new();
    store.add("Example.TEST");
    assert_eq!(store.list(), vec!["example.test".to_string()]);
    assert!(store.contains("EXAMPLE.test"));
    assert!(!store.add("example.test"));
}

#[test]
fn persisted_list_round_trips_across_restart() {
    let mut store = BlockedDomains::new();
    let file = store.commit_block("x.test");
    assert_eq!(file, "[\"x.test\"]");
    let loaded = decode_domains(&file).expect("persisted file parses");
    let mut reloaded = BlockedDomains::new();
    reloaded.initialize(&loaded);
    let listed = reloaded.list();
    assert_eq!(listed, vec!["x.test".to_string()]);
    assert_eq!(
        listed.iter().filter(|d| d.as_str() == "x.test").count(),
        1
    );
}

#[test]
fn multiple_domains_keep_insertion_order() {
    let mut store = BlockedDomains::new();
    store.add("b.test");
    store.add("a.test");
    store.add("c.test");
    let file = store.commit_block("c.test");
    assert_eq!(file, "[\"b.test\",\"a.test\",\"c.test\"]");
    let loaded = decode_domains(&file).unwrap();
    let mut reloaded = BlockedDomains::new();
    reloaded.initialize(&loaded);
    assert_eq!(reloaded.list(), store.list());
}

#[test]
fn unblocking_removes_the_domain() {
    let mut store = BlockedDomains::new();
    store.add("a.test");
    store.add("b.test");
    let file = store.commit_unblock("a.test");
    assert_eq!(store.list(), vec!["b.test".to_string()]);
    assert_eq!(file, "[\"b.test\"]");
}

#[test]
fn unblocking_unknown_domain_is_a_noop() {
    let mut store = BlockedDomains::new();
    store.add("a.test");
    store.remove("never.test");
    assert_eq!(store.list(), vec!["a.test".to_string()]);
}

#[test]
fn empty_store_encodes_as_empty_array() {
    let store = BlockedDomains::new();
    let encoded = encode_domains(&store.list());
    assert_eq!(encoded, "[]");
    let decoded = decode_domains(&encoded).unwrap();
    assert!(decoded.is_empty());
}

#[test]
fn decoder_tolerates_whitespace() {
    let decoded = decode_domains("  [ \"a.test\" ,\n\t\"b.test\" ]  ").unwrap();
    assert_eq!(decoded, vec!["a.test".to_string(), "b.test".to_string()]);
}

#[test]
fn decoder_accepts_empty_array_with_whitespace() {
    assert_eq!(decode_domains(" [ ] "), Some(vec![]));
}

#[test]
fn decoder_rejects_malformed_input() {
    assert!(decode_domains("").is_none());
    assert!(decode_domains("nonsense").is_none());
    assert!(decode_domains("[").is_none());
    assert!(decode_domains("[\"a.test\"").is_none());
    assert!(decode_domains("[\"a.test\",]").is_none());
    assert!(decode_domains("[\"a.test\"] trailing").is_none());
    assert!(decode_domains("[42]").is_none());
    // escapes are never needed for domains and are rejected
    assert!(decode_domains("[\"a\\\"b\"]").is_none());
}

#[test]
fn load_from_file_normalizes_and_deduplicates() {
    let loaded = vec![
        "A.test".to_string(),
        "a.test".to_string(),
        "b.test".to_string(),
    ];
    let mut store = BlockedDomains::new();
    store.initialize(&loaded);
    assert_eq!(
        store.list(),
        vec!["a.test".to_string(), "b.test".to_string()]
    );
}
