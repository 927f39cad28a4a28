//! The whole block/unblock path on one domain, with the external
//! pieces (commands, files) replayed as plain values.

use security_smile::compile::{build_unblock_script, compile_block, compile_unblock, Direction};
use security_smile::monitor::{handle_blocked_domain_access, AttemptTable, NotificationSettings};
use security_smile::cache::ReverseLookupCache;
use security_smile::persist::decode_domains;
use security_smile::resolver::resolve_from_outputs;
use security_smile::store::BlockedDomains;
use security_smile::validate::validate_block_domain;

#[test]
fn block_then_unblock_round_trip() {
    let domain = "example.test";
    assert!(validate_block_domain(domain).is_ok());

    // resolution: the primary method answers
    let nslookup = Ok("Name: example.test\nAddresses: 93.184.216.34\n".to_string());
    let ping = Ok(String::new());
    let ips = resolve_from_outputs(&nslookup, &ping).unwrap();
    assert_eq!(ips, vec!["93.184.216.34".to_string()]);

    // compilation: one inbound and one outbound descriptor
    let descriptors = compile_block(domain, &ips);
    assert_eq!(descriptors.len(), 2);
    assert!(matches!(descriptors[0].direction, Direction::Outbound));
    assert!(matches!(descriptors[1].direction, Direction::Inbound));

    // the executor "applied" the script; the store commits and persists
    let mut store = BlockedDomains::new();
    let persisted = store.commit_block(domain);
    assert!(store.contains(domain));
    assert_eq!(persisted, "[\"example.test\"]");

    // unblock regenerates the candidates without any record of the ips
    let candidates = compile_unblock(domain);
    assert!(candidates.contains(&"Block-Domain-Outbound-example.test".to_string()));
    let script = build_unblock_script(domain);
    // per-candidate failures ("Rule not found") are tolerated by design
    assert!(script.contains("Rule not found"));

    let persisted = store.commit_unblock(domain);
    assert!(!store.contains(domain));
    assert_eq!(persisted, "[]");
    assert_eq!(decode_domains(&persisted), Some(vec![]));
}

#[test]
fn monitor_correlates_alert_with_blocked_domain() {
    // the store holds one blocked domain; an alert names its ip
    let mut store = BlockedDomains::new();
    store.add("blocked.test");
    let mut cache = ReverseLookupCache::new();
    let mut attempts = AttemptTable::new();
    let settings = NotificationSettings::default();

    // first alert: cache miss, the reverse lookup succeeds
    let matched = cache.record_resolution("9.9.9.9", &Some("blocked.test".to_string()), 0, &store);
    assert_eq!(matched, Some("blocked.test".to_string()));
    let dispatch = handle_blocked_domain_access(&mut attempts, &settings, "blocked.test", "9.9.9.9", 0);
    assert_eq!(dispatch, Some(settings.domain_blocked_delay_seconds));

    // a burst of alerts within the cooldown stays quiet
    for t in 1..=30 {
        let again = handle_blocked_domain_access(
            &mut attempts,
            &settings,
            "blocked.test",
            "9.9.9.9",
            t,
        );
        assert_eq!(again, None);
    }

    // after the cooldown the next match notifies again
    let later = handle_blocked_domain_access(&mut attempts, &settings, "blocked.test", "9.9.9.9", 61);
    assert_eq!(later, Some(settings.domain_blocked_delay_seconds));
}
