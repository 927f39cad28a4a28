use security_smile::cache::{CacheDecision, ReverseLookupCache, REVERSE_CACHE_TTL_SECONDS};
use security_smile::store::BlockedDomains;

#[test]
fn ttl_constant_is_one_hour() {
    assert_eq!(REVERSE_CACHE_TTL_SECONDS, 3600);
}

#[test]
fn entry_is_served_within_ttl_and_absent_after() {
    let mut cache = ReverseLookupCache::new();
    cache.insert("9.9.9.9", "blocked.test", 0);
    assert_eq!(cache.lookup("9.9.9.9", 0), Some("blocked.test".to_string()));
    assert_eq!(
        cache.lookup("9.9.9.9", REVERSE_CACHE_TTL_SECONDS),
        Some("blocked.test".to_string())
    );
    assert_eq!(cache.lookup("9.9.9.9", REVERSE_CACHE_TTL_SECONDS + 1), None);
}

#[test]
fn expired_entry_triggers_fresh_resolution() {
    let mut cache = ReverseLookupCache::new();
    cache.insert("9.9.9.9", "blocked.test", 0);
    let mut blocked = BlockedDomains::new();
    blocked.add("blocked.test");
    let at_expiry = cache.evaluate("9.9.9.9", REVERSE_CACHE_TTL_SECONDS + 1, &blocked);
    assert!(matches!(at_expiry, CacheDecision::NeedResolve));
    let within = cache.evaluate("9.9.9.9", 10, &blocked);
    assert!(matches!(within, CacheDecision::Blocked(d) if d == "blocked.test"));
}

#[test]
fn hit_distinguishes_blocked_from_known_not_blocked() {
    let mut cache = ReverseLookupCache::new();
    cache.insert("1.2.3.4", "benign.test", 100);
    let blocked = BlockedDomains::new();
    let decision = cache.evaluate("1.2.3.4", 100, &blocked);
    assert!(matches!(decision, CacheDecision::KnownNotBlocked));
    let unknown = cache.evaluate("5.6.7.8", 100, &blocked);
    assert!(matches!(unknown, CacheDecision::NeedResolve));
}

#[test]
fn refresh_overwrites_the_entry() {
    let mut cache = ReverseLookupCache::new();
    cache.insert("1.2.3.4", "old.test", 0);
    cache.insert("1.2.3.4", "new.test", 50);
    assert_eq!(cache.len(), 1);
    assert_eq!(cache.lookup("1.2.3.4", 60), Some("new.test".to_string()));
}

#[test]
fn successful_resolution_populates_cache_even_when_not_blocked() {
    let mut cache = ReverseLookupCache::new();
    let blocked = BlockedDomains::new();
    let outcome = cache.record_resolution("1.2.3.4", &Some("benign.test".to_string()), 0, &blocked);
    assert_eq!(outcome, None);
    // the next lookup for the same ip skips the network
    assert_eq!(cache.lookup("1.2.3.4", 1), Some("benign.test".to_string()));
}

#[test]
fn resolution_of_blocked_domain_reports_match() {
    let mut cache = ReverseLookupCache::new();
    let mut blocked = BlockedDomains::new();
    blocked.add("blocked.test");
    let outcome =
        cache.record_resolution("9.9.9.9", &Some("blocked.test".to_string()), 0, &blocked);
    assert_eq!(outcome, Some("blocked.test".to_string()));
}

#[test]
fn failed_resolution_leaves_cache_alone() {
    let mut cache = ReverseLookupCache::new();
    let blocked = BlockedDomains::new();
    let outcome = cache.record_resolution("1.2.3.4", &None, 0, &blocked);
    assert_eq!(outcome, None);
    assert_eq!(cache.len(), 0);
    assert!(matches!(
        cache.evaluate("1.2.3.4", 1, &blocked),
        CacheDecision::NeedResolve
    ));
}

#[test]
fn sweep_purges_expired_entries_only() {
    let mut cache = ReverseLookupCache::new();
    cache.insert("1.1.1.1", "old.test", 0);
    cache.insert("2.2.2.2", "young.test", 5000);
    cache.sweep(REVERSE_CACHE_TTL_SECONDS + 100);
    assert_eq!(cache.len(), 1);
    assert_eq!(
        cache.lookup("2.2.2.2", REVERSE_CACHE_TTL_SECONDS + 100),
        Some("young.test".to_string())
    );
    assert_eq!(cache.lookup("1.1.1.1", REVERSE_CACHE_TTL_SECONDS + 100), None);
}
