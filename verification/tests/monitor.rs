use security_smile::monitor::{
    access_key, cleanup_old_attempts, handle_blocked_domain_access, is_monitor_active,
    make_notification, notification_plan, should_sweep, AlertEvent, AttemptTable, MonitorState,
    NotificationSettings, NotificationState, ATTEMPT_EXPIRY_SECONDS, CLEANUP_INTERVAL_SECONDS,
    NOTIFICATION_COOLDOWN_SECONDS,
};

#[test]
fn access_keys_join_domain_and_ip() {
    assert_eq!(access_key("blocked.test", "9.9.9.9"), "blocked.test:9.9.9.9");
}

fn settings(cooldown: u64, enabled: bool) -> NotificationSettings {
    NotificationSettings {
        domain_blocked_delay_seconds: 2,
        cooldown_seconds: cooldown,
        enabled,
    }
}

#[test]
fn default_settings_match_documented_values() {
    let s = NotificationSettings::default();
    assert_eq!(s.domain_blocked_delay_seconds, 2);
    assert_eq!(s.cooldown_seconds, 30);
    assert!(s.enabled);
    let state = NotificationState::default();
    assert_eq!(state.settings, s);
    assert_eq!(NOTIFICATION_COOLDOWN_SECONDS, 30);
}

#[test]
fn cooldown_debounces_notifications() {
    let mut table = AttemptTable::new();
    let s = settings(30, true);
    let first = handle_blocked_domain_access(&mut table, &s, "blocked.test", "9.9.9.9", 0);
    assert_eq!(first, Some(2));
    let second = handle_blocked_domain_access(&mut table, &s, "blocked.test", "9.9.9.9", 5);
    assert_eq!(second, None);
    let third = handle_blocked_domain_access(&mut table, &s, "blocked.test", "9.9.9.9", 40);
    assert_eq!(third, Some(2));
}

#[test]
fn cooldown_boundary_is_strict() {
    let mut table = AttemptTable::new();
    let s = settings(30, true);
    assert!(handle_blocked_domain_access(&mut table, &s, "a.test", "1.1.1.1", 0).is_some());
    // exactly the cooldown is still suppressed; one past it notifies
    assert!(handle_blocked_domain_access(&mut table, &s, "a.test", "1.1.1.1", 30).is_none());
    assert!(handle_blocked_domain_access(&mut table, &s, "a.test", "1.1.1.1", 31).is_some());
}

#[test]
fn distinct_keys_are_debounced_independently() {
    let mut table = AttemptTable::new();
    let s = settings(30, true);
    assert!(handle_blocked_domain_access(&mut table, &s, "a.test", "1.1.1.1", 0).is_some());
    assert!(handle_blocked_domain_access(&mut table, &s, "a.test", "2.2.2.2", 1).is_some());
    assert!(handle_blocked_domain_access(&mut table, &s, "b.test", "1.1.1.1", 2).is_some());
    assert_eq!(table.len(), 3);
}

#[test]
fn disabled_notifications_still_record_attempts() {
    let mut table = AttemptTable::new();
    let s = settings(30, false);
    let outcome = handle_blocked_domain_access(&mut table, &s, "a.test", "1.1.1.1", 0);
    assert_eq!(outcome, None);
    assert_eq!(table.len(), 1);
}

#[test]
fn stale_attempts_are_purged_after_ten_minutes() {
    let mut table = AttemptTable::new();
    let s = settings(30, true);
    handle_blocked_domain_access(&mut table, &s, "a.test", "1.1.1.1", 0);
    handle_blocked_domain_access(&mut table, &s, "b.test", "2.2.2.2", 300);
    cleanup_old_attempts(&mut table, ATTEMPT_EXPIRY_SECONDS);
    assert_eq!(table.len(), 1);
    cleanup_old_attempts(&mut table, 300 + ATTEMPT_EXPIRY_SECONDS);
    assert_eq!(table.len(), 0);
}

#[test]
fn monitor_start_is_idempotent() {
    let mut monitor = MonitorState::new();
    assert!(!is_monitor_active(&monitor));
    assert!(monitor.start());
    assert!(is_monitor_active(&monitor));
    assert!(!monitor.start());
    assert!(is_monitor_active(&monitor));
    monitor.stop();
    assert!(!is_monitor_active(&monitor));
    monitor.stop();
    assert!(!is_monitor_active(&monitor));
}

#[test]
fn housekeeping_runs_on_its_own_interval() {
    assert!(!should_sweep(0, CLEANUP_INTERVAL_SECONDS));
    assert!(should_sweep(0, CLEANUP_INTERVAL_SECONDS + 1));
    assert!(!should_sweep(100, 90));
}

#[test]
fn dispatch_plan_follows_settings() {
    assert_eq!(notification_plan(&settings(30, true)), Some(2));
    assert_eq!(notification_plan(&settings(30, false)), None);
    let mut custom = settings(30, true);
    custom.domain_blocked_delay_seconds = 7;
    assert_eq!(notification_plan(&custom), Some(7));
}

#[test]
fn notification_event_carries_alert_context() {
    let alert = AlertEvent {
        timestamp: "2025-01-01T00:00:00".to_string(),
        src_ip: Some("10.0.0.5".to_string()),
        dest_ip: Some("9.9.9.9".to_string()),
        src_port: Some(50000),
        dest_port: Some(443),
        signature: Some("ET POLICY suspicious".to_string()),
        category: None,
        severity: Some(2),
    };
    let event = make_notification("blocked.test", "9.9.9.9", &alert);
    assert_eq!(event.domain, "blocked.test");
    assert_eq!(event.ip, "9.9.9.9");
    assert_eq!(event.timestamp, "2025-01-01T00:00:00");
    assert_eq!(event.signature, Some("ET POLICY suspicious".to_string()));
}
