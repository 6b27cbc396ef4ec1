use kiro_gateway::{CooldownManager, CooldownReason};

#[test]
fn test_cooldown_manager_new() {
    let manager = CooldownManager::new();
    assert!(manager.is_available(1));
}

#[test]
fn test_cooldown_set_and_check() {
    let mut manager = CooldownManager::new();

    let duration = manager.set_cooldown(1, CooldownReason::RateLimitExceeded);
    assert!(duration >= 60);

    let (reason, remaining) = manager.check_cooldown(1).unwrap();
    assert_eq!(reason, CooldownReason::RateLimitExceeded);
    assert!(remaining > 0);

    assert!(!manager.is_available(1));
}

#[test]
fn test_cooldown_clear() {
    let mut manager = CooldownManager::new();

    manager.set_cooldown(1, CooldownReason::ServerError);
    assert!(!manager.is_available(1));

    assert!(manager.clear_cooldown(1));
    assert!(manager.is_available(1));
}

#[test]
fn test_cooldown_incremental() {
    let mut manager = CooldownManager::new();

    let d1 = manager.set_cooldown(1, CooldownReason::RateLimitExceeded);

    manager.clear_cooldown(1);
    let d2 = manager.set_cooldown(1, CooldownReason::RateLimitExceeded);

    assert!(d2 >= d1);
}

#[test]
fn test_cooldown_reason_auto_recoverable() {
    assert!(CooldownReason::RateLimitExceeded.is_auto_recoverable());
    assert!(CooldownReason::ServerError.is_auto_recoverable());
    assert!(!CooldownReason::AccountSuspended.is_auto_recoverable());
    assert!(!CooldownReason::QuotaExhausted.is_auto_recoverable());
}

#[test]
fn test_cooldown_custom_duration() {
    let mut manager = CooldownManager::new();

    let custom = 10;
    let duration = manager.set_cooldown_with_duration(1, CooldownReason::ServerError, Some(custom));

    assert_eq!(duration, custom);
}

#[test]
fn test_cooldown_get_all() {
    let mut manager = CooldownManager::new();

    manager.set_cooldown(1, CooldownReason::RateLimitExceeded);
    manager.set_cooldown(2, CooldownReason::ServerError);

    let cooldowns = manager.get_all_cooldowns();
    assert_eq!(cooldowns.len(), 2);
}

#[test]
fn test_cooldown_reason_description() {
    assert_eq!(CooldownReason::RateLimitExceeded.description(), "速率限制");
    assert_eq!(CooldownReason::AccountSuspended.description(), "账户暂停");
}

#[test]
fn test_cooldown_backoff_escalates_exactly() {
    // repeated triggers of the same recoverable reason escalate by 1.5x,
    // floored, up to the five-minute default cap
    let mut manager = CooldownManager::new();
    assert_eq!(manager.set_cooldown(7, CooldownReason::RateLimitExceeded), 60);
    assert_eq!(manager.set_cooldown(7, CooldownReason::RateLimitExceeded), 90);
    assert_eq!(manager.set_cooldown(7, CooldownReason::RateLimitExceeded), 135);
    assert_eq!(manager.set_cooldown(7, CooldownReason::RateLimitExceeded), 202);
    assert_eq!(manager.set_cooldown(7, CooldownReason::RateLimitExceeded), 300);
    assert_eq!(manager.set_cooldown(7, CooldownReason::RateLimitExceeded), 300);
}

#[test]
fn test_cooldown_backoff_custom_cap() {
    let mut manager = CooldownManager::with_config(100, 1000);
    assert_eq!(manager.set_cooldown(1, CooldownReason::RateLimitExceeded), 60);
    assert_eq!(manager.set_cooldown(1, CooldownReason::RateLimitExceeded), 90);
    assert_eq!(manager.set_cooldown(1, CooldownReason::RateLimitExceeded), 100);
}

#[test]
fn test_cooldown_long_reasons_fixed() {
    // a non-recoverable reason always applies exactly the long window
    let mut manager = CooldownManager::new();
    assert_eq!(manager.set_cooldown(1, CooldownReason::AccountSuspended), 86400);
    assert_eq!(manager.set_cooldown(1, CooldownReason::AccountSuspended), 86400);
    assert_eq!(manager.set_cooldown(1, CooldownReason::AccountSuspended), 86400);
    assert_eq!(manager.set_cooldown(2, CooldownReason::AuthenticationFailed), 86400);
    assert_eq!(manager.set_cooldown(3, CooldownReason::QuotaExhausted), 86400);
}

#[test]
fn test_cooldown_reason_change_resets_count() {
    let mut manager = CooldownManager::new();
    assert_eq!(manager.set_cooldown(1, CooldownReason::RateLimitExceeded), 60);
    assert_eq!(manager.set_cooldown(1, CooldownReason::RateLimitExceeded), 90);
    // a different reason resets the trigger count to 1
    assert_eq!(manager.set_cooldown(1, CooldownReason::ServerError), 120);
    assert_eq!(manager.set_cooldown(1, CooldownReason::ServerError), 180);
}

#[test]
fn test_cooldown_cleanup_keeps_active() {
    let mut manager = CooldownManager::new();
    manager.set_cooldown(1, CooldownReason::RateLimitExceeded);
    manager.set_cooldown(2, CooldownReason::ServerError);
    // both windows are still in the future, so nothing is removed
    assert_eq!(manager.cleanup_expired(), 0);
    assert_eq!(manager.get_all_cooldowns().len(), 2);

    manager.clear_cooldown(1);
    assert_eq!(manager.get_all_cooldowns().len(), 1);
}

#[test]
fn test_cooldown_default_durations() {
    assert_eq!(CooldownReason::RateLimitExceeded.default_duration(), 60);
    assert_eq!(CooldownReason::TokenRefreshFailed.default_duration(), 60);
    assert_eq!(CooldownReason::ServerError.default_duration(), 120);
    assert_eq!(CooldownReason::ModelUnavailable.default_duration(), 300);
    assert_eq!(CooldownReason::AuthenticationFailed.default_duration(), 3600);
    assert_eq!(CooldownReason::AccountSuspended.default_duration(), 86400);
    assert_eq!(CooldownReason::QuotaExhausted.default_duration(), 86400);
}

#[test]
fn test_cooldown_explicit_clock() {
    // the clock-explicit interface pins lazy expiry down exactly: a
    // 60-second window set at 1000 ms ends at 61000 ms
    let mut manager = CooldownManager::new();
    let dur = manager.set_cooldown_at(5, CooldownReason::RateLimitExceeded, None, 1000);
    assert_eq!(dur, 60);

    let (reason, remaining) = manager.check_cooldown_at(5, 1000).unwrap();
    assert_eq!(reason, CooldownReason::RateLimitExceeded);
    assert_eq!(remaining, 60_000);

    assert_eq!(manager.check_cooldown_at(5, 60_999).unwrap().1, 1);
    assert!(manager.check_cooldown_at(5, 61_000).is_none());
    assert!(manager.is_available_at(5, 61_000));
    assert!(!manager.is_available_at(5, 60_999));

    // expired entries are dropped only by explicit cleanup
    assert_eq!(manager.get_all_cooldowns_at(61_000).len(), 0);
    assert_eq!(manager.cleanup_expired_at(60_999), 0);
    assert_eq!(manager.cleanup_expired_at(61_000), 1);
}

#[test]
fn test_cooldown_info_fields() {
    let mut manager = CooldownManager::new();
    manager.set_cooldown(42, CooldownReason::ModelUnavailable);
    let infos = manager.get_all_cooldowns();
    assert_eq!(infos.len(), 1);
    assert_eq!(infos[0].credential_id, 42);
    assert_eq!(infos[0].reason, CooldownReason::ModelUnavailable);
    assert_eq!(infos[0].trigger_count, 1);
    assert!(infos[0].remaining_ms <= 300 * 1000);
    assert!(infos[0].remaining_ms > 0);
}
