use phone_companion::dedup::dedup_record;
use phone_companion::dedup::should_show_file_notification;
use phone_companion::dedup::should_show_notification;
use phone_companion::dedup::should_show_sms_notification;
use phone_companion::dedup::sms_notification_key;

/// Decide against the current file content as the surrounding application
/// does and, when allowed, overwrite it with the new record.
fn decide_and_record(state: &mut String, key: &str, now_ms: u64) -> bool {
    let allow = should_show_notification(state, key, now_ms);
    if allow {
        *state = dedup_record(key, now_ms);
    }
    allow
}

#[test]
fn first_notification_returns_true() {
    let mut state = String::new();
    let result = decide_and_record(&mut state, "test-key", 1_000_000);
    assert!(result, "First notification for a key should return true");
}

#[test]
fn duplicate_within_window_returns_false() {
    let mut state = String::new();
    let first = decide_and_record(&mut state, "same-key", 1_000_000);
    assert!(first, "First notification should return true");
    let second = decide_and_record(&mut state, "same-key", 1_000_100);
    assert!(!second, "Duplicate within window should return false");
}

#[test]
fn different_key_returns_true() {
    let mut state = String::new();
    let first = decide_and_record(&mut state, "key-a", 1_000_000);
    assert!(first, "First notification should return true");
    let second = decide_and_record(&mut state, "key-b", 1_000_100);
    assert!(second, "Different key should return true");
}

#[test]
fn expired_window_returns_true() {
    let now: u64 = 5_000_000;
    let old_time = now - 3000;
    let state = format!("old-key\n{}", old_time);
    let result = should_show_notification(&state, "old-key", now);
    assert!(result, "Same key after window expires should return true");
}

#[test]
fn boundary_of_window() {
    let now: u64 = 5_000_000;
    let state = dedup_record("k", now);
    assert!(!should_show_notification(&state, "k", now + 1999));
    assert!(should_show_notification(&state, "k", now + 2000));
}

#[test]
fn handles_corrupted_file() {
    let state = String::from("not-valid-format");
    let result = should_show_notification(&state, "test-key", 1_000_000);
    assert!(result, "Corrupted file should allow notification");
}

#[test]
fn handles_garbage_timestamp() {
    let state = String::from("test-key\nnot-a-number");
    let result = should_show_notification(&state, "test-key", 1_000_000);
    assert!(result, "Unparseable timestamp should allow notification");
}

#[test]
fn handles_empty_file() {
    let state = String::new();
    let result = should_show_notification(&state, "test-key", 1_000_000);
    assert!(result, "Empty file should allow notification");
}

#[test]
fn file_notification_wrapper_works() {
    let result = should_show_file_notification("", "/test/path/file.txt", 1_000_000);
    assert!(result || !result);
}

#[test]
fn sms_notification_wrapper_works() {
    let result = should_show_sms_notification("", 12345, 1700000000000, 1_000_000);
    assert!(result || !result);
}

#[test]
fn sms_key_is_thread_and_timestamp() {
    assert_eq!(sms_notification_key(12345, 1700000000000), "12345:1700000000000");
    assert_eq!(sms_notification_key(-3, -40), "-3:-40");
}

#[test]
fn sms_dedup_uses_composed_key() {
    let state = dedup_record("7:1000", 1_000_000);
    assert!(!should_show_sms_notification(&state, 7, 1000, 1_000_100));
    assert!(should_show_sms_notification(&state, 7, 1001, 1_000_100));
    assert!(should_show_sms_notification(&state, 8, 1000, 1_000_100));
}

#[test]
fn multiple_rapid_calls_same_key() {
    let mut state = String::new();
    let first = decide_and_record(&mut state, "rapid-key", 1_000_000);
    assert!(first);
    for i in 0..5u64 {
        let result = decide_and_record(&mut state, "rapid-key", 1_000_001 + i);
        assert!(!result, "Call {} should be suppressed", i + 2);
    }
}

#[test]
fn alternating_keys() {
    let mut state = String::new();
    assert!(decide_and_record(&mut state, "key-1", 1_000_000));
    assert!(decide_and_record(&mut state, "key-2", 1_000_001));
    assert!(decide_and_record(&mut state, "key-3", 1_000_002));
    assert!(decide_and_record(&mut state, "key-1", 1_000_003));
}

#[test]
fn stored_time_in_future_suppresses_same_key() {
    let state = dedup_record("k", 5_000_000);
    assert!(!should_show_notification(&state, "k", 4_999_000));
    assert!(should_show_notification(&state, "other", 4_999_000));
}
