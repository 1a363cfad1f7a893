use hachimi_ura_plugin::keychain::{
    clear_endpoint, endpoint, hook_outcome, KeychainHooks, KeychainLog, KeychainOperation,
    MAX_EVENTS,
};

fn hooks() -> KeychainHooks {
    KeychainHooks { read_address: 1, write_address: 0, delete_address: 5 }
}

#[test]
fn record_appends_and_disabled_capture_is_ignored() {
    let mut log = KeychainLog::new();
    log.record(true, 1000, KeychainOperation::Read, 0x1234, "abc\"".to_string());
    log.record(false, 2000, KeychainOperation::Write, 0, "x".to_string());
    log.record(true, 3000, KeychainOperation::Delete, 0, String::new());
    assert_eq!(log.len(), 2);
    let out = endpoint(&log, "/api/keychain?after_sequence=0&limit=10", true, &hooks());
    assert_eq!(
        out,
        r#"{"ok":true,"capture_enabled":true,"hooks":{"get":"installed","set":"not_installed","delete":"installed"},"after_sequence":0,"next_sequence":2,"count":2,"events":[{"sequence":1,"timestamp_ms":1000,"operation":"GetKeyChainViewerId","object_address":"0x1234","value":"abc\""},{"sequence":2,"timestamp_ms":3000,"operation":"DeleteKeyChainViewerId","object_address":"0x0","value":""}]}"#
    );
}

#[test]
fn paging_after_and_limit() {
    let mut log = KeychainLog::new();
    for i in 0..5u64 {
        log.record(true, 10 * i, KeychainOperation::Write, 0, format!("v{}", i));
    }
    let out = endpoint(&log, "/k?after_sequence=2&limit=2", false, &hooks());
    assert_eq!(
        out,
        r#"{"ok":true,"capture_enabled":false,"hooks":{"get":"installed","set":"not_installed","delete":"installed"},"after_sequence":2,"next_sequence":4,"count":2,"events":[{"sequence":3,"timestamp_ms":20,"operation":"SetKeyChainViewerId","object_address":"0x0","value":"v2"},{"sequence":4,"timestamp_ms":30,"operation":"SetKeyChainViewerId","object_address":"0x0","value":"v3"}]}"#
    );
    // resuming from the reported next_sequence returns the rest
    let rest = endpoint(&log, "/k?after_sequence=4", false, &hooks());
    assert!(rest.contains(r#""count":1,"#));
    assert!(rest.contains(r#""sequence":5,"#));
    assert!(rest.contains(r#""next_sequence":5,"#));
}

#[test]
fn limit_is_clamped_and_malformed_parameters_default() {
    let mut log = KeychainLog::new();
    for i in 0..3u64 {
        log.record(true, i, KeychainOperation::Read, 0, String::new());
    }
    let zero = endpoint(&log, "/k?limit=0", false, &hooks());
    assert!(zero.contains(r#""count":1,"#));
    let bad = endpoint(&log, "/k?limit=abc&after_sequence=-1", false, &hooks());
    assert!(bad.contains(r#""after_sequence":0,"#));
    assert!(bad.contains(r#""count":3,"#));
    let plus = endpoint(&log, "/k?after_sequence=+2", false, &hooks());
    assert!(plus.contains(r#""after_sequence":2,"#));
    assert!(plus.contains(r#""count":1,"#));
    let empty = endpoint(&log, "/k?after_sequence=99", false, &hooks());
    assert!(empty.contains(r#""next_sequence":99,"count":0,"events":[]}"#));
}

#[test]
fn log_keeps_only_the_newest_events() {
    let mut log = KeychainLog::new();
    for i in 0..(MAX_EVENTS as u64 + 3) {
        log.record(true, i, KeychainOperation::Read, 0, String::new());
    }
    assert_eq!(log.len(), MAX_EVENTS);
    let out = endpoint(&log, "/k?limit=1", false, &hooks());
    assert!(out.contains(r#""events":[{"sequence":4,"#));
}

#[test]
fn clear_reports_count_and_counter_continues() {
    let mut log = KeychainLog::new();
    log.record(true, 1, KeychainOperation::Read, 0, String::new());
    log.record(true, 2, KeychainOperation::Read, 0, String::new());
    assert_eq!(clear_endpoint(&mut log), r#"{"ok":true,"cleared":2}"#);
    assert_eq!(log.len(), 0);
    assert_eq!(clear_endpoint(&mut log), r#"{"ok":true,"cleared":0}"#);
    log.record(true, 3, KeychainOperation::Read, 0, String::new());
    let out = endpoint(&log, "/k", false, &hooks());
    assert!(out.contains(r#""sequence":3,"#));
}

#[test]
fn hook_outcome_reports_address_or_failure() {
    assert_eq!(hook_outcome(0x7f00, true), (true, "hooked@0x7f00".to_string()));
    assert_eq!(hook_outcome(0x7f00, false), (false, "failed: resolve_or_hook".to_string()));
    assert_eq!(hook_outcome(0, true), (false, "failed: resolve_or_hook".to_string()));
}

fn field_after(out: &str, key: &str) -> u64 {
    let start = out.find(key).unwrap() + key.len();
    let digits: String = out[start..].chars().take_while(|c| c.is_ascii_digit()).collect();
    digits.parse().unwrap()
}

#[test]
fn following_next_sequence_pages_through_every_event_once() {
    let mut log = KeychainLog::new();
    for i in 0..10u64 {
        log.record(true, i, KeychainOperation::Read, 0, String::new());
    }
    let mut after = 0u64;
    let mut seen = Vec::new();
    loop {
        let out = endpoint(&log, &format!("/k?after_sequence={}&limit=3", after), false, &hooks());
        let count = field_after(&out, r#""count":"#);
        let mut rest = out.as_str();
        while let Some(p) = rest.find(r#"{"sequence":"#) {
            rest = &rest[p..];
            seen.push(field_after(rest, r#"{"sequence":"#));
            rest = &rest[1..];
        }
        let next = field_after(&out, r#""next_sequence":"#);
        if count == 0 {
            assert_eq!(next, after);
            break;
        }
        after = next;
    }
    assert_eq!(seen, (1..=10u64).collect::<Vec<_>>());
}
