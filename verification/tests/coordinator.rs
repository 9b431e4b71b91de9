use std::sync::Arc;

use rsummary::coordinator::{
    allowed, parse_timeout_seconds, AnalyzeRepoError, CacheDecision, Coordinator, MirrorError,
    RequestDecision, DEFAULT_CACHE_TIMEOUT_SECS,
};
use rsummary::coordinator::screen_request;
use rsummary::RepoId;

fn rid(user: &str, repo: &str) -> RepoId {
    RepoId { user: user.to_owned(), repo: repo.to_owned() }
}

fn log_lines() -> Vec<String> {
    vec!["h1::::Auto merge of #1 - alice:one, r=carol::::bors".to_owned()]
}

#[test]
fn timeout_setting_needs_digits_and_suffix() {
    assert_eq!(parse_timeout_seconds("12s"), Some(12));
    assert_eq!(parse_timeout_seconds("300s"), Some(300));
    assert_eq!(parse_timeout_seconds("12"), None);
    assert_eq!(parse_timeout_seconds("s"), None);
    assert_eq!(parse_timeout_seconds(""), None);
    assert_eq!(parse_timeout_seconds("1a2s"), None);
    assert_eq!(parse_timeout_seconds("18446744073709551615s"), Some(u64::MAX));
    assert_eq!(parse_timeout_seconds("18446744073709551616s"), None);
    assert_eq!(DEFAULT_CACHE_TIMEOUT_SECS, 300);
}

#[test]
fn empty_cache_asks_for_a_refresh() {
    let coord = Coordinator::new(300);
    assert!(matches!(coord.decide(&rid("o", "r"), 0), CacheDecision::Refresh));
}

#[test]
fn fresh_entry_is_served_within_the_window_as_the_same_instance() {
    let mut coord = Coordinator::new(300);
    let id = rid("o", "r");
    let stored = coord.handle_outcome(&id, Ok(log_lines()), 100).unwrap();
    // Within the freshness window: the identical shared result, no new pass.
    match coord.decide(&id, 399) {
        CacheDecision::Fresh(r) => {
            assert!(Arc::ptr_eq(&r, &stored));
            assert_eq!(r.merges().len(), 1);
        }
        CacheDecision::Refresh => panic!("expected a cache hit"),
    }
}

#[test]
fn entry_goes_stale_once_the_window_elapses() {
    let mut coord = Coordinator::new(300);
    let id = rid("o", "r");
    coord.handle_outcome(&id, Ok(log_lines()), 100).unwrap();
    assert!(matches!(coord.decide(&id, 400), CacheDecision::Refresh));
    // A new successful pass refreshes the timestamp.
    coord.handle_outcome(&id, Ok(log_lines()), 400).unwrap();
    assert!(matches!(coord.decide(&id, 699), CacheDecision::Fresh(_)));
    assert!(matches!(coord.decide(&id, 700), CacheDecision::Refresh));
}

#[test]
fn failed_mirror_update_reports_and_keeps_the_old_entry() {
    let mut coord = Coordinator::new(300);
    let id = rid("o", "r");
    let stored = coord.handle_outcome(&id, Ok(log_lines()), 100).unwrap();
    let err = coord
        .handle_outcome(&id, Err(MirrorError::Io("disk gone".to_owned())), 150)
        .unwrap_err();
    assert!(matches!(err, AnalyzeRepoError::Io(ref s) if s == "disk gone"));
    // The pre-existing entry is untouched: same instance, same timestamp.
    match coord.decide(&id, 399) {
        CacheDecision::Fresh(r) => assert!(Arc::ptr_eq(&r, &stored)),
        CacheDecision::Refresh => panic!("stale-but-present entry was evicted"),
    }
    assert!(matches!(coord.decide(&id, 400), CacheDecision::Refresh));
}

#[test]
fn shell_failures_are_reported_as_shell_errors() {
    let mut coord = Coordinator::new(300);
    let err = coord
        .handle_outcome(&rid("o", "r"), Err(MirrorError::Shell("exit 128".to_owned())), 0)
        .unwrap_err();
    assert!(matches!(err, AnalyzeRepoError::Shell(ref s) if s == "exit 128"));
}

#[test]
fn entries_are_kept_per_identity() {
    let mut coord = Coordinator::new(300);
    let a = rid("o", "a");
    let b = rid("o", "b");
    coord.handle_outcome(&a, Ok(log_lines()), 100).unwrap();
    coord.handle_outcome(&b, Ok(Vec::new()), 100).unwrap();
    match coord.decide(&a, 200) {
        CacheDecision::Fresh(r) => assert_eq!(r.merges().len(), 1),
        CacheDecision::Refresh => panic!(),
    }
    match coord.decide(&b, 200) {
        CacheDecision::Fresh(r) => assert_eq!(r.merges().len(), 0),
        CacheDecision::Refresh => panic!(),
    }
}

#[test]
fn identity_equality_is_case_sensitive_on_both_fields() {
    assert_eq!(rid("a", "b"), rid("a", "b"));
    assert_ne!(rid("a", "b"), rid("A", "b"));
    assert_ne!(rid("a", "b"), rid("a", "c"));
    assert_eq!(RepoId::from(("a".to_owned(), "b".to_owned())), rid("a", "b"));
}

#[test]
fn allow_list_membership() {
    let allow = vec![rid("rust-lang", "rust"), rid("o", "r")];
    assert!(allowed(&allow, &rid("o", "r")));
    assert!(!allowed(&allow, &rid("o", "R")));
    assert!(!allowed(&allow, &rid("x", "y")));
}

#[test]
fn request_for_unlisted_identity_is_rejected_before_the_cache() {
    let coord = Coordinator::new(300);
    let allow = vec![rid("rust-lang", "rust")];
    let d = screen_request(&allow, &coord, &rid("evil", "repo"), 0);
    assert!(matches!(d, RequestDecision::Forbidden));
}

#[test]
fn allowed_request_goes_to_the_cache() {
    let mut coord = Coordinator::new(300);
    let allow = vec![rid("o", "r")];
    let id = rid("o", "r");
    assert!(matches!(
        screen_request(&allow, &coord, &id, 0),
        RequestDecision::Refresh
    ));
    coord.handle_outcome(&id, Ok(log_lines()), 0).unwrap();
    assert!(matches!(
        screen_request(&allow, &coord, &id, 10),
        RequestDecision::Fresh(_)
    ));
}
