use gitpow_graph::branches::{
    default_auto_fetch, find_main_ref, is_main_like_branch, is_main_like_lowered,
    main_ref_candidates, BranchesQuery,
};
use gitpow_graph::fetch::FetchTracker;
use gitpow_graph::files::compute_file_creation_info;

#[test]
fn auto_fetch_defaults_on() {
    assert!(default_auto_fetch());
    assert!(BranchesQuery::default().auto_fetch);
}

#[test]
fn main_like_names() {
    assert!(is_main_like_branch("main"));
    assert!(is_main_like_branch("origin/Main"));
    assert!(is_main_like_branch("MASTER"));
    assert!(is_main_like_branch("remotes/origin/Development"));
    assert!(is_main_like_branch("Trunk"));
    assert!(!is_main_like_branch("feature/main-fix"));
    assert!(!is_main_like_branch("main/feature"));
    assert!(!is_main_like_branch(""));
}

#[test]
fn lowered_names_are_taken_as_given() {
    assert!(is_main_like_lowered("origin/develop"));
    assert!(!is_main_like_lowered("origin/Develop"));
}

#[test]
fn main_ref_prefers_in_order() {
    let refs = vec!["develop".to_string(), "master".to_string()];
    assert_eq!(find_main_ref(&refs), "master");
    assert_eq!(find_main_ref(&vec!["origin/develop".to_string()]), "origin/develop");
    assert_eq!(find_main_ref(&vec![]), "main");
    assert_eq!(find_main_ref(&vec!["feature".to_string()]), "main");
    assert_eq!(main_ref_candidates().len(), 6);
}

#[test]
fn fetch_cooldown() {
    let mut t = FetchTracker::new();
    assert!(t.should_fetch("repo", 1_000));
    assert!(!t.should_fetch("repo", 1_000));
    assert!(!t.should_fetch("repo", 60_999));
    assert!(t.should_fetch("other", 2_000));
    assert!(t.should_fetch("repo", 61_000));
    assert!(!t.should_fetch("repo", 100_000));
    assert!(!t.should_fetch("repo", 0));
}

#[test]
fn creation_found() {
    let log = "abc123\u{1f}2024-01-02T03:04:05+00:00\u{1f}Add file\nlater\u{1f}x\u{1f}y\n";
    let info = compute_file_creation_info(Some(10), log);
    assert!(info.found);
    assert_eq!(info.commit_sha.as_deref(), Some("abc123"));
    assert_eq!(info.commit_date.as_deref(), Some("2024-01-02T03:04:05+00:00"));
    assert_eq!(info.date.as_deref(), Some("2024-01-02T03:04:05+00:00"));
    assert_eq!(info.message.as_deref(), Some("Add file"));
    assert_eq!(info.error, None);
}

#[test]
fn creation_two_fields_and_crlf() {
    let info = compute_file_creation_info(None, "abc\u{1f}2024\r\nrest");
    assert!(info.found);
    assert_eq!(info.commit_date.as_deref(), Some("2024"));
    assert_eq!(info.message, None);
}

#[test]
fn creation_not_found() {
    for log in ["", "just-a-sha", "\nabc\u{1f}d"] {
        let info = compute_file_creation_info(Some(3), log);
        assert!(!info.found);
        assert_eq!(info.message.as_deref(), Some("File creation commit not found"));
        assert_eq!(info.error, None);
    }
}

#[test]
fn creation_disabled_on_large_repos() {
    let info = compute_file_creation_info(Some(20_001), "abc\u{1f}d");
    assert!(!info.found);
    assert_eq!(info.error.as_deref(), Some("disabled"));
    assert_eq!(
        info.message.as_deref(),
        Some("Disabled for performance on large repositories")
    );
    assert!(compute_file_creation_info(Some(20_000), "abc\u{1f}d").found);
}
