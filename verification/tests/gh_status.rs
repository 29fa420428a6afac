//! What GitHub says of a repository.

use repodeck::application::gh_status_service::{classify_ci, CiState};

#[test]
fn classify_ci_covers_the_states() {
    assert_eq!(classify_ci("in_progress", None), CiState::Running);
    assert_eq!(classify_ci("queued", None), CiState::Running);
    assert_eq!(classify_ci("completed", Some("success")), CiState::Success);
    assert_eq!(classify_ci("completed", Some("failure")), CiState::Failure);
    assert_eq!(
        classify_ci("completed", Some("timed_out")),
        CiState::Failure
    );
    assert_eq!(
        classify_ci("completed", Some("cancelled")),
        CiState::Failure
    );
    assert_eq!(classify_ci("completed", Some("skipped")), CiState::Unknown);
    assert_eq!(classify_ci("completed", None), CiState::Unknown);
}

#[test]
fn ci_symbols_match_the_dashboard() {
    assert_eq!(CiState::Success.symbol_label(), ("✓", "成功"));
    assert_eq!(CiState::Failure.symbol_label(), ("✕", "失敗"));
    assert_eq!(CiState::Running.symbol_label(), ("●", "実行中"));
    assert_eq!(CiState::NoRuns.symbol_label(), ("—", "未実行"));
}
