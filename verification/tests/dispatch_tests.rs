use hypr_socket_watch::dispatch::{build_command_argument, classify_outcome, DispatchStatus};

#[test]
fn nonzero_exit_is_a_hard_failure() {
    assert_eq!(classify_outcome(false, ""), DispatchStatus::HardFailure);
    assert_eq!(classify_outcome(false, "ok"), DispatchStatus::HardFailure);
}

#[test]
fn not_preloaded_sentinel_is_a_semantic_failure() {
    assert_eq!(
        classify_outcome(true, "wallpaper failed (not preloaded)"),
        DispatchStatus::SemanticFailure
    );
    assert_eq!(
        classify_outcome(true, "error: wallpaper failed (not preloaded)\n"),
        DispatchStatus::SemanticFailure
    );
}

#[test]
fn unreachable_socket_sentinel_is_a_semantic_failure() {
    assert_eq!(
        classify_outcome(true, "Couldn't connect to /tmp/hypr/abc/.hyprpaper.sock"),
        DispatchStatus::SemanticFailure
    );
}

#[test]
fn clean_zero_exit_applied() {
    assert_eq!(classify_outcome(true, "ok"), DispatchStatus::Applied);
    assert_eq!(classify_outcome(true, ""), DispatchStatus::Applied);
    // A near-miss of a sentinel does not downgrade the outcome.
    assert_eq!(classify_outcome(true, "wallpaper failed"), DispatchStatus::Applied);
}

#[test]
fn command_argument_joins_monitor_and_path_with_a_comma() {
    assert_eq!(build_command_argument("DP-1", "/walls/a.png"), "DP-1,/walls/a.png");
    assert_eq!(build_command_argument("", ""), ",");
}
