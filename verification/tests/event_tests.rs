use hypr_socket_watch::event::{classify, EventKind};

#[test]
fn monitor_added_prefix() {
    assert_eq!(classify("monitoradded>>HDMI-A-1"), EventKind::MonitorAdded);
}

#[test]
fn focused_monitor_prefix() {
    assert_eq!(classify("focusedmon>>DP-1,web"), EventKind::FocusedMonitor);
}

#[test]
fn legacy_workspace_switch() {
    assert_eq!(classify("workspace>>3"), EventKind::WorkspaceSwitch);
    assert_eq!(classify("workspace>>42"), EventKind::WorkspaceSwitch);
}

#[test]
fn extended_workspace_form_is_not_a_switch() {
    assert_ne!(classify("workspacev2>>3,web"), EventKind::WorkspaceSwitch);
    assert_eq!(classify("workspacev2>>3,web"), EventKind::Other);
}

#[test]
fn workspace_without_digit_is_other() {
    assert_eq!(classify("workspace>>"), EventKind::Other);
    assert_eq!(classify("workspace>>x"), EventKind::Other);
    assert_eq!(classify("workspace"), EventKind::Other);
}

#[test]
fn unmatched_lines_are_other() {
    assert_eq!(classify("openwindow>>1234,web,firefox"), EventKind::Other);
    assert_eq!(classify(""), EventKind::Other);
}

#[test]
fn first_match_wins() {
    // `monitoradded` is checked before `focusedmon` and the switch form.
    assert_eq!(classify("monitoradded>>workspace>>1"), EventKind::MonitorAdded);
}
