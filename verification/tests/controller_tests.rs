use hypr_socket_watch::controller::{
    next_state, plan_line, DispatchGate, LineAction, LoopState, StreamEvent,
};
use hypr_socket_watch::event::EventKind;
use hypr_socket_watch::framer::LineFramer;

#[test]
fn lifecycle_transitions() {
    assert_eq!(next_state(LoopState::Connecting, StreamEvent::Connected), LoopState::Reading);
    assert_eq!(next_state(LoopState::Connecting, StreamEvent::ConnectFailed), LoopState::Fatal);
    assert_eq!(next_state(LoopState::Reading, StreamEvent::ChunkArrived), LoopState::Reading);
    assert_eq!(next_state(LoopState::Reading, StreamEvent::WouldBlock), LoopState::Reading);
    assert_eq!(next_state(LoopState::Reading, StreamEvent::EndOfStream), LoopState::Closed);
    assert_eq!(next_state(LoopState::Reading, StreamEvent::IoError), LoopState::Fatal);
}

#[test]
fn terminal_states_absorb_every_event() {
    let events = [
        StreamEvent::Connected,
        StreamEvent::ConnectFailed,
        StreamEvent::ChunkArrived,
        StreamEvent::EndOfStream,
        StreamEvent::WouldBlock,
        StreamEvent::IoError,
    ];
    for e in events {
        assert_eq!(next_state(LoopState::Closed, e), LoopState::Closed);
        assert_eq!(next_state(LoopState::Fatal, e), LoopState::Fatal);
    }
}

#[test]
fn only_a_well_formed_switch_dispatches() {
    assert_eq!(plan_line("workspace>>3"), LineAction::Dispatch { index: 3 });
    assert_eq!(
        plan_line("focusedmon>>DP-1,web"),
        LineAction::Ignore { kind: EventKind::FocusedMonitor }
    );
    assert_eq!(
        plan_line("workspacev2>>3,web"),
        LineAction::Ignore { kind: EventKind::Other }
    );
    // Classified as a switch, but the payload does not decode as a number.
    assert_eq!(plan_line("workspace>>9x"), LineAction::DropMalformed);
}

#[test]
fn gate_accepts_only_the_latest_generation() {
    let mut gate = DispatchGate::new();
    let g2 = gate.begin(); // dispatch for workspace 2
    let g5 = gate.begin(); // dispatch for workspace 5, issued right after
    assert_ne!(g2, g5);
    // Whatever order the external processes finish in, only the later
    // dispatch may record its outcome.
    assert!(!gate.is_current(g2));
    assert!(gate.is_current(g5));
}

#[test]
fn pipeline_over_two_chunks_dispatches_exactly_once() {
    let input = "focusedmon>>DP-1\nworkspace>>3\n";
    for cut in 0..=input.len() {
        let mut framer = LineFramer::new();
        let mut actions = Vec::new();
        for chunk in [&input.as_bytes()[..cut], &input.as_bytes()[cut..]] {
            for line in framer.feed(chunk) {
                actions.push(plan_line(&String::from_utf8(line).unwrap()));
            }
        }
        assert_eq!(
            actions,
            vec![
                LineAction::Ignore { kind: EventKind::FocusedMonitor },
                LineAction::Dispatch { index: 3 },
            ],
            "split at {cut}"
        );
    }
}
