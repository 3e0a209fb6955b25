use vstd::prelude::*;
use crate::event::{classify, classify_spec, EventKind};
use crate::util::{parse_payload, payload_spec, ParseError};

verus! {

/// The read loop's lifecycle. `Closed` (end of stream) and `Fatal`
/// (unrecoverable I/O or connection failure) are terminal.
#[derive(Clone, Copy, Debug, PartialEq, Eq, Structural)]
pub enum LoopState {
    Connecting,
    Reading,
    Closed,
    Fatal,
}

/// What the outside world reports to the loop: the result of acquiring the
/// stream handle, and then the result of each read.
#[derive(Clone, Copy, Debug, PartialEq, Eq, Structural)]
pub enum StreamEvent {
    /// The stream handle was acquired.
    Connected,
    /// The stream handle could not be acquired.
    ConnectFailed,
    /// A read delivered a (possibly empty-of-lines) chunk of bytes.
    ChunkArrived,
    /// A read delivered zero bytes: the peer closed the connection.
    EndOfStream,
    /// A read would block or asked to be retried; not an error.
    WouldBlock,
    /// A read failed with a non-retryable error.
    IoError,
}

/// The loop's transition relation. Connection comes first; while reading,
/// end-of-stream closes the loop normally and a non-retryable error is
/// fatal; the terminal states absorb every event; an event that cannot
/// occur in a state leaves the state unchanged.
pub open spec fn next_state_spec(s: LoopState, e: StreamEvent) -> LoopState {
    match s {
        LoopState::Connecting => match e {
            StreamEvent::Connected => LoopState::Reading,
            StreamEvent::ConnectFailed => LoopState::Fatal,
            _ => LoopState::Connecting,
        },
        LoopState::Reading => match e {
            StreamEvent::EndOfStream => LoopState::Closed,
            StreamEvent::IoError => LoopState::Fatal,
            _ => LoopState::Reading,
        },
        LoopState::Closed => LoopState::Closed,
        LoopState::Fatal => LoopState::Fatal,
    }
}

/// Advances the loop's lifecycle by one observed event.
pub fn next_state(s: LoopState, e: StreamEvent) -> (r: LoopState)
    ensures
        r == next_state_spec(s, e),
{
    match s {
        LoopState::Connecting => match e {
            StreamEvent::Connected => LoopState::Reading,
            StreamEvent::ConnectFailed => LoopState::Fatal,
            _ => LoopState::Connecting,
        },
        LoopState::Reading => match e {
            StreamEvent::EndOfStream => LoopState::Closed,
            StreamEvent::IoError => LoopState::Fatal,
            _ => LoopState::Reading,
        },
        LoopState::Closed => LoopState::Closed,
        LoopState::Fatal => LoopState::Fatal,
    }
}

/// `Closed` and `Fatal` absorb every event: once the loop has ended,
/// nothing restarts it.
pub proof fn lemma_terminal_states_absorb(e: StreamEvent)
    ensures
        next_state_spec(LoopState::Closed, e) == LoopState::Closed,
        next_state_spec(LoopState::Fatal, e) == LoopState::Fatal,
{
}

/// What one framed line asks the loop to do.
#[derive(Clone, Copy, Debug, PartialEq, Eq, Structural)]
pub enum LineAction {
    /// A workspace switch to this 1-based index: resolve an artifact and
    /// dispatch it.
    Dispatch { index: u32 },
    /// The line is of a kind that is observed but drives no action.
    Ignore { kind: EventKind },
    /// The line classified as a workspace switch but its payload did not
    /// decode; the event is dropped and the loop continues.
    DropMalformed,
}

/// Per-line decision: only a workspace switch with a well-formed payload
/// dispatches; every other line is a no-op, and a decode failure is
/// isolated to that one line.
pub open spec fn plan_line_spec(line: Seq<char>) -> LineAction {
    if classify_spec(line) == EventKind::WorkspaceSwitch {
        match payload_spec(line) {
            Some(n) => LineAction::Dispatch { index: n },
            None => LineAction::DropMalformed,
        }
    } else {
        LineAction::Ignore { kind: classify_spec(line) }
    }
}

/// Decides what one framed line asks the loop to do. Never fails: a
/// malformed or foreign line is a normal, non-fatal outcome.
pub fn plan_line(line: &str) -> (action: LineAction)
    ensures
        action == plan_line_spec(line@),
{
    let kind = classify(line);
    if kind == EventKind::WorkspaceSwitch {
        match parse_payload(line) {
            Ok(n) => LineAction::Dispatch { index: n },
            Err(ParseError::MalformedPayload) => LineAction::DropMalformed,
        }
    } else {
        LineAction::Ignore { kind }
    }
}

/// Orders racing dispatches for one monitor by generation: each issued
/// dispatch gets a fresh generation, and only the outcome whose generation
/// is still current may be recorded as the monitor's applied artifact. A
/// slow, superseded dispatch can therefore never overwrite a newer one.
pub struct DispatchGate {
    current: u64,
}

impl DispatchGate {
    /// The generation of the most recently issued dispatch.
    pub closed spec fn current_generation(&self) -> u64 {
        self.current
    }

    pub fn new() -> (gate: DispatchGate)
        ensures
            gate.current_generation() == 0,
    {
        DispatchGate { current: 0 }
    }

    /// Issues a dispatch: hands out the next generation and makes it the
    /// current one, superseding every earlier generation.
    pub fn begin(&mut self) -> (generation: u64)
        requires
            old(self).current_generation() < u64::MAX,
        ensures
            final(self).current_generation() == old(self).current_generation() + 1,
            generation == final(self).current_generation(),
    {
        self.current = self.current + 1;
        self.current
    }

    /// The current generation, for callers that must check `begin`'s
    /// precondition before issuing a dispatch.
    pub fn generation(&self) -> (g: u64)
        ensures
            g == self.current_generation(),
    {
        self.current
    }

    /// Whether a dispatch issued as `generation` may record its outcome:
    /// only if no newer dispatch has been issued since.
    pub fn is_current(&self, generation: u64) -> (r: bool)
        ensures
            r == (generation == self.current_generation()),
    {
        generation == self.current
    }
}

/// Ordering mitigation for racing dispatches: when two workspace switches
/// are issued in quick succession on the same monitor, the generations
/// differ, the earlier one is no longer current, and only the later one may
/// record its outcome — whatever order the external processes finish in,
/// the monitor's final applied artifact is the later dispatch's.
pub proof fn lemma_latest_dispatch_wins(
    gate0: DispatchGate,
    gate1: DispatchGate,
    gate2: DispatchGate,
    g1: u64,
    g2: u64,
)
    requires
        // first issue: gate0 -> gate1 handing out g1
        gate1.current_generation() == gate0.current_generation() + 1,
        g1 == gate1.current_generation(),
        // second issue: gate1 -> gate2 handing out g2
        gate2.current_generation() == gate1.current_generation() + 1,
        g2 == gate2.current_generation(),
    ensures
        g1 != g2,
        g1 != gate2.current_generation(),
        g2 == gate2.current_generation(),
{
}

} // verus!
