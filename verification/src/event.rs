use vstd::prelude::*;

verus! {

/// The kind of one line from the event socket. Only `WorkspaceSwitch`
/// drives a wallpaper change; everything else is observed and ignored.
#[derive(Clone, Copy, Debug, PartialEq, Eq, Structural)]
pub enum EventKind {
    MonitorAdded,
    FocusedMonitor,
    WorkspaceSwitch,
    Other,
}

/// `p` is a prefix of `s`.
pub open spec fn starts_with(s: Seq<char>, p: Seq<char>) -> bool {
    p.len() <= s.len() && s.take(p.len() as int) == p
}

/// `c` is a decimal digit.
pub open spec fn is_digit_char(c: char) -> bool {
    48 <= c as u32 <= 57
}

/// The legacy workspace-switch form: the literal prefix `workspace>>`
/// immediately followed by at least one decimal digit. The extended
/// `workspacev2>>...` form never matches this, because its tenth
/// character is `v` where the legacy form requires `>`.
pub open spec fn is_workspace_switch_line(s: Seq<char>) -> bool {
    starts_with(s, "workspace>>"@) && s.len() > 11 && is_digit_char(s[11])
}

/// First match wins: `monitoradded`, then `focusedmon`, then the legacy
/// workspace-switch form; anything else is `Other`. Classification never
/// fails; an unmatched line is a normal, silent outcome.
pub open spec fn classify_spec(s: Seq<char>) -> EventKind {
    if starts_with(s, "monitoradded"@) {
        EventKind::MonitorAdded
    } else if starts_with(s, "focusedmon"@) {
        EventKind::FocusedMonitor
    } else if is_workspace_switch_line(s) {
        EventKind::WorkspaceSwitch
    } else {
        EventKind::Other
    }
}

/// `s` starts with the characters of `p`.
pub fn str_starts_with(s: &str, p: &str) -> (r: bool)
    ensures
        r == starts_with(s@, p@),
{
    let n = p.unicode_len();
    if n > s.unicode_len() {
        return false;
    }
    let mut i: usize = 0;
    while i < n
        invariant
            i <= n,
            n == p@.len(),
            n <= s@.len(),
            forall|j: int| 0 <= j < i ==> s@[j] == p@[j],
        decreases n - i,
    {
        if s.get_char(i) != p.get_char(i) {
            proof {
                assert(s@.take(n as int)[i as int] != p@[i as int]);
            }
            return false;
        }
        i = i + 1;
    }
    proof {
        assert(s@.take(n as int) =~= p@);
    }
    true
}

/// Tags `line` with its event kind by prefix matching, excluding the
/// extended `workspacev2` form from the legacy workspace-switch match.
pub fn classify(line: &str) -> (kind: EventKind)
    ensures
        kind == classify_spec(line@),
{
    if str_starts_with(line, "monitoradded") {
        EventKind::MonitorAdded
    } else if str_starts_with(line, "focusedmon") {
        EventKind::FocusedMonitor
    } else if str_starts_with(line, "workspace>>") && line.unicode_len() > 11 {
        let c = line.get_char(11);
        let u = c as u32;
        if 48 <= u && u <= 57 {
            EventKind::WorkspaceSwitch
        } else {
            EventKind::Other
        }
    } else {
        EventKind::Other
    }
}

/// The extended workspace notification is never classified as a legacy
/// workspace switch, so one logical workspace change, reported in both
/// forms, triggers at most one dispatch.
pub proof fn lemma_extended_form_is_not_workspace_switch(s: Seq<char>)
    requires
        starts_with(s, "workspacev2"@),
    ensures
        classify_spec(s) != EventKind::WorkspaceSwitch,
{
    reveal_strlit("workspacev2");
    reveal_strlit("workspace>>");
    if is_workspace_switch_line(s) {
        assert(s.take(11)[9] == 'v');
        assert(s.take(11)[9] == '>');
    }
}

} // verus!
