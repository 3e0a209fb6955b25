use vstd::prelude::*;

verus! {

/// The classified outcome of one external apply-command invocation.
#[derive(Clone, Copy, Debug, PartialEq, Eq, Structural)]
pub enum DispatchStatus {
    /// The process exited zero and its output carries no failure sentinel.
    Applied,
    /// The process exited nonzero.
    HardFailure,
    /// The process exited zero, but its output says the change did not
    /// actually take effect.
    SemanticFailure,
}

/// `needle` occurs contiguously somewhere in `hay`.
pub open spec fn contains_sub(hay: Seq<char>, needle: Seq<char>) -> bool {
    exists|i: int|
        0 <= i && i + needle.len() <= hay.len() && #[trigger] hay.subrange(i, i + needle.len())
            == needle
}

/// The external tool reports this when the artifact was not preloaded.
pub open spec fn not_preloaded_sentinel() -> Seq<char> {
    "wallpaper failed (not preloaded)"@
}

/// The external tool reports this when it could not reach its companion
/// socket for the session.
pub open spec fn socket_unreachable_sentinel() -> Seq<char> {
    "Couldn't connect to"@
}

/// How one invocation's exit status and captured standard output classify:
/// a nonzero exit is a hard failure; a zero exit whose output carries a
/// known failure sentinel is a semantic failure; anything else applied.
pub open spec fn dispatch_status_spec(exit_success: bool, out: Seq<char>) -> DispatchStatus {
    if !exit_success {
        DispatchStatus::HardFailure
    } else if contains_sub(out, not_preloaded_sentinel()) || contains_sub(
        out,
        socket_unreachable_sentinel(),
    ) {
        DispatchStatus::SemanticFailure
    } else {
        DispatchStatus::Applied
    }
}

/// `needle` occurs contiguously somewhere in `hay`.
pub fn str_contains_sub(hay: &str, needle: &str) -> (r: bool)
    ensures
        r == contains_sub(hay@, needle@),
{
    let hn = hay.unicode_len();
    let nn = needle.unicode_len();
    if nn > hn {
        proof {
            assert(!contains_sub(hay@, needle@));
        }
        return false;
    }
    if nn == 0 {
        proof {
            assert(hay@.subrange(0, 0 + needle@.len() as int) =~= needle@);
        }
        return true;
    }
    let mut i: usize = 0;
    while i <= hn - nn
        invariant
            1 <= nn <= hn,
            hn == hay@.len(),
            nn == needle@.len(),
            i <= hn - nn + 1,
            forall|k: int| 0 <= k < i ==> #[trigger] hay@.subrange(k, k + needle@.len())
                != needle@,
        decreases hn + 1 - nn - i,
    {
        let mut j: usize = 0;
        let mut matches = true;
        while j < nn && matches
            invariant
                i + nn <= hn,
                hn == hay@.len(),
                nn == needle@.len(),
                j <= nn,
                matches ==> forall|l: int| 0 <= l < j ==> hay@[i + l] == needle@[l],
                !matches ==> hay@.subrange(i as int, i + needle@.len()) != needle@,
            decreases nn - j + (if matches { 1int } else { 0 }),
        {
            if hay.get_char(i + j) != needle.get_char(j) {
                proof {
                    assert(hay@.subrange(i as int, i + needle@.len())[j as int] != needle@[
                    j as int]);
                }
                matches = false;
            } else {
                j = j + 1;
            }
        }
        if matches {
            proof {
                assert(hay@.subrange(i as int, i + needle@.len()) =~= needle@);
            }
            return true;
        }
        i = i + 1;
    }
    proof {
        assert forall|k: int| 0 <= k && k + needle@.len() <= hay@.len() implies #[trigger] hay@
            .subrange(k, k + needle@.len()) != needle@ by {}
    }
    false
}

/// Classifies one invocation of the external apply command from its exit
/// status and captured standard output. The tool's own success code is not
/// a reliable signal, so a zero exit is re-inspected for the two known
/// failure sentinels.
pub fn classify_outcome(exit_success: bool, stdout: &str) -> (status: DispatchStatus)
    ensures
        status == dispatch_status_spec(exit_success, stdout@),
{
    if !exit_success {
        DispatchStatus::HardFailure
    } else if str_contains_sub(stdout, "wallpaper failed (not preloaded)") || str_contains_sub(
        stdout,
        "Couldn't connect to",
    ) {
        DispatchStatus::SemanticFailure
    } else {
        DispatchStatus::Applied
    }
}

/// The single argument handed to the external apply command: the monitor
/// identifier and the artifact path, joined by a comma.
pub fn build_command_argument(monitor: &str, artifact: &str) -> (arg: String)
    ensures
        arg@ == monitor@ + seq![','] + artifact@,
{
    let mut arg = String::from_str(monitor);
    arg.append(",");
    arg.append(artifact);
    proof {
        reveal_strlit(",");
        assert(","@ =~= seq![',']);
        assert(arg@ =~= monitor@ + seq![','] + artifact@);
    }
    arg
}

} // verus!
