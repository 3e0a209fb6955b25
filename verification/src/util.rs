use vstd::prelude::*;

verus! {

/// Why a workspace-switch payload could not be decoded.
#[derive(Clone, Copy, Debug, PartialEq, Eq, Structural)]
pub enum ParseError {
    /// The line has no `>>` separator, or what follows it is not a
    /// decimal number that fits the payload type.
    MalformedPayload,
}

/// ASCII whitespace, as trimmed around payloads.
pub open spec fn is_space_char(c: char) -> bool {
    c == ' ' || c == '\t' || c == '\n' || c == '\r' || (c as u32) == 12
}

/// `s` without its leading whitespace.
pub open spec fn trim_start_spec(s: Seq<char>) -> Seq<char>
    decreases s.len(),
{
    if s.len() > 0 && is_space_char(s[0]) {
        trim_start_spec(s.skip(1))
    } else {
        s
    }
}

/// `s` without its trailing whitespace.
pub open spec fn trim_end_spec(s: Seq<char>) -> Seq<char>
    decreases s.len(),
{
    if s.len() > 0 && is_space_char(s.last()) {
        trim_end_spec(s.drop_last())
    } else {
        s
    }
}

/// `s` without surrounding whitespace.
pub open spec fn trim_spec(s: Seq<char>) -> Seq<char> {
    trim_end_spec(trim_start_spec(s))
}

/// `s` without its trailing NUL padding, as delivered by fixed-width,
/// zero-padded frames.
pub open spec fn trim_end_nuls_spec(s: Seq<char>) -> Seq<char>
    decreases s.len(),
{
    if s.len() > 0 && s.last() == '\0' {
        trim_end_nuls_spec(s.drop_last())
    } else {
        s
    }
}

/// Index of the first occurrence of `c` in `s`, or `s.len()` if none.
pub open spec fn find_char(s: Seq<char>, c: char) -> nat
    decreases s.len(),
{
    if s.len() == 0 {
        0
    } else if s[0] == c {
        0
    } else {
        1 + find_char(s.skip(1), c)
    }
}

pub proof fn lemma_find_char_at(s: Seq<char>, c: char, i: int)
    requires
        0 <= i <= s.len(),
        forall|j: int| 0 <= j < i ==> s[j] != c,
        i < s.len() ==> s[i] == c,
    ensures
        find_char(s, c) == i,
    decreases s.len(),
{
    if s.len() == 0 {
    } else if s[0] == c {
    } else {
        assert(forall|j: int| 0 <= j < i - 1 ==> s.skip(1)[j] == s[j + 1]);
        if i < s.len() {
            assert(s.skip(1)[i - 1] == s[i]);
        }
        lemma_find_char_at(s.skip(1), c, i - 1);
    }
}

/// Index of the first `>>` in `s`, or `s.len()` if none occurs.
pub open spec fn find_arrow(s: Seq<char>) -> nat
    decreases s.len(),
{
    if s.len() < 2 {
        s.len()
    } else if s[0] == '>' && s[1] == '>' {
        0
    } else {
        1 + find_arrow(s.skip(1))
    }
}

/// `s` holds the two-character separator `>>` somewhere.
pub open spec fn has_arrow(s: Seq<char>) -> bool {
    find_arrow(s) + 2 <= s.len()
}

pub proof fn lemma_find_arrow_props(s: Seq<char>)
    ensures
        find_arrow(s) <= s.len(),
        has_arrow(s) ==> s[find_arrow(s) as int] == '>' && s[find_arrow(s) as int + 1] == '>',
        forall|j: int| #![trigger s[j]]
            0 <= j < find_arrow(s) && j + 2 <= s.len() ==> !(s[j] == '>' && s[j + 1] == '>'),
    decreases s.len(),
{
    if s.len() < 2 {
    } else if s[0] == '>' && s[1] == '>' {
    } else {
        lemma_find_arrow_props(s.skip(1));
        assert forall|j: int| #![trigger s[j]]
            0 <= j < find_arrow(s) && j + 2 <= s.len() implies !(s[j] == '>' && s[j + 1]
            == '>') by {
            if j > 0 {
                assert(s.skip(1)[j - 1] == s[j]);
                assert(s.skip(1)[j] == s[j + 1]);
            }
        }
        if has_arrow(s) {
            assert(s.skip(1)[find_arrow(s) - 1] == s[find_arrow(s) as int]);
            assert(s.skip(1)[find_arrow(s) as int] == s[find_arrow(s) as int + 1]);
        }
    }
}

/// The payload portion of a line: take the first terminator-delimited
/// segment, trim surrounding whitespace, and return what follows the
/// first `>>`, or nothing when no separator is present.
pub open spec fn after_arrow_spec(s: Seq<char>) -> Option<Seq<char>> {
    let t = trim_spec(s.take(find_char(s, '\n') as int));
    if has_arrow(t) {
        Some(t.skip(find_arrow(t) as int + 2))
    } else {
        None
    }
}

/// `c` is a decimal digit's value.
pub open spec fn digit_val(c: char) -> nat {
    (c as u32 - 48) as nat
}

/// Every character of `s` is a decimal digit.
pub open spec fn all_digits(s: Seq<char>) -> bool {
    forall|j: int| 0 <= j < s.len() ==> crate::event::is_digit_char(s[j])
}

/// The value of `s` read as a base-10 numeral.
pub open spec fn digits_val(s: Seq<char>) -> nat
    decreases s.len(),
{
    if s.len() == 0 {
        0
    } else {
        digits_val(s.drop_last()) * 10 + digit_val(s.last())
    }
}

/// A non-empty, all-digit string whose value fits parses to that value;
/// anything else does not parse.
pub open spec fn parse_u32_spec(s: Seq<char>) -> Option<u32> {
    if s.len() > 0 && all_digits(s) && digits_val(s) <= u32::MAX {
        Some(digits_val(s) as u32)
    } else {
        None
    }
}

/// The numeric value of a numeral never shrinks as digits are appended.
pub proof fn lemma_digits_val_prefix_le(s: Seq<char>, k: int)
    requires
        0 <= k <= s.len(),
    ensures
        digits_val(s.take(k)) <= digits_val(s),
    decreases s.len() - k,
{
    if k == s.len() {
        assert(s.take(k) =~= s);
    } else {
        assert(s.take(k + 1).drop_last() =~= s.take(k));
        assert(s.take(k + 1).last() == s[k]);
        lemma_digits_val_prefix_le(s, k + 1);
    }
}

/// The complete payload decode for one line: trim surrounding whitespace
/// and trailing NUL padding, take what follows the first `>>` of the first
/// trimmed segment, trim it, and read it as a base-10 number.
pub open spec fn payload_spec(line: Seq<char>) -> Option<u32> {
    match after_arrow_spec(trim_end_nuls_spec(trim_spec(line))) {
        Some(p) => parse_u32_spec(trim_spec(p)),
        None => None,
    }
}

fn is_space(c: char) -> (r: bool)
    ensures
        r == is_space_char(c),
{
    let u = c as u32;
    u == 32 || u == 9 || u == 10 || u == 13 || u == 12
}

/// The character bounds of `s` with surrounding whitespace removed:
/// `trim_spec(s@)` is exactly `s@` between the returned indices.
fn trimmed_bounds(s: &str) -> (r: (usize, usize))
    ensures
        r.0 <= r.1 <= s@.len(),
        trim_spec(s@) == s@.subrange(r.0 as int, r.1 as int),
{
    let n = s.unicode_len();
    let mut a: usize = 0;
    proof {
        assert(s@.skip(0) =~= s@);
    }
    while a < n && is_space(s.get_char(a))
        invariant
            a <= n,
            n == s@.len(),
            trim_start_spec(s@) == trim_start_spec(s@.skip(a as int)),
        decreases n - a,
    {
        proof {
            assert(s@.skip(a as int)[0] == s@[a as int]);
            assert(s@.skip(a as int).skip(1) =~= s@.skip(a as int + 1));
        }
        a = a + 1;
    }
    proof {
        if a < n {
            assert(!is_space_char(s@.skip(a as int)[0]));
        }
        assert(trim_start_spec(s@) == s@.skip(a as int));
    }
    let ghost t0 = s@.skip(a as int);
    let mut b: usize = n;
    proof {
        assert(t0.take(n - a as int) =~= t0);
    }
    while b > a && is_space(s.get_char(b - 1))
        invariant
            a <= b <= n,
            n == s@.len(),
            t0 == s@.skip(a as int),
            trim_end_spec(t0) == trim_end_spec(t0.take(b - a as int)),
        decreases b,
    {
        proof {
            assert(t0.take(b - a as int).last() == s@[b - 1]);
            assert(t0.take(b - a as int).drop_last() =~= t0.take(b - 1 - a as int));
        }
        b = b - 1;
    }
    proof {
        if b > a {
            assert(t0.take(b - a as int).last() == s@[b - 1]);
            assert(!is_space_char(t0.take(b - a as int).last()));
        }
        assert(trim_end_spec(t0.take(b - a as int)) == t0.take(b - a as int));
        assert(t0.take(b - a as int) =~= s@.subrange(a as int, b as int));
    }
    (a, b)
}

/// Returns what follows the first `>>` of `input`'s first trimmed,
/// terminator-delimited segment, or nothing when no `>>` is present.
pub fn extract_after_double_arrow(input: &str) -> (r: Option<String>)
    ensures
        match r {
            Some(out) => after_arrow_spec(input@) == Some(out@),
            None => after_arrow_spec(input@) is None,
        },
{
    let n = input.unicode_len();
    let mut nl: usize = 0;
    while nl < n && input.get_char(nl) != '\n'
        invariant
            nl <= n,
            n == input@.len(),
            forall|j: int| 0 <= j < nl ==> input@[j] != '\n',
        decreases n - nl,
    {
        nl = nl + 1;
    }
    proof {
        lemma_find_char_at(input@, '\n', nl as int);
    }
    let pre = input.substring_char(0, nl);
    proof {
        assert(pre@ =~= input@.take(nl as int));
    }
    let (a, b) = trimmed_bounds(pre);
    let t = pre.substring_char(a, b);
    let ghost tv = trim_spec(pre@);
    proof {
        assert(t@ == tv);
    }
    let tl = b - a;
    let mut k: usize = 0;
    while tl >= 2 && k <= tl - 2 && !(t.get_char(k) == '>' && t.get_char(k + 1) == '>')
        invariant
            k <= tl,
            tl == t@.len(),
            t@ == tv,
            forall|j: int| #![trigger t@[j]] 0 <= j < k ==> !(t@[j] == '>' && t@[j + 1] == '>'),
        decreases tl - k,
    {
        k = k + 1;
    }
    proof {
        lemma_find_arrow_props(tv);
    }
    if tl >= 2 && k <= tl - 2 {
        proof {
            assert(tv[k as int] == '>' && tv[k as int + 1] == '>');
            assert(find_arrow(tv) == k) by {
                if find_arrow(tv) < k {
                    assert(has_arrow(tv));
                }
            }
        }
        let out = String::from_str(t.substring_char(k + 2, tl));
        proof {
            assert(out@ =~= tv.skip(k as int + 2));
        }
        Some(out)
    } else {
        proof {
            assert(!has_arrow(tv)) by {
                if has_arrow(tv) {
                    assert(!(tv[find_arrow(tv) as int] == '>' && tv[find_arrow(tv) as int + 1]
                        == '>'));
                }
            }
        }
        None
    }
}

/// Reads `q` as an unsigned base-10 integer.
fn parse_u32_str(q: &str) -> (r: Option<u32>)
    ensures
        r == parse_u32_spec(q@),
{
    let n = q.unicode_len();
    if n == 0 {
        return None;
    }
    let mut acc: u64 = 0;
    let mut i: usize = 0;
    while i < n
        invariant
            i <= n,
            n == q@.len(),
            forall|j: int| 0 <= j < i ==> crate::event::is_digit_char(q@[j]),
            acc == digits_val(q@.take(i as int)),
            acc <= u32::MAX,
        decreases n - i,
    {
        let c = q.get_char(i);
        let u = c as u32;
        if !(48 <= u && u <= 57) {
            return None;
        }
        let d = (u - 48) as u64;
        proof {
            assert(q@.take(i as int + 1).drop_last() =~= q@.take(i as int));
            assert(q@.take(i as int + 1).last() == q@[i as int]);
        }
        acc = acc * 10 + d;
        if acc > u32::MAX as u64 {
            proof {
                lemma_digits_val_prefix_le(q@, i as int + 1);
            }
            return None;
        }
        i = i + 1;
    }
    proof {
        assert(q@.take(n as int) =~= q@);
    }
    Some(acc as u32)
}

/// Decodes the numeric payload of a workspace-switch line, tolerating
/// surrounding whitespace and fixed-width NUL padding.
pub fn extract_number_after_double_arrow(input: &str) -> (r: Option<u32>)
    ensures
        r == payload_spec(input@),
{
    let (a0, b0) = trimmed_bounds(input);
    let t1 = input.substring_char(a0, b0);
    proof {
        assert(t1@ == trim_spec(input@));
    }
    let n = t1.unicode_len();
    let mut e: usize = n;
    proof {
        assert(t1@.take(n as int) =~= t1@);
    }
    while e > 0 && t1.get_char(e - 1) == '\0'
        invariant
            e <= n,
            n == t1@.len(),
            trim_end_nuls_spec(t1@) == trim_end_nuls_spec(t1@.take(e as int)),
        decreases e,
    {
        proof {
            assert(t1@.take(e as int).last() == t1@[e - 1]);
            assert(t1@.take(e as int).drop_last() =~= t1@.take(e - 1));
        }
        e = e - 1;
    }
    proof {
        if e > 0 {
            assert(t1@.take(e as int).last() == t1@[e - 1]);
        }
        assert(trim_end_nuls_spec(t1@.take(e as int)) == t1@.take(e as int));
    }
    let unpadded = t1.substring_char(0, e);
    proof {
        assert(unpadded@ =~= t1@.take(e as int));
    }
    match extract_after_double_arrow(unpadded) {
        None => None,
        Some(p) => {
            let (a, b) = trimmed_bounds(p.as_str());
            let q = p.as_str().substring_char(a, b);
            proof {
                assert(q@ == trim_spec(p@));
            }
            parse_u32_str(q)
        },
    }
}

/// Decodes the numeric payload of a workspace-switch line, or says the
/// payload is malformed: no `>>` separator, or a trailing portion that is
/// not a decimal number fitting the payload type.
pub fn parse_payload(line: &str) -> (r: Result<u32, ParseError>)
    ensures
        match r {
            Ok(n) => payload_spec(line@) == Some(n),
            Err(e) => payload_spec(line@) is None && e == ParseError::MalformedPayload,
        },
{
    match extract_number_after_double_arrow(line) {
        Some(n) => Ok(n),
        None => Err(ParseError::MalformedPayload),
    }
}

} // verus!
