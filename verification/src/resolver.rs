use vstd::prelude::*;

verus! {

/// Why no artifact could be resolved for a workspace index.
#[derive(Clone, Copy, Debug, PartialEq, Eq, Structural)]
pub enum ResolveError {
    /// The configured wallpaper directory does not exist. Produced by the
    /// caller that lists the directory; never by `resolve` itself.
    DirectoryMissing,
    /// The directory exists but contains no entries.
    DirectoryEmpty,
}

/// Byte-wise (code-point-wise) lexicographic order on names: a total,
/// deterministic, platform-independent ordering, so the same index always
/// yields the same artifact for an unchanged directory.
pub open spec fn lex_le(a: Seq<char>, b: Seq<char>) -> bool
    decreases a.len(),
{
    if a.len() == 0 {
        true
    } else if b.len() == 0 {
        false
    } else if (a[0] as u32) < (b[0] as u32) {
        true
    } else if (a[0] as u32) > (b[0] as u32) {
        false
    } else {
        lex_le(a.skip(1), b.skip(1))
    }
}

/// `lex_le` is total: any two names compare one way or the other.
pub proof fn lemma_lex_le_total(a: Seq<char>, b: Seq<char>)
    ensures
        lex_le(a, b) || lex_le(b, a),
    decreases a.len(),
{
    if a.len() == 0 || b.len() == 0 {
    } else if (a[0] as u32) == (b[0] as u32) {
        lemma_lex_le_total(a.skip(1), b.skip(1));
    }
}

/// `lex_le` is transitive.
pub proof fn lemma_lex_le_trans(a: Seq<char>, b: Seq<char>, c: Seq<char>)
    requires
        lex_le(a, b),
        lex_le(b, c),
    ensures
        lex_le(a, c),
    decreases a.len(),
{
    if a.len() == 0 {
    } else if b.len() == 0 {
    } else if c.len() == 0 {
    } else if (a[0] as u32) == (b[0] as u32) && (b[0] as u32) == (c[0] as u32) {
        lemma_lex_le_trans(a.skip(1), b.skip(1), c.skip(1));
    }
}

/// `x` placed before the first element of `s` that is not below it.
pub open spec fn insert_sorted(x: Seq<char>, s: Seq<Seq<char>>) -> Seq<Seq<char>>
    decreases s.len(),
{
    if s.len() == 0 {
        seq![x]
    } else if lex_le(x, s[0]) {
        seq![x] + s
    } else {
        seq![s[0]] + insert_sorted(x, s.skip(1))
    }
}

/// The entries of `s` in ascending `lex_le` order: the deterministic
/// enumeration order that maps an index to an artifact.
pub open spec fn sort_entries(s: Seq<Seq<char>>) -> Seq<Seq<char>>
    decreases s.len(),
{
    if s.len() == 0 {
        Seq::empty()
    } else {
        insert_sorted(s.last(), sort_entries(s.drop_last()))
    }
}

/// Every pair of entries of `s` is ordered.
pub open spec fn is_sorted(s: Seq<Seq<char>>) -> bool {
    forall|i: int, j: int| 0 <= i < j < s.len() ==> lex_le(s[i], s[j])
}

pub proof fn lemma_insert_sorted_len(x: Seq<char>, s: Seq<Seq<char>>)
    ensures
        insert_sorted(x, s).len() == s.len() + 1,
    decreases s.len(),
{
    if s.len() == 0 {
    } else if lex_le(x, s[0]) {
    } else {
        lemma_insert_sorted_len(x, s.skip(1));
    }
}

/// Inserting into a sorted sequence keeps it sorted.
pub proof fn lemma_insert_sorted_sorted(x: Seq<char>, s: Seq<Seq<char>>)
    requires
        is_sorted(s),
    ensures
        is_sorted(insert_sorted(x, s)),
    decreases s.len(),
{
    lemma_insert_sorted_len(x, s);
    if s.len() == 0 {
    } else if lex_le(x, s[0]) {
        let r = seq![x] + s;
        assert forall|i: int, j: int| 0 <= i < j < r.len() implies lex_le(r[i], r[j]) by {
            if i == 0 && j > 1 {
                lemma_lex_le_trans(x, s[0], s[j - 1]);
            }
        }
    } else {
        let tail = s.skip(1);
        assert(forall|i: int, j: int| 0 <= i < j < tail.len() ==> tail[i] == s[i + 1] && tail[j]
            == s[j + 1]);
        lemma_insert_sorted_sorted(x, tail);
        lemma_insert_sorted_len(x, tail);
        let r0 = insert_sorted(x, tail);
        let r = seq![s[0]] + r0;
        lemma_lex_le_total(x, s[0]);
        assert forall|i: int, j: int| 0 <= i < j < r.len() implies lex_le(r[i], r[j]) by {
            if i == 0 {
                // s[0] is below x and below every element of the tail.
                lemma_insert_sorted_elem(x, tail, j - 1);
                let e = r0[j - 1];
                if e != x {
                    let k = choose|k: int| 0 <= k < tail.len() && tail[k] == e;
                    assert(lex_le(s[0], s[k + 1]));
                }
            }
        }
    }
}

/// Every element of `insert_sorted(x, s)` is `x` or an element of `s`.
pub proof fn lemma_insert_sorted_elem(x: Seq<char>, s: Seq<Seq<char>>, i: int)
    requires
        0 <= i < insert_sorted(x, s).len(),
    ensures
        insert_sorted(x, s)[i] == x || (exists|k: int|
            0 <= k < s.len() && s[k] == insert_sorted(x, s)[i]),
    decreases s.len(),
{
    lemma_insert_sorted_len(x, s);
    if s.len() == 0 {
    } else if lex_le(x, s[0]) {
    } else {
        if i > 0 {
            lemma_insert_sorted_elem(x, s.skip(1), i - 1);
            let e = insert_sorted(x, s)[i];
            if e != x {
                let k = choose|k: int| 0 <= k < s.skip(1).len() && s.skip(1)[k] == e;
                assert(s[k + 1] == e);
            }
        }
    }
}

/// Insertion adds exactly the inserted element to the multiset of entries.
pub proof fn lemma_insert_sorted_multiset(x: Seq<char>, s: Seq<Seq<char>>)
    ensures
        insert_sorted(x, s).to_multiset() == s.to_multiset().insert(x),
    decreases s.len(),
{
    broadcast use vstd::seq_lib::group_to_multiset_ensures;

    if s.len() == 0 {
        assert(insert_sorted(x, s) =~= Seq::<Seq<char>>::empty().push(x));
    } else if lex_le(x, s[0]) {
        assert(seq![x] + s =~= s.insert(0, x));
        vstd::seq_lib::to_multiset_insert(s, 0, x);
    } else {
        lemma_insert_sorted_multiset(x, s.skip(1));
        let r0 = insert_sorted(x, s.skip(1));
        assert(seq![s[0]] + r0 =~= r0.insert(0, s[0]));
        vstd::seq_lib::to_multiset_insert(r0, 0, s[0]);
        assert(s =~= s.skip(1).insert(0, s[0]));
        vstd::seq_lib::to_multiset_insert(s.skip(1), 0, s[0]);
        assert(r0.to_multiset().insert(s[0]) =~= s.skip(1).to_multiset().insert(x).insert(s[0]));
        assert(s.skip(1).to_multiset().insert(x).insert(s[0]) =~= s.skip(1).to_multiset().insert(
            s[0],
        ).insert(x));
    }
}

/// Sorting yields a sorted permutation of the entries: together with
/// determinism of `sort_entries` itself, the invariant that the same index
/// always yields the same artifact for an unchanged directory.
pub proof fn lemma_sort_entries_sorted_permutation(s: Seq<Seq<char>>)
    ensures
        sort_entries(s).len() == s.len(),
        is_sorted(sort_entries(s)),
        sort_entries(s).to_multiset() == s.to_multiset(),
    decreases s.len(),
{
    broadcast use vstd::seq_lib::group_to_multiset_ensures;

    if s.len() == 0 {
    } else {
        lemma_sort_entries_sorted_permutation(s.drop_last());
        lemma_insert_sorted_len(s.last(), sort_entries(s.drop_last()));
        lemma_insert_sorted_sorted(s.last(), sort_entries(s.drop_last()));
        lemma_insert_sorted_multiset(s.last(), sort_entries(s.drop_last()));
        assert(s =~= s.drop_last().push(s.last()));
    }
}

/// The position `index` selects among `count` sorted entries: 1-based,
/// clamped to the last entry when it runs past the end, and treating the
/// undefined index 0 like the clamped bottom of the range (first entry).
pub open spec fn effective_index(index: u32, count: nat) -> nat
    recommends
        count > 0,
{
    if index >= 1 {
        if index <= count {
            (index - 1) as nat
        } else {
            (count - 1) as nat
        }
    } else {
        0
    }
}

/// `a` is below `b` in lexicographic order.
fn str_lex_le(a: &str, b: &str) -> (r: bool)
    ensures
        r == lex_le(a@, b@),
{
    let an = a.unicode_len();
    let bn = b.unicode_len();
    let mut i: usize = 0;
    proof {
        assert(a@.skip(0) =~= a@);
        assert(b@.skip(0) =~= b@);
    }
    loop
        invariant
            i <= an,
            i <= bn,
            an == a@.len(),
            bn == b@.len(),
            lex_le(a@, b@) == lex_le(a@.skip(i as int), b@.skip(i as int)),
        decreases an - i,
    {
        if i >= an {
            return true;
        }
        if i >= bn {
            return false;
        }
        proof {
            assert(a@.skip(i as int).skip(1) =~= a@.skip(i as int + 1));
            assert(b@.skip(i as int).skip(1) =~= b@.skip(i as int + 1));
        }
        let ca = a.get_char(i) as u32;
        let cb = b.get_char(i) as u32;
        if ca < cb {
            return true;
        }
        if ca > cb {
            return false;
        }
        i = i + 1;
    }
}

/// Placing `x` at the first position whose element is not below it is
/// exactly `insert_sorted`.
proof fn lemma_insert_sorted_at(x: Seq<char>, s: Seq<Seq<char>>, j: int)
    requires
        0 <= j <= s.len(),
        forall|k: int| 0 <= k < j ==> !lex_le(x, s[k]),
        j < s.len() ==> lex_le(x, s[j]),
    ensures
        insert_sorted(x, s) == s.insert(j, x),
    decreases j,
{
    if s.len() == 0 {
        assert(insert_sorted(x, s) =~= s.insert(0, x));
    } else if j == 0 {
        assert(seq![x] + s =~= s.insert(0, x));
    } else {
        assert(!lex_le(x, s[0]));
        assert(forall|k: int| 0 <= k < j - 1 ==> s.skip(1)[k] == s[k + 1]);
        if j - 1 < s.skip(1).len() {
            assert(s.skip(1)[j - 1] == s[j]);
        }
        lemma_insert_sorted_at(x, s.skip(1), j - 1);
        assert(seq![s[0]] + s.skip(1).insert(j - 1, x) =~= s.insert(j, x));
    }
}

/// Maps a 1-based workspace `index` to an entry of `entries`, under the
/// deterministic lexicographic enumeration order. An index past the end
/// clamps to the last entry; index 0 maps to the first. Fails exactly when
/// there are no entries.
pub fn resolve(entries: &Vec<String>, index: u32) -> (r: Result<String, ResolveError>)
    ensures
        match r {
            Ok(name) => entries@.len() > 0 && name@ == sort_entries(entries.deep_view())[(
            effective_index(index, entries@.len()) as int)],
            Err(e) => entries@.len() == 0 && e == ResolveError::DirectoryEmpty,
        },
{
    if entries.len() == 0 {
        return Err(ResolveError::DirectoryEmpty);
    }
    let ghost ev = entries.deep_view();
    let mut sorted: Vec<String> = Vec::new();
    let mut i: usize = 0;
    proof {
        assert(ev.take(0) =~= Seq::<Seq<char>>::empty());
    }
    while i < entries.len()
        invariant
            i <= entries@.len(),
            ev == entries.deep_view(),
            ev.len() == entries@.len(),
            sorted.deep_view() == sort_entries(ev.take(i as int)),
            sorted@.len() == i,
        decreases entries@.len() - i,
    {
        let x = entries[i].clone();
        proof {
            assert(x@ == ev[i as int]);
            lemma_insert_sorted_len(x@, sorted.deep_view());
        }
        let mut j: usize = 0;
        while j < sorted.len() && !str_lex_le(x.as_str(), sorted[j].as_str())
            invariant
                j <= sorted@.len(),
                forall|k: int| 0 <= k < j ==> !lex_le(x@, sorted.deep_view()[k]),
            decreases sorted@.len() - j,
        {
            j = j + 1;
        }
        let ghost sv = sorted.deep_view();
        proof {
            lemma_insert_sorted_at(x@, sv, j as int);
        }
        sorted.insert(j, x);
        proof {
            assert(sorted.deep_view() =~~= sv.insert(j as int, x@));
            assert(ev.take(i as int + 1).drop_last() =~= ev.take(i as int));
            assert(ev.take(i as int + 1).last() == ev[i as int]);
        }
        i = i + 1;
    }
    proof {
        assert(ev.take(entries@.len() as int) =~= ev);
    }
    let count = sorted.len();
    let pos: usize = if index >= 1 {
        if (index as usize) <= count {
            (index as usize) - 1
        } else {
            count - 1
        }
    } else {
        0
    };
    let name = sorted[pos].clone();
    proof {
        assert(name@ == sorted.deep_view()[pos as int]);
    }
    Ok(name)
}

} // verus!
