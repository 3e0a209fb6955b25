use vstd::prelude::*;

verus! {

/// The byte that terminates a line on the event socket.
pub const LINE_TERMINATOR: u8 = 10;

/// Index of the first line terminator in `s`, or `s.len()` if none occurs.
pub open spec fn first_term(s: Seq<u8>) -> nat
    decreases s.len(),
{
    if s.len() == 0 {
        0
    } else if s[0] == LINE_TERMINATOR {
        0
    } else {
        1 + first_term(s.skip(1int))
    }
}

/// The complete (terminator-delimited) lines of `s`, in order, with empty
/// segments suppressed. Bytes after the last terminator are not included.
pub open spec fn complete_lines(s: Seq<u8>) -> Seq<Seq<u8>>
    decreases s.len(),
{
    let i = first_term(s);
    if i >= s.len() {
        Seq::empty()
    } else {
        let rest = complete_lines(s.skip(i as int + 1));
        if i == 0 {
            rest
        } else {
            seq![s.take(i as int)] + rest
        }
    }
}

/// The unterminated tail of `s`: everything after the last terminator,
/// or all of `s` if no terminator occurs.
pub open spec fn pending_tail(s: Seq<u8>) -> Seq<u8>
    decreases s.len(),
{
    let i = first_term(s);
    if i >= s.len() {
        s
    } else {
        pending_tail(s.skip(i as int + 1))
    }
}

pub proof fn lemma_first_term_bounds(s: Seq<u8>)
    ensures
        first_term(s) <= s.len(),
        forall|j: int| 0 <= j < first_term(s) ==> s[j] != LINE_TERMINATOR,
        first_term(s) < s.len() ==> s[first_term(s) as int] == LINE_TERMINATOR,
    decreases s.len(),
{
    if s.len() == 0 {
    } else if s[0] == LINE_TERMINATOR {
    } else {
        lemma_first_term_bounds(s.skip(1int));
        assert forall|j: int| 0 <= j < first_term(s) implies s[j] != LINE_TERMINATOR by {
            if j > 0 {
                assert(s.skip(1int)[j - 1] == s[j]);
            }
        }
        if first_term(s) < s.len() {
            assert(s.skip(1int)[first_term(s) - 1] == s[first_term(s) as int]);
        }
    }
}

/// `s` holds no terminator if and only if its first terminator index is its length.
pub proof fn lemma_no_term_iff(s: Seq<u8>)
    ensures
        (first_term(s) == s.len()) <==> (forall|j: int|
            0 <= j < s.len() ==> s[j] != LINE_TERMINATOR),
{
    lemma_first_term_bounds(s);
}

/// A terminator-free byte string frames no line and is pending in full.
pub proof fn lemma_unterminated(s: Seq<u8>)
    requires
        forall|j: int| 0 <= j < s.len() ==> s[j] != LINE_TERMINATOR,
    ensures
        complete_lines(s) == Seq::<Seq<u8>>::empty(),
        pending_tail(s) == s,
{
    lemma_no_term_iff(s);
}

/// The pending tail never holds a terminator.
pub proof fn lemma_pending_tail_unterminated(s: Seq<u8>)
    ensures
        forall|j: int| 0 <= j < pending_tail(s).len() ==> pending_tail(s)[j] != LINE_TERMINATOR,
    decreases s.len(),
{
    let i = first_term(s);
    lemma_first_term_bounds(s);
    if i >= s.len() {
        assert(pending_tail(s) == s);
        assert(forall|j: int| 0 <= j < s.len() ==> s[j] != LINE_TERMINATOR);
    } else {
        lemma_pending_tail_unterminated(s.skip(i as int + 1));
        assert(pending_tail(s) == pending_tail(s.skip(i as int + 1)));
    }
}

/// Every framed line is non-empty and holds no terminator: empty segments
/// are suppressed, and a terminator never leaks into a line.
pub proof fn lemma_complete_lines_wf(s: Seq<u8>)
    ensures
        forall|i: int| 0 <= i < complete_lines(s).len() ==> #[trigger] complete_lines(
            s,
        )[i].len() > 0,
        forall|i: int, j: int|
            0 <= i < complete_lines(s).len() && 0 <= j < complete_lines(s)[i].len()
                ==> #[trigger] complete_lines(s)[i][j] != LINE_TERMINATOR,
    decreases s.len(),
{
    let k = first_term(s);
    lemma_first_term_bounds(s);
    if k >= s.len() {
    } else {
        let rest = complete_lines(s.skip(k as int + 1));
        lemma_complete_lines_wf(s.skip(k as int + 1));
        if k == 0 {
            assert(complete_lines(s) == rest);
        } else {
            let head = s.take(k as int);
            assert(complete_lines(s) == seq![head] + rest);
            assert(complete_lines(s)[0] == head);
            assert(head.len() == k > 0);
            assert(forall|j: int| 0 <= j < k ==> head[j] == s[j]);
            assert(forall|i: int|
                1 <= i < complete_lines(s).len() ==> complete_lines(s)[i] == rest[i - 1]);
        }
        assert forall|i: int| 0 <= i < complete_lines(s).len() implies #[trigger] complete_lines(
            s,
        )[i].len() > 0 by {
            if k > 0 && i >= 1 {
                assert(complete_lines(s)[i] == rest[i - 1]);
            }
        }
        assert forall|i: int, j: int|
            0 <= i < complete_lines(s).len() && 0 <= j < complete_lines(s)[i].len()
                implies #[trigger] complete_lines(s)[i][j] != LINE_TERMINATOR by {
            if k > 0 && i >= 1 {
                assert(complete_lines(s)[i] == rest[i - 1]);
            }
        }
    }
}

/// How one appended byte changes the framing of a byte string: a
/// non-terminator extends the pending tail, a terminator completes the
/// pending tail into a line (unless it is empty, which is suppressed).
pub proof fn lemma_framing_snoc(s: Seq<u8>, b: u8)
    ensures
        b != LINE_TERMINATOR ==> complete_lines(s.push(b)) == complete_lines(s)
            && pending_tail(s.push(b)) == pending_tail(s).push(b),
        b == LINE_TERMINATOR ==> complete_lines(s.push(b)) == complete_lines(s) + (
        if pending_tail(s).len() == 0 {
            Seq::<Seq<u8>>::empty()
        } else {
            seq![pending_tail(s)]
        }) && pending_tail(s.push(b)) == Seq::<u8>::empty(),
    decreases s.len(),
{
    let t = s.push(b);
    let i = first_term(s);
    lemma_first_term_bounds(s);
    lemma_first_term_bounds(t);
    if i == s.len() {
        // `s` holds no terminator.
        if b != LINE_TERMINATOR {
            assert(forall|j: int| 0 <= j < t.len() ==> t[j] != LINE_TERMINATOR);
            lemma_unterminated(s);
            lemma_unterminated(t);
        } else {
            assert(t[s.len() as int] == LINE_TERMINATOR);
            assert forall|j: int| 0 <= j < s.len() implies t[j] != LINE_TERMINATOR by {
                assert(t[j] == s[j]);
            }
            assert(first_term(t) == s.len()) by {
                if first_term(t) < s.len() {
                    assert(t[first_term(t) as int] == LINE_TERMINATOR);
                } else if first_term(t) > s.len() {
                    assert(t[s.len() as int] != LINE_TERMINATOR);
                }
            }
            lemma_unterminated(s);
            assert(t.skip(i as int + 1) =~= Seq::<u8>::empty());
            assert(complete_lines(Seq::<u8>::empty()) =~= Seq::<Seq<u8>>::empty());
            assert(pending_tail(Seq::<u8>::empty()) =~= Seq::<u8>::empty());
            if s.len() == 0 {
                assert(complete_lines(t) =~= complete_lines(s) + Seq::<Seq<u8>>::empty());
            } else {
                assert(t.take(i as int) =~= s);
                assert(complete_lines(t) =~= seq![s] + complete_lines(Seq::<u8>::empty()));
                assert(complete_lines(t) =~= complete_lines(s) + seq![pending_tail(s)]);
            }
        }
    } else {
        // `s` has a terminator at i < s.len(); it is also the first of `t`.
        assert(first_term(t) == i) by {
            assert(t[i as int] == s[i as int]);
            lemma_first_term_bounds(t);
            if first_term(t) < i {
                assert(s[first_term(t) as int] == t[first_term(t) as int]);
            }
        }
        assert(t.skip(i as int + 1) =~= s.skip(i as int + 1).push(b));
        assert(t.take(i as int) =~= s.take(i as int));
        lemma_framing_snoc(s.skip(i as int + 1), b);
        if b != LINE_TERMINATOR {
            if i == 0 {
                assert(complete_lines(t) == complete_lines(s));
            } else {
                assert(complete_lines(t) =~= complete_lines(s));
            }
        } else {
            let emitted = if pending_tail(s).len() == 0 {
                Seq::<Seq<u8>>::empty()
            } else {
                seq![pending_tail(s)]
            };
            assert(pending_tail(s) == pending_tail(s.skip(i as int + 1)));
            if i == 0 {
                assert(complete_lines(t) == complete_lines(s.skip(i as int + 1)) + emitted);
                assert(complete_lines(t) =~= complete_lines(s) + emitted);
            } else {
                assert(complete_lines(t) == seq![s.take(i as int)] + (complete_lines(s.skip(i as int + 1))
                    + emitted));
                assert(complete_lines(t) =~= (seq![s.take(i as int)] + complete_lines(s.skip(i as int + 1)))
                    + emitted);
                assert(complete_lines(t) =~= complete_lines(s) + emitted);
            }
        }
    }
}

/// Framing distributes over concatenation: the lines of `x + y` are the
/// lines of `x` followed by the lines of `x`'s pending tail extended by
/// `y`, and the pending tail of the whole is likewise unchanged by the cut.
pub proof fn lemma_framing_split(x: Seq<u8>, y: Seq<u8>)
    ensures
        complete_lines(x + y) == complete_lines(x) + complete_lines(pending_tail(x) + y),
        pending_tail(x + y) == pending_tail(pending_tail(x) + y),
    decreases y.len(),
{
    if y.len() == 0 {
        assert(x + y =~= x);
        assert(pending_tail(x) + y =~= pending_tail(x));
        lemma_pending_tail_unterminated(x);
        lemma_unterminated(pending_tail(x));
        assert(complete_lines(x) + complete_lines(pending_tail(x)) =~= complete_lines(x));
        assert(pending_tail(pending_tail(x)) == pending_tail(x));
    } else {
        let y0 = y.drop_last();
        let b = y.last();
        lemma_framing_split(x, y0);
        assert(x + y =~= (x + y0).push(b));
        assert(pending_tail(x) + y =~= (pending_tail(x) + y0).push(b));
        lemma_framing_snoc(x + y0, b);
        lemma_framing_snoc(pending_tail(x) + y0, b);
        if b != LINE_TERMINATOR {
            assert(complete_lines(x + y) =~= complete_lines(x) + complete_lines(
                pending_tail(x) + y,
            ));
        } else {
            let p = pending_tail(x + y0);
            assert(p == pending_tail(pending_tail(x) + y0));
            let emitted = if p.len() == 0 {
                Seq::<Seq<u8>>::empty()
            } else {
                seq![p]
            };
            assert(complete_lines(x + y) == (complete_lines(x) + complete_lines(
                pending_tail(x) + y0,
            )) + emitted);
            assert(complete_lines(x + y) =~= complete_lines(x) + (complete_lines(
                pending_tail(x) + y0,
            ) + emitted));
        }
    }
}

/// The concatenation of a sequence of chunks.
pub open spec fn concat_chunks(chunks: Seq<Seq<u8>>) -> Seq<u8>
    decreases chunks.len(),
{
    if chunks.len() == 0 {
        Seq::empty()
    } else {
        concat_chunks(chunks.drop_last()) + chunks.last()
    }
}

/// All lines emitted after feeding `chunks`, one at a time in order, to a
/// framer that started empty.
pub open spec fn emitted_lines(chunks: Seq<Seq<u8>>) -> Seq<Seq<u8>>
    decreases chunks.len(),
{
    if chunks.len() == 0 {
        Seq::empty()
    } else {
        emitted_lines(chunks.drop_last()) + complete_lines(
            buffered_tail(chunks.drop_last()) + chunks.last(),
        )
    }
}

/// The framer's carry-over buffer after feeding `chunks`, one at a time in
/// order, to a framer that started empty.
pub open spec fn buffered_tail(chunks: Seq<Seq<u8>>) -> Seq<u8>
    decreases chunks.len(),
{
    if chunks.len() == 0 {
        Seq::empty()
    } else {
        pending_tail(buffered_tail(chunks.drop_last()) + chunks.last())
    }
}

/// Feeding a stream chunk by chunk emits exactly the complete lines of the
/// whole stream, and buffers exactly its unterminated tail: the framing is
/// independent of where the chunk boundaries fall.
pub proof fn lemma_emitted_lines_of_concat(chunks: Seq<Seq<u8>>)
    ensures
        emitted_lines(chunks) == complete_lines(concat_chunks(chunks)),
        buffered_tail(chunks) == pending_tail(concat_chunks(chunks)),
    decreases chunks.len(),
{
    if chunks.len() == 0 {
        assert(complete_lines(Seq::<u8>::empty()) =~= Seq::<Seq<u8>>::empty());
        assert(pending_tail(Seq::<u8>::empty()) =~= Seq::<u8>::empty());
    } else {
        let front = chunks.drop_last();
        let c = chunks.last();
        lemma_emitted_lines_of_concat(front);
        lemma_framing_split(concat_chunks(front), c);
    }
}

/// Any two chunkings of the same byte stream make the framer emit the
/// identical ordered sequence of lines and leave it with the identical
/// carry-over buffer.
pub proof fn lemma_framing_chunking_independent(a: Seq<Seq<u8>>, b: Seq<Seq<u8>>)
    requires
        concat_chunks(a) == concat_chunks(b),
    ensures
        emitted_lines(a) == emitted_lines(b),
        buffered_tail(a) == buffered_tail(b),
{
    lemma_emitted_lines_of_concat(a);
    lemma_emitted_lines_of_concat(b);
}

/// Turns an unbounded sequence of arbitrarily sized byte chunks into the
/// ordered sequence of complete lines, carrying the unterminated tail of
/// each chunk over to the next call.
pub struct LineFramer {
    buf: Vec<u8>,
}

impl LineFramer {
    /// The carry-over buffer: bytes received so far that have not yet seen
    /// a line terminator.
    pub closed spec fn pending(&self) -> Seq<u8> {
        self.buf@
    }

    pub fn new() -> (framer: LineFramer)
        ensures
            framer.pending() == Seq::<u8>::empty(),
    {
        LineFramer { buf: Vec::new() }
    }

    /// Appends `chunk` to the carry-over buffer and yields every line that
    /// is now complete, in order, keeping the new unterminated tail for the
    /// next call. Empty lines are suppressed; no line is ever yielded twice
    /// or split across two calls.
    pub fn feed(&mut self, chunk: &[u8]) -> (lines: Vec<Vec<u8>>)
        ensures
            lines.deep_view() == complete_lines(old(self).pending() + chunk@),
            final(self).pending() == pending_tail(old(self).pending() + chunk@),
    {
        let ghost s = self.buf@ + chunk@;
        let mut lines: Vec<Vec<u8>> = Vec::new();
        let mut cur: Vec<u8> = Vec::new();
        let mut i: usize = 0;
        proof {
            assert(self.buf@.take(0) =~= Seq::<u8>::empty());
            assert(complete_lines(Seq::<u8>::empty()) =~= Seq::<Seq<u8>>::empty());
            assert(pending_tail(Seq::<u8>::empty()) =~= Seq::<u8>::empty());
            assert(lines.deep_view() =~= Seq::<Seq<u8>>::empty());
        }
        while i < self.buf.len()
            invariant
                i <= self.buf.len(),
                s == self.buf@ + chunk@,
                lines.deep_view() == complete_lines(self.buf@.take(i as int)),
                cur@ == pending_tail(self.buf@.take(i as int)),
            decreases self.buf.len() - i,
        {
            let b = self.buf[i];
            proof {
                assert(self.buf@.take(i as int + 1) =~= self.buf@.take(i as int).push(b));
                lemma_framing_snoc(self.buf@.take(i as int), b);
            }
            if b == LINE_TERMINATOR {
                if cur.len() > 0 {
                    let ghost lv = lines.deep_view();
                    let ghost cv = cur@;
                    lines.push(cur);
                    proof {
                        assert(lines.deep_view() =~~= lv.push(cv));
                    }
                    cur = Vec::new();
                } else {
                    proof {
                        assert(lines.deep_view() =~= complete_lines(
                            self.buf@.take(i as int + 1),
                        ));
                    }
                }
            } else {
                cur.push(b);
            }
            i = i + 1;
        }
        proof {
            assert(self.buf@.take(self.buf@.len() as int) =~= self.buf@);
            assert(s.take(self.buf@.len() as int) =~= self.buf@);
        }
        let mut j: usize = 0;
        while j < chunk.len()
            invariant
                j <= chunk.len(),
                s == self.buf@ + chunk@,
                lines.deep_view() == complete_lines(s.take(self.buf@.len() + j as int)),
                cur@ == pending_tail(s.take(self.buf@.len() + j as int)),
            decreases chunk.len() - j,
        {
            let b = chunk[j];
            proof {
                assert(s.take(self.buf@.len() + j as int + 1) =~= s.take(
                    self.buf@.len() + j as int,
                ).push(b));
                lemma_framing_snoc(s.take(self.buf@.len() + j as int), b);
            }
            if b == LINE_TERMINATOR {
                if cur.len() > 0 {
                    let ghost lv = lines.deep_view();
                    let ghost cv = cur@;
                    lines.push(cur);
                    proof {
                        assert(lines.deep_view() =~~= lv.push(cv));
                    }
                    cur = Vec::new();
                } else {
                    proof {
                        assert(lines.deep_view() =~= complete_lines(
                            s.take(self.buf@.len() + j as int + 1),
                        ));
                    }
                }
            } else {
                cur.push(b);
            }
            j = j + 1;
        }
        proof {
            assert(s.take(s.len() as int) =~= s);
        }
        self.buf = cur;
        lines
    }
}

} // verus!
