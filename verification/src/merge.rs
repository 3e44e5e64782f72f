//! The term merge iterator: a priority-queue-driven streaming merge of N
//! sorted term streams into one sorted, deduplicated stream with provenance.

use vstd::prelude::*;
use crate::term::{
    Term, lex_lt, ascending_keys, lemma_lex_lt_asymmetric, lemma_lex_lt_irreflexive,
    lemma_lex_lt_transitive,
};
use crate::queue::{
    HeapItem, TermQueue, extracted_before, lemma_extracted_before_asymmetric,
};
use crate::stream::SortedKeyStream;

verus! {

/// Whether `l` is exactly the list of ordinals of the inputs that contain
/// term `t`: strictly ascending, nothing missing, nothing extra, and (since
/// a merge only yields terms that occur somewhere) non-empty.
pub open spec fn provenance_ok(inputs: Seq<Seq<Seq<u8>>>, t: Seq<u8>, l: Seq<int>) -> bool {
    &&& l.len() > 0
    &&& (forall|p: int, q: int| 0 <= p < q < l.len() ==> l[p] < l[q])
    &&& (forall|i: int| #[trigger] l.contains(i) ==> 0 <= i < inputs.len() && inputs[i].contains(t))
    &&& (forall|i: int|
        0 <= i < inputs.len() && #[trigger] inputs[i].contains(t) ==> l.contains(i))
}

/// Whether some yielded pair of `y` carries term `t`.
pub open spec fn yields_term(y: Seq<(Seq<u8>, Seq<int>)>, t: Seq<u8>) -> bool {
    exists|k: int| 0 <= k < y.len() && (#[trigger] y[k]).0 == t
}

/// Whether some element of `l` is the ordinal `i`.
pub open spec fn ords_contain(l: Seq<usize>, i: int) -> bool {
    exists|p: int| 0 <= p < l.len() && (#[trigger] l[p]) as int == i
}

/// Merges N sorted, duplicate-free term streams into one globally sorted,
/// deduplicated stream. Each advance yields the next distinct term together
/// with the ascending list of ordinals of the streams that contain it.
pub struct TermIterator<S: SortedKeyStream> {
    key_streams: Vec<S>,
    queue: TermQueue,
    // Reusable output buffers: the current term and the ordinals of the
    // streams containing it.
    current_term: Term,
    current_segment_ords: Vec<usize>,
    // The model: what each stream held at construction, how far each has
    // been consumed, and everything yielded so far.
    init: Ghost<Seq<Seq<Seq<u8>>>>,
    pos: Ghost<Seq<int>>,
    hist: Ghost<Seq<(Seq<u8>, Seq<int>)>>,
}

impl<S: SortedKeyStream> TermIterator<S> {
    /// What each input stream held when the merge was constructed.
    pub closed spec fn inputs(self) -> Seq<Seq<Seq<u8>>> {
        self.init@
    }

    /// Every (term, ordinal list) pair yielded so far, in order.
    pub closed spec fn yielded(self) -> Seq<(Seq<u8>, Seq<int>)> {
        self.hist@
    }

    /// The terminal state: no pending entry is left, so every further
    /// advance yields nothing.
    pub closed spec fn exhausted(self) -> bool {
        self.queue@.len() == 0
    }

    /// The contents of the reusable output buffers.
    pub closed spec fn current(self) -> (Seq<u8>, Seq<int>) {
        (self.current_term@, self.current_segment_ords@.map_values(|o: usize| o as int))
    }

    spec fn n(self) -> int {
        self.init@.len() as int
    }

    /// Whether some pending entry belongs to stream `i`.
    spec fn in_queue(self, i: int) -> bool {
        exists|k: int|
            0 <= k < self.queue@.len() && (#[trigger] self.queue@[k]).segment_ord == i
    }

    /// Queue entry `k` holds the next unconsumed term of its stream, and the
    /// stream itself holds exactly what follows that term.
    spec fn entry_ok(self, k: int) -> bool {
        let e = self.queue@[k];
        let i = e.segment_ord as int;
        &&& 0 <= i < self.n()
        &&& self.pos@[i] < self.init@[i].len()
        &&& e.term@ == self.init@[i][self.pos@[i]]
        &&& self.key_streams@[i].remaining() == self.init@[i].skip(self.pos@[i] + 1)
    }

    /// The structural invariant: bookkeeping lengths agree, every input is
    /// strictly ascending, the queue holds exactly one entry per
    /// still-active stream, and each entry is that stream's next term.
    spec fn basic(self) -> bool {
        &&& self.key_streams@.len() == self.n()
        &&& self.pos@.len() == self.n()
        &&& (forall|i: int|
            0 <= i < self.n() ==> 0 <= #[trigger] self.pos@[i] <= self.init@[i].len())
        &&& (forall|i: int| 0 <= i < self.n() ==> ascending_keys(#[trigger] self.init@[i]))
        &&& self.queue.wf()
        &&& (forall|k: int| 0 <= k < self.queue@.len() ==> self.entry_ok(k))
        &&& (forall|i: int|
            0 <= i < self.n() && #[trigger] self.pos@[i] < self.init@[i].len()
                ==> self.in_queue(i))
    }

    /// Whether some yielded pair carries term `t`.
    spec fn hist_has(self, t: Seq<u8>) -> bool {
        exists|k: int| 0 <= k < self.hist@.len() && (#[trigger] self.hist@[k]).0 == t
    }

    /// The history invariant: everything yielded is strictly increasing,
    /// carries its exact provenance, covers every consumed input term, and
    /// lies strictly below every still-unconsumed term.
    spec fn hist_ok(self) -> bool {
        &&& (forall|k: int|
            0 <= k < self.hist@.len() ==> provenance_ok(
                self.init@,
                (#[trigger] self.hist@[k]).0,
                self.hist@[k].1,
            ))
        &&& (forall|k1: int, k2: int|
            0 <= k1 < k2 < self.hist@.len() ==> lex_lt(
                (#[trigger] self.hist@[k1]).0,
                (#[trigger] self.hist@[k2]).0,
            ))
        &&& (forall|i: int, j: int|
            0 <= i < self.n() && 0 <= j < self.pos@[i] ==> self.hist_has(
                #[trigger] self.init@[i][j],
            ))
        &&& (forall|i: int|
            0 <= i < self.n() && #[trigger] self.pos@[i] < self.init@[i].len()
                && self.hist@.len() > 0 ==> lex_lt(
                self.hist@.last().0,
                self.init@[i][self.pos@[i]],
            ))
    }

    /// The merge's full invariant: established by construction, preserved by
    /// every advance.
    pub closed spec fn wf(self) -> bool {
        self.basic() && self.hist_ok()
    }

    /// The invariant does not look at the output buffers: two states that
    /// agree on everything else are equally well formed.
    proof fn lemma_wf_same_core(a: Self, b: Self)
        requires
            a.wf(),
            b.init == a.init,
            b.pos == a.pos,
            b.hist == a.hist,
            b.queue == a.queue,
            b.key_streams == a.key_streams,
        ensures
            b.wf(),
    {
        assert forall|k: int| 0 <= k < b.queue@.len() implies b.entry_ok(k) by {
            assert(a.entry_ok(k));
        }
        assert forall|i: int|
            0 <= i < b.n() && #[trigger] b.pos@[i] < b.init@[i].len() implies b.in_queue(
            i,
        ) by {
            assert(a.in_queue(i));
            let k = choose|k: int|
                0 <= k < a.queue@.len() && (#[trigger] a.queue@[k]).segment_ord == i;
            assert(b.queue@[k].segment_ord == i);
        }
        assert forall|i: int, j: int|
            0 <= i < b.n() && 0 <= j < b.pos@[i] implies b.hist_has(
            #[trigger] b.init@[i][j],
        ) by {
            assert(a.hist_has(a.init@[i][j]));
            let k = choose|k: int|
                0 <= k < a.hist@.len() && (#[trigger] a.hist@[k]).0 == a.init@[i][j];
            assert(b.hist@[k].0 == b.init@[i][j]);
        }
    }

    /// Neither do the structural clauses look at the history: states that
    /// agree on streams, queue and positions share them.
    proof fn lemma_basic_same_core(a: Self, b: Self)
        requires
            a.basic(),
            b.init == a.init,
            b.pos == a.pos,
            b.queue == a.queue,
            b.key_streams == a.key_streams,
        ensures
            b.basic(),
    {
        assert forall|k: int| 0 <= k < b.queue@.len() implies b.entry_ok(k) by {
            assert(a.entry_ok(k));
        }
        assert forall|i: int|
            0 <= i < b.n() && #[trigger] b.pos@[i] < b.init@[i].len() implies b.in_queue(
            i,
        ) by {
            assert(a.in_queue(i));
            let k = choose|k: int|
                0 <= k < a.queue@.len() && (#[trigger] a.queue@[k]).segment_ord == i;
            assert(b.queue@[k].segment_ord == i);
        }
    }

    /// Popping queue entry `kp` (for stream `i2`), consuming that stream's
    /// next term, and refilling its pending entry preserves the structural
    /// invariant; every other pending entry survives.
    proof fn lemma_basic_after_step(pre: Self, post: Self, kp: int, i2: int)
        requires
            pre.basic(),
            0 <= kp < pre.queue@.len(),
            pre.queue@[kp].segment_ord as int == i2,
            post.init@ == pre.init@,
            post.pos@ == pre.pos@.update(i2, pre.pos@[i2] + 1),
            post.key_streams@.len() == pre.key_streams@.len(),
            forall|j: int|
                0 <= j < pre.key_streams@.len() && j != i2 ==> post.key_streams@[j] == pre
                    .key_streams@[j],
            forall|a: int|
                0 <= a < pre.queue@.remove(kp).len() ==> post.queue@[a] == pre.queue@.remove(
                    kp,
                )[a],
            pre.pos@[i2] + 1 < pre.init@[i2].len() ==> {
                &&& post.queue@.len() == pre.queue@.len()
                &&& post.queue@.last().segment_ord as int == i2
                &&& post.queue@.last().term@ == pre.init@[i2][pre.pos@[i2] + 1]
                &&& post.key_streams@[i2].remaining() == pre.init@[i2].skip(
                    pre.pos@[i2] + 2,
                )
            },
            pre.pos@[i2] + 1 == pre.init@[i2].len() ==> post.queue@.len() == pre.queue@.len()
                - 1,
        ensures
            post.basic(),
            forall|k: int|
                0 <= k < pre.queue@.len() && k != kp ==> 0 <= (if k < kp {
                    k
                } else {
                    k - 1
                }) < post.queue@.len() && post.queue@[
                    if k < kp {
                        k
                    } else {
                        k - 1
                    }
                ] == #[trigger] pre.queue@[k],
            forall|a: int|
                0 <= a < pre.queue@.len() - 1 ==> #[trigger] post.queue@[a] == pre.queue@[
                    if a < kp {
                        a
                    } else {
                        a + 1
                    }
                ],
            pre.pos@[i2] + 1 < pre.init@[i2].len() ==> post.in_queue(i2),
    {
        let q2 = pre.queue@.remove(kp);
        assert(pre.entry_ok(kp));
        assert forall|a: int| 0 <= a < q2.len() implies q2[a] == (if a < kp {
            pre.queue@[a]
        } else {
            pre.queue@[a + 1]
        }) by {}
        let active = pre.pos@[i2] + 1 < pre.init@[i2].len();
        assert forall|a: int, b: int|
            0 <= a < b < post.queue@.len() implies (#[trigger] post.queue@[a]).segment_ord
                != (#[trigger] post.queue@[b]).segment_ord by {
            let ka: int = if a < kp {
                a
            } else {
                a + 1
            };
            if b < q2.len() {
                let kb: int = if b < kp {
                    b
                } else {
                    b + 1
                };
                assert(post.queue@[a] == pre.queue@[ka]);
                assert(post.queue@[b] == pre.queue@[kb]);
            } else {
                assert(post.queue@[a] == pre.queue@[ka]);
                assert(post.queue@[b].segment_ord as int == i2);
                assert(ka != kp);
            }
        }
        assert forall|a: int| 0 <= a < post.queue@.len() implies post.entry_ok(a) by {
            if a < q2.len() {
                let ka: int = if a < kp {
                    a
                } else {
                    a + 1
                };
                assert(post.queue@[a] == pre.queue@[ka]);
                assert(pre.entry_ok(ka));
                assert(pre.queue@[ka].segment_ord as int != i2);
            } else {
                assert(post.queue@[a] == post.queue@.last());
            }
        }
        assert forall|i: int|
            0 <= i < post.n() && #[trigger] post.pos@[i] < post.init@[i].len() implies post
            .in_queue(i) by {
            if i == i2 {
                assert(post.queue@[post.queue@.len() - 1].segment_ord as int == i2);
            } else {
                assert(pre.pos@[i] < pre.init@[i].len());
                assert(pre.in_queue(i));
                let k = choose|k: int|
                    0 <= k < pre.queue@.len() && (#[trigger] pre.queue@[k]).segment_ord == i;
                assert(pre.entry_ok(kp));
                assert(k != kp);
                let a: int = if k < kp {
                    k
                } else {
                    k - 1
                };
                assert(post.queue@[a] == pre.queue@[k]);
            }
        }
        assert forall|k: int|
            0 <= k < pre.queue@.len() && k != kp implies 0 <= (if k < kp {
            k
        } else {
            k - 1
        }) < post.queue@.len() && post.queue@[
            if k < kp {
                k
            } else {
                k - 1
            }
        ] == #[trigger] pre.queue@[k] by {
            let a: int = if k < kp {
                k
            } else {
                k - 1
            };
            assert(post.queue@[a] == q2[a]);
        }
        if active {
            assert(post.queue@[post.queue@.len() - 1].segment_ord as int == i2);
        }
    }

    /// The borrowed current term, valid until the next advance.
    pub fn current_term(&self) -> (term: &Term)
        ensures
            term@ == self.current().0,
    {
        &self.current_term
    }

    /// The borrowed ordinals of the streams containing the current term,
    /// valid until the next advance.
    pub fn current_segment_ords(&self) -> (ords: &Vec<usize>)
        ensures
            ords@.map_values(|o: usize| o as int) == self.current().1,
    {
        &self.current_segment_ords
    }

    /// A merge over the given streams. Every stream must be strictly
    /// ascending in byte order, with no repeats; its position in the list is
    /// its segment ordinal for the whole merge. Seeding pulls once from
    /// every stream, so a stream that is empty from the start never enters
    /// the queue and never contributes.
    pub fn new(key_streams: Vec<S>) -> (it: TermIterator<S>)
        requires
            forall|i: int|
                0 <= i < key_streams@.len() ==> ascending_keys(
                    (#[trigger] key_streams@[i]).remaining(),
                ),
        ensures
            it.wf(),
            it.inputs().len() == key_streams@.len(),
            forall|i: int|
                0 <= i < key_streams@.len() ==> it.inputs()[i] == (
                #[trigger] key_streams@[i]).remaining(),
            it.yielded() == Seq::<(Seq<u8>, Seq<int>)>::empty(),
            it.exhausted() <==> (forall|i: int|
                0 <= i < key_streams@.len() ==> (#[trigger] key_streams@[i]).remaining().len()
                    == 0),
    {
        let n = key_streams.len();
        let ghost init_seq = Seq::new(
            key_streams@.len(),
            |i: int| key_streams@[i].remaining(),
        );
        let ghost zero_pos: Seq<int> = Seq::new(init_seq.len(), |i: int| 0);
        let mut it = TermIterator {
            key_streams,
            queue: TermQueue::new(),
            current_term: Term::empty(),
            current_segment_ords: Vec::new(),
            init: Ghost(init_seq),
            pos: Ghost(zero_pos),
            hist: Ghost(Seq::empty()),
        };
        let mut segment_ord: usize = 0;
        while segment_ord < n
            invariant
                segment_ord <= n,
                n == it.n(),
                it.init@ == init_seq,
                it.pos@ == zero_pos,
                zero_pos.len() == init_seq.len(),
                forall|i: int| 0 <= i < zero_pos.len() ==> #[trigger] zero_pos[i] == 0,
                it.hist@ == Seq::<(Seq<u8>, Seq<int>)>::empty(),
                it.key_streams@.len() == it.n(),
                forall|i: int| 0 <= i < it.n() ==> ascending_keys(#[trigger] it.init@[i]),
                forall|j: int|
                    segment_ord <= j < it.n() ==> (#[trigger] it.key_streams@[j]).remaining()
                        == init_seq[j],
                forall|k: int|
                    0 <= k < it.queue@.len() ==> (#[trigger] it.queue@[k]).segment_ord
                        < segment_ord,
                it.queue.wf(),
                forall|k: int| 0 <= k < it.queue@.len() ==> it.entry_ok(k),
                forall|i: int|
                    0 <= i < segment_ord && #[trigger] init_seq[i].len() > 0 ==> it.in_queue(
                        i,
                    ),
            decreases n - segment_ord,
        {
            proof {
                assert(init_seq[segment_ord as int].skip(0) =~= init_seq[segment_ord as int]);
            }
            let ghost prev = it;
            it.push_next_segment_el(segment_ord);
            proof {
                assert forall|k: int| 0 <= k < it.queue@.len() implies it.entry_ok(k) by {
                    if k < prev.queue@.len() {
                        assert(prev.entry_ok(k));
                        assert(it.queue@[k] == prev.queue@[k]);
                        assert(it.queue@[k].segment_ord != segment_ord);
                    }
                }
                assert forall|i: int|
                    0 <= i < segment_ord + 1 && #[trigger] init_seq[i].len() > 0 implies it
                    .in_queue(i) by {
                    if i < segment_ord {
                        let k = choose|k: int|
                            0 <= k < prev.queue@.len() && (
                            #[trigger] prev.queue@[k]).segment_ord == i;
                        assert(it.queue@[k].segment_ord == i);
                    } else {
                        assert(it.queue@[it.queue@.len() - 1].segment_ord == i);
                    }
                }
            }
            segment_ord += 1;
        }
        proof {
            assert forall|i: int| 0 <= i < key_streams@.len() implies (
            #[trigger] key_streams@[i]).remaining().len() == init_seq[i].len() by {
                assert(init_seq[i] == key_streams@[i].remaining());
            }
            if it.queue@.len() > 0 {
                assert(it.entry_ok(0));
                let i0 = it.queue@[0].segment_ord as int;
                assert(init_seq[i0].len() > 0);
                assert(!(init_seq[i0].len() == 0));
            } else {
                assert forall|i: int| 0 <= i < init_seq.len() implies #[trigger] init_seq[
                    i].len() == 0 by {
                    if init_seq[i].len() > 0 {
                        assert(it.in_queue(i));
                    }
                }
            }
        }
        it
    }

    /// Step to the next distinct term. Yields `true` when a term was
    /// produced: the current-term buffer then holds the smallest term not
    /// yet yielded, and the segment-ordinal buffer the ascending ordinals of
    /// exactly the streams containing it. Yields `false` once every stream
    /// is drained, and keeps yielding `false` from then on.
    pub fn advance(&mut self) -> (has: bool)
        requires
            old(self).wf(),
        ensures
            final(self).wf(),
            final(self).inputs() == old(self).inputs(),
            has == !old(self).exhausted(),
            (!has) ==> final(self).exhausted() && final(self).yielded() == old(self).yielded(),
            has ==> final(self).yielded().len() == old(self).yielded().len() + 1
                && final(self).yielded().drop_last() == old(self).yielded()
                && final(self).yielded().last() == final(self).current(),
    {
        self.current_segment_ords.clear();
        if self.queue.len() == 0 {
            proof {
                Self::lemma_wf_same_core(*old(self), *self);
            }
            return false;
        }
        let ghost st0 = *self;
        proof {
            Self::lemma_wf_same_core(*old(self), st0);
        }
        let popped0 = self.queue.pop_min();
        let ghost k0 = popped0.1@;
        let HeapItem { term: head_term, segment_ord: head_ord } = popped0.0;
        let ghost t = head_term@;
        let ghost i0 = head_ord as int;
        proof {
            assert(st0.entry_ok(k0));
        }
        self.current_term = head_term;
        self.pos = Ghost(self.pos@.update(i0, self.pos@[i0] + 1));
        self.push_next_segment_el(head_ord);
        proof {
            Self::lemma_basic_after_step(st0, *self, k0, i0);
            // Every stream that contains the current term had a pending
            // entry carrying exactly that term before the pop.
            assert forall|i: int|
                0 <= i < st0.n() && (#[trigger] st0.init@[i]).contains(t) && i != i0 implies (
            exists|k: int|
                0 <= k < st0.queue@.len() && k != k0 && (#[trigger] st0.queue@[k]).segment_ord
                    as int == i && st0.queue@[k].term@ == t) by {
                let j = choose|j: int|
                    0 <= j < st0.init@[i].len() && #[trigger] st0.init@[i][j] == t;
                if j < st0.pos@[i] {
                    assert(st0.hist_has(st0.init@[i][j]));
                    let kh = choose|kh: int|
                        0 <= kh < st0.hist@.len() && (#[trigger] st0.hist@[kh]).0 == t;
                    assert(lex_lt(st0.hist@.last().0, t));
                    if kh < st0.hist@.len() - 1 {
                        lemma_lex_lt_transitive(t, st0.hist@.last().0, t);
                    }
                    lemma_lex_lt_irreflexive(t);
                    assert(false);
                }
                assert(st0.pos@[i] < st0.init@[i].len());
                assert(st0.in_queue(i));
                let k = choose|k: int|
                    0 <= k < st0.queue@.len() && (#[trigger] st0.queue@[k]).segment_ord == i;
                assert(st0.entry_ok(k));
                let head_i = st0.init@[i][st0.pos@[i]];
                assert(k != k0);
                assert(extracted_before(st0.queue@[k0], st0.queue@[k]));
                if st0.pos@[i] < j {
                    assert(lex_lt(head_i, t));
                    lemma_lex_lt_asymmetric(t, head_i);
                    assert(false);
                }
                assert(st0.queue@[k].term@ == t);
            }
            // Transfer those entries past the pop and refill.
            assert forall|i: int|
                0 <= i < self.n() && (#[trigger] self.init@[i]).contains(t) && !ords_contain(
                    self.current_segment_ords@,
                    i,
                ) implies (exists|k: int|
                0 <= k < self.queue@.len() && (#[trigger] self.queue@[k]).segment_ord as int
                    == i && self.queue@[k].term@ == t) by {
                assert(self.current_segment_ords@[0] as int == i0);
                assert(i != i0);
                let k = choose|k: int|
                    0 <= k < st0.queue@.len() && k != k0 && (
                    #[trigger] st0.queue@[k]).segment_ord as int == i && st0.queue@[k].term@
                        == t;
                let a: int = if k < k0 {
                    k
                } else {
                    k - 1
                };
                assert(self.queue@[a] == st0.queue@[k]);
            }
            // Everything still pending is the current term or above it.
            assert forall|k: int| 0 <= k < self.queue@.len() implies ((
            #[trigger] self.queue@[k]).term@ == t || lex_lt(t, self.queue@[k].term@)) by {
                if k < st0.queue@.len() - 1 {
                    assert(self.queue@[k] == st0.queue@[
                        if k < k0 {
                            k
                        } else {
                            k + 1
                        }
                    ]);
                    assert(extracted_before(st0.queue@[k0], self.queue@[k]));
                } else {
                    assert(ascending_keys(st0.init@[i0]));
                    assert(lex_lt(
                        st0.init@[i0][st0.pos@[i0]],
                        st0.init@[i0][st0.pos@[i0] + 1],
                    ));
                }
            }
            // Pending entries equal to the current term belong to streams
            // after the last recorded ordinal.
            assert forall|k: int|
                0 <= k < self.queue@.len() && (#[trigger] self.queue@[k]).term@ == t implies
                self.queue@[k].segment_ord as int > self.current_segment_ords@.last()
                    as int by {
                lemma_lex_lt_irreflexive(t);
                assert(k < st0.queue@.len() - 1);
                assert(extracted_before(st0.queue@[k0], self.queue@[k]));
            }
        }
        let mut more = true;
        while more
            invariant
                old(self).wf(),
                self.init@ == old(self).init@,
                self.hist@ == old(self).hist@,
                self.current_term@ == t,
                self.basic(),
                self.n() > 0,
                forall|k1: int, k2: int|
                    0 <= k1 < k2 < self.hist@.len() ==> lex_lt(
                        (#[trigger] self.hist@[k1]).0,
                        (#[trigger] self.hist@[k2]).0,
                    ),
                forall|i: int, j: int|
                    0 <= i < self.n() && 0 <= j < self.pos@[i] ==> (self.hist_has(
                        #[trigger] self.init@[i][j],
                    ) || self.init@[i][j] == t),
                self.hist@.len() > 0 ==> lex_lt(self.hist@.last().0, t),
                forall|k: int|
                    0 <= k < self.queue@.len() ==> ((#[trigger] self.queue@[k]).term@ == t
                        || lex_lt(t, self.queue@[k].term@)),
                forall|k: int|
                    0 <= k < self.queue@.len() && (#[trigger] self.queue@[k]).term@ == t
                        ==> self.queue@[k].segment_ord as int > self.current_segment_ords@
                        .last() as int,
                forall|i: int|
                    0 <= i < self.n() && (#[trigger] self.init@[i]).contains(t)
                        && !ords_contain(self.current_segment_ords@, i) ==> (exists|k: int|
                        0 <= k < self.queue@.len() && (
                        #[trigger] self.queue@[k]).segment_ord as int == i && self.queue@[
                        k].term@ == t),
                self.current_segment_ords@.len() > 0,
                self.current_segment_ords@.len() <= self.n(),
                forall|p: int, q: int|
                    0 <= p < q < self.current_segment_ords@.len() ==> (
                    #[trigger] self.current_segment_ords@[p]) < (
                    #[trigger] self.current_segment_ords@[q]),
                forall|p: int|
                    0 <= p < self.current_segment_ords@.len() ==> ((
                    #[trigger] self.current_segment_ords@[p]) as int) < self.n(),
                forall|p: int|
                    0 <= p < self.current_segment_ords@.len() ==> ({
                        let i = (#[trigger] self.current_segment_ords@[p]) as int;
                        self.pos@[i] > 0 && self.init@[i][self.pos@[i] - 1] == t
                    }),
                forall|p: int|
                    0 <= p < self.current_segment_ords@.len() ==> ((
                    #[trigger] self.current_segment_ords@[p]) as int) >= p,
                !more ==> (forall|k: int|
                    0 <= k < self.queue@.len() ==> (#[trigger] self.queue@[k]).term@ != t),
            decreases self.n() - self.current_segment_ords@.len(), (if more {
                1int
            } else {
                0int
            }),
        {
            if self.queue.len() == 0 {
                more = false;
            } else {
                let ghost qb = self.queue@;
                let is_same;
                let ghost mut km: int = 0;
                {
                    let peeked = self.queue.peek_min();
                    proof {
                        km = peeked.1@;
                    }
                    is_same = peeked.0.term.same_bytes(&self.current_term);
                }
                if is_same {
                    let ghost stp = *self;
                    let popped = self.queue.pop_min();
                    let ghost kp = popped.1@;
                    let HeapItem { term: popped_term, segment_ord: popped_ord } = popped.0;
                    let ghost i2 = popped_ord as int;
                    proof {
                        if kp != km {
                            lemma_extracted_before_asymmetric(qb[kp], qb[km]);
                        }
                        assert(popped_term@ == t);
                        assert(stp.entry_ok(kp));
                        // the popped stream is not recorded yet
                        assert forall|p: int|
                            0 <= p < stp.current_segment_ords@.len() implies (
                        #[trigger] stp.current_segment_ords@[p]) as int != i2 by {
                            assert(stp.current_segment_ords@[p]
                                <= stp.current_segment_ords@.last());
                        }
                    }
                    self.pos = Ghost(self.pos@.update(i2, self.pos@[i2] + 1));
                    self.push_next_segment_el(popped_ord);
                    proof {
                        Self::lemma_basic_after_step(stp, *self, kp, i2);
                        let lnow = self.current_segment_ords@;
                        let lold = stp.current_segment_ords@;
                        assert(lnow == lold.push(popped_ord));
                        assert(lnow.last() as int == i2);
                        assert(i2 > lold.last() as int);
                        assert(i2 >= lold.len());
                        // ordinal-buffer clauses
                        assert forall|p: int, q: int|
                            0 <= p < q < lnow.len() implies (#[trigger] lnow[p]) < (
                        #[trigger] lnow[q]) by {
                            if q < lold.len() {
                            } else {
                                assert(lnow[q] == popped_ord);
                                assert(lold[p] <= lold.last());
                            }
                        }
                        // provenance bookkeeping survives the pop
                        assert forall|i: int|
                            0 <= i < self.n() && (#[trigger] self.init@[i]).contains(t)
                                && !ords_contain(lnow, i) implies (exists|k: int|
                            0 <= k < self.queue@.len() && (
                            #[trigger] self.queue@[k]).segment_ord as int == i
                                && self.queue@[k].term@ == t) by {
                            assert forall|p: int|
                                0 <= p < lold.len() implies (#[trigger] lold[p]) == lnow[
                            p] by {}
                            assert(!ords_contain(lold, i));
                            assert(lnow[lnow.len() - 1] as int == i2);
                            assert(i != i2);
                            let k = choose|k: int|
                                0 <= k < stp.queue@.len() && (
                                #[trigger] stp.queue@[k]).segment_ord as int == i
                                    && stp.queue@[k].term@ == t;
                            assert(k != kp);
                            let a: int = if k < kp {
                                k
                            } else {
                                k - 1
                            };
                            assert(self.queue@[a] == stp.queue@[k]);
                        }
                        // queue-versus-term clauses survive
                        assert forall|k: int| 0 <= k < self.queue@.len() implies ((
                        #[trigger] self.queue@[k]).term@ == t || lex_lt(
                            t,
                            self.queue@[k].term@,
                        )) by {
                            if k < stp.queue@.len() - 1 {
                                assert(self.queue@[k] == stp.queue@[
                                    if k < kp {
                                        k
                                    } else {
                                        k + 1
                                    }
                                ]);
                            } else {
                                assert(ascending_keys(stp.init@[i2]));
                                assert(lex_lt(
                                    stp.init@[i2][stp.pos@[i2]],
                                    stp.init@[i2][stp.pos@[i2] + 1],
                                ));
                            }
                        }
                        assert forall|k: int|
                            0 <= k < self.queue@.len() && (#[trigger] self.queue@[k]).term@
                                == t implies self.queue@[k].segment_ord as int > self
                            .current_segment_ords@.last() as int by {
                            lemma_lex_lt_irreflexive(t);
                            assert(k < stp.queue@.len() - 1);
                            let kk: int = if k < kp {
                                k
                            } else {
                                k + 1
                            };
                            assert(self.queue@[k] == stp.queue@[kk]);
                            assert(extracted_before(stp.queue@[kp], stp.queue@[kk]));
                        }
                        // consumed terms are covered
                        assert forall|i: int, j: int|
                            0 <= i < self.n() && 0 <= j < self.pos@[i] implies (self
                            .hist_has(#[trigger] self.init@[i][j]) || self.init@[i][j]
                                == t) by {
                            if i == i2 && j == stp.pos@[i2] {
                                assert(self.init@[i][j] == t);
                            } else {
                                assert(0 <= j < stp.pos@[i]);
                                if stp.hist_has(stp.init@[i][j]) {
                                    let kh = choose|kh: int|
                                        0 <= kh < stp.hist@.len() && (
                                        #[trigger] stp.hist@[kh]).0 == stp.init@[i][j];
                                    assert(self.hist@[kh].0 == self.init@[i][j]);
                                }
                            }
                        }
                    }
                } else {
                    proof {
                        assert(qb[km].term@ != t);
                        assert forall|k: int| 0 <= k < self.queue@.len() implies (
                        #[trigger] self.queue@[k]).term@ != t by {
                            if k != km && self.queue@[k].term@ == t {
                                assert(extracted_before(qb[km], qb[k]));
                                assert(lex_lt(t, qb[km].term@));
                                lemma_lex_lt_asymmetric(t, qb[km].term@);
                            }
                        }
                    }
                    more = false;
                }
            }
        }
        let ghost l = self.current_segment_ords@.map_values(|o: usize| o as int);
        proof {
            // the recorded ordinals are exactly the streams containing `t`
            assert forall|i: int| #[trigger] l.contains(i) implies 0 <= i < self.init@.len()
                && self.init@[i].contains(t) by {
                let p = choose|p: int| 0 <= p < l.len() && l[p] == i;
                assert(self.current_segment_ords@[p] as int == i);
                assert(self.pos@[i] > 0 && self.init@[i][self.pos@[i] - 1] == t);
                assert(self.pos@[i] - 1 < self.init@[i].len());
                assert(self.init@[i].contains(t));
            }
            assert forall|i: int|
                0 <= i < self.init@.len() && #[trigger] self.init@[i].contains(t) implies l
                .contains(i) by {
                if !ords_contain(self.current_segment_ords@, i) {
                    let k = choose|k: int|
                        0 <= k < self.queue@.len() && (
                        #[trigger] self.queue@[k]).segment_ord as int == i && self.queue@[
                        k].term@ == t;
                    assert(false);
                }
                let p = choose|p: int|
                    0 <= p < self.current_segment_ords@.len() && (
                    #[trigger] self.current_segment_ords@[p]) as int == i;
                assert(l[p] == i);
            }
            assert(provenance_ok(self.init@, t, l));
        }
        let ghost old_hist = self.hist@;
        let ghost st_done = *self;
        self.hist = Ghost(self.hist@.push((t, l)));
        proof {
            Self::lemma_basic_same_core(st_done, *self);
            assert(self.hist@.drop_last() =~= old_hist);
            // everything yielded stays strictly increasing
            assert forall|k1: int, k2: int|
                0 <= k1 < k2 < self.hist@.len() implies lex_lt(
                (#[trigger] self.hist@[k1]).0,
                (#[trigger] self.hist@[k2]).0,
            ) by {
                if k2 == self.hist@.len() - 1 {
                    assert(old_hist.len() > 0);
                    assert(self.hist@[k1].0 == old_hist[k1].0);
                    if k1 < old_hist.len() - 1 {
                        lemma_lex_lt_transitive(old_hist[k1].0, old_hist.last().0, t);
                    }
                }
            }
            // every consumed input term has been yielded
            assert forall|i: int, j: int|
                0 <= i < self.n() && 0 <= j < self.pos@[i] implies self.hist_has(
                #[trigger] self.init@[i][j],
            ) by {
                if self.init@[i][j] == t {
                    assert(self.hist@[self.hist@.len() - 1].0 == self.init@[i][j]);
                } else {
                    let kh = choose|kh: int|
                        0 <= kh < old_hist.len() && (#[trigger] old_hist[kh]).0 == self.init@[
                        i][j];
                    assert(self.hist@[kh].0 == self.init@[i][j]);
                }
            }
            // everything still pending lies strictly above what was yielded
            assert forall|i: int|
                0 <= i < self.n() && #[trigger] self.pos@[i] < self.init@[i].len()
                    && self.hist@.len() > 0 implies lex_lt(
                self.hist@.last().0,
                self.init@[i][self.pos@[i]],
            ) by {
                assert(self.in_queue(i));
                let k = choose|k: int|
                    0 <= k < self.queue@.len() && (#[trigger] self.queue@[k]).segment_ord
                        == i;
                assert(self.entry_ok(k));
                assert(self.queue@[k].term@ == self.init@[i][self.pos@[i]]);
                assert(self.queue@[k].term@ != t);
            }
            assert(self.wf());
        }
        true
    }

    /// Sortedness: the terms yielded by successive advances are strictly
    /// increasing in byte order.
    pub proof fn lemma_sortedness(self)
        requires
            self.wf(),
        ensures
            forall|k1: int, k2: int|
                0 <= k1 < k2 < self.yielded().len() ==> lex_lt(
                    (#[trigger] self.yielded()[k1]).0,
                    (#[trigger] self.yielded()[k2]).0,
                ),
    {
    }

    /// Deduplication: no term is yielded more than once per merge.
    pub proof fn lemma_deduplication(self)
        requires
            self.wf(),
        ensures
            forall|k1: int, k2: int|
                0 <= k1 < k2 < self.yielded().len() ==> (#[trigger] self.yielded()[k1]).0
                    != (#[trigger] self.yielded()[k2]).0,
    {
        assert forall|k1: int, k2: int|
            0 <= k1 < k2 < self.yielded().len() implies (#[trigger] self.yielded()[k1]).0
            != (#[trigger] self.yielded()[k2]).0 by {
            lemma_lex_lt_irreflexive(self.yielded()[k1].0);
        }
    }

    /// Ascending provenance: each yielded segment-ordinal list is strictly
    /// ascending, so it holds no duplicates.
    pub proof fn lemma_ascending_provenance(self)
        requires
            self.wf(),
        ensures
            forall|k: int, p: int, q: int|
                0 <= k < self.yielded().len() && 0 <= p < q < (
                #[trigger] self.yielded()[k]).1.len() ==> (#[trigger] self.yielded()[k].1[p])
                    < (#[trigger] self.yielded()[k].1[q]),
    {
        assert forall|k: int|
            0 <= k < self.yielded().len() implies provenance_ok(
            self.inputs(),
            (#[trigger] self.yielded()[k]).0,
            self.yielded()[k].1,
        ) by {}
    }

    /// Completeness: once the merge is exhausted, every term of every input
    /// stream has been yielded, and every yielded pair carries exactly the
    /// ordinals of the streams containing its term.
    pub proof fn lemma_completeness(self)
        requires
            self.wf(),
            self.exhausted(),
        ensures
            forall|i: int, j: int|
                0 <= i < self.inputs().len() && 0 <= j < self.inputs()[i].len()
                    ==> yields_term(self.yielded(), #[trigger] self.inputs()[i][j]),
            forall|k: int|
                0 <= k < self.yielded().len() ==> provenance_ok(
                    self.inputs(),
                    (#[trigger] self.yielded()[k]).0,
                    self.yielded()[k].1,
                ),
    {
        assert forall|i: int|
            0 <= i < self.n() implies #[trigger] self.pos@[i] == self.init@[i].len() by {
            if self.pos@[i] < self.init@[i].len() {
                assert(self.in_queue(i));
            }
        }
        assert forall|i: int, j: int|
            0 <= i < self.inputs().len() && 0 <= j < self.inputs()[i].len() implies
            yields_term(self.yielded(), #[trigger] self.inputs()[i][j]) by {
            assert(self.hist_has(self.init@[i][j]));
            let k = choose|k: int|
                0 <= k < self.hist@.len() && (#[trigger] self.hist@[k]).0 == self.init@[i][
                j];
            assert((self.yielded()[k]).0 == self.inputs()[i][j]);
        }
    }

    /// Empty input: merging zero streams, or streams that are all empty,
    /// starts out exhausted, so the first advance already yields nothing.
    pub proof fn lemma_empty_inputs(self)
        requires
            self.wf(),
            forall|i: int|
                0 <= i < self.inputs().len() ==> (#[trigger] self.inputs()[i]).len() == 0,
        ensures
            self.exhausted(),
    {
        if self.queue@.len() > 0 {
            assert(self.entry_ok(0));
            let i0 = self.queue@[0].segment_ord as int;
            assert(self.inputs()[i0].len() == 0);
            assert(self.pos@[i0] < self.init@[i0].len());
        }
    }

    /// Pull the next term of stream `segment_ord` and, if one is left, queue
    /// it as that stream's pending entry; also record the ordinal in the
    /// segment-ordinal buffer.
    fn push_next_segment_el(&mut self, segment_ord: usize)
        requires
            old(self).key_streams@.len() == old(self).n(),
            old(self).pos@.len() == old(self).n(),
            segment_ord < old(self).n(),
            0 <= old(self).pos@[segment_ord as int] <= old(self).init@[
                segment_ord as int].len(),
            old(self).key_streams@[segment_ord as int].remaining() == old(self).init@[
                segment_ord as int].skip(old(self).pos@[segment_ord as int]),
        ensures
            final(self).init == old(self).init,
            final(self).pos == old(self).pos,
            final(self).hist == old(self).hist,
            final(self).current_term == old(self).current_term,
            final(self).key_streams@.len() == old(self).key_streams@.len(),
            forall|j: int|
                0 <= j < old(self).key_streams@.len() && j != segment_ord
                    ==> final(self).key_streams@[j] == old(self).key_streams@[j],
            final(self).current_segment_ords@ == old(self).current_segment_ords@.push(
                segment_ord,
            ),
            old(self).pos@[segment_ord as int] < old(self).init@[segment_ord as int].len()
                ==> {
                &&& final(self).queue@.len() == old(self).queue@.len() + 1
                &&& (forall|k: int|
                    0 <= k < old(self).queue@.len() ==> final(self).queue@[k] == old(
                        self,
                    ).queue@[k])
                &&& final(self).queue@.last().segment_ord == segment_ord
                &&& final(self).queue@.last().term@ == old(self).init@[segment_ord as int][old(
                    self,
                ).pos@[segment_ord as int]]
                &&& final(self).key_streams@[segment_ord as int].remaining() == old(
                    self,
                ).init@[segment_ord as int].skip(old(self).pos@[segment_ord as int] + 1)
            },
            old(self).pos@[segment_ord as int] == old(self).init@[segment_ord as int].len()
                ==> final(self).queue@ == old(self).queue@ && final(self).key_streams@[
                segment_ord as int].remaining() == old(self).key_streams@[
                segment_ord as int].remaining(),
    {
        self.current_segment_ords.push(segment_ord);
        let ghost i = segment_ord as int;
        let ghost p = self.pos@[i];
        proof {
            assert(self.init@[i].skip(p).len() == self.init@[i].len() - p);
        }
        let pulled = self.key_streams[segment_ord].pull_next();
        match pulled {
            Some(term) => {
                proof {
                    assert(p < self.init@[i].len());
                    assert(self.init@[i].skip(p)[0] == self.init@[i][p]);
                    assert(self.init@[i].skip(p).drop_first() =~= self.init@[i].skip(p + 1));
                }
                self.queue.push(HeapItem { term, segment_ord });
            },
            None => {},
        }
    }
}

} // verus!
