//! The priority queue driving the merge: pending entries, one per active
//! input stream, extracted smallest-first.

use vstd::prelude::*;
use crate::term::{
    Term, lex_lt, lemma_lex_lt_total, lemma_lex_lt_asymmetric, lemma_lex_lt_transitive,
};

verus! {

/// One pending entry: the next unconsumed term of one input stream, tagged
/// with that stream's ordinal.
pub struct HeapItem {
    pub term: Term,
    pub segment_ord: usize,
}

/// Extraction order: the entry with the lexicographically smaller term is
/// extracted first; among equal terms, the smaller segment ordinal goes
/// first. This tie-break is what makes each yielded segment-ordinal list
/// ascending without a separate sort.
pub open spec fn extracted_before(a: HeapItem, b: HeapItem) -> bool {
    lex_lt(a.term@, b.term@) || (a.term@ == b.term@ && a.segment_ord < b.segment_ord)
}

/// Two entries with distinct ordinals or distinct terms are ordered one way
/// or the other.
pub proof fn lemma_extracted_before_connected(a: HeapItem, b: HeapItem)
    requires
        a.segment_ord != b.segment_ord || a.term@ != b.term@,
    ensures
        extracted_before(a, b) || extracted_before(b, a),
{
    lemma_lex_lt_total(a.term@, b.term@);
}

pub proof fn lemma_extracted_before_asymmetric(a: HeapItem, b: HeapItem)
    ensures
        !(extracted_before(a, b) && extracted_before(b, a)),
{
    lemma_lex_lt_asymmetric(a.term@, b.term@);
}

pub proof fn lemma_extracted_before_transitive(a: HeapItem, b: HeapItem, c: HeapItem)
    requires
        extracted_before(a, b),
        extracted_before(b, c),
    ensures
        extracted_before(a, c),
{
    if lex_lt(a.term@, b.term@) && lex_lt(b.term@, c.term@) {
        lemma_lex_lt_transitive(a.term@, b.term@, c.term@);
    }
}

/// Whether `a` is extracted before `b`.
pub fn item_extracted_before(a: &HeapItem, b: &HeapItem) -> (r: bool)
    ensures
        r == extracted_before(*a, *b),
{
    if a.term.lt(&b.term) {
        true
    } else if b.term.lt(&a.term) {
        false
    } else {
        proof {
            lemma_lex_lt_total(a.term@, b.term@);
        }
        a.segment_ord < b.segment_ord
    }
}

/// The pending entries, at most one per still-active stream. Entries are
/// held in a plain vector and the minimum is found by scanning, which keeps
/// the extraction order of a binary min-heap observably intact.
pub struct TermQueue {
    items: Vec<HeapItem>,
}

impl View for TermQueue {
    type V = Seq<HeapItem>;

    closed spec fn view(&self) -> Seq<HeapItem> {
        self.items@
    }
}

impl TermQueue {
    /// No two entries carry the same segment ordinal.
    pub open spec fn wf(self) -> bool {
        forall|i: int, j: int|
            0 <= i < j < self@.len() ==> (#[trigger] self@[i]).segment_ord != (
            #[trigger] self@[j]).segment_ord
    }

    pub fn new() -> (q: TermQueue)
        ensures
            q@ == Seq::<HeapItem>::empty(),
    {
        TermQueue { items: Vec::new() }
    }

    pub fn len(&self) -> (n: usize)
        ensures
            n == self@.len(),
    {
        self.items.len()
    }

    pub fn push(&mut self, item: HeapItem)
        ensures
            final(self)@ == old(self)@.push(item),
    {
        self.items.push(item);
    }

    /// Index of the entry to extract next: the minimum in extraction order.
    fn min_index(&self) -> (k: usize)
        requires
            self@.len() > 0,
            self.wf(),
        ensures
            k < self@.len(),
            forall|j: int|
                0 <= j < self@.len() && j != k ==> extracted_before(
                    self@[k as int],
                    #[trigger] self@[j],
                ),
    {
        let mut best: usize = 0;
        let mut i: usize = 1;
        while i < self.items.len()
            invariant
                self@.len() > 0,
                self.wf(),
                best < i <= self@.len(),
                forall|j: int|
                    0 <= j < i && j != best ==> extracted_before(
                        self@[best as int],
                        #[trigger] self@[j],
                    ),
            decreases self@.len() - i,
        {
            let ghost prev = best as int;
            proof {
                lemma_extracted_before_connected(self@[i as int], self@[prev]);
            }
            if item_extracted_before(&self.items[i], &self.items[best]) {
                proof {
                    assert forall|j: int| 0 <= j < i + 1 && j != i implies extracted_before(
                        self@[i as int],
                        #[trigger] self@[j],
                    ) by {
                        if j != prev {
                            lemma_extracted_before_transitive(
                                self@[i as int],
                                self@[prev],
                                self@[j],
                            );
                        }
                    }
                }
                best = i;
            }
            i += 1;
        }
        best
    }

    /// A borrowed view of the entry that `pop_min` would extract.
    pub fn peek_min(&self) -> (r: (&HeapItem, Ghost<int>))
        requires
            self@.len() > 0,
            self.wf(),
        ensures
            0 <= r.1@ < self@.len(),
            *r.0 == self@[r.1@],
            forall|j: int|
                0 <= j < self@.len() && j != r.1@ ==> extracted_before(*r.0, #[trigger] self@[j]),
    {
        let k = self.min_index();
        (&self.items[k], Ghost(k as int))
    }

    /// Extract the minimum entry in extraction order.
    pub fn pop_min(&mut self) -> (r: (HeapItem, Ghost<int>))
        requires
            old(self)@.len() > 0,
            old(self).wf(),
        ensures
            0 <= r.1@ < old(self)@.len(),
            r.0 == old(self)@[r.1@],
            final(self)@ == old(self)@.remove(r.1@),
            forall|j: int|
                0 <= j < old(self)@.len() && j != r.1@ ==> extracted_before(
                    r.0,
                    #[trigger] old(self)@[j],
                ),
    {
        let k = self.min_index();
        let item = self.items.remove(k);
        (item, Ghost(k as int))
    }
}

} // verus!
