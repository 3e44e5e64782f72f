//! The capability interface over one segment's sorted term stream, and an
//! in-memory implementation of it.

use vstd::prelude::*;
use crate::term::Term;

verus! {

/// A pull-based source of terms. `remaining()` is the sequence of terms the
/// stream has yet to yield; each pull hands out the first of them. A merge
/// expects it to be strictly ascending in byte order (see
/// `crate::term::ascending_keys`), which also rules out repeats; once
/// exhaustion is signaled, every further pull signals exhaustion too.
pub trait SortedKeyStream: Sized {
    /// The terms this stream has yet to yield, in order.
    spec fn remaining(&self) -> Seq<Seq<u8>>;

    /// Pull the next term, or signal exhaustion with `None`.
    fn pull_next(&mut self) -> (r: Option<Term>)
        ensures
            (r is None) == (old(self).remaining().len() == 0),
            r is None ==> final(self).remaining() == old(self).remaining(),
            r matches Some(t) ==> t@ == old(self).remaining()[0] && final(self).remaining()
                == old(self).remaining().drop_first(),
    ;
}

/// An in-memory sorted key stream: yields the byte sequences of a vector,
/// front to back.
pub struct VecKeyStream {
    entries: Vec<Vec<u8>>,
}

impl VecKeyStream {
    /// A stream over the given byte sequences, yielded front to back. For
    /// use in a merge they must be strictly ascending.
    pub fn new(entries: Vec<Vec<u8>>) -> (s: VecKeyStream)
        ensures
            s.remaining() == entries@.map_values(|v: Vec<u8>| v@),
    {
        VecKeyStream { entries }
    }
}

impl SortedKeyStream for VecKeyStream {
    closed spec fn remaining(&self) -> Seq<Seq<u8>> {
        self.entries@.map_values(|v: Vec<u8>| v@)
    }

    fn pull_next(&mut self) -> (r: Option<Term>)
    {
        if self.entries.is_empty() {
            None
        } else {
            let v = self.entries.remove(0);
            proof {
                assert(self.remaining() =~= old(self).remaining().drop_first());
            }
            Some(Term::from_bytes(v))
        }
    }
}

} // verus!
