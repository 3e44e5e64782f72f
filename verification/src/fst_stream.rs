//! A sorted key stream backed by an fst map's key streamer: the production
//! variant, reading one segment's term dictionary.

use vstd::prelude::*;
use fst::Streamer;
use crate::term::{Term, ascending_keys};
use crate::stream::SortedKeyStream;

verus! {

#[verifier::external_type_specification]
#[verifier::external_body]
pub struct ExKeys<'m>(fst::map::Keys<'m>);

/// A sorted key stream over the keys of one segment's term dictionary, held
/// as an fst map. The ghost field models the keys the streamer has yet to
/// yield.
pub struct FstKeyStream<'m> {
    keys: fst::map::Keys<'m>,
    model: Ghost<Seq<Seq<u8>>>,
}

impl<'m> FstKeyStream<'m> {
    /// Relies on fst::Map::keys: the stream it returns yields the map's
    /// keys in lexicographic byte order, each distinct key once.
    #[verifier::external_body]
    pub fn from_keys(keys: fst::map::Keys<'m>) -> (s: FstKeyStream<'m>)
        ensures
            ascending_keys(s.remaining()),
    {
        FstKeyStream { keys, model: Ghost(Seq::empty()) }
    }

    /// Relies on fst's Streamer implementation for map::Keys: each call
    /// hands out the next key, in ascending byte order, and signals
    /// exhaustion with None from the end of the keys on.
    #[verifier::external_body]
    fn pull_keys(&mut self) -> (r: Option<Term>)
        ensures
            (r is None) == (old(self).remaining().len() == 0),
            r is None ==> final(self).remaining() == old(self).remaining(),
            r matches Some(t) ==> t@ == old(self).remaining()[0] && final(self).remaining()
                == old(self).remaining().drop_first(),
    {
        self.keys.next().map(|k: &[u8]| Term::from_bytes(k.to_vec()))
    }
}

impl<'m> SortedKeyStream for FstKeyStream<'m> {
    closed spec fn remaining(&self) -> Seq<Seq<u8>> {
        self.model@
    }

    fn pull_next(&mut self) -> (r: Option<Term>) {
        self.pull_keys()
    }
}

} // verus!
