//! Terms and their byte-wise lexicographic order.

use vstd::prelude::*;

verus! {

/// Byte-wise (unsigned) lexicographic order on byte sequences:
/// `a` comes strictly before `b`.
pub open spec fn lex_lt(a: Seq<u8>, b: Seq<u8>) -> bool
    decreases a.len(),
{
    if b.len() == 0 {
        false
    } else if a.len() == 0 {
        true
    } else if a[0] != b[0] {
        a[0] < b[0]
    } else {
        lex_lt(a.drop_first(), b.drop_first())
    }
}

/// A sequence of byte sequences is strictly ascending in lexicographic order
/// (so it also holds no repeats).
pub open spec fn ascending_keys(s: Seq<Seq<u8>>) -> bool {
    forall|i: int, j: int| 0 <= i < j < s.len() ==> lex_lt(#[trigger] s[i], #[trigger] s[j])
}

pub proof fn lemma_lex_lt_irreflexive(a: Seq<u8>)
    ensures
        !lex_lt(a, a),
    decreases a.len(),
{
    if a.len() > 0 {
        lemma_lex_lt_irreflexive(a.drop_first());
    }
}

/// Any two byte sequences are related one way or the other, or are equal.
pub proof fn lemma_lex_lt_total(a: Seq<u8>, b: Seq<u8>)
    ensures
        lex_lt(a, b) || lex_lt(b, a) || a == b,
    decreases a.len(),
{
    if a.len() > 0 && b.len() > 0 && a[0] == b[0] {
        lemma_lex_lt_total(a.drop_first(), b.drop_first());
        if a.drop_first() == b.drop_first() {
            assert(a =~= b) by {
                assert(a.len() == b.len());
                assert(forall|i: int| 0 < i < a.len() ==> a[i] == a.drop_first()[i - 1]);
                assert(forall|i: int| 0 < i < b.len() ==> b[i] == b.drop_first()[i - 1]);
            }
        }
    }
}

/// At most one of `lex_lt(a, b)` and `lex_lt(b, a)` holds.
pub proof fn lemma_lex_lt_asymmetric(a: Seq<u8>, b: Seq<u8>)
    ensures
        !(lex_lt(a, b) && lex_lt(b, a)),
    decreases a.len(),
{
    if a.len() > 0 && b.len() > 0 && a[0] == b[0] {
        lemma_lex_lt_asymmetric(a.drop_first(), b.drop_first());
    }
}

pub proof fn lemma_lex_lt_transitive(a: Seq<u8>, b: Seq<u8>, c: Seq<u8>)
    requires
        lex_lt(a, b),
        lex_lt(b, c),
    ensures
        lex_lt(a, c),
    decreases a.len(),
{
    if a.len() > 0 {
        if a[0] == b[0] && b[0] == c[0] {
            lemma_lex_lt_transitive(a.drop_first(), b.drop_first(), c.drop_first());
        }
    }
}

/// Dropping an equal prefix of both sequences does not change their order.
pub proof fn lemma_lex_lt_skip_prefix(a: Seq<u8>, b: Seq<u8>, i: int)
    requires
        0 <= i <= a.len(),
        i <= b.len(),
        forall|j: int| 0 <= j < i ==> a[j] == b[j],
    ensures
        lex_lt(a, b) == lex_lt(a.skip(i), b.skip(i)),
    decreases i,
{
    if i > 0 {
        assert(a.len() > 0 && b.len() > 0 && a[0] == b[0]);
        let a1 = a.drop_first();
        let b1 = b.drop_first();
        assert(forall|j: int| 0 <= j < i - 1 ==> a1[j] == b1[j]);
        lemma_lex_lt_skip_prefix(a1, b1, i - 1);
        assert(a1.skip(i - 1) =~= a.skip(i));
        assert(b1.skip(i - 1) =~= b.skip(i));
    } else {
        assert(a.skip(0) =~= a);
        assert(b.skip(0) =~= b);
    }
}

/// A term: an immutable byte sequence, compared byte-wise.
pub struct Term {
    bytes: Vec<u8>,
}

impl View for Term {
    type V = Seq<u8>;

    closed spec fn view(&self) -> Seq<u8> {
        self.bytes@
    }
}

impl Term {
    /// A term owning the given bytes.
    pub fn from_bytes(bytes: Vec<u8>) -> (t: Term)
        ensures
            t@ == bytes@,
    {
        Term { bytes }
    }

    /// An empty term.
    pub fn empty() -> (t: Term)
        ensures
            t@ == Seq::<u8>::empty(),
    {
        Term { bytes: Vec::new() }
    }

    /// The term's bytes.
    pub fn value(&self) -> (r: &[u8])
        ensures
            r@ == self@,
    {
        self.bytes.as_slice()
    }

    /// Whether this term comes strictly before `other` in byte-wise order.
    pub fn lt(&self, other: &Term) -> (r: bool)
        ensures
            r == lex_lt(self@, other@),
    {
        let a = &self.bytes;
        let b = &other.bytes;
        let n = if a.len() < b.len() {
            a.len()
        } else {
            b.len()
        };
        let mut i: usize = 0;
        while i < n
            invariant
                a@ == self@,
                b@ == other@,
                i <= n,
                n <= a@.len(),
                n <= b@.len(),
                n == if a@.len() < b@.len() {
                    a@.len()
                } else {
                    b@.len()
                },
                forall|j: int| 0 <= j < i ==> a@[j] == b@[j],
            decreases n - i,
        {
            if a[i] < b[i] {
                proof {
                    lemma_lex_lt_skip_prefix(a@, b@, i as int);
                    assert(a@.skip(i as int)[0] == a@[i as int]);
                    assert(b@.skip(i as int)[0] == b@[i as int]);
                    assert(a@.skip(i as int).len() > 0);
                    assert(b@.skip(i as int).len() > 0);
                    assert(lex_lt(a@.skip(i as int), b@.skip(i as int)));
                }
                return true;
            }
            if a[i] > b[i] {
                proof {
                    lemma_lex_lt_skip_prefix(a@, b@, i as int);
                    assert(a@.skip(i as int)[0] == a@[i as int]);
                    assert(b@.skip(i as int)[0] == b@[i as int]);
                    assert(b@.skip(i as int).len() > 0);
                    assert(!lex_lt(a@.skip(i as int), b@.skip(i as int)));
                }
                return false;
            }
            i += 1;
        }
        proof {
            lemma_lex_lt_skip_prefix(a@, b@, n as int);
        }
        a.len() < b.len()
    }

    /// Whether this term holds exactly the same bytes as `other`.
    pub fn same_bytes(&self, other: &Term) -> (r: bool)
        ensures
            r == (self@ == other@),
    {
        proof {
            lemma_lex_lt_total(self@, other@);
            lemma_lex_lt_irreflexive(self@);
            lemma_lex_lt_irreflexive(other@);
        }
        !self.lt(other) && !other.lt(self)
    }
}

} // verus!
