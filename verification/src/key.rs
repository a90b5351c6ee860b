//! Orders on encoded keys.
//!
//! Keys travel through the store as byte strings. How two of them compare is up to the type that
//! they encode, so everything that searches or merges sorted keys is generic over a
//! [`KeyOrder`].
pub mod order;

use crate::coding;
use crate::coding::read_u32_le;
use vstd::prelude::*;
use vstd::slice::slice_subrange;

verus! {

/// A strict total order on the byte strings that encode keys of one type.
pub trait KeyOrder {
    /// Whether `k` encodes a key.
    spec fn valid(k: Seq<u8>) -> bool;

    /// Whether the key that `a` encodes comes before the one that `b` encodes.
    spec fn lt(a: Seq<u8>, b: Seq<u8>) -> bool;

    /// No key comes before itself.
    proof fn irreflexive(a: Seq<u8>)
        requires
            Self::valid(a),
        ensures
            !Self::lt(a, a),
    ;

    /// The order is transitive.
    proof fn transitive(a: Seq<u8>, b: Seq<u8>, c: Seq<u8>)
        requires
            Self::valid(a),
            Self::valid(b),
            Self::valid(c),
            Self::lt(a, b),
            Self::lt(b, c),
        ensures
            Self::lt(a, c),
    ;

    /// Of two different keys one comes before the other.
    proof fn total(a: Seq<u8>, b: Seq<u8>)
        requires
            Self::valid(a),
            Self::valid(b),
            a != b,
        ensures
            Self::lt(a, b) || Self::lt(b, a),
    ;

    /// Compares two keys.
    fn less(a: &[u8], b: &[u8]) -> (r: bool)
        requires
            Self::valid(a@),
            Self::valid(b@),
        ensures
            r == Self::lt(a@, b@),
    ;
}

/// Lexicographic order of byte strings: a proper prefix comes first, otherwise the first
/// difference decides.
pub open spec fn lex_lt(a: Seq<u8>, b: Seq<u8>) -> bool
    decreases a.len(),
{
    if b.len() == 0 {
        false
    } else if a.len() == 0 {
        true
    } else if a[0] != b[0] {
        a[0] < b[0]
    } else {
        lex_lt(a.drop_first(), b.drop_first())
    }
}

/// Byte strings that stand for themselves, compared byte by byte.
pub struct Bytewise;

proof fn lemma_lex_irreflexive(a: Seq<u8>)
    ensures
        !lex_lt(a, a),
    decreases a.len(),
{
    if a.len() > 0 {
        lemma_lex_irreflexive(a.drop_first());
    }
}

proof fn lemma_lex_transitive(a: Seq<u8>, b: Seq<u8>, c: Seq<u8>)
    requires
        lex_lt(a, b),
        lex_lt(b, c),
    ensures
        lex_lt(a, c),
    decreases a.len(),
{
    if a.len() > 0 && a[0] == b[0] && b[0] == c[0] {
        lemma_lex_transitive(a.drop_first(), b.drop_first(), c.drop_first());
    }
}

proof fn lemma_lex_total(a: Seq<u8>, b: Seq<u8>)
    requires
        a != b,
    ensures
        lex_lt(a, b) || lex_lt(b, a),
    decreases a.len(),
{
    if a.len() > 0 && b.len() > 0 && a[0] == b[0] {
        if a.drop_first() == b.drop_first() {
            assert(a =~= seq![a[0]] + a.drop_first());
            assert(b =~= seq![b[0]] + b.drop_first());
        }
        lemma_lex_total(a.drop_first(), b.drop_first());
    } else if a.len() == 0 && b.len() == 0 {
        assert(a =~= b);
    }
}

proof fn lemma_lex_skip(a: Seq<u8>, b: Seq<u8>, n: nat)
    requires
        n <= a.len(),
        n <= b.len(),
        a.take(n as int) == b.take(n as int),
    ensures
        lex_lt(a, b) == lex_lt(a.skip(n as int), b.skip(n as int)),
    decreases n,
{
    if n == 0 {
        assert(a.skip(0) =~= a);
        assert(b.skip(0) =~= b);
    } else {
        assert(a.take(n as int)[0] == a[0]);
        assert(b.take(n as int)[0] == b[0]);
        assert(a.drop_first().take(n - 1) =~= a.take(n as int).drop_first());
        assert(b.drop_first().take(n - 1) =~= b.take(n as int).drop_first());
        lemma_lex_skip(a.drop_first(), b.drop_first(), (n - 1) as nat);
        assert(a.drop_first().skip(n - 1) =~= a.skip(n as int));
        assert(b.drop_first().skip(n - 1) =~= b.skip(n as int));
    }
}

impl KeyOrder for Bytewise {
    open spec fn valid(k: Seq<u8>) -> bool {
        true
    }

    open spec fn lt(a: Seq<u8>, b: Seq<u8>) -> bool {
        lex_lt(a, b)
    }

    proof fn irreflexive(a: Seq<u8>) {
        lemma_lex_irreflexive(a);
    }

    proof fn transitive(a: Seq<u8>, b: Seq<u8>, c: Seq<u8>) {
        lemma_lex_transitive(a, b, c);
    }

    proof fn total(a: Seq<u8>, b: Seq<u8>) {
        lemma_lex_total(a, b);
    }

    fn less(a: &[u8], b: &[u8]) -> (r: bool) {
        let mut i: usize = 0;
        while i < a.len() && i < b.len() && a[i] == b[i]
            invariant
                i <= a@.len(),
                i <= b@.len(),
                a@.take(i as int) == b@.take(i as int),
            decreases a@.len() - i,
        {
            proof {
                assert(a@.take(i + 1) =~= a@.take(i as int).push(a@[i as int]));
                assert(b@.take(i + 1) =~= b@.take(i as int).push(b@[i as int]));
            }
            i = i + 1;
        }
        proof {
            lemma_lex_skip(a@, b@, i as nat);
        }
        if i >= b.len() {
            false
        } else if i >= a.len() {
            true
        } else {
            a[i] < b[i]
        }
    }
}

/// Unsigned 32-bit integers in their four-byte little-endian form, compared by value.
pub struct U32Key;

impl KeyOrder for U32Key {
    open spec fn valid(k: Seq<u8>) -> bool {
        k.len() == 4
    }

    open spec fn lt(a: Seq<u8>, b: Seq<u8>) -> bool {
        coding::le_value(a) < coding::le_value(b)
    }

    proof fn irreflexive(a: Seq<u8>) {
    }

    proof fn transitive(a: Seq<u8>, b: Seq<u8>, c: Seq<u8>) {
    }

    proof fn total(a: Seq<u8>, b: Seq<u8>) {
        coding::lemma_le_bytes_of_le_value(a);
        coding::lemma_le_bytes_of_le_value(b);
    }

    fn less(a: &[u8], b: &[u8]) -> (r: bool) {
        proof {
            assert(a@.take(4) =~= a@);
            assert(b@.take(4) =~= b@);
        }
        read_u32_le(a) < read_u32_le(b)
    }
}

/// Strings as their bytes after an eight-byte little-endian length, compared byte by byte.
pub struct StringKey;

impl KeyOrder for StringKey {
    open spec fn valid(k: Seq<u8>) -> bool {
        k.len() >= 8 && k == coding::bytes_encoding(k.skip(8))
    }

    open spec fn lt(a: Seq<u8>, b: Seq<u8>) -> bool {
        lex_lt(a.skip(8), b.skip(8))
    }

    proof fn irreflexive(a: Seq<u8>) {
        lemma_lex_irreflexive(a.skip(8));
    }

    proof fn transitive(a: Seq<u8>, b: Seq<u8>, c: Seq<u8>) {
        lemma_lex_transitive(a.skip(8), b.skip(8), c.skip(8));
    }

    proof fn total(a: Seq<u8>, b: Seq<u8>) {
        lemma_lex_total(a.skip(8), b.skip(8));
    }

    fn less(a: &[u8], b: &[u8]) -> (r: bool) {
        let x = slice_subrange(a, 8, a.len());
        let y = slice_subrange(b, 8, b.len());
        proof {
            assert(a@.subrange(8, a@.len() as int) =~= a@.skip(8));
            assert(b@.subrange(8, b@.len() as int) =~= b@.skip(8));
        }
        Bytewise::less(x, y)
    }
}

/// Whether the keys of `entries` come in strictly ascending order.
pub open spec fn ascending<O: KeyOrder>(entries: Seq<(Seq<u8>, Seq<u8>)>) -> bool {
    forall|i: int, j: int|
        0 <= i < j < entries.len() ==> O::lt(#[trigger] entries[i].0, #[trigger] entries[j].0)
}

/// Whether every key of `entries` is valid.
pub open spec fn keys_valid<O: KeyOrder>(entries: Seq<(Seq<u8>, Seq<u8>)>) -> bool {
    forall|i: int| 0 <= i < entries.len() ==> O::valid(#[trigger] entries[i].0)
}

/// Whether two byte strings are equal.
pub fn bytes_equal(a: &[u8], b: &[u8]) -> (r: bool)
    ensures
        r == (a@ == b@),
{
    if a.len() != b.len() {
        return false;
    }
    let mut i: usize = 0;
    while i < a.len()
        invariant
            i <= a@.len(),
            a@.len() == b@.len(),
            forall|j: int| 0 <= j < i ==> a@[j] == b@[j],
        decreases a@.len() - i,
    {
        if a[i] != b[i] {
            return false;
        }
        i = i + 1;
    }
    assert(a@ =~= b@);
    true
}

} // verus!
