//! The order in which the members of an object are kept.
//!
//! Member names are ordered as Rust orders strings: by their UTF-8 bytes,
//! lexicographically.

use vstd::prelude::*;
use vstd::string::StringSliceAdditionalSpecFns;
use vstd::utf8::{encode_utf8, encode_utf8_decode_utf8};

verus! {

/// The outcome of comparing two member names.
#[derive(Clone, Copy, Debug, PartialEq, Eq, Structural)]
pub enum KeyOrder {
    Before,
    Same,
    After,
}

/// `a` comes strictly before `b` in the lexicographic order of bytes:
/// at the first position where they differ `a` is smaller, or `a` is a
/// proper prefix of `b`.
pub open spec fn bytes_lt(a: Seq<u8>, b: Seq<u8>) -> bool {
    exists|k: int|
        0 <= k <= a.len() && k <= b.len() && agree_below(a, b, k) && #[trigger] splits_at(a, b, k)
}

/// `a` and `b` hold the same bytes at every position below `k`.
pub open spec fn agree_below(a: Seq<u8>, b: Seq<u8>, k: int) -> bool {
    forall|j: int| 0 <= j < k ==> a[j] == b[j]
}

/// At position `k`, `a` has ended and `b` has not, or `a` holds the smaller byte.
pub open spec fn splits_at(a: Seq<u8>, b: Seq<u8>, k: int) -> bool {
    if k == a.len() {
        k < b.len()
    } else {
        k < b.len() && a[k] < b[k]
    }
}

/// The name `a` comes strictly before the name `b`.
pub open spec fn key_lt(a: Seq<char>, b: Seq<char>) -> bool {
    bytes_lt(encode_utf8(a), encode_utf8(b))
}

/// No sequence of bytes comes before itself.
pub proof fn lemma_bytes_lt_irreflexive(a: Seq<u8>)
    ensures
        !bytes_lt(a, a),
{
}

/// The order of bytes is transitive.
pub proof fn lemma_bytes_lt_transitive(a: Seq<u8>, b: Seq<u8>, c: Seq<u8>)
    requires
        bytes_lt(a, b),
        bytes_lt(b, c),
    ensures
        bytes_lt(a, c),
{
    let k1 = choose|k: int|
        0 <= k <= a.len() && k <= b.len() && agree_below(a, b, k) && #[trigger] splits_at(a, b, k);
    let k2 = choose|k: int|
        0 <= k <= b.len() && k <= c.len() && agree_below(b, c, k) && #[trigger] splits_at(b, c, k);
    let k = if k1 <= k2 { k1 } else { k2 };
    assert(agree_below(a, c, k));
    assert(splits_at(a, c, k));
}

/// The order of names is transitive.
pub proof fn lemma_key_lt_transitive(a: Seq<char>, b: Seq<char>, c: Seq<char>)
    requires
        key_lt(a, b),
        key_lt(b, c),
    ensures
        key_lt(a, c),
{
    lemma_bytes_lt_transitive(encode_utf8(a), encode_utf8(b), encode_utf8(c));
}

/// A name never comes before itself, so names in strictly increasing order
/// are pairwise distinct.
pub proof fn lemma_key_lt_irreflexive(a: Seq<char>)
    ensures
        !key_lt(a, a),
{
    lemma_bytes_lt_irreflexive(encode_utf8(a));
}

/// Compares two member names.
pub fn compare_keys(a: &str, b: &str) -> (order: KeyOrder)
    ensures
        order == KeyOrder::Before <==> key_lt(a@, b@),
        order == KeyOrder::Same <==> a@ == b@,
        order == KeyOrder::After <==> key_lt(b@, a@),
{
    let x = a.as_bytes();
    let y = b.as_bytes();
    let mut i: usize = 0;
    while i < x.len() && i < y.len() && x[i] == y[i]
        invariant
            i <= x.len(),
            i <= y.len(),
            agree_below(x@, y@, i as int),
        decreases x.len() - i,
    {
        i += 1;
    }
    proof {
        lemma_bytes_lt_irreflexive(x@);
        encode_utf8_decode_utf8(a@);
        encode_utf8_decode_utf8(b@);
    }
    if i == x.len() {
        if i == y.len() {
            assert(x@ =~= y@);
            KeyOrder::Same
        } else {
            assert(splits_at(x@, y@, i as int));
            proof {
                lemma_bytes_lt_asymmetric(x@, y@);
            }
            KeyOrder::Before
        }
    } else if i == y.len() {
        assert(splits_at(y@, x@, i as int));
        proof {
            lemma_bytes_lt_asymmetric(y@, x@);
        }
        KeyOrder::After
    } else if x[i] < y[i] {
        assert(splits_at(x@, y@, i as int));
        proof {
            lemma_bytes_lt_asymmetric(x@, y@);
        }
        KeyOrder::Before
    } else {
        assert(splits_at(y@, x@, i as int));
        proof {
            lemma_bytes_lt_asymmetric(y@, x@);
        }
        KeyOrder::After
    }
}

/// Of two sequences of bytes at most one comes before the other.
pub proof fn lemma_bytes_lt_asymmetric(a: Seq<u8>, b: Seq<u8>)
    requires
        bytes_lt(a, b),
    ensures
        !bytes_lt(b, a),
{
    if bytes_lt(b, a) {
        lemma_bytes_lt_transitive(a, b, a);
        lemma_bytes_lt_irreflexive(a);
    }
}

} // verus!
