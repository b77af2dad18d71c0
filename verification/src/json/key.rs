//! The order of the keys of an object.

use vstd::prelude::*;
use vstd::utf8::{decode_utf8, encode_utf8, encode_utf8_decode_utf8};

verus! {

/// Whether `a` comes before `b` where both are compared byte by byte: at
/// the first place where they differ `a` has the smaller byte, or `a` ends
/// there and `b` goes on.
pub open spec fn bytes_lt(a: Seq<u8>, b: Seq<u8>) -> bool {
    exists|k: int| first_difference(a, b, k)
}

/// `a` and `b` agree before place `k`, and there `a` ends or is smaller.
pub open spec fn first_difference(a: Seq<u8>, b: Seq<u8>, k: int) -> bool {
    &&& 0 <= k <= a.len()
    &&& k < b.len()
    &&& forall|j: int| 0 <= j < k ==> a[j] == b[j]
    &&& (k < a.len() ==> a[k] < b[k])
}

/// Whether the key `a` comes before the key `b`: the order of their UTF-8
/// encodings, which is the order of `String`.
pub open spec fn key_lt(a: Seq<char>, b: Seq<char>) -> bool {
    bytes_lt(encode_utf8(a), encode_utf8(b))
}

/// How one key stands to another.
#[derive(Clone, Copy, PartialEq, Eq, Debug, Structural)]
pub enum KeyOrder {
    Before,
    Same,
    After,
}

/// No sequence comes before itself.
pub proof fn lemma_bytes_lt_irreflexive(a: Seq<u8>)
    ensures
        !bytes_lt(a, a),
{
}

/// The order is transitive.
pub proof fn lemma_bytes_lt_transitive(a: Seq<u8>, b: Seq<u8>, c: Seq<u8>)
    requires
        bytes_lt(a, b),
        bytes_lt(b, c),
    ensures
        bytes_lt(a, c),
{
    let k1 = choose|k: int| first_difference(a, b, k);
    let k2 = choose|k: int| first_difference(b, c, k);
    let k = if k1 <= k2 {
        k1
    } else {
        k2
    };
    assert(first_difference(a, c, k));
}

/// Of two sequences that are in order, the second is not before the first.
pub proof fn lemma_bytes_lt_asymmetric(a: Seq<u8>, b: Seq<u8>)
    requires
        bytes_lt(a, b),
    ensures
        !bytes_lt(b, a),
{
    if bytes_lt(b, a) {
        lemma_bytes_lt_transitive(a, b, a);
    }
}

/// Keys with the same encoding are the same key.
pub proof fn lemma_encoding_injective(a: Seq<char>, b: Seq<char>)
    requires
        encode_utf8(a) == encode_utf8(b),
    ensures
        a == b,
{
    encode_utf8_decode_utf8(a);
    encode_utf8_decode_utf8(b);
    assert(decode_utf8(encode_utf8(a)) == a);
    assert(decode_utf8(encode_utf8(b)) == b);
}

/// No key comes before itself.
pub proof fn lemma_key_lt_irreflexive(a: Seq<char>)
    ensures
        !key_lt(a, a),
{
}

/// The order of keys is transitive.
pub proof fn lemma_key_lt_transitive(a: Seq<char>, b: Seq<char>, c: Seq<char>)
    requires
        key_lt(a, b),
        key_lt(b, c),
    ensures
        key_lt(a, c),
{
    lemma_bytes_lt_transitive(encode_utf8(a), encode_utf8(b), encode_utf8(c));
}

/// Compares two keys: exactly one of before, same and after holds.
pub fn compare_keys(a: &str, b: &str) -> (r: KeyOrder)
    ensures
        (r == KeyOrder::Before) == key_lt(a@, b@),
        (r == KeyOrder::Same) == (a@ == b@),
        (r == KeyOrder::After) == key_lt(b@, a@),
{
    let x = a.as_bytes();
    let y = b.as_bytes();
    let mut i: usize = 0;
    while i < x.len() && i < y.len()
        invariant
            i <= x@.len(),
            i <= y@.len(),
            x@ == encode_utf8(a@),
            y@ == encode_utf8(b@),
            forall|j: int| 0 <= j < i ==> x@[j] == y@[j],
        decreases x@.len() - i,
    {
        if x[i] < y[i] {
            proof {
                assert(first_difference(x@, y@, i as int));
                lemma_bytes_lt_asymmetric(x@, y@);
                if a@ == b@ {
                    lemma_key_lt_irreflexive(a@);
                }
            }
            return KeyOrder::Before;
        }
        if x[i] > y[i] {
            proof {
                assert(first_difference(y@, x@, i as int));
                lemma_bytes_lt_asymmetric(y@, x@);
                if a@ == b@ {
                    lemma_key_lt_irreflexive(a@);
                }
            }
            return KeyOrder::After;
        }
        i += 1;
    }
    if i < y.len() {
        proof {
            assert(first_difference(x@, y@, i as int));
            lemma_bytes_lt_asymmetric(x@, y@);
            if a@ == b@ {
                lemma_key_lt_irreflexive(a@);
            }
        }
        KeyOrder::Before
    } else if i < x.len() {
        proof {
            assert(first_difference(y@, x@, i as int));
            lemma_bytes_lt_asymmetric(y@, x@);
            if a@ == b@ {
                lemma_key_lt_irreflexive(a@);
            }
        }
        KeyOrder::After
    } else {
        proof {
            assert(x@ =~= y@);
            lemma_encoding_injective(a@, b@);
            lemma_key_lt_irreflexive(a@);
        }
        KeyOrder::Same
    }
}

/// Whether two string slices hold the same characters.
pub fn str_eq(a: &str, b: &str) -> (r: bool)
    ensures
        r == (a@ == b@),
{
    match compare_keys(a, b) {
        KeyOrder::Same => true,
        _ => false,
    }
}

} // verus!
