//! The order of the keys of a map that is encoded as a sequence.
//!
//! A map has one encoding only where its keys have one order. Strings are
//! ordered by the bytes of their UTF-8 form: the string with the smaller byte
//! in the first place where two strings differ comes first, and a string that
//! is the beginning of another comes before it.

use core::cmp::Ordering;
use vstd::prelude::*;
use vstd::utf8::encode_utf8;

verus! {

/// How the byte string `a` stands to the byte string `b`.
pub open spec fn bytes_ordering(a: Seq<u8>, b: Seq<u8>) -> Ordering
    decreases a.len(),
{
    if a.len() == 0 && b.len() == 0 {
        Ordering::Equal
    } else if a.len() == 0 {
        Ordering::Less
    } else if b.len() == 0 {
        Ordering::Greater
    } else if a[0] < b[0] {
        Ordering::Less
    } else if a[0] > b[0] {
        Ordering::Greater
    } else {
        bytes_ordering(a.skip(1), b.skip(1))
    }
}

/// Two byte strings are equal in the order exactly when they are the same,
/// and one comes before the other exactly when the other comes after it.
pub proof fn lemma_bytes_ordering(a: Seq<u8>, b: Seq<u8>)
    ensures
        bytes_ordering(a, b) == Ordering::Equal <==> a == b,
        bytes_ordering(a, b) == Ordering::Less <==> bytes_ordering(b, a) == Ordering::Greater,
    decreases a.len(),
{
    if a.len() > 0 && b.len() > 0 {
        lemma_bytes_ordering(a.skip(1), b.skip(1));
        if a[0] == b[0] {
            if a.skip(1) == b.skip(1) {
                assert(a =~= seq![a[0]] + a.skip(1));
                assert(b =~= seq![b[0]] + b.skip(1));
            }
        }
    } else if a.len() == 0 && b.len() == 0 {
        assert(a =~= b);
    }
}

/// Gets the ordering of the string `this` compared to `other`, by the bytes
/// of their UTF-8 forms.
pub fn ordering(this: &String, other: &String) -> (r: Ordering)
    ensures
        r == bytes_ordering(encode_utf8(this@), encode_utf8(other@)),
{
    // Prepare vars
    let a = this.as_str().as_bytes();
    let b = other.as_str().as_bytes();
    let to_compare: usize = if a.len() < b.len() { a.len() } else { b.len() };
    // Compare bytes
    let mut i: usize = 0;
    proof {
        assert(a@.skip(0) =~= a@);
        assert(b@.skip(0) =~= b@);
    }
    while i < to_compare
        invariant
            i <= to_compare,
            to_compare <= a@.len(),
            to_compare <= b@.len(),
            a@ == encode_utf8(this@),
            b@ == encode_utf8(other@),
            bytes_ordering(a@, b@) == bytes_ordering(a@.skip(i + 0), b@.skip(i + 0)),
        decreases to_compare - i,
    {
        proof {
            assert(a@.skip(i + 0)[0] == a@[i + 0]);
            assert(b@.skip(i + 0)[0] == b@[i + 0]);
            assert(a@.skip(i + 0).skip(1) =~= a@.skip(i + 1));
            assert(b@.skip(i + 0).skip(1) =~= b@.skip(i + 1));
        }
        if a[i] < b[i] {
            return Ordering::Less;
        } else if a[i] > b[i] {
            return Ordering::Greater;
        }
        i += 1;
    }
    // If one string is the beginning of the other, compare the length
    proof {
        assert(a@.skip(i + 0).len() == a@.len() - i);
        assert(b@.skip(i + 0).len() == b@.len() - i);
    }
    if a.len() < b.len() {
        Ordering::Less
    } else if a.len() > b.len() {
        Ordering::Greater
    } else {
        Ordering::Equal
    }
}

} // verus!
