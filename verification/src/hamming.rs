use simsimd::BinarySimilarity;
use vstd::prelude::*;

verus! {

/// The number of one bits of a byte.
pub open spec fn popcount(x: u8) -> nat
    decreases x,
{
    if x == 0 {
        0
    } else {
        (x % 2) as nat + popcount(x / 2)
    }
}

/// The number of bit positions at which two equally long byte strings
/// differ.
pub open spec fn hamming_bits(a: Seq<u8>, b: Seq<u8>) -> nat
    decreases a.len(),
{
    if a.len() == 0 || b.len() == 0 {
        0
    } else {
        hamming_bits(a.drop_last(), b.drop_last()) + popcount(a.last() ^ b.last())
    }
}

/// Calls simsimd's `BinarySimilarity::hamming` on bytes: `None` when the
/// lengths differ, otherwise the number of differing bits. The count is
/// returned as a float built from a 32-bit counter, so it is exact below
/// 2^32, which is all that is stated; the conversion back to an integer is
/// exact there too.
#[verifier::external_body]
pub(crate) fn simsimd_hamming(a: &[u8], b: &[u8]) -> (res: Option<u64>)
    ensures
        res is Some <==> a@.len() == b@.len(),
        res matches Some(d) ==> (hamming_bits(a@, b@) < 0x1_0000_0000 ==> d == hamming_bits(
            a@,
            b@,
        )),
{
    <u8 as BinarySimilarity>::hamming(a, b).map(|d| d as u64)
}

proof fn lemma_popcount_zero(x: u8)
    ensures
        popcount(x) == 0 <==> x == 0,
    decreases x,
{
    if x != 0 {
        lemma_popcount_zero(x / 2);
        assert(x / 2 == 0 ==> x % 2 == 1);
    }
}

/// Law: equally long byte strings are at Hamming distance zero exactly when
/// they are equal.
pub proof fn lemma_hamming_zero(a: Seq<u8>, b: Seq<u8>)
    requires
        a.len() == b.len(),
    ensures
        hamming_bits(a, b) == 0 <==> a == b,
    decreases a.len(),
{
    if a.len() > 0 {
        lemma_hamming_zero(a.drop_last(), b.drop_last());
        let x = a.last();
        let y = b.last();
        lemma_popcount_zero(x ^ y);
        assert((x ^ y) == 0 <==> x == y) by (bit_vector);
        if a.drop_last() == b.drop_last() && x == y {
            assert(a == a.drop_last().push(x));
            assert(b == b.drop_last().push(y));
        }
        if a == b {
            assert(a.drop_last() == b.drop_last());
        }
    } else {
        assert(a == b);
    }
}

/// Law: the Hamming distance is symmetric.
pub proof fn lemma_hamming_symmetric(a: Seq<u8>, b: Seq<u8>)
    ensures
        hamming_bits(a, b) == hamming_bits(b, a),
    decreases a.len(),
{
    if a.len() > 0 && b.len() > 0 {
        lemma_hamming_symmetric(a.drop_last(), b.drop_last());
        let x = a.last();
        let y = b.last();
        assert((x ^ y) == (y ^ x)) by (bit_vector);
    }
}

/// The distance of strings of `n` bytes is at most `8 n`.
pub proof fn lemma_hamming_bound(a: Seq<u8>, b: Seq<u8>)
    requires
        a.len() == b.len(),
    ensures
        hamming_bits(a, b) <= 8 * a.len(),
    decreases a.len(),
{
    if a.len() > 0 {
        lemma_hamming_bound(a.drop_last(), b.drop_last());
        lemma_popcount_bound(a.last() ^ b.last());
    }
}

proof fn lemma_popcount_bound(x: u8)
    ensures
        popcount(x) <= 8,
{
    reveal_with_fuel(pow2_nat, 9);
    assert(pow2_nat(8) == 256);
    lemma_popcount_bits(x, 8);
}

proof fn lemma_popcount_bits(x: u8, k: nat)
    requires
        (x as nat) < pow2_nat(k),
    ensures
        popcount(x) <= k,
    decreases k,
{
    if x != 0 {
        if k == 0 {
            assert(false);
        } else {
            assert(((x / 2) as nat) < pow2_nat((k - 1) as nat));
            lemma_popcount_bits(x / 2, (k - 1) as nat);
        }
    }
}

spec fn pow2_nat(k: nat) -> nat
    decreases k,
{
    if k == 0 {
        1
    } else {
        2 * pow2_nat((k - 1) as nat)
    }
}

} // verus!
