use rand::seq::SliceRandom;
use rand::Rng;
use vstd::prelude::*;

verus! {

broadcast use vstd::seq_lib::group_to_multiset_ensures;

#[verifier::external_type_specification]
#[verifier::external_body]
pub struct ExThreadRng(rand::rngs::ThreadRng);

/// Calls `rand::thread_rng`: a handle to the thread-local generator.
/// Nothing is stated of it.
#[verifier::external_body]
pub(crate) fn thread_rng() -> rand::rngs::ThreadRng {
    rand::thread_rng()
}

/// Calls `Rng::gen_range(0..bound)`, which panics on an empty range (hence
/// `bound > 0`) and otherwise returns some value of the range.
#[verifier::external_body]
pub(crate) fn gen_below(rng: &mut rand::rngs::ThreadRng, bound: usize) -> (r: usize)
    requires
        bound > 0,
    ensures
        r < bound,
{
    rng.gen_range(0..bound)
}

/// Calls `Rng::gen::<u64>()`: any `u64` may come back.
#[verifier::external_body]
pub(crate) fn gen_u64(rng: &mut rand::rngs::ThreadRng) -> u64 {
    rng.gen()
}

/// Calls `SliceRandom::shuffle` on the vector: the elements are permuted in
/// place (a series of swaps), so the same values stay, in some order.
#[verifier::external_body]
pub(crate) fn shuffle_indices(rng: &mut rand::rngs::ThreadRng, v: &mut Vec<usize>)
    ensures
        final(v)@.to_multiset() == old(v)@.to_multiset(),
{
    v.shuffle(rng)
}

/// Calls `SliceRandom::choose_multiple` and collects the chosen values.
/// It picks `min(amount, v.len())` elements at distinct positions of `v`
/// (in some order), so what comes back is a sub-multiset of `v`.
#[verifier::external_body]
pub(crate) fn choose_multiple_indices(
    rng: &mut rand::rngs::ThreadRng,
    v: &Vec<usize>,
    amount: usize,
) -> (r: Vec<usize>)
    ensures
        r.len() == if amount < v.len() { amount } else { v.len() },
        r@.to_multiset().subset_of(v@.to_multiset()),
{
    v.choose_multiple(rng, amount).cloned().collect()
}

/// Every element of `s` lies in `0..n` and none occurs twice.
pub open spec fn distinct_below(s: Seq<usize>, n: int) -> bool {
    &&& s.no_duplicates()
    &&& forall|i: int| 0 <= i < s.len() ==> #[trigger] s[i] < n
}

/// A sub-multiset of a sequence without duplicates has none either, and
/// holds only elements of it.
pub proof fn lemma_sub_multiset_distinct(r: Seq<usize>, s: Seq<usize>)
    requires
        s.no_duplicates(),
        r.to_multiset().subset_of(s.to_multiset()),
    ensures
        r.no_duplicates(),
        forall|x: usize| r.contains(x) ==> s.contains(x),
{
    s.lemma_multiset_has_no_duplicates();
    assert forall|x: usize| r.to_multiset().contains(x) implies r.to_multiset().count(x) == 1 by {
        assert(s.to_multiset().count(x) >= r.to_multiset().count(x));
    }
    r.lemma_multiset_has_no_duplicates_conv();
    assert forall|x: usize| r.contains(x) implies s.contains(x) by {
        assert(r.to_multiset().count(x) > 0);
    }
}

/// The sequence 0, 1, ..., n - 1 of a vector.
pub fn index_range(n: usize) -> (v: Vec<usize>)
    ensures
        v.len() == n,
        forall|i: int| 0 <= i < n ==> #[trigger] v@[i] == i,
{
    let mut v: Vec<usize> = Vec::new();
    let mut i: usize = 0;
    while i < n
        invariant
            i <= n,
            v.len() == i,
            forall|k: int| 0 <= k < i ==> #[trigger] v@[k] == k,
        decreases n - i,
    {
        v.push(i);
        i = i + 1;
    }
    v
}

/// Picks at random `min(amount, n)` distinct positions out of `0..n`,
/// in random order (the positions of the items chosen by
/// `choose_multiple` on a list of `n` items).
pub fn sample_indices(n: usize, amount: usize) -> (r: Vec<usize>)
    ensures
        r.len() == if amount < n { amount } else { n },
        distinct_below(r@, n as int),
{
    let all = index_range(n);
    let mut rng = thread_rng();
    let r = choose_multiple_indices(&mut rng, &all, amount);
    proof {
        assert(all@.no_duplicates());
        lemma_sub_multiset_distinct(r@, all@);
        assert forall|i: int| 0 <= i < r@.len() implies #[trigger] r@[i] < n by {
            assert(r@.contains(r@[i]));
            assert(all@.contains(r@[i]));
        }
    }
    r
}

/// Whether `x` occurs in `v`.
pub fn contains_index(v: &Vec<usize>, x: usize) -> (res: bool)
    ensures
        res == v@.contains(x),
{
    let mut i: usize = 0;
    while i < v.len()
        invariant
            i <= v.len(),
            forall|k: int| 0 <= k < i ==> v@[k] != x,
        decreases v.len() - i,
    {
        if v[i] == x {
            return true;
        }
        i = i + 1;
    }
    false
}

} // verus!
