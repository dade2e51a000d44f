use std::collections::HashMap;
use vstd::prelude::*;
use vstd::string::*;

use crate::confidence::{lemma_ordered_pairs, lemma_pair_rows_grow, ordered_pairs, pair_row, pair_rows};
use crate::hamming::{hamming_bits, lemma_hamming_bound, lemma_hamming_zero, simsimd_hamming};
use crate::rng::{
    distinct_below, gen_below, index_range, sample_indices, shuffle_indices, thread_rng,
};
use crate::template_format::{parse_template_values, parsed_fields, template_fields};

verus! {

broadcast use vstd::seq_lib::group_to_multiset_ensures;

/// The files of one class chosen for a multi-template comparison.
pub struct ClassSelection {
    pub class_name: String,
    pub base_files: Vec<String>,
    pub comparison_files: Vec<String>,
}

/// The chosen files of every class, by class name.
pub struct SelectionData {
    pub selections: HashMap<String, ClassSelection>,
}

/// Why a true-accept-rate analysis was refused.
#[derive(Debug, Clone, Copy, PartialEq, Eq, Structural)]
pub enum TarError {
    /// A multi-template analysis needs fewer base templates than tries.
    BaseCountNotBelowTries,
}

impl TarError {
    /// The message that reports the error.
    pub fn message(&self) -> (res: String)
        ensures
            res@ == "Base count must be less than the number of tries"@,
    {
        String::from_str("Base count must be less than the number of tries")
    }
}

/// The values of `data` at the given positions: what a locker reads of a
/// template.
pub open spec fn project(data: Seq<u8>, pos: Seq<usize>) -> Seq<u8> {
    Seq::new(pos.len(), |i: int| data[pos[i] as int])
}

/// Every position of every locker lies within every template.
pub open spec fn positions_fit(templates: Seq<Vec<u8>>, positions: Seq<Vec<usize>>) -> bool {
    forall|t: int, p: int, i: int|
        0 <= t < templates.len() && 0 <= p < positions.len() && 0 <= i < positions[p].len()
            ==> #[trigger] positions[p]@[i] < #[trigger] templates[t].len()
}

/// Every locker is short enough (fewer than 2^29 positions) for its Hamming
/// distances to be counted exactly.
pub open spec fn lockers_short(positions: Seq<Vec<usize>>) -> bool {
    forall|p: int| 0 <= p < positions.len() ==> (#[trigger] positions[p]).len() < 0x2000_0000
}

/// What every locker reads of one template.
pub open spec fn locker_values(data: Seq<u8>, positions: Seq<Vec<usize>>) -> Seq<Seq<u8>> {
    Seq::new(positions.len(), |p: int| project(data, positions[p]@))
}

/// Some locker reads the same values in both: the first template unlocks a
/// locker of the second.
pub open spec fn some_locker_matches(base: Seq<Seq<u8>>, target: Seq<Seq<u8>>) -> bool {
    exists|k: int| 0 <= k < base.len() && k < target.len() && #[trigger] base[k] == target[k]
}

/// Template `b` unlocks a locker of template `t`.
pub open spec fn templates_match(
    templates: Seq<Vec<u8>>,
    positions: Seq<Vec<usize>>,
    b: int,
    t: int,
) -> bool {
    some_locker_matches(
        locker_values(templates[b]@, positions),
        locker_values(templates[t]@, positions),
    )
}

/// How many templates among the first `upto`, other than `base`, are
/// unlocked by the base template.
pub open spec fn class_matches(
    templates: Seq<Vec<u8>>,
    positions: Seq<Vec<usize>>,
    base: int,
    upto: int,
) -> nat
    decreases upto,
{
    if upto <= 0 {
        0
    } else {
        class_matches(templates, positions, base, upto - 1) + if upto - 1 != base
            && templates_match(templates, positions, base, upto - 1) {
            1nat
        } else {
            0nat
        }
    }
}

/// Some base template unlocks some comparison template.
pub open spec fn any_base_matches(
    templates: Seq<Vec<u8>>,
    positions: Seq<Vec<usize>>,
    base: Seq<usize>,
    comparison: Seq<usize>,
) -> bool {
    exists|c: int, b: int|
        0 <= c < comparison.len() && 0 <= b < base.len() && #[trigger] templates_match(
            templates,
            positions,
            base[b] as int,
            comparison[c] as int,
        )
}

/// Law: a template unlocks a locker of another exactly when the other
/// unlocks a locker of the first.
pub proof fn lemma_templates_match_symmetric(
    templates: Seq<Vec<u8>>,
    positions: Seq<Vec<usize>>,
    b: int,
    t: int,
)
    ensures
        templates_match(templates, positions, b, t) == templates_match(templates, positions, t, b),
{
    let bv = locker_values(templates[b]@, positions);
    let tv = locker_values(templates[t]@, positions);
    if some_locker_matches(bv, tv) {
        let k = choose|k: int| 0 <= k < bv.len() && k < tv.len() && #[trigger] bv[k] == tv[k];
        assert(tv[k] == bv[k]);
    }
    if some_locker_matches(tv, bv) {
        let k = choose|k: int| 0 <= k < tv.len() && k < bv.len() && #[trigger] tv[k] == bv[k];
        assert(bv[k] == tv[k]);
    }
}

/// Law: a template with at least one locker unlocks itself.
pub proof fn lemma_template_matches_itself(
    templates: Seq<Vec<u8>>,
    positions: Seq<Vec<usize>>,
    b: int,
)
    requires
        positions.len() > 0,
    ensures
        templates_match(templates, positions, b, b),
{
    let bv = locker_values(templates[b]@, positions);
    assert(bv[0] == bv[0]);
}

/// Law: one agreeing locker is enough. Some locker reads the same values
/// from both sequences exactly when there is a position `k`, below both
/// lengths, at which they hold the same reading, whichever `k` that is.
pub proof fn lemma_some_locker_matches_iff(base: Seq<Seq<u8>>, target: Seq<Seq<u8>>)
    ensures
        some_locker_matches(base, target) <==> exists|k: int|
            #![trigger base[k], target[k]]
            0 <= k < base.len() && k < target.len() && base[k] == target[k],
        forall|k: int|
            #![trigger base[k], target[k]]
            0 <= k < base.len() && k < target.len() && base[k] == target[k] ==> some_locker_matches(
                base,
                target,
            ),
{
    assert forall|k: int|
        #![trigger base[k], target[k]]
        0 <= k < base.len() && k < target.len() && base[k] == target[k] implies some_locker_matches(
        base,
        target,
    ) by {
        assert(base[k] == target[k]);
    }
    if some_locker_matches(base, target) {
        let k = choose|k: int| 0 <= k < base.len() && k < target.len() && #[trigger] base[k] == target[k];
        assert(base[k] == target[k]);
    }
}

/// At every position of a locker, the two templates hold the same value.
pub open spec fn same_at_positions(x: Seq<u8>, y: Seq<u8>, pos: Seq<usize>) -> bool {
    forall|i: int| 0 <= i < pos.len() ==> x[#[trigger] pos[i] as int] == y[pos[i] as int]
}

/// Law: template `b` unlocks template `t` exactly when some locker `k`
/// reads, at every one of its positions, the same value from both
/// templates; it does not matter which of the lockers agrees.
pub proof fn lemma_match_iff_some_locker_agrees(
    templates: Seq<Vec<u8>>,
    positions: Seq<Vec<usize>>,
    b: int,
    t: int,
)
    ensures
        templates_match(templates, positions, b, t) <==> exists|k: int|
            0 <= k < positions.len() && #[trigger] same_at_positions(
                templates[b]@,
                templates[t]@,
                positions[k]@,
            ),
        forall|k: int|
            0 <= k < positions.len() && #[trigger] same_at_positions(
                templates[b]@,
                templates[t]@,
                positions[k]@,
            ) ==> templates_match(templates, positions, b, t),
{
    let bv = locker_values(templates[b]@, positions);
    let tv = locker_values(templates[t]@, positions);
    lemma_some_locker_matches_iff(bv, tv);
    assert forall|k: int|
        0 <= k < positions.len() implies #[trigger] same_at_positions(
        templates[b]@,
        templates[t]@,
        positions[k]@,
    ) == (bv[k] == tv[k]) by {
        assert(bv[k] == project(templates[b]@, positions[k]@));
        assert(tv[k] == project(templates[t]@, positions[k]@));
        if same_at_positions(templates[b]@, templates[t]@, positions[k]@) {
            assert forall|i: int| 0 <= i < bv[k].len() implies bv[k][i] == tv[k][i] by {
                assert(templates[b]@[positions[k]@[i] as int] == templates[t]@[positions[k]@[i] as int]);
            }
            assert(bv[k] =~= tv[k]);
        }
        if bv[k] == tv[k] {
            assert forall|i: int| 0 <= i < positions[k]@.len() implies templates[b]@[
                #[trigger] positions[k]@[i] as int] == templates[t]@[positions[k]@[i] as int] by {
                assert(bv[k][i] == tv[k][i]);
            }
        }
    }
    if templates_match(templates, positions, b, t) {
        let k = choose|k: int|
            #![trigger bv[k], tv[k]]
            0 <= k < bv.len() && k < tv.len() && bv[k] == tv[k];
        assert(same_at_positions(templates[b]@, templates[t]@, positions[k]@));
    }
    assert forall|k: int|
        0 <= k < positions.len() && #[trigger] same_at_positions(
            templates[b]@,
            templates[t]@,
            positions[k]@,
        ) implies templates_match(templates, positions, b, t) by {
        assert(bv[k] == tv[k]);
    }
}

/// Law: the successes of a class are the number of templates, among the
/// first `upto` and other than the base, that the base template unlocks.
pub proof fn lemma_class_matches_count(
    templates: Seq<Vec<u8>>,
    positions: Seq<Vec<usize>>,
    base: int,
    upto: int,
)
    requires
        0 <= upto,
    ensures
        Set::new(
            |t: int| 0 <= t < upto && t != base && templates_match(templates, positions, base, t),
        ).finite(),
        class_matches(templates, positions, base, upto) == Set::new(
            |t: int| 0 <= t < upto && t != base && templates_match(templates, positions, base, t),
        ).len(),
    decreases upto,
{
    let s = Set::new(
        |t: int| 0 <= t < upto && t != base && templates_match(templates, positions, base, t),
    );
    if upto == 0 {
        assert(s =~= Set::<int>::empty());
    } else {
        lemma_class_matches_count(templates, positions, base, upto - 1);
        let prev = Set::new(
            |t: int| 0 <= t < upto - 1 && t != base && templates_match(templates, positions, base, t),
        );
        if upto - 1 != base && templates_match(templates, positions, base, upto - 1) {
            assert(s =~= prev.insert(upto - 1));
            assert(!prev.contains(upto - 1));
        } else {
            assert(s =~= prev);
        }
    }
}

/// A multi-template comparison of one class: which templates served as
/// base and which as comparison, and whether a match was found.
pub struct MultiOutcome {
    pub found: bool,
    pub base_indices: Vec<usize>,
    pub comparison_indices: Vec<usize>,
}

/// Evaluates how often lockers built from one template are unlocked by
/// another template of the same class.
pub struct TARAnalyzer;

/// The most templates of a class that a single-template comparison reads.
pub const MAX_CLASS_FILES: usize = 11;

impl TARAnalyzer {
    /// The bits of a binary template file, skipping the fields that do not
    /// parse.
    pub fn parse_binary_content(content: &str) -> (res: Vec<u8>)
        ensures
            res@ == parsed_fields(template_fields(content.spec_bytes())),
    {
        parse_template_values(content)
    }

    /// Which of the `n` files of a class to read for a single-template
    /// comparison: none when there are fewer than two; all of them, in
    /// order, when there are at most `MAX_CLASS_FILES`; otherwise that many
    /// distinct ones chosen at random.
    pub fn choose_class_files(n: usize) -> (res: Option<Vec<usize>>)
        ensures
            res is None <==> n < 2,
            res matches Some(v) ==> (n <= MAX_CLASS_FILES ==> v.len() == n && forall|i: int|
                0 <= i < n ==> #[trigger] v@[i] == i),
            res matches Some(v) ==> (n > MAX_CLASS_FILES ==> v.len() == MAX_CLASS_FILES
                && distinct_below(v@, n as int)),
    {
        if n < 2 {
            None
        } else if n > MAX_CLASS_FILES {
            Some(sample_indices(n, MAX_CLASS_FILES))
        } else {
            Some(index_range(n))
        }
    }

    /// Which of the `n` files of a class to read for a multi-template
    /// comparison: `tries` distinct ones chosen at random, or none when
    /// there are fewer than `tries`.
    pub fn choose_multi_files(n: usize, tries: usize) -> (res: Option<Vec<usize>>)
        ensures
            res is None <==> n < tries,
            res matches Some(v) ==> v.len() == tries && distinct_below(v@, n as int),
    {
        if n < tries {
            None
        } else {
            Some(sample_indices(n, tries))
        }
    }

    /// The Hamming distance of two byte strings, `u64::MAX` when their
    /// lengths differ.
    pub fn calc_hamming(a: &[u8], b: &[u8]) -> (res: u64)
        ensures
            a@.len() != b@.len() ==> res == u64::MAX,
            a@.len() == b@.len() && hamming_bits(a@, b@) < 0x1_0000_0000 ==> res == hamming_bits(
                a@,
                b@,
            ),
    {
        match simsimd_hamming(a, b) {
            Some(d) => d,
            None => u64::MAX,
        }
    }

    /// Whether some locker reads the same values from both templates, that
    /// is whether one template unlocks a locker of the other.
    pub fn compare_permutations(base_perm: &[Vec<u8>], target_perm: &[Vec<u8>]) -> (res: bool)
        ensures
            (forall|k: int| 0 <= k < base_perm@.len() ==> (#[trigger] base_perm@[k]).len()
                < 0x2000_0000) ==> res == some_locker_matches(
                Seq::new(base_perm@.len(), |k: int| base_perm@[k]@),
                Seq::new(target_perm@.len(), |k: int| target_perm@[k]@),
            ),
    {
        let ghost bs = Seq::new(base_perm@.len(), |k: int| base_perm@[k]@);
        let ghost ts = Seq::new(target_perm@.len(), |k: int| target_perm@[k]@);
        let ghost short = forall|k: int|
            0 <= k < base_perm@.len() ==> (#[trigger] base_perm@[k]).len() < 0x2000_0000;
        let mut k: usize = 0;
        while k < base_perm.len() && k < target_perm.len()
            invariant
                k <= base_perm.len(),
                bs == Seq::new(base_perm@.len(), |k: int| base_perm@[k]@),
                ts == Seq::new(target_perm@.len(), |k: int| target_perm@[k]@),
                short == forall|k: int|
                    0 <= k < base_perm@.len() ==> (#[trigger] base_perm@[k]).len() < 0x2000_0000,
                short ==> forall|j: int| 0 <= j < k ==> #[trigger] bs[j] != ts[j],
            decreases base_perm.len() - k,
        {
            let d = Self::calc_hamming(base_perm[k].as_slice(), target_perm[k].as_slice());
            proof {
                if short && base_perm@[k as int]@.len() == target_perm@[k as int]@.len() {
                    lemma_hamming_bound(base_perm@[k as int]@, target_perm@[k as int]@);
                    lemma_hamming_zero(base_perm@[k as int]@, target_perm@[k as int]@);
                }
            }
            if d == 0 {
                proof {
                    if short {
                        assert(bs[k as int] == ts[k as int]);
                    }
                }
                return true;
            }
            proof {
                if short && bs[k as int] == ts[k as int] {
                    assert(base_perm@[k as int]@.len() == target_perm@[k as int]@.len());
                }
            }
            k = k + 1;
        }
        false
    }

    /// What every locker reads of every template.
    pub fn create_permutations_batch(templates: &[Vec<u8>], positions: &[Vec<usize>]) -> (res: Vec<
        Vec<Vec<u8>>,
    >)
        requires
            positions_fit(templates@, positions@),
        ensures
            res.len() == templates.len(),
            forall|t: int|
                0 <= t < templates.len() ==> (#[trigger] res@[t]).len() == positions.len() && forall|
                    p: int,
                |
                    0 <= p < positions.len() ==> (#[trigger] res@[t]@[p])@ == project(
                        templates@[t]@,
                        positions@[p]@,
                    ),
    {
        let mut res: Vec<Vec<Vec<u8>>> = Vec::new();
        let mut t: usize = 0;
        while t < templates.len()
            invariant
                t <= templates.len(),
                positions_fit(templates@, positions@),
                res.len() == t,
                forall|u: int|
                    0 <= u < t ==> (#[trigger] res@[u]).len() == positions.len() && forall|p: int|
                        0 <= p < positions.len() ==> (#[trigger] res@[u]@[p])@ == project(
                            templates@[u]@,
                            positions@[p]@,
                        ),
            decreases templates.len() - t,
        {
            let data = &templates[t];
            let mut per_template: Vec<Vec<u8>> = Vec::new();
            let mut p: usize = 0;
            while p < positions.len()
                invariant
                    t < templates.len(),
                    p <= positions.len(),
                    data == templates@[t as int],
                    positions_fit(templates@, positions@),
                    per_template.len() == p,
                    forall|q: int|
                        0 <= q < p ==> (#[trigger] per_template@[q])@ == project(
                            data@,
                            positions@[q]@,
                        ),
                decreases positions.len() - p,
            {
                let pos_set = &positions[p];
                let mut values: Vec<u8> = Vec::new();
                let mut i: usize = 0;
                while i < pos_set.len()
                    invariant
                        t < templates.len(),
                        p < positions.len(),
                        i <= pos_set.len(),
                        data == templates@[t as int],
                        pos_set == positions@[p as int],
                        positions_fit(templates@, positions@),
                        values.len() == i,
                        forall|j: int|
                            0 <= j < i ==> #[trigger] values@[j] == data@[pos_set@[j] as int],
                    decreases pos_set.len() - i,
                {
                    assert(pos_set@[i as int] < templates@[t as int].len());
                    values.push(data[pos_set[i]]);
                    i = i + 1;
                }
                proof {
                    assert(values@ == project(data@, pos_set@));
                }
                per_template.push(values);
                p = p + 1;
            }
            res.push(per_template);
            t = t + 1;
        }
        res
    }

    /// Whether template `b` unlocks a locker of template `t`, given what
    /// every locker reads of every template.
    fn pair_matches(
        perms: &Vec<Vec<Vec<u8>>>,
        b: usize,
        t: usize,
        Ghost(templates): Ghost<Seq<Vec<u8>>>,
        Ghost(positions): Ghost<Seq<Vec<usize>>>,
    ) -> (res: bool)
        requires
            b < perms.len(),
            t < perms.len(),
            perms.len() == templates.len(),
            forall|u: int|
                0 <= u < templates.len() ==> (#[trigger] perms@[u]).len() == positions.len()
                    && forall|p: int|
                    0 <= p < positions.len() ==> (#[trigger] perms@[u]@[p])@ == project(
                        templates[u]@,
                        positions[p]@,
                    ),
        ensures
            lockers_short(positions) ==> res == templates_match(templates, positions, b as int, t as int),
    {
        let res = Self::compare_permutations(perms[b].as_slice(), perms[t].as_slice());
        proof {
            let bv = Seq::new(perms@[b as int]@.len(), |k: int| perms@[b as int]@[k]@);
            let tv = Seq::new(perms@[t as int]@.len(), |k: int| perms@[t as int]@[k]@);
            assert(bv =~= locker_values(templates[b as int]@, positions));
            assert(tv =~= locker_values(templates[t as int]@, positions));
            if lockers_short(positions) {
                assert forall|k: int| 0 <= k < perms@[b as int]@.len() implies (
                #[trigger] perms@[b as int]@[k]).len() < 0x2000_0000 by {
                    assert(perms@[b as int]@[k]@ == project(templates[b as int]@, positions[k]@));
                    assert(positions[k].len() < 0x2000_0000);
                }
            }
        }
        res
    }

    /// Compares one base template of a class with all the others: how many
    /// of the others it unlocks, and how many others there are. The base
    /// template is drawn at random; a class without templates gives (0, 0).
    pub fn process_single_class(templates: &[Vec<u8>], positions: &[Vec<usize>]) -> (res: (
        usize,
        usize,
    ))
        requires
            positions_fit(templates@, positions@),
        ensures
            templates.len() == 0 ==> res == (0usize, 0usize),
            templates.len() > 0 ==> res.1 == templates.len() - 1,
            res.0 <= res.1,
            templates.len() > 0 && lockers_short(positions@) ==> exists|b: int|
                0 <= b < templates.len() && res.0 == class_matches(
                    templates@,
                    positions@,
                    b,
                    templates.len() as int,
                ),
    {
        if templates.len() == 0 {
            return (0, 0);
        }
        let all_permutations = Self::create_permutations_batch(templates, positions);
        let mut rng = thread_rng();
        let base_idx = gen_below(&mut rng, templates.len());
        let n = templates.len();
        let mut success_count: usize = 0;
        let mut idx: usize = 0;
        while idx < n
            invariant
                n == templates.len(),
                n == all_permutations.len(),
                base_idx < n,
                idx <= n,
                success_count + (if idx > base_idx { 1usize } else { 0usize }) <= idx,
                forall|u: int|
                    0 <= u < templates.len() ==> (#[trigger] all_permutations@[u]).len()
                        == positions.len() && forall|p: int|
                        0 <= p < positions.len() ==> (#[trigger] all_permutations@[u]@[p])@
                            == project(templates@[u]@, positions@[p]@),
                lockers_short(positions@) ==> success_count == class_matches(
                    templates@,
                    positions@,
                    base_idx as int,
                    idx as int,
                ),
            decreases n - idx,
        {
            if idx != base_idx && Self::pair_matches(
                &all_permutations,
                base_idx,
                idx,
                Ghost(templates@),
                Ghost(positions@),
            ) {
                success_count = success_count + 1;
            }
            idx = idx + 1;
        }
        (success_count, n - 1)
    }

    /// Whether some base template unlocks some comparison template.
    fn multi_match(
        perms: &Vec<Vec<Vec<u8>>>,
        base_indices: &Vec<usize>,
        comparison_indices: &Vec<usize>,
        Ghost(templates): Ghost<Seq<Vec<u8>>>,
        Ghost(positions): Ghost<Seq<Vec<usize>>>,
    ) -> (res: bool)
        requires
            perms.len() == templates.len(),
            forall|u: int|
                0 <= u < templates.len() ==> (#[trigger] perms@[u]).len() == positions.len()
                    && forall|p: int|
                    0 <= p < positions.len() ==> (#[trigger] perms@[u]@[p])@ == project(
                        templates[u]@,
                        positions[p]@,
                    ),
            forall|k: int| 0 <= k < base_indices.len() ==> #[trigger] base_indices@[k] < perms.len(),
            forall|k: int|
                0 <= k < comparison_indices.len() ==> #[trigger] comparison_indices@[k]
                    < perms.len(),
        ensures
            lockers_short(positions) ==> res == any_base_matches(
                templates,
                positions,
                base_indices@,
                comparison_indices@,
            ),
    {
        let mut c: usize = 0;
        while c < comparison_indices.len()
            invariant
                c <= comparison_indices.len(),
                perms.len() == templates.len(),
                forall|u: int|
                    0 <= u < templates.len() ==> (#[trigger] perms@[u]).len() == positions.len()
                        && forall|p: int|
                        0 <= p < positions.len() ==> (#[trigger] perms@[u]@[p])@ == project(
                            templates[u]@,
                            positions[p]@,
                        ),
                forall|k: int|
                    0 <= k < base_indices.len() ==> #[trigger] base_indices@[k] < perms.len(),
                forall|k: int|
                    0 <= k < comparison_indices.len() ==> #[trigger] comparison_indices@[k]
                        < perms.len(),
                lockers_short(positions) ==> forall|cc: int, b: int|
                    0 <= cc < c && 0 <= b < base_indices.len() ==> !#[trigger] templates_match(
                        templates,
                        positions,
                        base_indices@[b] as int,
                        comparison_indices@[cc] as int,
                    ),
            decreases comparison_indices.len() - c,
        {
            let target = comparison_indices[c];
            let mut b: usize = 0;
            while b < base_indices.len()
                invariant
                    c < comparison_indices.len(),
                    target == comparison_indices@[c as int],
                    b <= base_indices.len(),
                    perms.len() == templates.len(),
                    forall|u: int|
                        0 <= u < templates.len() ==> (#[trigger] perms@[u]).len()
                            == positions.len() && forall|p: int|
                            0 <= p < positions.len() ==> (#[trigger] perms@[u]@[p])@ == project(
                                templates[u]@,
                                positions[p]@,
                            ),
                    forall|k: int|
                        0 <= k < base_indices.len() ==> #[trigger] base_indices@[k] < perms.len(),
                    forall|k: int|
                        0 <= k < comparison_indices.len() ==> #[trigger] comparison_indices@[k]
                            < perms.len(),
                    lockers_short(positions) ==> forall|cc: int, bb: int|
                        0 <= cc < c && 0 <= bb < base_indices.len() ==> !#[trigger] templates_match(
                            templates,
                            positions,
                            base_indices@[bb] as int,
                            comparison_indices@[cc] as int,
                        ),
                    lockers_short(positions) ==> forall|bb: int|
                        0 <= bb < b ==> !#[trigger] templates_match(
                            templates,
                            positions,
                            base_indices@[bb] as int,
                            target as int,
                        ),
                decreases base_indices.len() - b,
            {
                if Self::pair_matches(perms, base_indices[b], target, Ghost(templates), Ghost(positions)) {
                    return true;
                }
                b = b + 1;
            }
            c = c + 1;
        }
        false
    }

    /// Compares a class in the multi-template way: the templates are
    /// shuffled; the first `base_count` serve as base and the next
    /// `tries - base_count` as comparison. `None` when the class has fewer
    /// than `tries` templates.
    pub fn process_single_class_multi(
        templates: &[Vec<u8>],
        positions: &[Vec<usize>],
        tries: usize,
        base_count: usize,
    ) -> (res: Option<MultiOutcome>)
        requires
            base_count <= tries,
            positions_fit(templates@, positions@),
        ensures
            res is None <==> templates.len() < tries,
            res matches Some(o) ==> {
                &&& o.base_indices.len() == base_count
                &&& o.comparison_indices.len() == tries - base_count
                &&& distinct_below(o.base_indices@ + o.comparison_indices@, templates.len() as int)
                &&& lockers_short(positions@) ==> o.found == any_base_matches(
                    templates@,
                    positions@,
                    o.base_indices@,
                    o.comparison_indices@,
                )
            },
    {
        let n = templates.len();
        if n < tries {
            return None;
        }
        let all_permutations = Self::create_permutations_batch(templates, positions);
        let mut indices = index_range(n);
        let ghost before = indices@;
        let mut rng = thread_rng();
        shuffle_indices(&mut rng, &mut indices);
        proof {
            assert(before.no_duplicates());
            assert(indices@.to_multiset().subset_of(before.to_multiset()));
            assert(indices@.len() == indices@.to_multiset().len());
            assert(before.len() == before.to_multiset().len());
            crate::rng::lemma_sub_multiset_distinct(indices@, before);
            assert forall|k: int| 0 <= k < indices.len() implies #[trigger] indices@[k] < n by {
                assert(indices@.contains(indices@[k]));
                assert(before.contains(indices@[k]));
            }
        }
        let mut base_indices: Vec<usize> = Vec::new();
        let mut comparison_indices: Vec<usize> = Vec::new();
        let mut k: usize = 0;
        while k < tries
            invariant
                k <= tries <= n,
                base_count <= tries,
                indices.len() == n,
                forall|j: int| 0 <= j < n ==> #[trigger] indices@[j] < n,
                k <= base_count ==> base_indices@ == indices@.take(k as int)
                    && comparison_indices.len() == 0,
                k > base_count ==> base_indices@ == indices@.take(base_count as int)
                    && comparison_indices@ == indices@.subrange(base_count as int, k as int),
            decreases tries - k,
        {
            if k < base_count {
                proof {
                    assert(indices@.take(k + 1) == indices@.take(k as int).push(indices@[k as int]));
                }
                base_indices.push(indices[k]);
            } else {
                proof {
                    assert(indices@.subrange(base_count as int, k + 1) == indices@.subrange(
                        base_count as int,
                        k as int,
                    ).push(indices@[k as int]));
                }
                comparison_indices.push(indices[k]);
            }
            k = k + 1;
        }
        proof {
            assert(base_indices@ + comparison_indices@ == indices@.take(tries as int));
            assert forall|i: int, j: int|
                0 <= i < tries && 0 <= j < tries && i != j implies indices@.take(tries as int)[i]
                != indices@.take(tries as int)[j] by {}
        }
        let found = Self::multi_match(
            &all_permutations,
            &base_indices,
            &comparison_indices,
            Ghost(templates@),
            Ghost(positions@),
        );
        Some(MultiOutcome { found, base_indices, comparison_indices })
    }

    /// Compares a class with a given selection: the first `base_count`
    /// templates serve as base, the others as comparison.
    pub fn match_with_selection(
        templates: &[Vec<u8>],
        positions: &[Vec<usize>],
        base_count: usize,
    ) -> (res: bool)
        requires
            base_count <= templates.len(),
            positions_fit(templates@, positions@),
        ensures
            lockers_short(positions@) ==> res == exists|c: int, b: int|
                base_count <= c < templates.len() && 0 <= b < base_count && #[trigger] templates_match(
                    templates@,
                    positions@,
                    b,
                    c,
                ),
    {
        let all_permutations = Self::create_permutations_batch(templates, positions);
        let base = index_range(base_count);
        let n = templates.len();
        let mut comparison: Vec<usize> = Vec::new();
        let mut c = base_count;
        while c < n
            invariant
                base_count <= c <= n,
                comparison.len() == c - base_count,
                forall|k: int| 0 <= k < comparison.len() ==> #[trigger] comparison@[k] == base_count + k,
            decreases n - c,
        {
            comparison.push(c);
            c = c + 1;
        }
        let res = Self::multi_match(
            &all_permutations,
            &base,
            &comparison,
            Ghost(templates@),
            Ghost(positions@),
        );
        proof {
            if lockers_short(positions@) {
                if res {
                    let (cc, bb) = choose|cc: int, bb: int|
                        0 <= cc < comparison.len() && 0 <= bb < base.len() && #[trigger] templates_match(
                            templates@,
                            positions@,
                            base@[bb] as int,
                            comparison@[cc] as int,
                        );
                    assert(templates_match(templates@, positions@, bb, base_count + cc));
                } else {
                    assert forall|c2: int, b2: int|
                        base_count <= c2 < templates.len() && 0 <= b2 < base_count implies !#[trigger] templates_match(
                        templates@,
                        positions@,
                        b2,
                        c2,
                    ) by {
                        assert(comparison@[c2 - base_count] == c2);
                        assert(base@[b2] == b2);
                    }
                }
            }
        }
        res
    }

    /// The last position in `available` that holds `name`.
    fn last_index_of(available: &Vec<String>, name: &String) -> (res: Option<usize>)
        ensures
            res matches Some(k) ==> k < available.len() && available@[k as int]@ == name@ && forall|i: int|
                k < i < available.len() ==> available@[i]@ != name@,
            res is None ==> forall|i: int| 0 <= i < available.len() ==> available@[i]@ != name@,
    {
        let mut i = available.len();
        while i > 0
            invariant
                i <= available.len(),
                forall|j: int| i <= j < available.len() ==> available@[j]@ != name@,
            decreases i,
        {
            if available[i - 1] == *name {
                return Some(i - 1);
            }
            i = i - 1;
        }
        None
    }

    /// The position in `available` of each wanted file name (the last one
    /// when a name occurs twice); `None` when a wanted name is missing.
    pub fn resolve_names(available: &Vec<String>, wanted: &Vec<String>) -> (res: Option<Vec<usize>>)
        ensures
            res is None <==> exists|w: int|
                0 <= w < wanted.len() && #[trigger] name_missing(available@, wanted@[w]@),
            res matches Some(v) ==> v.len() == wanted.len() && forall|w: int|
                0 <= w < wanted.len() ==> {
                    &&& #[trigger] v@[w] < available.len()
                    &&& available@[v@[w] as int]@ == wanted@[w]@
                    &&& forall|i: int|
                        v@[w] < i < available.len() ==> available@[i]@ != wanted@[w]@
                },
    {
        let mut res: Vec<usize> = Vec::new();
        let mut w: usize = 0;
        while w < wanted.len()
            invariant
                w <= wanted.len(),
                res.len() == w,
                forall|x: int|
                    0 <= x < w ==> {
                        &&& #[trigger] res@[x] < available.len()
                        &&& available@[res@[x] as int]@ == wanted@[x]@
                        &&& forall|i: int|
                            res@[x] < i < available.len() ==> available@[i]@ != wanted@[x]@
                    },
            decreases wanted.len() - w,
        {
            match Self::last_index_of(available, &wanted[w]) {
                Some(k) => res.push(k),
                None => {
                    proof {
                        assert(name_missing(available@, wanted@[w as int]@));
                    }
                    return None;
                },
            }
            w = w + 1;
        }
        proof {
            assert forall|x: int| 0 <= x < wanted.len() implies !#[trigger] name_missing(
                available@,
                wanted@[x]@,
            ) by {
                assert(available@[res@[x] as int]@ == wanted@[x]@);
            }
        }
        Some(res)
    }

    /// The total of the successes and of the comparisons over all classes;
    /// `None` when a total does not fit a `usize`.
    pub fn sum_class_results(results: &Vec<(usize, usize)>) -> (res: Option<(usize, usize)>)
        ensures
            res is Some <==> sum_firsts(results@) <= usize::MAX && sum_seconds(results@)
                <= usize::MAX,
            res matches Some(t) ==> t.0 == sum_firsts(results@) && t.1 == sum_seconds(results@),
    {
        let mut successes: usize = 0;
        let mut comparisons: usize = 0;
        let mut k: usize = 0;
        while k < results.len()
            invariant
                k <= results.len(),
                successes == sum_firsts(results@.take(k as int)),
                comparisons == sum_seconds(results@.take(k as int)),
            decreases results.len() - k,
        {
            proof {
                assert(results@.take(k + 1).drop_last() == results@.take(k as int));
            }
            let (s, c) = results[k];
            match (successes.checked_add(s), comparisons.checked_add(c)) {
                (Some(s2), Some(c2)) => {
                    successes = s2;
                    comparisons = c2;
                },
                _ => {
                    proof {
                        lemma_sums_grow(results@, k + 1);
                    }
                    return None;
                },
            }
            k = k + 1;
        }
        proof {
            assert(results@.take(results.len() as int) == results@);
        }
        Some((successes, comparisons))
    }

    /// Refuses a multi-template analysis whose base count is not below the
    /// number of tries.
    pub fn validate_multi(tries: usize, base_count: usize) -> (res: Result<(), TarError>)
        ensures
            res is Ok <==> base_count < tries,
            res matches Err(e) ==> e == TarError::BaseCountNotBelowTries,
    {
        if base_count >= tries {
            Err(TarError::BaseCountNotBelowTries)
        } else {
            Ok(())
        }
    }
}

/// Law: when no class has more successes than comparisons, the total of
/// successes is at most the total of comparisons, so the true accept rate
/// is at most one.
pub proof fn lemma_successes_at_most_comparisons(rs: Seq<(usize, usize)>)
    requires
        forall|k: int| 0 <= k < rs.len() ==> (#[trigger] rs[k]).0 <= rs[k].1,
    ensures
        sum_firsts(rs) <= sum_seconds(rs),
    decreases rs.len(),
{
    if rs.len() > 0 {
        assert forall|k: int| 0 <= k < rs.drop_last().len() implies (#[trigger] rs.drop_last()[k]).0
            <= rs.drop_last()[k].1 by {
            assert(rs.drop_last()[k] == rs[k]);
        }
        lemma_successes_at_most_comparisons(rs.drop_last());
        assert(rs.last() == rs[rs.len() - 1]);
    }
}

/// Some locker reads the same signs from both templates: `a[l]` and `b[l]`
/// are the sign vectors of locker `l`'s projections of two templates.
pub open spec fn signs_agree(a: Seq<Vec<bool>>, b: Seq<Vec<bool>>) -> bool {
    exists|l: int| 0 <= l < a.len() && l < b.len() && #[trigger] a[l]@ == #[trigger] b[l]@
}

/// How many of the template pairs `ps` have some locker that reads the same
/// signs from both.
pub open spec fn sign_matches(signs: Seq<Vec<Vec<bool>>>, ps: Seq<(usize, usize)>) -> nat
    decreases ps.len(),
{
    if ps.len() == 0 {
        0
    } else {
        sign_matches(signs, ps.drop_last()) + if signs_agree(
            signs[ps.last().0 as int]@,
            signs[ps.last().1 as int]@,
        ) {
            1nat
        } else {
            0nat
        }
    }
}

/// Law: one locker with equal sign vectors is enough. Two templates' signs
/// agree exactly when some locker `l`, below both lengths, gives them equal
/// sign vectors, whichever locker that is.
pub proof fn lemma_signs_agree_iff(a: Seq<Vec<bool>>, b: Seq<Vec<bool>>)
    ensures
        signs_agree(a, b) <==> exists|l: int|
            #![trigger a[l], b[l]]
            0 <= l < a.len() && l < b.len() && a[l]@ == b[l]@,
        forall|l: int|
            #![trigger a[l], b[l]]
            0 <= l < a.len() && l < b.len() && a[l]@ == b[l]@ ==> signs_agree(a, b),
{
    assert forall|l: int|
        #![trigger a[l], b[l]]
        0 <= l < a.len() && l < b.len() && a[l]@ == b[l]@ implies signs_agree(a, b) by {
        assert(a[l]@ == b[l]@);
    }
}

/// Law: the count of matching pairs lies between zero and the number of
/// pairs; it is the number of pairs when every pair has an agreeing
/// locker, and zero when none has.
pub proof fn lemma_sign_matches_range(signs: Seq<Vec<Vec<bool>>>, ps: Seq<(usize, usize)>)
    ensures
        sign_matches(signs, ps) <= ps.len(),
        (forall|k: int|
            0 <= k < ps.len() ==> #[trigger] signs_agree(signs[ps[k].0 as int]@, signs[ps[k].1 as int]@))
            ==> sign_matches(signs, ps) == ps.len(),
        (forall|k: int|
            0 <= k < ps.len() ==> !#[trigger] signs_agree(signs[ps[k].0 as int]@, signs[ps[k].1 as int]@))
            ==> sign_matches(signs, ps) == 0,
    decreases ps.len(),
{
    if ps.len() > 0 {
        let q = ps.drop_last();
        lemma_sign_matches_range(signs, q);
        assert(ps.last() == ps[ps.len() - 1]);
        if forall|k: int|
            0 <= k < ps.len() ==> #[trigger] signs_agree(signs[ps[k].0 as int]@, signs[ps[k].1 as int]@) {
            assert forall|k: int| 0 <= k < q.len() implies #[trigger] signs_agree(
                signs[q[k].0 as int]@,
                signs[q[k].1 as int]@,
            ) by {
                assert(q[k] == ps[k]);
                assert(signs_agree(signs[ps[k].0 as int]@, signs[ps[k].1 as int]@));
            }
            assert(signs_agree(signs[ps[ps.len() - 1].0 as int]@, signs[ps[ps.len() - 1].1 as int]@));
        }
        if forall|k: int|
            0 <= k < ps.len() ==> !#[trigger] signs_agree(signs[ps[k].0 as int]@, signs[ps[k].1 as int]@) {
            assert forall|k: int| 0 <= k < q.len() implies !#[trigger] signs_agree(
                signs[q[k].0 as int]@,
                signs[q[k].1 as int]@,
            ) by {
                assert(q[k] == ps[k]);
                assert(!signs_agree(signs[ps[k].0 as int]@, signs[ps[k].1 as int]@));
            }
            assert(!signs_agree(signs[ps[ps.len() - 1].0 as int]@, signs[ps[ps.len() - 1].1 as int]@));
        }
    }
}

proof fn lemma_sign_matches_bound(signs: Seq<Vec<Vec<bool>>>, ps: Seq<(usize, usize)>)
    ensures
        sign_matches(signs, ps) <= ps.len(),
    decreases ps.len(),
{
    if ps.len() > 0 {
        lemma_sign_matches_bound(signs, ps.drop_last());
    }
}

impl TARAnalyzer {
    /// Whether two sign vectors are equal.
    fn same_signs(a: &Vec<bool>, b: &Vec<bool>) -> (res: bool)
        ensures
            res == (a@ == b@),
    {
        if a.len() != b.len() {
            return false;
        }
        let mut k: usize = 0;
        while k < a.len()
            invariant
                k <= a.len(),
                a.len() == b.len(),
                forall|t: int| 0 <= t < k ==> a@[t] == b@[t],
            decreases a.len() - k,
        {
            if a[k] != b[k] {
                return false;
            }
            k = k + 1;
        }
        assert(a@ =~= b@);
        true
    }

    /// Whether some locker reads the same signs from both templates.
    fn signs_match(a: &Vec<Vec<bool>>, b: &Vec<Vec<bool>>) -> (res: bool)
        ensures
            res == signs_agree(a@, b@),
    {
        let mut l: usize = 0;
        while l < a.len() && l < b.len()
            invariant
                l <= a.len(),
                forall|t: int| 0 <= t < l && t < b.len() ==> a@[t]@ != b@[t]@,
            decreases a.len() - l,
        {
            if Self::same_signs(&a[l], &b[l]) {
                return true;
            }
            l = l + 1;
        }
        false
    }

    /// Compares every pair of templates of a class under cosine lockers:
    /// `signs[t][l]` is the sign vector of locker `l`'s projections of
    /// template `t`. Gives how many pairs (i, j), i < j, some locker reads
    /// the same signs from, and how many pairs there are.
    pub fn count_sign_matches(signs: &Vec<Vec<Vec<bool>>>) -> (res: (usize, usize))
        requires
            signs.len() * (signs.len() - 1) / 2 <= usize::MAX,
        ensures
            res.0 == sign_matches(signs@, ordered_pairs(signs.len() as nat)),
            res.1 == ordered_pairs(signs.len() as nat).len(),
            res.1 * 2 == signs.len() * (signs.len() - 1),
            res.0 <= res.1,
    {
        let n = signs.len();
        let ghost total = ordered_pairs(n as nat).len();
        proof {
            lemma_ordered_pairs(n as nat, 0, 0);
            assert(total <= usize::MAX) by (nonlinear_arith)
                requires
                    total * 2 == n * (n - 1),
                    n * (n - 1) / 2 <= usize::MAX,
            ;
        }
        let mut successes: usize = 0;
        let mut comparisons: usize = 0;
        let mut i: usize = 0;
        while i < n
            invariant
                i <= n,
                n == signs.len(),
                total == ordered_pairs(n as nat).len(),
                total <= usize::MAX,
                comparisons == pair_rows(i as nat, n as nat).len(),
                successes == sign_matches(signs@, pair_rows(i as nat, n as nat)),
            decreases n - i,
        {
            let mut j: usize = i + 1;
            while j < n
                invariant
                    i < n,
                    i + 1 <= j <= n,
                    n == signs.len(),
                    total == ordered_pairs(n as nat).len(),
                    total <= usize::MAX,
                    comparisons == (pair_rows(i as nat, n as nat) + pair_row(i as nat, n as nat).take(
                        j - i - 1,
                    )).len(),
                    successes == sign_matches(
                        signs@,
                        pair_rows(i as nat, n as nat) + pair_row(i as nat, n as nat).take(j - i - 1),
                    ),
                decreases n - j,
            {
                let ghost before = pair_rows(i as nat, n as nat) + pair_row(i as nat, n as nat).take(j - i - 1);
                let ghost after = pair_rows(i as nat, n as nat) + pair_row(i as nat, n as nat).take(j - i);
                proof {
                    let row = pair_row(i as nat, n as nat);
                    assert(row.take(j - i) == row.take(j - i - 1).push((i, j)));
                    assert(after == before.push((i, j)));
                    assert(after.drop_last() == before);
                    assert(pair_rows((i + 1) as nat, n as nat) == pair_rows(i as nat, n as nat) + row);
                    lemma_pair_rows_grow((i + 1) as nat, n as nat, n as nat);
                    assert(after.len() <= total);
                    lemma_sign_matches_bound(signs@, after);
                }
                if Self::signs_match(&signs[i], &signs[j]) {
                    successes = successes + 1;
                }
                comparisons = comparisons + 1;
                j = j + 1;
            }
            proof {
                let row = pair_row(i as nat, n as nat);
                assert(row.take(row.len() as int) == row);
            }
            i = i + 1;
        }
        proof {
            lemma_sign_matches_bound(signs@, pair_rows(n as nat, n as nat));
        }
        (successes, comparisons)
    }
}

/// The templates of a saved selection, as they are read back: the base
/// templates first, then the comparison templates.
pub open spec fn selection_templates(
    templates: Seq<Vec<u8>>,
    base: Seq<usize>,
    comparison: Seq<usize>,
) -> Seq<Vec<u8>> {
    Seq::new(base.len(), |k: int| templates[base[k] as int]) + Seq::new(
        comparison.len(),
        |k: int| templates[comparison[k] as int],
    )
}

/// Law: replaying a saved selection gives the same outcome. Reading the
/// base templates followed by the comparison templates and matching the
/// first `base.len()` of them against the rest (as `match_with_selection`
/// does) finds a match exactly when some base template unlocks some
/// comparison template (the outcome of `process_single_class_multi`); and
/// the lockers fit the templates read back when they fit the originals.
pub proof fn lemma_selection_replay(
    templates: Seq<Vec<u8>>,
    positions: Seq<Vec<usize>>,
    base: Seq<usize>,
    comparison: Seq<usize>,
)
    requires
        forall|k: int| 0 <= k < base.len() ==> #[trigger] base[k] < templates.len(),
        forall|k: int| 0 <= k < comparison.len() ==> #[trigger] comparison[k] < templates.len(),
    ensures
        selection_templates(templates, base, comparison).len() == base.len() + comparison.len(),
        any_base_matches(templates, positions, base, comparison) == exists|c: int, b: int|
            base.len() <= c < selection_templates(templates, base, comparison).len() && 0 <= b
                < base.len() && #[trigger] templates_match(
                selection_templates(templates, base, comparison),
                positions,
                b,
                c,
            ),
        positions_fit(templates, positions) ==> positions_fit(
            selection_templates(templates, base, comparison),
            positions,
        ),
{
    let sel = selection_templates(templates, base, comparison);
    let nb = base.len() as int;
    assert forall|b: int, c: int| 0 <= b < nb && nb <= c < sel.len() implies #[trigger] templates_match(
        sel,
        positions,
        b,
        c,
    ) == templates_match(templates, positions, base[b] as int, comparison[c - nb] as int) by {
        assert(sel[b] == templates[base[b] as int]);
        assert(sel[c] == templates[comparison[c - nb] as int]);
    }
    if any_base_matches(templates, positions, base, comparison) {
        let (c, b) = choose|c: int, b: int|
            0 <= c < comparison.len() && 0 <= b < base.len() && #[trigger] templates_match(
                templates,
                positions,
                base[b] as int,
                comparison[c] as int,
            );
        assert(templates_match(sel, positions, b, nb + c));
    }
    if exists|c: int, b: int|
        nb <= c < sel.len() && 0 <= b < nb && #[trigger] templates_match(sel, positions, b, c) {
        let (c, b) = choose|c: int, b: int|
            nb <= c < sel.len() && 0 <= b < nb && #[trigger] templates_match(sel, positions, b, c);
        assert(templates_match(templates, positions, base[b] as int, comparison[c - nb] as int));
    }
    if positions_fit(templates, positions) {
        assert forall|t: int, p: int, i: int|
            0 <= t < sel.len() && 0 <= p < positions.len() && 0 <= i < positions[p].len()
                implies #[trigger] positions[p]@[i] < #[trigger] sel[t].len() by {
            if t < nb {
                assert(sel[t] == templates[base[t] as int]);
                assert(positions[p]@[i] < templates[base[t] as int].len());
            } else {
                assert(sel[t] == templates[comparison[t - nb] as int]);
                assert(positions[p]@[i] < templates[comparison[t - nb] as int].len());
            }
        }
    }
}

/// No string of `available` is `name`.
pub open spec fn name_missing(available: Seq<String>, name: Seq<char>) -> bool {
    forall|i: int| 0 <= i < available.len() ==> #[trigger] available[i]@ != name
}

/// The sum of the first components.
pub open spec fn sum_firsts(rs: Seq<(usize, usize)>) -> nat
    decreases rs.len(),
{
    if rs.len() == 0 {
        0
    } else {
        sum_firsts(rs.drop_last()) + rs.last().0 as nat
    }
}

/// The sum of the second components.
pub open spec fn sum_seconds(rs: Seq<(usize, usize)>) -> nat
    decreases rs.len(),
{
    if rs.len() == 0 {
        0
    } else {
        sum_seconds(rs.drop_last()) + rs.last().1 as nat
    }
}

proof fn lemma_sums_grow(rs: Seq<(usize, usize)>, k: int)
    requires
        0 <= k <= rs.len(),
    ensures
        sum_firsts(rs.take(k)) <= sum_firsts(rs),
        sum_seconds(rs.take(k)) <= sum_seconds(rs),
    decreases rs.len(),
{
    if k == rs.len() {
        assert(rs.take(k) == rs);
    } else {
        assert(rs.drop_last().take(k) == rs.take(k));
        lemma_sums_grow(rs.drop_last(), k);
    }
}

} // verus!
