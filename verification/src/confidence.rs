use vstd::prelude::*;
use vstd::string::*;

use crate::rng::contains_index;
use crate::template_format::{parse_template_values, parsed_fields, template_fields};
use crate::text::{
    decimal_text, format_decimal, is_plain_token, is_white_space, join_spaced,
    lemma_ascii_utf8_len, lemma_decimal_plain, lemma_join_spaced_chars, lemma_join_spaced_push,
    lemma_split_on_first, lemma_split_on_none, lemma_trim_end, lemma_trim_start,
    lemma_words_join_spaced,
    char_index_of_byte, chars_of, contains_chars, contains_seq, find_char, first_index,
    lemma_first_index, lemma_utf8_len_grows, pieces, ranges_within, split_on, split_ranges,
    starts_with, starts_with_chars, trim, trim_range, utf8_len, word_ranges, words,
};

verus! {

/// Sets of template positions, one per locker, drawn by weight.
pub struct SmartIndices(pub Vec<Vec<usize>>);

/// How a confidence entry is turned into a sampling weight.
#[derive(Debug, Clone, Copy, PartialEq, Eq, Structural)]
pub enum SamplingMethod {
    /// predictability ** alpha
    Like,
    /// (predictability / largest unlike mass) ** alpha
    Ratio,
    /// predictability ** (alpha / min-entropy of the unlike distribution)
    Exponent,
}

impl Default for SamplingMethod {
    fn default() -> (res: SamplingMethod)
        ensures
            res == SamplingMethod::Exponent,
    {
        SamplingMethod::Exponent
    }
}

/// The method that a name selects: "like", "ratio" or "exponent", exactly.
pub open spec fn sampling_method_of_name(name: Seq<char>) -> Option<SamplingMethod> {
    if name == "like"@ {
        Some(SamplingMethod::Like)
    } else if name == "ratio"@ {
        Some(SamplingMethod::Ratio)
    } else if name == "exponent"@ {
        Some(SamplingMethod::Exponent)
    } else {
        None
    }
}

/// Chooses the sampling method from an optional name. An absent name gives
/// the default method; an unknown one gives the default too, and the second
/// component is then `true` so that the caller can warn.
pub fn parse_sampling_method(method: Option<&str>) -> (res: (SamplingMethod, bool))
    ensures
        method is None ==> res == (SamplingMethod::Exponent, false),
        method matches Some(name) ==> match sampling_method_of_name(name@) {
            Some(m) => res == (m, false),
            None => res == (SamplingMethod::Exponent, true),
        },
{
    proof {
        reveal_strlit("like");
        reveal_strlit("ratio");
        reveal_strlit("exponent");
    }
    match method {
        None => (SamplingMethod::default(), false),
        Some(name) => {
            let n = String::from_str(name);
            if n == String::from_str("like") {
                (SamplingMethod::Like, false)
            } else if n == String::from_str("ratio") {
                (SamplingMethod::Ratio, false)
            } else if n == String::from_str("exponent") {
                (SamplingMethod::Exponent, false)
            } else {
                (SamplingMethod::default(), true)
            }
        },
    }
}

/// Why a set of locker positions could not be drawn.
#[derive(Debug, Clone, Copy, PartialEq, Eq, Structural)]
pub enum GenerationError {
    /// The sampling weights do not form a distribution.
    WeightDistribution,
    /// The weighted sampler did not reach the wanted number of distinct positions.
    NonDuplicatingSubset,
    /// The uniform sampler did not reach the wanted number of distinct positions.
    NotEnoughUniqueIndices,
}

/// The most draws spent on one set of positions.
pub const MAX_ATTEMPTS: usize = 1_000_000;

impl GenerationError {
    /// The message that reports the error.
    pub fn message(&self) -> (res: String)
        ensures
            *self == GenerationError::WeightDistribution ==> res@
                == "Failed to create weight distribution"@,
            *self == GenerationError::NonDuplicatingSubset ==> res@
                == "Failed to generate non-duplicating subset"@,
            *self == GenerationError::NotEnoughUniqueIndices ==> res@
                == "Failed to generate enough unique indices after 1000000 attempts"@,
    {
        match self {
            GenerationError::WeightDistribution => String::from_str(
                "Failed to create weight distribution",
            ),
            GenerationError::NonDuplicatingSubset => String::from_str(
                "Failed to generate non-duplicating subset",
            ),
            GenerationError::NotEnoughUniqueIndices => String::from_str(
                "Failed to generate enough unique indices after 1000000 attempts",
            ),
        }
    }
}

/// `positions` with `x` added at the end, unless it is there already or
/// `positions` already holds `cap` elements.
pub open spec fn add_position(positions: Seq<usize>, x: usize, cap: nat) -> Seq<usize> {
    if !positions.contains(x) && positions.len() < cap {
        positions.push(x)
    } else {
        positions
    }
}

/// What one weighted draw of a bit pair does to the positions: the pair
/// index stands for the positions `pair_index / dimensions` and
/// `pair_index % dimensions`; a pair that touches a bad position adds
/// nothing, otherwise each of the two is added unless present (the second
/// only while room is left).
pub open spec fn positions_after_draw(
    positions: Seq<usize>,
    bad: Seq<usize>,
    size: nat,
    dimensions: nat,
    pair_index: nat,
) -> Seq<usize>
    recommends
        dimensions > 0,
{
    let i = (pair_index / dimensions) as usize;
    let j = (pair_index % dimensions) as usize;
    if bad.contains(i) || bad.contains(j) {
        positions
    } else {
        let with_i = if positions.contains(i) {
            positions
        } else {
            positions.push(i)
        };
        add_position(with_i, j, size)
    }
}

/// Law: a draw adds a position unless it is held already or no room is
/// left; it keeps every position held, in order, and adds nothing else.
pub proof fn lemma_add_position(positions: Seq<usize>, x: usize, cap: nat)
    ensures
        positions.len() < cap ==> add_position(positions, x, cap).contains(x),
        add_position(positions, x, cap).len() <= positions.len() + 1,
        positions.len() <= cap ==> add_position(positions, x, cap).len() <= cap,
        add_position(positions, x, cap).take(positions.len() as int) == positions,
        forall|y: usize|
            #[trigger] add_position(positions, x, cap).contains(y) <==> (positions.contains(y) || (y
                == x && positions.len() < cap)),
{
    let r = add_position(positions, x, cap);
    if !positions.contains(x) && positions.len() < cap {
        assert(r[positions.len() as int] == x);
        assert(r.take(positions.len() as int) =~= positions);
        assert forall|y: usize| #[trigger] r.contains(y) <==> (positions.contains(y) || (y == x
            && positions.len() < cap)) by {
            if positions.contains(y) {
                let k = choose|k: int| 0 <= k < positions.len() && positions[k] == y;
                assert(r[k] == y);
            }
            if r.contains(y) && y != x {
                let k = choose|k: int| 0 <= k < r.len() && r[k] == y;
                assert(positions[k] == y);
            }
        }
    } else {
        assert(r.take(positions.len() as int) =~= positions);
    }
}

/// Law: what one weighted draw does. A draw whose pair touches a bad
/// position changes nothing. Otherwise, while fewer than `size` positions
/// are held, the first position of the pair is held afterwards, whether or
/// not the second one was held already; the second one is held afterwards
/// when it was held before or room was left for it. Every position held
/// before stays, in order, and nothing but the two positions is added.
pub proof fn lemma_positions_after_draw(
    positions: Seq<usize>,
    bad: Seq<usize>,
    size: nat,
    dimensions: nat,
    pair_index: nat,
)
    requires
        dimensions > 0,
        pair_index <= usize::MAX,
    ensures
        ({
            let i = (pair_index / dimensions) as usize;
            let j = (pair_index % dimensions) as usize;
            let r = positions_after_draw(positions, bad, size, dimensions, pair_index);
            &&& (bad.contains(i) || bad.contains(j)) ==> r == positions
            &&& (!bad.contains(i) && !bad.contains(j) && positions.len() < size) ==> r.contains(i)
            &&& (!bad.contains(i) && !bad.contains(j) && (positions.contains(j) || positions.len() + (
            if positions.contains(i) {
                0nat
            } else {
                1nat
            }) < size)) ==> r.contains(j)
            &&& r.take(positions.len() as int) == positions
            &&& forall|y: usize| #[trigger] r.contains(y) ==> positions.contains(y) || y == i || y == j
            &&& positions.len() < size ==> r.len() <= size
        }),
{
    let i = (pair_index / dimensions) as usize;
    let j = (pair_index % dimensions) as usize;
    let r = positions_after_draw(positions, bad, size, dimensions, pair_index);
    if !bad.contains(i) && !bad.contains(j) {
        let with_i = if positions.contains(i) {
            positions
        } else {
            positions.push(i)
        };
        assert(with_i == add_position(positions, i, positions.len() + 1));
        lemma_add_position(positions, i, positions.len() + 1);
        lemma_add_position(with_i, j, size);
        assert(r == add_position(with_i, j, size));
        assert(r.take(positions.len() as int) =~= with_i.take(with_i.len() as int).take(positions.len() as int));
        assert(with_i.take(with_i.len() as int) =~= with_i);
        if positions.contains(j) {
            assert(with_i.contains(j));
        }
        if positions.len() < size {
            assert(with_i.contains(i));
        }
    }
}

/// The weighted sampler of one locker, as a state machine: the caller draws
/// bit-pair indices from the weight distribution while `wants_sample` holds
/// and hands each one to `record`; `finish` gives the positions.
pub struct SubsetBuilder {
    positions: Vec<usize>,
    bad_indices: Vec<usize>,
    size: usize,
    dimensions: usize,
    attempts: usize,
}

impl SubsetBuilder {
    #[verifier::type_invariant]
    spec fn inv(self) -> bool {
        &&& self.positions@.no_duplicates()
        &&& forall|k: int|
            0 <= k < self.positions@.len() ==> !self.bad_indices@.contains(
                #[trigger] self.positions@[k],
            )
        &&& self.positions@.len() <= self.size
        &&& self.attempts <= MAX_ATTEMPTS
    }

    /// The positions chosen so far, in the order they were added.
    pub closed spec fn positions(&self) -> Seq<usize> {
        self.positions@
    }

    /// The positions that may never be chosen.
    pub closed spec fn bad(&self) -> Seq<usize> {
        self.bad_indices@
    }

    /// How many positions a locker holds.
    pub closed spec fn size(&self) -> nat {
        self.size as nat
    }

    /// The number of template bits.
    pub closed spec fn dimensions(&self) -> nat {
        self.dimensions as nat
    }

    /// How many draws were spent.
    pub closed spec fn attempts(&self) -> nat {
        self.attempts as nat
    }

    /// What every state of the sampler keeps: the positions held are
    /// distinct, none of them is bad, there are at most `size` of them, and
    /// at most `MAX_ATTEMPTS` draws were spent.
    pub open spec fn state_ok(&self) -> bool {
        &&& self.positions().no_duplicates()
        &&& forall|k: int|
            0 <= k < self.positions().len() ==> !self.bad().contains(#[trigger] self.positions()[k])
        &&& self.positions().len() <= self.size()
        &&& self.attempts() <= MAX_ATTEMPTS
    }

    /// Whether another draw is wanted: fewer than `size` positions are held
    /// and fewer than `MAX_ATTEMPTS` draws were spent.
    pub open spec fn spec_wants_sample(&self) -> bool {
        self.positions().len() < self.size() && self.attempts() < MAX_ATTEMPTS
    }

    /// Starts a locker of `size` positions of `dimensions`-bit templates,
    /// none of them in `bad_indices`.
    pub fn new(size: usize, bad_indices: &Vec<usize>, dimensions: usize) -> (res: SubsetBuilder)
        ensures
            res.positions() == Seq::<usize>::empty(),
            res.bad() == bad_indices@,
            res.size() == size,
            res.dimensions() == dimensions,
            res.attempts() == 0,
            res.state_ok(),
    {
        SubsetBuilder {
            positions: Vec::new(),
            bad_indices: bad_indices.clone(),
            size,
            dimensions,
            attempts: 0,
        }
    }

    /// Whether another draw is wanted.
    pub fn wants_sample(&self) -> (res: bool)
        ensures
            res == self.spec_wants_sample(),
    {
        self.positions.len() < self.size && self.attempts < MAX_ATTEMPTS
    }

    /// Takes one drawn bit-pair index into account.
    pub fn record(&mut self, pair_index: usize)
        requires
            old(self).spec_wants_sample(),
            old(self).dimensions() > 0,
        ensures
            final(self).positions() == positions_after_draw(
                old(self).positions(),
                old(self).bad(),
                old(self).size(),
                old(self).dimensions(),
                pair_index as nat,
            ),
            final(self).attempts() == old(self).attempts() + 1,
            final(self).bad() == old(self).bad(),
            final(self).size() == old(self).size(),
            final(self).dimensions() == old(self).dimensions(),
            final(self).state_ok(),
    {
        proof {
            use_type_invariant(&*self);
        }
        let i = pair_index / self.dimensions;
        let j = pair_index % self.dimensions;
        let mut positions: Vec<usize> = Vec::new();
        std::mem::swap(&mut positions, &mut self.positions);
        if !contains_index(&self.bad_indices, i) && !contains_index(&self.bad_indices, j) {
            if !contains_index(&positions, i) {
                positions.push(i);
            }
            if !contains_index(&positions, j) && positions.len() < self.size {
                positions.push(j);
            }
        }
        self.positions = positions;
        self.attempts = self.attempts + 1;
        proof {
            use_type_invariant(&*self);
        }
    }

    /// The locker: `Ok` exactly when `size` positions were reached.
    pub fn finish(self) -> (res: Result<Vec<usize>, GenerationError>)
        ensures
            self.positions().len() == self.size() ==> (res matches Ok(v) && v@ == self.positions()),
            self.positions().len() != self.size() ==> res == Err::<Vec<usize>, GenerationError>(
                GenerationError::NonDuplicatingSubset,
            ),
            res matches Ok(v) ==> v@.no_duplicates() && v@.len() == self.size() && forall|k: int|
                0 <= k < v@.len() ==> !self.bad().contains(#[trigger] v@[k]),
    {
        proof {
            use_type_invariant(&self);
        }
        if self.positions.len() != self.size {
            return Err(GenerationError::NonDuplicatingSubset);
        }
        Ok(self.positions)
    }
}

/// The agreement counts of one bit pair over some comparisons of two
/// bitstrings: `count_00` when both bits agree, `count_01` when only the
/// first agrees, `count_10` when only the second agrees, `count_11` when
/// neither does.
#[derive(Debug, Clone, Copy, PartialEq, Eq, Structural)]
pub struct PairResults {
    pub count_00: usize,
    pub count_01: usize,
    pub count_10: usize,
    pub count_11: usize,
}

/// Four counts, as natural numbers.
pub type Counts = (nat, nat, nat, nat);

impl View for PairResults {
    type V = Counts;

    open spec fn view(&self) -> Counts {
        (self.count_00 as nat, self.count_01 as nat, self.count_10 as nat, self.count_11 as nat)
    }
}

/// The counts of a single comparison with the given outcome.
pub open spec fn outcome_counts(b1_same: bool, b2_same: bool) -> Counts {
    if b1_same && b2_same {
        (1, 0, 0, 0)
    } else if b1_same {
        (0, 1, 0, 0)
    } else if b2_same {
        (0, 0, 1, 0)
    } else {
        (0, 0, 0, 1)
    }
}

/// Component-wise sum of counts.
pub open spec fn add_counts(a: Counts, b: Counts) -> Counts {
    (a.0 + b.0, a.1 + b.1, a.2 + b.2, a.3 + b.3)
}

/// All four counts are zero.
pub open spec fn zero_counts() -> Counts {
    (0, 0, 0, 0)
}

/// Each count fits a `usize`.
pub open spec fn counts_fit(c: Counts) -> bool {
    c.0 <= usize::MAX && c.1 <= usize::MAX && c.2 <= usize::MAX && c.3 <= usize::MAX
}

/// The sum of the four counts.
pub open spec fn counts_total(c: Counts) -> nat {
    c.0 + c.1 + c.2 + c.3
}

impl Default for PairResults {
    fn default() -> (res: PairResults)
        ensures
            res@ == zero_counts(),
    {
        PairResults { count_00: 0, count_01: 0, count_10: 0, count_11: 0 }
    }
}

impl PairResults {
    /// Counts one comparison: whether the first bit agreed and whether the
    /// second one did.
    pub fn add_comparison(&mut self, b1_same: bool, b2_same: bool)
        requires
            counts_fit(add_counts(old(self)@, outcome_counts(b1_same, b2_same))),
        ensures
            final(self)@ == add_counts(old(self)@, outcome_counts(b1_same, b2_same)),
    {
        if b1_same && b2_same {
            self.count_00 = self.count_00 + 1;
        } else if b1_same {
            self.count_01 = self.count_01 + 1;
        } else if b2_same {
            self.count_10 = self.count_10 + 1;
        } else {
            self.count_11 = self.count_11 + 1;
        }
    }

    /// Adds the counts of `other`.
    pub fn merge(&mut self, other: &PairResults)
        requires
            counts_fit(add_counts(old(self)@, other@)),
        ensures
            final(self)@ == add_counts(old(self)@, other@),
    {
        self.count_00 = self.count_00 + other.count_00;
        self.count_01 = self.count_01 + other.count_01;
        self.count_10 = self.count_10 + other.count_10;
        self.count_11 = self.count_11 + other.count_11;
    }
}

/// Counting a comparison raises the total by exactly one.
pub proof fn lemma_add_comparison_total(c: Counts, b1_same: bool, b2_same: bool)
    ensures
        counts_total(add_counts(c, outcome_counts(b1_same, b2_same))) == counts_total(c) + 1,
{
}

/// Row `i` of the ordered pairs below `n`: (i, i+1), ..., (i, n-1).
pub open spec fn pair_row(i: nat, n: nat) -> Seq<(usize, usize)> {
    Seq::new(
        if i + 1 < n {
            (n - i - 1) as nat
        } else {
            0
        },
        |k: int| (i as usize, (i + 1 + k) as usize),
    )
}

/// Rows `0..i` of the ordered pairs below `n`, one after the other.
pub open spec fn pair_rows(i: nat, n: nat) -> Seq<(usize, usize)>
    decreases i,
{
    if i == 0 {
        Seq::empty()
    } else {
        pair_rows((i - 1) as nat, n) + pair_row((i - 1) as nat, n)
    }
}

/// Every pair (i, j) with i < j < n, in lexicographic order.
pub open spec fn ordered_pairs(n: nat) -> Seq<(usize, usize)> {
    pair_rows(n, n)
}

proof fn lemma_pair_rows_len(i: nat, n: nat)
    requires
        i <= n,
    ensures
        pair_rows(i, n).len() * 2 == i * (2 * n - i - 1),
    decreases i,
{
    if i > 0 {
        lemma_pair_rows_len((i - 1) as nat, n);
        let l = pair_rows((i - 1) as nat, n).len();
        assert(l * 2 == (i - 1) * (2 * n - (i - 1) - 1));
        assert(pair_row((i - 1) as nat, n).len() == n - i);
        assert((i - 1) * (2 * n - (i - 1) - 1) + 2 * (n - i) == i * (2 * n - i - 1))
            by (nonlinear_arith)
            requires
                i >= 1,
                i <= n,
        ;
        assert(pair_rows(i, n) == pair_rows((i - 1) as nat, n) + pair_row((i - 1) as nat, n));
        assert(pair_rows(i, n).len() == l + (n - i));
    } else {
        assert(i * (2 * n - i - 1) == 0) by (nonlinear_arith)
            requires
                i == 0,
        ;
    }
}

/// Later rows only add pairs: the first `i` rows are no longer than the
/// first `m`, for `i <= m`.
pub proof fn lemma_pair_rows_grow(i: nat, m: nat, n: nat)
    requires
        i <= m,
    ensures
        pair_rows(i, n).len() <= pair_rows(m, n).len(),
    decreases m - i,
{
    if i < m {
        lemma_pair_rows_grow(i, (m - 1) as nat, n);
        assert(pair_rows(m, n) == pair_rows((m - 1) as nat, n) + pair_row((m - 1) as nat, n));
    }
}

proof fn lemma_pair_rows_contains(i: nat, n: nat, a: usize, b: usize)
    requires
        i <= n,
        n <= usize::MAX,
    ensures
        pair_rows(i, n).contains((a, b)) <==> (a < i && a < b && b < n),
    decreases i,
{
    if i > 0 {
        lemma_pair_rows_contains((i - 1) as nat, n, a, b);
        let prev = pair_rows((i - 1) as nat, n);
        let row = pair_row((i - 1) as nat, n);
        if a == i - 1 && a < b && b < n {
            let k = b - a - 1;
            assert(row[k] == (a, b));
            assert((prev + row)[prev.len() + k] == (a, b));
        }
        assert(pair_rows(i, n) == prev + row);
        if prev.contains((a, b)) {
            let t = choose|t: int| 0 <= t < prev.len() && prev[t] == (a, b);
            assert((prev + row)[t] == (a, b));
        }
        if pair_rows(i, n).contains((a, b)) {
            let t = choose|t: int| 0 <= t < (prev + row).len() && (prev + row)[t] == (a, b);
            if t >= prev.len() {
                assert(row[t - prev.len()] == (a, b));
            } else {
                assert(prev[t] == (a, b));
            }
        }
    }
}

/// Law: the bit pairs of `n` positions are exactly the pairs i < j < n,
/// and there are n(n-1)/2 of them.
pub proof fn lemma_ordered_pairs(n: nat, a: usize, b: usize)
    requires
        n <= usize::MAX,
    ensures
        ordered_pairs(n).len() * 2 == n * (n - 1),
        ordered_pairs(n).contains((a, b)) <==> (a < b && b < n),
{
    lemma_pair_rows_len(n, n);
    lemma_pair_rows_contains(n, n, a, b);
    assert(n * (2 * n - n - 1) == n * (n - 1)) by (nonlinear_arith);
}

/// `p` comes before `q` in lexicographic order.
pub open spec fn pair_before(p: (usize, usize), q: (usize, usize)) -> bool {
    p.0 < q.0 || (p.0 == q.0 && p.1 < q.1)
}

proof fn lemma_pair_rows_sorted(i: nat, n: nat)
    requires
        i <= n,
        n <= usize::MAX,
    ensures
        forall|k1: int, k2: int|
            0 <= k1 < k2 < pair_rows(i, n).len() ==> pair_before(
                #[trigger] pair_rows(i, n)[k1],
                #[trigger] pair_rows(i, n)[k2],
            ),
        forall|k: int| 0 <= k < pair_rows(i, n).len() ==> (#[trigger] pair_rows(i, n)[k]).0 < i,
    decreases i,
{
    if i > 0 {
        let prev = pair_rows((i - 1) as nat, n);
        let row = pair_row((i - 1) as nat, n);
        lemma_pair_rows_sorted((i - 1) as nat, n);
        let all = pair_rows(i, n);
        assert(all == prev + row);
        assert forall|k: int| 0 <= k < all.len() implies (#[trigger] all[k]).0 < i by {
            if k >= prev.len() {
                assert(all[k] == row[k - prev.len()]);
            } else {
                assert(all[k] == prev[k]);
            }
        }
        assert forall|k1: int, k2: int| 0 <= k1 < k2 < all.len() implies pair_before(
            #[trigger] all[k1],
            #[trigger] all[k2],
        ) by {
            if k2 < prev.len() {
                assert(all[k1] == prev[k1] && all[k2] == prev[k2]);
            } else if k1 < prev.len() {
                assert(all[k1] == prev[k1]);
                assert(all[k2] == row[k2 - prev.len()]);
                assert(prev[k1].0 < i - 1);
            } else {
                assert(all[k1] == row[k1 - prev.len()]);
                assert(all[k2] == row[k2 - prev.len()]);
            }
        }
    }
}

/// Law: the bit pairs come in strictly increasing lexicographic order, so
/// none occurs twice.
pub proof fn lemma_ordered_pairs_sorted(n: nat)
    requires
        n <= usize::MAX,
    ensures
        forall|k1: int, k2: int|
            0 <= k1 < k2 < ordered_pairs(n).len() ==> pair_before(
                #[trigger] ordered_pairs(n)[k1],
                #[trigger] ordered_pairs(n)[k2],
            ),
        ordered_pairs(n).no_duplicates(),
{
    lemma_pair_rows_sorted(n, n);
    let ps = ordered_pairs(n);
    assert forall|k1: int, k2: int| 0 <= k1 < ps.len() && 0 <= k2 < ps.len() && k1 != k2 implies ps[k1]
        != ps[k2] by {
        if k1 < k2 {
            assert(pair_before(ps[k1], ps[k2]));
        } else {
            assert(pair_before(ps[k2], ps[k1]));
        }
    }
}

/// The ordered pairs below `n`, built row by row.
fn build_ordered_pairs(n: usize, capacity: usize) -> (res: Vec<(usize, usize)>)
    ensures
        res@ == ordered_pairs(n as nat),
{
    let mut pairs: Vec<(usize, usize)> = Vec::with_capacity(capacity);
    let mut i: usize = 0;
    while i < n
        invariant
            i <= n,
            pairs@ == pair_rows(i as nat, n as nat),
        decreases n - i,
    {
        let mut j: usize = i + 1;
        while j < n
            invariant
                i < n,
                i + 1 <= j <= n,
                pairs@ == pair_rows(i as nat, n as nat) + pair_row(i as nat, n as nat).take(
                    j - i - 1,
                ),
            decreases n - j,
        {
            proof {
                let row = pair_row(i as nat, n as nat);
                assert(row.take(j - i) == row.take(j - i - 1).push((i, j)));
            }
            pairs.push((i, j));
            j = j + 1;
        }
        proof {
            let row = pair_row(i as nat, n as nat);
            assert(row.take(row.len() as int) == row);
        }
        i = i + 1;
    }
    pairs
}

/// All pairs of bit positions (i, j) with i < j < dimensions, in
/// lexicographic order.
pub fn generate_bit_pairs(dimensions: usize) -> (res: Vec<(usize, usize)>)
    requires
        dimensions >= 1,
        dimensions * (dimensions - 1) <= usize::MAX,
    ensures
        res@ == ordered_pairs(dimensions as nat),
{
    build_ordered_pairs(dimensions, dimensions * (dimensions - 1) / 2)
}

/// The folder pairs of different classes: (i, j) for i < j < n.
pub fn diff_class_pairs(n: usize) -> (res: Vec<(usize, usize)>)
    ensures
        res@ == ordered_pairs(n as nat),
{
    build_ordered_pairs(n, 0)
}

/// The folder pairs of one class: (i, i) for i < n.
pub fn same_class_pairs(n: usize) -> (res: Vec<(usize, usize)>)
    ensures
        res.len() == n,
        forall|i: int| 0 <= i < n ==> #[trigger] res@[i] == (i as usize, i as usize),
{
    let mut pairs: Vec<(usize, usize)> = Vec::new();
    let mut i: usize = 0;
    while i < n
        invariant
            i <= n,
            pairs.len() == i,
            forall|k: int| 0 <= k < i ==> #[trigger] pairs@[k] == (k as usize, k as usize),
        decreases n - i,
    {
        pairs.push((i, i));
        i = i + 1;
    }
    pairs
}

#[verifier::external_type_specification]
#[verifier::external_body]
pub struct ExPathBuf(std::path::PathBuf);

/// Compares bitstrings of the templates in a directory of classes, one
/// subdirectory per class, to find how bits and bit pairs agree within a
/// class and across classes.
pub struct CorrelationAnalyzer {
    base_path: std::path::PathBuf,
    num_files: usize,
    dimensions: usize,
}

/// The length both bitstrings of a comparison have.
pub open spec fn common_len(a: Seq<u8>, b: Seq<u8>) -> nat {
    if a.len() < b.len() {
        a.len()
    } else {
        b.len()
    }
}

/// The bitstrings of a comparison differ at position `k`.
pub open spec fn differs_at(a: Seq<u8>, b: Seq<u8>, k: int) -> bool {
    0 <= k < common_len(a, b) && a[k] != b[k]
}

/// The counts that comparing two bitstrings adds for the bit pair `p`: one
/// outcome when both positions lie within the common length, none otherwise.
pub open spec fn pair_outcome(a: Seq<u8>, b: Seq<u8>, p: (usize, usize)) -> Counts {
    if p.0 >= common_len(a, b) || p.1 >= common_len(a, b) {
        zero_counts()
    } else {
        outcome_counts(a[p.0 as int] == b[p.0 as int], a[p.1 as int] == b[p.1 as int])
    }
}

/// How many of the comparisons differ at position `k`.
pub open spec fn count_differences(cs: Seq<(Vec<u8>, Vec<u8>)>, k: int) -> nat
    decreases cs.len(),
{
    if cs.len() == 0 {
        0
    } else {
        count_differences(cs.drop_last(), k) + if differs_at(cs.last().0@, cs.last().1@, k) {
            1nat
        } else {
            0nat
        }
    }
}

/// The counts of bit pair `p` summed over the comparisons.
pub open spec fn pair_tally(cs: Seq<(Vec<u8>, Vec<u8>)>, p: (usize, usize)) -> Counts
    decreases cs.len(),
{
    if cs.len() == 0 {
        zero_counts()
    } else {
        add_counts(pair_tally(cs.drop_last(), p), pair_outcome(cs.last().0@, cs.last().1@, p))
    }
}

/// The common length of the first comparison whose common length is not
/// zero (zero when there is none): the number of single-bit positions a
/// tally keeps.
pub open spec fn leading_len(cs: Seq<(Vec<u8>, Vec<u8>)>) -> nat
    decreases cs.len(),
{
    if cs.len() == 0 {
        0
    } else if leading_len(cs.drop_last()) > 0 {
        leading_len(cs.drop_last())
    } else {
        common_len(cs.last().0@, cs.last().1@)
    }
}

/// How many of the comparisons cover both positions of the bit pair `p`.
pub open spec fn covering_comparisons(cs: Seq<(Vec<u8>, Vec<u8>)>, p: (usize, usize)) -> nat
    decreases cs.len(),
{
    if cs.len() == 0 {
        0
    } else {
        covering_comparisons(cs.drop_last(), p) + if p.0 < common_len(cs.last().0@, cs.last().1@)
            && p.1 < common_len(cs.last().0@, cs.last().1@) {
            1nat
        } else {
            0nat
        }
    }
}

/// Law: the four counts of a bit pair add up to the number of comparisons
/// that cover both of its positions; each such comparison is counted
/// exactly once.
pub proof fn lemma_pair_tally_total(cs: Seq<(Vec<u8>, Vec<u8>)>, p: (usize, usize))
    ensures
        counts_total(pair_tally(cs, p)) == covering_comparisons(cs, p),
    decreases cs.len(),
{
    if cs.len() > 0 {
        lemma_pair_tally_total(cs.drop_last(), p);
    }
}

/// Bit-level results of comparing the bitstrings of two folders.
pub struct ComparisonTally {
    /// For each bit position, in how many comparisons the bit differed.
    pub differences: Vec<usize>,
    /// For each bit pair, the agreement counts over the comparisons.
    pub pair_results: Vec<PairResults>,
    /// The number of comparisons.
    pub comparisons: usize,
}

proof fn lemma_no_leading_len(cs: Seq<(Vec<u8>, Vec<u8>)>, k: int, p: (usize, usize))
    requires
        leading_len(cs) == 0,
    ensures
        count_differences(cs, k) == 0,
        pair_tally(cs, p) == zero_counts(),
    decreases cs.len(),
{
    if cs.len() > 0 {
        lemma_no_leading_len(cs.drop_last(), k, p);
    }
}

proof fn lemma_tally_bounds(cs: Seq<(Vec<u8>, Vec<u8>)>, k: int, p: (usize, usize))
    ensures
        count_differences(cs, k) <= cs.len(),
        pair_tally(cs, p).0 <= cs.len(),
        pair_tally(cs, p).1 <= cs.len(),
        pair_tally(cs, p).2 <= cs.len(),
        pair_tally(cs, p).3 <= cs.len(),
    decreases cs.len(),
{
    if cs.len() > 0 {
        lemma_tally_bounds(cs.drop_last(), k, p);
    }
}

impl CorrelationAnalyzer {
    /// An analyzer of the class folders under `base_path`, drawing
    /// `num_files` files per folder, for templates of `dimensions` bits.
    pub fn new(base_path: std::path::PathBuf, num_files: usize, dimensions: usize) -> (res:
        CorrelationAnalyzer)
        ensures
            res.spec_base_path() == base_path,
            res.num_files() == num_files,
            res.dimensions() == dimensions,
    {
        CorrelationAnalyzer { base_path, num_files, dimensions }
    }

    /// The directory of class folders.
    pub closed spec fn spec_base_path(&self) -> std::path::PathBuf {
        self.base_path
    }

    /// The number of files drawn per folder.
    pub closed spec fn spec_num_files(&self) -> usize {
        self.num_files
    }

    /// The number of template bits.
    pub closed spec fn spec_dimensions(&self) -> usize {
        self.dimensions
    }

    /// The bits of a bitstring file, skipping the fields that do not parse.
    pub fn parse_bitstring(content: &str) -> (res: Vec<u8>)
        ensures
            res@ == parsed_fields(template_fields(content.spec_bytes())),
    {
        parse_template_values(content)
    }

    /// The directory of class folders.
    pub fn base_path(&self) -> (res: &std::path::PathBuf)
        ensures
            *res == self.spec_base_path(),
    {
        &self.base_path
    }

    /// The number of files drawn per folder.
    #[verifier::when_used_as_spec(spec_num_files)]
    pub fn num_files(&self) -> (res: usize)
        ensures
            res == self.spec_num_files(),
    {
        self.num_files
    }

    /// The number of template bits.
    #[verifier::when_used_as_spec(spec_dimensions)]
    pub fn dimensions(&self) -> (res: usize)
        ensures
            res == self.spec_dimensions(),
    {
        self.dimensions
    }

    /// For each position of the common length, whether the bitstrings differ.
    pub fn process_pair_single_bits(bitstring1: &[u8], bitstring2: &[u8]) -> (res: Vec<bool>)
        ensures
            res.len() == common_len(bitstring1@, bitstring2@),
            forall|k: int| 0 <= k < res.len() ==> #[trigger] res@[k] == (bitstring1@[k] != bitstring2@[k]),
    {
        let len = if bitstring1.len() < bitstring2.len() {
            bitstring1.len()
        } else {
            bitstring2.len()
        };
        let mut res: Vec<bool> = Vec::new();
        let mut k: usize = 0;
        while k < len
            invariant
                k <= len,
                len == common_len(bitstring1@, bitstring2@),
                res.len() == k,
                forall|t: int| 0 <= t < k ==> #[trigger] res@[t] == (bitstring1@[t] != bitstring2@[t]),
            decreases len - k,
        {
            res.push(bitstring1[k] != bitstring2[k]);
            k = k + 1;
        }
        res
    }

    /// For each bit pair, the counts that comparing the two bitstrings adds.
    pub fn process_pair_bit_pairs(
        bitstring1: &[u8],
        bitstring2: &[u8],
        pairs: &[(usize, usize)],
    ) -> (res: Vec<PairResults>)
        ensures
            res.len() == pairs.len(),
            forall|idx: int|
                0 <= idx < pairs.len() ==> #[trigger] res@[idx]@ == pair_outcome(
                    bitstring1@,
                    bitstring2@,
                    pairs@[idx],
                ),
    {
        let len = if bitstring1.len() < bitstring2.len() {
            bitstring1.len()
        } else {
            bitstring2.len()
        };
        let mut results: Vec<PairResults> = Vec::new();
        let mut idx: usize = 0;
        while idx < pairs.len()
            invariant
                idx <= pairs.len(),
                len == common_len(bitstring1@, bitstring2@),
                results.len() == idx,
                forall|t: int|
                    0 <= t < idx ==> #[trigger] results@[t]@ == pair_outcome(
                        bitstring1@,
                        bitstring2@,
                        pairs@[t],
                    ),
            decreases pairs.len() - idx,
        {
            let (pos1, pos2) = pairs[idx];
            let mut r = PairResults::default();
            if !(pos1 >= len || pos2 >= len) {
                let str1_first = bitstring1[pos1];
                let str1_second = bitstring1[pos2];
                let str2_first = bitstring2[pos1];
                let str2_second = bitstring2[pos2];
                r.add_comparison(str1_first == str2_first, str1_second == str2_second);
            }
            results.push(r);
            idx = idx + 1;
        }
        results
    }

    /// Tallies the comparisons of the bitstrings of two folders, in order.
    /// The single-bit counts keep the common length of the first comparison
    /// whose common length is not zero; the pair counts cover every pair
    /// once a comparison was made.
    pub fn tally_comparisons(
        comparisons: &Vec<(Vec<u8>, Vec<u8>)>,
        pairs: &[(usize, usize)],
    ) -> (res: ComparisonTally)
        ensures
            res.comparisons == comparisons.len(),
            res.differences.len() == leading_len(comparisons@),
            forall|k: int|
                0 <= k < res.differences.len() ==> #[trigger] res.differences@[k]
                    == count_differences(comparisons@, k),
            comparisons.len() == 0 ==> res.pair_results.len() == 0,
            comparisons.len() > 0 ==> res.pair_results.len() == pairs.len(),
            forall|idx: int|
                0 <= idx < res.pair_results.len() ==> #[trigger] res.pair_results@[idx]@
                    == pair_tally(comparisons@, pairs@[idx]),
    {
        let n = comparisons.len();
        let mut differences: Vec<usize> = Vec::new();
        let mut pair_results: Vec<PairResults> = Vec::new();
        let mut count: usize = 0;
        while count < n
            invariant
                count <= n,
                n == comparisons.len(),
                differences.len() == leading_len(comparisons@.take(count as int)),
                forall|k: int|
                    0 <= k < differences.len() ==> #[trigger] differences@[k] == count_differences(
                        comparisons@.take(count as int),
                        k,
                    ),
                count == 0 ==> pair_results.len() == 0,
                count > 0 ==> pair_results.len() == pairs.len(),
                forall|idx: int|
                    0 <= idx < pair_results.len() ==> #[trigger] pair_results@[idx]@ == pair_tally(
                        comparisons@.take(count as int),
                        pairs@[idx],
                    ),
            decreases n - count,
        {
            let ghost prefix = comparisons@.take(count as int);
            let ghost next = comparisons@.take(count + 1);
            proof {
                assert(next.drop_last() == prefix);
                assert(next.last() == comparisons@[count as int]);
            }
            let a = &comparisons[count].0;
            let b = &comparisons[count].1;
            if differences.len() == 0 {
                let len = if a.len() < b.len() {
                    a.len()
                } else {
                    b.len()
                };
                differences = zeros(len);
                pair_results = default_results(pairs.len());
                proof {
                    assert forall|k: int| 0 <= k < differences.len() implies #[trigger] differences@[k]
                        == count_differences(prefix, k) by {
                        lemma_no_leading_len(prefix, k, (0usize, 0usize));
                    }
                    assert forall|idx: int| 0 <= idx < pair_results.len() implies #[trigger] pair_results@[idx]@
                        == pair_tally(prefix, pairs@[idx]) by {
                        lemma_no_leading_len(prefix, 0, pairs@[idx]);
                    }
                }
            }
            let single = Self::process_pair_single_bits(a.as_slice(), b.as_slice());
            let pair = Self::process_pair_bit_pairs(a.as_slice(), b.as_slice(), pairs);
            proof {
                assert forall|k: int| 0 <= k < differences.len() implies #[trigger] differences@[k]
                    <= count by {
                    lemma_tally_bounds(prefix, k, (0usize, 0usize));
                }
                assert forall|idx: int| 0 <= idx < pair_results.len() implies (#[trigger] pair_results@[idx]).count_00 <= count
                    && pair_results@[idx].count_01 <= count && pair_results@[idx].count_10 <= count
                    && pair_results@[idx].count_11 <= count by {
                    assert(pair_results.len() == pairs.len());
                    assert(pair_results@[idx]@ == pair_tally(prefix, pairs@[idx]));
                    lemma_tally_bounds(prefix, 0, pairs@[idx]);
                }
                assert forall|idx: int| 0 <= idx < pair.len() implies counts_total(#[trigger] pair@[idx]@) <= 1 by {
                    let c = pair_outcome(a@, b@, pairs@[idx]);
                    assert(pair@[idx]@ == c);
                }
            }
            differences = add_differences(&differences, &single, Ghost(count));
            pair_results = add_pair_results(&pair_results, &pair, Ghost(count));
            proof {
                assert forall|k: int| 0 <= k < differences.len() implies #[trigger] differences@[k]
                    == count_differences(next, k) by {
                    assert(count_differences(next, k) == count_differences(prefix, k) + if differs_at(
                        a@,
                        b@,
                        k,
                    ) {
                        1nat
                    } else {
                        0nat
                    });
                }
                assert forall|idx: int| 0 <= idx < pair_results.len() implies #[trigger] pair_results@[idx]@
                    == pair_tally(next, pairs@[idx]) by {
                    assert(pair_tally(next, pairs@[idx]) == add_counts(
                        pair_tally(prefix, pairs@[idx]),
                        pair_outcome(a@, b@, pairs@[idx]),
                    ));
                }
            }
            count = count + 1;
        }
        proof {
            assert(comparisons@.take(n as int) == comparisons@);
        }
        ComparisonTally { differences, pair_results, comparisons: count }
    }
}

/// `n` zeros.
fn zeros(n: usize) -> (res: Vec<usize>)
    ensures
        res.len() == n,
        forall|k: int| 0 <= k < n ==> #[trigger] res@[k] == 0,
{
    let mut res: Vec<usize> = Vec::new();
    let mut k: usize = 0;
    while k < n
        invariant
            k <= n,
            res.len() == k,
            forall|t: int| 0 <= t < k ==> #[trigger] res@[t] == 0,
        decreases n - k,
    {
        res.push(0);
        k = k + 1;
    }
    res
}

/// `n` empty pair results.
fn default_results(n: usize) -> (res: Vec<PairResults>)
    ensures
        res.len() == n,
        forall|k: int| 0 <= k < n ==> #[trigger] res@[k]@ == zero_counts(),
{
    let mut res: Vec<PairResults> = Vec::new();
    let mut k: usize = 0;
    while k < n
        invariant
            k <= n,
            res.len() == k,
            forall|t: int| 0 <= t < k ==> #[trigger] res@[t]@ == zero_counts(),
        decreases n - k,
    {
        res.push(PairResults::default());
        k = k + 1;
    }
    res
}

/// Adds one to each count whose position differs, as far as both lists go.
fn add_differences(totals: &Vec<usize>, single: &Vec<bool>, Ghost(bound): Ghost<usize>) -> (res:
    Vec<usize>)
    requires
        forall|k: int| 0 <= k < totals.len() ==> #[trigger] totals@[k] <= bound,
        bound < usize::MAX,
    ensures
        res.len() == totals.len(),
        forall|k: int|
            0 <= k < totals.len() ==> #[trigger] res@[k] == totals@[k] + if k < single.len()
                && single@[k] {
                1nat
            } else {
                0nat
            },
{
    let mut res: Vec<usize> = Vec::new();
    let mut k: usize = 0;
    while k < totals.len()
        invariant
            k <= totals.len(),
            res.len() == k,
            bound < usize::MAX,
            forall|t: int| 0 <= t < totals.len() ==> #[trigger] totals@[t] <= bound,
            forall|t: int|
                0 <= t < k ==> #[trigger] res@[t] == totals@[t] + if t < single.len()
                    && single@[t] {
                    1nat
                } else {
                    0nat
                },
        decreases totals.len() - k,
    {
        if k < single.len() && single[k] {
            res.push(totals[k] + 1);
        } else {
            res.push(totals[k]);
        }
        k = k + 1;
    }
    res
}

/// Adds the counts of `more` to those of `totals`, as far as both lists go.
fn add_pair_results(
    totals: &Vec<PairResults>,
    more: &Vec<PairResults>,
    Ghost(bound): Ghost<usize>,
) -> (res: Vec<PairResults>)
    requires
        forall|k: int|
            0 <= k < totals.len() ==> (#[trigger] totals@[k]).count_00 <= bound
                && totals@[k].count_01 <= bound && totals@[k].count_10 <= bound
                && totals@[k].count_11 <= bound,
        forall|k: int|
            0 <= k < more.len() ==> counts_total(#[trigger] more@[k]@) <= 1,
        bound < usize::MAX,
    ensures
        res.len() == totals.len(),
        forall|k: int|
            0 <= k < totals.len() ==> #[trigger] res@[k]@ == if k < more.len() {
                add_counts(totals@[k]@, more@[k]@)
            } else {
                totals@[k]@
            },
{
    let mut res: Vec<PairResults> = Vec::new();
    let mut k: usize = 0;
    while k < totals.len()
        invariant
            k <= totals.len(),
            res.len() == k,
            bound < usize::MAX,
            forall|t: int|
                0 <= t < totals.len() ==> (#[trigger] totals@[t]).count_00 <= bound
                    && totals@[t].count_01 <= bound && totals@[t].count_10 <= bound
                    && totals@[t].count_11 <= bound,
            forall|t: int| 0 <= t < more.len() ==> counts_total(#[trigger] more@[t]@) <= 1,
            forall|t: int|
                0 <= t < k ==> #[trigger] res@[t]@ == if t < more.len() {
                    add_counts(totals@[t]@, more@[t]@)
                } else {
                    totals@[t]@
                },
        decreases totals.len() - k,
    {
        let mut r = totals[k];
        if k < more.len() {
            assert(counts_total(more@[k as int]@) <= 1);
            r.merge(&more[k]);
        }
        res.push(r);
        k = k + 1;
    }
    res
}

/// The counts of bit pair `idx` summed over all results.
pub open spec fn column_sum(results: Seq<Vec<PairResults>>, idx: int) -> Counts
    decreases results.len(),
{
    if results.len() == 0 {
        zero_counts()
    } else {
        add_counts(column_sum(results.drop_last(), idx), results.last()@[idx]@)
    }
}

/// Every result covers the first `pair_len` bit pairs.
pub open spec fn results_cover(results: Seq<Vec<PairResults>>, pair_len: nat) -> bool {
    forall|r: int| 0 <= r < results.len() ==> #[trigger] results[r].len() >= pair_len
}

/// The sums of the first `pair_len` columns all fit a `usize`.
pub open spec fn column_sums_fit(results: Seq<Vec<PairResults>>, pair_len: nat) -> bool {
    forall|idx: int| 0 <= idx < pair_len ==> counts_fit(#[trigger] column_sum(results, idx))
}

proof fn lemma_column_sum_monotone(results: Seq<Vec<PairResults>>, r: int, idx: int)
    requires
        0 <= r <= results.len(),
    ensures
        column_sum(results.take(r), idx).0 <= column_sum(results, idx).0,
        column_sum(results.take(r), idx).1 <= column_sum(results, idx).1,
        column_sum(results.take(r), idx).2 <= column_sum(results, idx).2,
        column_sum(results.take(r), idx).3 <= column_sum(results, idx).3,
    decreases results.len(),
{
    if r == results.len() {
        assert(results.take(r) == results);
    } else {
        assert(results.drop_last().take(r) == results.take(r));
        lemma_column_sum_monotone(results.drop_last(), r, idx);
    }
}

impl PairResults {
    /// The sum of two count sets, or `None` when a count would overflow.
    pub fn checked_sum(&self, other: &PairResults) -> (res: Option<PairResults>)
        ensures
            res matches Some(r) ==> r@ == add_counts(self@, other@),
            res is None <==> !counts_fit(add_counts(self@, other@)),
    {
        match (
            self.count_00.checked_add(other.count_00),
            self.count_01.checked_add(other.count_01),
            self.count_10.checked_add(other.count_10),
            self.count_11.checked_add(other.count_11),
        ) {
            (Some(c00), Some(c01), Some(c10), Some(c11)) => Some(
                PairResults { count_00: c00, count_01: c01, count_10: c10, count_11: c11 },
            ),
            _ => None,
        }
    }
}

/// Sums the per-pair counts of several folder comparisons, bit pair by bit
/// pair. `None` when some result lacks one of the first `pair_len` pairs or
/// a sum does not fit a `usize`.
pub fn sum_pair_results(results: &Vec<Vec<PairResults>>, pair_len: usize) -> (res: Option<
    Vec<PairResults>,
>)
    ensures
        res is Some <==> results_cover(results@, pair_len as nat) && column_sums_fit(
            results@,
            pair_len as nat,
        ),
        res matches Some(v) ==> v.len() == pair_len && forall|idx: int|
            0 <= idx < pair_len ==> #[trigger] v@[idx]@ == column_sum(results@, idx),
{
    let mut r: usize = 0;
    while r < results.len()
        invariant
            r <= results.len(),
            results_cover(results@.take(r as int), pair_len as nat),
        decreases results.len() - r,
    {
        if results[r].len() < pair_len {
            return None;
        }
        proof {
            assert forall|t: int| 0 <= t < r + 1 implies #[trigger] results@.take(r + 1)[t].len()
                >= pair_len by {
                if t < r {
                    assert(results@.take(r + 1)[t] == results@.take(r as int)[t]);
                }
            }
        }
        r = r + 1;
    }
    proof {
        assert(results@.take(results.len() as int) == results@);
    }
    let mut sums: Vec<PairResults> = Vec::new();
    let mut idx: usize = 0;
    while idx < pair_len
        invariant
            idx <= pair_len,
            results_cover(results@, pair_len as nat),
            sums.len() == idx,
            forall|t: int| 0 <= t < idx ==> #[trigger] sums@[t]@ == column_sum(results@, t),
            forall|t: int| 0 <= t < idx ==> counts_fit(#[trigger] column_sum(results@, t)),
        decreases pair_len - idx,
    {
        let mut total = PairResults::default();
        let mut r: usize = 0;
        while r < results.len()
            invariant
                idx < pair_len,
                r <= results.len(),
                results_cover(results@, pair_len as nat),
                total@ == column_sum(results@.take(r as int), idx as int),
            decreases results.len() - r,
        {
            proof {
                assert(results@.take(r + 1).drop_last() == results@.take(r as int));
                assert(results@[r as int].len() >= pair_len);
            }
            match total.checked_sum(&results[r][idx]) {
                Some(t) => {
                    total = t;
                },
                None => {
                    proof {
                        lemma_column_sum_monotone(results@, r + 1, idx as int);
                    }
                    return None;
                },
            }
            r = r + 1;
        }
        proof {
            assert(results@.take(results.len() as int) == results@);
        }
        sums.push(total);
        idx = idx + 1;
    }
    Some(sums)
}

/// The prefix of every data line of a confidence file.
pub open spec fn data_prefix() -> Seq<char> {
    "Hamming distance"@
}

/// The marker of a single-bit line.
pub open spec fn single_marker() -> Seq<char> {
    "Like/Unlike/Difference"@
}

/// Where the values of a single-bit line begin, in bytes.
pub const SINGLE_VALUES_OFFSET: usize = 42;

/// The number of characters that make up the first `SINGLE_VALUES_OFFSET`
/// bytes of `s`.
pub open spec fn values_start(s: Seq<char>) -> int {
    choose|k: int| 0 <= k <= s.len() && utf8_len(s.take(k)) == SINGLE_VALUES_OFFSET
}

/// The line is a single-bit line: it begins with the data prefix, has no
/// opening parenthesis and holds the single-bit marker.
pub open spec fn is_single_line(s: Seq<char>) -> bool {
    starts_with(s, data_prefix()) && !s.contains('(') && contains_seq(s, single_marker())
}

/// What reading a confidence line needs: a single-bit line is cut after its
/// first `SINGLE_VALUES_OFFSET` bytes, which must end on a character.
pub open spec fn line_can_be_read(s: Seq<char>) -> bool {
    is_single_line(s) ==> exists|k: int|
        0 <= k <= s.len() && #[trigger] utf8_len(s.take(k)) == SINGLE_VALUES_OFFSET
}

/// The shape of a confidence line.
pub enum LineShape {
    Ignored,
    MissingClosingParenthesis,
    PairValues(Seq<Seq<char>>),
    SingleValues(Seq<char>, Seq<char>),
}

/// How a confidence line is read. A line that does not begin with the data
/// prefix is ignored. A line with an opening parenthesis is a bit-pair line:
/// its values are the words after the first closing parenthesis, up to the
/// next one. Otherwise a line with the single-bit marker is a single-bit
/// line: the rest after the first `SINGLE_VALUES_OFFSET` bytes, trimmed and
/// split at spaces, gives the like and unlike probabilities in its second
/// and third piece, when it has at least four pieces.
pub open spec fn line_shape(s: Seq<char>) -> LineShape {
    if !starts_with(s, data_prefix()) {
        LineShape::Ignored
    } else if s.contains('(') {
        let parts = split_on(s, ')');
        if parts.len() < 2 {
            LineShape::MissingClosingParenthesis
        } else {
            LineShape::PairValues(words(parts[1]))
        }
    } else if contains_seq(s, single_marker()) {
        let parts = split_on(trim(s.skip(values_start(s))), ' ');
        if parts.len() >= 4 {
            LineShape::SingleValues(parts[1], parts[2])
        } else {
            LineShape::Ignored
        }
    } else {
        LineShape::Ignored
    }
}

/// A confidence line, read.
pub enum ConfidenceLine {
    /// Not a data line, or a single-bit line with too few values.
    Ignored,
    /// A bit-pair line without a closing parenthesis.
    MissingClosingParenthesis,
    /// A bit-pair line: the value fields.
    PairValues(Vec<String>),
    /// A single-bit line: the like and unlike probability fields.
    SingleValues(String, String),
}

/// The views of a list of strings.
pub open spec fn string_views(v: Seq<String>) -> Seq<Seq<char>> {
    Seq::new(v.len(), |k: int| v[k]@)
}

impl View for ConfidenceLine {
    type V = LineShape;

    open spec fn view(&self) -> LineShape {
        match self {
            ConfidenceLine::Ignored => LineShape::Ignored,
            ConfidenceLine::MissingClosingParenthesis => LineShape::MissingClosingParenthesis,
            ConfidenceLine::PairValues(v) => LineShape::PairValues(string_views(v@)),
            ConfidenceLine::SingleValues(a, b) => LineShape::SingleValues(a@, b@),
        }
    }
}

/// Reads the lines of confidence files.
pub struct ConfidenceReader;

/// The substring of `line` that a character range picks out.
fn substring(line: &str, r: (usize, usize)) -> (res: String)
    requires
        r.0 <= r.1 <= line@.len(),
    ensures
        res@ == line@.subrange(r.0 as int, r.1 as int),
{
    String::from_str(line.substring_char(r.0, r.1))
}

impl ConfidenceReader {
    /// Whether `classify_line` can read the line (see `line_can_be_read`).
    pub fn can_classify(line: &str) -> (res: bool)
        ensures
            res == line_can_be_read(line@),
    {
        let chars = chars_of(line);
        if Self::is_single(&chars) {
            match char_index_of_byte(&chars, SINGLE_VALUES_OFFSET) {
                Some(_) => true,
                None => false,
            }
        } else {
            true
        }
    }

    fn is_single(chars: &Vec<char>) -> (res: bool)
        ensures
            res == is_single_line(chars@),
    {
        let prefix = chars_of("Hamming distance");
        let marker = chars_of("Like/Unlike/Difference");
        let has_open = match find_char(chars, 0, chars.len(), '(') {
            Some(_) => true,
            None => false,
        };
        proof {
            assert(chars@.subrange(0, chars.len() as int) == chars@);
            lemma_first_index(chars@, '(');
            if first_index(chars@, '(') matches Some(k) {
                assert(chars@.contains('('));
            }
        }
        starts_with_chars(chars, &prefix) && !has_open && contains_chars(chars, &marker)
    }

    /// Reads one line of a confidence file.
    pub fn classify_line(line: &str) -> (res: ConfidenceLine)
        requires
            line_can_be_read(line@),
        ensures
            res@ == line_shape(line@),
    {
        let chars = chars_of(line);
        let n = chars.len();
        let prefix = chars_of("Hamming distance");
        if !starts_with_chars(&chars, &prefix) {
            return ConfidenceLine::Ignored;
        }
        proof {
            assert(chars@.subrange(0, n as int) == chars@);
            lemma_first_index(chars@, '(');
            if first_index(chars@, '(') matches Some(k) {
                assert(chars@.contains('('));
            }
        }
        if let Some(_) = find_char(&chars, 0, n, '(') {
            let parts = split_ranges(&chars, 0, n, ')');
            if parts.len() < 2 {
                return ConfidenceLine::MissingClosingParenthesis;
            }
            let (lo, hi) = parts[1];
            proof {
                assert(pieces(chars@, parts@)[1] == chars@.subrange(lo as int, hi as int));
            }
            let word_rs = word_ranges(&chars, lo, hi);
            let mut values: Vec<String> = Vec::new();
            let mut k: usize = 0;
            while k < word_rs.len()
                invariant
                    k <= word_rs.len(),
                    ranges_within(word_rs@, lo as int, hi as int),
                    hi <= n,
                    n == line@.len(),
                    chars@ == line@,
                    values.len() == k,
                    forall|t: int|
                        0 <= t < k ==> (#[trigger] values@[t])@ == pieces(chars@, word_rs@)[t],
                decreases word_rs.len() - k,
            {
                let r = word_rs[k];
                assert(lo <= r.0 <= r.1 <= hi);
                values.push(substring(line, r));
                k = k + 1;
            }
            proof {
                assert(string_views(values@) == pieces(chars@, word_rs@));
            }
            return ConfidenceLine::PairValues(values);
        }
        let marker = chars_of("Like/Unlike/Difference");
        if !contains_chars(&chars, &marker) {
            return ConfidenceLine::Ignored;
        }
        let start = match char_index_of_byte(&chars, SINGLE_VALUES_OFFSET) {
            Some(k) => k,
            None => {
                proof {
                    assert(false);
                }
                0
            },
        };
        proof {
            let c = values_start(chars@);
            assert(0 <= c <= chars@.len() && utf8_len(chars@.take(c)) == SINGLE_VALUES_OFFSET);
            if c < start {
                lemma_utf8_len_grows(chars@, c, start as int);
            } else if c > start {
                lemma_utf8_len_grows(chars@, start as int, c);
            }
            assert(chars@.skip(start as int) == chars@.subrange(start as int, n as int));
        }
        let (a, b) = trim_range(&chars, start, n);
        let parts = split_ranges(&chars, a, b, ' ');
        if parts.len() >= 4 {
            let like = substring(line, parts[1]);
            let unlike = substring(line, parts[2]);
            proof {
                assert(pieces(chars@, parts@)[1] == chars@.subrange(
                    parts@[1].0 as int,
                    parts@[1].1 as int,
                ));
                assert(pieces(chars@, parts@)[2] == chars@.subrange(
                    parts@[2].0 as int,
                    parts@[2].1 as int,
                ));
            }
            ConfidenceLine::SingleValues(like, unlike)
        } else {
            ConfidenceLine::Ignored
        }
    }
}

/// The head of a single-bit report line, up to its values.
pub open spec fn single_line_head() -> Seq<char> {
    "Hamming distance, Like/Unlike/Difference ="@
}

/// The head of a bit-pair report line, up to the first position.
pub open spec fn pair_line_head() -> Seq<char> {
    "Hamming distance, Like/Unlike/Difference ("@
}

/// A single-bit report line: the position, then the same-class rate, the
/// different-class rate and their difference.
pub open spec fn single_bit_line_text(
    idx: nat,
    like: Seq<char>,
    unlike: Seq<char>,
    difference: Seq<char>,
) -> Seq<char> {
    single_line_head() + seq![' '] + decimal_text(idx) + seq![' '] + like + seq![' '] + unlike
        + seq![' '] + difference
}

/// A bit-pair report line: the two positions, then the values.
pub open spec fn bit_pair_line_text(i: nat, j: nat, values: Seq<Seq<char>>) -> Seq<char> {
    pair_line_head() + decimal_text(i) + ", "@ + decimal_text(j) + ")"@ + join_spaced(values)
}

impl CorrelationAnalyzer {
    /// Lays out the report line of a single bit.
    pub fn single_bit_line(idx: usize, like: &str, unlike: &str, difference: &str) -> (res: String)
        ensures
            res@ == single_bit_line_text(idx as nat, like@, unlike@, difference@),
    {
        let mut line = String::from_str("Hamming distance, Like/Unlike/Difference =");
        line.append(" ");
        let position = format_decimal(idx);
        line.append(position.as_str());
        line.append(" ");
        line.append(like);
        line.append(" ");
        line.append(unlike);
        line.append(" ");
        line.append(difference);
        proof {
            reveal_strlit(" ");
        }
        line
    }

    /// Lays out the report line of a bit pair.
    pub fn bit_pair_line(i: usize, j: usize, values: &Vec<String>) -> (res: String)
        ensures
            res@ == bit_pair_line_text(i as nat, j as nat, string_views(values@)),
    {
        let mut line = String::from_str("Hamming distance, Like/Unlike/Difference (");
        let first = format_decimal(i);
        line.append(first.as_str());
        line.append(", ");
        let second = format_decimal(j);
        line.append(second.as_str());
        line.append(")");
        let ghost head = line@;
        let ghost views = string_views(values@);
        proof {
            reveal_strlit(" ");
            assert(views.take(0) =~= Seq::<Seq<char>>::empty());
            assert(line@ =~= head + join_spaced(views.take(0)));
        }
        let mut k: usize = 0;
        while k < values.len()
            invariant
                k <= values.len(),
                views == string_views(values@),
                line@ == head + join_spaced(views.take(k as int)),
            decreases values.len() - k,
        {
            proof {
                reveal_strlit(" ");
                assert(views.take(k + 1) =~= views.take(k as int).push(values@[k as int]@));
                lemma_join_spaced_push(views.take(k as int), values@[k as int]@);
            }
            line.append(" ");
            line.append(values[k].as_str());
            k = k + 1;
        }
        proof {
            assert(views.take(values.len() as int) =~= views);
        }
        line
    }
}

/// The report's position and head take one byte per character.
proof fn lemma_single_head_facts()
    ensures
        single_line_head().len() == 42,
        data_prefix().len() == 16,
        single_marker().len() == 22,
        starts_with(single_line_head(), data_prefix()),
        single_line_head().subrange(18, 40) == single_marker(),
        forall|i: int|
            0 <= i < 42 ==> (#[trigger] single_line_head()[i] as u32) < 0x80 && single_line_head()[i]
                != '(' && single_line_head()[i] != ')',
{
    reveal_strlit("Hamming distance, Like/Unlike/Difference =");
    reveal_strlit("Hamming distance");
    reveal_strlit("Like/Unlike/Difference");
    assert(single_line_head().take(16) =~= data_prefix());
    assert(single_line_head().subrange(18, 40) =~= single_marker());
}

proof fn lemma_pair_head_facts()
    ensures
        pair_line_head().len() == 42,
        data_prefix().len() == 16,
        starts_with(pair_line_head(), data_prefix()),
        pair_line_head()[41] == '(',
        forall|i: int| 0 <= i < 42 ==> #[trigger] pair_line_head()[i] != ')',
        ", "@ == seq![',', ' '],
        ")"@ == seq![')'],
{
    reveal_strlit("Hamming distance, Like/Unlike/Difference (");
    reveal_strlit("Hamming distance");
    reveal_strlit(", ");
    reveal_strlit(")");
    assert(pair_line_head().take(16) =~= data_prefix());
    assert(", "@ =~= seq![',', ' ']);
    assert(")"@ =~= seq![')']);
}


/// A plain token holds no space.
proof fn lemma_plain_no_space(t: Seq<char>)
    requires
        is_plain_token(t),
    ensures
        !t.contains(' '),
{
    if t.contains(' ') {
        let i = choose|i: int| 0 <= i < t.len() && t[i] == ' ';
        assert(is_white_space(t[i]));
    }
}

/// Trimming the values of a single-bit line drops the leading space only.
proof fn lemma_single_values_trim(t: Seq<char>)
    requires
        t.len() > 0,
        !is_white_space(t[0]),
        !is_white_space(t[t.len() - 1]),
    ensures
        trim(seq![' '] + t) == t,
{
    let rest = seq![' '] + t;
    assert(is_white_space(rest[0]));
    assert(rest[1] == t[0]);
    lemma_trim_start(rest, 1);
    assert(rest.skip(1) =~= t);
    lemma_trim_end(t, t.len());
    assert(t.take(t.len() as int) =~= t);
}

/// Splitting the values of a single-bit line at spaces gives its four
/// tokens.
proof fn lemma_single_values_split(
    d: Seq<char>,
    like: Seq<char>,
    unlike: Seq<char>,
    difference: Seq<char>,
)
    requires
        !d.contains(' '),
        !like.contains(' '),
        !unlike.contains(' '),
        !difference.contains(' '),
    ensures
        split_on(d + seq![' '] + like + seq![' '] + unlike + seq![' '] + difference, ' ') == seq![
            d,
            like,
            unlike,
            difference,
        ],
{
    let t = d + seq![' '] + like + seq![' '] + unlike + seq![' '] + difference;
    let t3 = unlike + seq![' '] + difference;
    let t2 = like + seq![' '] + t3;
    assert(t =~= d + seq![' '] + t2);
    lemma_split_on_first(d, t2, ' ');
    lemma_split_on_first(like, t3, ' ');
    lemma_split_on_first(unlike, difference, ' ');
    lemma_split_on_none(difference, ' ');
    assert(split_on(t, ' ') =~= seq![d, like, unlike, difference]);
}

/// The values of a single-bit line, after the cut: trimming drops the
/// leading space, and splitting at spaces gives the four tokens.
proof fn lemma_single_values(d: Seq<char>, like: Seq<char>, unlike: Seq<char>, difference: Seq<char>)
    requires
        is_plain_token(d),
        is_plain_token(like),
        is_plain_token(unlike),
        is_plain_token(difference),
    ensures
        trim(seq![' '] + (d + seq![' '] + like + seq![' '] + unlike + seq![' '] + difference))
            == d + seq![' '] + like + seq![' '] + unlike + seq![' '] + difference,
        split_on(d + seq![' '] + like + seq![' '] + unlike + seq![' '] + difference, ' ') == seq![
            d,
            like,
            unlike,
            difference,
        ],
{
    let t = d + seq![' '] + like + seq![' '] + unlike + seq![' '] + difference;
    assert(t[0] == d[0]);
    assert(t[t.len() - 1] == difference[difference.len() - 1]);
    lemma_single_values_trim(t);
    lemma_plain_no_space(d);
    lemma_plain_no_space(like);
    lemma_plain_no_space(unlike);
    lemma_plain_no_space(difference);
    lemma_single_values_split(d, like, unlike, difference);
}

/// Law: a single-bit report line reads back as its same-class and
/// different-class rates, when the three values are plain tokens.
pub proof fn lemma_single_bit_line_reads_back(
    idx: nat,
    like: Seq<char>,
    unlike: Seq<char>,
    difference: Seq<char>,
)
    requires
        is_plain_token(like),
        is_plain_token(unlike),
        is_plain_token(difference),
    ensures
        line_can_be_read(single_bit_line_text(idx, like, unlike, difference)),
        line_shape(single_bit_line_text(idx, like, unlike, difference)) == LineShape::SingleValues(
            like,
            unlike,
        ),
{
    let h = single_line_head();
    let d = decimal_text(idx);
    let t = d + seq![' '] + like + seq![' '] + unlike + seq![' '] + difference;
    let rest = seq![' '] + t;
    let s = single_bit_line_text(idx, like, unlike, difference);
    lemma_single_head_facts();
    lemma_decimal_plain(idx);
    assert(s =~= h + rest);
    assert(s.take(16) =~= h.take(16));
    assert(starts_with(s, data_prefix()));
    assert(s.subrange(18, 40) =~= h.subrange(18, 40));
    assert(s.subrange(18, 18 + single_marker().len() as int) == single_marker());
    assert(contains_seq(s, single_marker()));
    assert forall|i: int| 0 <= i < s.len() implies s[i] != '(' by {
        if i < 42 {
            assert(s[i] == h[i]);
        } else {
            let r = i - 42;
            assert(s[i] == rest[r]);
        }
    }
    assert(!s.contains('('));
    assert(s.take(42) =~= h);
    lemma_ascii_utf8_len(h);
    assert(utf8_len(s.take(42)) == SINGLE_VALUES_OFFSET);
    let k = values_start(s);
    assert(0 <= k <= s.len() && utf8_len(s.take(k)) == SINGLE_VALUES_OFFSET);
    if k < 42 {
        lemma_utf8_len_grows(s, k, 42);
    } else if k > 42 {
        lemma_utf8_len_grows(s, 42, k);
    }
    assert(k == 42);
    assert(s.skip(42) =~= rest);
    lemma_single_values(d, like, unlike, difference);
    let parts = split_on(t, ' ');
    assert(parts =~= seq![d, like, unlike, difference]);
}

/// Law: a bit-pair report line reads back as its values, when they are
/// plain tokens.
pub proof fn lemma_bit_pair_line_reads_back(i: nat, j: nat, values: Seq<Seq<char>>)
    requires
        forall|k: int| 0 <= k < values.len() ==> is_plain_token(#[trigger] values[k]),
    ensures
        line_can_be_read(bit_pair_line_text(i, j, values)),
        line_shape(bit_pair_line_text(i, j, values)) == LineShape::PairValues(values),
{
    let h = pair_line_head();
    let di = decimal_text(i);
    let dj = decimal_text(j);
    let x = h + di + ", "@ + dj;
    let jv = join_spaced(values);
    let s = bit_pair_line_text(i, j, values);
    lemma_pair_head_facts();
    lemma_decimal_plain(i);
    lemma_decimal_plain(j);
    assert(s =~= x + seq![')'] + jv);
    assert(s.take(16) =~= h.take(16));
    assert(starts_with(s, data_prefix()));
    assert(s[41] == '(');
    assert(s.contains('('));
    assert(!is_single_line(s));
    assert forall|p: int| 0 <= p < x.len() implies x[p] != ')' by {
        if p < 42 {
            assert(x[p] == h[p]);
        } else if p < 42 + di.len() {
            assert(x[p] == di[p - 42]);
        } else if p < 42 + di.len() + 2 {
            assert(x[p] == ", "@[p - 42 - di.len()]);
        } else {
            assert(x[p] == dj[p - 44 - di.len()]);
        }
    }
    assert(!x.contains(')'));
    assert forall|k: int| 0 <= k < values.len() implies !(#[trigger] values[k]).contains(')') by {
        assert(is_plain_token(values[k]));
        if values[k].contains(')') {
            let p = choose|p: int| 0 <= p < values[k].len() && values[k][p] == ')';
        }
    }
    lemma_join_spaced_chars(values, ')');
    lemma_split_on_first(x, jv, ')');
    lemma_split_on_none(jv, ')');
    let parts = split_on(s, ')');
    assert(parts =~= seq![x, jv]);
    lemma_words_join_spaced(values);
}

} // verus!
