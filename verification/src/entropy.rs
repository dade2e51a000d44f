use vstd::prelude::*;
use vstd::string::StringSliceAdditionalSpecFns;

use crate::confidence::{add_position, lemma_ordered_pairs, ordered_pairs, pair_row, pair_rows, GenerationError, MAX_ATTEMPTS};
use crate::hamming::{hamming_bits, lemma_hamming_bound, simsimd_hamming};
use crate::rng::{contains_index, distinct_below, gen_below, gen_u64, thread_rng};
use crate::tar::project;
use crate::template_format::{parse_template_values_strict, all_fields_parse, parsed_fields, template_fields};

verus! {

/// A binary template of a class: one byte per bit.
pub struct Template {
    pub class: String,
    pub data: Vec<u8>,
}

/// Reads binary templates.
pub struct TemplateReader;

impl TemplateReader {
    /// The bits of a template text, in which every comma-separated field
    /// must be a number from 0 to 255; `None` when one is not.
    pub fn parse_template(content: &str) -> (res: Option<Vec<u8>>)
        ensures
            all_fields_parse(template_fields(content.spec_bytes())) ==> (res matches Some(v) && v@
                == parsed_fields(template_fields(content.spec_bytes()))),
            !all_fields_parse(template_fields(content.spec_bytes())) ==> res is None,
    {
        parse_template_values_strict(content)
    }
}

/// A cosine locker: the seeds of its random projections.
pub struct CosineLocker {
    seeds: Vec<u64>,
}

impl View for CosineLocker {
    type V = Seq<u64>;

    /// The seeds, in order.
    closed spec fn view(&self) -> Seq<u64> {
        self.seeds@
    }
}

impl CosineLocker {
    /// A locker of `k` projections with random seeds.
    pub fn new(k: usize) -> (res: CosineLocker)
        ensures
            res@.len() == k,
    {
        let mut rng = thread_rng();
        let mut seeds: Vec<u64> = Vec::new();
        let mut i: usize = 0;
        while i < k
            invariant
                i <= k,
                seeds.len() == i,
            decreases k - i,
        {
            seeds.push(gen_u64(&mut rng));
            i = i + 1;
        }
        CosineLocker { seeds }
    }

    /// A locker with the given seeds.
    pub fn from_seeds(seeds: Vec<u64>) -> (res: CosineLocker)
        ensures
            res@ == seeds@,
    {
        CosineLocker { seeds }
    }

    /// The seeds of the projections.
    pub fn seeds(&self) -> (res: &Vec<u64>)
        ensures
            res@ == self@,
    {
        &self.seeds
    }
}

/// Sets of template positions, one per locker, drawn uniformly.
pub struct RandomIndices(pub Vec<Vec<usize>>);

/// The positions that a run of uniform draws holds: each draw is added
/// unless it is already held or `size` positions are held.
pub open spec fn drawn_positions(draws: Seq<usize>, size: nat) -> Seq<usize>
    decreases draws.len(),
{
    if draws.len() == 0 {
        Seq::empty()
    } else {
        add_position(drawn_positions(draws.drop_last(), size), draws.last(), size)
    }
}

/// The draws are those of one complete run of the uniform sampler: each is
/// below `dimensions`, there are at most `MAX_ATTEMPTS` of them, drawing
/// went on only while fewer than `size` positions were held, and it stopped
/// short of `size` positions only when the attempts ran out.
pub open spec fn is_uniform_run(draws: Seq<usize>, size: nat, dimensions: nat) -> bool {
    &&& draws.len() <= MAX_ATTEMPTS
    &&& forall|i: int| 0 <= i < draws.len() ==> #[trigger] draws[i] < dimensions
    &&& forall|k: int| 0 <= k < draws.len() ==> (#[trigger] drawn_positions(draws.take(k), size)).len() < size
    &&& drawn_positions(draws, size).len() < size ==> draws.len() == MAX_ATTEMPTS
}

/// What a run of draws gives: the positions when `size` of them are held,
/// `NotEnoughUniqueIndices` otherwise.
pub open spec fn uniform_run_result(
    draws: Seq<usize>,
    size: nat,
    res: Result<Vec<usize>, GenerationError>,
) -> bool {
    match res {
        Ok(v) => drawn_positions(draws, size).len() == size && v@ == drawn_positions(draws, size),
        Err(e) => e == GenerationError::NotEnoughUniqueIndices && drawn_positions(draws, size).len()
            < size,
    }
}

/// The uniform sampler of one locker, as a state machine: the caller draws
/// positions uniformly while `wants_sample` holds and hands each one to
/// `record`; `finish` gives the positions.
pub struct UniqueSampler {
    positions: Vec<usize>,
    size: usize,
    attempts: usize,
}

impl UniqueSampler {
    #[verifier::type_invariant]
    spec fn inv(self) -> bool {
        &&& self.positions@.no_duplicates()
        &&& self.positions@.len() <= self.size
        &&& self.positions@.len() <= self.attempts
        &&& self.attempts <= MAX_ATTEMPTS
    }

    /// The positions held, in the order they were drawn.
    pub closed spec fn positions(&self) -> Seq<usize> {
        self.positions@
    }

    /// How many positions a locker holds.
    pub closed spec fn size(&self) -> nat {
        self.size as nat
    }

    /// How many draws were spent.
    pub closed spec fn attempts(&self) -> nat {
        self.attempts as nat
    }

    /// Whether another draw is wanted: fewer than `size` positions are held
    /// and fewer than `MAX_ATTEMPTS` draws were spent.
    pub open spec fn spec_wants_sample(&self) -> bool {
        self.positions().len() < self.size() && self.attempts() < MAX_ATTEMPTS
    }

    /// Starts a locker of `size` positions.
    pub fn new(size: usize) -> (res: UniqueSampler)
        ensures
            res.positions() == Seq::<usize>::empty(),
            res.size() == size,
            res.attempts() == 0,
    {
        UniqueSampler { positions: Vec::new(), size, attempts: 0 }
    }

    /// Whether another draw is wanted.
    pub fn wants_sample(&self) -> (res: bool)
        ensures
            res == self.spec_wants_sample(),
    {
        self.positions.len() < self.size && self.attempts < MAX_ATTEMPTS
    }

    /// Takes one drawn position into account: it is added unless already
    /// held.
    pub fn record(&mut self, x: usize)
        requires
            old(self).spec_wants_sample(),
        ensures
            final(self).positions() == add_position(old(self).positions(), x, old(self).size()),
            final(self).attempts() == old(self).attempts() + 1,
            final(self).size() == old(self).size(),
    {
        proof {
            use_type_invariant(&*self);
        }
        let mut positions: Vec<usize> = Vec::new();
        std::mem::swap(&mut positions, &mut self.positions);
        if !contains_index(&positions, x) && positions.len() < self.size {
            positions.push(x);
        }
        self.attempts = self.attempts + 1;
        self.positions = positions;
    }

    /// The locker: `Ok` exactly when `size` positions are held, and then
    /// they are distinct.
    pub fn finish(self) -> (res: Result<Vec<usize>, GenerationError>)
        ensures
            self.positions().len() == self.size() ==> (res matches Ok(v) && v@ == self.positions()),
            self.positions().len() != self.size() ==> res == Err::<Vec<usize>, GenerationError>(
                GenerationError::NotEnoughUniqueIndices,
            ),
            res matches Ok(v) ==> v@.no_duplicates(),
    {
        proof {
            use_type_invariant(&self);
        }
        if self.positions.len() != self.size {
            return Err(GenerationError::NotEnoughUniqueIndices);
        }
        Ok(self.positions)
    }
}

/// Draws lockers made of uniformly random, distinct template positions.
pub struct RandomIndicesGenerator;

impl RandomIndicesGenerator {
    /// Draws one set: positions in `0..dimensions` are drawn until `size`
    /// distinct ones are held or `MAX_ATTEMPTS` draws were spent. The result
    /// is that of some complete run of draws.
    fn draw_unique(rng: &mut rand::rngs::ThreadRng, size: usize, dimensions: usize) -> (res:
        Result<Vec<usize>, GenerationError>)
        requires
            size > 0 ==> dimensions > 0,
        ensures
            exists|draws: Seq<usize>|
                #[trigger] is_uniform_run(draws, size as nat, dimensions as nat)
                    && uniform_run_result(draws, size as nat, res),
            res matches Ok(v) ==> v.len() == size && distinct_below(v@, dimensions as int),
            res matches Err(e) ==> e == GenerationError::NotEnoughUniqueIndices,
            (size > dimensions || size > MAX_ATTEMPTS) ==> res is Err,
            size == 0 ==> res is Ok,
    {
        let mut sampler = UniqueSampler::new(size);
        let ghost mut draws: Seq<usize> = Seq::empty();
        while sampler.wants_sample()
            invariant
                size > 0 ==> dimensions > 0,
                sampler.size() == size,
                sampler.attempts() == draws.len(),
                sampler.attempts() <= MAX_ATTEMPTS,
                sampler.positions() == drawn_positions(draws, size as nat),
                sampler.positions().len() <= draws.len(),
                forall|i: int| 0 <= i < draws.len() ==> #[trigger] draws[i] < dimensions,
                forall|k: int|
                    0 <= k < draws.len() ==> (#[trigger] drawn_positions(draws.take(k), size as nat)).len()
                        < size,
                forall|i: int|
                    0 <= i < sampler.positions().len() ==> #[trigger] sampler.positions()[i]
                        < dimensions,
            decreases MAX_ATTEMPTS - sampler.attempts(),
        {
            let x = gen_below(rng, dimensions);
            let ghost before = draws;
            sampler.record(x);
            proof {
                draws = draws.push(x);
                assert(draws.drop_last() == before);
                assert(draws.take(before.len() as int) == before);
                assert forall|k: int| 0 <= k < draws.len() implies (#[trigger] drawn_positions(
                    draws.take(k),
                    size as nat,
                )).len() < size by {
                    if k < before.len() {
                        assert(draws.take(k) == before.take(k));
                    }
                }
            }
        }
        proof {
            use_type_invariant(&sampler);
        }
        let ghost held = sampler.positions();
        let res = sampler.finish();
        proof {
            assert(is_uniform_run(draws, size as nat, dimensions as nat));
            assert(uniform_run_result(draws, size as nat, res));
            if size > dimensions && held.len() == size {
                assert(distinct_below(held, dimensions as int));
                lemma_distinct_below_len(held, dimensions as int);
            }
        }
        res
    }

    /// Draws one locker of `size` distinct positions below `dimensions`,
    /// as `draw_unique` does, with a fresh handle on the generator.
    pub fn draw_locker(size: usize, dimensions: usize) -> (res: Result<Vec<usize>, GenerationError>)
        requires
            size > 0 ==> dimensions > 0,
        ensures
            exists|draws: Seq<usize>|
                #[trigger] is_uniform_run(draws, size as nat, dimensions as nat)
                    && uniform_run_result(draws, size as nat, res),
            res matches Ok(v) ==> v.len() == size && distinct_below(v@, dimensions as int),
            res matches Err(e) ==> e == GenerationError::NotEnoughUniqueIndices,
            (size > dimensions || size > MAX_ATTEMPTS) ==> res is Err,
            size == 0 ==> res is Ok,
    {
        let mut rng = thread_rng();
        Self::draw_unique(&mut rng, size, dimensions)
    }

    /// Draws `count` lockers of `size` distinct positions each, all below
    /// `dimensions`, each the result of a complete run of uniform draws. The
    /// first locker that cannot be completed stops the work with
    /// `NotEnoughUniqueIndices`.
    pub fn generate(count: usize, size: usize, dimensions: usize) -> (res: Result<
        RandomIndices,
        GenerationError,
    >)
        requires
            count > 0 && size > 0 ==> dimensions > 0,
        ensures
            res matches Ok(r) ==> r.0.len() == count && forall|k: int|
                0 <= k < count ==> #[trigger] is_drawn_locker(r.0@[k]@, size as nat, dimensions as nat),
            res matches Err(e) ==> e == GenerationError::NotEnoughUniqueIndices && count > 0
                && exists|draws: Seq<usize>|
                #[trigger] is_uniform_run(draws, size as nat, dimensions as nat) && drawn_positions(
                    draws,
                    size as nat,
                ).len() < size,
            count > 0 && (size > dimensions || size > MAX_ATTEMPTS) ==> res is Err,
            (count == 0 || size == 0) ==> res is Ok,
    {
        let mut rng = thread_rng();
        let mut all: Vec<Vec<usize>> = Vec::new();
        let mut i: usize = 0;
        while i < count
            invariant
                i <= count,
                count > 0 && size > 0 ==> dimensions > 0,
                (size > dimensions || size > MAX_ATTEMPTS) ==> i == 0,
                all.len() == i,
                forall|k: int|
                    0 <= k < i ==> #[trigger] is_drawn_locker(all@[k]@, size as nat, dimensions as nat),
            decreases count - i,
        {
            let drawn = Self::draw_unique(&mut rng, size, dimensions);
            let ghost outcome = drawn;
            let set = match drawn {
                Ok(set) => set,
                Err(e) => {
                    return Err(e);
                },
            };
            proof {
                let d = choose|draws: Seq<usize>|
                    #[trigger] is_uniform_run(draws, size as nat, dimensions as nat)
                        && uniform_run_result(draws, size as nat, outcome);
                assert(outcome == Ok::<Vec<usize>, GenerationError>(set));
                assert(draws_give(d, size as nat, set@));
                assert(is_drawn_locker(set@, size as nat, dimensions as nat));
            }
            let ghost prev = all@;
            all.push(set);
            proof {
                assert forall|k: int| 0 <= k < i + 1 implies #[trigger] is_drawn_locker(
                    all@[k]@,
                    size as nat,
                    dimensions as nat,
                ) by {
                    if k < i {
                        assert(all@[k] == prev[k]);
                    }
                }
            }
            i = i + 1;
        }
        Ok(RandomIndices(all))
    }
}

/// A locker that a complete run of uniform draws gives: `size` distinct
/// positions below `dimensions`, exactly those the draws hold.
pub open spec fn is_drawn_locker(v: Seq<usize>, size: nat, dimensions: nat) -> bool {
    &&& v.len() == size
    &&& distinct_below(v, dimensions as int)
    &&& exists|draws: Seq<usize>|
        #[trigger] is_uniform_run(draws, size, dimensions) && draws_give(draws, size, v)
}

/// A complete run of draws gives exactly the positions `v`.
pub open spec fn draws_give(draws: Seq<usize>, size: nat, v: Seq<usize>) -> bool {
    drawn_positions(draws, size).len() == size && v == drawn_positions(draws, size)
}

/// A sequence of distinct values below `n` is at most `n` long.
pub proof fn lemma_distinct_below_len(s: Seq<usize>, n: int)
    requires
        distinct_below(s, n),
        n >= 0,
    ensures
        s.len() <= n,
    decreases n,
{
    if n == 0 {
        if s.len() > 0 {
            assert(s[0] < n);
        }
    } else if exists|k: int| 0 <= k < s.len() && s[k] == n - 1 {
        let k = choose|k: int| 0 <= k < s.len() && s[k] == n - 1;
        let t = s.remove(k);
        assert forall|i: int, j: int| 0 <= i < t.len() && 0 <= j < t.len() && i != j implies t[i]
            != t[j] by {
            let si = if i < k { i } else { i + 1 };
            let sj = if j < k { j } else { j + 1 };
            assert(t[i] == s[si] && t[j] == s[sj]);
        }
        assert forall|i: int| 0 <= i < t.len() implies #[trigger] t[i] < n - 1 by {
            let si = if i < k { i } else { i + 1 };
            assert(t[i] == s[si]);
            assert(si != k);
        }
        lemma_distinct_below_len(t, n - 1);
    } else {
        assert forall|i: int| 0 <= i < s.len() implies #[trigger] s[i] < n - 1 by {
            assert(s[i] != n - 1);
        }
        lemma_distinct_below_len(s, n - 1);
    }
}

/// Every position of the set lies within every template.
pub open spec fn index_set_fits(templates: Seq<Template>, index_set: Seq<usize>) -> bool {
    forall|t: int, i: int|
        0 <= t < templates.len() && 0 <= i < index_set.len() ==> #[trigger] index_set[i]
            < #[trigger] templates[t].data.len()
}

/// The pairs among `ps` whose two templates belong to different classes.
pub open spec fn diff_class_only(templates: Seq<Template>, ps: Seq<(usize, usize)>) -> Seq<
    (usize, usize),
>
    decreases ps.len(),
{
    if ps.len() == 0 {
        Seq::empty()
    } else {
        let rest = diff_class_only(templates, ps.drop_last());
        let p = ps.last();
        if templates[p.0 as int].class@ != templates[p.1 as int].class@ {
            rest.push(p)
        } else {
            rest
        }
    }
}

/// The template pairs (i, j), i < j, of different classes, in order.
pub open spec fn diff_class_template_pairs(templates: Seq<Template>) -> Seq<(usize, usize)> {
    diff_class_only(templates, crate::confidence::ordered_pairs(templates.len()))
}

/// The Hamming distance of what a locker reads of two templates.
pub open spec fn locker_distance(templates: Seq<Template>, index_set: Seq<usize>, p: (usize, usize)) -> nat {
    hamming_bits(project(templates[p.0 as int].data@, index_set), project(templates[p.1 as int].data@, index_set))
}

/// How many of the first `n` positions hold different signs.
pub open spec fn differing_signs(a: Seq<bool>, b: Seq<bool>, n: int) -> nat
    decreases n,
{
    if n <= 0 {
        0
    } else {
        differing_signs(a, b, n - 1) + if a[n - 1] != b[n - 1] {
            1nat
        } else {
            0nat
        }
    }
}

/// The number of positions, within the common length, at which two sign
/// vectors differ.
pub open spec fn sign_distance(a: Seq<bool>, b: Seq<bool>) -> nat {
    differing_signs(a, b, if a.len() < b.len() { a.len() as int } else { b.len() as int })
}

/// The pairs among `ps` whose two templates belong to different classes,
/// the classes given by name.
pub open spec fn different_class_pairs(classes: Seq<String>, ps: Seq<(usize, usize)>) -> Seq<
    (usize, usize),
>
    decreases ps.len(),
{
    if ps.len() == 0 {
        Seq::empty()
    } else {
        let rest = different_class_pairs(classes, ps.drop_last());
        let p = ps.last();
        if classes[p.0 as int]@ != classes[p.1 as int]@ {
            rest.push(p)
        } else {
            rest
        }
    }
}

proof fn lemma_differing_signs_set(a: Seq<bool>, b: Seq<bool>, n: int)
    requires
        0 <= n,
    ensures
        Set::new(|k: int| 0 <= k < n && a[k] != b[k]).finite(),
        differing_signs(a, b, n) == Set::new(|k: int| 0 <= k < n && a[k] != b[k]).len(),
    decreases n,
{
    let s = Set::new(|k: int| 0 <= k < n && a[k] != b[k]);
    if n == 0 {
        assert(s =~= Set::<int>::empty());
    } else {
        lemma_differing_signs_set(a, b, n - 1);
        let prev = Set::new(|k: int| 0 <= k < n - 1 && a[k] != b[k]);
        if a[n - 1] != b[n - 1] {
            assert(s =~= prev.insert(n - 1));
            assert(!prev.contains(n - 1));
        } else {
            assert(s =~= prev);
        }
    }
}

proof fn lemma_differing_signs_zero(a: Seq<bool>, b: Seq<bool>, n: int)
    requires
        0 <= n,
    ensures
        differing_signs(a, b, n) == 0 <==> forall|k: int| 0 <= k < n ==> a[k] == b[k],
    decreases n,
{
    if n > 0 {
        lemma_differing_signs_zero(a, b, n - 1);
    }
}

/// Law: the sign distance of two sign vectors is the number of positions,
/// below both lengths, at which they differ. It is symmetric, and two
/// equally long vectors are at distance zero exactly when they are equal.
pub proof fn lemma_sign_distance_counts(a: Seq<bool>, b: Seq<bool>)
    ensures
        Set::new(|k: int| 0 <= k < a.len() && k < b.len() && a[k] != b[k]).finite(),
        sign_distance(a, b) == Set::new(|k: int| 0 <= k < a.len() && k < b.len() && a[k] != b[k]).len(),
        sign_distance(a, b) == sign_distance(b, a),
        sign_distance(a, b) <= a.len(),
        a.len() == b.len() ==> (sign_distance(a, b) == 0 <==> a == b),
{
    let m: int = if a.len() < b.len() { a.len() as int } else { b.len() as int };
    lemma_differing_signs_set(a, b, m);
    lemma_differing_signs_set(b, a, m);
    let s = Set::new(|k: int| 0 <= k < a.len() && k < b.len() && a[k] != b[k]);
    assert(s =~= Set::new(|k: int| 0 <= k < m && a[k] != b[k]));
    assert(Set::new(|k: int| 0 <= k < m && b[k] != a[k]) =~= Set::new(
        |k: int| 0 <= k < m && a[k] != b[k],
    ));
    let full = Set::new(|k: int| 0 <= k < m);
    assert(s.subset_of(full));
    assert(full =~= vstd::set_lib::set_int_range(0, m));
    vstd::set_lib::lemma_int_range(0, m);
    vstd::set_lib::lemma_len_subset(s, full);
    lemma_differing_signs_zero(a, b, m);
    if a.len() == b.len() && sign_distance(a, b) == 0 {
        assert(a =~= b);
    }
}

/// Law: the pairs of different classes are exactly the pairs (i, j) with
/// i < j of templates whose class names differ.
pub proof fn lemma_diff_class_template_pairs(templates: Seq<Template>, i: usize, j: usize)
    requires
        templates.len() <= usize::MAX,
    ensures
        diff_class_template_pairs(templates).contains((i, j)) <==> (i < j && j < templates.len()
            && templates[i as int].class@ != templates[j as int].class@),
{
    lemma_ordered_pairs(templates.len(), i, j);
    lemma_diff_class_only_contains(templates, ordered_pairs(templates.len()), (i, j));
}

proof fn lemma_diff_class_only_contains(
    templates: Seq<Template>,
    ps: Seq<(usize, usize)>,
    p: (usize, usize),
)
    ensures
        diff_class_only(templates, ps).contains(p) <==> (ps.contains(p) && templates[p.0 as int].class@
            != templates[p.1 as int].class@),
    decreases ps.len(),
{
    if ps.len() > 0 {
        let q = ps.drop_last();
        lemma_diff_class_only_contains(templates, q, p);
        assert(ps =~= q.push(ps.last()));
        if q.contains(p) {
            let k = choose|k: int| 0 <= k < q.len() && q[k] == p;
            assert(ps[k] == p);
        }
        if ps.contains(p) {
            let k = choose|k: int| 0 <= k < ps.len() && ps[k] == p;
            if k < q.len() {
                assert(q[k] == p);
            }
        }
        let rest = diff_class_only(templates, q);
        if rest.contains(p) {
            let k = choose|k: int| 0 <= k < rest.len() && rest[k] == p;
            assert(rest.push(ps.last())[k] == p);
        }
        if rest.push(ps.last()).contains(p) && p != ps.last() {
            let k = choose|k: int| 0 <= k < rest.push(ps.last()).len() && rest.push(ps.last())[k] == p;
            assert(rest[k] == p);
        }
        assert(rest.push(ps.last())[rest.len() as int] == ps.last());
    }
}

/// Law: for cosine lockers, the pairs of different classes are exactly the
/// pairs (i, j) with i < j whose class names differ.
pub proof fn lemma_different_class_pairs(classes: Seq<String>, i: usize, j: usize)
    requires
        classes.len() <= usize::MAX,
    ensures
        different_class_pairs(classes, ordered_pairs(classes.len())).contains((i, j)) <==> (i < j
            && j < classes.len() && classes[i as int]@ != classes[j as int]@),
{
    lemma_ordered_pairs(classes.len(), i, j);
    lemma_different_class_pairs_contains(classes, ordered_pairs(classes.len()), (i, j));
}

proof fn lemma_different_class_pairs_contains(
    classes: Seq<String>,
    ps: Seq<(usize, usize)>,
    p: (usize, usize),
)
    ensures
        different_class_pairs(classes, ps).contains(p) <==> (ps.contains(p) && classes[p.0 as int]@
            != classes[p.1 as int]@),
    decreases ps.len(),
{
    if ps.len() > 0 {
        let q = ps.drop_last();
        lemma_different_class_pairs_contains(classes, q, p);
        assert(ps =~= q.push(ps.last()));
        if q.contains(p) {
            let k = choose|k: int| 0 <= k < q.len() && q[k] == p;
            assert(ps[k] == p);
        }
        if ps.contains(p) {
            let k = choose|k: int| 0 <= k < ps.len() && ps[k] == p;
            if k < q.len() {
                assert(q[k] == p);
            }
        }
        let rest = different_class_pairs(classes, q);
        if rest.contains(p) {
            let k = choose|k: int| 0 <= k < rest.len() && rest[k] == p;
            assert(rest.push(ps.last())[k] == p);
        }
        if rest.push(ps.last()).contains(p) && p != ps.last() {
            let k = choose|k: int| 0 <= k < rest.push(ps.last()).len() && rest.push(ps.last())[k] == p;
            assert(rest[k] == p);
        }
        assert(rest.push(ps.last())[rest.len() as int] == ps.last());
    }
}

/// Computes statistics of lockers over sets of templates.
pub struct AnalysisTool;

impl AnalysisTool {
    /// The Hamming distance of two byte strings, 0 when their lengths differ.
    pub fn calc_hamming(a: &[u8], b: &[u8]) -> (res: u64)
        ensures
            a@.len() != b@.len() ==> res == 0,
            a@.len() == b@.len() && hamming_bits(a@, b@) < 0x1_0000_0000 ==> res == hamming_bits(
                a@,
                b@,
            ),
    {
        match simsimd_hamming(a, b) {
            Some(d) => d,
            None => 0,
        }
    }

    /// What the locker with the given positions reads of each template.
    pub fn select_templates(templates: &[Template], index_set: &[usize]) -> (res: Vec<Vec<u8>>)
        requires
            index_set_fits(templates@, index_set@),
        ensures
            res.len() == templates.len(),
            forall|t: int| 0 <= t < templates.len() ==> (#[trigger] res@[t])@ == project(templates@[t].data@, index_set@),
    {
        let mut res: Vec<Vec<u8>> = Vec::new();
        let mut t: usize = 0;
        while t < templates.len()
            invariant
                t <= templates.len(),
                index_set_fits(templates@, index_set@),
                res.len() == t,
                forall|u: int| 0 <= u < t ==> (#[trigger] res@[u])@ == project(templates@[u].data@, index_set@),
            decreases templates.len() - t,
        {
            let data = &templates[t].data;
            let mut values: Vec<u8> = Vec::new();
            let mut i: usize = 0;
            while i < index_set.len()
                invariant
                    t < templates.len(),
                    i <= index_set.len(),
                    data == templates@[t as int].data,
                    index_set_fits(templates@, index_set@),
                    values.len() == i,
                    forall|j: int| 0 <= j < i ==> #[trigger] values@[j] == data@[index_set@[j] as int],
                decreases index_set.len() - i,
            {
                assert(index_set@[i as int] < templates@[t as int].data.len());
                values.push(data[index_set[i]]);
                i = i + 1;
            }
            proof {
                assert(values@ == project(data@, index_set@));
            }
            res.push(values);
            t = t + 1;
        }
        res
    }

    /// The number of positions, within the common length, at which two
    /// sign vectors differ.
    fn count_differing_signs(a: &Vec<bool>, b: &Vec<bool>) -> (res: usize)
        ensures
            res == sign_distance(a@, b@),
    {
        let len = if a.len() < b.len() {
            a.len()
        } else {
            b.len()
        };
        let mut count: usize = 0;
        let mut k: usize = 0;
        while k < len
            invariant
                k <= len,
                len <= a.len(),
                len <= b.len(),
                len == (if a.len() < b.len() { a.len() } else { b.len() }),
                count == differing_signs(a@, b@, k as int),
                count <= k,
            decreases len - k,
        {
            if a[k] != b[k] {
                count = count + 1;
            }
            k = k + 1;
        }
        count
    }

    /// For one cosine locker, the number of differing signs between its
    /// projections of the templates of every pair of different classes,
    /// pairs (i, j) with i < j in order. `signs[t]` holds the signs of
    /// template `t`, `classes[t]` its class.
    pub fn diff_class_sign_distances(classes: &Vec<String>, signs: &Vec<Vec<bool>>) -> (res: Vec<usize>)
        requires
            classes.len() == signs.len(),
        ensures
            res.len() == different_class_pairs(classes@, ordered_pairs(signs.len() as nat)).len(),
            forall|k: int|
                0 <= k < res.len() ==> #[trigger] res@[k] == sign_distance(
                    signs@[different_class_pairs(classes@, ordered_pairs(signs.len() as nat))[k].0 as int]@,
                    signs@[different_class_pairs(classes@, ordered_pairs(signs.len() as nat))[k].1 as int]@,
                ),
    {
        let n = signs.len();
        let mut res: Vec<usize> = Vec::new();
        let mut i: usize = 0;
        while i < n
            invariant
                i <= n,
                n == signs.len(),
                n == classes.len(),
                res.len() == different_class_pairs(classes@, pair_rows(i as nat, n as nat)).len(),
                forall|k: int|
                    0 <= k < res.len() ==> #[trigger] res@[k] == sign_distance(
                        signs@[different_class_pairs(classes@, pair_rows(i as nat, n as nat))[k].0 as int]@,
                        signs@[different_class_pairs(classes@, pair_rows(i as nat, n as nat))[k].1 as int]@,
                    ),
            decreases n - i,
        {
            let mut j: usize = i + 1;
            while j < n
                invariant
                    i < n,
                    i + 1 <= j <= n,
                    n == signs.len(),
                    n == classes.len(),
                    res.len() == different_class_pairs(
                        classes@,
                        pair_rows(i as nat, n as nat) + pair_row(i as nat, n as nat).take(j - i - 1),
                    ).len(),
                    forall|k: int|
                        0 <= k < res.len() ==> #[trigger] res@[k] == sign_distance(
                            signs@[different_class_pairs(
                                classes@,
                                pair_rows(i as nat, n as nat) + pair_row(i as nat, n as nat).take(j - i - 1),
                            )[k].0 as int]@,
                            signs@[different_class_pairs(
                                classes@,
                                pair_rows(i as nat, n as nat) + pair_row(i as nat, n as nat).take(j - i - 1),
                            )[k].1 as int]@,
                        ),
                decreases n - j,
            {
                let ghost before = pair_rows(i as nat, n as nat) + pair_row(i as nat, n as nat).take(j - i - 1);
                let ghost after = pair_rows(i as nat, n as nat) + pair_row(i as nat, n as nat).take(j - i);
                proof {
                    let row = pair_row(i as nat, n as nat);
                    assert(row.take(j - i) == row.take(j - i - 1).push((i, j)));
                    assert(after == before.push((i, j)));
                    assert(after.drop_last() == before);
                }
                if classes[i] != classes[j] {
                    let d = Self::count_differing_signs(&signs[i], &signs[j]);
                    res.push(d);
                }
                j = j + 1;
            }
            proof {
                let row = pair_row(i as nat, n as nat);
                assert(row.take(row.len() as int) == row);
            }
            i = i + 1;
        }
        res
    }

    /// For one locker, the Hamming distances between what it reads of the
    /// templates of every pair of different classes, pairs (i, j) with
    /// i < j in order. Exact when the locker has fewer than 2^29 positions.
    pub fn diff_class_distances(templates: &[Template], index_set: &[usize]) -> (res: Vec<u64>)
        requires
            index_set_fits(templates@, index_set@),
        ensures
            res.len() == diff_class_template_pairs(templates@).len(),
            index_set.len() < 0x2000_0000 ==> forall|k: int|
                0 <= k < res.len() ==> #[trigger] res@[k] == locker_distance(
                    templates@,
                    index_set@,
                    diff_class_template_pairs(templates@)[k],
                ),
    {
        let selected = Self::select_templates(templates, index_set);
        let n = templates.len();
        let mut res: Vec<u64> = Vec::new();
        let mut i: usize = 0;
        while i < n
            invariant
                i <= n,
                n == templates.len(),
                selected.len() == n,
                forall|t: int| 0 <= t < n ==> (#[trigger] selected@[t])@ == project(templates@[t].data@, index_set@),
                res.len() == diff_class_only(templates@, pair_rows(i as nat, n as nat)).len(),
                index_set.len() < 0x2000_0000 ==> forall|k: int|
                    0 <= k < res.len() ==> #[trigger] res@[k] == locker_distance(
                        templates@,
                        index_set@,
                        diff_class_only(templates@, pair_rows(i as nat, n as nat))[k],
                    ),
            decreases n - i,
        {
            let mut j: usize = i + 1;
            while j < n
                invariant
                    i < n,
                    i + 1 <= j <= n,
                    n == templates.len(),
                    selected.len() == n,
                    forall|t: int| 0 <= t < n ==> (#[trigger] selected@[t])@ == project(templates@[t].data@, index_set@),
                    res.len() == diff_class_only(
                        templates@,
                        pair_rows(i as nat, n as nat) + pair_row(i as nat, n as nat).take(j - i - 1),
                    ).len(),
                    index_set.len() < 0x2000_0000 ==> forall|k: int|
                        0 <= k < res.len() ==> #[trigger] res@[k] == locker_distance(
                            templates@,
                            index_set@,
                            diff_class_only(
                                templates@,
                                pair_rows(i as nat, n as nat) + pair_row(i as nat, n as nat).take(
                                    j - i - 1,
                                ),
                            )[k],
                        ),
                decreases n - j,
            {
                let ghost before = pair_rows(i as nat, n as nat) + pair_row(i as nat, n as nat).take(j - i - 1);
                let ghost after = pair_rows(i as nat, n as nat) + pair_row(i as nat, n as nat).take(j - i);
                proof {
                    let row = pair_row(i as nat, n as nat);
                    assert(row.take(j - i) == row.take(j - i - 1).push((i, j)));
                    assert(after == before.push((i, j)));
                    assert(after.drop_last() == before);
                }
                if templates[i].class != templates[j].class {
                    let d = Self::calc_hamming(selected[i].as_slice(), selected[j].as_slice());
                    proof {
                        lemma_hamming_bound(selected@[i as int]@, selected@[j as int]@);
                    }
                    res.push(d);
                }
                j = j + 1;
            }
            proof {
                let row = pair_row(i as nat, n as nat);
                assert(row.take(row.len() as int) == row);
            }
            i = i + 1;
        }
        res
    }
}

} // verus!
