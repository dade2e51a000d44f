use lsh_lock::confidence::{GenerationError, SubsetBuilder};
use lsh_lock::entropy::{RandomIndicesGenerator, UniqueSampler};
use lsh_lock::rng::{contains_index, index_range, sample_indices};

fn distinct(v: &[usize]) -> bool {
    (0..v.len()).all(|i| (0..v.len()).all(|j| i == j || v[i] != v[j]))
}

#[test]
fn subset_builder_follows_draws() {
    let bad = vec![1usize];
    let mut b = SubsetBuilder::new(3, &bad, 4);
    assert!(b.wants_sample());
    b.record(2); // positions 0 and 2
    b.record(5); // position 1 is bad: nothing
    b.record(7); // position 1 is bad: nothing
    b.record(2); // both present already
    assert!(b.wants_sample());
    b.record(3); // 0 present, 3 added
    assert!(!b.wants_sample());
    assert_eq!(b.finish(), Ok(vec![0, 2, 3]));
}

#[test]
fn subset_builder_adds_second_position_only_with_room() {
    let bad: Vec<usize> = Vec::new();
    let mut b = SubsetBuilder::new(3, &bad, 10);
    b.record(12); // 1 and 2
    b.record(34); // 3 added, 4 would exceed the size
    assert!(!b.wants_sample());
    assert_eq!(b.finish(), Ok(vec![1, 2, 3]));
}

#[test]
fn subset_builder_reports_short_subset() {
    let bad = vec![0usize, 1];
    let mut b = SubsetBuilder::new(2, &bad, 2);
    for _ in 0..5 {
        b.record(1);
    }
    assert_eq!(b.finish(), Err(GenerationError::NonDuplicatingSubset));
}

#[test]
fn subset_builder_with_zero_size_is_done() {
    let bad: Vec<usize> = Vec::new();
    let b = SubsetBuilder::new(0, &bad, 8);
    assert!(!b.wants_sample());
    assert_eq!(b.finish(), Ok(vec![]));
}

#[test]
fn random_indices_are_unique_and_in_range() {
    let r = RandomIndicesGenerator::generate(20, 8, 16).unwrap();
    assert_eq!(r.0.len(), 20);
    for set in &r.0 {
        assert_eq!(set.len(), 8);
        assert!(distinct(set));
        assert!(set.iter().all(|&x| x < 16));
    }
}

#[test]
fn random_indices_can_take_every_position() {
    let r = RandomIndicesGenerator::generate(3, 5, 5).unwrap();
    for set in &r.0 {
        let mut s = set.clone();
        s.sort();
        assert_eq!(s, vec![0, 1, 2, 3, 4]);
    }
}

#[test]
fn random_indices_fail_when_size_exceeds_dimensions() {
    assert_eq!(
        RandomIndicesGenerator::generate(2, 6, 5).err(),
        Some(GenerationError::NotEnoughUniqueIndices)
    );
}

#[test]
fn random_indices_with_nothing_to_draw() {
    assert_eq!(RandomIndicesGenerator::generate(0, 6, 0).unwrap().0.len(), 0);
    let r = RandomIndicesGenerator::generate(3, 0, 0).unwrap();
    assert_eq!(r.0, vec![Vec::<usize>::new(); 3]);
}

#[test]
fn sample_indices_are_distinct() {
    let s = sample_indices(10, 4);
    assert_eq!(s.len(), 4);
    assert!(distinct(&s));
    assert!(s.iter().all(|&x| x < 10));
    let mut all = sample_indices(3, 7);
    all.sort();
    assert_eq!(all, vec![0, 1, 2]);
    assert_eq!(sample_indices(0, 3), Vec::<usize>::new());
}

#[test]
fn index_range_and_contains() {
    let v = index_range(4);
    assert_eq!(v, vec![0, 1, 2, 3]);
    assert!(contains_index(&v, 3));
    assert!(!contains_index(&v, 4));
}

#[test]
fn unique_sampler_keeps_first_distinct_draws() {
    let mut s = UniqueSampler::new(3);
    for x in [4usize, 4, 2, 4, 7] {
        assert!(s.wants_sample());
        s.record(x);
        if !s.wants_sample() {
            break;
        }
    }
    assert!(!s.wants_sample());
    assert_eq!(s.finish().unwrap(), vec![4, 2, 7]);
}

#[test]
fn unique_sampler_reports_short_locker() {
    let mut s = UniqueSampler::new(2);
    s.record(5);
    s.record(5);
    assert!(s.wants_sample());
    assert_eq!(s.finish().err(), Some(GenerationError::NotEnoughUniqueIndices));
    assert_eq!(UniqueSampler::new(0).finish().unwrap(), Vec::<usize>::new());
}

#[test]
fn drawn_locker_is_distinct_and_in_range() {
    let v = RandomIndicesGenerator::draw_locker(6, 10).unwrap();
    assert_eq!(v.len(), 6);
    assert!(distinct(&v));
    assert!(v.iter().all(|&x| x < 10));
    assert_eq!(
        RandomIndicesGenerator::draw_locker(4, 3).err(),
        Some(GenerationError::NotEnoughUniqueIndices)
    );
    assert_eq!(RandomIndicesGenerator::draw_locker(0, 0).unwrap().len(), 0);
}
