use lsh_lock::tar::{TARAnalyzer, TarError, MAX_CLASS_FILES};

fn positions() -> Vec<Vec<usize>> {
    vec![vec![0, 1], vec![2, 3]]
}

#[test]
fn tar_hamming_counts_bits() {
    assert_eq!(TARAnalyzer::calc_hamming(&[0xFF, 0x01], &[0x0F, 0x00]), 5);
    assert_eq!(TARAnalyzer::calc_hamming(&[1, 2, 3], &[1, 2, 3]), 0);
    assert_eq!(TARAnalyzer::calc_hamming(&[1], &[1, 2]), u64::MAX);
    assert_eq!(TARAnalyzer::calc_hamming(&[], &[]), 0);
}

#[test]
fn permutations_match_when_one_locker_agrees() {
    let a = vec![vec![1u8, 0], vec![1u8, 1]];
    let b = vec![vec![1u8, 1], vec![1u8, 1]];
    let c = vec![vec![0u8, 0], vec![0u8, 0]];
    assert!(TARAnalyzer::compare_permutations(&a, &b));
    assert!(TARAnalyzer::compare_permutations(&b, &a));
    assert!(!TARAnalyzer::compare_permutations(&a, &c));
    assert!(!TARAnalyzer::compare_permutations(&a, &[]));
    assert!(!TARAnalyzer::compare_permutations(&[vec![1u8]], &[vec![1u8, 0]]));
}

#[test]
fn permutations_batch_reads_positions() {
    let templates = vec![vec![1u8, 0, 1, 1], vec![0u8, 0, 1, 0]];
    let perms = TARAnalyzer::create_permutations_batch(&templates, &positions());
    assert_eq!(perms, vec![vec![vec![1, 0], vec![1, 1]], vec![vec![0, 0], vec![1, 0]]]);
}

#[test]
fn single_class_counts_unlocked_templates() {
    let same = vec![vec![1u8, 0, 1, 1]; 4];
    assert_eq!(TARAnalyzer::process_single_class(&same, &positions()), (3, 3));
    let apart = vec![vec![1u8, 1, 1, 1], vec![0u8, 0, 0, 0], vec![1u8, 0, 0, 1]];
    assert_eq!(TARAnalyzer::process_single_class(&apart, &positions()), (0, 2));
    assert_eq!(TARAnalyzer::process_single_class(&[], &positions()), (0, 0));
    assert_eq!(TARAnalyzer::process_single_class(&[vec![1u8; 4]], &positions()), (0, 0));
}

#[test]
fn multi_class_needs_enough_templates() {
    let templates = vec![vec![1u8, 0, 1, 1]; 3];
    assert!(TARAnalyzer::process_single_class_multi(&templates, &positions(), 4, 1).is_none());
    let o = TARAnalyzer::process_single_class_multi(&templates, &positions(), 3, 1).unwrap();
    assert!(o.found);
    assert_eq!(o.base_indices.len(), 1);
    assert_eq!(o.comparison_indices.len(), 2);
    let mut all: Vec<usize> = o.base_indices.iter().chain(o.comparison_indices.iter()).cloned().collect();
    all.sort();
    assert_eq!(all, vec![0, 1, 2]);
}

#[test]
fn multi_class_without_match() {
    let templates = vec![vec![1u8, 1, 1, 1], vec![0u8, 0, 0, 0], vec![0u8, 1, 1, 0]];
    let o = TARAnalyzer::process_single_class_multi(&templates, &positions(), 3, 2).unwrap();
    assert!(!o.found);
    assert_eq!(o.comparison_indices.len(), 1);
    let none = TARAnalyzer::process_single_class_multi(&templates, &positions(), 2, 2).unwrap();
    assert!(!none.found);
    assert!(none.comparison_indices.is_empty());
}

#[test]
fn selection_match_compares_base_with_rest() {
    let templates = vec![vec![1u8, 1, 0, 0], vec![0u8, 0, 0, 0], vec![1u8, 1, 1, 1]];
    assert!(TARAnalyzer::match_with_selection(&templates, &positions(), 1));
    assert!(!TARAnalyzer::match_with_selection(&templates, &positions(), 3));
    assert!(!TARAnalyzer::match_with_selection(&templates, &positions(), 0));
    let apart = vec![vec![1u8, 1, 1, 1], vec![0u8, 0, 0, 0]];
    assert!(!TARAnalyzer::match_with_selection(&apart, &positions(), 1));
}

#[test]
fn names_resolve_to_positions() {
    let available: Vec<String> = vec!["a.txt".into(), "b.txt".into(), "a.txt".into()];
    let wanted: Vec<String> = vec!["b.txt".into(), "a.txt".into()];
    assert_eq!(TARAnalyzer::resolve_names(&available, &wanted), Some(vec![1, 2]));
    let missing: Vec<String> = vec!["c.txt".into()];
    assert_eq!(TARAnalyzer::resolve_names(&available, &missing), None);
    assert_eq!(TARAnalyzer::resolve_names(&available, &Vec::new()), Some(vec![]));
}

#[test]
fn class_results_are_summed() {
    assert_eq!(TARAnalyzer::sum_class_results(&vec![(1, 3), (2, 5), (0, 0)]), Some((3, 8)));
    assert_eq!(TARAnalyzer::sum_class_results(&vec![]), Some((0, 0)));
    assert_eq!(TARAnalyzer::sum_class_results(&vec![(usize::MAX, 1), (1, 1)]), None);
}

#[test]
fn multi_parameters_are_checked() {
    assert_eq!(TARAnalyzer::validate_multi(10, 1), Ok(()));
    assert_eq!(TARAnalyzer::validate_multi(3, 3), Err(TarError::BaseCountNotBelowTries));
    assert_eq!(
        TarError::BaseCountNotBelowTries.message(),
        "Base count must be less than the number of tries"
    );
}

#[test]
fn class_files_are_chosen() {
    assert_eq!(TARAnalyzer::choose_class_files(0), None);
    assert_eq!(TARAnalyzer::choose_class_files(1), None);
    assert_eq!(TARAnalyzer::choose_class_files(3), Some(vec![0, 1, 2]));
    assert_eq!(TARAnalyzer::choose_class_files(11).map(|v| v.len()), Some(11));
    let chosen = TARAnalyzer::choose_class_files(40).unwrap();
    assert_eq!(chosen.len(), MAX_CLASS_FILES);
    let mut sorted = chosen.clone();
    sorted.sort();
    sorted.dedup();
    assert_eq!(sorted.len(), MAX_CLASS_FILES);
    assert!(chosen.iter().all(|&i| i < 40));
}

#[test]
fn multi_files_are_chosen() {
    assert_eq!(TARAnalyzer::choose_multi_files(4, 5), None);
    let mut chosen = TARAnalyzer::choose_multi_files(5, 5).unwrap();
    chosen.sort();
    assert_eq!(chosen, vec![0, 1, 2, 3, 4]);
    assert_eq!(TARAnalyzer::choose_multi_files(9, 3).map(|v| v.len()), Some(3));
    assert_eq!(TARAnalyzer::choose_multi_files(0, 0), Some(vec![]));
}

#[test]
fn binary_files_skip_bad_fields() {
    assert_eq!(TARAnalyzer::parse_binary_content("0,1,1,0,"), vec![0, 1, 1, 0]);
    assert_eq!(TARAnalyzer::parse_binary_content("0, 1,1"), vec![0, 1]);
}

#[test]
fn sign_matches_count_pairs_sharing_a_locker() {
    let t0 = vec![vec![true, false], vec![true, true]];
    let t1 = vec![vec![true, true], vec![true, true]];
    let t2 = vec![vec![false, false], vec![false, true]];
    let signs = vec![t0, t1, t2];
    // (0, 1) agree on locker 1; (0, 2) and (1, 2) agree on none.
    assert_eq!(TARAnalyzer::count_sign_matches(&signs), (1, 3));
    assert_eq!(TARAnalyzer::count_sign_matches(&vec![]), (0, 0));
    let same = vec![vec![vec![true]], vec![vec![true]], vec![vec![true]], vec![vec![true]]];
    assert_eq!(TARAnalyzer::count_sign_matches(&same), (6, 6));
}

#[test]
fn replaying_a_selection_gives_the_same_outcome() {
    let templates = vec![
        vec![1u8, 1, 0, 0],
        vec![0u8, 0, 0, 0],
        vec![1u8, 1, 1, 1],
        vec![0u8, 1, 1, 1],
        vec![1u8, 0, 0, 1],
    ];
    for _ in 0..20 {
        let o = TARAnalyzer::process_single_class_multi(&templates, &positions(), 4, 2).unwrap();
        let replayed: Vec<Vec<u8>> = o
            .base_indices
            .iter()
            .chain(o.comparison_indices.iter())
            .map(|&i| templates[i].clone())
            .collect();
        assert_eq!(
            TARAnalyzer::match_with_selection(&replayed, &positions(), o.base_indices.len()),
            o.found
        );
    }
}
