use lsh_lock::confidence::{
    diff_class_pairs, generate_bit_pairs, same_class_pairs, sum_pair_results, CorrelationAnalyzer,
    PairResults,
};

fn counts(c00: usize, c01: usize, c10: usize, c11: usize) -> PairResults {
    PairResults { count_00: c00, count_01: c01, count_10: c10, count_11: c11 }
}

#[test]
fn bit_pairs_of_four_positions() {
    assert_eq!(
        generate_bit_pairs(4),
        vec![(0, 1), (0, 2), (0, 3), (1, 2), (1, 3), (2, 3)]
    );
    assert_eq!(generate_bit_pairs(1), Vec::<(usize, usize)>::new());
    assert_eq!(generate_bit_pairs(1024).len(), 1024 * 1023 / 2);
}

#[test]
fn folder_pairs() {
    assert_eq!(diff_class_pairs(3), vec![(0, 1), (0, 2), (1, 2)]);
    assert_eq!(diff_class_pairs(0), Vec::<(usize, usize)>::new());
    assert_eq!(same_class_pairs(3), vec![(0, 0), (1, 1), (2, 2)]);
}

#[test]
fn add_comparison_counts_each_outcome() {
    let mut r = PairResults::default();
    assert_eq!(r, counts(0, 0, 0, 0));
    r.add_comparison(true, true);
    r.add_comparison(true, false);
    r.add_comparison(false, true);
    r.add_comparison(false, false);
    r.add_comparison(false, false);
    assert_eq!(r, counts(1, 1, 1, 2));
}

#[test]
fn merge_and_checked_sum() {
    let mut a = counts(1, 2, 3, 4);
    a.merge(&counts(10, 20, 30, 40));
    assert_eq!(a, counts(11, 22, 33, 44));
    assert_eq!(a.checked_sum(&counts(1, 1, 1, 1)), Some(counts(12, 23, 34, 45)));
    assert_eq!(a.checked_sum(&counts(0, usize::MAX, 0, 0)), None);
}

#[test]
fn single_bits_mark_differences() {
    assert_eq!(
        CorrelationAnalyzer::process_pair_single_bits(&[1, 0, 1, 1], &[1, 1, 0]),
        vec![false, true, true]
    );
    assert_eq!(CorrelationAnalyzer::process_pair_single_bits(&[], &[1]), Vec::<bool>::new());
}

#[test]
fn bit_pairs_compare_both_positions() {
    let a = [1u8, 0, 1, 0];
    let b = [1u8, 1, 1];
    let pairs = [(0, 1), (0, 2), (1, 2), (2, 3)];
    let r = CorrelationAnalyzer::process_pair_bit_pairs(&a, &b, &pairs);
    assert_eq!(
        r,
        vec![counts(0, 1, 0, 0), counts(1, 0, 0, 0), counts(0, 0, 1, 0), counts(0, 0, 0, 0)]
    );
}

#[test]
fn tally_of_folder_comparisons() {
    let pairs = generate_bit_pairs(3);
    let comparisons = vec![
        (vec![1u8, 0, 1], vec![1u8, 1, 1]),
        (vec![0u8, 0, 0], vec![1u8, 0, 1]),
        (vec![1u8, 1], vec![1u8, 1]),
    ];
    let t = CorrelationAnalyzer::tally_comparisons(&comparisons, &pairs);
    assert_eq!(t.comparisons, 3);
    assert_eq!(t.differences, vec![1, 1, 1]);
    // pair (0,1): same/diff, diff/same, same/same
    // pair (0,2): same/same, diff/diff, out of range
    // pair (1,2): diff/same, same/diff, out of range
    assert_eq!(
        t.pair_results,
        vec![counts(1, 1, 1, 0), counts(1, 0, 0, 1), counts(0, 1, 1, 0)]
    );
}

#[test]
fn tally_keeps_length_of_first_nonempty_comparison() {
    let pairs = generate_bit_pairs(2);
    let comparisons = vec![
        (vec![], vec![1u8]),
        (vec![1u8, 0], vec![0u8, 0]),
        (vec![0u8, 1, 1], vec![0u8, 0, 0]),
    ];
    let t = CorrelationAnalyzer::tally_comparisons(&comparisons, &pairs);
    assert_eq!(t.differences, vec![1, 1]);
    assert_eq!(t.pair_results, vec![counts(0, 1, 1, 0)]);
    let empty = CorrelationAnalyzer::tally_comparisons(&Vec::new(), &pairs);
    assert_eq!(empty.comparisons, 0);
    assert!(empty.differences.is_empty() && empty.pair_results.is_empty());
}

#[test]
fn pair_results_are_summed_per_pair() {
    let results = vec![
        vec![counts(1, 0, 0, 0), counts(0, 1, 0, 0)],
        vec![counts(2, 0, 0, 1), counts(0, 0, 3, 0), counts(9, 9, 9, 9)],
    ];
    assert_eq!(
        sum_pair_results(&results, 2),
        Some(vec![counts(3, 0, 0, 1), counts(0, 1, 3, 0)])
    );
    assert_eq!(sum_pair_results(&results, 3), None);
    let big = vec![vec![counts(usize::MAX, 0, 0, 0)], vec![counts(1, 0, 0, 0)]];
    assert_eq!(sum_pair_results(&big, 1), None);
    assert_eq!(sum_pair_results(&Vec::new(), 2), Some(vec![counts(0, 0, 0, 0); 2]));
}

#[test]
fn analyzer_keeps_its_settings() {
    let a = CorrelationAnalyzer::new(std::path::PathBuf::from("data"), 100, 1024);
    assert_eq!(a.num_files(), 100);
    assert_eq!(a.dimensions(), 1024);
    assert_eq!(a.base_path(), &std::path::PathBuf::from("data"));
}

#[test]
fn bitstring_files_skip_bad_fields() {
    assert_eq!(CorrelationAnalyzer::parse_bitstring("1,0,1,"), vec![1, 0, 1]);
    assert_eq!(CorrelationAnalyzer::parse_bitstring("1,0,1\n"), vec![1, 0]);
    assert_eq!(CorrelationAnalyzer::parse_bitstring("+5,256,-1,,007,+,x"), vec![5, 7]);
    assert_eq!(CorrelationAnalyzer::parse_bitstring(""), Vec::<u8>::new());
    assert_eq!(CorrelationAnalyzer::parse_bitstring(",,,"), Vec::<u8>::new());
    assert_eq!(CorrelationAnalyzer::parse_bitstring("255,0"), vec![255, 0]);
}

#[test]
fn written_templates_read_back() {
    let values: Vec<u8> = vec![0, 1, 9, 10, 99, 100, 255, 7];
    let text: String = values.iter().map(|v| format!("{},", v)).collect();
    assert_eq!(CorrelationAnalyzer::parse_bitstring(&text), values);
    assert_eq!(
        lsh_lock::entropy::TemplateReader::parse_template(&text),
        Some(values.clone())
    );
}
