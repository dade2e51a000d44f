use lsh_lock::confidence::{ConfidenceLine, ConfidenceReader};

fn classify(line: &str) -> ConfidenceLine {
    assert!(ConfidenceReader::can_classify(line));
    ConfidenceReader::classify_line(line)
}

fn pair_values(line: &str) -> Vec<String> {
    match classify(line) {
        ConfidenceLine::PairValues(v) => v,
        _ => panic!("not a pair line"),
    }
}

#[test]
fn single_bit_line_gives_like_and_unlike() {
    match classify("Hamming distance, Like/Unlike/Difference = 7 0.12 0.48 0.36") {
        ConfidenceLine::SingleValues(like, unlike) => {
            assert_eq!(like, "0.12");
            assert_eq!(unlike, "0.48");
        }
        _ => panic!("not a single-bit line"),
    }
}

#[test]
fn single_bit_line_with_too_few_values_is_ignored() {
    assert!(matches!(
        classify("Hamming distance, Like/Unlike/Difference = 7 0.12 0.48"),
        ConfidenceLine::Ignored
    ));
}

#[test]
fn single_bit_line_splits_at_single_spaces() {
    match classify("Hamming distance, Like/Unlike/Difference =  7  0.5 0.25 ") {
        ConfidenceLine::SingleValues(like, unlike) => {
            assert_eq!(like, "");
            assert_eq!(unlike, "0.5");
        }
        _ => panic!("not a single-bit line"),
    }
}

#[test]
fn pair_line_gives_values_after_parenthesis() {
    assert_eq!(
        pair_values("Hamming distance, Like/Unlike/Difference (3, 9) 0.9 0.05 0.03 0.02 0.25 0.25 0.25 0.25"),
        vec!["0.9", "0.05", "0.03", "0.02", "0.25", "0.25", "0.25", "0.25"]
    );
}

#[test]
fn pair_line_values_stop_at_next_parenthesis() {
    assert_eq!(
        pair_values("Hamming distance (1, 2)\t1 2\u{a0}3 ) 4 5"),
        vec!["1", "2", "3"]
    );
    assert_eq!(pair_values("Hamming distance (1, 2)"), Vec::<String>::new());
}

#[test]
fn pair_line_without_closing_parenthesis() {
    assert!(matches!(
        classify("Hamming distance (1, 2 0.5 0.5"),
        ConfidenceLine::MissingClosingParenthesis
    ));
}

#[test]
fn other_lines_are_ignored() {
    assert!(matches!(classify("hamming distance (1, 2) 1 2"), ConfidenceLine::Ignored));
    assert!(matches!(classify(""), ConfidenceLine::Ignored));
    assert!(matches!(classify("Hamming distance only"), ConfidenceLine::Ignored));
    assert!(matches!(classify(" Hamming distance, Like/Unlike/Difference = 1 2 3 4"), ConfidenceLine::Ignored));
}

#[test]
fn single_bit_line_too_short_to_cut() {
    assert!(!ConfidenceReader::can_classify("Hamming distanceLike/Unlike/Difference"));
    assert!(!ConfidenceReader::can_classify(
        "Hamming distance, Like/Unlike/Difference é 1 2 3 4"
    ));
    assert!(ConfidenceReader::can_classify("Hamming distance (1, 2) é"));
}

#[test]
fn report_lines_are_laid_out_as_written() {
    assert_eq!(
        lsh_lock::confidence::CorrelationAnalyzer::single_bit_line(12, "0.1", "0.45", "0.35"),
        "Hamming distance, Like/Unlike/Difference = 12 0.1 0.45 0.35"
    );
    let values: Vec<String> = vec!["0.5".into(), "0.25".into(), "NaN".into()];
    assert_eq!(
        lsh_lock::confidence::CorrelationAnalyzer::bit_pair_line(0, 1023, &values),
        "Hamming distance, Like/Unlike/Difference (0, 1023) 0.5 0.25 NaN"
    );
    assert_eq!(
        lsh_lock::confidence::CorrelationAnalyzer::bit_pair_line(7, 8, &Vec::new()),
        "Hamming distance, Like/Unlike/Difference (7, 8)"
    );
}

#[test]
fn report_lines_read_back() {
    let single = lsh_lock::confidence::CorrelationAnalyzer::single_bit_line(5, "0.3", "0.6", "0.3");
    match classify(&single) {
        ConfidenceLine::SingleValues(like, unlike) => {
            assert_eq!(like, "0.3");
            assert_eq!(unlike, "0.6");
        }
        _ => panic!("not a single-bit line"),
    }
    let values: Vec<String> = ["0.9", "0.01", "0.04", "0.05", "0.6", "0.1", "0.1", "0.2"]
        .iter()
        .map(|s| s.to_string())
        .collect();
    let pair = lsh_lock::confidence::CorrelationAnalyzer::bit_pair_line(3, 4, &values);
    assert_eq!(pair_values(&pair), values);
}
