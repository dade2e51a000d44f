use lsh_lock::entropy::{AnalysisTool, CosineLocker, Template, TemplateReader};

fn template(class: &str, data: &[u8]) -> Template {
    Template { class: class.to_string(), data: data.to_vec() }
}

#[test]
fn analysis_hamming_counts_bits() {
    assert_eq!(AnalysisTool::calc_hamming(&[0b1010_1010], &[0b0101_0101]), 8);
    assert_eq!(AnalysisTool::calc_hamming(&[1, 0, 1], &[1, 1, 1]), 1);
    assert_eq!(AnalysisTool::calc_hamming(&[1], &[1, 1]), 0);
}

#[test]
fn templates_are_projected_on_positions() {
    let templates = vec![template("a", &[1, 0, 1]), template("b", &[0, 0, 1])];
    assert_eq!(
        AnalysisTool::select_templates(&templates, &[2, 0, 2]),
        vec![vec![1, 1, 1], vec![1, 0, 1]]
    );
}

#[test]
fn distances_cover_pairs_of_different_classes() {
    let templates = vec![
        template("a", &[1, 0, 1, 1]),
        template("a", &[0, 0, 1, 1]),
        template("b", &[1, 1, 1, 0]),
        template("c", &[0, 1, 0, 0]),
    ];
    // pairs (0,2), (0,3), (1,2), (1,3), (2,3) on positions 0, 1, 3
    assert_eq!(
        AnalysisTool::diff_class_distances(&templates, &[0, 1, 3]),
        vec![2, 3, 3, 2, 1]
    );
    let one_class = vec![template("a", &[1]), template("a", &[0])];
    assert_eq!(AnalysisTool::diff_class_distances(&one_class, &[0]), Vec::<u64>::new());
}

#[test]
fn cosine_locker_seeds() {
    let locker = CosineLocker::new(6);
    assert_eq!(locker.seeds().len(), 6);
    let fixed = CosineLocker::from_seeds(vec![3, 1, 4]);
    assert_eq!(fixed.seeds(), &vec![3, 1, 4]);
    assert!(CosineLocker::new(0).seeds().is_empty());
}

#[test]
fn strict_templates_refuse_bad_fields() {
    assert_eq!(TemplateReader::parse_template("1,0,1,1,"), Some(vec![1, 0, 1, 1]));
    assert_eq!(TemplateReader::parse_template("1,0,1\n"), None);
    assert_eq!(TemplateReader::parse_template("1,,0"), None);
    assert_eq!(TemplateReader::parse_template(""), None);
    assert_eq!(TemplateReader::parse_template("+1,12,255"), Some(vec![1, 12, 255]));
}

#[test]
fn sign_distances_cover_pairs_of_different_classes() {
    let classes = vec!["a".to_string(), "a".to_string(), "b".to_string()];
    let signs = vec![
        vec![true, true, false, false],
        vec![true, false, false, false],
        vec![false, false, true, false],
    ];
    // pairs of different classes: (0, 2) and (1, 2)
    assert_eq!(AnalysisTool::diff_class_sign_distances(&classes, &signs), vec![3, 2]);
    assert_eq!(
        AnalysisTool::diff_class_sign_distances(&vec!["x".to_string()], &vec![vec![true]]),
        Vec::<usize>::new()
    );
}
