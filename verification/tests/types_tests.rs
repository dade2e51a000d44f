use lsh_lock::confidence::{parse_sampling_method, GenerationError, SamplingMethod};
use lsh_lock::types::AnalysisMode;

#[test]
fn analysis_mode_parses_names_ignoring_case() {
    assert_eq!(AnalysisMode::parse("single"), Ok(AnalysisMode::Single));
    assert_eq!(AnalysisMode::parse("PAIRS"), Ok(AnalysisMode::Pairs));
    assert_eq!(AnalysisMode::parse("BoTh"), Ok(AnalysisMode::Both));
    assert_eq!("pairs".parse::<AnalysisMode>(), Ok(AnalysisMode::Pairs));
}

#[test]
fn analysis_mode_refuses_unknown_names() {
    assert_eq!(
        AnalysisMode::parse("Triples"),
        Err("Unknown analysis mode: Triples. Use 'single', 'pairs', or 'both'".to_string())
    );
    assert!(AnalysisMode::parse(" single").is_err());
    assert!(AnalysisMode::parse("").is_err());
}

#[test]
fn analysis_mode_from_lowercase_quotes_original() {
    assert_eq!(AnalysisMode::from_lowercase("both", "BOTH"), Ok(AnalysisMode::Both));
    assert_eq!(
        AnalysisMode::from_lowercase("bothh", "BOTHH"),
        Err("Unknown analysis mode: BOTHH. Use 'single', 'pairs', or 'both'".to_string())
    );
}

#[test]
fn defaults_are_single_and_exponent() {
    assert_eq!(AnalysisMode::default(), AnalysisMode::Single);
    assert_eq!(SamplingMethod::default(), SamplingMethod::Exponent);
}

#[test]
fn sampling_method_names() {
    assert_eq!(parse_sampling_method(Some("like")), (SamplingMethod::Like, false));
    assert_eq!(parse_sampling_method(Some("ratio")), (SamplingMethod::Ratio, false));
    assert_eq!(parse_sampling_method(Some("exponent")), (SamplingMethod::Exponent, false));
    assert_eq!(parse_sampling_method(None), (SamplingMethod::Exponent, false));
    assert_eq!(parse_sampling_method(Some("Like")), (SamplingMethod::Exponent, true));
    assert_eq!(parse_sampling_method(Some("gaps")), (SamplingMethod::Exponent, true));
}

#[test]
fn generation_error_messages() {
    assert_eq!(
        GenerationError::WeightDistribution.message(),
        "Failed to create weight distribution"
    );
    assert_eq!(
        GenerationError::NonDuplicatingSubset.message(),
        "Failed to generate non-duplicating subset"
    );
    assert_eq!(
        GenerationError::NotEnoughUniqueIndices.message(),
        "Failed to generate enough unique indices after 1000000 attempts"
    );
}
