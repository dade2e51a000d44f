use vstd::prelude::*;
use vstd::string::*;

verus! {

/// Which statistics a correlation report holds: single bits, bit pairs, or both.
#[derive(Debug, Clone, Copy, PartialEq, Eq, Structural)]
pub enum AnalysisMode {
    Single,
    Pairs,
    Both,
}

/// The Unicode lower-case mapping of a string, as `str::to_lowercase` computes it.
pub uninterp spec fn lowercase(s: Seq<char>) -> Seq<char>;

/// Calls `str::to_lowercase`; its result is named `lowercase` of the argument,
/// a fixed function of the characters given (the Unicode tables of std).
#[verifier::external_body]
fn str_to_lowercase(s: &str) -> (res: String)
    ensures
        res@ == lowercase(s@),
{
    s.to_lowercase()
}

/// The message of a refused analysis mode.
pub open spec fn unknown_mode_message(s: Seq<char>) -> Seq<char> {
    "Unknown analysis mode: "@ + s + ". Use 'single', 'pairs', or 'both'"@
}

/// The mode that a lower-cased name selects, if any.
pub open spec fn mode_of_name(lower: Seq<char>) -> Option<AnalysisMode> {
    if lower == "single"@ {
        Some(AnalysisMode::Single)
    } else if lower == "pairs"@ {
        Some(AnalysisMode::Pairs)
    } else if lower == "both"@ {
        Some(AnalysisMode::Both)
    } else {
        None
    }
}

impl AnalysisMode {
    /// Selects the mode from an already lower-cased name; `original` is the
    /// text as the user wrote it, quoted in the error.
    pub fn from_lowercase(lower: &str, original: &str) -> (res: Result<AnalysisMode, String>)
        ensures
            mode_of_name(lower@) matches Some(m) ==> res == Ok::<AnalysisMode, String>(m),
            mode_of_name(lower@) is None ==> (res matches Err(e) && e@ == unknown_mode_message(original@)),
    {
        proof {
            reveal_strlit("single");
            reveal_strlit("pairs");
            reveal_strlit("both");
        }
        let l = String::from_str(lower);
        if l == String::from_str("single") {
            Ok(AnalysisMode::Single)
        } else if l == String::from_str("pairs") {
            Ok(AnalysisMode::Pairs)
        } else if l == String::from_str("both") {
            Ok(AnalysisMode::Both)
        } else {
            let mut e = String::from_str("Unknown analysis mode: ");
            e.append(original);
            e.append(". Use 'single', 'pairs', or 'both'");
            Err(e)
        }
    }

    /// Parses a mode name, ignoring case: "single", "pairs" or "both".
    pub fn parse(s: &str) -> (res: Result<AnalysisMode, String>)
        ensures
            mode_of_name(lowercase(s@)) matches Some(m) ==> res == Ok::<AnalysisMode, String>(m),
            mode_of_name(lowercase(s@)) is None ==> (res matches Err(e) && e@ == unknown_mode_message(s@)),
    {
        let lower = str_to_lowercase(s);
        Self::from_lowercase(lower.as_str(), s)
    }
}

impl std::str::FromStr for AnalysisMode {
    type Err = String;

    fn from_str(s: &str) -> (res: Result<AnalysisMode, String>)
        ensures
            mode_of_name(lowercase(s@)) matches Some(m) ==> res == Ok::<AnalysisMode, String>(m),
            mode_of_name(lowercase(s@)) is None ==> (res matches Err(e) && e@ == unknown_mode_message(s@)),
    {
        AnalysisMode::parse(s)
    }
}

impl Default for AnalysisMode {
    fn default() -> (res: AnalysisMode)
        ensures
            res == AnalysisMode::Single,
    {
        AnalysisMode::Single
    }
}

} // verus!
