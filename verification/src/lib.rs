//! Verified core of a fuzzy extractor built on locality-sensitive hashing:
//! locker generation, bit-level correlation counting, template parsing and
//! the decision logic of true-accept-rate analysis.

pub mod types;
pub mod rng;
pub mod confidence;
pub mod entropy;
pub mod template_format;
pub mod text;
pub mod hamming;
pub mod tar;
