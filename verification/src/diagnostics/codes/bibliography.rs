//! Codes for the `bibliography` area.
use vstd::prelude::*;

verus! {

/// Diagnostic code `MQ0301`.
pub const CITATION_KEY_MISSING: &'static str = "MQ0301";
/// Diagnostic code `MQ0302`.
pub const BIBLIOGRAPHY_SYNTHESIZED: &'static str = "MQ0302";

} // verus!
