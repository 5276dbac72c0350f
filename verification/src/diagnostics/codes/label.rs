//! Codes for the `label` area.
use vstd::prelude::*;

verus! {

/// Diagnostic code `MQ0101`.
pub const COLLISION_DISAMBIGUATED: &'static str = "MQ0101";
/// Diagnostic code `MQ0102`.
pub const NOTEBOOK_CELL_CLAIMED_BY_ANOTHER_DOCUMENT: &'static str = "MQ0102";
/// Diagnostic code `MQ0103`.
pub const LABEL_SIDECAR_REFUSED: &'static str = "MQ0103";
/// Diagnostic code `MQ0104`.
pub const LABEL_SIDECAR_ENTRY_DROPPED: &'static str = "MQ0104";
/// Diagnostic code `MQ0105`.
pub const RELABEL_SKIPPED_OUTPUT_IN_INPUT_TREE: &'static str = "MQ0105";

} // verus!
