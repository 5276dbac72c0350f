//! Codes for the `io` area.
use vstd::prelude::*;

verus! {

/// Diagnostic code `MQ0601`.
pub const NOTEBOOK_UNREADABLE: &'static str = "MQ0601";
/// Diagnostic code `MQ0602`.
pub const NOTEBOOK_INDEX_FAILED: &'static str = "MQ0602";
/// Diagnostic code `MQ0603`.
pub const NOTEBOOK_RELABEL_FAILED: &'static str = "MQ0603";
/// Diagnostic code `MQ0604`.
pub const SYMLINK_ASSET_SKIPPED: &'static str = "MQ0604";
/// Diagnostic code `MQ0605`.
pub const PATH_SAFETY_REFUSED: &'static str = "MQ0605";

} // verus!
