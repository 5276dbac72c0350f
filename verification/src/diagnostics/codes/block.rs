//! Codes for the `block` area.
use vstd::prelude::*;

verus! {

/// Diagnostic code `MQ0201`.
pub const UNMAPPABLE_PRESERVED: &'static str = "MQ0201";
/// Diagnostic code `MQ0202`.
pub const PRESERVED_RESTORED_OPAQUE: &'static str = "MQ0202";
/// Diagnostic code `MQ0203`.
pub const PRESERVATION_ENTRY_MISSING: &'static str = "MQ0203";
/// Diagnostic code `MQ0204`.
pub const PRESERVATION_SIDECAR_NOT_WRITTEN: &'static str = "MQ0204";

} // verus!
