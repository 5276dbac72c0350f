//! Codes for the `config` area.
use vstd::prelude::*;

verus! {

/// Diagnostic code `MQ0401`.
pub const UNMAPPABLE_FIELD_PRESERVED: &'static str = "MQ0401";
/// Diagnostic code `MQ0402`.
pub const MANUSCRIPT_TOC_ENTRY_PRESERVED: &'static str = "MQ0402";
/// Diagnostic code `MQ0403`.
pub const BOOK_PART_GROUPING_FLATTENED: &'static str = "MQ0403";
/// Diagnostic code `MQ0404`.
pub const BOOK_APPENDICES_FLATTENED: &'static str = "MQ0404";
/// Diagnostic code `MQ0405`.
pub const CATEGORIES_NARROWED_TO_SUBJECT: &'static str = "MQ0405";
/// Diagnostic code `MQ0406`.
pub const EXPORT_FORMAT_DROPPED: &'static str = "MQ0406";
/// Diagnostic code `MQ0407`.
pub const EXPORT_FORMAT_GUESSED: &'static str = "MQ0407";
/// Diagnostic code `MQ0408`.
pub const FORMAT_PASSED_THROUGH: &'static str = "MQ0408";
/// Diagnostic code `MQ0409`.
pub const UNRECOGNIZED_TOP_LEVEL_KEY_DROPPED: &'static str = "MQ0409";
/// Diagnostic code `MQ0410`.
pub const FRONTMATTER_FIELD_DROPPED: &'static str = "MQ0410";
/// Diagnostic code `MQ0411`.
pub const BANNER_AND_THUMBNAIL_BOTH_SET: &'static str = "MQ0411";

} // verus!
