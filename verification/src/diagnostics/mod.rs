//! Unified lossy-conversion diagnostics.
use vstd::prelude::*;
use crate::span::Span;

pub mod codes;

verus! {

/// The four-class severity policy, ordered `Info < LossyExpected < Warning < Error`.
#[derive(Debug, Clone, Copy, PartialEq, Eq, PartialOrd, Ord)]
pub enum Severity {
    Info,
    LossyExpected,
    Warning,
    Error,
}

impl Severity {
    /// The word used in human output.
    pub fn label(self) -> (r: &'static str)
        ensures
            r@ == match self {
                Severity::Info => "info"@,
                Severity::LossyExpected => "lossy"@,
                Severity::Warning => "warning"@,
                Severity::Error => "error"@,
            },
    {
        match self {
            Severity::Info => "info",
            Severity::LossyExpected => "lossy",
            Severity::Warning => "warning",
            Severity::Error => "error",
        }
    }
}

/// One lossy-conversion notice: what happened, how severe, where, and (for a
/// preserved construct) where to find the original.
#[derive(Debug, Clone, PartialEq, Eq)]
pub struct Diagnostic {
    pub severity: Severity,
    pub code: &'static str,
    pub message: String,
    pub file: Option<String>,
    pub span: Span,
    pub reference: Option<&'static str>,
    pub preserved: Option<String>,
}

impl Diagnostic {
    /// A run-scoped diagnostic at line 1 with no file, reference or preserved id.
    pub fn new(severity: Severity, code: &'static str, message: &str) -> (d: Diagnostic)
        ensures
            d.severity == severity,
            d.code == code,
            d.message@ == message@,
            d.file is None,
            d.span == (Span { start_line: 1, end_line: 1 }),
            d.reference is None,
            d.preserved is None,
    {
        Diagnostic {
            severity,
            code,
            message: String::from_str(message),
            file: None,
            span: Span::single(1),
            reference: None,
            preserved: None,
        }
    }

    /// Sets the file.
    pub fn with_file(self, file: &str) -> (d: Diagnostic)
        ensures
            d == (Diagnostic { file: d.file, ..self }),
            d.file matches Some(f) && f@ == file@,
    {
        let mut d = self;
        d.file = Some(String::from_str(file));
        d
    }

    /// Sets the span.
    pub fn with_span(self, span: Span) -> (d: Diagnostic)
        ensures
            d == (Diagnostic { span, ..self }),
    {
        let mut d = self;
        d.span = span;
        d
    }

    /// Sets the reference section.
    pub fn with_reference(self, reference: &'static str) -> (d: Diagnostic)
        ensures
            d == (Diagnostic { reference: Some(reference), ..self }),
    {
        let mut d = self;
        d.reference = Some(reference);
        d
    }

    /// Sets the preserved-entry id.
    pub fn with_preserved(self, id: &str) -> (d: Diagnostic)
        ensures
            d == (Diagnostic { preserved: d.preserved, ..self }),
            d.preserved matches Some(p) && p@ == id@,
    {
        let mut d = self;
        d.preserved = Some(String::from_str(id));
        d
    }
}

} // verus!
