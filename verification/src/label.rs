//! A typed home for cross-reference labels.
use vstd::prelude::*;

verus! {

/// A cross-reference label as read from the source, before any normalization.
#[derive(Debug, Clone, PartialEq, Eq, PartialOrd, Ord, Hash)]
pub struct Label {
    /// The label exactly as it appeared in the source.
    pub raw: String,
}

impl Label {
    /// Wraps a raw label string as read from the source.
    pub fn new(raw: &str) -> (l: Label)
        ensures
            l.raw@ == raw@,
    {
        Label { raw: String::from_str(raw) }
    }

    /// The label text.
    pub fn to_string(&self) -> (s: String)
        ensures
            s@ == self.raw@,
    {
        self.raw.clone()
    }
}

impl From<String> for Label {
    fn from(raw: String) -> (l: Label) {
        Label { raw }
    }
}

impl vstd::std_specs::convert::FromSpecImpl<String> for Label {
    open spec fn obeys_from_spec() -> bool {
        true
    }

    open spec fn from_spec(raw: String) -> Label {
        Label { raw }
    }
}

impl<'a> From<&'a str> for Label {
    fn from(raw: &'a str) -> (l: Label) {
        Label::new(raw)
    }
}

impl<'a> vstd::std_specs::convert::FromSpecImpl<&'a str> for Label {
    open spec fn obeys_from_spec() -> bool {
        false
    }

    open spec fn from_spec(raw: &'a str) -> Label {
        Label { raw: arbitrary() }
    }
}

} // verus!
