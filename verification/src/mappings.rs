//! The MyST ↔ Quarto conversion contract as typed tables, and lookups over
//! its directive table.
use vstd::prelude::*;
use crate::text::str_eq;

verus! {

/// Fidelity class of one conversion rule: exact, lossy, or no target at all.
#[derive(Debug, Clone, Copy, PartialEq, Eq, Structural)]
pub enum Fidelity {
    Exact,
    Lossy,
    Unmappable,
}

/// A non-structural block construct: a directive/attribute name swap.
#[derive(Debug, Clone)]
pub struct DirectiveMapping {
    pub myst: String,
    pub quarto: Option<String>,
    pub fidelity: Fidelity,
    pub note: Option<String>,
    pub reference: String,
}

/// A structural construct that needs hand-written transform code.
#[derive(Debug, Clone)]
pub struct StructuralMapping {
    pub myst: String,
    pub fidelity: Fidelity,
    pub reference: String,
}

/// An inline construct written as MyST role syntax.
#[derive(Debug, Clone)]
pub struct RoleMapping {
    pub myst: Option<String>,
    pub quarto: Option<String>,
    pub fidelity: Fidelity,
    pub note: Option<String>,
    pub legacy: bool,
    pub reference: String,
}

/// An inline construct written as plain (non-role) syntax.
#[derive(Debug, Clone)]
pub struct InlineMapping {
    pub myst: String,
    pub quarto: String,
    pub fidelity: Fidelity,
    pub note: Option<String>,
    pub reference: String,
}

/// A `myst.yml` ↔ `_quarto.yml` field mapping.
#[derive(Debug, Clone)]
pub struct ConfigFieldMapping {
    pub myst: Option<String>,
    pub quarto: Option<String>,
    pub fidelity: Fidelity,
    pub note: Option<String>,
    pub reference: String,
}

/// A MyST `exports[]` entry ↔ Quarto `format` entry.
#[derive(Debug, Clone)]
pub struct ExportFormatMapping {
    pub myst: String,
    pub quarto: Option<String>,
    pub fidelity: Fidelity,
    pub note: Option<String>,
    pub reference: String,
}

/// A legacy construct: accepted on read, never emitted.
#[derive(Debug, Clone)]
pub struct LegacyRoleMapping {
    pub myst: String,
    pub modern_myst: String,
    pub quarto: String,
    pub fidelity: Fidelity,
    pub note: Option<String>,
    pub legacy: bool,
    pub reference: String,
}

/// A colon-prefix → hyphen-prefix label rule.
#[derive(Debug, Clone)]
pub struct LabelPrefixMapping {
    pub myst: String,
    pub quarto: String,
    pub fidelity: Fidelity,
    pub note: Option<String>,
    pub reference: String,
}

/// Every table of the conversion contract.
#[derive(Debug, Clone)]
pub struct Mappings {
    pub directive: Vec<DirectiveMapping>,
    pub structural: Vec<StructuralMapping>,
    pub role: Vec<RoleMapping>,
    pub inline: Vec<InlineMapping>,
    pub config_field: Vec<ConfigFieldMapping>,
    pub export_format: Vec<ExportFormatMapping>,
    pub legacy_role: Vec<LegacyRoleMapping>,
    pub label_prefix: Vec<LabelPrefixMapping>,
}

/// `true` when row `d` names the MyST directive `name`.
pub open spec fn myst_is(d: DirectiveMapping, name: Seq<char>) -> bool {
    d.myst@ == name
}

/// `true` when row `d` targets the Quarto class `class`.
pub open spec fn quarto_is(d: DirectiveMapping, class: Seq<char>) -> bool {
    d.quarto matches Some(q) && q@ == class
}

/// Looks a directive row up by its MyST name. When the table names a
/// directive twice, the later row wins (as an index built by inserting
/// every row in order would answer).
pub fn directive_by_myst_name<'a>(m: &'a Mappings, name: &str) -> (r: Option<&'a DirectiveMapping>)
    ensures
        r is None <==> forall|i: int| 0 <= i < m.directive@.len() ==> !myst_is(#[trigger] m.directive@[i], name@),
        r matches Some(d) ==> exists|i: int|
            0 <= i < m.directive@.len() && *d == m.directive@[i] && myst_is(m.directive@[i], name@)
                && forall|j: int| i < j < m.directive@.len() ==> !myst_is(#[trigger] m.directive@[j], name@),
{
    let mut k: usize = m.directive.len();
    while k > 0
        invariant
            k <= m.directive@.len(),
            forall|j: int| k <= j < m.directive@.len() ==> !myst_is(#[trigger] m.directive@[j], name@),
        decreases k,
    {
        let d = &m.directive[k - 1];
        if str_eq(d.myst.as_str(), name) {
            assert(myst_is(m.directive@[k - 1], name@));
            return Some(d);
        }
        k = k - 1;
    }
    None
}

/// Looks a directive row up by its Quarto target class. Several MyST
/// directives collapse onto one class; the first row naming the class is
/// the canonical one and wins.
pub fn directive_by_quarto_class<'a>(m: &'a Mappings, class: &str) -> (r: Option<&'a DirectiveMapping>)
    ensures
        r is None <==> forall|i: int| 0 <= i < m.directive@.len() ==> !quarto_is(#[trigger] m.directive@[i], class@),
        r matches Some(d) ==> exists|i: int|
            0 <= i < m.directive@.len() && *d == m.directive@[i] && quarto_is(m.directive@[i], class@)
                && forall|j: int| 0 <= j < i ==> !quarto_is(#[trigger] m.directive@[j], class@),
{
    let mut k: usize = 0;
    while k < m.directive.len()
        invariant
            k <= m.directive@.len(),
            forall|j: int| 0 <= j < k ==> !quarto_is(#[trigger] m.directive@[j], class@),
        decreases m.directive.len() - k,
    {
        let d = &m.directive[k];
        match &d.quarto {
            Some(q) => {
                if str_eq(q.as_str(), class) {
                    assert(quarto_is(m.directive@[k as int], class@));
                    return Some(d);
                }
            },
            None => {},
        }
        k = k + 1;
    }
    None
}

} // verus!
