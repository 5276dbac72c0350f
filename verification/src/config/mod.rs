//! `myst.yml` <-> `_quarto.yml` project configuration mapping: project-type
//! inference, exports <-> formats, citation checks, and the lookups they
//! share on a parsed, order-preserving mapping.
//!
//! Page-level frontmatter is [`crate::frontmatter`], which edits the
//! existing text; this module synthesizes a whole new document instead.
use vstd::prelude::*;
use crate::diagnostics::{Diagnostic, Severity};
use crate::yaml::{dict_get, dict_index, fields_view, items_view, lemma_dict_index, lemma_fields_view, DictView, YamlValue, YamlView};

pub mod bibliography;
pub mod exports;
pub mod myst_to_quarto;
pub mod project_type;
pub mod quarto_to_myst;

pub use project_type::ProjectType;

verus! {

/// The model of a config diagnostic: severity, code and message.
pub type DiagView = (Severity, Seq<char>, Seq<char>);

pub open spec fn diag(d: Diagnostic) -> DiagView {
    (d.severity, d.code@, d.message@)
}

pub open spec fn diags(ds: Seq<Diagnostic>) -> Seq<DiagView> {
    ds.map_values(|d: Diagnostic| diag(d))
}

/// A config-sourced diagnostic (at line 1: config text carries no line numbers).
pub(crate) fn warn(severity: Severity, code: &'static str, message: &str) -> (d: Diagnostic)
    ensures
        diag(d) == (severity, code@, message@),
{
    Diagnostic::new(severity, code, message)
}

/// `warnings` with `d` appended.
pub(crate) fn push_warning(warnings: &mut Vec<Diagnostic>, d: Diagnostic)
    ensures
        diags(final(warnings)@) == diags(old(warnings)@).push(diag(d)),
{
    warnings.push(d);
    assert(diags(final(warnings)@) =~= diags(old(warnings)@).push(diag(d)));
}

/// `warnings` with all of `more` appended.
pub(crate) fn extend_warnings(warnings: &mut Vec<Diagnostic>, more: Vec<Diagnostic>)
    ensures
        diags(final(warnings)@) == diags(old(warnings)@) + diags(more@),
{
    let mut more = more;
    let ghost m = more@;
    warnings.append(&mut more);
    assert(diags(final(warnings)@) =~= diags(old(warnings)@) + diags(m));
}

// ---------------------------------------------------------------------------
// Lookups on a parsed mapping.
// ---------------------------------------------------------------------------

/// A string value (plain or block-literal).
pub open spec fn view_str(v: YamlView) -> Option<Seq<char>> {
    match v {
        YamlView::Str(s) => Some(s),
        YamlView::Block(s) => Some(s),
        _ => None,
    }
}

/// The string under `k`, if that value is a string.
pub open spec fn str_field(d: DictView, k: Seq<char>) -> Option<Seq<char>> {
    match dict_get(d, k) {
        Some(v) => view_str(v),
        None => None,
    }
}

/// The mapping under `k`, or an empty one.
pub open spec fn dict_field(d: DictView, k: Seq<char>) -> DictView {
    match dict_get(d, k) {
        Some(YamlView::Dict(m)) => m,
        _ => Seq::empty(),
    }
}

/// The sequence under `k`, or an empty one.
pub open spec fn list_field(d: DictView, k: Seq<char>) -> Seq<YamlView> {
    match dict_get(d, k) {
        Some(YamlView::List(s)) => s,
        _ => Seq::empty(),
    }
}

/// The value of the first entry keyed `key`.
pub fn get<'a>(mapping: &'a Vec<(String, YamlValue)>, key: &str) -> (r: Option<&'a YamlValue>)
    ensures
        match r {
            Some(v) => dict_get(fields_view(mapping@), key@) == Some(v@),
            None => dict_get(fields_view(mapping@), key@) is None,
        },
{
    let ghost d = fields_view(mapping@);
    proof {
        lemma_fields_view(mapping@);
        lemma_dict_index(d, key@);
    }
    let mut i: usize = 0;
    while i < mapping.len()
        invariant
            i <= mapping@.len(),
            d == fields_view(mapping@),
            d.len() == mapping@.len(),
            forall|k: int| 0 <= k < mapping@.len() ==> #[trigger] d[k] == (mapping@[k].0@, mapping@[k].1@),
            0 <= dict_index(d, key@) <= d.len(),
            dict_index(d, key@) < d.len() ==> d[dict_index(d, key@)].0 == key@,
            forall|m: int| 0 <= m < i ==> #[trigger] d[m].0 != key@,
        decreases mapping.len() - i,
    {
        if crate::text::str_eq(mapping[i].0.as_str(), key) {
            assert(d[i as int].0 == key@);
            proof {
                if dict_index(d, key@) < i {
                    assert(d[dict_index(d, key@)].0 != key@);
                }
                if dict_index(d, key@) > i {
                    lemma_dict_index(d, key@);
                }
            }
            return Some(&mapping[i].1);
        }
        i = i + 1;
    }
    proof {
        if dict_index(d, key@) < i {
            assert(d[dict_index(d, key@)].0 != key@);
        }
    }
    None
}

/// The string a value holds, plain or block-literal.
pub fn as_str(v: &YamlValue) -> (r: Option<&String>)
    ensures
        match r {
            Some(s) => view_str(v@) == Some(s@),
            None => view_str(v@) is None,
        },
{
    match v {
        YamlValue::String(s) => Some(s),
        YamlValue::BlockLiteral(s) => Some(s),
        _ => None,
    }
}

/// The entries of a mapping value.
pub fn as_mapping(v: &YamlValue) -> (r: Option<&Vec<(String, YamlValue)>>)
    ensures
        match r {
            Some(m) => v@ == YamlView::Dict(fields_view(m@)),
            None => !(v@ is Dict),
        },
{
    match v {
        YamlValue::Mapping(m) => Some(m),
        _ => None,
    }
}

/// The items of a sequence value.
pub fn as_sequence(v: &YamlValue) -> (r: Option<&Vec<YamlValue>>)
    ensures
        match r {
            Some(s) => v@ == YamlView::List(items_view(s@)),
            None => !(v@ is List),
        },
{
    match v {
        YamlValue::Sequence(s) => Some(s),
        _ => None,
    }
}

/// The string under `key`, when that value is a string.
pub fn string_field(mapping: &Vec<(String, YamlValue)>, key: &str) -> (r: Option<String>)
    ensures
        match r {
            Some(s) => str_field(fields_view(mapping@), key@) == Some(s@),
            None => str_field(fields_view(mapping@), key@) is None,
        },
{
    match get(mapping, key) {
        Some(v) => match as_str(v) {
            Some(s) => Some(s.clone()),
            None => None,
        },
        None => None,
    }
}

/// The mapping under `key`, when that value is a mapping.
pub fn mapping_field<'a>(mapping: &'a Vec<(String, YamlValue)>, key: &str) -> (r: Option<&'a Vec<(String, YamlValue)>>)
    ensures
        match r {
            Some(m) => dict_get(fields_view(mapping@), key@) == Some(YamlView::Dict(fields_view(m@)))
                && dict_field(fields_view(mapping@), key@) == fields_view(m@),
            None => dict_field(fields_view(mapping@), key@) == Seq::<(Seq<char>, YamlView)>::empty()
                && !(dict_get(fields_view(mapping@), key@) matches Some(YamlView::Dict(_))),
        },
{
    match get(mapping, key) {
        Some(v) => as_mapping(v),
        None => None,
    }
}

/// The sequence under `key`, when that value is a sequence.
pub fn sequence_field<'a>(mapping: &'a Vec<(String, YamlValue)>, key: &str) -> (r: Option<&'a Vec<YamlValue>>)
    ensures
        match r {
            Some(s) => dict_get(fields_view(mapping@), key@) == Some(YamlView::List(items_view(s@)))
                && list_field(fields_view(mapping@), key@) == items_view(s@),
            None => list_field(fields_view(mapping@), key@) == Seq::<YamlView>::empty()
                && !(dict_get(fields_view(mapping@), key@) matches Some(YamlView::List(_))),
        },
{
    match get(mapping, key) {
        Some(v) => as_sequence(v),
        None => None,
    }
}

} // verus!
