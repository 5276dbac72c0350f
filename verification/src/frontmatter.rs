//! Page-level frontmatter mapping between the dialects.
//!
//! Edits the existing frontmatter text through [`crate::yaml::surgery`]
//! rather than synthesizing a new block, so every key it does not touch —
//! an `abstract: |` block scalar above all — survives exactly. `label` is
//! dropped with a warning rather than mapped to `id`, which Quarto ignores.
use vstd::prelude::*;
use crate::config::exports::{exports_to_format, spec_exports_to_format};
use crate::config::quarto_to_myst::{export_format_name, format_exports, format_to_exports, spec_format_to_exports};
use crate::config::{as_mapping, as_sequence, as_str, diag, diags, extend_warnings, get, push_warning, str_field, string_field, warn, DiagView};
use crate::diagnostics::codes::config as codes;
use crate::diagnostics::{Diagnostic, Severity};
use crate::ir::Frontmatter;
use crate::text::{chars_of, str_eq};
use crate::yaml::emit::{lemma_dict_get_emittable, emittable, fields_emittable, has_newline, item_ok, lemma_fields_emittable, lemma_items_emittable};
use crate::yaml::surgery::{apply_edits, edit_view, edits_ok, edits_view, surgery, EditView, FrontmatterEdit};
use crate::yaml::{dict_get, dict_index, fields_view, items_view, lemma_dict_index, lemma_fields_view, DictView, YamlValue, YamlView};

verus! {

pub open spec fn math_message() -> Seq<char> {
    "page frontmatter `math` (LaTeX macros) has no Quarto page-level equivalent; dropped (reference §8.4)"@
}

pub open spec fn label_message() -> Seq<char> {
    "page frontmatter `label` has no correct Quarto target yet (mapping it to `id` would repeat a known-wrong behavior — Quarto ignores `id`); dropped rather than mismapped (reference §8.4)"@
}

/// `kernelspec` -> `jupyter: <name>`, or `engine: knitr` for the `ir` kernel.
pub open spec fn mq_kernel(d: DictView) -> Seq<EditView> {
    match dict_get(d, "kernelspec"@) {
        Some(YamlView::Dict(k)) => {
            let name = match str_field(k, "name"@) {
                Some(n) => n,
                None => "python3"@,
            };
            seq![
                EditView::Remove("kernelspec"@),
                if name == "ir"@ {
                    EditView::SetKey("engine"@, YamlView::Str("knitr"@))
                } else {
                    EditView::SetKey("jupyter"@, YamlView::Str(name))
                },
            ]
        },
        _ => Seq::empty(),
    }
}

/// A `Remove` of `key` when it is present.
pub open spec fn drop_key(d: DictView, key: Seq<char>) -> Seq<EditView> {
    if dict_get(d, key) is Some { seq![EditView::Remove(key)] } else { Seq::empty() }
}

/// `exports` -> `format`.
pub open spec fn mq_exports(d: DictView) -> Seq<EditView> {
    match dict_get(d, "exports"@) {
        Some(YamlView::List(s)) => seq![EditView::Remove("exports"@)] + match spec_exports_to_format(s).0 {
            Some((v, _)) => seq![EditView::SetKey("format"@, v)],
            None => Seq::empty(),
        },
        _ => Seq::empty(),
    }
}

pub open spec fn mq_export_warnings(d: DictView) -> Seq<DiagView> {
    match dict_get(d, "exports"@) {
        Some(YamlView::List(s)) => spec_exports_to_format(s).1,
        _ => Seq::empty(),
    }
}

/// `numbering.equation.template` -> `crossref.eq-prefix`.
pub open spec fn mq_numbering(d: DictView) -> Seq<EditView> {
    match dict_get(d, "numbering"@) {
        Some(YamlView::Dict(n)) => match dict_get(n, "equation"@) {
            Some(YamlView::Dict(e)) => match str_field(e, "template"@) {
                Some(t) => seq![
                    EditView::Remove("numbering"@),
                    EditView::SetKey("crossref"@, YamlView::Dict(seq![("eq-prefix"@, YamlView::Str(t))])),
                ],
                None => Seq::empty(),
            },
            _ => Seq::empty(),
        },
        _ => Seq::empty(),
    }
}

/// `parts.abstract` -> `abstract` (a multi-line string in `|` style), and
/// `parts` removed when `abstract` was all it held.
pub open spec fn mq_parts(d: DictView) -> Seq<EditView> {
    match dict_get(d, "parts"@) {
        Some(YamlView::Dict(p)) => match dict_get(p, "abstract"@) {
            Some(a) => {
                let v = match a {
                    YamlView::Str(s) => if s.contains('\n') { YamlView::Block(s) } else { a },
                    _ => a,
                };
                seq![EditView::SetKey("abstract"@, v)] + if p.len() == 1 { seq![EditView::Remove("parts"@)] } else { Seq::empty() }
            },
            None => Seq::empty(),
        },
        _ => Seq::empty(),
    }
}

/// The edits a MyST page's frontmatter gets on its way to Quarto.
pub open spec fn mq_edits(d: DictView) -> Seq<EditView> {
    mq_kernel(d) + drop_key(d, "jupytext"@) + drop_key(d, "math"@) + drop_key(d, "label"@) + mq_exports(d)
        + mq_numbering(d) + mq_parts(d)
}

/// The warnings: `math`, then `label`, then the exports'.
pub open spec fn mq_warnings(d: DictView) -> Seq<DiagView> {
    (if dict_get(d, "math"@) is Some {
        seq![(Severity::LossyExpected, codes::FRONTMATTER_FIELD_DROPPED@, math_message())]
    } else {
        Seq::empty()
    }) + (if dict_get(d, "label"@) is Some {
        seq![(Severity::LossyExpected, codes::FRONTMATTER_FIELD_DROPPED@, label_message())]
    } else {
        Seq::empty()
    }) + mq_export_warnings(d)
}

/// The text after the edits, or the original text when an edit fails.
pub open spec fn edited_or_raw(raw: Seq<char>, edits: Seq<EditView>) -> Seq<char> {
    match surgery(raw, edits) {
        Ok(t) => t,
        Err(_) => raw,
    }
}

fn push_edit(edits: &mut Vec<FrontmatterEdit>, e: FrontmatterEdit)
    ensures
        edits_view(final(edits)@) == edits_view(old(edits)@).push(edit_view(e)),
{
    edits.push(e);
    assert(edits_view(final(edits)@) =~= edits_view(old(edits)@).push(edit_view(e)));
}

fn remove_edit(key: &str) -> (e: FrontmatterEdit)
    ensures
        edit_view(e) == EditView::Remove(key@),
{
    FrontmatterEdit::Remove { key: String::from_str(key) }
}

fn set_edit(key: &str, value: YamlValue) -> (e: FrontmatterEdit)
    ensures
        edit_view(e) == EditView::SetKey(key@, value@),
{
    FrontmatterEdit::SetKey { key: String::from_str(key), value }
}

/// A one-entry mapping `{key: value}`.
fn single_entry(key: &str, value: YamlValue) -> (r: YamlValue)
    ensures
        r@ == YamlView::Dict(seq![(key@, value@)]),
{
    let mut v: Vec<(String, YamlValue)> = Vec::new();
    v.push((String::from_str(key), value));
    proof { lemma_fields_view(v@); }
    let r = YamlValue::Mapping(v);
    assert(fields_view(v@) =~= seq![(key@, value@)]);
    r
}

proof fn lemma_edits_ok_append(a: Seq<EditView>, b: Seq<EditView>)
    requires
        edits_ok(a),
        edits_ok(b),
    ensures
        edits_ok(a + b),
{
    assert forall|i: int| 0 <= i < (a + b).len() implies match #[trigger] (a + b)[i] {
        EditView::SetKey(key, value) => !key.contains('\n') && emittable(value),
        _ => true,
    } by {
        if i < a.len() {
            assert((a + b)[i] == a[i]);
        } else {
            assert((a + b)[i] == b[i - a.len()]);
        }
    }
}

proof fn lemma_literal_keys()
    ensures
        !"engine"@.contains('\n'),
        !"jupyter"@.contains('\n'),
        !"format"@.contains('\n'),
        !"crossref"@.contains('\n'),
        !"abstract"@.contains('\n'),
        !"kernelspec"@.contains('\n'),
        !"exports"@.contains('\n'),
        !"numbering"@.contains('\n'),
{
    reveal_strlit("engine");
    reveal_strlit("jupyter");
    reveal_strlit("format");
    reveal_strlit("crossref");
    reveal_strlit("abstract");
    reveal_strlit("kernelspec");
    reveal_strlit("exports");
    reveal_strlit("numbering");
}

/// Every edit [`myst_to_quarto`] makes of an emittable frontmatter can be applied.
proof fn lemma_mq_edits_ok(d: DictView)
    requires
        emittable(YamlView::Dict(d)),
    ensures
        edits_ok(mq_edits(d)),
{
    lemma_literal_keys();
    lemma_dict_get_emittable(d, "parts"@);
    if let Some(YamlView::Dict(p)) = dict_get(d, "parts"@) {
        lemma_dict_get_emittable(p, "abstract"@);
    }
    if let Some(YamlView::List(s)) = dict_get(d, "exports"@) {
        crate::config::exports::lemma_exports_state_entries(s);
        let st = crate::config::exports::exports_state(s);
        lemma_fields_emittable(st.entries);
    }
    if let Some(YamlView::Dict(nn)) = dict_get(d, "numbering"@) {
        if let Some(YamlView::Dict(e)) = dict_get(nn, "equation"@) {
            if let Some(t) = str_field(e, "template"@) {
                let dd = seq![("eq-prefix"@, YamlView::Str(t))];
                assert(dd.drop_last() =~= Seq::<(Seq<char>, YamlView)>::empty());
                assert(fields_emittable(dd.drop_last()));
                assert(emittable(dd.last().1));
                assert(fields_emittable(dd));
                assert(emittable(YamlView::Dict(dd)));
            }
        }
    }
    let k = mq_kernel(d);
    let j = drop_key(d, "jupytext"@);
    let m = drop_key(d, "math"@);
    let l = drop_key(d, "label"@);
    let x = mq_exports(d);
    let n = mq_numbering(d);
    let p = mq_parts(d);
    assert(edits_ok(k));
    assert(edits_ok(j));
    assert(edits_ok(m));
    assert(edits_ok(l));
    assert(edits_ok(x));
    assert(edits_ok(n));
    assert(edits_ok(p));
    lemma_edits_ok_append(k, j);
    lemma_edits_ok_append(k + j, m);
    lemma_edits_ok_append(k + j + m, l);
    lemma_edits_ok_append(k + j + m + l, x);
    lemma_edits_ok_append(k + j + m + l + x, n);
    lemma_edits_ok_append(k + j + m + l + x + n, p);
}

fn mq_kernel_exec(parsed: &Vec<(String, YamlValue)>, edits: &mut Vec<FrontmatterEdit>)
    ensures
        edits_view(final(edits)@) == edits_view(old(edits)@) + mq_kernel(fields_view(parsed@)),
{
    let ghost e0 = edits_view(edits@);
    if let Some(k) = get(parsed, "kernelspec") {
        if let Some(kernel) = as_mapping(k) {
            push_edit(edits, remove_edit("kernelspec"));
            let name = match string_field(kernel, "name") {
                Some(n) => n,
                None => String::from_str("python3"),
            };
            if str_eq(name.as_str(), "ir") {
                push_edit(edits, set_edit("engine", YamlValue::String(String::from_str("knitr"))));
            } else {
                push_edit(edits, set_edit("jupyter", YamlValue::String(name)));
            }
        }
    }
    assert(edits_view(edits@) =~= e0 + mq_kernel(fields_view(parsed@)));
}

fn drop_key_exec(parsed: &Vec<(String, YamlValue)>, key: &str, edits: &mut Vec<FrontmatterEdit>) -> (present: bool)
    ensures
        edits_view(final(edits)@) == edits_view(old(edits)@) + drop_key(fields_view(parsed@), key@),
        present == dict_get(fields_view(parsed@), key@) is Some,
{
    let ghost e0 = edits_view(edits@);
    let present = get(parsed, key).is_some();
    if present {
        push_edit(edits, remove_edit(key));
    }
    assert(edits_view(edits@) =~= e0 + drop_key(fields_view(parsed@), key@));
    present
}

fn mq_exports_exec(parsed: &Vec<(String, YamlValue)>, edits: &mut Vec<FrontmatterEdit>, warnings: &mut Vec<Diagnostic>)
    ensures
        edits_view(final(edits)@) == edits_view(old(edits)@) + mq_exports(fields_view(parsed@)),
        diags(final(warnings)@) == diags(old(warnings)@) + mq_export_warnings(fields_view(parsed@)),
{
    let ghost e0 = edits_view(edits@);
    let ghost w0 = diags(warnings@);
    if let Some(ex) = get(parsed, "exports") {
        if let Some(export_seq) = as_sequence(ex) {
            push_edit(edits, remove_edit("exports"));
            let (format_field, export_warnings) = exports_to_format(export_seq);
            extend_warnings(warnings, export_warnings);
            if let Some(f) = format_field {
                push_edit(edits, set_edit("format", f.value));
            }
        }
    }
    assert(edits_view(edits@) =~= e0 + mq_exports(fields_view(parsed@)));
    assert(diags(warnings@) =~= w0 + mq_export_warnings(fields_view(parsed@)));
}

fn mq_numbering_exec(parsed: &Vec<(String, YamlValue)>, edits: &mut Vec<FrontmatterEdit>)
    ensures
        edits_view(final(edits)@) == edits_view(old(edits)@) + mq_numbering(fields_view(parsed@)),
{
    let ghost e0 = edits_view(edits@);
    if let Some(nv) = get(parsed, "numbering") {
        if let Some(numbering) = as_mapping(nv) {
            if let Some(eqv) = get(numbering, "equation") {
                if let Some(equation) = as_mapping(eqv) {
                    if let Some(template) = string_field(equation, "template") {
                        push_edit(edits, remove_edit("numbering"));
                        let v = single_entry("eq-prefix", YamlValue::String(template));
                        push_edit(edits, set_edit("crossref", v));
                    }
                }
            }
        }
    }
    assert(edits_view(edits@) =~= e0 + mq_numbering(fields_view(parsed@)));
}

fn mq_parts_exec(parsed: &Vec<(String, YamlValue)>, edits: &mut Vec<FrontmatterEdit>)
    ensures
        edits_view(final(edits)@) == edits_view(old(edits)@) + mq_parts(fields_view(parsed@)),
{
    let ghost e0 = edits_view(edits@);
    if let Some(pv) = get(parsed, "parts") {
        if let Some(parts) = as_mapping(pv) {
            if let Some(abstract_text) = get(parts, "abstract") {
                let value = match abstract_text {
                    YamlValue::String(s) => {
                        if has_newline(&chars_of(s.as_str())) {
                            YamlValue::BlockLiteral(s.clone())
                        } else {
                            abstract_text.copy()
                        }
                    },
                    other => other.copy(),
                };
                push_edit(edits, set_edit("abstract", value));
                proof { lemma_fields_view(parts@); }
                if parts.len() == 1 {
                    push_edit(edits, remove_edit("parts"));
                }
            }
        }
    }
    assert(edits_view(edits@) =~= e0 + mq_parts(fields_view(parsed@)));
}

/// Converts a MyST page's frontmatter to Quarto's dialect, reading the keys
/// from `fm.parsed`; every key it does not name passes through with its
/// original text.
pub fn myst_to_quarto(fm: &Frontmatter) -> (r: (String, Vec<Diagnostic>))
    requires
        emittable(fm.parsed@),
    ensures
        match fm.parsed@ {
            YamlView::Dict(d) => r.0@ == edited_or_raw(fm.raw@, mq_edits(d)) && diags(r.1@) == mq_warnings(d),
            _ => r.0@ == fm.raw@ && r.1@.len() == 0,
        },
{
    let parsed = match &fm.parsed {
        YamlValue::Mapping(m) => m,
        _ => return (fm.raw.clone(), Vec::new()),
    };
    let ghost d = fields_view(parsed@);
    let mut edits: Vec<FrontmatterEdit> = Vec::new();
    let mut warnings: Vec<Diagnostic> = Vec::new();
    assert(edits_view(edits@) =~= Seq::<EditView>::empty());
    assert(diags(warnings@) =~= Seq::<DiagView>::empty());
    mq_kernel_exec(parsed, &mut edits);
    drop_key_exec(parsed, "jupytext", &mut edits);
    if drop_key_exec(parsed, "math", &mut edits) {
        push_warning(&mut warnings, warn(Severity::LossyExpected, codes::FRONTMATTER_FIELD_DROPPED,
            "page frontmatter `math` (LaTeX macros) has no Quarto page-level equivalent; dropped (reference §8.4)"));
    }
    if drop_key_exec(parsed, "label", &mut edits) {
        push_warning(&mut warnings, warn(Severity::LossyExpected, codes::FRONTMATTER_FIELD_DROPPED,
            "page frontmatter `label` has no correct Quarto target yet (mapping it to `id` would repeat a known-wrong behavior — Quarto ignores `id`); dropped rather than mismapped (reference §8.4)"));
    }
    mq_exports_exec(parsed, &mut edits, &mut warnings);
    mq_numbering_exec(parsed, &mut edits);
    mq_parts_exec(parsed, &mut edits);
    assert(edits_view(edits@) =~= mq_edits(d));
    assert(diags(warnings@) =~= mq_warnings(d));
    proof { lemma_mq_edits_ok(d); }
    let text = match apply_edits(fm.raw.as_str(), &edits) {
        Ok(t) => t,
        Err(_) => fm.raw.clone(),
    };
    (text, warnings)
}

/// The `kernelspec` for a kernel name: its display name is `Python 3` for
/// `python3`, `R` for `ir`, and the name itself otherwise.
pub open spec fn kernelspec_view(name: Seq<char>) -> YamlView {
    let display = if name == "python3"@ {
        "Python 3"@
    } else if name == "ir"@ {
        "R"@
    } else {
        name
    };
    YamlView::Dict(seq![("name"@, YamlView::Str(name)), ("display_name"@, YamlView::Str(display))])
}

/// `jupyter: <name>` -> `kernelspec`; otherwise `engine: knitr` -> the `ir` kernelspec.
pub open spec fn qm_kernel(d: DictView) -> Seq<EditView> {
    match str_field(d, "jupyter"@) {
        Some(name) => seq![EditView::Remove("jupyter"@), EditView::SetKey("kernelspec"@, kernelspec_view(name))],
        None => match str_field(d, "engine"@) {
            Some(e) => if e == "knitr"@ {
                seq![EditView::Remove("engine"@), EditView::SetKey("kernelspec"@, kernelspec_view("ir"@))]
            } else {
                Seq::empty()
            },
            None => Seq::empty(),
        },
    }
}

/// `format` -> `exports`.
pub open spec fn qm_format(d: DictView) -> Seq<EditView> {
    match dict_get(d, "format"@) {
        Some(YamlView::Dict(f)) => seq![EditView::Remove("format"@)] + match spec_format_to_exports(f).0 {
            Some(e) => seq![EditView::SetKey("exports"@, e)],
            None => Seq::empty(),
        },
        _ => Seq::empty(),
    }
}

pub open spec fn qm_warnings(d: DictView) -> Seq<DiagView> {
    match dict_get(d, "format"@) {
        Some(YamlView::Dict(f)) => spec_format_to_exports(f).1,
        _ => Seq::empty(),
    }
}

/// `crossref.eq-prefix` -> `numbering.equation.template`.
pub open spec fn qm_crossref(d: DictView) -> Seq<EditView> {
    match dict_get(d, "crossref"@) {
        Some(YamlView::Dict(c)) => match str_field(c, "eq-prefix"@) {
            Some(p) => seq![
                EditView::Remove("crossref"@),
                EditView::SetKey("numbering"@, YamlView::Dict(seq![("equation"@, YamlView::Dict(seq![("template"@, YamlView::Str(p))]))])),
            ],
            None => Seq::empty(),
        },
        _ => Seq::empty(),
    }
}

/// The edits a Quarto page's frontmatter gets on its way to MyST.
pub open spec fn qm_edits(d: DictView) -> Seq<EditView> {
    qm_kernel(d) + qm_format(d) + qm_crossref(d)
}

fn kernelspec_for(name: &str) -> (r: YamlValue)
    ensures
        r@ == kernelspec_view(name@),
{
    let display = if str_eq(name, "python3") {
        String::from_str("Python 3")
    } else if str_eq(name, "ir") {
        String::from_str("R")
    } else {
        String::from_str(name)
    };
    let mut v: Vec<(String, YamlValue)> = Vec::new();
    v.push((String::from_str("name"), YamlValue::String(String::from_str(name))));
    v.push((String::from_str("display_name"), YamlValue::String(display)));
    proof { lemma_fields_view(v@); }
    assert(fields_view(v@) =~= seq![("name"@, YamlView::Str(name@)), ("display_name"@, YamlView::Str(display@))]);
    YamlValue::Mapping(v)
}

proof fn lemma_two_strings_emittable(a: Seq<char>, x: Seq<char>, b: Seq<char>, y: Seq<char>)
    ensures
        emittable(YamlView::Dict(seq![(a, YamlView::Str(x)), (b, YamlView::Str(y))])),
{
    let dd = seq![(a, YamlView::Str(x)), (b, YamlView::Str(y))];
    let d1 = seq![(a, YamlView::Str(x))];
    assert(dd.drop_last() =~= d1);
    assert(d1.drop_last() =~= Seq::<(Seq<char>, YamlView)>::empty());
    assert(fields_emittable(d1.drop_last()));
    assert(emittable(d1.last().1));
    assert(fields_emittable(d1));
    assert(emittable(dd.last().1));
    assert(fields_emittable(dd));
}

proof fn lemma_kernelspec_emittable(name: Seq<char>)
    ensures
        emittable(kernelspec_view(name)),
{
    let display = if name == "python3"@ {
        "Python 3"@
    } else if name == "ir"@ {
        "R"@
    } else {
        name
    };
    lemma_two_strings_emittable("name"@, name, "display_name"@, display);
}

proof fn lemma_one_entry_emittable(a: Seq<char>, v: YamlView)
    requires
        emittable(v),
    ensures
        emittable(YamlView::Dict(seq![(a, v)])),
        item_ok(YamlView::Dict(seq![(a, v)])),
{
    let dd = seq![(a, v)];
    assert(dd.drop_last() =~= Seq::<(Seq<char>, YamlView)>::empty());
    assert(fields_emittable(dd.drop_last()));
    assert(fields_emittable(dd));
}

proof fn lemma_qm_edits_ok(d: DictView)
    ensures
        edits_ok(qm_edits(d)),
{
    lemma_literal_keys();
    match str_field(d, "jupyter"@) {
        Some(name) => lemma_kernelspec_emittable(name),
        None => lemma_kernelspec_emittable("ir"@),
    }
    if let Some(YamlView::Dict(f)) = dict_get(d, "format"@) {
        let items = format_exports(f);
        assert forall|i: int| 0 <= i < items.len() implies #[trigger] item_ok(items[i]) by {
            lemma_one_entry_emittable("format"@, YamlView::Str(export_format_name(f[i].0)));
        }
        lemma_items_emittable(items);
    }
    if let Some(YamlView::Dict(c)) = dict_get(d, "crossref"@) {
        if let Some(p) = str_field(c, "eq-prefix"@) {
            lemma_one_entry_emittable("template"@, YamlView::Str(p));
            lemma_one_entry_emittable("equation"@, YamlView::Dict(seq![("template"@, YamlView::Str(p))]));
        }
    }
    let k = qm_kernel(d);
    let f = qm_format(d);
    let c = qm_crossref(d);
    assert(edits_ok(k));
    assert(edits_ok(f));
    assert(edits_ok(c));
    lemma_edits_ok_append(k, f);
    lemma_edits_ok_append(k + f, c);
}

/// Converts a Quarto page's frontmatter to MyST's dialect, reading the keys
/// from `fm.parsed`; every key it does not name passes through with its
/// original text.
pub fn quarto_to_myst(fm: &Frontmatter) -> (r: (String, Vec<Diagnostic>))
    ensures
        match fm.parsed@ {
            YamlView::Dict(d) => r.0@ == edited_or_raw(fm.raw@, qm_edits(d)) && diags(r.1@) == qm_warnings(d),
            _ => r.0@ == fm.raw@ && r.1@.len() == 0,
        },
{
    let parsed = match &fm.parsed {
        YamlValue::Mapping(m) => m,
        _ => return (fm.raw.clone(), Vec::new()),
    };
    let ghost d = fields_view(parsed@);
    let mut edits: Vec<FrontmatterEdit> = Vec::new();
    let mut warnings: Vec<Diagnostic> = Vec::new();
    assert(edits_view(edits@) =~= Seq::<EditView>::empty());
    assert(diags(warnings@) =~= Seq::<DiagView>::empty());

    match string_field(parsed, "jupyter") {
        Some(name) => {
            push_edit(&mut edits, remove_edit("jupyter"));
            push_edit(&mut edits, set_edit("kernelspec", kernelspec_for(name.as_str())));
        },
        None => {
            if let Some(engine) = string_field(parsed, "engine") {
                if str_eq(engine.as_str(), "knitr") {
                    push_edit(&mut edits, remove_edit("engine"));
                    push_edit(&mut edits, set_edit("kernelspec", kernelspec_for("ir")));
                }
            }
        },
    }
    let ghost e1 = edits_view(edits@);
    assert(e1 =~= qm_kernel(d));

    if let Some(fv) = get(parsed, "format") {
        if let Some(format) = as_mapping(fv) {
            push_edit(&mut edits, remove_edit("format"));
            let (exports_field, export_warnings) = format_to_exports(format);
            extend_warnings(&mut warnings, export_warnings);
            if let Some(e) = exports_field {
                push_edit(&mut edits, set_edit("exports", e));
            }
        }
    }
    let ghost e2 = edits_view(edits@);
    assert(e2 =~= e1 + qm_format(d));

    if let Some(cv) = get(parsed, "crossref") {
        if let Some(crossref) = as_mapping(cv) {
            if let Some(eq_prefix) = string_field(crossref, "eq-prefix") {
                push_edit(&mut edits, remove_edit("crossref"));
                let inner = single_entry("template", YamlValue::String(eq_prefix));
                push_edit(&mut edits, set_edit("numbering", single_entry("equation", inner)));
            }
        }
    }
    assert(edits_view(edits@) =~= qm_edits(d));
    assert(diags(warnings@) =~= qm_warnings(d));
    proof { lemma_qm_edits_ok(d); }
    let text = match apply_edits(fm.raw.as_str(), &edits) {
        Ok(t) => t,
        Err(_) => fm.raw.clone(),
    };
    (text, warnings)
}

} // verus!
