//! MyST `project.exports[]` (a list of `{format|template, ...}` entries) <->
//! Quarto `format` (a map). An entry with only a `template` gets a real
//! format inferred from the template's suffix, so `format: {}` is never
//! produced; the non-portable template name is kept as a comment.
use vstd::prelude::*;
use super::{as_mapping, as_str, diag, diags, get, push_warning, str_field, string_field, warn, DiagView};
use crate::diagnostics::codes::config as codes;
use crate::diagnostics::{Diagnostic, Severity};
use crate::preserve::{join_chars, join_lines};
use crate::reader::fence::strs;
use crate::text::{chars_of, eq_chars, slice_chars, str_eq, string_of};
use crate::writer::{cat3, cat5};
use crate::yaml::{opt_view, fields_view, items_view, lemma_items_view, DictView, YamlValue, YamlView};

verus! {

/// The Quarto `format:` field to emit, and the comment to write above it.
#[derive(Debug, PartialEq)]
pub struct FormatField {
    pub value: YamlValue,
    pub comment: Option<String>,
}

/// `s` starts with `prefix`.
pub open spec fn starts_with(s: Seq<char>, prefix: Seq<char>) -> bool {
    s.len() >= prefix.len() && s.subrange(0, prefix.len() as int) == prefix
}

pub fn starts_with_exec(s: &Vec<char>, prefix: &str) -> (r: bool)
    ensures
        r == starts_with(s@, prefix@),
{
    let t = chars_of(prefix);
    if s.len() < t.len() {
        return false;
    }
    eq_chars(&slice_chars(s, 0, t.len()), &t)
}

/// `s` ends with `suffix`.
pub open spec fn ends_with(s: Seq<char>, suffix: Seq<char>) -> bool {
    s.len() >= suffix.len() && s.subrange(s.len() - suffix.len(), s.len() as int) == suffix
}

pub fn ends_with_exec(s: &Vec<char>, suffix: &str) -> (r: bool)
    ensures
        r == ends_with(s@, suffix@),
{
    let t = chars_of(suffix);
    if s.len() < t.len() {
        return false;
    }
    eq_chars(&slice_chars(s, s.len() - t.len(), s.len()), &t)
}

/// The Quarto format of a MyST export `format`, where there is one.
pub open spec fn known_format(f: Seq<char>) -> Option<Seq<char>> {
    if f == "pdf"@ {
        Some("pdf"@)
    } else if f == "docx"@ {
        Some("docx"@)
    } else if f == "tex"@ {
        Some("latex"@)
    } else if f == "jats"@ {
        Some("jats"@)
    } else {
        None
    }
}

fn known_format_exec(f: &String) -> (r: Option<&'static str>)
    ensures
        match r {
            Some(q) => known_format(f@) == Some(q@),
            None => known_format(f@) is None,
        },
{
    if str_eq(f.as_str(), "pdf") {
        Some("pdf")
    } else if str_eq(f.as_str(), "docx") {
        Some("docx")
    } else if str_eq(f.as_str(), "tex") {
        Some("latex")
    } else if str_eq(f.as_str(), "jats") {
        Some("jats")
    } else {
        None
    }
}

/// The format a template's suffix names, and whether it was a guess
/// (unrecognized suffixes fall back to `pdf`).
pub open spec fn template_format(t: Seq<char>) -> (Seq<char>, bool) {
    if ends_with(t, "-typst"@) {
        ("typst"@, false)
    } else if ends_with(t, "-tex"@) || ends_with(t, "-latex"@) {
        ("pdf"@, false)
    } else if ends_with(t, "-docx"@) {
        ("docx"@, false)
    } else if ends_with(t, "-jats"@) {
        ("jats"@, false)
    } else {
        ("pdf"@, true)
    }
}

fn template_format_exec(t: &String) -> (r: (&'static str, bool))
    ensures
        template_format(t@) == (r.0@, r.1),
{
    let v = chars_of(t.as_str());
    if ends_with_exec(&v, "-typst") {
        ("typst", false)
    } else if ends_with_exec(&v, "-tex") || ends_with_exec(&v, "-latex") {
        ("pdf", false)
    } else if ends_with_exec(&v, "-docx") {
        ("docx", false)
    } else if ends_with_exec(&v, "-jats") {
        ("jats", false)
    } else {
        ("pdf", true)
    }
}

pub open spec fn meca_message() -> Seq<char> {
    "myst.yml project.exports: format `meca` has no Quarto equivalent (reference §8.3); dropped"@
}

pub open spec fn unknown_format_message(f: Seq<char>) -> Seq<char> {
    "myst.yml project.exports: unrecognized format `"@ + f + "`; dropped (no known Quarto equivalent)"@
}

pub open spec fn template_comment(t: Seq<char>, q: Seq<char>, guessed: bool) -> Seq<char> {
    if guessed {
        "mystquarto: could not infer a format from template `"@ + t + "`; guessed `"@ + q + "` — verify and override if wrong"@
    } else {
        "mystquarto: `template: "@ + t + "` is not portable to Quarto; inferred format `"@ + q + "`"@
    }
}

pub open spec fn guessed_message(t: Seq<char>, q: Seq<char>) -> Seq<char> {
    "myst.yml project.exports: template `"@ + t + "`'s suffix is not recognized; guessed format `"@ + q + "`"@
}

/// What reading the exports so far has produced.
pub struct ExportsState {
    pub entries: DictView,
    pub comments: Seq<Seq<char>>,
    pub warnings: Seq<DiagView>,
}

/// One export entry read: a known `format` adds its Quarto key; `meca` or an
/// unknown format is dropped with a warning; otherwise a `template` adds the
/// format its suffix names, with a comment (and a warning when guessed).
pub open spec fn export_step(st: ExportsState, e: YamlView) -> ExportsState {
    match e {
        YamlView::Dict(m) => match str_field(m, "format"@) {
            Some(f) => match known_format(f) {
                Some(q) => ExportsState { entries: st.entries.push((q, YamlView::Dict(Seq::empty()))), ..st },
                None => ExportsState {
                    warnings: st.warnings.push(
                        (Severity::Warning, codes::EXPORT_FORMAT_DROPPED@, if f == "meca"@ { meca_message() } else { unknown_format_message(f) }),
                    ),
                    ..st
                },
            },
            None => match str_field(m, "template"@) {
                Some(t) => {
                    let (q, guessed) = template_format(t);
                    ExportsState {
                        entries: st.entries.push((q, YamlView::Dict(Seq::empty()))),
                        comments: st.comments.push(template_comment(t, q, guessed)),
                        warnings: if guessed {
                            st.warnings.push((Severity::Warning, codes::EXPORT_FORMAT_GUESSED@, guessed_message(t, q)))
                        } else {
                            st.warnings
                        },
                    }
                },
                None => st,
            },
        },
        _ => st,
    }
}

/// The state after reading `exports` in order.
pub open spec fn exports_state(exports: Seq<YamlView>) -> ExportsState
    decreases exports.len(),
{
    if exports.len() == 0 {
        ExportsState { entries: Seq::empty(), comments: Seq::empty(), warnings: Seq::empty() }
    } else {
        export_step(exports_state(exports.drop_last()), exports.last())
    }
}

/// The `format` value and comment for `exports`, absent when no entry gave
/// a usable format; and the warnings.
pub open spec fn spec_exports_to_format(exports: Seq<YamlView>) -> (Option<(YamlView, Option<Seq<char>>)>, Seq<DiagView>) {
    let st = exports_state(exports);
    (
        if st.entries.len() == 0 {
            None
        } else {
            Some((YamlView::Dict(st.entries), if st.comments.len() > 0 { Some(join_lines(st.comments)) } else { None }))
        },
        st.warnings,
    )
}

/// Converts MyST's `project.exports[]` into Quarto's `format:` map. `None`
/// when no entry produced a usable format: callers then emit no `format`.
pub fn exports_to_format(exports: &Vec<YamlValue>) -> (r: (Option<FormatField>, Vec<Diagnostic>))
    ensures
        diags(r.1@) == spec_exports_to_format(items_view(exports@)).1,
        match r.0 {
            Some(f) => spec_exports_to_format(items_view(exports@)).0 == Some((f.value@, opt_view(f.comment))),
            None => spec_exports_to_format(items_view(exports@)).0 is None,
        },
{
    let ghost iv = items_view(exports@);
    proof { lemma_items_view(exports@); }
    let mut entries: Vec<(String, YamlValue)> = Vec::new();
    let mut comments: Vec<String> = Vec::new();
    let mut warnings: Vec<Diagnostic> = Vec::new();
    let mut i: usize = 0;
    assert(iv.subrange(0, 0) =~= Seq::<YamlView>::empty());
    assert(fields_view(entries@) =~= Seq::<(Seq<char>, YamlView)>::empty());
    assert(strs(comments@) =~= Seq::<Seq<char>>::empty());
    assert(diags(warnings@) =~= Seq::<DiagView>::empty());
    while i < exports.len()
        invariant
            i <= exports@.len(),
            iv == items_view(exports@),
            iv.len() == exports@.len(),
            forall|k: int| 0 <= k < exports@.len() ==> #[trigger] iv[k] == exports@[k]@,
            exports_state(iv.subrange(0, i as int)) == (ExportsState {
                entries: fields_view(entries@),
                comments: strs(comments@),
                warnings: diags(warnings@),
            }),
        decreases exports.len() - i,
    {
        assert(iv.subrange(0, i + 1).drop_last() =~= iv.subrange(0, i as int));
        assert(iv.subrange(0, i + 1).last() == exports@[i as int]@);
        let ghost st = exports_state(iv.subrange(0, i as int));
        let ghost e0 = entries@;
        let ghost c0 = comments@;
        if let Some(m) = as_mapping(&exports[i]) {
            match string_field(m, "format") {
                Some(f) => match known_format_exec(&f) {
                    Some(q) => {
                        push_empty_entry(&mut entries, q);
                    },
                    None => {
                        let msg = if str_eq(f.as_str(), "meca") {
                            String::from_str("myst.yml project.exports: format `meca` has no Quarto equivalent (reference §8.3); dropped")
                        } else {
                            cat3("myst.yml project.exports: unrecognized format `", f.as_str(), "`; dropped (no known Quarto equivalent)")
                        };
                        push_warning(&mut warnings, warn(Severity::Warning, codes::EXPORT_FORMAT_DROPPED, msg.as_str()));
                    },
                },
                None => match string_field(m, "template") {
                    Some(t) => {
                        let (q, guessed) = template_format_exec(&t);
                        push_empty_entry(&mut entries, q);
                        let comment = if guessed {
                            cat5("mystquarto: could not infer a format from template `", t.as_str(), "`; guessed `", q, "` — verify and override if wrong")
                        } else {
                            cat5("mystquarto: `template: ", t.as_str(), "` is not portable to Quarto; inferred format `", q, "`")
                        };
                        comments.push(comment);
                        assert(strs(comments@) =~= strs(c0).push(template_comment(t@, q@, guessed)));
                        if guessed {
                            let msg = cat5("myst.yml project.exports: template `", t.as_str(), "`'s suffix is not recognized; guessed format `", q, "`");
                            push_warning(&mut warnings, warn(Severity::Warning, codes::EXPORT_FORMAT_GUESSED, msg.as_str()));
                        }
                    },
                    None => {},
                },
            }
        }
        assert(exports_state(iv.subrange(0, i + 1)) == export_step(st, iv[i as int]));
        i = i + 1;
    }
    assert(iv.subrange(0, i as int) =~= iv);
    if entries.len() == 0 {
        return (None, warnings);
    }
    let comment = if comments.len() > 0 {
        Some(string_of(&join_chars(&comments)))
    } else {
        None
    };
    (Some(FormatField { value: YamlValue::Mapping(entries), comment }), warnings)
}

fn push_empty_entry(entries: &mut Vec<(String, YamlValue)>, key: &str)
    ensures
        fields_view(final(entries)@) == fields_view(old(entries)@).push((key@, YamlView::Dict(Seq::empty()))),
{
    let inner: Vec<(String, YamlValue)> = Vec::new();
    assert(fields_view(inner@) =~= Seq::<(Seq<char>, YamlView)>::empty());
    let k = String::from_str(key);
    let v = YamlValue::Mapping(inner);
    assert(v@ == YamlView::Dict(Seq::<(Seq<char>, YamlView)>::empty()));
    entries.push((k, v));
    assert(final(entries)@.drop_last() =~= old(entries)@);
    assert(final(entries)@.last() == (k, v));
    assert(fields_view(final(entries)@) =~= fields_view(old(entries)@).push((key@, YamlView::Dict(Seq::empty()))));
}

/// The first string `article` among the exports that are mappings.
pub open spec fn first_article(exports: Seq<YamlView>) -> Option<Seq<char>>
    decreases exports.len(),
{
    if exports.len() == 0 {
        None
    } else {
        match exports[0] {
            YamlView::Dict(m) => match str_field(m, "article"@) {
                Some(a) => Some(a),
                None => first_article(exports.drop_first()),
            },
            _ => first_article(exports.drop_first()),
        }
    }
}

/// The manuscript's article: the first `article:` string among the exports.
pub fn manuscript_article(exports: &Vec<YamlValue>) -> (r: Option<String>)
    ensures
        opt_view(r) == first_article(items_view(exports@)),
{
    let ghost iv = items_view(exports@);
    proof { lemma_items_view(exports@); }
    let mut i: usize = 0;
    assert(iv.subrange(0, iv.len() as int) =~= iv);
    while i < exports.len()
        invariant
            i <= exports@.len(),
            iv == items_view(exports@),
            iv.len() == exports@.len(),
            forall|k: int| 0 <= k < exports@.len() ==> #[trigger] iv[k] == exports@[k]@,
            first_article(iv) == first_article(iv.subrange(i as int, iv.len() as int)),
        decreases exports.len() - i,
    {
        let ghost rest = iv.subrange(i as int, iv.len() as int);
        assert(rest[0] == iv[i as int]);
        assert(rest.drop_first() =~= iv.subrange(i + 1, iv.len() as int));
        if let Some(m) = as_mapping(&exports[i]) {
            if let Some(a) = string_field(m, "article") {
                return Some(a);
            }
        }
        i = i + 1;
    }
    None
}

/// Every entry the exports give is an empty mapping.
pub proof fn lemma_exports_state_entries(s: Seq<YamlView>)
    ensures
        forall|i: int| 0 <= i < exports_state(s).entries.len() ==> #[trigger] exports_state(s).entries[i].1 == YamlView::Dict(Seq::empty()),
    decreases s.len(),
{
    if s.len() > 0 {
        lemma_exports_state_entries(s.drop_last());
    }
}

} // verus!
