//! `_quarto.yml` -> `myst.yml`, the reverse of [`super::myst_to_quarto`].
//!
//! This direction is lossier: Quarto's config has no `subject`,
//! `abbreviations`, `open_access`, `venue` or `id`, so those come back only
//! from the fields preserved by a forward run, restored verbatim; fields
//! Quarto widens (`categories[]`, per-format options) are narrowed back
//! with a warning where the narrowing loses something.
use vstd::prelude::*;
use super::{extend_warnings, as_mapping, as_sequence, as_str, diag, diags, get, list_field, mapping_field, push_warning, sequence_field, str_field, string_field, view_str, warn, DiagView};
use crate::diagnostics::codes::config as codes;
use crate::diagnostics::{Diagnostic, Severity};
use crate::text::{chars_of, str_eq, string_of};
use crate::writer::cat5;
use crate::yaml::emit::{all_items_ok, doc_emittable, doc_text, doc_view, emit, emittable, item_ok, lemma_all_items_ok, lemma_dict_get_emittable, lemma_single_entry_emittable, lemma_values_emittable, values_emittable, EmitField, FieldView, YamlDoc};
use crate::yaml::{opt_view, dict_get, fields_view, items_view, lemma_fields_view, lemma_items_view, DictView, YamlValue, YamlView};

verus! {

/// The MyST export `format` for a Quarto format key (unknown keys pass through).
pub open spec fn export_format_name(k: Seq<char>) -> Seq<char> {
    if k == "latex"@ {
        "tex"@
    } else {
        k
    }
}

/// Law: exports convert both ways without loss. A MyST export format with
/// a Quarto counterpart comes back from that counterpart as itself (`tex`
/// goes to `latex` and back to `tex`), and every Quarto format key with an
/// exact MyST export comes back from that export as itself.
pub proof fn lemma_export_format_round_trip(f: Seq<char>, k: Seq<char>)
    ensures
        crate::config::exports::known_format(f) is Some ==> export_format_name(crate::config::exports::known_format(f)->0)
            == f,
        known_quarto_format(k) ==> crate::config::exports::known_format(export_format_name(k)) == Some(k),
{
    reveal_strlit("pdf");
    reveal_strlit("docx");
    reveal_strlit("tex");
    reveal_strlit("latex");
    reveal_strlit("jats");
    assert("pdf"@.len() == 3 && "pdf"@[0] == 'p');
    assert("docx"@.len() == 4 && "docx"@[0] == 'd');
    assert("tex"@.len() == 3 && "tex"@[0] == 't');
    assert("latex"@.len() == 5 && "latex"@[0] == 'l');
    assert("jats"@.len() == 4 && "jats"@[0] == 'j');
}

/// A Quarto format key with an exact MyST export equivalent.
pub open spec fn known_quarto_format(k: Seq<char>) -> bool {
    k == "pdf"@ || k == "docx"@ || k == "latex"@ || k == "jats"@
}

pub open spec fn passthrough_message(k: Seq<char>) -> Seq<char> {
    "_quarto.yml format `"@ + k + "` has no exact myst.yml export equivalent; passed through as `format: "@ + k + "` (reference §8.3)"@
}

/// One export entry per format key, in order.
pub open spec fn format_exports(format: DictView) -> Seq<YamlView> {
    Seq::new(format.len(), |i: int| YamlView::Dict(seq![("format"@, YamlView::Str(export_format_name(format[i].0)))]))
}

/// A warning per format key with no exact equivalent, in order.
pub open spec fn format_warnings(format: DictView) -> Seq<DiagView>
    decreases format.len(),
{
    if format.len() == 0 {
        Seq::empty()
    } else {
        format_warnings(format.drop_last()) + if known_quarto_format(format.last().0) {
            Seq::empty()
        } else {
            seq![(Severity::Warning, codes::FORMAT_PASSED_THROUGH@, passthrough_message(format.last().0))]
        }
    }
}

/// Quarto's `format:` map as MyST `exports:`, absent when the map is empty;
/// and the warnings.
pub open spec fn spec_format_to_exports(format: DictView) -> (Option<YamlView>, Seq<DiagView>) {
    (
        if format.len() == 0 { None } else { Some(YamlView::List(format_exports(format))) },
        format_warnings(format),
    )
}

/// Converts Quarto's `format:` map (page or project level) to MyST's
/// `exports:` list: one `{format: ...}` entry per key.
pub(crate) fn format_to_exports(format: &Vec<(String, YamlValue)>) -> (r: (Option<YamlValue>, Vec<Diagnostic>))
    ensures
        diags(r.1@) == spec_format_to_exports(fields_view(format@)).1,
        match r.0 {
            Some(v) => spec_format_to_exports(fields_view(format@)).0 == Some(v@),
            None => spec_format_to_exports(fields_view(format@)).0 is None,
        },
{
    let ghost fv = fields_view(format@);
    proof { lemma_fields_view(format@); }
    let mut exports: Vec<YamlValue> = Vec::new();
    let mut warnings: Vec<Diagnostic> = Vec::new();
    let mut i: usize = 0;
    assert(fv.subrange(0, 0) =~= Seq::<(Seq<char>, YamlView)>::empty());
    assert(diags(warnings@) =~= Seq::<DiagView>::empty());
    while i < format.len()
        invariant
            i <= format@.len(),
            fv == fields_view(format@),
            fv.len() == format@.len(),
            forall|k: int| 0 <= k < format@.len() ==> #[trigger] fv[k] == (format@[k].0@, format@[k].1@),
            items_view(exports@) == format_exports(fv.subrange(0, i as int)),
            diags(warnings@) == format_warnings(fv.subrange(0, i as int)),
        decreases format.len() - i,
    {
        let key = &format[i].0;
        assert(fv.subrange(0, i + 1).drop_last() =~= fv.subrange(0, i as int));
        assert(fv.subrange(0, i + 1).last() == fv[i as int]);
        let known = str_eq(key.as_str(), "pdf") || str_eq(key.as_str(), "docx") || str_eq(key.as_str(), "latex") || str_eq(key.as_str(), "jats");
        let name = if str_eq(key.as_str(), "latex") { String::from_str("tex") } else { key.clone() };
        if !known {
            let msg = cat5("_quarto.yml format `", key.as_str(), "` has no exact myst.yml export equivalent; passed through as `format: ", key.as_str(), "` (reference §8.3)");
            push_warning(&mut warnings, warn(Severity::Warning, codes::FORMAT_PASSED_THROUGH, msg.as_str()));
        }
        let mut entry: Vec<(String, YamlValue)> = Vec::new();
        entry.push((String::from_str("format"), YamlValue::String(name)));
        let item = YamlValue::Mapping(entry);
        proof {
            lemma_fields_view(entry@);
            assert(fields_view(entry@) =~= seq![("format"@, YamlView::Str(export_format_name(fv[i as int].0)))]);
        }
        let ghost e0 = exports@;
        exports.push(item);
        proof {
            lemma_items_view(exports@);
            lemma_items_view(e0);
            assert(exports@.drop_last() =~= e0);
            assert(items_view(exports@) =~= format_exports(fv.subrange(0, i + 1)));
        }
        assert(diags(warnings@) =~= format_warnings(fv.subrange(0, i + 1)));
        i = i + 1;
    }
    assert(fv.subrange(0, i as int) =~= fv);
    if exports.len() == 0 {
        (None, warnings)
    } else {
        (Some(YamlValue::Sequence(exports)), warnings)
    }
}

// ---------------------------------------------------------------------------
// The conversion.
// ---------------------------------------------------------------------------

/// What converting a `_quarto.yml` gives.
pub struct ConversionResult {
    /// The `myst.yml` text.
    pub text: String,
    pub is_book: bool,
    pub warnings: Vec<Diagnostic>,
}

/// The root keys read by name.
pub open spec fn handled_root_key(k: Seq<char>) -> bool {
    ||| k == "title"@
    ||| k == "subtitle"@
    ||| k == "short-title"@
    ||| k == "description"@
    ||| k == "author"@
    ||| k == "keywords"@
    ||| k == "date"@
    ||| k == "license"@
    ||| k == "doi"@
    ||| k == "repo-url"@
    ||| k == "bibliography"@
    ||| k == "image"@
    ||| k == "funding"@
    ||| k == "categories"@
    ||| k == "format"@
    ||| k == "crossref"@
    ||| k == "project"@
    ||| k == "book"@
    ||| k == "site"@
}

fn handled_root_key_exec(k: &String) -> (r: bool)
    ensures
        r == handled_root_key(k@),
{
    let s = k.as_str();
    str_eq(s, "title") || str_eq(s, "subtitle") || str_eq(s, "short-title") || str_eq(s, "description")
        || str_eq(s, "author") || str_eq(s, "keywords") || str_eq(s, "date") || str_eq(s, "license")
        || str_eq(s, "doi") || str_eq(s, "repo-url") || str_eq(s, "bibliography") || str_eq(s, "image")
        || str_eq(s, "funding") || str_eq(s, "categories") || str_eq(s, "format") || str_eq(s, "crossref")
        || str_eq(s, "project") || str_eq(s, "book") || str_eq(s, "site")
}

/// A single-entry `affiliations` with only a `name` narrows back to a bare
/// `affiliation` string; anything richer is kept as it is.
pub open spec fn author_field_back(f: (Seq<char>, YamlView)) -> (Seq<char>, YamlView) {
    if f.0 == "affiliations"@ {
        match f.1 {
            YamlView::List(s) => if s.len() == 1 {
                match s[0] {
                    YamlView::Dict(am) => if am.len() == 1 {
                        match str_field(am, "name"@) {
                            Some(name) => ("affiliation"@, YamlView::Str(name)),
                            None => f,
                        }
                    } else {
                        f
                    },
                    _ => f,
                }
            } else {
                f
            },
            _ => f,
        }
    } else {
        f
    }
}

/// `author[]` -> `authors[]`: mappings narrowed field by field, anything else kept.
pub open spec fn authors_back(authors: Seq<YamlView>) -> Seq<YamlView> {
    authors.map_values(|a: YamlView| match a {
        YamlView::Dict(m) => YamlView::Dict(m.map_values(|f: (Seq<char>, YamlView)| author_field_back(f))),
        _ => a,
    })
}

/// A chapter file as a toc entry: `{file: name}`, `.qmd` removed.
pub open spec fn file_entry(s: Seq<char>) -> YamlView {
    let name = if crate::config::exports::ends_with(s, ".qmd"@) { s.subrange(0, s.len() - 4) } else { s };
    YamlView::Dict(seq![("file"@, YamlView::Str(name))])
}

/// Book chapters flattened into toc entries, descending into `part:`
/// groups (whose label is lost); and whether any group was met.
pub open spec fn flatten_items(cs: Seq<YamlView>) -> (Seq<YamlView>, bool)
    decreases cs,
{
    if cs.len() == 0 {
        (Seq::empty(), false)
    } else {
        let (a, ha) = flatten_items(cs.drop_last());
        let c = cs.last();
        match view_str(c) {
            Some(s) => (a.push(file_entry(s)), ha),
            None => match c {
                YamlView::Dict(m) => {
                    let i = crate::yaml::dict_index(m, "chapters"@);
                    if 0 <= i < m.len() {
                        match m[i].1 {
                            YamlView::List(nested) => {
                                let (b, _) = flatten_items(nested);
                                (a + b, true)
                            },
                            _ => (a, ha),
                        }
                    } else {
                        (a, ha)
                    }
                },
                _ => (a, ha),
            },
        }
    }
}

pub open spec fn appendices_message() -> Seq<char> {
    "_quarto.yml book.appendices has no myst.yml toc equivalent for the appendix/ main-matter distinction; appended to toc as regular entries (reference §8.1)"@
}

pub open spec fn part_message() -> Seq<char> {
    "_quarto.yml book chapters include a `part:` grouping, which myst.yml's toc has no equivalent for; flattened into a plain list (reference §8.1)"@
}

pub open spec fn categories_message() -> Seq<char> {
    "_quarto.yml categories has more than one entry; only the first was mapped back to myst.yml's single-valued subject field (reference §8.2)"@
}

pub open spec fn unknown_key_message(k: Seq<char>) -> Seq<char> {
    "_quarto.yml top-level key `"@ + k + "` has no myst.yml equivalent; dropped (reference §8.1-8.3)"@
}

/// A book: `project.type: book`, or a `book:` key.
pub open spec fn q_is_book(d: DictView) -> bool {
    str_field(crate::config::dict_field(d, "project"@), "type"@) == Some("book"@) || dict_get(d, "book"@) is Some
}

/// The title, authors, chapters and appendices: from `book:` for a book,
/// from the top level (with no chapters) otherwise.
pub open spec fn q_parts(d: DictView) -> (Option<Seq<char>>, Seq<YamlView>, Seq<YamlView>, Seq<YamlView>) {
    let book = crate::config::dict_field(d, "book"@);
    if q_is_book(d) {
        (str_field(book, "title"@), list_field(book, "author"@), list_field(book, "chapters"@), list_field(book, "appendices"@))
    } else {
        (str_field(d, "title"@), list_field(d, "author"@), Seq::empty(), Seq::empty())
    }
}

/// A string field of `d` under a new key.
pub open spec fn str_pair(d: DictView, k: Seq<char>, out: Seq<char>) -> DictView {
    match str_field(d, k) {
        Some(v) => seq![(out, YamlView::Str(v))],
        None => Seq::empty(),
    }
}

/// `title`, `subtitle`, `short_title` and `description`.
pub open spec fn q_head_strs(d: DictView) -> DictView {
    (match q_parts(d).0 {
        Some(t) => seq![("title"@, YamlView::Str(t))],
        None => Seq::empty(),
    }) + str_pair(d, "subtitle"@, "subtitle"@) + str_pair(d, "short-title"@, "short_title"@)
        + str_pair(d, "description"@, "description"@)
}

/// `authors`, narrowed back.
pub open spec fn q_authors_part(d: DictView) -> DictView {
    let authors = q_parts(d).1;
    if authors.len() > 0 { seq![("authors"@, YamlView::List(authors_back(authors)))] } else { Seq::empty() }
}

/// `toc`: the chapters, then the appendices, flattened.
pub open spec fn q_toc_part(d: DictView) -> DictView {
    toc_pair(q_parts(d).2, q_parts(d).3)
}

/// `title`, `subtitle`, `short_title`, `description`, `authors` and `toc`.
pub open spec fn q_project_head(d: DictView) -> DictView {
    q_head_strs(d) + q_authors_part(d) + q_toc_part(d)
}

/// Non-empty `keywords`, and `date`.
pub open spec fn q_keywords_date(d: DictView) -> DictView {
    (match dict_get(d, "keywords"@) {
        Some(YamlView::List(s)) => if s.len() > 0 { seq![("keywords"@, YamlView::List(s))] } else { Seq::empty() },
        _ => Seq::empty(),
    }) + (match dict_get(d, "date"@) {
        Some(v) => seq![("date"@, v)],
        None => Seq::empty(),
    })
}

/// `license` through `funding`.
pub open spec fn q_links(d: DictView) -> DictView {
    str_pair(d, "license"@, "license"@) + str_pair(d, "doi"@, "doi"@) + str_pair(d, "repo-url"@, "github"@)
        + str_pair(d, "bibliography"@, "bibliography"@) + str_pair(d, "image"@, "banner"@) + (match dict_get(d, "funding"@) {
        Some(v) => seq![("funding"@, v)],
        None => Seq::empty(),
    })
}

/// `keywords` through `funding`.
pub open spec fn q_project_rest(d: DictView) -> DictView {
    q_keywords_date(d) + q_links(d)
}

/// The first category, a string, as `subject`.
pub open spec fn q_first_category(d: DictView) -> Option<Seq<char>> {
    match dict_get(d, "categories"@) {
        Some(YamlView::List(cats)) => if cats.len() > 0 { view_str(cats[0]) } else { None },
        _ => None,
    }
}

/// `subject`, `exports` and `numbering`.
pub open spec fn q_project_tail(d: DictView) -> DictView {
    (match q_first_category(d) {
        Some(f) => seq![("subject"@, YamlView::Str(f))],
        None => Seq::empty(),
    }) + (match dict_get(d, "format"@) {
        Some(YamlView::Dict(f)) => match spec_format_to_exports(f).0 {
            Some(e) => seq![("exports"@, e)],
            None => Seq::empty(),
        },
        _ => Seq::empty(),
    }) + (match str_field(crate::config::dict_field(d, "crossref"@), "eq-prefix"@) {
        Some(p) => seq![("numbering"@, YamlView::Dict(seq![("equation"@, YamlView::Dict(seq![("template"@, YamlView::Str(p))]))]))],
        None => Seq::empty(),
    })
}

/// The preserved fields split: `site.<key>` ones (key unprefixed) and the rest.
pub open spec fn split_preserved(p: DictView) -> (DictView, DictView)
    decreases p.len(),
{
    if p.len() == 0 {
        (Seq::empty(), Seq::empty())
    } else {
        let (proj, site) = split_preserved(p.drop_last());
        let (k, v) = p.last();
        if crate::config::exports::starts_with(k, "site."@) {
            (proj, site.push((k.subrange(5, k.len() as int), v)))
        } else {
            (proj.push((k, v)), site)
        }
    }
}

/// The `project:` entries.
pub open spec fn q_project_fields(d: DictView, preserved: DictView) -> DictView {
    q_project_head(d) + q_project_rest(d) + q_project_tail(d) + split_preserved(preserved).0
}

/// The `site:` entries: `template: book-theme` for a book, then the preserved `site.*` ones.
pub open spec fn q_site_fields(d: DictView, preserved: DictView) -> DictView {
    (if q_is_book(d) { seq![("template"@, YamlView::Str("book-theme"@))] } else { Seq::empty() }) + split_preserved(preserved).1
}

/// The emitted fields.
pub open spec fn q_fields(d: DictView, preserved: DictView) -> Seq<crate::yaml::emit::FieldView> {
    let pf = q_project_fields(d, preserved);
    let sf = q_site_fields(d, preserved);
    (if pf.len() > 0 { seq![("project"@, YamlView::Dict(pf), None)] } else { Seq::empty() })
        + (if sf.len() > 0 { seq![("site"@, YamlView::Dict(sf), None)] } else { Seq::empty() })
}

/// A warning per root key with no `myst.yml` equivalent, in order.
pub open spec fn unknown_key_warnings(d: DictView) -> Seq<DiagView>
    decreases d.len(),
{
    if d.len() == 0 {
        Seq::empty()
    } else {
        unknown_key_warnings(d.drop_last()) + if handled_root_key(d.last().0) {
            Seq::empty()
        } else {
            seq![(Severity::Warning, codes::UNRECOGNIZED_TOP_LEVEL_KEY_DROPPED@, unknown_key_message(d.last().0))]
        }
    }
}

/// The warnings, in order: appendices, part groupings, categories, formats, unknown keys.
pub open spec fn q_warnings(d: DictView) -> Seq<DiagView> {
    toc_warnings(d) + tail_warnings(d) + unknown_key_warnings(d)
}

// ---------------------------------------------------------------------------
// Executable pieces.
// ---------------------------------------------------------------------------

fn author_field_back_exec(key: &String, value: &YamlValue) -> (r: (String, YamlValue))
    ensures
        (r.0@, r.1@) == author_field_back((key@, value@)),
{
    if str_eq(key.as_str(), "affiliations") {
        if let Some(s) = as_sequence(value) {
            proof { lemma_items_view(s@); }
            if s.len() == 1 {
                if let Some(am) = as_mapping(&s[0]) {
                    proof { lemma_fields_view(am@); }
                    if am.len() == 1 {
                        if let Some(name) = string_field(am, "name") {
                            return (String::from_str("affiliation"), YamlValue::String(name));
                        }
                    }
                }
            }
        }
    }
    (key.clone(), value.copy())
}

fn authors_back_exec(authors: &Vec<YamlValue>) -> (r: Vec<YamlValue>)
    ensures
        items_view(r@) == authors_back(items_view(authors@)),
{
    let ghost av = items_view(authors@);
    proof { lemma_items_view(authors@); }
    let mut out: Vec<YamlValue> = Vec::new();
    let mut i: usize = 0;
    while i < authors.len()
        invariant
            i <= authors@.len(),
            av == items_view(authors@),
            av.len() == authors@.len(),
            forall|k: int| 0 <= k < authors@.len() ==> #[trigger] av[k] == authors@[k]@,
            items_view(out@) == authors_back(av.subrange(0, i as int)),
        decreases authors.len() - i,
    {
        let ghost o0 = out@;
        match as_mapping(&authors[i]) {
            Some(m) => {
                let ghost mv = fields_view(m@);
                proof { lemma_fields_view(m@); }
                let mut entry: Vec<(String, YamlValue)> = Vec::new();
                let mut j: usize = 0;
                while j < m.len()
                    invariant
                        j <= m@.len(),
                        mv == fields_view(m@),
                        mv.len() == m@.len(),
                        forall|k: int| 0 <= k < m@.len() ==> #[trigger] mv[k] == (m@[k].0@, m@[k].1@),
                        fields_view(entry@) == mv.subrange(0, j as int).map_values(|f: (Seq<char>, YamlView)| author_field_back(f)),
                    decreases m.len() - j,
                {
                    let ghost e0 = entry@;
                    let pair = author_field_back_exec(&m[j].0, &m[j].1);
                    entry.push(pair);
                    proof {
                        lemma_fields_view(entry@);
                        lemma_fields_view(e0);
                        assert(entry@.drop_last() =~= e0);
                    }
                    assert(fields_view(entry@) =~= mv.subrange(0, j + 1).map_values(|f: (Seq<char>, YamlView)| author_field_back(f)));
                    j = j + 1;
                }
                assert(mv.subrange(0, j as int) =~= mv);
                out.push(YamlValue::Mapping(entry));
            },
            None => out.push(authors[i].copy()),
        }
        proof {
            lemma_items_view(out@);
            lemma_items_view(o0);
            assert(out@.drop_last() =~= o0);
        }
        assert(items_view(out@) =~= authors_back(av.subrange(0, i + 1)));
        i = i + 1;
    }
    assert(av.subrange(0, i as int) =~= av);
    out
}

fn file_entry_exec(s: &String) -> (r: YamlValue)
    ensures
        r@ == file_entry(s@),
{
    let v = chars_of(s.as_str());
    let name = if crate::config::exports::ends_with_exec(&v, ".qmd") {
        proof { reveal_strlit(".qmd"); }
        string_of(&crate::text::slice_chars(&v, 0, v.len() - 4))
    } else {
        s.clone()
    };
    let mut e: Vec<(String, YamlValue)> = Vec::new();
    e.push((String::from_str("file"), YamlValue::String(name)));
    proof { lemma_fields_view(e@); }
    assert(fields_view(e@) =~= seq![("file"@, YamlView::Str(name@))]);
    YamlValue::Mapping(e)
}

/// Index of the first entry keyed `key`, or the length.
fn key_index(m: &Vec<(String, YamlValue)>, key: &str) -> (r: usize)
    ensures
        r == crate::yaml::dict_index(fields_view(m@), key@),
        r <= m@.len(),
{
    let ghost d = fields_view(m@);
    proof {
        lemma_fields_view(m@);
        crate::yaml::lemma_dict_index(d, key@);
    }
    let mut i: usize = 0;
    while i < m.len()
        invariant
            i <= m@.len(),
            d == fields_view(m@),
            d.len() == m@.len(),
            forall|k: int| 0 <= k < m@.len() ==> #[trigger] d[k] == (m@[k].0@, m@[k].1@),
            0 <= crate::yaml::dict_index(d, key@) <= d.len(),
            crate::yaml::dict_index(d, key@) < d.len() ==> d[crate::yaml::dict_index(d, key@)].0 == key@,
            forall|q: int| 0 <= q < i ==> #[trigger] d[q].0 != key@,
        decreases m.len() - i,
    {
        if str_eq(m[i].0.as_str(), key) {
            assert(d[i as int].0 == key@);
            proof {
                if crate::yaml::dict_index(d, key@) < i {
                    assert(d[crate::yaml::dict_index(d, key@)].0 != key@);
                }
                if crate::yaml::dict_index(d, key@) > i {
                    crate::yaml::lemma_dict_index(d, key@);
                }
            }
            return i;
        }
        i = i + 1;
    }
    proof {
        if crate::yaml::dict_index(d, key@) < i {
            assert(d[crate::yaml::dict_index(d, key@)].0 != key@);
        }
    }
    i
}

/// Appends `chapters` flattened into toc entries; `true` when a `part:` group was met.
fn flatten_chapters(chapters: &Vec<YamlValue>, out: &mut Vec<YamlValue>) -> (had: bool)
    ensures
        items_view(final(out)@) == items_view(old(out)@) + flatten_items(items_view(chapters@)).0,
        had == flatten_items(items_view(chapters@)).1,
    decreases chapters@,
{
    let ghost cv = items_view(chapters@);
    let ghost start = items_view(out@);
    proof { lemma_items_view(chapters@); }
    let mut had = false;
    let mut i: usize = 0;
    assert(cv.subrange(0, 0) =~= Seq::<YamlView>::empty());
    assert(items_view(out@) =~= start + Seq::<YamlView>::empty());
    while i < chapters.len()
        invariant
            i <= chapters@.len(),
            cv == items_view(chapters@),
            cv.len() == chapters@.len(),
            forall|k: int| 0 <= k < chapters@.len() ==> #[trigger] cv[k] == chapters@[k]@,
            items_view(out@) == start + flatten_items(cv.subrange(0, i as int)).0,
            had == flatten_items(cv.subrange(0, i as int)).1,
        decreases chapters.len() - i,
    {
        assert(cv.subrange(0, i + 1).drop_last() =~= cv.subrange(0, i as int));
        assert(cv.subrange(0, i + 1).last() == chapters@[i as int]@);
        let ghost o0 = out@;
        let c = &chapters[i];
        match as_str(c) {
            Some(s) => {
                out.push(file_entry_exec(s));
                proof {
                    lemma_items_view(out@);
                    lemma_items_view(o0);
                    assert(out@.drop_last() =~= o0);
                }
                assert(items_view(out@) =~= start + flatten_items(cv.subrange(0, i + 1)).0);
            },
            None => {
                match c {
                    YamlValue::Mapping(m) => {
                        let k = key_index(m, "chapters");
                        proof { lemma_fields_view(m@); }
                        if k < m.len() {
                            match &m[k].1 {
                                YamlValue::Sequence(nested) => {
                                    assert(fields_view(m@)[k as int].1 == YamlView::List(items_view(nested@)));
                                    let _ = flatten_chapters(nested, out);
                                    had = true;
                                    assert(items_view(out@) =~= start + flatten_items(cv.subrange(0, i + 1)).0);
                                },
                                _ => {
                                    assert(items_view(out@) =~= start + flatten_items(cv.subrange(0, i + 1)).0);
                                },
                            }
                        } else {
                            assert(items_view(out@) =~= start + flatten_items(cv.subrange(0, i + 1)).0);
                        }
                    },
                    _ => {
                        assert(items_view(out@) =~= start + flatten_items(cv.subrange(0, i + 1)).0);
                    },
                }
            },
        }
        i = i + 1;
    }
    assert(cv.subrange(0, i as int) =~= cv);
    had
}

fn push_pair(v: &mut Vec<(String, YamlValue)>, key: &str, value: YamlValue)
    ensures
        fields_view(final(v)@) == fields_view(old(v)@).push((key@, value@)),
{
    v.push((String::from_str(key), value));
    proof {
        lemma_fields_view(final(v)@);
        lemma_fields_view(old(v)@);
        assert(final(v)@.drop_last() =~= old(v)@);
    }
    assert(fields_view(final(v)@) =~= fields_view(old(v)@).push((key@, value@)));
}

fn push_str_pair(v: &mut Vec<(String, YamlValue)>, root: &Vec<(String, YamlValue)>, k: &str, out: &str)
    ensures
        fields_view(final(v)@) == fields_view(old(v)@) + str_pair(fields_view(root@), k@, out@),
{
    let ghost v0 = fields_view(v@);
    if let Some(s) = string_field(root, k) {
        push_pair(v, out, YamlValue::String(s));
    }
    assert(fields_view(v@) =~= v0 + str_pair(fields_view(root@), k@, out@));
}

fn is_book_exec(root: &Vec<(String, YamlValue)>) -> (r: bool)
    ensures
        r == q_is_book(fields_view(root@)),
{
    let empty_map: Vec<(String, YamlValue)> = Vec::new();
    proof { lemma_fields_view(empty_map@); }
    let project = match mapping_field(root, "project") {
        Some(p) => p,
        None => &empty_map,
    };
    let is_book_type = match string_field(project, "type") {
        Some(t) => str_eq(t.as_str(), "book"),
        None => false,
    };
    is_book_type || get(root, "book").is_some()
}

fn push_kv(v: &mut Vec<(String, YamlValue)>, key: String, value: YamlValue)
    ensures
        fields_view(final(v)@) == fields_view(old(v)@).push((key@, value@)),
{
    let ghost kv = (key@, value@);
    v.push((key, value));
    proof {
        lemma_fields_view(final(v)@);
        lemma_fields_view(old(v)@);
        assert(final(v)@.drop_last() =~= old(v)@);
    }
    assert(fields_view(final(v)@) =~= fields_view(old(v)@).push(kv));
}

/// The title, authors, chapters and appendices.
fn parts_exec<'a>(root: &'a Vec<(String, YamlValue)>, is_book: bool, empty_seq: &'a Vec<YamlValue>)
    -> (r: (Option<String>, &'a Vec<YamlValue>, &'a Vec<YamlValue>, &'a Vec<YamlValue>))
    requires
        is_book == q_is_book(fields_view(root@)),
        empty_seq@.len() == 0,
    ensures
        q_parts(fields_view(root@)) == (opt_view(r.0), items_view(r.1@), items_view(r.2@), items_view(r.3@)),
{
    proof { lemma_items_view(empty_seq@); }
    assert(items_view(empty_seq@) =~= Seq::<YamlView>::empty());
    if is_book {
        match mapping_field(root, "book") {
            Some(book) => (string_field(book, "title"),
                match sequence_field(book, "author") { Some(a) => a, None => empty_seq },
                match sequence_field(book, "chapters") { Some(a) => a, None => empty_seq },
                match sequence_field(book, "appendices") { Some(a) => a, None => empty_seq }),
            None => {
                proof {
                    let e = Seq::<(Seq<char>, YamlView)>::empty();
                    crate::yaml::lemma_dict_index(e, "title"@);
                    crate::yaml::lemma_dict_index(e, "author"@);
                    crate::yaml::lemma_dict_index(e, "chapters"@);
                    crate::yaml::lemma_dict_index(e, "appendices"@);
                }
                (None, empty_seq, empty_seq, empty_seq)
            },
        }
    } else {
        (string_field(root, "title"), match sequence_field(root, "author") { Some(a) => a, None => empty_seq }, empty_seq, empty_seq)
    }
}

fn head_strs_exec(root: &Vec<(String, YamlValue)>, title: Option<String>, pf: &mut Vec<(String, YamlValue)>)
    requires
        opt_view(title) == q_parts(fields_view(root@)).0,
    ensures
        fields_view(final(pf)@) == fields_view(old(pf)@) + q_head_strs(fields_view(root@)),
{
    let ghost p0 = fields_view(pf@);
    if let Some(t) = title {
        push_pair(pf, "title", YamlValue::String(t));
    }
    push_str_pair(pf, root, "subtitle", "subtitle");
    push_str_pair(pf, root, "short-title", "short_title");
    push_str_pair(pf, root, "description", "description");
    assert(fields_view(pf@) =~= p0 + q_head_strs(fields_view(root@)));
}

fn toc_part_exec(toc: &Vec<YamlValue>, appendices: &Vec<YamlValue>, pf: &mut Vec<(String, YamlValue)>, warnings: &mut Vec<Diagnostic>)
    ensures
        fields_view(final(pf)@) == fields_view(old(pf)@) + toc_pair(items_view(toc@), items_view(appendices@)),
        diags(final(warnings)@) == diags(old(warnings)@) + toc_warns(items_view(toc@), items_view(appendices@)),
{
    let ghost p0 = fields_view(pf@);
    let ghost w0 = diags(warnings@);
    proof {
        lemma_items_view(toc@);
        lemma_items_view(appendices@);
    }
    if toc.len() > 0 || appendices.len() > 0 {
        let mut flattened: Vec<YamlValue> = Vec::new();
        proof { lemma_items_view(flattened@); }
        assert(items_view(flattened@) =~= Seq::<YamlView>::empty());
        let mut had_part_grouping = flatten_chapters(toc, &mut flattened);
        if appendices.len() > 0 {
            let h2 = flatten_chapters(appendices, &mut flattened);
            had_part_grouping = had_part_grouping || h2;
            push_warning(warnings, warn(Severity::LossyExpected, codes::BOOK_APPENDICES_FLATTENED,
                "_quarto.yml book.appendices has no myst.yml toc equivalent for the appendix/ main-matter distinction; appended to toc as regular entries (reference §8.1)"));
        }
        if had_part_grouping {
            push_warning(warnings, warn(Severity::LossyExpected, codes::BOOK_PART_GROUPING_FLATTENED,
                "_quarto.yml book chapters include a `part:` grouping, which myst.yml's toc has no equivalent for; flattened into a plain list (reference §8.1)"));
        }
        push_pair(pf, "toc", YamlValue::Sequence(flattened));
    }
    assert(fields_view(pf@) =~= p0 + toc_pair(items_view(toc@), items_view(appendices@)));
    assert(diags(warnings@) =~= w0 + toc_warns(items_view(toc@), items_view(appendices@)));
}

/// The `toc` entry for chapters and appendices.
pub open spec fn toc_pair(toc: Seq<YamlView>, app: Seq<YamlView>) -> DictView {
    if toc.len() > 0 || app.len() > 0 {
        seq![("toc"@, YamlView::List(flatten_items(toc).0 + if app.len() > 0 { flatten_items(app).0 } else { Seq::empty() }))]
    } else {
        Seq::empty()
    }
}

/// The appendices and part-grouping warnings for chapters and appendices.
pub open spec fn toc_warns(toc: Seq<YamlView>, app: Seq<YamlView>) -> Seq<DiagView> {
    let had_part = flatten_items(toc).1 || (app.len() > 0 && flatten_items(app).1);
    let flattening = toc.len() > 0 || app.len() > 0;
    (if flattening && app.len() > 0 {
        seq![(Severity::LossyExpected, codes::BOOK_APPENDICES_FLATTENED@, appendices_message())]
    } else {
        Seq::empty()
    }) + (if flattening && had_part {
        seq![(Severity::LossyExpected, codes::BOOK_PART_GROUPING_FLATTENED@, part_message())]
    } else {
        Seq::empty()
    })
}

/// The head of `project:` and the toc warnings.
fn project_head_exec(root: &Vec<(String, YamlValue)>, is_book: bool, pf: &mut Vec<(String, YamlValue)>, warnings: &mut Vec<Diagnostic>)
    requires
        is_book == q_is_book(fields_view(root@)),
    ensures
        fields_view(final(pf)@) == fields_view(old(pf)@) + q_project_head(fields_view(root@)),
        diags(final(warnings)@) == diags(old(warnings)@) + toc_warnings(fields_view(root@)),
{
    let ghost d = fields_view(root@);
    let ghost p0 = fields_view(pf@);
    let empty_seq: Vec<YamlValue> = Vec::new();
    let (title, authors, toc, appendices) = parts_exec(root, is_book, &empty_seq);
    head_strs_exec(root, title, pf);
    let ghost p1 = fields_view(pf@);
    proof { lemma_items_view(authors@); }
    if authors.len() > 0 {
        push_pair(pf, "authors", YamlValue::Sequence(authors_back_exec(authors)));
    }
    let ghost p2 = fields_view(pf@);
    assert(p2 =~= p1 + q_authors_part(d));
    toc_part_exec(toc, appendices, pf, warnings);
    assert(fields_view(pf@) =~= p0 + q_project_head(d));
}

/// The appendices and part-grouping warnings.
pub open spec fn toc_warnings(d: DictView) -> Seq<DiagView> {
    toc_warns(q_parts(d).2, q_parts(d).3)
}

fn keywords_date_exec(root: &Vec<(String, YamlValue)>, pf: &mut Vec<(String, YamlValue)>)
    ensures
        fields_view(final(pf)@) == fields_view(old(pf)@) + q_keywords_date(fields_view(root@)),
{
    let ghost p0 = fields_view(pf@);
    if let Some(kv) = get(root, "keywords") {
        if let Some(seq) = as_sequence(kv) {
            proof { lemma_items_view(seq@); }
            if seq.len() > 0 {
                push_pair(pf, "keywords", kv.copy());
            }
        }
    }
    let ghost p1 = fields_view(pf@);
    if let Some(v) = get(root, "date") {
        push_pair(pf, "date", v.copy());
    }
    assert(fields_view(pf@) =~= p0 + q_keywords_date(fields_view(root@)));
}

fn links_exec(root: &Vec<(String, YamlValue)>, pf: &mut Vec<(String, YamlValue)>)
    ensures
        fields_view(final(pf)@) == fields_view(old(pf)@) + q_links(fields_view(root@)),
{
    let ghost p0 = fields_view(pf@);
    push_str_pair(pf, root, "license", "license");
    push_str_pair(pf, root, "doi", "doi");
    push_str_pair(pf, root, "repo-url", "github");
    push_str_pair(pf, root, "bibliography", "bibliography");
    push_str_pair(pf, root, "image", "banner");
    let ghost p2 = fields_view(pf@);
    if let Some(v) = get(root, "funding") {
        push_pair(pf, "funding", v.copy());
    }
    assert(fields_view(pf@) =~= p0 + q_links(fields_view(root@)));
}

fn project_rest_exec(root: &Vec<(String, YamlValue)>, pf: &mut Vec<(String, YamlValue)>)
    ensures
        fields_view(final(pf)@) == fields_view(old(pf)@) + q_project_rest(fields_view(root@)),
{
    let ghost p0 = fields_view(pf@);
    keywords_date_exec(root, pf);
    links_exec(root, pf);
    assert(fields_view(pf@) =~= p0 + q_project_rest(fields_view(root@)));
}

/// The tail of `project:`, and the categories and format warnings.
fn project_tail_exec(root: &Vec<(String, YamlValue)>, pf: &mut Vec<(String, YamlValue)>, warnings: &mut Vec<Diagnostic>)
    ensures
        fields_view(final(pf)@) == fields_view(old(pf)@) + q_project_tail(fields_view(root@)),
        diags(final(warnings)@) == diags(old(warnings)@) + tail_warnings(fields_view(root@)),
{
    let ghost d = fields_view(root@);
    let ghost p0 = fields_view(pf@);
    let ghost w0 = diags(warnings@);
    if let Some(cv) = get(root, "categories") {
        if let Some(cats) = as_sequence(cv) {
            proof { lemma_items_view(cats@); }
            if cats.len() > 0 {
                if let Some(first) = as_str(&cats[0]) {
                    push_pair(pf, "subject", YamlValue::String(first.clone()));
                    if cats.len() > 1 {
                        push_warning(warnings, warn(Severity::Warning, codes::CATEGORIES_NARROWED_TO_SUBJECT,
                            "_quarto.yml categories has more than one entry; only the first was mapped back to myst.yml's single-valued subject field (reference §8.2)"));
                    }
                }
            }
        }
    }
    let ghost p1 = fields_view(pf@);
    if let Some(fv) = get(root, "format") {
        if let Some(format) = as_mapping(fv) {
            let (exports_field, export_warnings) = format_to_exports(format);
            extend_warnings(warnings, export_warnings);
            if let Some(e) = exports_field {
                push_pair(pf, "exports", e);
            }
        }
    }
    let ghost p2 = fields_view(pf@);
    let empty_map: Vec<(String, YamlValue)> = Vec::new();
    proof { lemma_fields_view(empty_map@); }
    let crossref = match mapping_field(root, "crossref") {
        Some(c) => c,
        None => &empty_map,
    };
    if let Some(eq_prefix) = string_field(crossref, "eq-prefix") {
        let mut t: Vec<(String, YamlValue)> = Vec::new();
        proof { lemma_fields_view(t@); }
        push_pair(&mut t, "template", YamlValue::String(eq_prefix));
        let mut e: Vec<(String, YamlValue)> = Vec::new();
        proof { lemma_fields_view(e@); }
        push_pair(&mut e, "equation", YamlValue::Mapping(t));
        push_pair(pf, "numbering", YamlValue::Mapping(e));
    }
    assert(fields_view(pf@) =~= p0 + q_project_tail(d));
    assert(diags(warnings@) =~= w0 + tail_warnings(d));
}

/// The categories and format warnings.
pub open spec fn tail_warnings(d: DictView) -> Seq<DiagView> {
    (match dict_get(d, "categories"@) {
        Some(YamlView::List(cats)) => if cats.len() > 1 && q_first_category(d) is Some {
            seq![(Severity::Warning, codes::CATEGORIES_NARROWED_TO_SUBJECT@, categories_message())]
        } else {
            Seq::empty()
        },
        _ => Seq::empty(),
    }) + (match dict_get(d, "format"@) {
        Some(YamlView::Dict(f)) => spec_format_to_exports(f).1,
        _ => Seq::empty(),
    })
}

fn split_preserved_exec(preserved: &Vec<(String, YamlValue)>, pf: &mut Vec<(String, YamlValue)>, sf: &mut Vec<(String, YamlValue)>)
    ensures
        fields_view(final(pf)@) == fields_view(old(pf)@) + split_preserved(fields_view(preserved@)).0,
        fields_view(final(sf)@) == fields_view(old(sf)@) + split_preserved(fields_view(preserved@)).1,
{
    let ghost pv = fields_view(preserved@);
    let ghost p0 = fields_view(pf@);
    let ghost s0 = fields_view(sf@);
    proof { lemma_fields_view(preserved@); }
    let mut i: usize = 0;
    assert(pv.subrange(0, 0) =~= Seq::<(Seq<char>, YamlView)>::empty());
    assert(fields_view(pf@) =~= p0 + Seq::<(Seq<char>, YamlView)>::empty());
    assert(fields_view(sf@) =~= s0 + Seq::<(Seq<char>, YamlView)>::empty());
    while i < preserved.len()
        invariant
            i <= preserved@.len(),
            pv == fields_view(preserved@),
            pv.len() == preserved@.len(),
            forall|k: int| 0 <= k < preserved@.len() ==> #[trigger] pv[k] == (preserved@[k].0@, preserved@[k].1@),
            fields_view(pf@) == p0 + split_preserved(pv.subrange(0, i as int)).0,
            fields_view(sf@) == s0 + split_preserved(pv.subrange(0, i as int)).1,
        decreases preserved.len() - i,
    {
        assert(pv.subrange(0, i + 1).drop_last() =~= pv.subrange(0, i as int));
        assert(pv.subrange(0, i + 1).last() == pv[i as int]);
        let key = &preserved[i].0;
        let kv = chars_of(key.as_str());
        let ghost pf0 = fields_view(pf@);
        let ghost sf0 = fields_view(sf@);
        if crate::config::exports::starts_with_exec(&kv, "site.") {
            proof { reveal_strlit("site."); }
            let rest = string_of(&crate::text::slice_chars(&kv, 5, kv.len()));
            push_kv(sf, rest, preserved[i].1.copy());
        } else {
            push_kv(pf, key.clone(), preserved[i].1.copy());
        }
        assert(fields_view(pf@) =~= p0 + split_preserved(pv.subrange(0, i + 1)).0);
        assert(fields_view(sf@) =~= s0 + split_preserved(pv.subrange(0, i + 1)).1);
        i = i + 1;
    }
    assert(pv.subrange(0, i as int) =~= pv);
}

// ---------------------------------------------------------------------------
// What can be written.
// ---------------------------------------------------------------------------

proof fn lemma_flatten_items_ok(cs: Seq<YamlView>)
    ensures
        all_items_ok(flatten_items(cs).0),
    decreases cs,
{
    if cs.len() > 0 {
        let prev = cs.drop_last();
        lemma_flatten_items_ok(prev);
        let (a, _) = flatten_items(prev);
        let c = cs.last();
        let r = flatten_items(cs).0;
        match view_str(c) {
            Some(st) => {
                let name = if crate::config::exports::ends_with(st, ".qmd"@) { st.subrange(0, st.len() - 4) } else { st };
                lemma_single_entry_emittable("file"@, YamlView::Str(name));
                assert forall|i: int| 0 <= i < r.len() implies #[trigger] item_ok(r[i]) by {
                    if i < a.len() {
                        assert(r[i] == a[i]);
                    }
                }
            },
            None => match c {
                YamlView::Dict(m) => {
                    let i = crate::yaml::dict_index(m, "chapters"@);
                    if 0 <= i < m.len() {
                        match m[i].1 {
                            YamlView::List(nested) => {
                                lemma_flatten_items_ok(nested);
                                let b = flatten_items(nested).0;
                                assert forall|j: int| 0 <= j < r.len() implies #[trigger] item_ok(r[j]) by {
                                    if j < a.len() {
                                        assert(r[j] == a[j]);
                                    } else {
                                        assert(r[j] == b[j - a.len()]);
                                    }
                                }
                            },
                            _ => {},
                        }
                    }
                },
                _ => {},
            },
        }
    }
}

proof fn lemma_authors_back_ok(authors: Seq<YamlView>)
    requires
        all_items_ok(authors),
    ensures
        all_items_ok(authors_back(authors)),
{
    let r = authors_back(authors);
    assert forall|i: int| 0 <= i < r.len() implies #[trigger] item_ok(r[i]) by {
        assert(item_ok(authors[i]));
        match authors[i] {
            YamlView::Dict(m) => {
                let m2 = m.map_values(|f: (Seq<char>, YamlView)| author_field_back(f));
                lemma_values_emittable(m);
                assert forall|j: int| 0 <= j < m2.len() implies #[trigger] emittable(m2[j].1) by {
                    assert(m2[j] == author_field_back(m[j]));
                }
                lemma_values_emittable(m2);
            },
            _ => {},
        }
    }
}

proof fn lemma_head_ok(d: DictView)
    requires
        emittable(YamlView::Dict(d)),
    ensures
        values_emittable(q_project_head(d)),
{
    let book = crate::config::dict_field(d, "book"@);
    crate::config::myst_to_quarto::lemma_dict_field_emittable_pub(d, "book"@);
    crate::config::myst_to_quarto::lemma_dict_field_emittable_pub(book, "author"@);
    crate::config::myst_to_quarto::lemma_dict_field_emittable_pub(d, "author"@);
    lemma_all_items_ok(list_field(book, "author"@));
    lemma_all_items_ok(list_field(d, "author"@));
    let authors = q_parts(d).1;
    let toc = q_parts(d).2;
    let app = q_parts(d).3;
    lemma_authors_back_ok(authors);
    lemma_all_items_ok(authors_back(authors));
    lemma_flatten_items_ok(toc);
    lemma_flatten_items_ok(app);
    let fl = flatten_items(toc).0 + if app.len() > 0 { flatten_items(app).0 } else { Seq::empty() };
    assert forall|i: int| 0 <= i < fl.len() implies #[trigger] item_ok(fl[i]) by {
        if i < flatten_items(toc).0.len() {
            assert(fl[i] == flatten_items(toc).0[i]);
        } else {
            assert(fl[i] == flatten_items(app).0[i - flatten_items(toc).0.len()]);
        }
    }
    lemma_all_items_ok(fl);
    assert(values_emittable(q_head_strs(d)));
    assert(values_emittable(q_authors_part(d)));
    assert(values_emittable(q_toc_part(d)));
    lemma_values_concat(q_head_strs(d), q_authors_part(d));
    lemma_values_concat(q_head_strs(d) + q_authors_part(d), q_toc_part(d));
}

proof fn lemma_rest_tail_ok(d: DictView)
    requires
        emittable(YamlView::Dict(d)),
    ensures
        values_emittable(q_project_rest(d)),
        values_emittable(q_project_tail(d)),
{
    crate::config::myst_to_quarto::lemma_dict_field_emittable_pub(d, "crossref"@);
    lemma_dict_get_emittable(d, "keywords"@);
    lemma_dict_get_emittable(d, "date"@);
    lemma_dict_get_emittable(d, "funding"@);
    if let Some(YamlView::Dict(f)) = dict_get(d, "format"@) {
        let items = format_exports(f);
        assert forall|i: int| 0 <= i < items.len() implies #[trigger] item_ok(items[i]) by {
            lemma_single_entry_emittable("format"@, YamlView::Str(export_format_name(f[i].0)));
        }
        lemma_all_items_ok(items);
    }
    if let Some(p) = str_field(crate::config::dict_field(d, "crossref"@), "eq-prefix"@) {
        lemma_single_entry_emittable("template"@, YamlView::Str(p));
        lemma_single_entry_emittable("equation"@, YamlView::Dict(seq![("template"@, YamlView::Str(p))]));
    }
    assert(values_emittable(q_keywords_date(d)));
    assert(values_emittable(q_links(d)));
    lemma_values_concat(q_keywords_date(d), q_links(d));
    assert(values_emittable(q_project_tail(d)));
}

proof fn lemma_q_fields_emittable(d: DictView, preserved: DictView)
    requires
        emittable(YamlView::Dict(d)),
        values_emittable(preserved),
    ensures
        doc_emittable(q_fields(d, preserved)),
{
    lemma_head_ok(d);
    lemma_rest_tail_ok(d);
    lemma_split_emittable(preserved);
    let pf = q_project_fields(d, preserved);
    let sf = q_site_fields(d, preserved);
    let h = q_project_head(d);
    let rr = q_project_rest(d);
    let t = q_project_tail(d);
    let sp = split_preserved(preserved);
    lemma_values_concat(h, rr);
    lemma_values_concat(h + rr, t);
    lemma_values_concat(h + rr + t, sp.0);
    lemma_values_emittable(pf);
    let tpl = if q_is_book(d) { seq![("template"@, YamlView::Str("book-theme"@))] } else { Seq::<(Seq<char>, YamlView)>::empty() };
    assert(values_emittable(tpl));
    lemma_values_concat(tpl, sp.1);
    lemma_values_emittable(sf);
}

proof fn lemma_values_concat(a: DictView, b: DictView)
    requires
        values_emittable(a),
        values_emittable(b),
    ensures
        values_emittable(a + b),
{
    assert forall|i: int| 0 <= i < (a + b).len() implies #[trigger] emittable((a + b)[i].1) by {
        if i < a.len() {
            assert((a + b)[i] == a[i]);
        } else {
            assert((a + b)[i] == b[i - a.len()]);
        }
    }
}

proof fn lemma_split_emittable(p: DictView)
    requires
        values_emittable(p),
    ensures
        values_emittable(split_preserved(p).0),
        values_emittable(split_preserved(p).1),
    decreases p.len(),
{
    if p.len() > 0 {
        let prev = p.drop_last();
        assert forall|i: int| 0 <= i < prev.len() implies #[trigger] emittable(prev[i].1) by {
            assert(prev[i] == p[i]);
        }
        lemma_split_emittable(prev);
        assert(emittable(p[p.len() - 1].1));
        let (a, b) = split_preserved(prev);
        let (x, y) = split_preserved(p);
        assert forall|i: int| 0 <= i < x.len() implies #[trigger] emittable(x[i].1) by {
            if i < a.len() {
                assert(x[i] == a[i]);
            }
        }
        assert forall|i: int| 0 <= i < y.len() implies #[trigger] emittable(y[i].1) by {
            if i < b.len() {
                assert(y[i] == b[i]);
            }
        }
    }
}

// ---------------------------------------------------------------------------
// The conversion.
// ---------------------------------------------------------------------------

fn unknown_warnings_exec(root: &Vec<(String, YamlValue)>, warnings: &mut Vec<Diagnostic>)
    ensures
        diags(final(warnings)@) == diags(old(warnings)@) + unknown_key_warnings(fields_view(root@)),
{
    let ghost d = fields_view(root@);
    let ghost w0 = diags(warnings@);
    proof { lemma_fields_view(root@); }
    let mut i: usize = 0;
    assert(d.subrange(0, 0) =~= Seq::<(Seq<char>, YamlView)>::empty());
    assert(diags(warnings@) =~= w0 + unknown_key_warnings(d.subrange(0, 0)));
    while i < root.len()
        invariant
            i <= root@.len(),
            d == fields_view(root@),
            d.len() == root@.len(),
            forall|k: int| 0 <= k < root@.len() ==> #[trigger] d[k] == (root@[k].0@, root@[k].1@),
            diags(warnings@) == w0 + unknown_key_warnings(d.subrange(0, i as int)),
        decreases root.len() - i,
    {
        assert(d.subrange(0, i + 1).drop_last() =~= d.subrange(0, i as int));
        assert(d.subrange(0, i + 1).last() == d[i as int]);
        let key = &root[i].0;
        if !handled_root_key_exec(key) {
            let msg = cat5("_quarto.yml top-level key `", key.as_str(), "` has no myst.yml equivalent; dropped (reference §8.1-8.3)", "", "");
            push_warning(warnings, warn(Severity::Warning, codes::UNRECOGNIZED_TOP_LEVEL_KEY_DROPPED, msg.as_str()));
            proof { reveal_strlit(""); }
        }
        assert(diags(warnings@) =~= w0 + unknown_key_warnings(d.subrange(0, i + 1)));
        i = i + 1;
    }
    assert(d.subrange(0, i as int) =~= d);
}

pub open spec fn preserved_view(p: Option<&Vec<(String, YamlValue)>>) -> DictView {
    match p {
        Some(v) => fields_view(v@),
        None => Seq::empty(),
    }
}

/// Converts a parsed `_quarto.yml` (its top-level mapping) to `myst.yml`.
/// `preserved_fields` are the fields a forward conversion preserved, in key
/// order: `site.<key>` ones go back under `site:`, the rest under `project:`.
pub fn convert_root(root: &Vec<(String, YamlValue)>, preserved_fields: Option<&Vec<(String, YamlValue)>>) -> (r: ConversionResult)
    requires
        emittable(YamlView::Dict(fields_view(root@))),
        values_emittable(preserved_view(preserved_fields)),
    ensures
        r.is_book == q_is_book(fields_view(root@)),
        diags(r.warnings@) == q_warnings(fields_view(root@)),
        r.text@ == doc_text(q_fields(fields_view(root@), preserved_view(preserved_fields))),
{
    let ghost d = fields_view(root@);
    let ghost pv = preserved_view(preserved_fields);
    let is_book = is_book_exec(root);
    let mut warnings: Vec<Diagnostic> = Vec::new();
    let mut pf: Vec<(String, YamlValue)> = Vec::new();
    let mut sf: Vec<(String, YamlValue)> = Vec::new();
    proof {
        lemma_fields_view(pf@);
        lemma_fields_view(sf@);
    }
    assert(diags(warnings@) =~= Seq::<DiagView>::empty());
    project_head_exec(root, is_book, &mut pf, &mut warnings);
    project_rest_exec(root, &mut pf);
    project_tail_exec(root, &mut pf, &mut warnings);
    if is_book {
        push_pair(&mut sf, "template", YamlValue::String(String::from_str("book-theme")));
    }
    let ghost pf0 = fields_view(pf@);
    let ghost sf0 = fields_view(sf@);
    match preserved_fields {
        Some(p) => split_preserved_exec(p, &mut pf, &mut sf),
        None => {
            assert(fields_view(pf@) =~= pf0 + split_preserved(pv).0);
            assert(fields_view(sf@) =~= sf0 + split_preserved(pv).1);
        },
    }
    assert(fields_view(pf@) =~= q_project_fields(d, pv));
    assert(fields_view(sf@) =~= q_site_fields(d, pv));
    let mut top: Vec<EmitField> = Vec::new();
    assert(doc_view(top@) =~= Seq::<FieldView>::empty());
    proof {
        lemma_fields_view(pf@);
        lemma_fields_view(sf@);
    }
    if pf.len() > 0 {
        top.push(EmitField::new("project", YamlValue::Mapping(pf)));
    }
    let ghost t1 = top@;
    if sf.len() > 0 {
        top.push(EmitField::new("site", YamlValue::Mapping(sf)));
    }
    assert(doc_view(top@) =~= q_fields(d, pv)) by {
        if top@.len() > 0 {
            assert(top@.drop_last() =~= t1 || top@ =~= t1);
        }
    }
    unknown_warnings_exec(root, &mut warnings);
    proof { lemma_q_fields_emittable(d, pv); }
    let text = emit(&YamlDoc(top));
    ConversionResult { text, is_book, warnings }
}

/// Converts `_quarto.yml` text to `myst.yml`: its top-level mapping is read
/// with `parse_mapping` (an error when it is not a YAML mapping), then
/// converted as [`convert_root`] does.
pub fn convert(quarto_text: &str, preserved_fields: Option<&Vec<(String, YamlValue)>>) -> (r: Result<ConversionResult, crate::yaml::YamlReadError>)
    requires
        crate::yaml::yaml_mapping(quarto_text@) matches Some(d) ==> emittable(YamlView::Dict(d)),
        values_emittable(preserved_view(preserved_fields)),
    ensures
        match crate::yaml::yaml_mapping(quarto_text@) {
            None => r is Err,
            Some(d) => r matches Ok(c) && {
                &&& c.is_book == q_is_book(d)
                &&& diags(c.warnings@) == q_warnings(d)
                &&& c.text@ == doc_text(q_fields(d, preserved_view(preserved_fields)))
            },
        },
{
    let root = crate::yaml::parse_mapping(quarto_text)?;
    Ok(convert_root(&root, preserved_fields))
}

fn preserved_emittable(p: Option<&Vec<(String, YamlValue)>>) -> (r: bool)
    ensures
        r == values_emittable(preserved_view(p)),
{
    if p.is_none() {
        return true;
    }
    let v = p.unwrap();
    assert(preserved_view(p) == fields_view(v@));
    {
        {
            proof { lemma_fields_view(v@); }
            let mut i: usize = 0;
            while i < v.len()
                invariant
                    i <= v@.len(),
                    preserved_view(p) == fields_view(v@),
                    fields_view(v@).len() == v@.len(),
                    forall|k: int| 0 <= k < v@.len() ==> #[trigger] fields_view(v@)[k] == (v@[k].0@, v@[k].1@),
                    forall|k: int| 0 <= k < i ==> emittable(#[trigger] fields_view(v@)[k].1),
                decreases v.len() - i,
            {
                if !crate::yaml::emit::is_emittable(&v[i].1) {
                    assert(fields_view(v@)[i as int] == (v@[i as int].0@, v@[i as int].1@));
                    assert(!emittable(fields_view(v@)[i as int].1));
                    assert(!values_emittable(preserved_view(p)));
                    return false;
                }
                i = i + 1;
            }
            true
        }
    }
}

/// [`convert`] where the emitter can write the mapping and the preserved
/// fields; `None` otherwise (an empty list or mapping as a list item has no
/// block form).
pub fn convert_checked(quarto_text: &str, preserved_fields: Option<&Vec<(String, YamlValue)>>) -> (r: Option<Result<ConversionResult, crate::yaml::YamlReadError>>)
    ensures
        !values_emittable(preserved_view(preserved_fields)) ==> r is None,
        values_emittable(preserved_view(preserved_fields)) ==> match crate::yaml::yaml_mapping(quarto_text@) {
            None => r matches Some(x) && x is Err,
            Some(d) => if emittable(YamlView::Dict(d)) {
                r matches Some(Ok(c)) && {
                    &&& c.is_book == q_is_book(d)
                    &&& diags(c.warnings@) == q_warnings(d)
                    &&& c.text@ == doc_text(q_fields(d, preserved_view(preserved_fields)))
                }
            } else {
                r is None
            },
        },
{
    if !preserved_emittable(preserved_fields) {
        return None;
    }
    match crate::yaml::parse_mapping(quarto_text) {
        Err(e) => Some(Err(e)),
        Ok(root) => {
            let whole = YamlValue::Mapping(root);
            if !crate::yaml::emit::is_emittable(&whole) {
                None
            } else {
                Some(convert(quarto_text, preserved_fields))
            }
        },
    }
}

} // verus!
