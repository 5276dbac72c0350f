//! `myst.yml` -> `_quarto.yml`: synthesizes a whole new document, since
//! there is no existing `_quarto.yml` text to edit.
//!
//! Every `project.*` field is either mapped by name or preserved — as a
//! comment block at the end of the output and in the returned
//! `preserved_fields` — so nothing is silently dropped. `version` (a schema
//! marker) is neither mapped nor preserved; `site.template` shows through
//! the inferred project type and is preserved only when it is some other
//! theme.
use vstd::prelude::*;
use super::exports::{ends_with, ends_with_exec, exports_to_format, first_article, manuscript_article, spec_exports_to_format};
use super::project_type::{infer, spec_infer, ProjectType};
use super::{as_mapping, as_sequence, as_str, diag, diags, dict_field, extend_warnings, get, list_field, mapping_field, push_warning, sequence_field, str_field, string_field, view_str, warn, DiagView};
use crate::diagnostics::codes::bibliography::BIBLIOGRAPHY_SYNTHESIZED;
use crate::diagnostics::codes::config as codes;
use crate::diagnostics::{Diagnostic, Severity};
use crate::reader::fence::strs;
use crate::reader::lines::{lines_of, split_lines};
use crate::text::{chars_of, push_all, slice_chars, str_eq, string_of};
use crate::writer::{cat3, cat5};
use crate::yaml::emit::{
    all_items_ok, lemma_all_items_ok, lemma_empty_emittable, lemma_single_entry_emittable, lemma_values_emittable, values_emittable, comment_text, doc_emittable, doc_text, doc_view, emit, emittable, field_text, field_view, fields_emittable, item_ok,
    items_emittable, lemma_dict_get_emittable, lemma_fields_emittable, lemma_items_emittable, lemma_list_item_emittable,
    render_field, EmitField, FieldView, YamlDoc,
};
use crate::yaml::{
    dict_get, dict_has, dict_put, fields_view, items_view, lemma_dict_index, lemma_fields_view, lemma_items_view, opt_view, put_entry,
    DictView, YamlValue, YamlView,
};

verus! {

/// What converting a `myst.yml` gives.
pub struct ConversionResult {
    /// The `_quarto.yml` text.
    pub text: String,
    pub project_type: ProjectType,
    pub warnings: Vec<Diagnostic>,
    /// The fields with no Quarto equivalent, in key order.
    pub preserved_fields: Vec<(String, YamlValue)>,
}

/// The `project.*` keys read by name (and `version`, never carried over).
pub open spec fn handled_project_key(k: Seq<char>) -> bool {
    ||| k == "version"@
    ||| k == "title"@
    ||| k == "authors"@
    ||| k == "subtitle"@
    ||| k == "short_title"@
    ||| k == "description"@
    ||| k == "subject"@
    ||| k == "keywords"@
    ||| k == "date"@
    ||| k == "license"@
    ||| k == "doi"@
    ||| k == "github"@
    ||| k == "bibliography"@
    ||| k == "exports"@
    ||| k == "downloads"@
    ||| k == "banner"@
    ||| k == "thumbnail"@
    ||| k == "funding"@
    ||| k == "numbering"@
    ||| k == "toc"@
    ||| k == "abbreviations"@
    ||| k == "open_access"@
    ||| k == "venue"@
    ||| k == "id"@
}

fn handled_project_key_exec(k: &String) -> (r: bool)
    ensures
        r == handled_project_key(k@),
{
    let s = k.as_str();
    str_eq(s, "version") || str_eq(s, "title") || str_eq(s, "authors") || str_eq(s, "subtitle")
        || str_eq(s, "short_title") || str_eq(s, "description") || str_eq(s, "subject") || str_eq(s, "keywords")
        || str_eq(s, "date") || str_eq(s, "license") || str_eq(s, "doi") || str_eq(s, "github")
        || str_eq(s, "bibliography") || str_eq(s, "exports") || str_eq(s, "downloads") || str_eq(s, "banner")
        || str_eq(s, "thumbnail") || str_eq(s, "funding") || str_eq(s, "numbering") || str_eq(s, "toc")
        || str_eq(s, "abbreviations") || str_eq(s, "open_access") || str_eq(s, "venue") || str_eq(s, "id")
}

// ---------------------------------------------------------------------------
// Authors, toc and file names.
// ---------------------------------------------------------------------------

/// `{name: s}`.
pub open spec fn name_entry(s: Seq<char>) -> YamlView {
    YamlView::Dict(seq![("name"@, YamlView::Str(s))])
}

/// One author field: a string `affiliation` becomes `affiliations: [{name: ...}]`
/// (any other `affiliation` value is kept, under `affiliations`).
pub open spec fn author_field(f: (Seq<char>, YamlView)) -> (Seq<char>, YamlView) {
    if f.0 == "affiliation"@ {
        ("affiliations"@, match view_str(f.1) {
            Some(s) => YamlView::List(seq![name_entry(s)]),
            None => f.1,
        })
    } else {
        f
    }
}

/// The Quarto author entries: mappings with their fields widened, bare
/// strings as `{name: ...}`; anything else has no entry.
pub open spec fn author_items(authors: Seq<YamlView>) -> Seq<YamlView>
    decreases authors.len(),
{
    if authors.len() == 0 {
        Seq::empty()
    } else {
        author_items(authors.drop_last()) + match authors.last() {
            YamlView::Dict(m) => seq![YamlView::Dict(m.map_values(|f: (Seq<char>, YamlView)| author_field(f)))],
            a => match view_str(a) {
                Some(s) => seq![name_entry(s)],
                None => Seq::empty(),
            },
        }
    }
}

/// `authors[]` -> `author[]`, absent when there are no authors.
pub open spec fn spec_convert_authors(authors: Seq<YamlView>) -> Option<YamlView> {
    if authors.len() == 0 {
        None
    } else {
        Some(YamlView::List(author_items(authors)))
    }
}

/// The file a toc entry names: its `file` string, or the entry itself when a string.
pub open spec fn toc_entry_file(e: YamlView) -> Option<Seq<char>> {
    match e {
        YamlView::Dict(m) => str_field(m, "file"@),
        _ => view_str(e),
    }
}

/// `.md` -> `.qmd`, `.ipynb` unchanged, no extension -> `.qmd` appended.
pub open spec fn rewrite_content_extension(name: Seq<char>) -> Seq<char> {
    if ends_with(name, ".ipynb"@) {
        name
    } else if ends_with(name, ".md"@) {
        name.subrange(0, name.len() - 3) + ".qmd"@
    } else {
        name + ".qmd"@
    }
}

/// Law: among the Quarto chapters a notebook keeps its file name as it is
/// in the toc; a Markdown page `x.md` becomes `x.qmd`; every chapter name
/// ends in `.qmd` or `.ipynb`.
pub proof fn lemma_chapter_file_names(name: Seq<char>)
    ensures
        ends_with(name, ".ipynb"@) ==> rewrite_content_extension(name) == name,
        ends_with(name, ".md"@) ==> rewrite_content_extension(name) == name.subrange(0, name.len() - 3) + ".qmd"@,
        ends_with(rewrite_content_extension(name), ".qmd"@) || ends_with(rewrite_content_extension(name), ".ipynb"@),
{
    reveal_strlit(".ipynb");
    reveal_strlit(".md");
    reveal_strlit(".qmd");
    if ends_with(name, ".md"@) && ends_with(name, ".ipynb"@) {
        assert(name[name.len() - 1] == ".md"@[2]);
        assert(name[name.len() - 1] == ".ipynb"@[5]);
    }
    let r = rewrite_content_extension(name);
    if !ends_with(name, ".ipynb"@) {
        if ends_with(name, ".md"@) {
            assert(r.subrange(r.len() - 4, r.len() as int) =~= ".qmd"@);
        } else {
            assert(r.subrange(r.len() - 4, r.len() as int) =~= ".qmd"@);
        }
    }
}

/// The chapters of a toc: each entry's file, extension rewritten.
pub open spec fn chapter_items(toc: Seq<YamlView>) -> Seq<YamlView>
    decreases toc.len(),
{
    if toc.len() == 0 {
        Seq::empty()
    } else {
        chapter_items(toc.drop_last()) + match toc_entry_file(toc.last()) {
            Some(f) => seq![YamlView::Str(rewrite_content_extension(f))],
            None => Seq::empty(),
        }
    }
}

pub open spec fn toc_chapters(toc: Seq<YamlView>) -> Option<YamlView> {
    if toc.len() == 0 {
        None
    } else {
        Some(YamlView::List(chapter_items(toc)))
    }
}

/// The toc's notebooks, as `{notebook: ...}` entries.
pub open spec fn notebook_items(toc: Seq<YamlView>) -> Seq<YamlView>
    decreases toc.len(),
{
    if toc.len() == 0 {
        Seq::empty()
    } else {
        notebook_items(toc.drop_last()) + match toc_entry_file(toc.last()) {
            Some(f) => if ends_with(f, ".ipynb"@) {
                seq![YamlView::Dict(seq![("notebook"@, YamlView::Str(f))])]
            } else {
                Seq::empty()
            },
            None => Seq::empty(),
        }
    }
}

/// The toc entries a manuscript has no place for: files that are neither
/// notebooks nor the article.
pub open spec fn leftover_items(toc: Seq<YamlView>, article: Option<Seq<char>>) -> Seq<YamlView>
    decreases toc.len(),
{
    if toc.len() == 0 {
        Seq::empty()
    } else {
        leftover_items(toc.drop_last(), article) + match toc_entry_file(toc.last()) {
            Some(f) => if !ends_with(f, ".ipynb"@) && Some(f) != article {
                seq![toc.last()]
            } else {
                Seq::empty()
            },
            None => Seq::empty(),
        }
    }
}

// ---------------------------------------------------------------------------
// The emitted fields.
// ---------------------------------------------------------------------------

pub open spec fn bib_message(b: Seq<char>) -> Seq<char> {
    "myst.yml has no `bibliography` key but "@ + b + " exists in the conversion set; synthesized `bibliography: "@ + b + "` so citations resolve under Quarto (reference RT-14)"@
}

pub open spec fn banner_message() -> Seq<char> {
    "myst.yml has both banner and thumbnail; banner was used for _quarto.yml's image (reference §8.2)"@
}

pub open spec fn leftover_message() -> Seq<char> {
    "myst.yml project.toc has entries beyond the manuscript's article and notebooks (e.g. an appendix or supplement); Quarto's manuscript project shape has no equivalent, so they were preserved rather than dropped (reference §8.1)"@
}

pub open spec fn downloads_comment() -> Seq<char> {
    "mystquarto: partial analogue only (reference §8.2)"@
}

pub open spec fn funding_comment() -> Seq<char> {
    "mystquarto: shapes differ between myst.yml and _quarto.yml; passed through as-is (reference §8.2)"@
}

pub open spec fn preserved_header() -> Seq<char> {
    "# mystquarto: no Quarto equivalent for these myst.yml fields\n"@
}

/// A string field of `project` under a new key, when it is a string.
pub open spec fn str_entry(project: DictView, k: Seq<char>, out: Seq<char>) -> Seq<FieldView> {
    match str_field(project, k) {
        Some(v) => seq![(out, YamlView::Str(v), None)],
        None => Seq::empty(),
    }
}

/// `project: {type: book|manuscript}`.
pub open spec fn type_fields(pt: ProjectType) -> Seq<FieldView> {
    match pt {
        ProjectType::Book => seq![("project"@, YamlView::Dict(seq![("type"@, YamlView::Str("book"@))]), None)],
        ProjectType::Manuscript => seq![("project"@, YamlView::Dict(seq![("type"@, YamlView::Str("manuscript"@))]), None)],
        ProjectType::Default => Seq::empty(),
    }
}

/// The title and authors: under `book:` (with the chapters) for a book,
/// at the top level otherwise.
pub open spec fn title_fields(pt: ProjectType, project: DictView) -> Seq<FieldView> {
    let title = str_field(project, "title"@);
    let author = spec_convert_authors(list_field(project, "authors"@));
    if pt == ProjectType::Book {
        seq![("book"@, YamlView::Dict(book_inner(project)), None)]
    } else {
        (match title {
            Some(t) => seq![("title"@, YamlView::Str(t), None)],
            None => Seq::empty(),
        }) + (match author {
            Some(a) => seq![("author"@, a, None)],
            None => Seq::empty(),
        })
    }
}

/// A book's `title`, `author` and `chapters`.
pub open spec fn book_inner(project: DictView) -> DictView {
    (match str_field(project, "title"@) {
        Some(t) => seq![("title"@, YamlView::Str(t))],
        None => Seq::empty(),
    }) + (match spec_convert_authors(list_field(project, "authors"@)) {
        Some(a) => seq![("author"@, a)],
        None => Seq::empty(),
    }) + (match toc_chapters(list_field(project, "toc"@)) {
        Some(c) => seq![("chapters"@, c)],
        None => Seq::empty(),
    })
}

/// `subject` -> `categories`, non-empty `keywords`, and `date`.
pub open spec fn listed_fields(project: DictView) -> Seq<FieldView> {
    (match str_field(project, "subject"@) {
        Some(v) => seq![("categories"@, YamlView::List(seq![YamlView::Str(v)]), None)],
        None => Seq::empty(),
    }) + (match dict_get(project, "keywords"@) {
        Some(YamlView::List(s)) => if s.len() > 0 { seq![("keywords"@, YamlView::List(s), None)] } else { Seq::empty() },
        _ => Seq::empty(),
    }) + (match dict_get(project, "date"@) {
        Some(v) => seq![("date"@, v, None)],
        None => Seq::empty(),
    })
}

/// The fields mapped one to one.
pub open spec fn plain_fields(project: DictView) -> Seq<FieldView> {
    str_entry(project, "subtitle"@, "subtitle"@) + str_entry(project, "short_title"@, "short-title"@)
        + str_entry(project, "description"@, "description"@) + listed_fields(project)
        + str_entry(project, "license"@, "license"@) + str_entry(project, "doi"@, "doi"@) + str_entry(project, "github"@, "repo-url"@)
}

/// `bibliography`, synthesized from a `.bib` of the conversion set when absent.
pub open spec fn bib_fields(project: DictView, bib: Option<Seq<char>>) -> Seq<FieldView> {
    match str_field(project, "bibliography"@) {
        Some(v) => seq![("bibliography"@, YamlView::Str(v), None)],
        None => match bib {
            Some(b) => seq![("bibliography"@, YamlView::Str(b), None)],
            None => Seq::empty(),
        },
    }
}

/// `format`, with its comment.
pub open spec fn format_fields(project: DictView) -> Seq<FieldView> {
    match spec_exports_to_format(list_field(project, "exports"@)).0 {
        Some((v, c)) => seq![("format"@, v, c)],
        None => Seq::empty(),
    }
}

/// Non-empty `downloads`, with a comment.
pub open spec fn downloads_fields(project: DictView) -> Seq<FieldView> {
    match dict_get(project, "downloads"@) {
        Some(YamlView::List(s)) => if s.len() > 0 { seq![("downloads"@, YamlView::List(s), Some(downloads_comment()))] } else { Seq::empty() },
        _ => Seq::empty(),
    }
}

/// `image`: the banner, else the thumbnail.
pub open spec fn image_fields(project: DictView) -> Seq<FieldView> {
    match str_field(project, "banner"@) {
        Some(b) => seq![("image"@, YamlView::Str(b), None)],
        None => match str_field(project, "thumbnail"@) {
            Some(t) => seq![("image"@, YamlView::Str(t), None)],
            None => Seq::empty(),
        },
    }
}

/// `funding` as it is, with a comment; and `crossref.eq-prefix`.
pub open spec fn funding_crossref_fields(project: DictView) -> Seq<FieldView> {
    (match dict_get(project, "funding"@) {
        Some(v) => seq![("funding"@, v, Some(funding_comment()))],
        None => Seq::empty(),
    }) + (match eq_template(project) {
        Some(t) => seq![("crossref"@, YamlView::Dict(seq![("eq-prefix"@, YamlView::Str(t))]), None)],
        None => Seq::empty(),
    })
}

/// `format`, `downloads`, `image`, `funding` and `crossref`.
pub open spec fn more_fields(project: DictView) -> Seq<FieldView> {
    format_fields(project) + downloads_fields(project) + image_fields(project) + funding_crossref_fields(project)
}

/// `numbering.equation.template`.
pub open spec fn eq_template(project: DictView) -> Option<Seq<char>> {
    str_field(dict_field(dict_field(project, "numbering"@), "equation"@), "template"@)
}

/// A manuscript's `article` and `notebooks`.
pub open spec fn manuscript_inner(project: DictView) -> DictView {
    let nbs = notebook_items(list_field(project, "toc"@));
    (match first_article(list_field(project, "exports"@)) {
        Some(a) => seq![("article"@, YamlView::Str(rewrite_content_extension(a)))],
        None => Seq::empty(),
    }) + if nbs.len() > 0 { seq![("notebooks"@, YamlView::List(nbs))] } else { Seq::empty() }
}

pub open spec fn manuscript_fields(pt: ProjectType, project: DictView) -> Seq<FieldView> {
    if pt == ProjectType::Manuscript && manuscript_inner(project).len() > 0 {
        seq![("manuscript"@, YamlView::Dict(manuscript_inner(project)), None)]
    } else {
        Seq::empty()
    }
}

/// `project.type`, then the title and authors.
pub open spec fn head_part(pt: ProjectType, project: DictView) -> Seq<FieldView> {
    type_fields(pt) + title_fields(pt, project)
}

/// The mapped fields between the head and the manuscript.
pub open spec fn middle_part(project: DictView, bib: Option<Seq<char>>) -> Seq<FieldView> {
    plain_fields(project) + bib_fields(project, bib) + more_fields(project)
}

/// Every emitted field, in order.
pub open spec fn convert_fields(root: DictView, bib: Option<Seq<char>>) -> Seq<FieldView> {
    let project = dict_field(root, "project"@);
    let pt = spec_infer(root);
    head_part(pt, project) + middle_part(project, bib) + manuscript_fields(pt, project)
}

/// The warning for a synthesized `bibliography`.
pub open spec fn bib_warning(project: DictView, bib: Option<Seq<char>>) -> Seq<DiagView> {
    match (str_field(project, "bibliography"@), bib) {
        (None, Some(b)) => seq![(Severity::Info, BIBLIOGRAPHY_SYNTHESIZED@, bib_message(b))],
        _ => Seq::empty(),
    }
}

/// The warning when both `banner` and `thumbnail` are set.
pub open spec fn banner_warning(project: DictView) -> Seq<DiagView> {
    if str_field(project, "banner"@) is Some && str_field(project, "thumbnail"@) is Some {
        seq![(Severity::Warning, codes::BANNER_AND_THUMBNAIL_BOTH_SET@, banner_message())]
    } else {
        Seq::empty()
    }
}

/// The warning when a manuscript's toc has entries it has no place for.
pub open spec fn leftover_warning(pt: ProjectType, project: DictView) -> Seq<DiagView> {
    if pt == ProjectType::Manuscript && leftover_items(list_field(project, "toc"@), first_article(list_field(project, "exports"@))).len() > 0 {
        seq![(Severity::LossyExpected, codes::MANUSCRIPT_TOC_ENTRY_PRESERVED@, leftover_message())]
    } else {
        Seq::empty()
    }
}

/// The warnings, in order: bibliography, exports, image, manuscript toc.
pub open spec fn convert_warnings(root: DictView, bib: Option<Seq<char>>) -> Seq<DiagView> {
    let project = dict_field(root, "project"@);
    bib_warning(project, bib) + spec_exports_to_format(list_field(project, "exports"@)).1 + banner_warning(project)
        + leftover_warning(spec_infer(root), project)
}

// ---------------------------------------------------------------------------
// The preserved fields.
// ---------------------------------------------------------------------------

/// `numbering` (when it gave no equation template) and the toc a manuscript
/// or default project has no place for.
pub open spec fn preserved_numbering_toc(pt: ProjectType, project: DictView) -> DictView {
    let p1 = match (eq_template(project), dict_get(project, "numbering"@)) {
        (None, Some(v)) => dict_put(Seq::empty(), "numbering"@, v),
        _ => Seq::empty(),
    };
    match pt {
        ProjectType::Manuscript => {
            let lo = leftover_items(list_field(project, "toc"@), first_article(list_field(project, "exports"@)));
            if lo.len() > 0 { dict_put(p1, "toc"@, YamlView::List(lo)) } else { p1 }
        },
        ProjectType::Default => match dict_get(project, "toc"@) {
            Some(YamlView::List(s)) => if s.len() > 0 { dict_put(p1, "toc"@, YamlView::List(s)) } else { p1 },
            _ => p1,
        },
        ProjectType::Book => p1,
    }
}

/// `k` preserved when present.
pub open spec fn put_present(p: DictView, project: DictView, k: Seq<char>) -> DictView {
    match dict_get(project, k) {
        Some(v) => dict_put(p, k, v),
        None => p,
    }
}

/// The four fields with no Quarto target at all.
pub open spec fn put_unmappable(p: DictView, project: DictView) -> DictView {
    put_present(put_present(put_present(put_present(p, project, "abbreviations"@), project, "open_access"@), project, "venue"@), project, "id"@)
}

/// Every `project` key not read by name, unless already preserved.
pub open spec fn put_unknown(p: DictView, entries: DictView) -> DictView
    decreases entries.len(),
{
    if entries.len() == 0 {
        p
    } else {
        let q = put_unknown(p, entries.drop_last());
        let (k, v) = entries.last();
        if !handled_project_key(k) && !dict_has(q, k) { dict_put(q, k, v) } else { q }
    }
}

/// Every `site` key as `site.<key>`; `template` only when it is not a
/// theme the project type already shows.
pub open spec fn put_site(p: DictView, entries: DictView) -> DictView
    decreases entries.len(),
{
    if entries.len() == 0 {
        p
    } else {
        let q = put_site(p, entries.drop_last());
        let (k, v) = entries.last();
        if k == "template"@ {
            if view_str(v) == Some("book-theme"@) || view_str(v) == Some("article-theme"@) { q } else { dict_put(q, "site.template"@, v) }
        } else {
            dict_put(q, "site."@ + k, v)
        }
    }
}

/// The preserved fields, in key order.
pub open spec fn convert_preserved(root: DictView) -> DictView {
    let project = dict_field(root, "project"@);
    let pt = spec_infer(root);
    put_site(put_unknown(put_unmappable(preserved_numbering_toc(pt, project), project), project), dict_field(root, "site"@))
}

/// Each preserved field rendered, every line commented out.
pub open spec fn preserved_text(p: DictView) -> Seq<char>
    decreases p.len(),
{
    if p.len() == 0 {
        Seq::empty()
    } else {
        preserved_text(p.drop_last()) + comment_text(lines_of(field_text(p.last().0, p.last().1, Seq::empty())))
    }
}

/// The whole `_quarto.yml` text.
pub open spec fn convert_text(root: DictView, bib: Option<Seq<char>>) -> Seq<char> {
    let p = convert_preserved(root);
    doc_text(convert_fields(root, bib)) + if p.len() > 0 { preserved_header() + preserved_text(p) } else { Seq::empty() }
}

// ---------------------------------------------------------------------------
// Executable pieces.
// ---------------------------------------------------------------------------

/// `{key: String(s)}` as a one-entry mapping.
fn str_entry_value(key: &str, s: String) -> (r: YamlValue)
    ensures
        r@ == YamlView::Dict(seq![(key@, YamlView::Str(s@))]),
{
    let mut v: Vec<(String, YamlValue)> = Vec::new();
    v.push((String::from_str(key), YamlValue::String(s)));
    proof { lemma_fields_view(v@); }
    assert(fields_view(v@) =~= seq![(key@, YamlView::Str(s@))]);
    YamlValue::Mapping(v)
}

fn author_entry(m: &Vec<(String, YamlValue)>) -> (r: Vec<(String, YamlValue)>)
    ensures
        fields_view(r@) == fields_view(m@).map_values(|f: (Seq<char>, YamlView)| author_field(f)),
{
    let ghost mv = fields_view(m@);
    proof { lemma_fields_view(m@); }
    let mut out: Vec<(String, YamlValue)> = Vec::new();
    let mut i: usize = 0;
    while i < m.len()
        invariant
            i <= m@.len(),
            mv == fields_view(m@),
            mv.len() == m@.len(),
            forall|k: int| 0 <= k < m@.len() ==> #[trigger] mv[k] == (m@[k].0@, m@[k].1@),
            fields_view(out@) == mv.subrange(0, i as int).map_values(|f: (Seq<char>, YamlView)| author_field(f)),
        decreases m.len() - i,
    {
        let key = &m[i].0;
        let value = &m[i].1;
        let ghost o0 = out@;
        if str_eq(key.as_str(), "affiliation") {
            let widened = match as_str(value) {
                Some(s) => {
                    let mut items: Vec<YamlValue> = Vec::new();
                    items.push(str_entry_value("name", s.clone()));
                    proof { lemma_items_view(items@); }
                    assert(items_view(items@) =~= seq![name_entry(s@)]);
                    YamlValue::Sequence(items)
                },
                None => value.copy(),
            };
            out.push((String::from_str("affiliations"), widened));
        } else {
            out.push((key.clone(), value.copy()));
        }
        proof {
            lemma_fields_view(out@);
            lemma_fields_view(o0);
            assert(out@.drop_last() =~= o0);
        }
        assert(fields_view(out@) =~= mv.subrange(0, i + 1).map_values(|f: (Seq<char>, YamlView)| author_field(f)));
        i = i + 1;
    }
    assert(mv.subrange(0, i as int) =~= mv);
    out
}

/// `authors[]` -> `author[]`.
fn convert_authors(authors: &Vec<YamlValue>) -> (r: Option<YamlValue>)
    ensures
        match r {
            Some(v) => spec_convert_authors(items_view(authors@)) == Some(v@),
            None => spec_convert_authors(items_view(authors@)) is None,
        },
{
    let ghost av = items_view(authors@);
    proof { lemma_items_view(authors@); }
    if authors.len() == 0 {
        return None;
    }
    let mut out: Vec<YamlValue> = Vec::new();
    let mut i: usize = 0;
    assert(av.subrange(0, 0) =~= Seq::<YamlView>::empty());
    while i < authors.len()
        invariant
            i <= authors@.len(),
            av == items_view(authors@),
            av.len() == authors@.len(),
            forall|k: int| 0 <= k < authors@.len() ==> #[trigger] av[k] == authors@[k]@,
            items_view(out@) == author_items(av.subrange(0, i as int)),
        decreases authors.len() - i,
    {
        assert(av.subrange(0, i + 1).drop_last() =~= av.subrange(0, i as int));
        assert(av.subrange(0, i + 1).last() == authors@[i as int]@);
        let ghost o0 = out@;
        match as_mapping(&authors[i]) {
            Some(m) => {
                let e = author_entry(m);
                out.push(YamlValue::Mapping(e));
            },
            None => {
                if let Some(s) = as_str(&authors[i]) {
                    out.push(str_entry_value("name", s.clone()));
                }
            },
        }
        proof {
            lemma_items_view(out@);
            lemma_items_view(o0);
            if out@.len() > o0.len() {
                assert(out@.drop_last() =~= o0);
            } else {
                assert(out@ =~= o0);
            }
        }
        assert(items_view(out@) =~= author_items(av.subrange(0, i + 1)));
        i = i + 1;
    }
    assert(av.subrange(0, i as int) =~= av);
    Some(YamlValue::Sequence(out))
}

fn toc_entry_file_exec(e: &YamlValue) -> (r: Option<String>)
    ensures
        opt_view(r) == toc_entry_file(e@),
{
    match as_mapping(e) {
        Some(m) => string_field(m, "file"),
        None => match as_str(e) {
            Some(s) => Some(s.clone()),
            None => None,
        },
    }
}

fn rewrite_content_extension_exec(name: &String) -> (r: String)
    ensures
        r@ == rewrite_content_extension(name@),
{
    let v = chars_of(name.as_str());
    if ends_with_exec(&v, ".ipynb") {
        name.clone()
    } else if ends_with_exec(&v, ".md") {
        proof { reveal_strlit(".md"); }
        let mut out = slice_chars(&v, 0, v.len() - 3);
        push_all(&mut out, &chars_of(".qmd"));
        string_of(&out)
    } else {
        let mut out = v;
        push_all(&mut out, &chars_of(".qmd"));
        string_of(&out)
    }
}

/// The toc's chapters, notebooks and leftover entries.
fn toc_pieces(toc: &Vec<YamlValue>, article: &Option<String>) -> (r: (Vec<YamlValue>, Vec<YamlValue>, Vec<YamlValue>))
    ensures
        items_view(r.0@) == chapter_items(items_view(toc@)),
        items_view(r.1@) == notebook_items(items_view(toc@)),
        items_view(r.2@) == leftover_items(items_view(toc@), opt_view(*article)),
{
    let ghost tv = items_view(toc@);
    proof { lemma_items_view(toc@); }
    let mut chapters: Vec<YamlValue> = Vec::new();
    let mut notebooks: Vec<YamlValue> = Vec::new();
    let mut leftover: Vec<YamlValue> = Vec::new();
    let mut i: usize = 0;
    assert(tv.subrange(0, 0) =~= Seq::<YamlView>::empty());
    while i < toc.len()
        invariant
            i <= toc@.len(),
            tv == items_view(toc@),
            tv.len() == toc@.len(),
            forall|k: int| 0 <= k < toc@.len() ==> #[trigger] tv[k] == toc@[k]@,
            items_view(chapters@) == chapter_items(tv.subrange(0, i as int)),
            items_view(notebooks@) == notebook_items(tv.subrange(0, i as int)),
            items_view(leftover@) == leftover_items(tv.subrange(0, i as int), opt_view(*article)),
        decreases toc.len() - i,
    {
        assert(tv.subrange(0, i + 1).drop_last() =~= tv.subrange(0, i as int));
        assert(tv.subrange(0, i + 1).last() == toc@[i as int]@);
        let ghost c0 = chapters@;
        let ghost n0 = notebooks@;
        let ghost l0 = leftover@;
        if let Some(f) = toc_entry_file_exec(&toc[i]) {
            chapters.push(YamlValue::String(rewrite_content_extension_exec(&f)));
            let fv = chars_of(f.as_str());
            let is_nb = ends_with_exec(&fv, ".ipynb");
            if is_nb {
                notebooks.push(str_entry_value("notebook", f.clone()));
            }
            let is_article = match article {
                Some(a) => str_eq(a.as_str(), f.as_str()),
                None => false,
            };
            if !is_nb && !is_article {
                leftover.push(toc[i].copy());
            }
        }
        proof {
            lemma_items_view(chapters@);
            lemma_items_view(c0);
            lemma_items_view(notebooks@);
            lemma_items_view(n0);
            lemma_items_view(leftover@);
            lemma_items_view(l0);
            if chapters@.len() > c0.len() { assert(chapters@.drop_last() =~= c0); } else { assert(chapters@ =~= c0); }
            if notebooks@.len() > n0.len() { assert(notebooks@.drop_last() =~= n0); } else { assert(notebooks@ =~= n0); }
            if leftover@.len() > l0.len() { assert(leftover@.drop_last() =~= l0); } else { assert(leftover@ =~= l0); }
        }
        assert(items_view(chapters@) =~= chapter_items(tv.subrange(0, i + 1)));
        assert(items_view(notebooks@) =~= notebook_items(tv.subrange(0, i + 1)));
        assert(items_view(leftover@) =~= leftover_items(tv.subrange(0, i + 1), opt_view(*article)));
        i = i + 1;
    }
    assert(tv.subrange(0, i as int) =~= tv);
    (chapters, notebooks, leftover)
}

fn push_emit(fields: &mut Vec<EmitField>, f: EmitField)
    ensures
        doc_view(final(fields)@) == doc_view(old(fields)@).push(field_view(f)),
{
    fields.push(f);
    assert(doc_view(final(fields)@) =~= doc_view(old(fields)@).push(field_view(f)));
}

fn push_plain(fields: &mut Vec<EmitField>, key: &str, value: YamlValue)
    ensures
        doc_view(final(fields)@) == doc_view(old(fields)@).push((key@, value@, None::<Seq<char>>)),
{
    push_emit(fields, EmitField::new(key, value));
}

fn one_field(key: &str, value: YamlValue) -> (r: YamlValue)
    ensures
        r@ == YamlView::Dict(seq![(key@, value@)]),
{
    let mut v: Vec<(String, YamlValue)> = Vec::new();
    v.push((String::from_str(key), value));
    proof { lemma_fields_view(v@); }
    assert(fields_view(v@) =~= seq![(key@, value@)]);
    YamlValue::Mapping(v)
}

fn push_pair(v: &mut Vec<(String, YamlValue)>, key: &str, value: YamlValue)
    ensures
        fields_view(final(v)@) == fields_view(old(v)@).push((key@, value@)),
{
    v.push((String::from_str(key), value));
    proof {
        lemma_fields_view(final(v)@);
        lemma_fields_view(old(v)@);
        assert(final(v)@.drop_last() =~= old(v)@);
    }
    assert(fields_view(final(v)@) =~= fields_view(old(v)@).push((key@, value@)));
}

fn book_inner_exec(project: &Vec<(String, YamlValue)>, title: Option<String>, author: Option<YamlValue>) -> (r: Vec<(String, YamlValue)>)
    requires
        opt_view(title) == str_field(fields_view(project@), "title"@),
        match author {
            Some(a) => spec_convert_authors(list_field(fields_view(project@), "authors"@)) == Some(a@),
            None => spec_convert_authors(list_field(fields_view(project@), "authors"@)) is None,
        },
    ensures
        fields_view(r@) == book_inner(fields_view(project@)),
{
    let ghost d = fields_view(project@);
    let mut book_fields: Vec<(String, YamlValue)> = Vec::new();
    proof { lemma_fields_view(book_fields@); }
    if let Some(t) = title {
        push_pair(&mut book_fields, "title", YamlValue::String(t));
    }
    let ghost b1 = fields_view(book_fields@);
    if let Some(a) = author {
        push_pair(&mut book_fields, "author", a);
    }
    let ghost b2 = fields_view(book_fields@);
    let empty_seq: Vec<YamlValue> = Vec::new();
    proof { lemma_items_view(empty_seq@); }
    let toc = match sequence_field(project, "toc") {
        Some(t) => t,
        None => &empty_seq,
    };
    proof { lemma_items_view(toc@); }
    if toc.len() > 0 {
        let (chapters, _, _) = toc_pieces(toc, &None);
        push_pair(&mut book_fields, "chapters", YamlValue::Sequence(chapters));
    }
    assert(fields_view(book_fields@) =~= book_inner(d));
    book_fields
}

/// `project.type`, then the title and authors (under `book:` for a book).
fn head_fields(pt: ProjectType, project: &Vec<(String, YamlValue)>, fields: &mut Vec<EmitField>)
    ensures
        doc_view(final(fields)@) == doc_view(old(fields)@) + type_fields(pt) + title_fields(pt, fields_view(project@)),
{
    let ghost d = fields_view(project@);
    let ghost f0 = doc_view(fields@);
    match pt {
        ProjectType::Book => push_plain(fields, "project", one_field("type", YamlValue::String(String::from_str("book")))),
        ProjectType::Manuscript => push_plain(fields, "project", one_field("type", YamlValue::String(String::from_str("manuscript")))),
        ProjectType::Default => {},
    }
    let ghost f1 = doc_view(fields@);
    assert(f1 =~= f0 + type_fields(pt));
    let empty_seq: Vec<YamlValue> = Vec::new();
    proof { lemma_items_view(empty_seq@); }
    let title = string_field(project, "title");
    let authors = match sequence_field(project, "authors") {
        Some(a) => a,
        None => &empty_seq,
    };
    let author_field = convert_authors(authors);
    if pt == ProjectType::Book {
        let bf = book_inner_exec(project, title, author_field);
        push_plain(fields, "book", YamlValue::Mapping(bf));
        assert(doc_view(fields@) =~= f1 + title_fields(pt, d));
    } else {
        if let Some(t) = title {
            push_plain(fields, "title", YamlValue::String(t));
        }
        if let Some(a) = author_field {
            push_plain(fields, "author", a);
        }
        assert(doc_view(fields@) =~= f1 + title_fields(pt, d));
    }
}

fn push_str_entry(project: &Vec<(String, YamlValue)>, k: &str, out: &str, fields: &mut Vec<EmitField>)
    ensures
        doc_view(final(fields)@) == doc_view(old(fields)@) + str_entry(fields_view(project@), k@, out@),
{
    let ghost f0 = doc_view(fields@);
    if let Some(v) = string_field(project, k) {
        push_plain(fields, out, YamlValue::String(v));
    }
    assert(doc_view(fields@) =~= f0 + str_entry(fields_view(project@), k@, out@));
}

fn listed_fields_exec(project: &Vec<(String, YamlValue)>, fields: &mut Vec<EmitField>)
    ensures
        doc_view(final(fields)@) == doc_view(old(fields)@) + listed_fields(fields_view(project@)),
{
    let ghost d = fields_view(project@);
    let ghost f0 = doc_view(fields@);
    if let Some(v) = string_field(project, "subject") {
        let mut items: Vec<YamlValue> = Vec::new();
        items.push(YamlValue::String(v));
        proof { lemma_items_view(items@); }
        assert(items_view(items@) =~= seq![YamlView::Str(v@)]);
        push_plain(fields, "categories", YamlValue::Sequence(items));
    }
    let ghost f1 = doc_view(fields@);
    if let Some(kv) = get(project, "keywords") {
        if let Some(seq) = as_sequence(kv) {
            proof { lemma_items_view(seq@); }
            if seq.len() > 0 {
                push_plain(fields, "keywords", kv.copy());
            }
        }
    }
    let ghost f2 = doc_view(fields@);
    if let Some(v) = get(project, "date") {
        push_plain(fields, "date", v.copy());
    }
    assert(doc_view(fields@) =~= f0 + listed_fields(d));
}

/// The fields mapped one to one.
fn plain_fields_exec(project: &Vec<(String, YamlValue)>, fields: &mut Vec<EmitField>)
    ensures
        doc_view(final(fields)@) == doc_view(old(fields)@) + plain_fields(fields_view(project@)),
{
    let ghost d = fields_view(project@);
    let ghost f0 = doc_view(fields@);
    push_str_entry(project, "subtitle", "subtitle", fields);
    push_str_entry(project, "short_title", "short-title", fields);
    push_str_entry(project, "description", "description", fields);
    listed_fields_exec(project, fields);
    push_str_entry(project, "license", "license", fields);
    push_str_entry(project, "doi", "doi", fields);
    push_str_entry(project, "github", "repo-url", fields);
    assert(doc_view(fields@) =~= f0 + plain_fields(d));
}

pub open spec fn opt_str_view(o: Option<&str>) -> Option<Seq<char>> {
    match o {
        Some(s) => Some(s@),
        None => None,
    }
}

/// `bibliography`, and the warning when it was synthesized.
fn bib_fields_exec(project: &Vec<(String, YamlValue)>, bib: Option<&str>, fields: &mut Vec<EmitField>, warnings: &mut Vec<Diagnostic>)
    ensures
        doc_view(final(fields)@) == doc_view(old(fields)@) + bib_fields(fields_view(project@), opt_str_view(bib)),
        diags(final(warnings)@) == diags(old(warnings)@) + bib_warning(fields_view(project@), opt_str_view(bib)),
{
    let ghost f0 = doc_view(fields@);
    let ghost w0 = diags(warnings@);
    match string_field(project, "bibliography") {
        Some(v) => push_plain(fields, "bibliography", YamlValue::String(v)),
        None => {
            if let Some(b) = bib {
                push_plain(fields, "bibliography", YamlValue::String(String::from_str(b)));
                let msg = cat5("myst.yml has no `bibliography` key but ", b, " exists in the conversion set; synthesized `bibliography: ", b, "` so citations resolve under Quarto (reference RT-14)");
                push_warning(warnings, warn(Severity::Info, BIBLIOGRAPHY_SYNTHESIZED, msg.as_str()));
            }
        },
    }
    assert(doc_view(fields@) =~= f0 + bib_fields(fields_view(project@), opt_str_view(bib)));
    assert(diags(warnings@) =~= w0 + bib_warning(fields_view(project@), opt_str_view(bib)));
}

fn format_fields_exec(project: &Vec<(String, YamlValue)>, fields: &mut Vec<EmitField>, warnings: &mut Vec<Diagnostic>)
    ensures
        doc_view(final(fields)@) == doc_view(old(fields)@) + format_fields(fields_view(project@)),
        diags(final(warnings)@) == diags(old(warnings)@) + spec_exports_to_format(list_field(fields_view(project@), "exports"@)).1,
{
    let ghost f0 = doc_view(fields@);
    let empty_seq: Vec<YamlValue> = Vec::new();
    proof { lemma_items_view(empty_seq@); }
    let exports = match sequence_field(project, "exports") {
        Some(e) => e,
        None => &empty_seq,
    };
    let (format_field, export_warnings) = exports_to_format(exports);
    extend_warnings(warnings, export_warnings);
    if let Some(f) = format_field {
        let mut ef = EmitField::new("format", f.value);
        if let Some(c) = f.comment {
            ef = ef.with_comment(c.as_str());
        }
        push_emit(fields, ef);
    }
    assert(doc_view(fields@) =~= f0 + format_fields(fields_view(project@)));
}

fn downloads_image_exec(project: &Vec<(String, YamlValue)>, fields: &mut Vec<EmitField>, warnings: &mut Vec<Diagnostic>)
    ensures
        doc_view(final(fields)@) == doc_view(old(fields)@) + downloads_fields(fields_view(project@)) + image_fields(fields_view(project@)),
        diags(final(warnings)@) == diags(old(warnings)@) + banner_warning(fields_view(project@)),
{
    let ghost d = fields_view(project@);
    let ghost f0 = doc_view(fields@);
    let ghost w0 = diags(warnings@);
    if let Some(dv) = get(project, "downloads") {
        if let Some(seq) = as_sequence(dv) {
            proof { lemma_items_view(seq@); }
            if seq.len() > 0 {
                push_emit(fields, EmitField::new("downloads", dv.copy()).with_comment("mystquarto: partial analogue only (reference §8.2)"));
            }
        }
    }
    let ghost f1 = doc_view(fields@);
    assert(f1 =~= f0 + downloads_fields(d));
    let banner = string_field(project, "banner");
    let thumbnail = string_field(project, "thumbnail");
    let both = banner.is_some() && thumbnail.is_some();
    match banner {
        Some(b) => push_plain(fields, "image", YamlValue::String(b)),
        None => {
            if let Some(t) = thumbnail {
                push_plain(fields, "image", YamlValue::String(t));
            }
        },
    }
    assert(doc_view(fields@) =~= f1 + image_fields(d));
    if both {
        push_warning(warnings, warn(Severity::Warning, codes::BANNER_AND_THUMBNAIL_BOTH_SET,
            "myst.yml has both banner and thumbnail; banner was used for _quarto.yml's image (reference §8.2)"));
    }
    assert(diags(warnings@) =~= w0 + banner_warning(d));
}

/// `numbering.equation.template`, when there is one.
fn eq_template_exec(project: &Vec<(String, YamlValue)>) -> (r: Option<String>)
    ensures
        opt_view(r) == eq_template(fields_view(project@)),
{
    let empty_map: Vec<(String, YamlValue)> = Vec::new();
    proof { lemma_fields_view(empty_map@); }
    let numbering = match mapping_field(project, "numbering") {
        Some(n) => n,
        None => &empty_map,
    };
    let equation = match mapping_field(numbering, "equation") {
        Some(e) => e,
        None => &empty_map,
    };
    string_field(equation, "template")
}

fn funding_crossref_exec(project: &Vec<(String, YamlValue)>, fields: &mut Vec<EmitField>)
    ensures
        doc_view(final(fields)@) == doc_view(old(fields)@) + funding_crossref_fields(fields_view(project@)),
{
    let ghost f0 = doc_view(fields@);
    if let Some(v) = get(project, "funding") {
        push_emit(fields, EmitField::new("funding", v.copy()).with_comment(
            "mystquarto: shapes differ between myst.yml and _quarto.yml; passed through as-is (reference §8.2)"));
    }
    if let Some(t) = eq_template_exec(project) {
        push_plain(fields, "crossref", one_field("eq-prefix", YamlValue::String(t)));
    }
    assert(doc_view(fields@) =~= f0 + funding_crossref_fields(fields_view(project@)));
}

/// A manuscript's `manuscript:` field and its leftover-toc warning.
fn manuscript_fields_exec(pt: ProjectType, project: &Vec<(String, YamlValue)>, fields: &mut Vec<EmitField>, warnings: &mut Vec<Diagnostic>)
    ensures
        doc_view(final(fields)@) == doc_view(old(fields)@) + manuscript_fields(pt, fields_view(project@)),
        diags(final(warnings)@) == diags(old(warnings)@) + leftover_warning(pt, fields_view(project@)),
{
    let ghost d = fields_view(project@);
    let ghost f0 = doc_view(fields@);
    let ghost w0 = diags(warnings@);
    if pt != ProjectType::Manuscript {
        assert(doc_view(fields@) =~= f0 + manuscript_fields(pt, d));
        assert(diags(warnings@) =~= w0 + leftover_warning(pt, d));
        return;
    }
    let empty_seq: Vec<YamlValue> = Vec::new();
    proof { lemma_items_view(empty_seq@); }
    let exports = match sequence_field(project, "exports") {
        Some(e) => e,
        None => &empty_seq,
    };
    let toc = match sequence_field(project, "toc") {
        Some(t) => t,
        None => &empty_seq,
    };
    let article_file = manuscript_article(exports);
    let (_, notebooks, leftover) = toc_pieces(toc, &article_file);
    let mut inner: Vec<(String, YamlValue)> = Vec::new();
    proof { lemma_fields_view(inner@); }
    if let Some(article) = &article_file {
        push_pair(&mut inner, "article", YamlValue::String(rewrite_content_extension_exec(article)));
    }
    proof { lemma_items_view(notebooks@); }
    if notebooks.len() > 0 {
        push_pair(&mut inner, "notebooks", YamlValue::Sequence(notebooks));
    }
    assert(fields_view(inner@) =~= manuscript_inner(d));
    proof { lemma_fields_view(inner@); }
    if inner.len() > 0 {
        push_plain(fields, "manuscript", YamlValue::Mapping(inner));
    }
    assert(doc_view(fields@) =~= f0 + manuscript_fields(pt, d));
    proof { lemma_items_view(leftover@); }
    if leftover.len() > 0 {
        push_warning(warnings, warn(Severity::LossyExpected, codes::MANUSCRIPT_TOC_ENTRY_PRESERVED,
            "myst.yml project.toc has entries beyond the manuscript's article and notebooks (e.g. an appendix or supplement); Quarto's manuscript project shape has no equivalent, so they were preserved rather than dropped (reference §8.1)"));
    }
    assert(diags(warnings@) =~= w0 + leftover_warning(pt, d));
}

// ---------------------------------------------------------------------------
// Preserved fields.
// ---------------------------------------------------------------------------

fn numbering_toc_exec(pt: ProjectType, project: &Vec<(String, YamlValue)>) -> (r: Vec<(String, YamlValue)>)
    ensures
        fields_view(r@) == preserved_numbering_toc(pt, fields_view(project@)),
{
    let ghost d = fields_view(project@);
    let mut p: Vec<(String, YamlValue)> = Vec::new();
    proof { lemma_fields_view(p@); }
    if eq_template_exec(project).is_none() {
        if let Some(v) = get(project, "numbering") {
            put_entry(&mut p, String::from_str("numbering"), v.copy());
        }
    }
    let ghost p1 = fields_view(p@);
    assert(p1 =~= match (eq_template(d), dict_get(d, "numbering"@)) {
        (None, Some(v)) => dict_put(Seq::empty(), "numbering"@, v),
        _ => Seq::<(Seq<char>, YamlView)>::empty(),
    });
    let empty_seq: Vec<YamlValue> = Vec::new();
    proof { lemma_items_view(empty_seq@); }
    match pt {
        ProjectType::Manuscript => {
            let exports = match sequence_field(project, "exports") {
                Some(e) => e,
                None => &empty_seq,
            };
            let toc = match sequence_field(project, "toc") {
                Some(t) => t,
                None => &empty_seq,
            };
            let article_file = manuscript_article(exports);
            let (_, _, leftover) = toc_pieces(toc, &article_file);
            proof { lemma_items_view(leftover@); }
            if leftover.len() > 0 {
                put_entry(&mut p, String::from_str("toc"), YamlValue::Sequence(leftover));
            }
        },
        ProjectType::Default => {
            if let Some(tv) = get(project, "toc") {
                if let Some(seq) = as_sequence(tv) {
                    proof { lemma_items_view(seq@); }
                    if seq.len() > 0 {
                        put_entry(&mut p, String::from_str("toc"), tv.copy());
                    }
                }
            }
        },
        ProjectType::Book => {},
    }
    p
}

fn put_present_exec(p: &mut Vec<(String, YamlValue)>, project: &Vec<(String, YamlValue)>, k: &str)
    ensures
        fields_view(final(p)@) == put_present(fields_view(old(p)@), fields_view(project@), k@),
{
    if let Some(v) = get(project, k) {
        put_entry(p, String::from_str(k), v.copy());
    }
}

fn unknown_exec(p: &mut Vec<(String, YamlValue)>, project: &Vec<(String, YamlValue)>)
    ensures
        fields_view(final(p)@) == put_unknown(fields_view(old(p)@), fields_view(project@)),
{
    let ghost d = fields_view(project@);
    let ghost p0 = fields_view(p@);
    proof { lemma_fields_view(project@); }
    let mut i: usize = 0;
    assert(d.subrange(0, 0) =~= Seq::<(Seq<char>, YamlView)>::empty());
    while i < project.len()
        invariant
            i <= project@.len(),
            d == fields_view(project@),
            d.len() == project@.len(),
            forall|k: int| 0 <= k < project@.len() ==> #[trigger] d[k] == (project@[k].0@, project@[k].1@),
            fields_view(p@) == put_unknown(p0, d.subrange(0, i as int)),
        decreases project.len() - i,
    {
        assert(d.subrange(0, i + 1).drop_last() =~= d.subrange(0, i as int));
        assert(d.subrange(0, i + 1).last() == d[i as int]);
        let key = &project[i].0;
        if !handled_project_key_exec(key) && get(p, key.as_str()).is_none() {
            put_entry(p, key.clone(), project[i].1.copy());
        }
        i = i + 1;
    }
    assert(d.subrange(0, i as int) =~= d);
}

fn site_exec(p: &mut Vec<(String, YamlValue)>, site: &Vec<(String, YamlValue)>)
    ensures
        fields_view(final(p)@) == put_site(fields_view(old(p)@), fields_view(site@)),
{
    let ghost d = fields_view(site@);
    let ghost p0 = fields_view(p@);
    proof { lemma_fields_view(site@); }
    let mut i: usize = 0;
    assert(d.subrange(0, 0) =~= Seq::<(Seq<char>, YamlView)>::empty());
    while i < site.len()
        invariant
            i <= site@.len(),
            d == fields_view(site@),
            d.len() == site@.len(),
            forall|k: int| 0 <= k < site@.len() ==> #[trigger] d[k] == (site@[k].0@, site@[k].1@),
            fields_view(p@) == put_site(p0, d.subrange(0, i as int)),
        decreases site.len() - i,
    {
        assert(d.subrange(0, i + 1).drop_last() =~= d.subrange(0, i as int));
        assert(d.subrange(0, i + 1).last() == d[i as int]);
        let key = &site[i].0;
        let value = &site[i].1;
        if str_eq(key.as_str(), "template") {
            let theme = match as_str(value) {
                Some(t) => str_eq(t.as_str(), "book-theme") || str_eq(t.as_str(), "article-theme"),
                None => false,
            };
            if !theme {
                put_entry(p, String::from_str("site.template"), value.copy());
            }
        } else {
            put_entry(p, cat3("site.", key.as_str(), ""), value.copy());
            assert(("site."@ + key@ + ""@) =~= "site."@ + key@) by {
                reveal_strlit("");
            }
        }
        i = i + 1;
    }
    assert(d.subrange(0, i as int) =~= d);
}

fn preserved_exec(pt: ProjectType, project: &Vec<(String, YamlValue)>, site: &Vec<(String, YamlValue)>) -> (r: Vec<(String, YamlValue)>)
    ensures
        fields_view(r@) == put_site(put_unknown(put_unmappable(preserved_numbering_toc(pt, fields_view(project@)), fields_view(project@)), fields_view(project@)), fields_view(site@)),
{
    let mut p = numbering_toc_exec(pt, project);
    put_present_exec(&mut p, project, "abbreviations");
    put_present_exec(&mut p, project, "open_access");
    put_present_exec(&mut p, project, "venue");
    put_present_exec(&mut p, project, "id");
    unknown_exec(&mut p, project);
    site_exec(&mut p, site);
    p
}

// ---------------------------------------------------------------------------
// What can be written.
// ---------------------------------------------------------------------------

pub proof fn lemma_dict_field_emittable_pub(d: DictView, k: Seq<char>)
    requires
        emittable(YamlView::Dict(d)),
    ensures
        emittable(YamlView::Dict(dict_field(d, k))),
        emittable(YamlView::List(list_field(d, k))),
{
    lemma_dict_field_emittable(d, k);
}

proof fn lemma_dict_field_emittable(d: DictView, k: Seq<char>)
    requires
        emittable(YamlView::Dict(d)),
    ensures
        emittable(YamlView::Dict(dict_field(d, k))),
        emittable(YamlView::List(list_field(d, k))),
{
    lemma_dict_get_emittable(d, k);
    lemma_empty_emittable();
}

proof fn lemma_put_emittable(d: DictView, k: Seq<char>, v: YamlView)
    requires
        values_emittable(d),
        emittable(v),
    ensures
        values_emittable(dict_put(d, k, v)),
{
    crate::yaml::lemma_put_pos(d, k);
    let i = crate::yaml::put_pos(d, k);
    let r = dict_put(d, k, v);
    assert forall|j: int| 0 <= j < r.len() implies #[trigger] emittable(r[j].1) by {
        if i < d.len() && d[i].0 == k {
            if j != i {
                assert(r[j] == d[j]);
            }
        } else {
            if j < i {
                assert(r[j] == d[j]);
            } else if j > i {
                assert(r[j] == d[j - 1]);
            }
        }
    }
}

proof fn lemma_author_items_ok(authors: Seq<YamlView>)
    requires
        all_items_ok(authors),
    ensures
        all_items_ok(author_items(authors)),
    decreases authors.len(),
{
    if authors.len() > 0 {
        let prev = authors.drop_last();
        assert forall|i: int| 0 <= i < prev.len() implies #[trigger] item_ok(prev[i]) by {
            assert(prev[i] == authors[i]);
        }
        lemma_author_items_ok(prev);
        let last = authors.last();
        assert(item_ok(authors[authors.len() - 1]));
        let piece = match last {
            YamlView::Dict(m) => seq![YamlView::Dict(m.map_values(|f: (Seq<char>, YamlView)| author_field(f)))],
            a => match view_str(a) {
                Some(s) => seq![name_entry(s)],
                None => Seq::<YamlView>::empty(),
            },
        };
        match last {
            YamlView::Dict(m) => {
                let m2 = m.map_values(|f: (Seq<char>, YamlView)| author_field(f));
                lemma_values_emittable(m);
                assert forall|j: int| 0 <= j < m2.len() implies #[trigger] emittable(m2[j].1) by {
                    assert(m2[j] == author_field(m[j]));
                    if m[j].0 == "affiliation"@ {
                        if let Some(s) = view_str(m[j].1) {
                            lemma_single_entry_emittable("name"@, YamlView::Str(s));
                            assert(all_items_ok(seq![name_entry(s)]));
                            lemma_all_items_ok(seq![name_entry(s)]);
                        }
                    }
                }
                lemma_values_emittable(m2);
                assert(item_ok(YamlView::Dict(m2)));
            },
            a => {
                if let Some(s) = view_str(a) {
                    lemma_single_entry_emittable("name"@, YamlView::Str(s));
                }
            },
        }
        let whole = author_items(authors);
        assert(whole == author_items(prev) + piece);
        assert forall|i: int| 0 <= i < whole.len() implies #[trigger] item_ok(whole[i]) by {
            if i < author_items(prev).len() {
                assert(whole[i] == author_items(prev)[i]);
            } else {
                assert(whole[i] == piece[i - author_items(prev).len()]);
            }
        }
    }
}

proof fn lemma_toc_items_ok(toc: Seq<YamlView>, article: Option<Seq<char>>)
    requires
        all_items_ok(toc),
    ensures
        all_items_ok(chapter_items(toc)),
        all_items_ok(notebook_items(toc)),
        all_items_ok(leftover_items(toc, article)),
    decreases toc.len(),
{
    if toc.len() > 0 {
        let prev = toc.drop_last();
        assert forall|i: int| 0 <= i < prev.len() implies #[trigger] item_ok(prev[i]) by {
            assert(prev[i] == toc[i]);
        }
        lemma_toc_items_ok(prev, article);
        assert(item_ok(toc[toc.len() - 1]));
        if let Some(f) = toc_entry_file(toc.last()) {
            lemma_single_entry_emittable("notebook"@, YamlView::Str(f));
        }
        let c = chapter_items(toc);
        let n = notebook_items(toc);
        let l = leftover_items(toc, article);
        assert forall|i: int| 0 <= i < c.len() implies #[trigger] item_ok(c[i]) by {
            if i < chapter_items(prev).len() {
                assert(c[i] == chapter_items(prev)[i]);
            }
        }
        assert forall|i: int| 0 <= i < n.len() implies #[trigger] item_ok(n[i]) by {
            if i < notebook_items(prev).len() {
                assert(n[i] == notebook_items(prev)[i]);
            }
        }
        assert forall|i: int| 0 <= i < l.len() implies #[trigger] item_ok(l[i]) by {
            if i < leftover_items(prev, article).len() {
                assert(l[i] == leftover_items(prev, article)[i]);
            }
        }
    }
}

proof fn lemma_doc_concat(a: Seq<FieldView>, b: Seq<FieldView>)
    requires
        doc_emittable(a),
        doc_emittable(b),
    ensures
        doc_emittable(a + b),
{
    assert forall|i: int| 0 <= i < (a + b).len() implies #[trigger] emittable((a + b)[i].1) by {
        if i < a.len() {
            assert((a + b)[i] == a[i]);
        } else {
            assert((a + b)[i] == b[i - a.len()]);
        }
    }
}

proof fn lemma_project_parts(root: DictView)
    requires
        emittable(YamlView::Dict(root)),
    ensures
        emittable(YamlView::Dict(dict_field(root, "project"@))),
        emittable(YamlView::Dict(dict_field(root, "site"@))),
        all_items_ok(list_field(dict_field(root, "project"@), "authors"@)),
        all_items_ok(list_field(dict_field(root, "project"@), "toc"@)),
        all_items_ok(list_field(dict_field(root, "project"@), "exports"@)),
{
    lemma_dict_field_emittable(root, "project"@);
    lemma_dict_field_emittable(root, "site"@);
    let project = dict_field(root, "project"@);
    lemma_dict_field_emittable(project, "authors"@);
    lemma_dict_field_emittable(project, "toc"@);
    lemma_dict_field_emittable(project, "exports"@);
    lemma_all_items_ok(list_field(project, "authors"@));
    lemma_all_items_ok(list_field(project, "toc"@));
    lemma_all_items_ok(list_field(project, "exports"@));
}

proof fn lemma_head_emittable(pt: ProjectType, project: DictView)
    requires
        emittable(YamlView::Dict(project)),
        all_items_ok(list_field(project, "authors"@)),
        all_items_ok(list_field(project, "toc"@)),
    ensures
        doc_emittable(head_part(pt, project)),
{
    lemma_single_entry_emittable("type"@, YamlView::Str("book"@));
    lemma_single_entry_emittable("type"@, YamlView::Str("manuscript"@));
    lemma_author_items_ok(list_field(project, "authors"@));
    lemma_all_items_ok(author_items(list_field(project, "authors"@)));
    lemma_toc_items_ok(list_field(project, "toc"@), None);
    lemma_all_items_ok(chapter_items(list_field(project, "toc"@)));
    let bi = book_inner(project);
    assert forall|i: int| 0 <= i < bi.len() implies #[trigger] emittable(bi[i].1) by {}
    lemma_values_emittable(bi);
    assert(doc_emittable(type_fields(pt)));
    assert(doc_emittable(title_fields(pt, project)));
    lemma_doc_concat(type_fields(pt), title_fields(pt, project));
}

proof fn lemma_body_emittable(project: DictView, bib: Option<Seq<char>>)
    requires
        emittable(YamlView::Dict(project)),
        all_items_ok(list_field(project, "exports"@)),
    ensures
        doc_emittable(middle_part(project, bib)),
{
    lemma_dict_get_emittable(project, "keywords"@);
    lemma_dict_get_emittable(project, "date"@);
    lemma_dict_get_emittable(project, "downloads"@);
    lemma_dict_get_emittable(project, "funding"@);
    if let Some(v) = str_field(project, "subject"@) {
        assert(all_items_ok(seq![YamlView::Str(v)]));
        lemma_all_items_ok(seq![YamlView::Str(v)]);
    }
    if let Some(t) = eq_template(project) {
        lemma_single_entry_emittable("eq-prefix"@, YamlView::Str(t));
    }
    let ex = list_field(project, "exports"@);
    crate::config::exports::lemma_exports_state_entries(ex);
    let entries = crate::config::exports::exports_state(ex).entries;
    lemma_empty_emittable();
    assert(values_emittable(entries));
    lemma_values_emittable(entries);
    let a = str_entry(project, "subtitle"@, "subtitle"@);
    let b = str_entry(project, "short_title"@, "short-title"@);
    let c = str_entry(project, "description"@, "description"@);
    let l = listed_fields(project);
    let e = str_entry(project, "license"@, "license"@);
    let f = str_entry(project, "doi"@, "doi"@);
    let g = str_entry(project, "github"@, "repo-url"@);
    assert(doc_emittable(a));
    assert(doc_emittable(b));
    assert(doc_emittable(c));
    assert(doc_emittable(l));
    assert(doc_emittable(e));
    assert(doc_emittable(f));
    assert(doc_emittable(g));
    lemma_doc_concat(a, b);
    lemma_doc_concat(a + b, c);
    lemma_doc_concat(a + b + c, l);
    lemma_doc_concat(a + b + c + l, e);
    lemma_doc_concat(a + b + c + l + e, f);
    lemma_doc_concat(a + b + c + l + e + f, g);
    let bf = bib_fields(project, bib);
    assert(doc_emittable(bf));
    let m1 = format_fields(project);
    let m2 = downloads_fields(project);
    let m3 = image_fields(project);
    let m4 = funding_crossref_fields(project);
    assert(doc_emittable(m1));
    assert(doc_emittable(m2));
    assert(doc_emittable(m3));
    assert(doc_emittable(m4));
    lemma_doc_concat(m1, m2);
    lemma_doc_concat(m1 + m2, m3);
    lemma_doc_concat(m1 + m2 + m3, m4);
    lemma_doc_concat(plain_fields(project), bf);
    lemma_doc_concat(plain_fields(project) + bf, more_fields(project));
}

proof fn lemma_manuscript_emittable(pt: ProjectType, project: DictView)
    requires
        all_items_ok(list_field(project, "toc"@)),
    ensures
        doc_emittable(manuscript_fields(pt, project)),
{
    lemma_toc_items_ok(list_field(project, "toc"@), None);
    lemma_all_items_ok(notebook_items(list_field(project, "toc"@)));
    let mi = manuscript_inner(project);
    assert forall|i: int| 0 <= i < mi.len() implies #[trigger] emittable(mi[i].1) by {}
    lemma_values_emittable(mi);
}

/// Every field [`convert`] writes can be written.
proof fn lemma_convert_emittable(root: DictView, bib: Option<Seq<char>>)
    requires
        emittable(YamlView::Dict(root)),
    ensures
        doc_emittable(convert_fields(root, bib)),
{
    lemma_project_parts(root);
    let project = dict_field(root, "project"@);
    let pt = spec_infer(root);
    lemma_head_emittable(pt, project);
    lemma_body_emittable(project, bib);
    lemma_manuscript_emittable(pt, project);
    let h = head_part(pt, project);
    let m = middle_part(project, bib);
    lemma_doc_concat(h, m);
    lemma_doc_concat(h + m, manuscript_fields(pt, project));
}

proof fn lemma_put_unknown_emittable(p: DictView, entries: DictView)
    requires
        values_emittable(p),
        values_emittable(entries),
    ensures
        values_emittable(put_unknown(p, entries)),
    decreases entries.len(),
{
    if entries.len() > 0 {
        let prev = entries.drop_last();
        assert forall|i: int| 0 <= i < prev.len() implies #[trigger] emittable(prev[i].1) by {
            assert(prev[i] == entries[i]);
        }
        lemma_put_unknown_emittable(p, prev);
        assert(emittable(entries[entries.len() - 1].1));
        let q = put_unknown(p, prev);
        lemma_put_emittable(q, entries.last().0, entries.last().1);
    }
}

proof fn lemma_put_site_emittable(p: DictView, entries: DictView)
    requires
        values_emittable(p),
        values_emittable(entries),
    ensures
        values_emittable(put_site(p, entries)),
    decreases entries.len(),
{
    if entries.len() > 0 {
        let prev = entries.drop_last();
        assert forall|i: int| 0 <= i < prev.len() implies #[trigger] emittable(prev[i].1) by {
            assert(prev[i] == entries[i]);
        }
        lemma_put_site_emittable(p, prev);
        assert(emittable(entries[entries.len() - 1].1));
        let q = put_site(p, prev);
        lemma_put_emittable(q, "site.template"@, entries.last().1);
        lemma_put_emittable(q, "site."@ + entries.last().0, entries.last().1);
    }
}

proof fn lemma_preserved_emittable(root: DictView)
    requires
        emittable(YamlView::Dict(root)),
    ensures
        values_emittable(convert_preserved(root)),
{
    lemma_project_parts(root);
    let project = dict_field(root, "project"@);
    let site = dict_field(root, "site"@);
    let pt = spec_infer(root);
    lemma_values_emittable(project);
    lemma_values_emittable(site);
    lemma_dict_get_emittable(project, "numbering"@);
    lemma_dict_get_emittable(project, "toc"@);
    lemma_dict_get_emittable(project, "abbreviations"@);
    lemma_dict_get_emittable(project, "open_access"@);
    lemma_dict_get_emittable(project, "venue"@);
    lemma_dict_get_emittable(project, "id"@);
    let e = Seq::<(Seq<char>, YamlView)>::empty();
    assert(values_emittable(e));
    let p1 = match (eq_template(project), dict_get(project, "numbering"@)) {
        (None, Some(v)) => dict_put(e, "numbering"@, v),
        _ => e,
    };
    if let (None, Some(v)) = (eq_template(project), dict_get(project, "numbering"@)) {
        lemma_put_emittable(e, "numbering"@, v);
    }
    assert(values_emittable(p1));
    let lo = leftover_items(list_field(project, "toc"@), first_article(list_field(project, "exports"@)));
    lemma_toc_items_ok(list_field(project, "toc"@), first_article(list_field(project, "exports"@)));
    lemma_all_items_ok(lo);
    lemma_put_emittable(p1, "toc"@, YamlView::List(lo));
    if let Some(v) = dict_get(project, "toc"@) {
        lemma_put_emittable(p1, "toc"@, v);
    }
    let p2 = preserved_numbering_toc(pt, project);
    assert(values_emittable(p2));
    let a1 = put_present(p2, project, "abbreviations"@);
    if let Some(v) = dict_get(project, "abbreviations"@) { lemma_put_emittable(p2, "abbreviations"@, v); }
    let a2 = put_present(a1, project, "open_access"@);
    if let Some(v) = dict_get(project, "open_access"@) { lemma_put_emittable(a1, "open_access"@, v); }
    let a3 = put_present(a2, project, "venue"@);
    if let Some(v) = dict_get(project, "venue"@) { lemma_put_emittable(a2, "venue"@, v); }
    if let Some(v) = dict_get(project, "id"@) { lemma_put_emittable(a3, "id"@, v); }
    let p3 = put_unmappable(p2, project);
    assert(values_emittable(p3));
    lemma_put_unknown_emittable(p3, project);
    lemma_put_site_emittable(put_unknown(p3, project), site);
}

// ---------------------------------------------------------------------------
// The conversion.
// ---------------------------------------------------------------------------

fn push_preserved_text(out: &mut Vec<char>, preserved: &Vec<(String, YamlValue)>)
    requires
        values_emittable(fields_view(preserved@)),
    ensures
        final(out)@ == old(out)@ + preserved_text(fields_view(preserved@)),
{
    let ghost pv = fields_view(preserved@);
    proof { lemma_fields_view(preserved@); }
    let ghost start = out@;
    let mut i: usize = 0;
    assert(pv.subrange(0, 0) =~= Seq::<(Seq<char>, YamlView)>::empty());
    while i < preserved.len()
        invariant
            i <= preserved@.len(),
            pv == fields_view(preserved@),
            pv.len() == preserved@.len(),
            forall|k: int| 0 <= k < preserved@.len() ==> #[trigger] pv[k] == (preserved@[k].0@, preserved@[k].1@),
            values_emittable(pv),
            out@ == start + preserved_text(pv.subrange(0, i as int)),
        decreases preserved.len() - i,
    {
        assert(pv.subrange(0, i + 1).drop_last() =~= pv.subrange(0, i as int));
        assert(pv.subrange(0, i + 1).last() == pv[i as int]);
        assert(emittable(pv[i as int].1));
        let rendered = render_field(preserved[i].0.as_str(), &preserved[i].1);
        let lines = split_lines(rendered.as_str());
        let ghost before = out@;
        let mut k: usize = 0;
        while k < lines.len()
            invariant
                k <= lines@.len(),
                out@ == before + comment_text(strs(lines@).subrange(0, k as int)),
            decreases lines.len() - k,
        {
            assert(strs(lines@).subrange(0, k + 1).drop_last() =~= strs(lines@).subrange(0, k as int));
            push_all(out, &chars_of("# "));
            push_all(out, &chars_of(lines[k].as_str()));
            out.push('\n');
            assert(out@ =~= before + comment_text(strs(lines@).subrange(0, k + 1)));
            k = k + 1;
        }
        assert(strs(lines@).subrange(0, k as int) =~= strs(lines@));
        assert(out@ =~= start + preserved_text(pv.subrange(0, i + 1)));
        i = i + 1;
    }
    assert(pv.subrange(0, i as int) =~= pv);
}

/// The emitted fields and the warnings.
#[verifier::rlimit(40)]
#[verifier::spinoff_prover]
fn fields_and_warnings(ptype: ProjectType, project: &Vec<(String, YamlValue)>, bib: Option<&str>) -> (r: (Vec<EmitField>, Vec<Diagnostic>))
    ensures
        doc_view(r.0@) == head_part(ptype, fields_view(project@)) + middle_part(fields_view(project@), opt_str_view(bib))
            + manuscript_fields(ptype, fields_view(project@)),
        diags(r.1@) == bib_warning(fields_view(project@), opt_str_view(bib))
            + spec_exports_to_format(list_field(fields_view(project@), "exports"@)).1 + banner_warning(fields_view(project@))
            + leftover_warning(ptype, fields_view(project@)),
{
    let ghost pd = fields_view(project@);
    let ghost bv = opt_str_view(bib);
    let mut warnings: Vec<Diagnostic> = Vec::new();
    let mut fields: Vec<EmitField> = Vec::new();
    assert(doc_view(fields@) =~= Seq::<FieldView>::empty());
    assert(diags(warnings@) =~= Seq::<DiagView>::empty());
    head_fields(ptype, project, &mut fields);
    let ghost h = doc_view(fields@);
    plain_fields_exec(project, &mut fields);
    let ghost f1 = doc_view(fields@);
    bib_fields_exec(project, bib, &mut fields, &mut warnings);
    let ghost f2 = doc_view(fields@);
    format_fields_exec(project, &mut fields, &mut warnings);
    downloads_image_exec(project, &mut fields, &mut warnings);
    funding_crossref_exec(project, &mut fields);
    let ghost hm = doc_view(fields@);
    assert(hm =~= f2 + more_fields(pd));
    assert(hm =~= h + middle_part(pd, bv));
    manuscript_fields_exec(ptype, project, &mut fields, &mut warnings);
    (fields, warnings)
}

/// Converts a parsed `myst.yml` (its top-level mapping) to `_quarto.yml`.
/// `bib_path_for_synthesis` is the `.bib` file of the conversion set to
/// name as `bibliography` when `myst.yml` sets none.
pub fn convert_root(root: &Vec<(String, YamlValue)>, bib_path_for_synthesis: Option<&str>) -> (r: ConversionResult)
    requires
        emittable(YamlView::Dict(fields_view(root@))),
    ensures
        r.project_type == spec_infer(fields_view(root@)),
        r.text@ == convert_text(fields_view(root@), opt_str_view(bib_path_for_synthesis)),
        diags(r.warnings@) == convert_warnings(fields_view(root@), opt_str_view(bib_path_for_synthesis)),
        fields_view(r.preserved_fields@) == convert_preserved(fields_view(root@)),
{
    let ghost d = fields_view(root@);
    let ghost bib = opt_str_view(bib_path_for_synthesis);
    let empty_map: Vec<(String, YamlValue)> = Vec::new();
    proof { lemma_fields_view(empty_map@); }
    let project = match mapping_field(root, "project") {
        Some(p) => p,
        None => &empty_map,
    };
    let site = match mapping_field(root, "site") {
        Some(s) => s,
        None => &empty_map,
    };
    let ptype = infer(root);
    let (fields, warnings) = fields_and_warnings(ptype, project, bib_path_for_synthesis);
    assert(doc_view(fields@) == convert_fields(d, bib));
    assert(diags(warnings@) == convert_warnings(d, bib));
    let preserved = preserved_exec(ptype, project, site);
    proof {
        lemma_convert_emittable(d, bib);
        lemma_preserved_emittable(d);
    }
    let doc = YamlDoc(fields);
    let text = emit(&doc);
    let mut out = chars_of(text.as_str());
    proof { lemma_fields_view(preserved@); }
    if preserved.len() > 0 {
        push_all(&mut out, &chars_of("# mystquarto: no Quarto equivalent for these myst.yml fields\n"));
        push_preserved_text(&mut out, &preserved);
    }
    assert(out@ =~= convert_text(d, bib));
    ConversionResult { text: string_of(&out), project_type: ptype, warnings, preserved_fields: preserved }
}

// ---------------------------------------------------------------------------
// Nothing is dropped.
// ---------------------------------------------------------------------------

proof fn lemma_has_iff(d: DictView, k: Seq<char>)
    ensures
        dict_has(d, k) <==> exists|i: int| 0 <= i < d.len() && #[trigger] d[i].0 == k,
{
    lemma_dict_index(d, k);
    if exists|i: int| 0 <= i < d.len() && #[trigger] d[i].0 == k {
        let i = choose|i: int| 0 <= i < d.len() && #[trigger] d[i].0 == k;
        if crate::yaml::dict_index(d, k) >= d.len() {
            assert(d[i].0 != k);
        }
    }
}

proof fn lemma_put_has(d: DictView, k: Seq<char>, v: YamlView, k2: Seq<char>)
    requires
        k2 == k || dict_has(d, k2),
    ensures
        dict_has(dict_put(d, k, v), k2),
{
    crate::yaml::lemma_put_pos(d, k);
    let i = crate::yaml::put_pos(d, k);
    let r = dict_put(d, k, v);
    lemma_has_iff(d, k2);
    lemma_has_iff(r, k2);
    if k2 == k {
        assert(r[i].0 == k);
    } else {
        let j = choose|j: int| 0 <= j < d.len() && #[trigger] d[j].0 == k2;
        if i < d.len() && d[i].0 == k {
            assert(j != i);
            assert(r[j].0 == k2);
        } else if j < i {
            assert(r[j].0 == k2);
        } else {
            assert(r[j + 1] == d[j]);
            assert(r[j + 1].0 == k2);
        }
    }
}

proof fn lemma_put_unknown_has(p: DictView, entries: DictView, k: Seq<char>)
    ensures
        dict_has(p, k) ==> dict_has(put_unknown(p, entries), k),
        (exists|i: int| 0 <= i < entries.len() && #[trigger] entries[i].0 == k) && !handled_project_key(k)
            ==> dict_has(put_unknown(p, entries), k),
    decreases entries.len(),
{
    if entries.len() > 0 {
        let prev = entries.drop_last();
        lemma_put_unknown_has(p, prev, k);
        let q = put_unknown(p, prev);
        let (k1, v1) = entries.last();
        if !handled_project_key(k1) && !dict_has(q, k1) {
            if dict_has(q, k) || k == k1 {
                lemma_put_has(q, k1, v1, k);
            }
        }
        if (exists|i: int| 0 <= i < entries.len() && #[trigger] entries[i].0 == k) && !handled_project_key(k) {
            let i = choose|i: int| 0 <= i < entries.len() && #[trigger] entries[i].0 == k;
            if i < prev.len() {
                assert(prev[i].0 == k);
            } else {
                assert(k == k1);
            }
        }
    }
}

proof fn lemma_put_site_has(p: DictView, entries: DictView, k: Seq<char>)
    ensures
        dict_has(p, k) ==> dict_has(put_site(p, entries), k),
    decreases entries.len(),
{
    if entries.len() > 0 {
        let prev = entries.drop_last();
        lemma_put_site_has(p, prev, k);
        let q = put_site(p, prev);
        let (k1, v1) = entries.last();
        if dict_has(q, k) {
            lemma_put_has(q, "site.template"@, v1, k);
            lemma_put_has(q, "site."@ + k1, v1, k);
        }
    }
}

proof fn lemma_put_site_keys(p: DictView, entries: DictView, i: int)
    requires
        0 <= i < entries.len(),
    ensures
        entries[i].0 == "template"@ ==> (view_str(entries[i].1) == Some("book-theme"@) || view_str(entries[i].1) == Some("article-theme"@)
            || dict_has(put_site(p, entries), "site.template"@)),
        entries[i].0 != "template"@ ==> dict_has(put_site(p, entries), "site."@ + entries[i].0),
    decreases entries.len(),
{
    let prev = entries.drop_last();
    let q = put_site(p, prev);
    let (k1, v1) = entries.last();
    if i < prev.len() {
        lemma_put_site_keys(p, prev, i);
        assert(prev[i] == entries[i]);
        let k_t = "site.template"@;
        let k_s = "site."@ + entries[i].0;
        if dict_has(q, k_t) {
            lemma_put_has(q, "site.template"@, v1, k_t);
            lemma_put_has(q, "site."@ + k1, v1, k_t);
        }
        if dict_has(q, k_s) {
            lemma_put_has(q, "site.template"@, v1, k_s);
            lemma_put_has(q, "site."@ + k1, v1, k_s);
        }
    } else {
        lemma_put_has(q, "site.template"@, v1, "site.template"@);
        lemma_put_has(q, "site."@ + k1, v1, "site."@ + k1);
    }
}

/// No `myst.yml` field goes missing: every `project` key is either read by
/// name or kept among the preserved fields, and every `site` key is kept as
/// `site.<key>` — except a `template` naming the book or article theme,
/// which shows as the project type.
pub proof fn lemma_no_field_dropped(root: DictView)
    ensures
        forall|i: int| 0 <= i < dict_field(root, "project"@).len() ==> handled_project_key(#[trigger] dict_field(root, "project"@)[i].0)
            || dict_has(convert_preserved(root), dict_field(root, "project"@)[i].0),
        forall|i: int| 0 <= i < dict_field(root, "site"@).len() && #[trigger] dict_field(root, "site"@)[i].0 != "template"@
            ==> dict_has(convert_preserved(root), "site."@ + dict_field(root, "site"@)[i].0),
        forall|i: int| 0 <= i < dict_field(root, "site"@).len() && #[trigger] dict_field(root, "site"@)[i].0 == "template"@
            ==> (view_str(dict_field(root, "site"@)[i].1) == Some("book-theme"@)
                || view_str(dict_field(root, "site"@)[i].1) == Some("article-theme"@)
                || dict_has(convert_preserved(root), "site.template"@)),
{
    let project = dict_field(root, "project"@);
    let site = dict_field(root, "site"@);
    let pt = spec_infer(root);
    let p3 = put_unmappable(preserved_numbering_toc(pt, project), project);
    let p4 = put_unknown(p3, project);
    assert forall|i: int| 0 <= i < project.len() implies handled_project_key(#[trigger] project[i].0)
        || dict_has(convert_preserved(root), project[i].0) by {
        lemma_put_unknown_has(p3, project, project[i].0);
        lemma_put_site_has(p4, site, project[i].0);
    }
    assert forall|i: int| 0 <= i < site.len() && #[trigger] site[i].0 != "template"@
        implies dict_has(convert_preserved(root), "site."@ + site[i].0) by {
        lemma_put_site_keys(p4, site, i);
    }
    assert forall|i: int| 0 <= i < site.len() && #[trigger] site[i].0 == "template"@
        implies (view_str(site[i].1) == Some("book-theme"@) || view_str(site[i].1) == Some("article-theme"@)
            || dict_has(convert_preserved(root), "site.template"@)) by {
        lemma_put_site_keys(p4, site, i);
    }
}

/// Converts `myst.yml` text to `_quarto.yml`: its top-level mapping is read
/// with `parse_mapping` (an error when it is not a YAML mapping), then
/// converted as [`convert_root`] does.
pub fn convert(myst_text: &str, bib_path_for_synthesis: Option<&str>) -> (r: Result<ConversionResult, crate::yaml::YamlReadError>)
    requires
        crate::yaml::yaml_mapping(myst_text@) matches Some(d) ==> emittable(YamlView::Dict(d)),
    ensures
        match crate::yaml::yaml_mapping(myst_text@) {
            None => r is Err,
            Some(d) => r matches Ok(c) && {
                &&& c.project_type == spec_infer(d)
                &&& c.text@ == convert_text(d, opt_str_view(bib_path_for_synthesis))
                &&& diags(c.warnings@) == convert_warnings(d, opt_str_view(bib_path_for_synthesis))
                &&& fields_view(c.preserved_fields@) == convert_preserved(d)
            },
        },
{
    let root = crate::yaml::parse_mapping(myst_text)?;
    Ok(convert_root(&root, bib_path_for_synthesis))
}

/// [`convert`] where the emitter can write the mapping; `None` for a
/// mapping that holds an empty list or mapping as a list item, which has no
/// block form.
pub fn convert_checked(myst_text: &str, bib_path_for_synthesis: Option<&str>) -> (r: Option<Result<ConversionResult, crate::yaml::YamlReadError>>)
    ensures
        match crate::yaml::yaml_mapping(myst_text@) {
            None => r matches Some(x) && x is Err,
            Some(d) => if emittable(YamlView::Dict(d)) {
                r matches Some(Ok(c)) && {
                    &&& c.project_type == spec_infer(d)
                    &&& c.text@ == convert_text(d, opt_str_view(bib_path_for_synthesis))
                    &&& diags(c.warnings@) == convert_warnings(d, opt_str_view(bib_path_for_synthesis))
                    &&& fields_view(c.preserved_fields@) == convert_preserved(d)
                }
            } else {
                r is None
            },
        },
{
    match crate::yaml::parse_mapping(myst_text) {
        Err(e) => Some(Err(e)),
        Ok(root) => {
            let whole = YamlValue::Mapping(root);
            if !crate::yaml::emit::is_emittable(&whole) {
                None
            } else {
                Some(convert(myst_text, bib_path_for_synthesis))
            }
        },
    }
}

} // verus!
