//! Document → MyST writer. Emits modern MyST only: no legacy role reaches
//! the output. Labels pass through unchanged unless the label sidecar
//! restores an original spelling.
use vstd::prelude::*;
use crate::diagnostics::{codes, Diagnostic, Severity};
use crate::ir::{AdmonitionKind, Block, BlockKind, CellOptions, Document, EmbedTarget, FigureSource, TabItem};
use crate::label::Label;
use crate::preserve::Dialect;
use crate::reader::fence::strs;
use crate::reader::inline::{EventView, InlineEvent};
use crate::text::{char_len, chars_of, contains_chars, has_at, has_at_exec, push_all, slice_chars, str_eq, string_of, trim_chars};
use crate::strmap::EntriesView;
use crate::writer::quarto::hashes;
use crate::writer::{
    cat2, cat3, cat4, extend_lines, file_stem_of, join_lines, preserved_kind, push_line, push_spacing,
    opt_seq, render_body_lines, render_preserved, resolve_myst_label, rewrite_text, rewrite_with, rewritten, spec_myst_label, PreservedDisposition,
    PreservedEntries, RestoreMap,
};

verus! {

/// The directive name of an admonition kind.
pub open spec fn spec_admonition_name(kind: AdmonitionKind) -> Seq<char> {
    match kind {
        AdmonitionKind::Note => "note"@,
        AdmonitionKind::Warning => "warning"@,
        AdmonitionKind::Tip => "tip"@,
        AdmonitionKind::Important => "important"@,
        AdmonitionKind::Caution => "caution"@,
        AdmonitionKind::Danger => "danger"@,
        AdmonitionKind::Error => "error"@,
        AdmonitionKind::Hint => "hint"@,
        AdmonitionKind::SeeAlso => "seealso"@,
        AdmonitionKind::Attention => "attention"@,
    }
}

/// Law: the MyST reader reads the directive name the MyST writer gives an
/// admonition kind back as that same kind, so no two kinds share a name.
pub proof fn lemma_admonition_name_read_back(kind: AdmonitionKind)
    ensures
        crate::reader::parts::spec_admonition_kind(spec_admonition_name(kind)) == Some(kind),
{
    reveal_strlit("note");
    reveal_strlit("warning");
    reveal_strlit("tip");
    reveal_strlit("important");
    reveal_strlit("caution");
    reveal_strlit("danger");
    reveal_strlit("error");
    reveal_strlit("hint");
    reveal_strlit("seealso");
    reveal_strlit("attention");
    assert("note"@.len() == 4 && "note"@[0] == 'n' && "note"@[1] == 'o' && "note"@[2] == 't');
    assert("warning"@.len() == 7 && "warning"@[0] == 'w' && "warning"@[1] == 'a' && "warning"@[2] == 'r');
    assert("tip"@.len() == 3 && "tip"@[0] == 't' && "tip"@[1] == 'i' && "tip"@[2] == 'p');
    assert("important"@.len() == 9 && "important"@[0] == 'i' && "important"@[1] == 'm' && "important"@[2] == 'p');
    assert("caution"@.len() == 7 && "caution"@[0] == 'c' && "caution"@[1] == 'a' && "caution"@[2] == 'u');
    assert("danger"@.len() == 6 && "danger"@[0] == 'd' && "danger"@[1] == 'a' && "danger"@[2] == 'n');
    assert("error"@.len() == 5 && "error"@[0] == 'e' && "error"@[1] == 'r' && "error"@[2] == 'r');
    assert("hint"@.len() == 4 && "hint"@[0] == 'h' && "hint"@[1] == 'i' && "hint"@[2] == 'n');
    assert("seealso"@.len() == 7 && "seealso"@[0] == 's' && "seealso"@[1] == 'e' && "seealso"@[2] == 'e');
    assert("attention"@.len() == 9 && "attention"@[0] == 'a' && "attention"@[1] == 't' && "attention"@[2] == 't');
}

/// Law: a directive written under an admonition kind's name reads back, in
/// any reader context, as an admonition of that same kind.
pub proof fn lemma_admonition_directive_read_back(
    kind: AdmonitionKind,
    ctx: crate::reader::ReaderContext,
    frame: crate::reader::fence::DirectiveFrame,
    k: BlockKind,
)
    requires
        crate::reader::myst::directive_shape(ctx, spec_admonition_name(kind), frame, k),
    ensures
        k matches BlockKind::Admonition { kind: read, .. } && read == kind,
{
    lemma_admonition_name_read_back(kind);
    reveal_strlit("note");
    reveal_strlit("warning");
    reveal_strlit("tip");
    reveal_strlit("important");
    reveal_strlit("caution");
    reveal_strlit("danger");
    reveal_strlit("error");
    reveal_strlit("hint");
    reveal_strlit("seealso");
    reveal_strlit("attention");
    reveal_strlit("code-cell");
    reveal_strlit("code");
    reveal_strlit("mermaid");
    reveal_strlit("figure");
    reveal_strlit("image");
    reveal_strlit("table");
    reveal_strlit("math");
    reveal_strlit("include");
    reveal_strlit("embed");
    reveal_strlit("raw");
    reveal_strlit("tab-set");
    reveal_strlit("margin");
    reveal_strlit("aside");
    reveal_strlit("admonition");
    reveal_strlit("prf:");
    assert("note"@.len() == 4 && "note"@[0] == 'n' && "note"@[1] == 'o' && "note"@[2] == 't');
    assert("warning"@.len() == 7 && "warning"@[0] == 'w' && "warning"@[1] == 'a' && "warning"@[2] == 'r');
    assert("tip"@.len() == 3 && "tip"@[0] == 't' && "tip"@[1] == 'i' && "tip"@[2] == 'p');
    assert("important"@.len() == 9 && "important"@[0] == 'i' && "important"@[1] == 'm' && "important"@[2] == 'p');
    assert("caution"@.len() == 7 && "caution"@[0] == 'c' && "caution"@[1] == 'a' && "caution"@[2] == 'u');
    assert("danger"@.len() == 6 && "danger"@[0] == 'd' && "danger"@[1] == 'a' && "danger"@[2] == 'n');
    assert("error"@.len() == 5 && "error"@[0] == 'e' && "error"@[1] == 'r' && "error"@[2] == 'r');
    assert("hint"@.len() == 4 && "hint"@[0] == 'h' && "hint"@[1] == 'i' && "hint"@[2] == 'n');
    assert("seealso"@.len() == 7 && "seealso"@[0] == 's' && "seealso"@[1] == 'e' && "seealso"@[2] == 'e');
    assert("attention"@.len() == 9 && "attention"@[0] == 'a' && "attention"@[1] == 't' && "attention"@[2] == 't');
    assert("code-cell"@.len() == 9 && "code-cell"@[0] == 'c' && "code-cell"@[1] == 'o' && "code-cell"@[2] == 'd');
    assert("code"@.len() == 4 && "code"@[0] == 'c' && "code"@[1] == 'o' && "code"@[2] == 'd');
    assert("mermaid"@.len() == 7 && "mermaid"@[0] == 'm' && "mermaid"@[1] == 'e' && "mermaid"@[2] == 'r');
    assert("figure"@.len() == 6 && "figure"@[0] == 'f' && "figure"@[1] == 'i' && "figure"@[2] == 'g');
    assert("image"@.len() == 5 && "image"@[0] == 'i' && "image"@[1] == 'm' && "image"@[2] == 'a');
    assert("table"@.len() == 5 && "table"@[0] == 't' && "table"@[1] == 'a' && "table"@[2] == 'b');
    assert("math"@.len() == 4 && "math"@[0] == 'm' && "math"@[1] == 'a' && "math"@[2] == 't');
    assert("include"@.len() == 7 && "include"@[0] == 'i' && "include"@[1] == 'n' && "include"@[2] == 'c');
    assert("embed"@.len() == 5 && "embed"@[0] == 'e' && "embed"@[1] == 'm' && "embed"@[2] == 'b');
    assert("raw"@.len() == 3 && "raw"@[0] == 'r' && "raw"@[1] == 'a' && "raw"@[2] == 'w');
    assert("tab-set"@.len() == 7 && "tab-set"@[0] == 't' && "tab-set"@[1] == 'a' && "tab-set"@[2] == 'b');
    assert("margin"@.len() == 6 && "margin"@[0] == 'm' && "margin"@[1] == 'a' && "margin"@[2] == 'r');
    assert("aside"@.len() == 5 && "aside"@[0] == 'a' && "aside"@[1] == 's' && "aside"@[2] == 'i');
    assert("admonition"@.len() == 10 && "admonition"@[0] == 'a' && "admonition"@[1] == 'd' && "admonition"@[2] == 'm');
}

/// The directive name of an admonition kind.
pub fn admonition_name(kind: AdmonitionKind) -> (r: &'static str)
    ensures
        r@ == spec_admonition_name(kind),
{
    match kind {
        AdmonitionKind::Note => "note",
        AdmonitionKind::Warning => "warning",
        AdmonitionKind::Tip => "tip",
        AdmonitionKind::Important => "important",
        AdmonitionKind::Caution => "caution",
        AdmonitionKind::Danger => "danger",
        AdmonitionKind::Error => "error",
        AdmonitionKind::Hint => "hint",
        AdmonitionKind::SeeAlso => "seealso",
        AdmonitionKind::Attention => "attention",
    }
}

/// `name.md` in the include target's directory, `name` being its file stem
/// without a leading `_`.
pub fn myst_include_target(target: &str) -> (r: String)
    ensures
        r@ == crate::writer::beside(target@, crate::writer::include_stem(target@) + ".md"@),
{
    let stem = crate::writer::include_stem_exec(target);
    let name = cat2(stem.as_str(), ".md");
    crate::writer::beside_exec(target, name)
}

/// A static code block: `{mermaid}` for mermaid, else the language.
fn static_code(lang: &Option<String>, body: &Vec<String>) -> (r: Vec<String>)
    ensures
        match lang {
            Some(l) => if l@ == "mermaid"@ {
                strs(r@) == seq!["```{mermaid}"@] + strs(body@) + seq!["```"@]
            } else {
                strs(r@) == seq!["```"@ + l@] + strs(body@) + seq!["```"@]
            },
            None => strs(r@) == seq!["```"@] + strs(body@) + seq!["```"@],
        },
{
    let mut out: Vec<String> = Vec::new();
    let first = match lang {
        Some(l) => if str_eq(l.as_str(), "mermaid") { String::from_str("```{mermaid}") } else { cat2("```", l.as_str()) },
        None => String::from_str("```"),
    };
    push_line(&mut out, first);
    extend_lines(&mut out, body.as_slice());
    push_line(&mut out, String::from_str("```"));
    out
}

/// A raw block: `` ```{raw} format ``.
fn raw(format: &str, body: &Vec<String>) -> (r: Vec<String>)
    ensures
        strs(r@) == seq!["```{raw} "@ + format@] + strs(body@) + seq!["```"@],
{
    let mut out: Vec<String> = Vec::new();
    push_line(&mut out, cat2("```{raw} ", format));
    extend_lines(&mut out, body.as_slice());
    push_line(&mut out, String::from_str("```"));
    out
}

/// `s` without `suffix` at its end, when it ends with it.
pub open spec fn strip_suffix(s: Seq<char>, suffix: Seq<char>) -> Seq<char> {
    if s.len() >= suffix.len() && has_at(s, s.len() - suffix.len(), suffix) {
        s.subrange(0, s.len() - suffix.len())
    } else {
        s
    }
}

/// The modern MyST form of a legacy `{role}`target`` form, or `None` for a
/// role MyST keeps as written.
pub open spec fn spec_role_to_myst(role: Seq<char>, target: Seq<char>) -> Option<Seq<char>> {
    if role == "cite"@ || role == "cite:p"@ {
        Some("[@"@ + target + "]"@)
    } else if role == "cite:t"@ || role == "numref"@ || role == "ref"@ {
        Some("@"@ + target)
    } else if role == "eq"@ {
        if has_at(target, 0, "eq-"@) || has_at(target, 0, "eq:"@) {
            Some("@"@ + target)
        } else {
            Some("@"@ + "eq-"@ + target)
        }
    } else if role == "doc"@ {
        Some("["@ + target + "]("@ + strip_suffix(target, ".qmd"@) + ".md)"@)
    } else {
        None
    }
}

/// Renders a `{role}`target`` form to modern MyST; `None` leaves a modern
/// role as written.
pub fn render_role_to_myst(role: &str, target: &str) -> (r: Option<String>)
    ensures
        match r {
            Some(s) => spec_role_to_myst(role@, target@) == Some(s@),
            None => spec_role_to_myst(role@, target@) is None,
        },
{
    if str_eq(role, "cite") || str_eq(role, "cite:p") {
        Some(cat3("[@", target, "]"))
    } else if str_eq(role, "cite:t") || str_eq(role, "numref") || str_eq(role, "ref") {
        Some(cat2("@", target))
    } else if str_eq(role, "eq") {
        let tv = chars_of(target);
        if has_at_exec(&tv, 0, &chars_of("eq-")) || has_at_exec(&tv, 0, &chars_of("eq:")) {
            Some(cat2("@", target))
        } else {
            Some(cat3("@", "eq-", target))
        }
    } else if str_eq(role, "doc") {
        let tv = chars_of(target);
        let suffix = chars_of(".qmd");
        let stem = if tv.len() >= suffix.len() && has_at_exec(&tv, tv.len() - suffix.len(), &suffix) {
            string_of(&slice_chars(&tv, 0, tv.len() - suffix.len()))
        } else {
            String::from_str(target)
        };
        assert(stem@ =~= strip_suffix(target@, ".qmd"@));
        Some(cat5_str("[", target, "](", stem.as_str(), ".md)"))
    } else {
        None
    }
}

fn cat5_str(a: &str, b: &str, c: &str, d: &str, e: &str) -> (r: String)
    ensures
        r@ == a@ + b@ + c@ + d@ + e@,
{
    crate::writer::cat5(a, b, c, d, e)
}

/// The restored original of a reference id: the label of the first
/// restore entry whose id is `key`, else `key` itself.
pub open spec fn restored_ref(restore: Seq<((String, String), Label)>, key: Seq<char>) -> Seq<char>
    decreases restore.len(),
{
    if restore.len() == 0 {
        key
    } else if restore[0].0.1@ == key {
        restore[0].1.raw@
    } else {
        restored_ref(restore.drop_first(), key)
    }
}

/// The MyST form of one inline construct (`None` keeps it as written): a
/// cross-reference whose id restores to another label is written `@label`.
pub open spec fn spec_myst_event(restore: Seq<((String, String), Label)>, ev: EventView) -> Option<Seq<char>> {
    match ev {
        EventView::Citation(_) => None,
        EventView::CrossReference(key) => if restored_ref(restore, key) == key {
            None
        } else {
            Some("@"@ + restored_ref(restore, key))
        },
        EventView::LegacyRole(role, target) => spec_role_to_myst(role, target),
        EventView::JupyterEval(_, expr) => Some("{eval}`"@ + expr + "`"@),
        EventView::KnitrEval(expr) => Some("{eval}`"@ + expr + "`"@),
    }
}

/// Items joined with `, `.
pub open spec fn comma_list(v: Seq<Seq<char>>) -> Seq<char>
    decreases v.len(),
{
    if v.len() == 0 {
        Seq::empty()
    } else if v.len() == 1 {
        v[0]
    } else {
        comma_list(v.drop_last()) + ", "@ + v.last()
    }
}

/// Whether an unmappable construct's reason is a refused include path.
pub open spec fn path_safety(reason: Seq<char>) -> bool {
    crate::text::contains_at_any(reason, "escapes"@) || crate::text::contains_at_any(reason, "cycle"@)
        || crate::text::contains_at_any(reason, "depth"@) || crate::text::contains_at_any(reason, "absolute path"@)
}

/// The argument of a figure directive: the image path, or `#label` for a
/// notebook cell's output.
pub open spec fn figure_arg(src: FigureSource) -> Seq<char> {
    match src {
        FigureSource::Path(p) => p@,
        FigureSource::CellRef { label, .. } => "#"@ + label.raw@,
    }
}

/// Whether a figure attribute is left out of the directive's options: its
/// `id` (the label carries it), and an `alt` text equal, up to surrounding
/// whitespace, to the caption's first line.
pub open spec fn skipped_option(e: (Seq<char>, Seq<char>), caption: Seq<Seq<char>>) -> bool {
    e.0 == "id"@ || (e.0 == "alt"@ && caption.len() > 0 && crate::text::trim(caption[0]) == crate::text::trim(e.1))
}

/// The `:key: value` option lines of a figure, in order, without the
/// skipped ones.
pub open spec fn figure_options(es: EntriesView, caption: Seq<Seq<char>>) -> Seq<Seq<char>>
    decreases es.len(),
{
    if es.len() == 0 {
        Seq::empty()
    } else {
        figure_options(es.drop_last(), caption) + if skipped_option(es.last(), caption) {
            Seq::empty()
        } else {
            seq![":"@ + es.last().0 + ": "@ + es.last().1]
        }
    }
}

/// `d1` is `d0` with more after it.
pub open spec fn grows(d0: Seq<Diagnostic>, d1: Seq<Diagnostic>) -> bool {
    d0.len() <= d1.len() && d1.subrange(0, d0.len() as int) == d0
}

proof fn lemma_grows_trans(a: Seq<Diagnostic>, b: Seq<Diagnostic>, c: Seq<Diagnostic>)
    requires
        grows(a, b),
        grows(b, c),
    ensures
        grows(a, c),
{
    assert(c.subrange(0, a.len() as int) =~= c.subrange(0, b.len() as int).subrange(0, a.len() as int));
}

proof fn lemma_grows_refl(a: Seq<Diagnostic>)
    ensures
        grows(a, a),
{
    assert(a.subrange(0, a.len() as int) =~= a);
}

/// `head`, then `n`, then `tail`.
pub open spec fn around(head: Seq<Seq<char>>, n: Seq<Seq<char>>, tail: Seq<Seq<char>>) -> Seq<Seq<char>> {
    head + n + tail
}

/// The option lines of a collapsible admonition: a dropdown, open unless
/// it was collapsed.
pub open spec fn collapse_lines(collapse: Option<bool>) -> Seq<Seq<char>> {
    match collapse {
        Some(c) => seq![":class: dropdown"@, if c { ":open: false"@ } else { ":open: true"@ }],
        None => Seq::empty(),
    }
}

/// A blockquote's attribution lines, each after `-- `.
pub open spec fn attribution_lines(a: Option<Vec<String>>) -> Seq<Seq<char>> {
    match a {
        Some(x) => prefixed(strs(x@), "-- "@),
        None => Seq::empty(),
    }
}

/// Each line with `p` in front of it.
pub open spec fn prefixed(lines: Seq<Seq<char>>, p: Seq<char>) -> Seq<Seq<char>> {
    lines.map_values(|l: Seq<char>| p + l)
}

/// The lines of a tab set's tabs: each a `:::{tab-item} label` line, its
/// blocks' lines (`ns`), then `:::`.
pub open spec fn tab_items_text(items: Seq<TabItem>, ns: Seq<Seq<Seq<char>>>) -> Seq<Seq<char>>
    decreases items.len(),
{
    if items.len() == 0 || ns.len() != items.len() {
        Seq::empty()
    } else {
        tab_items_text(items.drop_last(), ns.drop_last()) + seq![":::{tab-item} "@ + items.last().label@] + ns.last()
            + seq![":::"@]
    }
}

/// Renders documents as MyST text.
pub struct MystWriter {
    restore: RestoreMap,
    known_labels: Vec<String>,
}

impl MystWriter {
    /// A writer that restores labels through `restore` (empty for a
    /// same-dialect round trip, where labels pass through unchanged) and
    /// reads `known_labels` as cross-references.
    pub fn new(restore: RestoreMap, known_labels: Vec<String>) -> (w: MystWriter)
        ensures
            w.restore_view() == restore@,
            w.known_view() == strs(known_labels@),
    {
        MystWriter { restore, known_labels }
    }

    /// The restore map.
    pub closed spec fn restore_view(&self) -> Seq<((String, String), Label)> {
        self.restore@
    }

    /// `text`, `warnings` and `preserved` are what writing `doc` gives when
    /// its blocks render as `outs`, the preserved entries pass through the
    /// stages `ps` and the block diagnostics through the stages `ds`: the
    /// frontmatter, then each block's lines after its blank lines, ending in a
    /// newline; the frontmatter's warnings, then the blocks' diagnostics.
    pub open spec fn written_as(
        &self,
        doc: Document,
        text: Seq<char>,
        warnings: Seq<Diagnostic>,
        preserved: Seq<(String, crate::preserve::PreservedEntry)>,
        outs: Seq<Seq<String>>,
        ps: Seq<Seq<(String, crate::preserve::PreservedEntry)>>,
        ds: Seq<Seq<Diagnostic>>,
    ) -> bool {
            let n = doc.blocks@.len() as int;
            &&& outs.len() == n
            &&& ps.len() == n + 1
            &&& ds.len() == n + 1
            &&& ps[0].len() == 0
            &&& ds[0].len() == 0
            &&& forall|k: int|
                0 <= k < n ==> self.myst_block(doc.source@, doc.blocks@[k], #[trigger] outs[k])
                    && self.myst_effects(doc.source@, doc.blocks@[k], ps[k], ps[k + 1], ds[k], ds[k + 1])
            &&& text == crate::writer::newline_ended(
                crate::writer::laid_out(
                    match doc.frontmatter {
                        Some(fm) => "---\n"@ + myst_frontmatter_text(fm) + "---\n"@,
                        None => Seq::empty(),
                    },
                    crate::writer::quarto::nested_view(doc.blocks@, outs),
                    doc.frontmatter is Some,
                ),
            )
            &&& preserved == ps[n]
            &&& crate::config::diags(warnings) == match doc.frontmatter {
                Some(fm) => myst_frontmatter_warnings(fm),
                None => Seq::empty(),
            } + crate::config::diags(ds[n])
    }

    /// Renders a document: the frontmatter mapped to MyST's dialect (when
    /// the document has frontmatter) between `---` lines, then the blocks
    /// with their blank lines, ending in a newline. Answers the text, the
    /// diagnostics (the frontmatter's first) and the preserved constructs.
    pub fn write(&self, doc: &Document) -> (r: (String, Vec<Diagnostic>, PreservedEntries))
        ensures
            r.0@.len() > 0 && r.0@.last() == '\n',
            doc.frontmatter is None && doc.blocks@.len() == 0 ==> r.0@ == seq!['\n'],
            match doc.frontmatter {
                Some(fm) => {
                    let head = "---\n"@ + myst_frontmatter_text(fm) + "---\n"@;
                    &&& r.0@.len() >= head.len()
                    &&& r.0@.subrange(0, head.len() as int) == head
                    &&& r.1@.len() >= myst_frontmatter_warnings(fm).len()
                    &&& crate::config::diags(r.1@).subrange(0, myst_frontmatter_warnings(fm).len() as int) == myst_frontmatter_warnings(fm)
                },
                None => true,
            },
            exists|outs: Seq<Seq<String>>, ps: Seq<Seq<(String, crate::preserve::PreservedEntry)>>, ds: Seq<Seq<Diagnostic>>|
                #[trigger] self.written_as(*doc, r.0@, r.1@, r.2@, outs, ps, ds),
    {
        let mut out: Vec<char> = Vec::new();
        let mut preserved: PreservedEntries = Vec::new();
        let mut warnings: Vec<Diagnostic> = Vec::new();
        let mut diagnostics: Vec<Diagnostic> = Vec::new();
        let has_fm = doc.frontmatter.is_some();
        match &doc.frontmatter {
            Some(fm) => {
                let (mapped, fm_warnings) = crate::frontmatter::quarto_to_myst(fm);
                warnings = fm_warnings;
                assert(crate::config::diags(warnings@) =~= myst_frontmatter_warnings(*fm));
                push_all(&mut out, &chars_of("---\n"));
                push_all(&mut out, &chars_of(mapped.as_str()));
                push_all(&mut out, &chars_of("---\n"));
                assert(out@ =~= "---\n"@ + myst_frontmatter_text(*fm) + "---\n"@);
            },
            None => {},
        }
        let ghost head = out@;
        let ghost fw = crate::config::diags(warnings@);
        assert(doc.frontmatter is None ==> head.len() == 0);
        assert(match doc.frontmatter {
            Some(fm) => fw == myst_frontmatter_warnings(fm) && head == "---\n"@ + myst_frontmatter_text(fm) + "---\n"@,
            None => fw.len() == 0 && head.len() == 0,
        });
        let ghost mut outs: Seq<Seq<String>> = Seq::empty();
        let ghost mut ps: Seq<Seq<(String, crate::preserve::PreservedEntry)>> = seq![preserved@];
        let ghost mut ds: Seq<Seq<Diagnostic>> = seq![diagnostics@];
        let mut i: usize = 0;
        while i < doc.blocks.len()
            invariant
                fw == crate::config::diags(warnings@),
                has_fm == doc.frontmatter is Some,
                outs.len() == i,
                ps.len() == i + 1,
                ds.len() == i + 1,
                ps[0].len() == 0,
                ds[0].len() == 0,
                ps[i as int] == preserved@,
                ds[i as int] == diagnostics@,
                forall|k: int|
                    0 <= k < i ==> self.myst_block(doc.source@, doc.blocks@[k], #[trigger] outs[k])
                        && self.myst_effects(doc.source@, doc.blocks@[k], ps[k], ps[k + 1], ds[k], ds[k + 1]),
                out@ == crate::writer::laid_out(
                    head,
                    crate::writer::quarto::nested_view(doc.blocks@.subrange(0, i as int), outs),
                    has_fm,
                ),
                i <= doc.blocks@.len(),
                out@.len() >= head.len(),
                out@.subrange(0, head.len() as int) == head,
                i == 0 ==> out@ == head,
            decreases doc.blocks.len() - i,
        {
            let block = &doc.blocks[i];
            push_spacing(&mut out, block.blank_lines_before, i == 0 && !has_fm);
            if has_fm && i == 0 {
                out.push('\n');
            }
            let ghost p_before = preserved@;
            let ghost d_before = diagnostics@;
            let rendered = self.render_block(block, doc.source.as_str(), &mut preserved, &mut diagnostics);
            push_all(&mut out, &chars_of(join_lines(rendered.as_slice()).as_str()));
            assert(out@.subrange(0, head.len() as int) =~= head);
            proof {
                let prev_view = crate::writer::quarto::nested_view(doc.blocks@.subrange(0, i as int), outs);
                let (o0, p0, d0) = (outs, ps, ds);
                outs = outs.push(rendered@);
                ps = ps.push(preserved@);
                ds = ds.push(diagnostics@);
                assert forall|k: int|
                    0 <= k < i + 1 implies self.myst_block(doc.source@, doc.blocks@[k], #[trigger] outs[k])
                        && self.myst_effects(doc.source@, doc.blocks@[k], ps[k], ps[k + 1], ds[k], ds[k + 1]) by {
                    if k < i {
                        assert(outs[k] == o0[k]);
                        assert(ps[k] == p0[k] && ps[k + 1] == p0[k + 1]);
                        assert(ds[k] == d0[k] && ds[k + 1] == d0[k + 1]);
                        assert(self.myst_block(doc.source@, doc.blocks@[k], o0[k]));
                    } else {
                        assert(ps[k] == p_before && ds[k] == d_before);
                    }
                }
                let nv = crate::writer::quarto::nested_view(doc.blocks@.subrange(0, i + 1), outs);
                assert(nv.drop_last() =~= prev_view);
                assert(nv.last() == (doc.blocks@[i as int].blank_lines_before, strs(rendered@)));
            }
            i = i + 1;
        }
        assert(doc.blocks@.subrange(0, i as int) =~= doc.blocks@);
        if out.len() == 0 || out[out.len() - 1] != '\n' {
            out.push('\n');
        }
        assert(out@.subrange(0, head.len() as int) =~= head);
        let ghost wv = crate::config::diags(warnings@);
        crate::config::extend_warnings(&mut warnings, diagnostics);
        assert(crate::config::diags(warnings@).subrange(0, wv.len() as int) =~= wv);
        let text = string_of(&out);
        assert(self.written_as(*doc, text@, warnings@, preserved@, outs, ps, ds));
        let r = (text, warnings, preserved);
        assert(self.written_as(*doc, r.0@, r.1@, r.2@, outs, ps, ds));
        r
    }

    /// The labels read as cross-references.
    pub closed spec fn known_view(&self) -> Seq<Seq<char>> {
        strs(self.known_labels@)
    }

    /// The inline rendering of this writer.
    pub open spec fn event_render(&self) -> spec_fn(EventView) -> Option<Seq<char>> {
        |ev: EventView| spec_myst_event(self.restore_view(), ev)
    }

    /// Lines with their inline constructs in MyST form.
    pub open spec fn rw(&self, lines: Seq<Seq<char>>) -> Seq<Seq<char>> {
        lines.map_values(|l: Seq<char>| rewritten(l, self.known_view(), self.event_render()))
    }

    fn rewrite(&self, lines: &Vec<String>) -> (r: Vec<String>)
        ensures
            r@.len() == lines@.len(),
            strs(r@) == self.rw(strs(lines@)),
    {
        let ghost f = self.event_render();
        let mut out: Vec<String> = Vec::new();
        let mut k: usize = 0;
        while k < lines.len()
            invariant
                k <= lines@.len(),
                f == self.event_render(),
                strs(out@) == strs(lines@).subrange(0, k as int).map_values(|l: Seq<char>| rewritten(l, self.known_view(), f)),
            decreases lines.len() - k,
        {
            let render = |e: InlineEvent| -> (o: Option<String>)
                ensures
                    opt_seq(o) == spec_myst_event(self.restore_view(), e@),
                { self.render_event(e) };
            let line = rewrite_with(lines[k].as_str(), self.known_labels.as_slice(), render, Ghost(f));
            let ghost before = strs(out@);
            out.push(line);
            assert(strs(out@) =~= before.push(rewritten(lines@[k as int]@, self.known_view(), f)));
            assert(strs(lines@).subrange(0, k + 1) =~= strs(lines@).subrange(0, k as int).push(lines@[k as int]@));
            k = k + 1;
        }
        assert(strs(lines@).subrange(0, k as int) =~= strs(lines@));
        assert(strs(out@).len() == out@.len());
        out
    }

    /// The MyST form of one inline construct; `None` keeps it as written.
    fn render_event(&self, event: InlineEvent) -> (r: Option<String>)
        ensures
            opt_seq(r) == spec_myst_event(self.restore_view(), event@),
    {
        match event {
            InlineEvent::Citation(_) => None,
            InlineEvent::CrossReference(key) => {
                let restored = self.resolve_reference_label(key.as_str());
                if str_eq(restored.as_str(), key.as_str()) {
                    None
                } else {
                    Some(cat2("@", restored.as_str()))
                }
            },
            InlineEvent::LegacyRole { role, target } => render_role_to_myst(role.as_str(), target.as_str()),
            InlineEvent::JupyterEval { expr, .. } => Some(cat3("{eval}`", expr.as_str(), "`")),
            InlineEvent::KnitrEval(expr) => Some(cat3("{eval}`", expr.as_str(), "`")),
        }
    }

    /// The restored original of a reference token: the first restore entry
    /// whose id is `key`, in any file, else `key` itself.
    fn resolve_reference_label(&self, key: &str) -> (r: String)
        ensures
            r@ == restored_ref(self.restore_view(), key@),
    {
        let k = String::from_str(key);
        let ghost rs = self.restore_view();
        assert(rs.subrange(0, rs.len() as int) =~= rs);
        let mut i: usize = 0;
        while i < self.restore.len()
            invariant
                i <= self.restore@.len(),
                rs == self.restore_view(),
                rs == self.restore@,
                k@ == key@,
                restored_ref(rs, key@) == restored_ref(rs.subrange(i as int, rs.len() as int), key@),
            decreases self.restore.len() - i,
        {
            assert(rs.subrange(i as int, rs.len() as int).drop_first() =~= rs.subrange(i + 1, rs.len() as int));
            if str_eq(self.restore[i].0.1.as_str(), k.as_str()) {
                return self.restore[i].1.raw.clone();
            }
            i = i + 1;
        }
        k
    }

    fn myst_label(&self, source: &str, label: &Label) -> (r: Label)
        ensures
            r.raw@ == spec_myst_label(source@, label.raw@, self.restore_view()),
    {
        resolve_myst_label(source, label, &self.restore)
    }

    /// The `:label:` option line of a directive with this label, if any.
    pub open spec fn label_lines(&self, source: Seq<char>, label: Option<Label>) -> Seq<Seq<char>> {
        match label {
            Some(l) => seq![":label: "@ + spec_myst_label(source, l.raw@, self.restore_view())],
            None => Seq::empty(),
        }
    }

    /// The `(label)=` target line and blank line before a labelled heading.
    pub open spec fn target_lines(&self, source: Seq<char>, label: Option<Label>) -> Seq<Seq<char>> {
        match label {
            Some(l) => seq!["("@ + spec_myst_label(source, l.raw@, self.restore_view()) + ")="@, Seq::empty()],
            None => Seq::empty(),
        }
    }

    fn label_line(&self, source: &str, label: &Label) -> (r: String)
        ensures
            r@ == ":label: "@ + spec_myst_label(source@, label.raw@, self.restore_view()),
    {
        let l = self.myst_label(source, label);
        cat2(":label: ", l.raw.as_str())
    }

    /// What rendering `block` written in `source` gives, as lines.
    /// `lines` are what rendering the nested blocks `body` gives: each
    /// block's lines, after its blank lines.
    pub open spec fn myst_nested(&self, source: Seq<char>, body: Seq<Block>, lines: Seq<Seq<char>>) -> bool
        decreases body, 0int,
    {
        exists|outs: Seq<Seq<String>>|
            {
                &&& outs.len() == body.len()
                &&& forall|k: int| 0 <= k < outs.len() ==> self.myst_block(source, body[k], #[trigger] outs[k])
                &&& lines == crate::reader::lines::lines_of(crate::writer::body_text(crate::writer::quarto::nested_view(body, outs)))
            }
    }

    /// `r` is `head`, the nested blocks' lines, then `tail`.
    pub open spec fn framed(&self, source: Seq<char>, head: Seq<Seq<char>>, body: Seq<Block>, tail: Seq<Seq<char>>, r: Seq<String>) -> bool
        decreases body, 1int,
    {
        exists|n: Seq<Seq<char>>| self.myst_nested(source, body, n) && strs(r) == #[trigger] around(head, n, tail)
    }

    /// `r` is a tab set: `::::{tab-set}`, each tab's item, then `::::`.
    pub open spec fn myst_tabs(&self, source: Seq<char>, items: Seq<TabItem>, r: Seq<String>) -> bool
        decreases items, 1int,
    {
        exists|ns: Seq<Seq<Seq<char>>>|
            {
                &&& ns.len() == items.len()
                &&& forall|k: int| 0 <= k < items.len() ==> self.myst_nested(source, items[k].body@, #[trigger] ns[k])
                &&& strs(r) == seq!["::::{tab-set}"@] + #[trigger] tab_items_text(items, ns) + seq!["::::"@]
            }
    }

    pub open spec fn myst_block(&self, source: Seq<char>, block: Block, r: Seq<String>) -> bool
        decreases block, 0int,
    {
        &&& (block.kind is BlockBreak ==> strs(r) == seq!["+++"@])
        &&& (block.kind matches BlockKind::Heading { level, text, label } ==> strs(r) == self.target_lines(source, label)
                + seq![hashes(level as nat) + " "@ + rewritten(text@, self.known_view(), self.event_render())])
        &&& (block.kind matches BlockKind::Paragraph { lines } ==> strs(r) == self.rw(strs(lines@)))
        &&& (block.kind matches BlockKind::StaticCode { lang, body, .. } ==> strs(r) == seq![
                match lang {
                    Some(l) => if l@ == "mermaid"@ {
                        "```{mermaid}"@
                    } else {
                        "```"@ + l@
                    },
                    None => "```"@,
                },
            ] + strs(body@) + seq!["```"@])
        &&& (block.kind matches BlockKind::Math { body, label } ==> strs(r) == seq!["```{math}"@] + match label {
                Some(l) => seq![":label: "@ + spec_myst_label(source, l.raw@, self.restore_view()), Seq::empty()],
                None => Seq::empty(),
            } + strs(body@) + seq!["```"@])
        &&& (block.kind matches BlockKind::Table { caption, rows, label } ==> strs(r) == seq![":::{table}"@]
                + self.label_lines(source, label) + seq![Seq::empty()] + self.rw(strs(caption@)) + (if caption@.len()
                > 0 {
                seq![Seq::<char>::empty()]
            } else {
                Seq::empty()
            }) + strs(rows@) + seq![":::"@])
        &&& (block.kind matches BlockKind::CodeCell { lang, options, body, label } ==> ({
                let opts = self.label_lines(source, label) + (if options.tags@.len() > 0 {
                    seq![":tags: ["@ + comma_list(strs(options.tags@)) + "]"@]
                } else {
                    Seq::empty()
                }) + match options.caption {
                    Some(c) => seq![":caption: "@ + c@],
                    None => Seq::empty(),
                };
                strs(r) == seq!["```{code-cell} "@ + lang@] + opts + (if opts.len() > 0 {
                    seq![Seq::<char>::empty()]
                } else {
                    Seq::empty()
                }) + strs(body@) + seq!["```"@]
            }))
        &&& (block.kind matches BlockKind::Include { target, .. } ==> strs(r) == seq![
                "```{include} "@ + crate::writer::beside(target@, crate::writer::include_stem(target@) + ".md"@),
                "```"@,
            ])
        &&& (block.kind matches BlockKind::Embed { target, label } ==> strs(r) == seq![
                "```{embed} #"@ + match target {
                    EmbedTarget::Label(l) => l.raw@,
                    EmbedTarget::NotebookCell { cell_label, .. } => cell_label.raw@,
                },
            ] + self.label_lines(source, label) + seq!["```"@])
        &&& (block.kind matches BlockKind::Admonition { kind, title, collapse, body } ==> self.framed(
                source,
                seq![match title {
                    Some(t) => "```{admonition} "@ + t@,
                    None => "```{"@ + spec_admonition_name(kind) + "}"@,
                }] + collapse_lines(collapse),
                body@,
                seq!["```"@],
                r,
            ))
        &&& (block.kind matches BlockKind::Margin { body } ==> self.framed(source, seq!["```{margin}"@], body@, seq!["```"@], r))
        &&& (block.kind matches BlockKind::Blockquote { body, attribution } ==> self.framed(
                source,
                seq!["```{blockquote}"@],
                body@,
                attribution_lines(attribution) + seq!["```"@],
                r,
            ))
        &&& (block.kind matches BlockKind::TabSet { items } ==> self.myst_tabs(source, items@, r))
        &&& (block.kind matches BlockKind::Theorem { thm_type, label, body } ==> self.framed(
                source,
                seq!["```{prf:"@ + thm_type@ + "}"@] + self.label_lines(source, label),
                body@,
                seq!["```"@],
                r,
            ))
        &&& (block.kind matches BlockKind::Directive { name, label, body, .. } ==> self.framed(
                source,
                seq!["```{"@ + name@ + "}"@] + self.label_lines(source, label),
                body@,
                seq!["```"@],
                r,
            ))
        &&& (block.kind matches BlockKind::Figure { src, caption, label, attrs } ==> strs(r) == seq![
                ":::{figure} "@ + figure_arg(src),
            ] + self.label_lines(source, label) + figure_options(attrs@, strs(caption@)) + (if caption@.len() > 0 {
                seq![Seq::<char>::empty()] + self.rw(strs(caption@))
            } else {
                Seq::empty()
            }) + seq![":::"@])
        &&& (block.kind matches BlockKind::Preserved { original, .. } ==> (original@.len() == 0 ==> strs(r) == seq![
                crate::writer::missing_marker(),
            ]))
        &&& (block.kind matches BlockKind::Unmappable { original, reason } ==> (original@.len() > 0 ==> strs(r) == seq![
                crate::writer::spec_marker(
                    if path_safety(reason@) {
                        codes::io::PATH_SAFETY_REFUSED@
                    } else {
                        codes::block::UNMAPPABLE_PRESERVED@
                    },
                    crate::writer::spec_preserved_kind(reason@),
                    crate::writer::spec_entry_id(strs(original@)),
                ),
            ]))
        &&& (block.kind matches BlockKind::Comment { text, .. } ==> strs(r) == seq!["% "@ + text@])
        &&& (block.kind matches BlockKind::Target { label } ==> strs(r) == seq![
                "("@ + spec_myst_label(source, label.raw@, self.restore_view()) + ")="@,
            ])
        &&& (block.kind matches BlockKind::Raw { format, body } ==> strs(r) == seq!["```{raw} "@ + format@] + strs(
                body@,
            ) + seq!["```"@])
        &&& (block.kind matches BlockKind::Preserved { original, .. } ==> (original@.len() > 0 ==> strs(r) == strs(
                original@,
            )))
    }

    /// What rendering `block` does to the preserved entries (`p0` to `p1`)
    /// and the diagnostics (`d0` to `d1`): an unmappable construct records
    /// its original lines under their content id with one diagnostic (a
    /// refused include path as a warning), or, with no lines, one warning that
    /// the entry is missing; a preserved block with no lines gives that same
    /// warning; a block that holds other blocks adds what they add, after the
    /// diagnostics there were; any other block changes neither.
    pub open spec fn myst_effects(
        &self,
        source: Seq<char>,
        block: Block,
        p0: Seq<(String, crate::preserve::PreservedEntry)>,
        p1: Seq<(String, crate::preserve::PreservedEntry)>,
        d0: Seq<Diagnostic>,
        d1: Seq<Diagnostic>,
    ) -> bool {
        match block.kind {
            BlockKind::Unmappable { original, reason } => {
                &&& d1.len() == d0.len() + 1
                &&& d1.drop_last() == d0
                &&& if original@.len() == 0 {
                    &&& p1 == p0
                    &&& d1.last().code == codes::block::PRESERVATION_ENTRY_MISSING
                    &&& d1.last().severity == Severity::Warning
                } else {
                    let refused = path_safety(reason@);
                    let code = if refused { codes::io::PATH_SAFETY_REFUSED } else { codes::block::UNMAPPABLE_PRESERVED };
                    &&& d1.last().code == code
                    &&& d1.last().severity == if refused { Severity::Warning } else { Severity::LossyExpected }
                    &&& exists|e: crate::preserve::PreservedEntry|
                        {
                            &&& crate::writer::put_into(p0, p1, crate::writer::spec_entry_id(strs(original@)), e)
                            &&& e.file@ == source
                            &&& e.line == block.span.start_line
                            &&& e.code@ == code@
                            &&& e.kind@ == crate::writer::spec_preserved_kind(reason@)
                            &&& e.dialect == Dialect::Quarto
                            &&& strs(e.original@) == strs(original@)
                        }
                }
            },
            BlockKind::Preserved { original, .. } => if original@.len() == 0 {
                &&& p1 == p0
                &&& d1.len() == d0.len() + 1
                &&& d1.drop_last() == d0
                &&& d1.last().code == codes::block::PRESERVATION_ENTRY_MISSING
                &&& d1.last().severity == Severity::Warning
            } else {
                p1 == p0 && d1 == d0
            },
            BlockKind::Admonition { .. } => grows(d0, d1),
            BlockKind::TabSet { .. } => grows(d0, d1),
            BlockKind::Margin { .. } => grows(d0, d1),
            BlockKind::Blockquote { .. } => grows(d0, d1),
            BlockKind::Theorem { .. } => grows(d0, d1),
            BlockKind::Directive { .. } => grows(d0, d1),
            _ => p1 == p0 && d1 == d0,
        }
    }

    proof fn lemma_effects_grow(
        &self,
        source: Seq<char>,
        block: Block,
        p0: Seq<(String, crate::preserve::PreservedEntry)>,
        p1: Seq<(String, crate::preserve::PreservedEntry)>,
        d0: Seq<Diagnostic>,
        d1: Seq<Diagnostic>,
    )
        requires
            self.myst_effects(source, block, p0, p1, d0, d1),
        ensures
            grows(d0, d1),
    {
        lemma_grows_refl(d0);
        if d1.len() == d0.len() + 1 && d1.drop_last() == d0 {
            assert(d1.subrange(0, d0.len() as int) =~= d1.drop_last());
        }
    }

    /// Renders one block as MyST lines. A construct with no MyST form is
    /// replaced by its preservation marker, its original recorded in
    /// `preserved` and a diagnostic added.
    pub fn render_block(
        &self,
        block: &Block,
        source: &str,
        preserved: &mut PreservedEntries,
        diagnostics: &mut Vec<Diagnostic>,
    ) -> (r: Vec<String>)
        ensures
            self.myst_block(source@, *block, r@),
            self.myst_effects(source@, *block, old(preserved)@, final(preserved)@, old(diagnostics)@, final(diagnostics)@),
        decreases block, 2int,
    {
        let r = self.render_kind(block, source, preserved, diagnostics);
        assert(self.myst_block(source@, *block, r@));
        r
    }

    /// The lines of one block, by its kind.
    fn render_kind(
        &self,
        block: &Block,
        source: &str,
        preserved: &mut PreservedEntries,
        diagnostics: &mut Vec<Diagnostic>,
    ) -> (r: Vec<String>)
        ensures
            self.myst_effects(source@, *block, old(preserved)@, final(preserved)@, old(diagnostics)@, final(diagnostics)@),
            block.kind is BlockBreak ==> strs(r@) == seq!["+++"@],
            block.kind matches BlockKind::Heading { level, text, label } ==> strs(r@) == self.target_lines(source@, label)
                + seq![hashes(level as nat) + " "@ + rewritten(text@, self.known_view(), self.event_render())],
            block.kind matches BlockKind::Paragraph { lines } ==> strs(r@) == self.rw(strs(lines@)),
            block.kind matches BlockKind::StaticCode { lang, body, .. } ==> strs(r@) == seq![
                match lang {
                    Some(l) => if l@ == "mermaid"@ {
                        "```{mermaid}"@
                    } else {
                        "```"@ + l@
                    },
                    None => "```"@,
                },
            ] + strs(body@) + seq!["```"@],
            block.kind matches BlockKind::Math { body, label } ==> strs(r@) == seq!["```{math}"@] + match label {
                Some(l) => seq![":label: "@ + spec_myst_label(source@, l.raw@, self.restore_view()), Seq::empty()],
                None => Seq::empty(),
            } + strs(body@) + seq!["```"@],
            block.kind matches BlockKind::Table { caption, rows, label } ==> strs(r@) == seq![":::{table}"@]
                + self.label_lines(source@, label) + seq![Seq::empty()] + self.rw(strs(caption@)) + (if caption@.len()
                > 0 {
                seq![Seq::<char>::empty()]
            } else {
                Seq::empty()
            }) + strs(rows@) + seq![":::"@],
            block.kind matches BlockKind::CodeCell { lang, options, body, label } ==> ({
                let opts = self.label_lines(source@, label) + (if options.tags@.len() > 0 {
                    seq![":tags: ["@ + comma_list(strs(options.tags@)) + "]"@]
                } else {
                    Seq::empty()
                }) + match options.caption {
                    Some(c) => seq![":caption: "@ + c@],
                    None => Seq::empty(),
                };
                strs(r@) == seq!["```{code-cell} "@ + lang@] + opts + (if opts.len() > 0 {
                    seq![Seq::<char>::empty()]
                } else {
                    Seq::empty()
                }) + strs(body@) + seq!["```"@]
            }),
            block.kind matches BlockKind::Include { target, .. } ==> strs(r@) == seq![
                "```{include} "@ + crate::writer::beside(target@, crate::writer::include_stem(target@) + ".md"@),
                "```"@,
            ],
            block.kind matches BlockKind::Embed { target, label } ==> strs(r@) == seq![
                "```{embed} #"@ + match target {
                    EmbedTarget::Label(l) => l.raw@,
                    EmbedTarget::NotebookCell { cell_label, .. } => cell_label.raw@,
                },
            ] + self.label_lines(source@, label) + seq!["```"@],
            block.kind matches BlockKind::Admonition { kind, title, collapse, body } ==> self.framed(
                source@,
                seq![match title {
                    Some(t) => "```{admonition} "@ + t@,
                    None => "```{"@ + spec_admonition_name(kind) + "}"@,
                }] + collapse_lines(collapse),
                body@,
                seq!["```"@],
                r@,
            ),
            block.kind matches BlockKind::Margin { body } ==> self.framed(source@, seq!["```{margin}"@], body@, seq!["```"@], r@),
            block.kind matches BlockKind::Blockquote { body, attribution } ==> self.framed(
                source@,
                seq!["```{blockquote}"@],
                body@,
                attribution_lines(attribution) + seq!["```"@],
                r@,
            ),
            block.kind matches BlockKind::TabSet { items } ==> self.myst_tabs(source@, items@, r@),
            block.kind matches BlockKind::Theorem { thm_type, label, body } ==> self.framed(
                source@,
                seq!["```{prf:"@ + thm_type@ + "}"@] + self.label_lines(source@, label),
                body@,
                seq!["```"@],
                r@,
            ),
            block.kind matches BlockKind::Directive { name, label, body, .. } ==> self.framed(
                source@,
                seq!["```{"@ + name@ + "}"@] + self.label_lines(source@, label),
                body@,
                seq!["```"@],
                r@,
            ),
            block.kind matches BlockKind::Figure { src, caption, label, attrs } ==> strs(r@) == seq![
                ":::{figure} "@ + figure_arg(src),
            ] + self.label_lines(source@, label) + figure_options(attrs@, strs(caption@)) + (if caption@.len() > 0 {
                seq![Seq::<char>::empty()] + self.rw(strs(caption@))
            } else {
                Seq::empty()
            }) + seq![":::"@],
            block.kind matches BlockKind::Preserved { original, .. } ==> (original@.len() == 0 ==> strs(r@) == seq![
                crate::writer::missing_marker(),
            ]),
            block.kind matches BlockKind::Unmappable { original, reason } ==> (original@.len() > 0 ==> strs(r@) == seq![
                crate::writer::spec_marker(
                    if path_safety(reason@) {
                        codes::io::PATH_SAFETY_REFUSED@
                    } else {
                        codes::block::UNMAPPABLE_PRESERVED@
                    },
                    crate::writer::spec_preserved_kind(reason@),
                    crate::writer::spec_entry_id(strs(original@)),
                ),
            ]),
            block.kind matches BlockKind::Comment { text, .. } ==> strs(r@) == seq!["% "@ + text@],
            block.kind matches BlockKind::Target { label } ==> strs(r@) == seq![
                "("@ + spec_myst_label(source@, label.raw@, self.restore_view()) + ")="@,
            ],
            block.kind matches BlockKind::Raw { format, body } ==> strs(r@) == seq!["```{raw} "@ + format@] + strs(
                body@,
            ) + seq!["```"@],
            block.kind matches BlockKind::Preserved { original, .. } ==> (original@.len() > 0 ==> strs(r@) == strs(
                original@,
            )),
        decreases block, 1int,
    {
        match &block.kind {
            BlockKind::Heading { level, text, label } => self.heading(*level, text, label, source),
            BlockKind::Paragraph { lines } => self.rewrite(lines),
            BlockKind::CodeCell { lang, options, body, label } => self.code_cell(lang.as_str(), options, body, label, source),
            BlockKind::StaticCode { lang, body, .. } => static_code(lang, body),
            BlockKind::Figure { src, caption, label, attrs } => self.figure(src, caption, label, attrs, source),
            BlockKind::Table { caption, rows, label } => self.table(caption, rows, label, source),
            BlockKind::Math { body, label } => self.math(body, label, source),
            BlockKind::Admonition { kind, title, body, collapse } => {
                let name = admonition_name(*kind);
                let mut out: Vec<String> = Vec::new();
                match title {
                    Some(t) => push_line(&mut out, cat2("```{admonition} ", t.as_str())),
                    None => push_line(&mut out, cat3("```{", name, "}")),
                }
                match collapse {
                    Some(c) => {
                        push_line(&mut out, String::from_str(":class: dropdown"));
                        push_line(&mut out, String::from_str(if *c { ":open: false" } else { ":open: true" }));
                    },
                    None => {},
                }
                let ghost head = strs(out@);
                assert(head =~= seq![match title {
                    Some(t) => "```{admonition} "@ + t@,
                    None => "```{"@ + spec_admonition_name(*kind) + "}"@,
                }] + collapse_lines(*collapse));
                let nested = self.render_nested(body, source, preserved, diagnostics);
                extend_lines(&mut out, nested.as_slice());
                push_line(&mut out, String::from_str("```"));
                assert(strs(out@) =~= around(head, strs(nested@), seq!["```"@]));
                assert(self.framed(source@, head, body@, seq!["```"@], out@));
                out
            },
            BlockKind::TabSet { items } => self.tab_set(items, source, preserved, diagnostics),
            BlockKind::Margin { body } => {
                let mut out: Vec<String> = Vec::new();
                push_line(&mut out, String::from_str("```{margin}"));
                let ghost head = strs(out@);
                assert(head =~= seq!["```{margin}"@]);
                let nested = self.render_nested(body, source, preserved, diagnostics);
                extend_lines(&mut out, nested.as_slice());
                push_line(&mut out, String::from_str("```"));
                assert(strs(out@) =~= around(head, strs(nested@), seq!["```"@]));
                assert(self.framed(source@, head, body@, seq!["```"@], out@));
                out
            },
            BlockKind::Include { target, .. } => {
                let mut out: Vec<String> = Vec::new();
                push_line(&mut out, cat2("```{include} ", myst_include_target(target.as_str()).as_str()));
                push_line(&mut out, String::from_str("```"));
                out
            },
            BlockKind::Embed { target, label } => {
                let arg = match target {
                    EmbedTarget::Label(l) => l.raw.clone(),
                    EmbedTarget::NotebookCell { cell_label, .. } => cell_label.raw.clone(),
                };
                let mut out: Vec<String> = Vec::new();
                push_line(&mut out, cat2("```{embed} #", arg.as_str()));
                match label {
                    Some(l) => push_line(&mut out, self.label_line(source, l)),
                    None => {},
                }
                push_line(&mut out, String::from_str("```"));
                out
            },
            BlockKind::Blockquote { body, attribution } => {
                let mut out: Vec<String> = Vec::new();
                push_line(&mut out, String::from_str("```{blockquote}"));
                let ghost head = strs(out@);
                assert(head =~= seq!["```{blockquote}"@]);
                let nested = self.render_nested(body, source, preserved, diagnostics);
                extend_lines(&mut out, nested.as_slice());
                let ghost mid = strs(out@);
                match attribution {
                    Some(lines) => {
                        let ghost a = strs(lines@);
                        let mut k: usize = 0;
                        while k < lines.len()
                            invariant
                                k <= lines@.len(),
                                a == strs(lines@),
                                strs(out@) == mid + prefixed(a.subrange(0, k as int), "-- "@),
                            decreases lines.len() - k,
                        {
                            let ghost before = strs(out@);
                            assert(a[k as int] == lines@[k as int]@);
                            out.push(cat2("-- ", lines[k].as_str()));
                            assert(strs(out@) =~= before.push("-- "@ + a[k as int]));
                            assert(a.subrange(0, k + 1) =~= a.subrange(0, k as int).push(a[k as int]));
                            assert(strs(out@) =~= mid + prefixed(a.subrange(0, k + 1), "-- "@));
                            k = k + 1;
                        }
                        assert(a.subrange(0, k as int) =~= a);
                    },
                    None => {
                        assert(strs(out@) =~= mid + Seq::<Seq<char>>::empty());
                    },
                }
                let ghost tail0 = attribution_lines(*attribution);
                assert(strs(out@) == mid + tail0);
                push_line(&mut out, String::from_str("```"));
                assert(strs(out@) =~= around(head, strs(nested@), tail0 + seq!["```"@]));
                assert(self.framed(source@, head, body@, tail0 + seq!["```"@], out@));
                out
            },
            BlockKind::Theorem { thm_type, label, body } => {
                let mut out: Vec<String> = Vec::new();
                push_line(&mut out, cat3("```{prf:", thm_type.as_str(), "}"));
                match label {
                    Some(l) => push_line(&mut out, self.label_line(source, l)),
                    None => {},
                }
                let ghost head = strs(out@);
                assert(head =~= seq!["```{prf:"@ + thm_type@ + "}"@] + self.label_lines(source@, *label));
                let nested = self.render_nested(body, source, preserved, diagnostics);
                extend_lines(&mut out, nested.as_slice());
                push_line(&mut out, String::from_str("```"));
                assert(strs(out@) =~= around(head, strs(nested@), seq!["```"@]));
                assert(self.framed(source@, head, body@, seq!["```"@], out@));
                out
            },
            BlockKind::Directive { name, body, label, .. } => {
                let mut out: Vec<String> = Vec::new();
                push_line(&mut out, cat3("```{", name.as_str(), "}"));
                match label {
                    Some(l) => push_line(&mut out, self.label_line(source, l)),
                    None => {},
                }
                let ghost head = strs(out@);
                assert(head =~= seq!["```{"@ + name@ + "}"@] + self.label_lines(source@, *label));
                let nested = self.render_nested(body, source, preserved, diagnostics);
                extend_lines(&mut out, nested.as_slice());
                push_line(&mut out, String::from_str("```"));
                assert(strs(out@) =~= around(head, strs(nested@), seq!["```"@]));
                assert(self.framed(source@, head, body@, seq!["```"@], out@));
                out
            },
            BlockKind::Comment { text, .. } => {
                let mut out: Vec<String> = Vec::new();
                push_line(&mut out, cat2("% ", text.as_str()));
                out
            },
            BlockKind::Target { label } => {
                let l = self.myst_label(source, label);
                let mut out: Vec<String> = Vec::new();
                push_line(&mut out, cat3("(", l.raw.as_str(), ")="));
                out
            },
            BlockKind::Raw { format, body } => raw(format.as_str(), body),
            BlockKind::BlockBreak => {
                let mut out: Vec<String> = Vec::new();
                push_line(&mut out, String::from_str("+++"));
                out
            },
            BlockKind::Preserved { original, .. } => {
                if original.len() == 0 {
                    let marker = render_preserved(
                        preserved,
                        diagnostics,
                        source,
                        block.span,
                        "content",
                        PreservedDisposition {
                            code: codes::block::PRESERVED_RESTORED_OPAQUE,
                            severity: Severity::LossyExpected,
                            dialect: Dialect::Unknown,
                        },
                        Vec::new(),
                    );
                    let mut out: Vec<String> = Vec::new();
                    push_line(&mut out, marker);
                    out
                } else {
                    let mut out: Vec<String> = Vec::new();
                    extend_lines(&mut out, original.as_slice());
                    assert(strs(out@) =~= strs(original@));
                    out
                }
            },
            BlockKind::Unmappable { original, reason } => {
                let rv = chars_of(reason.as_str());
                let is_path_safety = contains_chars(&rv, &chars_of("escapes")) || contains_chars(&rv, &chars_of("cycle"))
                    || contains_chars(&rv, &chars_of("depth")) || contains_chars(&rv, &chars_of("absolute path"));
                assert(is_path_safety == path_safety(reason@));
                let kind = preserved_kind(reason.as_str());
                let disposition = if is_path_safety {
                    PreservedDisposition {
                        code: codes::io::PATH_SAFETY_REFUSED,
                        severity: Severity::Warning,
                        dialect: Dialect::Quarto,
                    }
                } else {
                    PreservedDisposition {
                        code: codes::block::UNMAPPABLE_PRESERVED,
                        severity: Severity::LossyExpected,
                        dialect: Dialect::Quarto,
                    }
                };
                let mut copy: Vec<String> = Vec::new();
                extend_lines(&mut copy, original.as_slice());
                assert(strs(copy@) =~= strs(original@));
                let marker = render_preserved(preserved, diagnostics, source, block.span, kind.as_str(), disposition, copy);
                let mut out: Vec<String> = Vec::new();
                push_line(&mut out, marker);
                out
            },
        }
    }

    fn heading(&self, level: u8, text: &String, label: &Option<Label>, source: &str) -> (r: Vec<String>)
        ensures
            strs(r@) == self.target_lines(source@, *label) + seq![
                hashes(level as nat) + " "@ + rewritten(text@, self.known_view(), self.event_render()),
            ],
    {
        let mut one: Vec<String> = Vec::new();
        one.push(text.clone());
        let head = self.rewrite(&one);
        let mut marks: Vec<char> = Vec::new();
        let mut k: u8 = 0;
        while k < level
            invariant
                k <= level,
                marks@ == hashes(k as nat),
            decreases level - k,
        {
            marks.push('#');
            assert(marks@ =~= hashes((k + 1) as nat));
            k = k + 1;
        }
        assert(strs(one@) =~= seq![text@]);
        assert(strs(head@)[0] == head@[0]@);
        assert(self.rw(seq![text@])[0] == rewritten(text@, self.known_view(), self.event_render()));
        let line = cat3(string_of(&marks).as_str(), " ", head[0].as_str());
        let mut out: Vec<String> = Vec::new();
        match label {
            Some(l) => {
                let ml = self.myst_label(source, l);
                push_line(&mut out, cat3("(", ml.raw.as_str(), ")="));
                push_line(&mut out, String::new());
                push_line(&mut out, line);
            },
            None => push_line(&mut out, line),
        }
        out
    }

    fn code_cell(&self, lang: &str, options: &CellOptions, body: &Vec<String>, label: &Option<Label>, source: &str) -> (r: Vec<String>)
        ensures
            ({
                let opts = self.label_lines(source@, *label) + (if options.tags@.len() > 0 {
                    seq![":tags: ["@ + comma_list(strs(options.tags@)) + "]"@]
                } else {
                    Seq::empty()
                }) + match options.caption {
                    Some(c) => seq![":caption: "@ + c@],
                    None => Seq::empty(),
                };
                strs(r@) == seq!["```{code-cell} "@ + lang@] + opts + (if opts.len() > 0 {
                    seq![Seq::<char>::empty()]
                } else {
                    Seq::empty()
                }) + strs(body@) + seq!["```"@]
            }),
    {
        let mut out: Vec<String> = Vec::new();
        push_line(&mut out, cat2("```{code-cell} ", lang));
        match label {
            Some(l) => push_line(&mut out, self.label_line(source, l)),
            None => {},
        }
        if options.tags.len() > 0 {
            let mut v = chars_of(":tags: [");
            let ghost start = v@;
            let ghost tags = strs(options.tags@);
            let mut k: usize = 0;
            while k < options.tags.len()
                invariant
                    k <= options.tags@.len(),
                    tags == strs(options.tags@),
                    v@ == start + comma_list(tags.subrange(0, k as int)),
                decreases options.tags.len() - k,
            {
                assert(tags.subrange(0, k + 1).drop_last() =~= tags.subrange(0, k as int));
                assert(tags[k as int] == options.tags@[k as int]@);
                if k > 0 {
                    push_all(&mut v, &chars_of(", "));
                }
                push_all(&mut v, &chars_of(options.tags[k].as_str()));
                proof {
                    reveal_strlit(", ");
                    if k == 0 {
                        assert(v@ =~= start + comma_list(tags.subrange(0, 1)));
                    } else {
                        assert(v@ =~= start + comma_list(tags.subrange(0, k + 1)));
                    }
                }
                k = k + 1;
            }
            assert(tags.subrange(0, k as int) =~= tags);
            v.push(']');
            proof { reveal_strlit("]"); }
            assert(v@ =~= ":tags: ["@ + comma_list(tags) + "]"@);
            push_line(&mut out, string_of(&v));
        }
        match &options.caption {
            Some(c) => push_line(&mut out, cat2(":caption: ", c.as_str())),
            None => {},
        }
        if out.len() > 1 {
            push_line(&mut out, String::new());
        }
        extend_lines(&mut out, body.as_slice());
        push_line(&mut out, String::from_str("```"));
        out
    }

    fn figure(&self, src: &FigureSource, caption: &Vec<String>, label: &Option<Label>, attrs: &crate::ir::Attrs, source: &str) -> (r: Vec<String>)
        ensures
            strs(r@) == seq![":::{figure} "@ + figure_arg(*src)] + self.label_lines(source@, *label) + figure_options(
                attrs@,
                strs(caption@),
            ) + (if caption@.len() > 0 {
                seq![Seq::<char>::empty()] + self.rw(strs(caption@))
            } else {
                Seq::empty()
            }) + seq![":::"@],
    {
        let arg = match src {
            FigureSource::Path(p) => p.clone(),
            FigureSource::CellRef { label, .. } => cat2("#", label.raw.as_str()),
        };
        let mut out: Vec<String> = Vec::new();
        push_line(&mut out, cat2(":::{figure} ", arg.as_str()));
        match label {
            Some(l) => push_line(&mut out, self.label_line(source, l)),
            None => {},
        }
        let ghost head = strs(out@);
        let entries = attrs.entries();
        let ghost es = attrs@;
        let ghost cap = strs(caption@);
        let mut k: usize = 0;
        while k < entries.len()
            invariant
                k <= entries@.len(),
                es == attrs@,
                cap == strs(caption@),
                entries@.map_values(|e: (String, String)| (e.0@, e.1@)) == es,
                strs(out@) == head + figure_options(es.subrange(0, k as int), cap),
            decreases entries.len() - k,
        {
            assert(es.subrange(0, k + 1).drop_last() =~= es.subrange(0, k as int));
            assert(es[k as int] == (entries@[k as int].0@, entries@[k as int].1@));
            let key = &entries[k].0;
            let value = &entries[k].1;
            let skip = if str_eq(key.as_str(), "id") {
                true
            } else if str_eq(key.as_str(), "alt") && caption.len() > 0 {
                let a = trim_chars(&chars_of(caption[0].as_str()));
                let b = trim_chars(&chars_of(value.as_str()));
                assert(cap[0] == caption@[0]@);
                crate::text::eq_chars(&a, &b)
            } else {
                false
            };
            assert(skip == skipped_option(es[k as int], cap));
            if !skip {
                push_line(&mut out, cat4(":", key.as_str(), ": ", value.as_str()));
            }
            assert(strs(out@) =~= head + figure_options(es.subrange(0, k + 1), cap));
            k = k + 1;
        }
        assert(es.subrange(0, k as int) =~= es);
        if caption.len() > 0 {
            push_line(&mut out, String::new());
            let rewritten = self.rewrite(caption);
            extend_lines(&mut out, rewritten.as_slice());
        }
        push_line(&mut out, String::from_str(":::"));
        out
    }

    fn table(&self, caption: &Vec<String>, rows: &Vec<String>, label: &Option<Label>, source: &str) -> (r: Vec<String>)
        ensures
            strs(r@) == seq![":::{table}"@] + self.label_lines(source@, *label) + seq![Seq::empty()] + self.rw(
                strs(caption@),
            ) + (if caption@.len() > 0 {
                seq![Seq::<char>::empty()]
            } else {
                Seq::empty()
            }) + strs(rows@) + seq![":::"@],
    {
        let mut out: Vec<String> = Vec::new();
        push_line(&mut out, String::from_str(":::{table}"));
        match label {
            Some(l) => push_line(&mut out, self.label_line(source, l)),
            None => {},
        }
        push_line(&mut out, String::new());
        let rewritten = self.rewrite(caption);
        extend_lines(&mut out, rewritten.as_slice());
        if caption.len() > 0 {
            push_line(&mut out, String::new());
        }
        extend_lines(&mut out, rows.as_slice());
        push_line(&mut out, String::from_str(":::"));
        out
    }

    fn math(&self, body: &Vec<String>, label: &Option<Label>, source: &str) -> (r: Vec<String>)
        ensures
            match label {
                Some(l) => strs(r@) == seq!["```{math}"@, ":label: "@ + spec_myst_label(source@, l.raw@, self.restore_view()), Seq::empty()]
                    + strs(body@) + seq!["```"@],
                None => strs(r@) == seq!["```{math}"@] + strs(body@) + seq!["```"@],
            },
    {
        let mut out: Vec<String> = Vec::new();
        push_line(&mut out, String::from_str("```{math}"));
        match label {
            Some(l) => {
                push_line(&mut out, self.label_line(source, l));
                push_line(&mut out, String::new());
            },
            None => {},
        }
        extend_lines(&mut out, body.as_slice());
        push_line(&mut out, String::from_str("```"));
        out
    }

    fn tab_set(&self, items: &Vec<TabItem>, source: &str, preserved: &mut PreservedEntries, diagnostics: &mut Vec<Diagnostic>) -> (r: Vec<String>)
        ensures
            self.myst_tabs(source@, items@, r@),
            grows(old(diagnostics)@, final(diagnostics)@),
        decreases items, 0int,
    {
        let mut out: Vec<String> = Vec::new();
        push_line(&mut out, String::from_str("::::{tab-set}"));
        proof { lemma_grows_refl(diagnostics@); }
        let ghost mut ns: Seq<Seq<Seq<char>>> = Seq::empty();
        let mut k: usize = 0;
        while k < items.len()
            invariant
                k <= items@.len(),
                ns.len() == k,
                forall|j: int| 0 <= j < k ==> self.myst_nested(source@, items@[j].body@, #[trigger] ns[j]),
                strs(out@) == seq!["::::{tab-set}"@] + tab_items_text(items@.subrange(0, k as int), ns),
                grows(old(diagnostics)@, diagnostics@),
            decreases items.len() - k,
        {
            let item = &items[k];
            push_line(&mut out, cat2(":::{tab-item} ", item.label.as_str()));
            let ghost d0 = diagnostics@;
            let nested = self.render_nested(&item.body, source, preserved, diagnostics);
            proof { lemma_grows_trans(old(diagnostics)@, d0, diagnostics@); }
            extend_lines(&mut out, nested.as_slice());
            push_line(&mut out, String::from_str(":::"));
            proof {
                let old_ns = ns;
                ns = ns.push(strs(nested@));
                let its = items@.subrange(0, k + 1);
                assert(its.drop_last() =~= items@.subrange(0, k as int));
                assert(ns.drop_last() =~= old_ns);
                assert(its.last() == items@[k as int]);
                assert(strs(out@) =~= seq!["::::{tab-set}"@] + tab_items_text(its, ns));
            }
            k = k + 1;
        }
        assert(items@.subrange(0, k as int) =~= items@);
        push_line(&mut out, String::from_str("::::"));
        assert(strs(out@) =~= seq!["::::{tab-set}"@] + tab_items_text(items@, ns) + seq!["::::"@]);
        assert(self.myst_tabs(source@, items@, out@));
        out
    }

    fn render_nested(&self, body: &Vec<Block>, source: &str, preserved: &mut PreservedEntries, diagnostics: &mut Vec<Diagnostic>) -> (r: Vec<String>)
        ensures
            grows(old(diagnostics)@, final(diagnostics)@),
            self.myst_nested(source@, body@, strs(r@)),
        decreases body, 0int,
    {
        let mut rendered: Vec<(u8, Vec<String>)> = Vec::new();
        proof { lemma_grows_refl(diagnostics@); }
        let mut k: usize = 0;
        while k < body.len()
            invariant
                k <= body@.len(),
                rendered@.len() == k,
                grows(old(diagnostics)@, diagnostics@),
                forall|j: int| 0 <= j < k ==> (#[trigger] rendered@[j]).0 == body@[j].blank_lines_before
                    && self.myst_block(source@, body@[j], rendered@[j].1@),
            decreases body.len() - k,
        {
            let ghost d0 = diagnostics@;
            let ghost p0 = preserved@;
            let lines = self.render_block(&body[k], source, preserved, diagnostics);
            proof {
                self.lemma_effects_grow(source@, body@[k as int], p0, preserved@, d0, diagnostics@);
                lemma_grows_trans(old(diagnostics)@, d0, diagnostics@);
            }
            rendered.push((body[k].blank_lines_before, lines));
            k = k + 1;
        }
        let ghost outs = rendered@.map_values(|x: (u8, Vec<String>)| x.1@);
        assert(crate::writer::rendered_view(rendered@) =~= crate::writer::quarto::nested_view(body@, outs));
        assert(forall|j: int| 0 <= j < outs.len() ==> self.myst_block(source@, body@[j], #[trigger] outs[j]));
        render_body_lines(&rendered)
    }
}

/// The frontmatter text a MyST document gets: the Quarto keys mapped back.
pub open spec fn myst_frontmatter_text(fm: crate::ir::Frontmatter) -> Seq<char> {
    match fm.parsed@ {
        crate::yaml::YamlView::Dict(d) => crate::frontmatter::edited_or_raw(fm.raw@, crate::frontmatter::qm_edits(d)),
        _ => fm.raw@,
    }
}

/// The warnings mapping the frontmatter back gives.
pub open spec fn myst_frontmatter_warnings(fm: crate::ir::Frontmatter) -> Seq<crate::config::DiagView> {
    match fm.parsed@ {
        crate::yaml::YamlView::Dict(d) => crate::frontmatter::qm_warnings(d),
        _ => Seq::empty(),
    }
}

} // verus!
