//! Document → Quarto writer. Labels go through the run's label registry, so
//! every cross-reference resolves to the id its definition was given.
use vstd::prelude::*;
use crate::ir::{AdmonitionKind, Attrs, Block, BlockKind, CellOptions, Document, EmbedTarget, FigureSource, TabItem};
use crate::label::Label;
use crate::reader::fence::strs;
use crate::strmap::EntriesView;
use crate::reader::inline::{EventView, InlineEvent};
use crate::registry::normalize::{normalize, spec_normalize, RefKind, RefKindView};
use crate::registry::{forward_get, spec_resolve, LabelRegistry};
use crate::text::{char_len, chars_of, has_at_exec, push_all, replace_all, replace_chars, slice_chars, str_eq, string_of, trim_chars, find_char};
use crate::writer::{
    cat2, cat3, cat4, cat5, extend_lines, file_stem_of, join_lines, known_reference_labels, push_line, push_spacing,
    body_text, opt_seq, render_body_lines, rendered_view, rewrite_text, rewrite_with, rewritten,
};

verus! {

/// The one id an embedded notebook cell's output uses: the document's own
/// label for it when there is one, else the cell's name normalized.
pub open spec fn spec_embed_id(cell_label: Seq<char>, document_label: Option<Seq<char>>) -> Seq<char> {
    match document_label {
        Some(id) => id,
        None => spec_normalize(cell_label, RefKindView::CodeCell),
    }
}

/// The id an embedded notebook cell's output is referenced by.
pub fn resolve_embed_id(cell_label: &Label, document_label: Option<&str>) -> (r: String)
    ensures
        r@ == spec_embed_id(cell_label.raw@, match document_label {
            Some(d) => Some(d@),
            None => None,
        }),
{
    match document_label {
        Some(id) => String::from_str(id),
        None => normalize(cell_label.raw.as_str(), RefKind::CodeCell),
    }
}

/// `\` and `"` escaped with a backslash, for a double-quoted value.
pub open spec fn spec_escape_quoted(s: Seq<char>) -> Seq<char> {
    replace_all(replace_all(s, "\\"@, "\\\\"@), "\""@, "\\\""@)
}

/// Escapes `\` and `"` for a double-quoted attribute or option value.
pub fn escape_quoted(s: &str) -> (r: String)
    ensures
        r@ == spec_escape_quoted(s@),
{
    let a = replace_chars(&chars_of(s), &chars_of("\\"), &chars_of("\\\\"));
    let b = replace_chars(&a, &chars_of("\""), &chars_of("\\\""));
    string_of(&b)
}

/// `&`, `<`, `>` escaped for HTML text.
pub open spec fn spec_escape_html_text(s: Seq<char>) -> Seq<char> {
    replace_all(replace_all(replace_all(s, "&"@, "&amp;"@), "<"@, "&lt;"@), ">"@, "&gt;"@)
}

fn escape_html_text(s: &str) -> (r: String)
    ensures
        r@ == spec_escape_html_text(s@),
{
    let a = replace_chars(&chars_of(s), &chars_of("&"), &chars_of("&amp;"));
    let b = replace_chars(&a, &chars_of("<"), &chars_of("&lt;"));
    let c = replace_chars(&b, &chars_of(">"), &chars_of("&gt;"));
    string_of(&c)
}

fn escape_html_attr(s: &str) -> (r: String)
    ensures
        r@ == replace_all(spec_escape_html_text(s@), "\""@, "&quot;"@),
{
    let t = escape_html_text(s);
    string_of(&replace_chars(&chars_of(t.as_str()), &chars_of("\""), &chars_of("&quot;")))
}

/// The callout class an admonition kind renders as.
pub open spec fn spec_admonition_class(kind: AdmonitionKind) -> Seq<char> {
    match kind {
        AdmonitionKind::Note | AdmonitionKind::Hint | AdmonitionKind::SeeAlso | AdmonitionKind::Attention => "callout-note"@,
        AdmonitionKind::Warning => "callout-warning"@,
        AdmonitionKind::Tip => "callout-tip"@,
        AdmonitionKind::Important | AdmonitionKind::Danger | AdmonitionKind::Error => "callout-important"@,
        AdmonitionKind::Caution => "callout-caution"@,
    }
}

/// The callout class an admonition kind renders as.
pub fn admonition_class(kind: AdmonitionKind) -> (r: &'static str)
    ensures
        r@ == spec_admonition_class(kind),
{
    match kind {
        AdmonitionKind::Note | AdmonitionKind::Hint | AdmonitionKind::SeeAlso | AdmonitionKind::Attention => "callout-note",
        AdmonitionKind::Warning => "callout-warning",
        AdmonitionKind::Tip => "callout-tip",
        AdmonitionKind::Important | AdmonitionKind::Danger | AdmonitionKind::Error => "callout-important",
        AdmonitionKind::Caution => "callout-caution",
    }
}

/// The cell-option line a MyST cell tag becomes.
pub open spec fn spec_tag_option(tag: Seq<char>) -> Option<Seq<char>> {
    if tag == "remove-input"@ {
        Some("#| echo: false"@)
    } else if tag == "remove-output"@ {
        Some("#| output: false"@)
    } else if tag == "remove-cell"@ {
        Some("#| include: false"@)
    } else if tag == "hide-input"@ {
        Some("#| code-fold: true"@)
    } else {
        None
    }
}

/// The cell-option line a MyST cell tag becomes.
pub fn tag_to_cell_option(tag: &str) -> (r: Option<&'static str>)
    ensures
        match r {
            Some(o) => spec_tag_option(tag@) == Some(o@),
            None => spec_tag_option(tag@) is None,
        },
{
    if str_eq(tag, "remove-input") {
        Some("#| echo: false")
    } else if str_eq(tag, "remove-output") {
        Some("#| output: false")
    } else if str_eq(tag, "remove-cell") {
        Some("#| include: false")
    } else if str_eq(tag, "hide-input") {
        Some("#| code-fold: true")
    } else {
        None
    }
}

/// Law: every MyST cell tag the Quarto writer turns into a `#|` option
/// line is read back by the Quarto reader as that same tag. So distinct tags
/// give distinct lines, and a tag survives the trip to Quarto and back.
pub proof fn lemma_tag_option_read_back(tag: Seq<char>, o: (Seq<Seq<char>>, Option<Seq<char>>, EntriesView))
    requires
        spec_tag_option(tag) is Some,
    ensures
        crate::reader::spec_option_pair(spec_tag_option(tag)->0) matches Some(kv) && crate::reader::cell_option_step(
            o,
            kv.0,
            kv.1,
        ) == (o.0.push(tag), o.1, o.2),
{
    reveal_strlit("remove-input");
    reveal_strlit("remove-output");
    reveal_strlit("remove-cell");
    reveal_strlit("hide-input");
    reveal_strlit("fig-cap");
    reveal_strlit("echo");
    reveal_strlit("false");
    reveal_strlit("output");
    reveal_strlit("include");
    reveal_strlit("code-fold");
    reveal_strlit("true");
    if tag == "remove-input"@ {
        reveal_strlit("#| echo: false");
        assert("#| echo: false"@ =~= seq!['#', '|', ' '] + "echo"@ + seq![':', ' '] + "false"@);
        crate::reader::lemma_option_line_reads_back("echo"@, "false"@);
        assert(spec_tag_option(tag) == Some("#| echo: false"@));
        assert("echo"@[0] == 'e' && "echo"@.len() == 4);
        assert("fig-cap"@[0] == 'f');
        assert(crate::reader::cell_option_step(o, "echo"@, "false"@) == (o.0.push(tag), o.1, o.2));
    } else if tag == "remove-output"@ {
        reveal_strlit("#| output: false");
        assert("#| output: false"@ =~= seq!['#', '|', ' '] + "output"@ + seq![':', ' '] + "false"@);
        crate::reader::lemma_option_line_reads_back("output"@, "false"@);
        assert(spec_tag_option(tag) == Some("#| output: false"@));
        assert("output"@[0] == 'o' && "output"@.len() == 6);
        assert("fig-cap"@[0] == 'f');
        assert(crate::reader::cell_option_step(o, "output"@, "false"@) == (o.0.push(tag), o.1, o.2));
    } else if tag == "remove-cell"@ {
        reveal_strlit("#| include: false");
        assert("#| include: false"@ =~= seq!['#', '|', ' '] + "include"@ + seq![':', ' '] + "false"@);
        crate::reader::lemma_option_line_reads_back("include"@, "false"@);
        assert(spec_tag_option(tag) == Some("#| include: false"@));
        assert("include"@[0] == 'i' && "include"@.len() == 7);
        assert("fig-cap"@[0] == 'f');
        assert(crate::reader::cell_option_step(o, "include"@, "false"@) == (o.0.push(tag), o.1, o.2));
    } else if tag == "hide-input"@ {
        reveal_strlit("#| code-fold: true");
        assert("#| code-fold: true"@ =~= seq!['#', '|', ' '] + "code-fold"@ + seq![':', ' '] + "true"@);
        crate::reader::lemma_option_line_reads_back("code-fold"@, "true"@);
        assert(spec_tag_option(tag) == Some("#| code-fold: true"@));
        assert("code-fold"@[0] == 'c' && "code-fold"@.len() == 9);
        assert("fig-cap"@[0] == 'f');
        assert(crate::reader::cell_option_step(o, "code-fold"@, "true"@) == (o.0.push(tag), o.1, o.2));
    }
}

/// The lines of a static code block: a Mermaid diagram as an executable
/// `{mermaid}` block, anything else as `{.lang key="value" …}` (`text` when
/// no language is given).
pub open spec fn static_code_lines(lang: Option<Seq<char>>, body: Seq<Seq<char>>, attrs: EntriesView) -> Seq<Seq<char>> {
    if lang == Some("mermaid"@) {
        seq!["```{mermaid}"@] + body + seq!["```"@]
    } else {
        seq![
            "```{."@ + match lang {
                Some(l) => l,
                None => "text"@,
            } + attr_text(attrs, false) + "}"@,
        ] + body + seq!["```"@]
    }
}

fn static_code(lang: &Option<String>, body: &Vec<String>, attrs: &Attrs) -> (r: Vec<String>)
    ensures
        strs(r@) == static_code_lines(opt_seq(*lang), strs(body@), attrs@),
{
    let mut out: Vec<String> = Vec::new();
    let is_mermaid = match lang {
        Some(l) => str_eq(l.as_str(), "mermaid"),
        None => false,
    };
    assert(is_mermaid == (opt_seq(*lang) == Some("mermaid"@)));
    if is_mermaid {
        push_line(&mut out, String::from_str("```{mermaid}"));
        extend_lines(&mut out, body.as_slice());
        push_line(&mut out, String::from_str("```"));
        assert(strs(out@) =~= seq!["```{mermaid}"@] + strs(body@) + seq!["```"@]);
        return out;
    }
    let mut open = chars_of("```{.");
    match lang {
        Some(l) => push_all(&mut open, &chars_of(l.as_str())),
        None => push_all(&mut open, &chars_of("text")),
    }
    let ghost start = open@;
    assert(start =~= "```{."@ + match opt_seq(*lang) {
        Some(l) => l,
        None => "text"@,
    });
    let entries = attrs.entries();
    let ghost es = attrs@;
    let mut k: usize = 0;
    while k < entries.len()
        invariant
            k <= entries@.len(),
            es == attrs@,
            entries@.map_values(|e: (String, String)| (e.0@, e.1@)) == es,
            open@ == start + attr_text(es.subrange(0, k as int), false),
        decreases entries.len() - k,
    {
        assert(es.subrange(0, k + 1).drop_last() =~= es.subrange(0, k as int));
        assert(es[k as int] == (entries@[k as int].0@, entries@[k as int].1@));
        push_all(&mut open, &chars_of(" "));
        push_all(&mut open, &chars_of(entries[k].0.as_str()));
        push_all(&mut open, &chars_of("=\""));
        push_all(&mut open, &chars_of(entries[k].1.as_str()));
        push_all(&mut open, &chars_of("\""));
        assert(open@ =~= start + attr_text(es.subrange(0, k + 1), false));
        k = k + 1;
    }
    assert(es.subrange(0, k as int) =~= es);
    open.push('}');
    proof { reveal_strlit("}"); }
    assert(open@ =~= "```{."@ + match opt_seq(*lang) {
        Some(l) => l,
        None => "text"@,
    } + attr_text(attrs@, false) + "}"@);
    push_line(&mut out, string_of(&open));
    extend_lines(&mut out, body.as_slice());
    push_line(&mut out, String::from_str("```"));
    assert(strs(out@) =~= seq![open@] + strs(body@) + seq!["```"@]);
    out
}

/// `{{< include _stem.qmd >}}` for an include target, `stem` being its
/// file stem with a leading `_` removed, in the target's directory.
pub open spec fn include_line(target: Seq<char>) -> Seq<char> {
    "{{< include "@ + crate::writer::beside(target, "_"@ + crate::writer::include_stem(target) + ".qmd"@) + " >}}"@
}

/// The include shortcode for `target`.
pub fn include_shortcode(target: &str) -> (r: String)
    ensures
        r@ == include_line(target@),
{
    let stem = crate::writer::include_stem_exec(target);
    let name = cat3("_", stem.as_str(), ".qmd");
    let path = crate::writer::beside_exec(target, name);
    cat3("{{< include ", path.as_str(), " >}}")
}

/// A raw block: `` ```{=format} ``.
fn raw(format: &str, body: &Vec<String>) -> (r: Vec<String>)
    ensures
        strs(r@) == seq!["```{="@ + format@ + "}"@] + strs(body@) + seq!["```"@],
{
    let mut out: Vec<String> = Vec::new();
    push_line(&mut out, cat3("```{=", format, "}"));
    extend_lines(&mut out, body.as_slice());
    push_line(&mut out, String::from_str("```"));
    out
}

/// A construct kept as text: the note as a comment, then the original
/// lines in a `text` fence.
fn preserved(note: &str, original: &Vec<String>) -> (r: Vec<String>)
    ensures
        strs(r@) == seq!["<!-- mystquarto: "@ + note@ + " -->"@, "```text"@] + strs(original@) + seq!["```"@],
{
    let mut out: Vec<String> = Vec::new();
    push_line(&mut out, cat3("<!-- mystquarto: ", note, " -->"));
    push_line(&mut out, String::from_str("```text"));
    extend_lines(&mut out, original.as_slice());
    push_line(&mut out, String::from_str("```"));
    out
}

/// `<abbr>` markup for an `{abbr}` role: `TERM (expansion)` gives the
/// expansion as its title; anything else is the whole text.
pub open spec fn spec_abbr(target: Seq<char>) -> Seq<char> {
    let open = crate::text::first_of(target, 0, '(');
    if open < target.len() {
        let term = crate::text::trim(target.subrange(0, open));
        let rest = target.subrange(open + 1, target.len() as int);
        let expansion = crate::text::trim(crate::reader::quarto::trim_end_char(rest, ')'));
        "<abbr title=\""@ + replace_all(spec_escape_html_text(expansion), "\""@, "&quot;"@) + "\">"@
            + spec_escape_html_text(term) + "</abbr>"@
    } else {
        "<abbr>"@ + spec_escape_html_text(target) + "</abbr>"@
    }
}

fn render_abbr(target: &str) -> (r: String)
    ensures
        r@ == spec_abbr(target@),
{
    let tv = chars_of(target);
    let open = find_char(&tv, 0, '(');
    proof { crate::text::lemma_first_of(tv@, 0, '('); }
    if open < tv.len() {
        let term = trim_chars(&slice_chars(&tv, 0, open));
        let rest = slice_chars(&tv, open + 1, tv.len());
        let mut b = rest.len();
        assert(rest@.subrange(0, rest@.len() as int) =~= rest@);
        while b > 0 && rest[b - 1] == ')'
            invariant
                b <= rest@.len(),
                crate::reader::quarto::trim_end_char(rest@.subrange(0, b as int), ')') == crate::reader::quarto::trim_end_char(rest@, ')'),
            decreases b,
        {
            assert(rest@.subrange(0, b as int).drop_last() =~= rest@.subrange(0, b - 1));
            b = b - 1;
        }
        let expansion = trim_chars(&slice_chars(&rest, 0, b));
        let attr = escape_html_attr(string_of(&expansion).as_str());
        let text = escape_html_text(string_of(&term).as_str());
        return cat5("<abbr title=\"", attr.as_str(), "\">", text.as_str(), "</abbr>");
    }
    cat3("<abbr>", escape_html_text(target).as_str(), "</abbr>")
}

/// The Quarto form of a `{role}`target`` form written in `source`; an
/// unrecognized role is kept as written.
pub open spec fn spec_quarto_role(reg: LabelRegistry, source: Seq<char>, role: Seq<char>, target: Seq<char>) -> Seq<char> {
    if role == "cite"@ || role == "cite:p"@ {
        "[@"@ + target + "]"@
    } else if role == "cite:t"@ {
        "@"@ + target
    } else if role == "numref"@ || role == "ref"@ {
        "@"@ + spec_resolve(reg, source, target)
    } else if role == "eq"@ {
        "@"@ + if crate::text::has_at(target, 0, "eq-"@) || crate::text::has_at(target, 0, "eq:"@) {
            spec_resolve(reg, source, target)
        } else {
            spec_resolve(reg, source, "eq:"@ + target)
        }
    } else if role == "doc"@ {
        "["@ + target + "]("@ + crate::writer::myst::strip_suffix(target, ".md"@) + ".qmd)"@
    } else if role == "eval"@ {
        "`{python} "@ + target + "`"@
    } else if role == "del"@ || role == "strike"@ {
        "~~"@ + target + "~~"@
    } else if role == "u"@ || role == "underline"@ {
        "["@ + target + "]{.underline}"@
    } else if role == "sc"@ || role == "smallcaps"@ {
        "["@ + target + "]{.smallcaps}"@
    } else if role == "sub"@ {
        "~"@ + target + "~"@
    } else if role == "sup"@ {
        "^"@ + target + "^"@
    } else if role == "kbd"@ {
        "["@ + target + "]{.kbd}"@
    } else if role == "abbr"@ {
        spec_abbr(target)
    } else {
        "{"@ + role + "}`"@ + target + "`"@
    }
}

/// The Quarto form of an inline event written in `source` (`None` keeps a
/// citation as written).
pub open spec fn spec_quarto_event(reg: LabelRegistry, source: Seq<char>, ev: EventView) -> Option<Seq<char>> {
    match ev {
        EventView::Citation(_) => None,
        EventView::CrossReference(key) => Some("@"@ + spec_resolve(reg, source, key)),
        EventView::LegacyRole(role, target) => Some(spec_quarto_role(reg, source, role, target)),
        EventView::JupyterEval(engine, expr) => Some("`{"@ + engine + "} "@ + expr + "`"@),
        EventView::KnitrEval(expr) => Some("`r "@ + expr + "`"@),
    }
}

/// The labels a Quarto writer reads as cross-references.
pub open spec fn quarto_known(reg: LabelRegistry) -> Seq<Seq<char>> {
    crate::writer::label_keys(reg.forward_view(), reg.forward_view().len() as int).map_values(
        |e: (Seq<char>, Seq<char>)| e.0,
    )
}

/// The id `reg` gives a block's label in `source`, when it has a label the
/// registry knows.
pub open spec fn label_id(reg: LabelRegistry, source: Seq<char>, label: Option<Label>) -> Option<Seq<char>> {
    match label {
        Some(l) => forward_get(reg.forward_view(), source, l.raw@),
        None => None,
    }
}

/// `n` `#` characters.
pub open spec fn hashes(n: nat) -> Seq<char> {
    Seq::new(n, |_i: int| '#')
}

/// Lines joined with single spaces.
pub open spec fn spaced(v: Seq<Seq<char>>) -> Seq<char>
    decreases v.len(),
{
    if v.len() == 0 {
        Seq::empty()
    } else if v.len() == 1 {
        v[0]
    } else {
        spaced(v.drop_last()) + " "@ + v.last()
    }
}

/// ` key="value"` for each entry in order, the values escaped for a
/// double-quoted attribute when `escape` is set.
pub open spec fn attr_text(es: EntriesView, escape: bool) -> Seq<char>
    decreases es.len(),
{
    if es.len() == 0 {
        Seq::empty()
    } else {
        attr_text(es.drop_last(), escape) + " "@ + es.last().0 + "=\""@ + (if escape {
            spec_escape_quoted(es.last().1)
        } else {
            es.last().1
        }) + "\""@
    }
}

/// The `(notebook, id)` an embed points at: for a notebook cell, the
/// notebook and the cell's output id; for a plain label, no notebook and the
/// label resolved in `source`.
pub open spec fn embed_parts(reg: LabelRegistry, source: Seq<char>, target: EmbedTarget, own: Option<Seq<char>>) -> (Seq<char>, Seq<char>) {
    match target {
        EmbedTarget::NotebookCell { notebook, cell_label } => (notebook@, spec_embed_id(cell_label.raw@, own)),
        EmbedTarget::Label(l) => (Seq::empty(), spec_resolve(reg, source, l.raw@)),
    }
}

/// `{{< embed notebook#id >}}`.
pub open spec fn embed_line(notebook: Seq<char>, id: Seq<char>) -> Seq<char> {
    "{{< embed "@ + notebook + "#"@ + id + " >}}"@
}

/// A heading line: its level's `#`s, its text and, when the label has an
/// id, ` {#id}`.
pub open spec fn heading_line(level: nat, text: Seq<char>, id: Option<Seq<char>>) -> Seq<char> {
    hashes(level) + " "@ + text + match id {
        Some(i) => " {#"@ + i + "}"@,
        None => Seq::empty(),
    }
}

/// The caption line of a table: `: caption {#id}`, or `: caption`, or none
/// for an empty caption without an id.
pub open spec fn table_caption(caption: Seq<char>, id: Option<Seq<char>>) -> Seq<Seq<char>> {
    match id {
        Some(i) => seq![": "@ + caption + " {#"@ + i + "}"@],
        None => if caption.len() > 0 {
            seq![": "@ + caption]
        } else {
            Seq::empty()
        },
    }
}

/// The closing line of a display-math block.
pub open spec fn math_close(id: Option<Seq<char>>) -> Seq<char> {
    match id {
        Some(i) => "$$ {#"@ + i + "}"@,
        None => "$$"@,
    }
}

/// The cell-option lines that MyST tags become, in order; tags without a
/// Quarto counterpart give none.
pub open spec fn tag_lines(tags: Seq<Seq<char>>) -> Seq<Seq<char>>
    decreases tags.len(),
{
    if tags.len() == 0 {
        Seq::empty()
    } else {
        tag_lines(tags.drop_last()) + match spec_tag_option(tags.last()) {
            Some(o) => seq![o],
            None => Seq::empty(),
        }
    }
}

/// `#| key: value` for each other cell option, in order.
pub open spec fn option_lines(es: EntriesView) -> Seq<Seq<char>>
    decreases es.len(),
{
    if es.len() == 0 {
        Seq::empty()
    } else {
        option_lines(es.drop_last()).push("#| "@ + es.last().0 + ": "@ + es.last().1)
    }
}

/// The lines of an executable code cell: the `{lang}` fence (`ipython3`
/// read as `python`), the label's id, the tags' options, the caption, the
/// other options, the code and the closing fence.
pub open spec fn code_cell_lines(
    lang: Seq<char>,
    tags: Seq<Seq<char>>,
    caption: Option<Seq<char>>,
    extra: EntriesView,
    body: Seq<Seq<char>>,
    id: Option<Seq<char>>,
) -> Seq<Seq<char>> {
    seq!["```{"@ + (if lang == "ipython3"@ {
        "python"@
    } else {
        lang
    }) + "}"@] + match id {
        Some(i) => seq!["#| label: "@ + i],
        None => Seq::empty(),
    } + tag_lines(tags) + match caption {
        Some(c) => seq!["#| fig-cap: \""@ + spec_escape_quoted(c) + "\""@],
        None => Seq::empty(),
    } + option_lines(extra) + body + seq!["```"@]
}

/// The `{…}` attribute block of a one-line figure: `#id` then
/// `key="value"` pairs, space-separated; empty when there is neither.
pub open spec fn figure_attrs(id: Option<Seq<char>>, attrs: EntriesView) -> Seq<char> {
    let pairs = attr_text(attrs, true);
    match id {
        Some(i) => "{#"@ + i + pairs + "}"@,
        None => if attrs.len() > 0 {
            "{"@ + pairs.subrange(1, pairs.len() as int) + "}"@
        } else {
            Seq::empty()
        },
    }
}

/// The lines of an image figure whose caption lines are `caption` (already
/// in Quarto form): a one-line `![caption](path){…}`, or for a caption of
/// several lines a `:::` div holding the image and the caption.
pub open spec fn path_figure_lines(
    path: Seq<char>,
    caption: Seq<Seq<char>>,
    attrs: EntriesView,
    id: Option<Seq<char>>,
) -> Seq<Seq<char>> {
    if caption.len() > 1 {
        seq![
            match id {
                Some(i) => "::: {#"@ + i + "}"@,
                None => "::: {}"@,
            },
            "![]("@ + path + ")"@,
            Seq::empty(),
        ] + caption + seq![":::"@]
    } else {
        seq!["!["@ + spaced(caption) + "]("@ + path + ")"@ + figure_attrs(id, attrs)]
    }
}

/// The opening line of an admonition: its callout class, then its title
/// and collapse setting when it has them.
pub open spec fn admonition_header(kind: AdmonitionKind, title: Option<Seq<char>>, collapse: Option<bool>) -> Seq<char> {
    "::: {."@ + spec_admonition_class(kind) + match title {
        Some(t) => " title=\""@ + spec_escape_quoted(t) + "\""@,
        None => Seq::empty(),
    } + match collapse {
        Some(c) => if c {
            " collapse=\"true\""@
        } else {
            " collapse=\"false\""@
        },
        None => Seq::empty(),
    } + "}"@
}

/// The opening line of a theorem-like div.
pub open spec fn theorem_header(thm_type: Seq<char>, id: Option<Seq<char>>) -> Seq<char> {
    match id {
        Some(i) => "::: {#"@ + i + " ."@ + thm_type + "}"@,
        None => "::: {."@ + thm_type + "}"@,
    }
}

/// The opening line of a div for a directive with no Quarto counterpart:
/// its id, its name as a class, then its options as attributes.
pub open spec fn directive_header(name: Seq<char>, attrs: EntriesView, id: Option<Seq<char>>) -> Seq<char> {
    "::: {"@ + match id {
        Some(i) => "#"@ + i + " "@,
        None => Seq::empty(),
    } + "."@ + name + attr_text(attrs, true) + "}"@
}

/// Nested blocks paired with their rendered lines.
pub open spec fn nested_view(body: Seq<Block>, outs: Seq<Seq<String>>) -> Seq<(u8, Seq<Seq<char>>)> {
    Seq::new(body.len(), |k: int| (body[k].blank_lines_before, strs(outs[k])))
}

/// Each line with `p` in front of it.
pub open spec fn prefixed(lines: Seq<Seq<char>>, p: Seq<char>) -> Seq<Seq<char>> {
    lines.map_values(|l: Seq<char>| p + l)
}

/// The lines of a tab set's tabs, each a `## label` line then its blocks'
/// lines (`ns`).
pub open spec fn tabs_text(items: Seq<TabItem>, ns: Seq<Seq<Seq<char>>>) -> Seq<Seq<char>>
    decreases items.len(),
{
    if items.len() == 0 || ns.len() != items.len() {
        Seq::empty()
    } else {
        tabs_text(items.drop_last(), ns.drop_last()) + seq!["## "@ + items.last().label@] + ns.last()
    }
}

/// Renders documents as Quarto, resolving labels through one registry.
pub struct QuartoWriter {
    registry: LabelRegistry,
    known_labels: Vec<String>,
}

impl QuartoWriter {
    /// A writer whose labels go through `registry`.
    pub fn new(registry: LabelRegistry) -> (w: QuartoWriter)
        ensures
            w.registry_view() == registry,
            w.known_view() == quarto_known(registry),
    {
        let known_labels = known_reference_labels(&registry);
        QuartoWriter { registry, known_labels }
    }

    /// The registry labels go through.
    pub closed spec fn registry_view(&self) -> LabelRegistry {
        self.registry
    }

    /// The labels read as cross-references.
    pub closed spec fn known_view(&self) -> Seq<Seq<char>> {
        strs(self.known_labels@)
    }

    /// The inline rendering of this writer for a text written in `source`.
    pub open spec fn event_render(&self, source: Seq<char>) -> spec_fn(EventView) -> Option<Seq<char>> {
        |ev: EventView| spec_quarto_event(self.registry_view(), source, ev)
    }

    /// Lines with their inline constructs in Quarto form.
    pub open spec fn rw(&self, source: Seq<char>, lines: Seq<Seq<char>>) -> Seq<Seq<char>> {
        lines.map_values(|l: Seq<char>| rewritten(l, self.known_view(), self.event_render(source)))
    }

    /// The registry labels go through.
    pub fn registry(&self) -> (r: &LabelRegistry)
        ensures
            *r == self.registry_view(),
    {
        &self.registry
    }

    /// `text` is what writing `doc` gives: its frontmatter text between
    /// `---` lines, then each block's lines after its blank lines, ending in
    /// a newline.
    pub open spec fn writes(&self, doc: Document, text: Seq<char>) -> bool {
        exists|outs: Seq<Seq<String>>|
            {
                &&& outs.len() == doc.blocks@.len()
                &&& forall|k: int|
                    0 <= k < outs.len() ==> self.quarto_block(doc.source@, doc.blocks@[k], #[trigger] outs[k])
                &&& text == crate::writer::newline_ended(
                    crate::writer::laid_out(
                        match doc.frontmatter {
                            Some(fm) => "---\n"@ + fm.raw@ + "---\n"@,
                            None => Seq::empty(),
                        },
                        nested_view(doc.blocks@, outs),
                        doc.frontmatter is Some,
                    ),
                )
            }
    }

    /// Renders a document: its frontmatter text verbatim between `---`
    /// lines, one blank line, then the blocks with their blank lines, ending
    /// in a newline.
    pub fn write(&self, doc: &Document) -> (r: String)
        ensures
            r@.len() > 0 && r@.last() == '\n',
            doc.frontmatter is None && doc.blocks@.len() == 0 ==> r@ == seq!['\n'],
            match doc.frontmatter {
                Some(fm) => r@.len() >= fm.raw@.len() + 8
                    && r@.subrange(0, fm.raw@.len() + 8 as int) == "---\n"@ + fm.raw@ + "---\n"@,
                None => true,
            },
            self.writes(*doc, r@),
    {
        let mut out: Vec<char> = Vec::new();
        let has_fm = doc.frontmatter.is_some();
        match &doc.frontmatter {
            Some(fm) => {
                push_all(&mut out, &chars_of("---\n"));
                push_all(&mut out, &chars_of(fm.raw.as_str()));
                push_all(&mut out, &chars_of("---\n"));
            },
            None => {},
        }
        let ghost head = out@;
        proof { reveal_strlit("---\n"); }
        assert(head == match doc.frontmatter {
            Some(fm) => "---\n"@ + fm.raw@ + "---\n"@,
            None => Seq::<char>::empty(),
        });
        let ghost mut outs: Seq<Seq<String>> = Seq::empty();
        let mut i: usize = 0;
        while i < doc.blocks.len()
            invariant
                i <= doc.blocks@.len(),
                has_fm == doc.frontmatter is Some,
                out@.len() >= head.len(),
                out@.subrange(0, head.len() as int) == head,
                i == 0 ==> out@ == head,
                outs.len() == i,
                forall|k: int| 0 <= k < i ==> self.quarto_block(doc.source@, doc.blocks@[k], #[trigger] outs[k]),
                out@ == crate::writer::laid_out(head, nested_view(doc.blocks@.subrange(0, i as int), outs), has_fm),
            decreases doc.blocks.len() - i,
        {
            let block = &doc.blocks[i];
            push_spacing(&mut out, block.blank_lines_before, i == 0 && !has_fm);
            if has_fm && i == 0 {
                out.push('\n');
            }
            let rendered = self.render_block(block, doc.source.as_str());
            push_all(&mut out, &chars_of(join_lines(rendered.as_slice()).as_str()));
            assert(out@.subrange(0, head.len() as int) =~= head);
            proof {
                let prev_view = nested_view(doc.blocks@.subrange(0, i as int), outs);
                outs = outs.push(rendered@);
                let nv = nested_view(doc.blocks@.subrange(0, i + 1), outs);
                assert(nv.drop_last() =~= prev_view);
                assert(nv.last() == (doc.blocks@[i as int].blank_lines_before, strs(rendered@)));
            }
            i = i + 1;
        }
        assert(doc.blocks@.subrange(0, i as int) =~= doc.blocks@);
        if out.len() == 0 || out[out.len() - 1] != '\n' {
            out.push('\n');
        }
        assert(out@.subrange(0, head.len() as int) =~= head);
        let r = string_of(&out);
        assert(self.writes(*doc, r@));
        r
    }

    fn rewrite(&self, lines: &Vec<String>, source: &str) -> (r: Vec<String>)
        ensures
            r@.len() == lines@.len(),
            strs(r@) == self.rw(source@, strs(lines@)),
    {
        let ghost f = self.event_render(source@);
        let mut out: Vec<String> = Vec::new();
        let mut k: usize = 0;
        while k < lines.len()
            invariant
                k <= lines@.len(),
                f == self.event_render(source@),
                strs(out@) == strs(lines@).subrange(0, k as int).map_values(|l: Seq<char>| rewritten(l, self.known_view(), f)),
            decreases lines.len() - k,
        {
            let render = |e: InlineEvent| -> (o: Option<String>)
                ensures
                    opt_seq(o) == spec_quarto_event(self.registry_view(), source@, e@),
                { self.render_event(e, source) };
            let line = rewrite_with(lines[k].as_str(), self.known_labels.as_slice(), render, Ghost(f));
            let ghost before = strs(out@);
            out.push(line);
            assert(strs(out@) =~= before.push(rewritten(lines@[k as int]@, self.known_view(), f)));
            assert(strs(lines@).subrange(0, k + 1) =~= strs(lines@).subrange(0, k as int).push(lines@[k as int]@));
            k = k + 1;
        }
        assert(strs(lines@).subrange(0, k as int) =~= strs(lines@));
        assert(strs(out@).len() == out@.len());
        out
    }

    fn joined_rewrite(&self, lines: &Vec<String>, source: &str) -> (r: String)
        ensures
            r@ == spaced(self.rw(source@, strs(lines@))),
    {
        let rewritten = self.rewrite(lines, source);
        let ghost w = strs(rewritten@);
        let mut v: Vec<char> = Vec::new();
        let mut k: usize = 0;
        while k < rewritten.len()
            invariant
                k <= rewritten@.len(),
                w == strs(rewritten@),
                v@ == spaced(w.subrange(0, k as int)),
            decreases rewritten.len() - k,
        {
            assert(w.subrange(0, k + 1).drop_last() =~= w.subrange(0, k as int));
            if k > 0 {
                v.push(' ');
            }
            push_all(&mut v, &chars_of(rewritten[k].as_str()));
            proof {
                reveal_strlit(" ");
                if k == 0 {
                    assert(v@ =~= w.subrange(0, 1)[0]);
                } else {
                    assert(v@ =~= spaced(w.subrange(0, k as int)) + " "@ + w[k as int]);
                }
            }
            k = k + 1;
        }
        assert(w.subrange(0, k as int) =~= w);
        string_of(&v)
    }

    /// The Quarto form of one inline construct.
    fn render_event(&self, event: InlineEvent, source: &str) -> (r: Option<String>)
        ensures
            opt_seq(r) == spec_quarto_event(self.registry_view(), source@, event@),
    {
        match event {
            InlineEvent::Citation(_) => None,
            InlineEvent::CrossReference(key) => {
                let id = self.registry.resolve_reference(source, key.as_str());
                Some(cat2("@", id.as_str()))
            },
            InlineEvent::LegacyRole { role, target } => Some(self.render_role(role.as_str(), target.as_str(), source)),
            InlineEvent::JupyterEval { engine, expr } => Some(cat5("`{", engine.as_str(), "} ", expr.as_str(), "`")),
            InlineEvent::KnitrEval(expr) => Some(cat3("`r ", expr.as_str(), "`")),
        }
    }

    /// Renders a `{role}`target`` form to its Quarto equivalent; an
    /// unrecognized role is kept as written.
    fn render_role(&self, role: &str, target: &str, source: &str) -> (r: String)
        ensures
            r@ == spec_quarto_role(self.registry_view(), source@, role@, target@),
    {
        proof {
            reveal_strlit("eq-");
            reveal_strlit("eq:");
            reveal_strlit(".md");
        }
        if str_eq(role, "cite") || str_eq(role, "cite:p") {
            cat3("[@", target, "]")
        } else if str_eq(role, "cite:t") {
            cat2("@", target)
        } else if str_eq(role, "numref") || str_eq(role, "ref") {
            cat2("@", self.registry.resolve_reference(source, target).as_str())
        } else if str_eq(role, "eq") {
            let tv = chars_of(target);
            let id = if has_at_exec(&tv, 0, &chars_of("eq-")) || has_at_exec(&tv, 0, &chars_of("eq:")) {
                self.registry.resolve_reference(source, target)
            } else {
                self.registry.resolve_reference(source, cat2("eq:", target).as_str())
            };
            cat2("@", id.as_str())
        } else if str_eq(role, "doc") {
            let tv = chars_of(target);
            let suffix = chars_of(".md");
            let stem = if tv.len() >= suffix.len() && has_at_exec(&tv, tv.len() - suffix.len(), &suffix) {
                string_of(&slice_chars(&tv, 0, tv.len() - suffix.len()))
            } else {
                String::from_str(target)
            };
            cat5("[", target, "](", stem.as_str(), ".qmd)")
        } else if str_eq(role, "eval") {
            cat3("`{python} ", target, "`")
        } else if str_eq(role, "del") || str_eq(role, "strike") {
            cat3("~~", target, "~~")
        } else if str_eq(role, "u") || str_eq(role, "underline") {
            cat3("[", target, "]{.underline}")
        } else if str_eq(role, "sc") || str_eq(role, "smallcaps") {
            cat3("[", target, "]{.smallcaps}")
        } else if str_eq(role, "sub") {
            cat3("~", target, "~")
        } else if str_eq(role, "sup") {
            cat3("^", target, "^")
        } else if str_eq(role, "kbd") {
            cat3("[", target, "]{.kbd}")
        } else if str_eq(role, "abbr") {
            render_abbr(target)
        } else {
            cat5("{", role, "}`", target, "`")
        }
    }

    fn quarto_id(&self, source: &str, label: &Option<Label>) -> (r: Option<String>)
        ensures
            opt_seq(r) == label_id(self.registry_view(), source@, *label),
    {
        match label {
            Some(l) => match self.registry.quarto_id(source, l) {
                Some(id) => Some(String::from_str(id)),
                None => None,
            },
            None => None,
        }
    }

    /// `lines` are what rendering the nested blocks `body` gives: each
    /// block's lines, after its blank lines.
    pub open spec fn nested_lines(&self, source: Seq<char>, body: Seq<Block>, lines: Seq<Seq<char>>) -> bool
        decreases body, 0int,
    {
        exists|outs: Seq<Seq<String>>|
            {
                &&& outs.len() == body.len()
                &&& forall|k: int| 0 <= k < outs.len() ==> self.quarto_block(source, body[k], #[trigger] outs[k])
                &&& lines == crate::reader::lines::lines_of(body_text(nested_view(body, outs)))
            }
    }

    /// `r` is a `:::` div: `header`, the nested blocks' lines, then `:::`.
    pub open spec fn div_of(&self, source: Seq<char>, header: Seq<char>, body: Seq<Block>, r: Seq<String>) -> bool
        decreases body, 1int,
    {
        &&& r.len() >= 2
        &&& r[0]@ == header
        &&& r.last()@ == ":::"@
        &&& self.nested_lines(source, body, strs(r).subrange(1, r.len() - 1))
    }

    /// `r` is a blockquote: the nested blocks' lines after `> `, then the
    /// attribution lines after `> — `.
    pub open spec fn quote_of(&self, source: Seq<char>, body: Seq<Block>, attribution: Option<Vec<String>>, r: Seq<String>) -> bool
        decreases body, 1int,
    {
        exists|n: Seq<Seq<char>>|
            self.nested_lines(source, body, n) && strs(r) == #[trigger] prefixed(n, "> "@) + match attribution {
                Some(a) => prefixed(strs(a@), "> \u{2014} "@),
                None => Seq::empty(),
            }
    }

    /// `r` is a tab set: `::: {.panel-tabset}`, then for each tab a `## label`
    /// line and its blocks' lines, then `:::`.
    pub open spec fn tabs_of(&self, source: Seq<char>, items: Seq<TabItem>, r: Seq<String>) -> bool
        decreases items, 1int,
    {
        &&& r.len() >= 2
        &&& r[0]@ == "::: {.panel-tabset}"@
        &&& r.last()@ == ":::"@
        &&& exists|ns: Seq<Seq<Seq<char>>>|
            {
                &&& ns.len() == items.len()
                &&& forall|k: int| 0 <= k < items.len() ==> self.nested_lines(source, items[k].body@, #[trigger] ns[k])
                &&& strs(r).subrange(1, r.len() - 1) == #[trigger] tabs_text(items, ns)
            }
    }

    /// What rendering `block` written in `source` gives, as lines.
    pub open spec fn quarto_block(&self, source: Seq<char>, block: Block, r: Seq<String>) -> bool
        decreases block, 0int,
    {
        &&& (block.kind matches BlockKind::Heading { level, text, label } ==> strs(r) == seq![
                heading_line(
                    level as nat,
                    rewritten(text@, self.known_view(), self.event_render(source)),
                    label_id(self.registry_view(), source, label),
                ),
            ])
        &&& (block.kind matches BlockKind::Paragraph { lines } ==> strs(r) == self.rw(source, strs(lines@)))
        &&& (block.kind matches BlockKind::Table { caption, rows, label } ==> strs(r) == strs(rows@) + table_caption(
                spaced(self.rw(source, strs(caption@))),
                label_id(self.registry_view(), source, label),
            ))
        &&& (block.kind matches BlockKind::Math { body, label } ==> strs(r) == seq!["$$"@] + strs(body@) + seq![
                math_close(label_id(self.registry_view(), source, label)),
            ])
        &&& (block.kind matches BlockKind::Include { target, .. } ==> strs(r) == seq![include_line(target@)])
        &&& (block.kind matches BlockKind::Admonition { kind, title, collapse, body } ==> self.div_of(
                source,
                admonition_header(kind, opt_seq(title), collapse),
                body@,
                r,
            ))
        &&& (block.kind matches BlockKind::Blockquote { body, attribution } ==> self.quote_of(source, body@, attribution, r))
        &&& (block.kind matches BlockKind::Margin { body } ==> self.div_of(source, "::: {.column-margin}"@, body@, r))
        &&& (block.kind matches BlockKind::TabSet { items } ==> self.tabs_of(source, items@, r))
        &&& (block.kind matches BlockKind::Theorem { thm_type, label, body } ==> self.div_of(
                source,
                theorem_header(thm_type@, label_id(self.registry_view(), source, label)),
                body@,
                r,
            ))
        &&& (block.kind matches BlockKind::Directive { name, attrs, label, body } ==> if name@ == "bibliography"@ || name@
                == "tableofcontents"@ {
                r.len() == 0
            } else {
                self.div_of(source, directive_header(name@, attrs@, label_id(self.registry_view(), source, label)), body@, r)
            })
        &&& (block.kind matches BlockKind::Preserved { original, code } ==> strs(r) == seq![
                "<!-- mystquarto: preserved ("@ + code@ + "); full sidecar recovery lands in Phase 7 -->"@,
                "```text"@,
            ] + strs(original@) + seq!["```"@])
        &&& (block.kind matches BlockKind::Figure { src, caption, label, attrs } ==> match src {
                FigureSource::CellRef { label: cell_label, notebook } => strs(r) == seq![
                    embed_line(
                        match notebook {
                            Some(p) => p@,
                            None => Seq::empty(),
                        },
                        spec_embed_id(cell_label.raw@, label_id(self.registry_view(), source, label)),
                    ),
                ],
                FigureSource::Path(path) => strs(r) == path_figure_lines(
                    path@,
                    self.rw(source, strs(caption@)),
                    attrs@,
                    label_id(self.registry_view(), source, label),
                ),
            })
        &&& (block.kind matches BlockKind::CodeCell { lang, options, body, label } ==> strs(r) == code_cell_lines(
                lang@,
                strs(options.tags@),
                opt_seq(options.caption),
                options.extra@,
                strs(body@),
                label_id(self.registry_view(), source, label),
            ))
        &&& (block.kind matches BlockKind::StaticCode { lang, body, attrs } ==> strs(r) == static_code_lines(
                opt_seq(lang),
                strs(body@),
                attrs@,
            ))
        &&& (block.kind matches BlockKind::Embed { target, label } ==> strs(r) == seq![
                embed_line(
                    embed_parts(self.registry_view(), source, target, label_id(self.registry_view(), source, label)).0,
                    embed_parts(self.registry_view(), source, target, label_id(self.registry_view(), source, label)).1,
                ),
            ])
        &&& (block.kind is Target ==> r.len() == 0)
        &&& (block.kind is BlockBreak ==> strs(r) == seq!["<!-- mystquarto: MyST block break (+++) has no Quarto equivalent -->"@])
        &&& (block.kind matches BlockKind::Comment { text, .. } ==> strs(r) == seq!["<!-- "@ + text@ + " -->"@])
        &&& (block.kind matches BlockKind::Raw { format, body } ==> strs(r) == seq!["```{="@ + format@ + "}"@] + strs(
                body@,
            ) + seq!["```"@])
        &&& (block.kind matches BlockKind::Unmappable { original, reason } ==> strs(r) == seq![
                "<!-- mystquarto: "@ + reason@ + " -->"@,
                "```text"@,
            ] + strs(original@) + seq!["```"@])
    }

    /// Renders one block as Quarto lines.
    pub fn render_block(&self, block: &Block, source: &str) -> (r: Vec<String>)
        ensures
            self.quarto_block(source@, *block, r@),
        decreases block, 2int,
    {
        let r = self.render_kind(block, source);
        assert(self.quarto_block(source@, *block, r@));
        r
    }

    /// The lines of one block, by its kind.
    #[verifier::rlimit(60)]
    fn render_kind(&self, block: &Block, source: &str) -> (r: Vec<String>)
        ensures
            block.kind matches BlockKind::Admonition { kind, title, collapse, body } ==> self.div_of(
                source@,
                admonition_header(kind, opt_seq(title), collapse),
                body@,
                r@,
            ),
            block.kind matches BlockKind::Margin { body } ==> self.div_of(source@, "::: {.column-margin}"@, body@, r@),
            block.kind matches BlockKind::Theorem { thm_type, label, body } ==> self.div_of(
                source@,
                theorem_header(thm_type@, label_id(self.registry_view(), source@, label)),
                body@,
                r@,
            ),
            block.kind matches BlockKind::Directive { name, attrs, label, body } ==> !(name@ == "bibliography"@ || name@
                == "tableofcontents"@) ==> self.div_of(
                source@,
                directive_header(name@, attrs@, label_id(self.registry_view(), source@, label)),
                body@,
                r@,
            ),
            block.kind matches BlockKind::Heading { level, text, label } ==> strs(r@) == seq![
                heading_line(
                    level as nat,
                    rewritten(text@, self.known_view(), self.event_render(source@)),
                    label_id(self.registry_view(), source@, label),
                ),
            ],
            block.kind matches BlockKind::Paragraph { lines } ==> strs(r@) == self.rw(source@, strs(lines@)),
            block.kind matches BlockKind::Table { caption, rows, label } ==> strs(r@) == strs(rows@) + table_caption(
                spaced(self.rw(source@, strs(caption@))),
                label_id(self.registry_view(), source@, label),
            ),
            block.kind matches BlockKind::Math { body, label } ==> strs(r@) == seq!["$$"@] + strs(body@) + seq![
                math_close(label_id(self.registry_view(), source@, label)),
            ],
            block.kind matches BlockKind::Include { target, .. } ==> strs(r@) == seq![include_line(target@)],
            block.kind matches BlockKind::Admonition { kind, title, collapse, .. } ==> r@.len() >= 2 && r@[0]@
                == admonition_header(kind, opt_seq(title), collapse) && r@.last()@ == ":::"@,
            block.kind matches BlockKind::Blockquote { body, attribution } ==> self.quote_of(source@, body@, attribution, r@),
            block.kind is Margin ==> r@.len() >= 2 && r@[0]@ == "::: {.column-margin}"@ && r@.last()@ == ":::"@,
            block.kind matches BlockKind::TabSet { items } ==> self.tabs_of(source@, items@, r@),
            block.kind matches BlockKind::Theorem { thm_type, label, .. } ==> r@.len() >= 2 && r@[0]@ == theorem_header(
                thm_type@,
                label_id(self.registry_view(), source@, label),
            ) && r@.last()@ == ":::"@,
            block.kind matches BlockKind::Directive { name, attrs, label, .. } ==> if name@ == "bibliography"@ || name@
                == "tableofcontents"@ {
                r@.len() == 0
            } else {
                r@.len() >= 2 && r@[0]@ == directive_header(name@, attrs@, label_id(self.registry_view(), source@, label))
                    && r@.last()@ == ":::"@
            },
            block.kind matches BlockKind::Preserved { original, code } ==> strs(r@) == seq![
                "<!-- mystquarto: preserved ("@ + code@ + "); full sidecar recovery lands in Phase 7 -->"@,
                "```text"@,
            ] + strs(original@) + seq!["```"@],
            block.kind matches BlockKind::Figure { src, caption, label, attrs } ==> match src {
                FigureSource::CellRef { label: cell_label, notebook } => strs(r@) == seq![
                    embed_line(
                        match notebook {
                            Some(p) => p@,
                            None => Seq::empty(),
                        },
                        spec_embed_id(cell_label.raw@, label_id(self.registry_view(), source@, label)),
                    ),
                ],
                FigureSource::Path(path) => strs(r@) == path_figure_lines(
                    path@,
                    self.rw(source@, strs(caption@)),
                    attrs@,
                    label_id(self.registry_view(), source@, label),
                ),
            },
            block.kind matches BlockKind::CodeCell { lang, options, body, label } ==> strs(r@) == code_cell_lines(
                lang@,
                strs(options.tags@),
                opt_seq(options.caption),
                options.extra@,
                strs(body@),
                label_id(self.registry_view(), source@, label),
            ),
            block.kind matches BlockKind::StaticCode { lang, body, attrs } ==> strs(r@) == static_code_lines(
                opt_seq(lang),
                strs(body@),
                attrs@,
            ),
            block.kind matches BlockKind::Embed { target, label } ==> strs(r@) == seq![
                embed_line(
                    embed_parts(self.registry_view(), source@, target, label_id(self.registry_view(), source@, label)).0,
                    embed_parts(self.registry_view(), source@, target, label_id(self.registry_view(), source@, label)).1,
                ),
            ],
            block.kind is Target ==> r@.len() == 0,
            block.kind is BlockBreak ==> strs(r@) == seq!["<!-- mystquarto: MyST block break (+++) has no Quarto equivalent -->"@],
            block.kind matches BlockKind::Comment { text, .. } ==> strs(r@) == seq!["<!-- "@ + text@ + " -->"@],
            block.kind matches BlockKind::Raw { format, body } ==> strs(r@) == seq!["```{="@ + format@ + "}"@] + strs(
                body@,
            ) + seq!["```"@],
            block.kind matches BlockKind::Unmappable { original, reason } ==> strs(r@) == seq![
                "<!-- mystquarto: "@ + reason@ + " -->"@,
                "```text"@,
            ] + strs(original@) + seq!["```"@],
        decreases block, 1int,
    {
        match &block.kind {
            BlockKind::Heading { level, text, label } => {
                let mut one: Vec<String> = Vec::new();
                one.push(text.clone());
                let head = self.rewrite(&one, source);
                let mut marks: Vec<char> = Vec::new();
                let mut k: u8 = 0;
                while k < *level
                    invariant
                        k <= *level,
                        marks@ == hashes(k as nat),
                    decreases *level - k,
                {
                    marks.push('#');
                    assert(marks@ =~= hashes((k + 1) as nat));
                    k = k + 1;
                }
                assert(strs(one@) =~= seq![text@]);
                assert(strs(head@)[0] == head@[0]@);
                assert(self.rw(source@, seq![text@])[0] == rewritten(text@, self.known_view(), self.event_render(source@)));
                assert(head@[0]@ == rewritten(text@, self.known_view(), self.event_render(source@)));
                let mut out: Vec<String> = Vec::new();
                let ghost want = heading_line(
                    *level as nat,
                    rewritten(text@, self.known_view(), self.event_render(source@)),
                    label_id(self.registry_view(), source@, *label),
                );
                match self.quarto_id(source, label) {
                    Some(id) => {
                        let line = cat5(string_of(&marks).as_str(), " ", head[0].as_str(), " {#", cat2(id.as_str(), "}").as_str());
                        assert(line@ =~= want);
                        push_line(&mut out, line);
                    },
                    None => {
                        let line = cat3(string_of(&marks).as_str(), " ", head[0].as_str());
                        assert(line@ =~= want);
                        push_line(&mut out, line);
                    },
                }
                assert(strs(out@) =~= seq![want]);
                out
            },
            BlockKind::Paragraph { lines } => self.rewrite(lines, source),
            BlockKind::CodeCell { lang, options, body, label } => self.code_cell(lang.as_str(), options, body, label, source),
            BlockKind::StaticCode { lang, body, attrs } => static_code(lang, body, attrs),
            BlockKind::Figure { src, caption, label, attrs } => self.figure(src, caption, label, attrs, source),
            BlockKind::Table { caption, rows, label } => {
                let mut out: Vec<String> = Vec::new();
                extend_lines(&mut out, rows.as_slice());
                let caption_text = self.joined_rewrite(caption, source);
                match self.quarto_id(source, label) {
                    Some(id) => push_line(&mut out, cat5(": ", caption_text.as_str(), " {#", id.as_str(), "}")),
                    None => {
                        if char_len(caption_text.as_str()) > 0 {
                            push_line(&mut out, cat2(": ", caption_text.as_str()));
                        }
                    },
                }
                out
            },
            BlockKind::Math { body, label } => {
                let mut out: Vec<String> = Vec::new();
                push_line(&mut out, String::from_str("$$"));
                extend_lines(&mut out, body.as_slice());
                match self.quarto_id(source, label) {
                    Some(id) => push_line(&mut out, cat3("$$ {#", id.as_str(), "}")),
                    None => push_line(&mut out, String::from_str("$$")),
                }
                out
            },
            BlockKind::Admonition { kind, title, body, collapse } => {
                let mut header = chars_of("::: {.");
                push_all(&mut header, &chars_of(admonition_class(*kind)));
                let ghost base = header@;
                match title {
                    Some(t) => {
                        push_all(&mut header, &chars_of(" title=\""));
                        push_all(&mut header, &chars_of(escape_quoted(t.as_str()).as_str()));
                        push_all(&mut header, &chars_of("\""));
                    },
                    None => {},
                }
                assert(header@ =~= base + match opt_seq(*title) {
                    Some(t) => " title=\""@ + spec_escape_quoted(t) + "\""@,
                    None => Seq::empty(),
                });
                match collapse {
                    Some(c) => push_all(&mut header, &chars_of(if *c { " collapse=\"true\"" } else { " collapse=\"false\"" })),
                    None => {},
                }
                header.push('}');
                proof {
                    reveal_strlit("}");
                    reveal_strlit(" collapse=\"true\"");
                    reveal_strlit(" collapse=\"false\"");
                }
                assert(header@ =~= admonition_header(*kind, opt_seq(*title), *collapse));
                self.fenced_div(string_of(&header), body, source)
            },
            BlockKind::TabSet { items } => self.tab_set(items, source),
            BlockKind::Margin { body } => {
                self.fenced_div(String::from_str("::: {.column-margin}"), body, source)
            },
            BlockKind::Include { target, .. } => {
                let mut out: Vec<String> = Vec::new();
                push_line(&mut out, include_shortcode(target.as_str()));
                out
            },
            BlockKind::Embed { target, label } => {
                let own = self.quarto_id(source, label);
                let (prefix, cell_id) = match target {
                    EmbedTarget::NotebookCell { notebook, cell_label } => {
                        let own_ref = match &own {
                            Some(s) => Some(s.as_str()),
                            None => None,
                        };
                        (notebook.clone(), resolve_embed_id(cell_label, own_ref))
                    },
                    EmbedTarget::Label(l) => (String::new(), self.registry.resolve_reference(source, l.raw.as_str())),
                };
                let mut out: Vec<String> = Vec::new();
                push_line(&mut out, cat5("{{< embed ", prefix.as_str(), "#", cell_id.as_str(), " >}}"));
                out
            },
            BlockKind::Blockquote { body, attribution } => {
                let nested = self.render_nested(body, source);
                let ghost n = strs(nested@);
                let mut out: Vec<String> = Vec::new();
                let mut k: usize = 0;
                while k < nested.len()
                    invariant
                        k <= nested@.len(),
                        n == strs(nested@),
                        strs(out@) == prefixed(n.subrange(0, k as int), "> "@),
                    decreases nested.len() - k,
                {
                    let line = cat2("> ", nested[k].as_str());
                    let ghost before = strs(out@);
                    assert(n[k as int] == nested@[k as int]@);
                    out.push(line);
                    assert(strs(out@) =~= before.push("> "@ + n[k as int]));
                    assert(n.subrange(0, k + 1) =~= n.subrange(0, k as int).push(n[k as int]));
                    assert(strs(out@) =~= prefixed(n.subrange(0, k + 1), "> "@));
                    k = k + 1;
                }
                assert(n.subrange(0, k as int) =~= n);
                let ghost quoted = strs(out@);
                match attribution {
                    Some(lines) => {
                        let ghost a = strs(lines@);
                        let mut j: usize = 0;
                        while j < lines.len()
                            invariant
                                j <= lines@.len(),
                                a == strs(lines@),
                                strs(out@) == quoted + prefixed(a.subrange(0, j as int), "> \u{2014} "@),
                            decreases lines.len() - j,
                        {
                            let line = cat2("> \u{2014} ", lines[j].as_str());
                            let ghost before = strs(out@);
                            assert(a[j as int] == lines@[j as int]@);
                            out.push(line);
                            assert(strs(out@) =~= before.push("> \u{2014} "@ + a[j as int]));
                            assert(a.subrange(0, j + 1) =~= a.subrange(0, j as int).push(a[j as int]));
                            assert(strs(out@) =~= quoted + prefixed(a.subrange(0, j + 1), "> \u{2014} "@));
                            j = j + 1;
                        }
                        assert(a.subrange(0, j as int) =~= a);
                        assert(strs(out@) == prefixed(n, "> "@) + prefixed(strs(lines@), "> \u{2014} "@));
                    },
                    None => {
                        assert(strs(out@) =~= quoted + Seq::<Seq<char>>::empty());
                        assert(strs(out@) == prefixed(n, "> "@) + Seq::<Seq<char>>::empty());
                    },
                }
                assert(strs(out@) == prefixed(n, "> "@) + match *attribution {
                    Some(a) => prefixed(strs(a@), "> \u{2014} "@),
                    None => Seq::empty(),
                });
                assert(self.nested_lines(source@, body@, n));
                assert(self.quote_of(source@, body@, *attribution, out@)) by {
                    reveal_with_fuel(QuartoWriter::quote_of, 1);
                    assert(self.nested_lines(source@, body@, n) && strs(out@) == prefixed(n, "> "@) + match *attribution {
                        Some(a) => prefixed(strs(a@), "> \u{2014} "@),
                        None => Seq::empty(),
                    });
                }
                out
            },
            BlockKind::Theorem { thm_type, label, body } => {
                let header = match self.quarto_id(source, label) {
                    Some(id) => cat5("::: {#", id.as_str(), " .", thm_type.as_str(), "}"),
                    None => cat3("::: {.", thm_type.as_str(), "}"),
                };
                assert(header@ =~= theorem_header(thm_type@, label_id(self.registry_view(), source@, *label)));
                self.fenced_div(header, body, source)
            },
            BlockKind::Directive { name, attrs, body, label } => {
                if str_eq(name.as_str(), "bibliography") || str_eq(name.as_str(), "tableofcontents") {
                    return Vec::new();
                }
                let mut header = chars_of("::: {");
                match self.quarto_id(source, label) {
                    Some(id) => {
                        header.push('#');
                        push_all(&mut header, &chars_of(id.as_str()));
                        header.push(' ');
                    },
                    None => {},
                }
                header.push('.');
                push_all(&mut header, &chars_of(name.as_str()));
                proof {
                    reveal_strlit("::: {");
                    reveal_strlit(".");
                    reveal_strlit("#");
                    reveal_strlit(" ");
                }
                let ghost start = header@;
                assert(start =~= "::: {"@ + match label_id(self.registry_view(), source@, *label) {
                    Some(i) => "#"@ + i + " "@,
                    None => Seq::empty(),
                } + "."@ + name@);
                let entries = attrs.entries();
                let ghost es = attrs@;
                let mut k: usize = 0;
                while k < entries.len()
                    invariant
                        k <= entries@.len(),
                        es == attrs@,
                        entries@.map_values(|e: (String, String)| (e.0@, e.1@)) == es,
                        header@ == start + attr_text(es.subrange(0, k as int), true),
                    decreases entries.len() - k,
                {
                    assert(es.subrange(0, k + 1).drop_last() =~= es.subrange(0, k as int));
                    assert(es[k as int] == (entries@[k as int].0@, entries@[k as int].1@));
                    push_all(&mut header, &chars_of(" "));
                    push_all(&mut header, &chars_of(entries[k].0.as_str()));
                    push_all(&mut header, &chars_of("=\""));
                    push_all(&mut header, &chars_of(escape_quoted(entries[k].1.as_str()).as_str()));
                    push_all(&mut header, &chars_of("\""));
                    assert(header@ =~= start + attr_text(es.subrange(0, k + 1), true));
                    k = k + 1;
                }
                assert(es.subrange(0, k as int) =~= es);
                header.push('}');
                proof { reveal_strlit("}"); }
                assert(header@ =~= directive_header(name@, attrs@, label_id(self.registry_view(), source@, *label)));
                self.fenced_div(string_of(&header), body, source)
            },
            BlockKind::Comment { text, .. } => {
                let mut out: Vec<String> = Vec::new();
                push_line(&mut out, cat3("<!-- ", text.as_str(), " -->"));
                out
            },
            BlockKind::Target { .. } => Vec::new(),
            BlockKind::Raw { format, body } => raw(format.as_str(), body),
            BlockKind::BlockBreak => {
                let mut out: Vec<String> = Vec::new();
                push_line(&mut out, String::from_str("<!-- mystquarto: MyST block break (+++) has no Quarto equivalent -->"));
                out
            },
            BlockKind::Preserved { original, code } => {
                let note = cat3("preserved (", code, "); full sidecar recovery lands in Phase 7");
                let r = preserved(note.as_str(), original);
                proof {
                    reveal_strlit("<!-- mystquarto: ");
                    reveal_strlit("preserved (");
                    reveal_strlit("<!-- mystquarto: preserved (");
                    reveal_strlit("); full sidecar recovery lands in Phase 7");
                    reveal_strlit(" -->");
                    reveal_strlit("); full sidecar recovery lands in Phase 7 -->");
                    assert("<!-- mystquarto: "@ + note@ + " -->"@ =~= "<!-- mystquarto: preserved ("@ + code@
                        + "); full sidecar recovery lands in Phase 7 -->"@);
                }
                r
            },
            BlockKind::Unmappable { original, reason } => preserved(reason.as_str(), original),
        }
    }

    fn code_cell(&self, lang: &str, options: &CellOptions, body: &Vec<String>, label: &Option<Label>, source: &str) -> (r: Vec<String>)
        ensures
            strs(r@) == code_cell_lines(
                lang@,
                strs(options.tags@),
                opt_seq(options.caption),
                options.extra@,
                strs(body@),
                label_id(self.registry_view(), source@, *label),
            ),
    {
        let lang = if str_eq(lang, "ipython3") { "python" } else { lang };
        let mut out: Vec<String> = Vec::new();
        push_line(&mut out, cat3("```{", lang, "}"));
        match self.quarto_id(source, label) {
            Some(id) => push_line(&mut out, cat2("#| label: ", id.as_str())),
            None => {},
        }
        let ghost head = strs(out@);
        let ghost tags = strs(options.tags@);
        let mut k: usize = 0;
        while k < options.tags.len()
            invariant
                k <= options.tags@.len(),
                tags == strs(options.tags@),
                strs(out@) == head + tag_lines(tags.subrange(0, k as int)),
            decreases options.tags.len() - k,
        {
            assert(tags.subrange(0, k + 1).drop_last() =~= tags.subrange(0, k as int));
            assert(tags[k as int] == options.tags@[k as int]@);
            match tag_to_cell_option(options.tags[k].as_str()) {
                Some(opt) => push_line(&mut out, String::from_str(opt)),
                None => {},
            }
            assert(strs(out@) =~= head + tag_lines(tags.subrange(0, k + 1)));
            k = k + 1;
        }
        assert(tags.subrange(0, k as int) =~= tags);
        match &options.caption {
            Some(c) => push_line(&mut out, cat3("#| fig-cap: \"", escape_quoted(c.as_str()).as_str(), "\"")),
            None => {},
        }
        let ghost mid = strs(out@);
        let extra = options.extra.entries();
        let ghost es = options.extra@;
        let mut j: usize = 0;
        while j < extra.len()
            invariant
                j <= extra@.len(),
                es == options.extra@,
                extra@.map_values(|e: (String, String)| (e.0@, e.1@)) == es,
                strs(out@) == mid + option_lines(es.subrange(0, j as int)),
            decreases extra.len() - j,
        {
            assert(es.subrange(0, j + 1).drop_last() =~= es.subrange(0, j as int));
            assert(es[j as int] == (extra@[j as int].0@, extra@[j as int].1@));
            push_line(&mut out, cat4("#| ", extra[j].0.as_str(), ": ", extra[j].1.as_str()));
            assert(strs(out@) =~= mid + option_lines(es.subrange(0, j + 1)));
            j = j + 1;
        }
        assert(es.subrange(0, j as int) =~= es);
        extend_lines(&mut out, body.as_slice());
        push_line(&mut out, String::from_str("```"));
        proof {
            reveal_strlit("ipython3");
            reveal_strlit("python");
        }
        out
    }

    fn figure(&self, src: &FigureSource, caption: &Vec<String>, label: &Option<Label>, attrs: &Attrs, source: &str) -> (r: Vec<String>)
        ensures
            match *src {
                FigureSource::CellRef { label: cell_label, notebook } => strs(r@) == seq![
                    embed_line(
                        match notebook {
                            Some(p) => p@,
                            None => Seq::empty(),
                        },
                        spec_embed_id(cell_label.raw@, label_id(self.registry_view(), source@, *label)),
                    ),
                ],
                FigureSource::Path(path) => strs(r@) == path_figure_lines(
                    path@,
                    self.rw(source@, strs(caption@)),
                    attrs@,
                    label_id(self.registry_view(), source@, *label),
                ),
            },
    {
        let id = self.quarto_id(source, label);
        match src {
            FigureSource::CellRef { label: cell_label, notebook } => {
                let id_ref = match &id {
                    Some(s) => Some(s.as_str()),
                    None => None,
                };
                let embed_id = resolve_embed_id(cell_label, id_ref);
                let nb = match notebook {
                    Some(p) => p.clone(),
                    None => String::new(),
                };
                let mut out: Vec<String> = Vec::new();
                push_line(&mut out, cat5("{{< embed ", nb.as_str(), "#", embed_id.as_str(), " >}}"));
                out
            },
            FigureSource::Path(path) => {
                let caption_text = self.joined_rewrite(caption, source);
                let ghost cap = self.rw(source@, strs(caption@));
                if caption.len() > 1 {
                    let mut out: Vec<String> = Vec::new();
                    match &id {
                        Some(i) => push_line(&mut out, cat3("::: {#", i.as_str(), "}")),
                        None => push_line(&mut out, String::from_str("::: {}")),
                    }
                    push_line(&mut out, cat3("![](", path.as_str(), ")"));
                    push_line(&mut out, String::new());
                    let rewritten = self.rewrite(caption, source);
                    extend_lines(&mut out, rewritten.as_slice());
                    push_line(&mut out, String::from_str(":::"));
                    out
                } else {
                    let mut parts: Vec<char> = Vec::new();
                    let mut any = false;
                    match &id {
                        Some(i) => {
                            parts.push('#');
                            push_all(&mut parts, &chars_of(i.as_str()));
                            any = true;
                        },
                        None => {},
                    }
                    let ghost start = parts@;
                    proof { reveal_strlit("#"); }
                    assert(start =~= match label_id(self.registry_view(), source@, *label) {
                        Some(i) => "#"@ + i,
                        None => Seq::empty(),
                    });
                    let entries = attrs.entries();
                    let ghost es = attrs@;
                    let mut k: usize = 0;
                    while k < entries.len()
                        invariant
                            k <= entries@.len(),
                            es == attrs@,
                            entries@.map_values(|e: (String, String)| (e.0@, e.1@)) == es,
                            any == (start.len() > 0 || k > 0),
                            start.len() > 0 ==> parts@ == start + attr_text(es.subrange(0, k as int), true),
                            start.len() == 0 && k > 0 ==> parts@ == attr_text(es.subrange(0, k as int), true).subrange(
                                1,
                                attr_text(es.subrange(0, k as int), true).len() as int,
                            ),
                            start.len() == 0 && k == 0 ==> parts@.len() == 0,
                        decreases entries.len() - k,
                    {
                        assert(es.subrange(0, k + 1).drop_last() =~= es.subrange(0, k as int));
                        assert(es[k as int] == (entries@[k as int].0@, entries@[k as int].1@));
                        let ghost prev = attr_text(es.subrange(0, k as int), true);
                        if any {
                            parts.push(' ');
                        }
                        push_all(&mut parts, &chars_of(entries[k].0.as_str()));
                        push_all(&mut parts, &chars_of("=\""));
                        push_all(&mut parts, &chars_of(escape_quoted(entries[k].1.as_str()).as_str()));
                        parts.push('"');
                        proof {
                            reveal_strlit(" ");
                            reveal_strlit("\"");
                            let next = attr_text(es.subrange(0, k + 1), true);
                            let tail = " "@ + es[k as int].0 + "=\""@ + spec_escape_quoted(es[k as int].1) + "\""@;
                            assert(next =~= prev + tail);
                            if start.len() > 0 {
                                assert(parts@ =~= start + next);
                            } else if k > 0 {
                                assert(es.subrange(0, k as int).len() > 0);
                                assert(prev.len() >= 1);
                                assert(next.subrange(1, next.len() as int) =~= prev.subrange(1, prev.len() as int) + tail);
                                assert(parts@ =~= next.subrange(1, next.len() as int));
                            } else {
                                assert(prev.len() == 0);
                                assert(parts@ =~= next.subrange(1, next.len() as int));
                            }
                        }
                        any = true;
                        k = k + 1;
                    }
                    assert(es.subrange(0, k as int) =~= es);
                    let attr_str = if any { cat3("{", string_of(&parts).as_str(), "}") } else { String::new() };
                    proof {
                        reveal_strlit("#");
                        reveal_strlit("{");
                        reveal_strlit("}");
                        reveal_strlit("{#");
                        let pairs = attr_text(attrs@, true);
                        match label_id(self.registry_view(), source@, *label) {
                            Some(i) => {
                                assert(start.len() > 0);
                                assert(parts@ == start + pairs);
                                assert(attr_str@ =~= "{#"@ + i + pairs + "}"@);
                            },
                            None => {
                                assert(start.len() == 0);
                                if k > 0 {
                                    assert(attr_str@ =~= "{"@ + pairs.subrange(1, pairs.len() as int) + "}"@);
                                } else {
                                    assert(attr_str@ =~= Seq::<char>::empty());
                                }
                            },
                        }
                    }
                    let mut out: Vec<String> = Vec::new();
                    let line = cat5("![", caption_text.as_str(), "](", path.as_str(), cat2(")", attr_str.as_str()).as_str());
                    assert(line@ =~= "!["@ + spaced(cap) + "]("@ + path@ + ")"@ + figure_attrs(label_id(self.registry_view(), source@, *label), attrs@));
                    push_line(&mut out, line);
                    out
                }
            },
        }
    }

    fn tab_set(&self, items: &Vec<TabItem>, source: &str) -> (r: Vec<String>)
        ensures
            self.tabs_of(source@, items@, r@),
        decreases items, 0int,
    {
        let mut out: Vec<String> = Vec::new();
        push_line(&mut out, String::from_str("::: {.panel-tabset}"));
        let ghost mut ns: Seq<Seq<Seq<char>>> = Seq::empty();
        let mut k: usize = 0;
        while k < items.len()
            invariant
                k <= items@.len(),
                ns.len() == k,
                forall|j: int| 0 <= j < k ==> self.nested_lines(source@, items@[j].body@, #[trigger] ns[j]),
                strs(out@) == seq!["::: {.panel-tabset}"@] + tabs_text(items@.subrange(0, k as int), ns),
            decreases items.len() - k,
        {
            let item = &items[k];
            let ghost before = strs(out@);
            push_line(&mut out, cat2("## ", item.label.as_str()));
            let nested = self.render_nested(&item.body, source);
            extend_lines(&mut out, nested.as_slice());
            proof {
                let old_ns = ns;
                ns = ns.push(strs(nested@));
                let its = items@.subrange(0, k + 1);
                assert(its.drop_last() =~= items@.subrange(0, k as int));
                assert(ns.drop_last() =~= old_ns);
                assert(its.last() == items@[k as int]);
                assert(strs(out@) =~= seq!["::: {.panel-tabset}"@] + tabs_text(its, ns));
            }
            k = k + 1;
        }
        assert(items@.subrange(0, k as int) =~= items@);
        push_line(&mut out, String::from_str(":::"));
        let ghost lines = strs(out@);
        assert(lines.len() == out@.len());
        assert(lines[0] == out@[0]@);
        assert(lines[lines.len() - 1] == out@[out@.len() - 1]@);
        assert(lines.subrange(1, lines.len() - 1) =~= tabs_text(items@, ns));
        out
    }

    /// A `:::` div: the header line, the nested blocks, then `:::`.
    fn fenced_div(&self, header: String, body: &Vec<Block>, source: &str) -> (r: Vec<String>)
        ensures
            r@.len() >= 2,
            r@[0]@ == header@,
            r@.last()@ == ":::"@,
            self.div_of(source@, header@, body@, r@),
        decreases body, 3int,
    {
        let mut out: Vec<String> = Vec::new();
        let ghost h = header@;
        push_line(&mut out, header);
        let nested = self.render_nested(body, source);
        extend_lines(&mut out, nested.as_slice());
        push_line(&mut out, String::from_str(":::"));
        let ghost lines = strs(out@);
        assert(lines.len() == out@.len());
        assert(lines =~= seq![h] + strs(nested@) + seq![":::"@]);
        assert(lines[0] == out@[0]@);
        assert(lines[lines.len() - 1] == out@[out@.len() - 1]@);
        assert(lines.subrange(1, lines.len() - 1) =~= strs(nested@));
        out
    }

    fn render_nested(&self, body: &Vec<Block>, source: &str) -> (r: Vec<String>)
        ensures
            self.nested_lines(source@, body@, strs(r@)),
        decreases body, 0int,
    {
        let mut rendered: Vec<(u8, Vec<String>)> = Vec::new();
        let mut k: usize = 0;
        while k < body.len()
            invariant
                k <= body@.len(),
                rendered@.len() == k,
                forall|j: int| 0 <= j < k ==> (#[trigger] rendered@[j]).0 == body@[j].blank_lines_before
                    && self.quarto_block(source@, body@[j], rendered@[j].1@),
            decreases body.len() - k,
        {
            let lines = self.render_block(&body[k], source);
            rendered.push((body[k].blank_lines_before, lines));
            k = k + 1;
        }
        let ghost outs = rendered@.map_values(|x: (u8, Vec<String>)| x.1@);
        assert(rendered_view(rendered@) =~= nested_view(body@, outs));
        assert(forall|j: int| 0 <= j < outs.len() ==> self.quarto_block(source@, body@[j], #[trigger] outs[j]));
        render_body_lines(&rendered)
    }
}

} // verus!
