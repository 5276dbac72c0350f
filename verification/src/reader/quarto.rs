//! The Quarto Markdown reader.
use vstd::prelude::*;
use crate::ir::{AdmonitionKind, Attrs, Block, BlockKind, CommentStyle, Document, EmbedTarget, Engine, FigureSource, Frontmatter, IncludeOpts, TabItem};
use crate::label::Label;
use crate::preserve::Dialect;
use crate::reader::fence::{self, strs, strs_ref};
use crate::reader::inline::{scan_line, InlineEvent};
use crate::reader::lines::{lines_of, split_frontmatter, split_lines};
use crate::reader::myst::{covers, spans_within, store_fits};
use crate::reader::parts::{copy_lines, parse_attrs, split_words};
use crate::reader::{block, parse_cell_option, parse_cell_options, preservation_marker_id, ReaderContext, StoreView};
use crate::span::Span;
use crate::strmap::StrMap;
use crate::text::{
    chars_of, contains_at_any, contains_chars, find_char, has_at, has_at_exec, parse_u32, push_all, skip_ws_exec,
    slice_chars, str_eq, string_of, trail_ws_exec, trim_chars,
};

verus! {

/// Every block's span is well formed and starts at or after line `lo`.
pub open spec fn spans_from(out: Seq<Block>, lo: int) -> bool {
    forall|k: int| 0 <= k < out.len() ==> lo <= (#[trigger] out[k]).span.start_line <= out[k].span.end_line
}

/// Line `start + i` as the reader numbers it: the last representable line
/// number beyond that.
pub open spec fn numbered(start: int, i: int) -> int {
    if start + i <= u32::MAX { start + i } else { u32::MAX as int }
}

/// Every non-blank line among the first `i` of `ls` (numbered from `start`,
/// below the last representable number) lies in a block of `out`, or in the
/// paragraph being collected from `para_start` on when `para_on`.
pub open spec fn q_covered_upto(out: Seq<Block>, ls: Seq<Seq<char>>, start: int, i: int, para_on: bool, para_start: int) -> bool {
    forall|j: int|
        0 <= j < i && crate::text::trim(#[trigger] ls[j]).len() > 0 && start + j < u32::MAX ==> covers(out, start + j) || (
        para_on && para_start <= start + j)
}

proof fn lemma_q_grow(a: Seq<Block>, b: Seq<Block>, ls: Seq<Seq<char>>, start: int, i: int, pon: bool, ps: int)
    requires
        a.len() <= b.len(),
        forall|k: int| 0 <= k < a.len() ==> b[k] == a[k],
        q_covered_upto(a, ls, start, i, pon, ps),
    ensures
        q_covered_upto(b, ls, start, i, pon, ps),
{
    assert forall|j: int|
        0 <= j < i && crate::text::trim(#[trigger] ls[j]).len() > 0 && start + j < u32::MAX implies covers(b, start + j) || (
        pon && ps <= start + j) by {
        if covers(a, start + j) {
            let k = choose|k: int| 0 <= k < a.len() && (#[trigger] a[k]).span.start_line <= start + j <= a[k].span.end_line;
            assert(b[k] == a[k]);
        }
    }
}

/// A block numbered from line `i` to at least line `e` covers those lines.
proof fn lemma_q_span(out: Seq<Block>, ls: Seq<Seq<char>>, start: int, i: int, e: int, pon: bool, ps: int, k: int)
    requires
        q_covered_upto(out, ls, start, i, pon, ps),
        0 <= k < out.len(),
        out[k].span.start_line == numbered(start, i),
        out[k].span.end_line >= numbered(start, e),
        0 <= i <= e + 1,
    ensures
        q_covered_upto(out, ls, start, e + 1, pon, ps),
{
    assert forall|j: int|
        0 <= j < e + 1 && crate::text::trim(#[trigger] ls[j]).len() > 0 && start + j < u32::MAX implies covers(out, start
        + j) || (pon && ps <= start + j) by {
        if j >= i {
            assert(out[k].span.start_line <= start + j <= out[k].span.end_line);
        }
    }
}

/// Closing the paragraph at line `i`: its block covers the lines it collected.
proof fn lemma_q_flush(a: Seq<Block>, b: Seq<Block>, ls: Seq<Seq<char>>, start: int, i: int, ps: int)
    requires
        q_covered_upto(a, ls, start, i, true, ps),
        b.len() == a.len() + 1,
        b.drop_last() == a,
        b.last().span.start_line == ps,
        b.last().span.end_line == (if numbered(start, i) > ps { numbered(start, i) - 1 } else { ps }),
    ensures
        q_covered_upto(b, ls, start, i, false, 0),
{
    assert forall|j: int|
        0 <= j < i && crate::text::trim(#[trigger] ls[j]).len() > 0 && start + j < u32::MAX implies covers(b, start + j) by {
        if covers(a, start + j) {
            let k = choose|k: int| 0 <= k < a.len() && (#[trigger] a[k]).span.start_line <= start + j <= a[k].span.end_line;
            assert(b[k] == b.drop_last()[k]);
        } else {
            assert(b[b.len() - 1].span.start_line <= start + j <= b[b.len() - 1].span.end_line);
        }
    }
}

/// Line `start + i`, or the last representable line number.
fn line_at(start: u32, i: usize) -> (n: u32)
    ensures
        n == if start + i <= u32::MAX { start + i } else { u32::MAX as int },
{
    if i > 4294967295usize {
        return 4294967295u32;
    }
    let x: u64 = start as u64 + i as u64;
    if x > 4294967295u64 {
        4294967295u32
    } else {
        x as u32
    }
}

/// Reads Quarto Markdown into blocks.
#[derive(Debug)]
pub struct QuartoReader {
    context: ReaderContext,
}

/// The callout kind a div's attribute text names.
pub open spec fn spec_callout_kind(attrs: Seq<char>) -> Option<AdmonitionKind> {
    if contains_at_any(attrs, ".callout-note"@) {
        Some(AdmonitionKind::Note)
    } else if contains_at_any(attrs, ".callout-warning"@) {
        Some(AdmonitionKind::Warning)
    } else if contains_at_any(attrs, ".callout-tip"@) {
        Some(AdmonitionKind::Tip)
    } else if contains_at_any(attrs, ".callout-important"@) {
        Some(AdmonitionKind::Important)
    } else if contains_at_any(attrs, ".callout-caution"@) {
        Some(AdmonitionKind::Caution)
    } else {
        None
    }
}

fn has(v: &Vec<char>, pat: &str) -> (r: bool)
    ensures
        r == contains_at_any(v@, pat@),
{
    contains_chars(v, &chars_of(pat))
}

/// The callout kind a div's attribute text names.
pub fn callout_kind(attrs: &str) -> (r: Option<AdmonitionKind>)
    ensures
        r == spec_callout_kind(attrs@),
{
    let v = chars_of(attrs);
    if has(&v, ".callout-note") {
        Some(AdmonitionKind::Note)
    } else if has(&v, ".callout-warning") {
        Some(AdmonitionKind::Warning)
    } else if has(&v, ".callout-tip") {
        Some(AdmonitionKind::Tip)
    } else if has(&v, ".callout-important") {
        Some(AdmonitionKind::Important)
    } else if has(&v, ".callout-caution") {
        Some(AdmonitionKind::Caution)
    } else {
        None
    }
}

/// The first index at or after `from`, before the end, where `pat` occurs;
/// the length when there is none.
pub open spec fn first_sub(v: Seq<char>, pat: Seq<char>, from: int) -> int
    decreases v.len() - from,
{
    if from < 0 || from >= v.len() {
        v.len() as int
    } else if has_at(v, from, pat) {
        from
    } else {
        first_sub(v, pat, from + 1)
    }
}

/// The first index at or after `from` where `pat` occurs, if any.
fn find_sub(v: &Vec<char>, pat: &Vec<char>, from: usize) -> (r: Option<usize>)
    requires
        from <= v@.len(),
    ensures
        match r {
            Some(k) => from <= k < v@.len() && has_at(v@, k as int, pat@) && forall|j: int|
                from <= j < k ==> !has_at(v@, j, pat@),
            None => forall|j: int| from <= j < v@.len() ==> !has_at(v@, j, pat@),
        },
        match r {
            Some(k) => k == first_sub(v@, pat@, from as int),
            None => first_sub(v@, pat@, from as int) == v@.len(),
        },
{
    let mut k = from;
    while k < v.len()
        invariant
            from <= k <= v@.len(),
            forall|j: int| from <= j < k ==> !has_at(v@, j, pat@),
            first_sub(v@, pat@, from as int) == first_sub(v@, pat@, k as int),
        decreases v.len() - k,
    {
        if has_at_exec(v, k, pat) {
            return Some(k);
        }
        k = k + 1;
    }
    None
}

/// The last index where `pat` occurs, if any.
fn rfind_sub(v: &Vec<char>, pat: &Vec<char>) -> (r: Option<usize>)
    ensures
        match r {
            Some(k) => k as int == crate::reader::last_at(v@, pat@, v@.len() - 1),
            None => crate::reader::last_at(v@, pat@, v@.len() - 1) < 0,
        },
{
    let mut k = v.len();
    while k > 0
        invariant
            k <= v@.len(),
            crate::reader::last_at(v@, pat@, v@.len() - 1) == crate::reader::last_at(v@, pat@, k - 1),
        decreases k,
    {
        if has_at_exec(v, k - 1, pat) {
            return Some(k - 1);
        }
        k = k - 1;
    }
    None
}

/// `s` without the run of `c` at its start.
pub open spec fn trim_start_char(s: Seq<char>, c: char) -> Seq<char>
    decreases s.len(),
{
    if s.len() > 0 && s[0] == c {
        trim_start_char(s.drop_first(), c)
    } else {
        s
    }
}

/// `s` without the run of `c` at its end.
pub open spec fn trim_end_char(s: Seq<char>, c: char) -> Seq<char>
    decreases s.len(),
{
    if s.len() > 0 && s.last() == c {
        trim_end_char(s.drop_last(), c)
    } else {
        s
    }
}

fn trim_start_matches_char(v: &Vec<char>, c: char) -> (r: Vec<char>)
    ensures
        r@ == trim_start_char(v@, c),
{
    let mut a: usize = 0;
    assert(v@.subrange(0, v@.len() as int) =~= v@);
    while a < v.len() && v[a] == c
        invariant
            a <= v@.len(),
            trim_start_char(v@.subrange(a as int, v@.len() as int), c) == trim_start_char(v@, c),
        decreases v.len() - a,
    {
        assert(v@.subrange(a as int, v@.len() as int).drop_first() =~= v@.subrange(a + 1, v@.len() as int));
        a = a + 1;
    }
    slice_chars(v, a, v.len())
}

fn trim_end_matches_char(v: &Vec<char>, c: char) -> (r: Vec<char>)
    ensures
        r@ == trim_end_char(v@, c),
{
    let mut b: usize = v.len();
    assert(v@.subrange(0, v@.len() as int) =~= v@);
    while b > 0 && v[b - 1] == c
        invariant
            b <= v@.len(),
            trim_end_char(v@.subrange(0, b as int), c) == trim_end_char(v@, c),
        decreases b,
    {
        assert(v@.subrange(0, b as int).drop_last() =~= v@.subrange(0, b - 1));
        b = b - 1;
    }
    slice_chars(v, 0, b)
}

/// A caption or heading split at its last `{#`: the text before it, trimmed,
/// and the id after it without its closing braces, trimmed; the whole text
/// and no id when there is no `{#`.
pub open spec fn spec_split_caption(caption: Seq<char>) -> (Seq<char>, Option<Seq<char>>) {
    let p = crate::reader::last_at(caption, "{#"@, caption.len() - 1);
    if p < 0 {
        (caption, None)
    } else {
        (crate::text::trim(caption.subrange(0, p)), Some(crate::text::trim(trim_end_char(caption.subrange(p + 2, caption.len() as int), '}'))))
    }
}

/// Splits a trailing `{#id}` off a caption or heading: the text before it
/// (trimmed) and the id.
pub fn split_caption_label(caption: &Vec<char>) -> (r: (String, Option<String>))
    ensures
        r.0@ == spec_split_caption(caption@).0,
        match r.1 {
            Some(id) => spec_split_caption(caption@).1 == Some(id@),
            None => spec_split_caption(caption@).1 is None,
        },
{
    proof {
        reveal_strlit("{#");
    }
    let pat = chars_of("{#");
    assert(pat@.len() == 2);
    match rfind_sub(caption, &pat) {
        Some(pos) => {
            proof { crate::reader::lemma_last_at_pub(caption@, pat@, caption@.len() - 1); }
            assert(has_at(caption@, pos as int, pat@));
            let n = caption.len();
            assert(pos + 2 <= n);
            let id = trim_chars(&trim_end_matches_char(&slice_chars(caption, pos + 2, n), '}'));
            let text = trim_chars(&slice_chars(caption, 0, pos));
            (string_of(&text), Some(string_of(&id)))
        },
        None => (string_of(caption), None),
    }
}

/// A Quarto ATX heading: after leading whitespace, one to six `#`, a space,
/// then the text, which may end in a `{#id}` label.
pub open spec fn spec_heading_q(line: Seq<char>) -> Option<(int, Seq<char>, Option<Seq<char>>)> {
    let t = crate::text::trim_start(line);
    let level = crate::text::run_end(t, 0, '#');
    if 1 <= level <= 6 && level < t.len() && t[level] == ' ' {
        let parts = spec_split_caption(crate::text::trim(t.subrange(level + 1, t.len() as int)));
        Some((level, parts.0, parts.1))
    } else {
        None
    }
}

/// `## Heading {#id}`: level, text and label.
fn parse_heading_q(line: &str) -> (r: Option<(u8, String, Option<Label>)>)
    ensures
        match spec_heading_q(line@) {
            Some((level, text, label)) => r matches Some((l, tx, lb)) && l == level && tx@ == text && match label {
                Some(id) => lb matches Some(x) && x.raw@ == id,
                None => lb is None,
            },
            None => r is None,
        },
{
    let v = chars_of(line);
    let a = skip_ws_exec(&v, 0);
    let t = slice_chars(&v, a, v.len());
    let level = crate::text::run_end_exec(&t, 0, '#');
    if !(1 <= level && level <= 6 && level < t.len() && t[level] == ' ') {
        return None;
    }
    let text = trim_chars(&slice_chars(&t, level + 1, t.len()));
    let (text, label) = split_caption_label(&text);
    Some((level as u8, text, match label {
        Some(l) => Some(Label { raw: l }),
        None => None,
    }))
}

/// The parts of an image line `![alt](src){attrs}` (the line trimmed): the
/// source, the alt text and the attribute body between the braces.
pub open spec fn spec_image(line: Seq<char>) -> Option<(Seq<char>, Seq<char>, Seq<char>)> {
    let t = crate::text::trim(line);
    if !has_at(t, 0, "!["@) {
        None
    } else {
        let alt_start = t.subrange(2, t.len() as int);
        let alt_end = first_sub(alt_start, "]("@, 0);
        if alt_end >= alt_start.len() {
            None
        } else {
            let after_alt = alt_start.subrange(alt_end + 2, alt_start.len() as int);
            let src_end = crate::text::first_of(after_alt, 0, ')');
            if src_end >= after_alt.len() {
                None
            } else {
                let attrs = crate::text::trim(after_alt.subrange(src_end + 1, after_alt.len() as int));
                Some((
                    after_alt.subrange(0, src_end),
                    alt_start.subrange(0, alt_end),
                    trim_end_char(trim_start_char(attrs, '{'), '}'),
                ))
            }
        }
    }
}

/// `![alt](src){attrs}` on a line of its own: a figure of the source, its
/// attributes read from the braces, the `id` attribute as its label and a
/// non-empty alt text as both its caption and its `alt` attribute.
fn parse_image(line: &str) -> (r: Option<BlockKind>)
    ensures
        match spec_image(line@) {
            None => r is None,
            Some((src, alt, inner)) => r matches Some(BlockKind::Figure { src: FigureSource::Path(p), caption, label, attrs })
                && p@ == src && strs(caption@) == (if alt.len() > 0 {
                seq![alt]
            } else {
                Seq::empty()
            }) && attrs@ == (if alt.len() > 0 {
                crate::strmap::map_insert(crate::reader::parts::spec_parse_attrs(inner), "alt"@, alt)
            } else {
                crate::reader::parts::spec_parse_attrs(inner)
            }) && match crate::strmap::map_get(crate::reader::parts::spec_parse_attrs(inner), "id"@) {
                Some(id) => label matches Some(l) && l.raw@ == id,
                None => label is None,
            },
        },
{
    proof {
        reveal_strlit("![");
        reveal_strlit("](");
    }
    let t = trim_chars(&chars_of(line));
    if !has_at_exec(&t, 0, &chars_of("![")) {
        return None;
    }
    let alt_start = slice_chars(&t, 2, t.len());
    let alt_end = match find_sub(&alt_start, &chars_of("]("), 0) {
        Some(k) => k,
        None => return None,
    };
    let after_alt = slice_chars(&alt_start, alt_end + 2, alt_start.len());
    let src_end = find_char(&after_alt, 0, ')');
    if src_end >= after_alt.len() {
        return None;
    }
    let alt = slice_chars(&alt_start, 0, alt_end);
    let src = slice_chars(&after_alt, 0, src_end);
    let attrs = trim_chars(&slice_chars(&after_alt, src_end + 1, after_alt.len()));
    let inner = trim_end_matches_char(&trim_start_matches_char(&attrs, '{'), '}');
    let parsed_attrs = parse_attrs(string_of(&inner).as_str());
    let label = match parsed_attrs.get("id") {
        Some(id) => Some(Label { raw: id.clone() }),
        None => None,
    };
    let mut figure_attrs = parsed_attrs;
    let mut caption: Vec<String> = Vec::new();
    proof {
        reveal_strlit("alt");
        reveal_strlit("id");
    }
    if alt.len() > 0 {
        figure_attrs.insert(String::from_str("alt"), string_of(&alt));
        crate::writer::push_line(&mut caption, string_of(&alt));
    }
    assert(strs(caption@) =~= (if alt@.len() > 0 {
        seq![alt@]
    } else {
        Seq::<Seq<char>>::empty()
    }));
    Some(BlockKind::Figure { src: FigureSource::Path(string_of(&src)), caption, label, attrs: figure_attrs })
}

/// `$$ … $$ {#eq-id}`: the body, the label on the closing line, and the
/// index of that line (or of the last line when it never closes).
fn parse_math_q(lines: &[&str], start: usize) -> (r: (BlockKind, usize))
    requires
        start < lines@.len(),
    ensures
        start <= r.1 < lines@.len(),
        r.0 is Math,
{
    let mut body: Vec<String> = Vec::new();
    let n = lines.len();
    let mut i = start + 1;
    while i < n
        invariant
            n == lines@.len(),
            start < i <= n,
        decreases n - i,
    {
        let t = trim_chars(&chars_of(lines[i]));
        if has_at_exec(&t, 0, &chars_of("$$")) {
            proof {
                reveal_strlit("$$");
            }
            let after = trim_chars(&slice_chars(&t, 2, t.len()));
            let inner = trim_end_matches_char(&trim_start_matches_char(&after, '{'), '}');
            let attrs = parse_attrs(string_of(&inner).as_str());
            let label = match attrs.get("id") {
                Some(id) => Some(Label { raw: id.clone() }),
                None => None,
            };
            return (BlockKind::Math { body, label }, i);
        }
        body.push(String::from_str(lines[i]));
        i = i + 1;
    }
    (BlockKind::Math { body, label: None }, n - 1)
}

/// Whether the line's first character after leading whitespace is `c`.
fn starts_with_char_trimmed(line: &str, c: char) -> (r: bool)
    ensures
        r == (crate::text::trim_start(line@).len() > 0 && crate::text::trim_start(line@)[0] == c),
{
    let v = chars_of(line);
    let a = skip_ws_exec(&v, 0);
    let r = a < v.len() && v[a] == c;
    assert(crate::text::trim_start(line@).len() == v@.len() - a);
    assert(a < v@.len() ==> crate::text::trim_start(line@)[0] == v@[a as int]);
    r
}

/// A pipe table: its rows, then an optional `: Caption {#tbl-id}` line
/// after blank lines. Answers the table and the index of its last line.
fn parse_table(lines: &[&str], start: usize) -> (r: (BlockKind, usize))
    requires
        start < lines@.len(),
        starts_with_pipe_spec(lines@[start as int]@),
    ensures
        start <= r.1 < lines@.len(),
        r.0 is Table,
{
    let n = lines.len();
    let mut rows: Vec<String> = Vec::new();
    let mut i = start;
    while i < n && starts_with_char_trimmed(lines[i], '|')
        invariant
            n == lines@.len(),
            start <= i <= n,
        decreases n - i,
    {
        rows.push(String::from_str(lines[i]));
        i = i + 1;
    }
    let mut probe = i;
    while probe < n && trim_chars(&chars_of(lines[probe])).len() == 0
        invariant
            n == lines@.len(),
            i <= probe <= n,
        decreases n - probe,
    {
        probe = probe + 1;
    }
    if probe < n && starts_with_char_trimmed(lines[probe], ':') {
        let v = chars_of(lines[probe]);
        let a = skip_ws_exec(&v, 0);
        let cap = trim_chars(&trim_start_matches_char(&slice_chars(&v, a, v.len()), ':'));
        let (caption, label) = split_caption_label(&cap);
        let mut caps: Vec<String> = Vec::new();
        caps.push(caption);
        return (
            BlockKind::Table {
                caption: caps,
                rows,
                label: match label {
                    Some(l) => Some(Label { raw: l }),
                    None => None,
                },
            },
            probe,
        );
    }
    let end = if i > start { i - 1 } else { start };
    (BlockKind::Table { caption: Vec::new(), rows, label: None }, end)
}

/// The line, left-trimmed, starts with `|`.
pub open spec fn starts_with_pipe_spec(s: Seq<char>) -> bool {
    crate::text::trim_start(s).len() > 0 && crate::text::trim_start(s)[0] == '|'
}

fn pipe_line(line: &str) -> (r: bool)
    ensures
        r == starts_with_pipe_spec(line@),
{
    let v = chars_of(line);
    let a = skip_ws_exec(&v, 0);
    a < v.len() && v[a] == '|'
}

/// An embed of `target` written on `line`, given what checking its notebook
/// path answered: refused, the line kept as unmappable with the refusal's
/// message; accepted, the embed itself.
pub open spec fn embed_by(res: Result<String, crate::fs::path_guard::PathGuardError>, target: Seq<char>, line: Seq<char>, k: BlockKind) -> bool {
    match res {
        Err(e) => k matches BlockKind::Unmappable { original, reason } && strs(original@) == seq![line]
            && reason@ == crate::fs::path_guard::spec_guard_message(e),
        Ok(_) => embed_shape(k, target),
    }
}

/// What an embed shortcode's target becomes: a `path#label` target whose
/// notebook path fails the include checks is kept as unmappable, anything
/// else is the embed.
pub open spec fn embed_answer(ctx: ReaderContext, target: Seq<char>, line: Seq<char>, k: BlockKind) -> bool {
    let p = crate::text::first_of(target, 0, '#');
    if 0 < p < target.len() {
        exists|res: Result<String, crate::fs::path_guard::PathGuardError>|
            crate::reader::include_answer(ctx, target.subrange(0, p), res) && embed_by(res, target, line, k)
    } else {
        embed_shape(k, target)
    }
}

/// The labels of the tabs a tab-set's lines start: each line beginning
/// `## `, without that prefix.
pub open spec fn tab_labels(lines: Seq<Seq<char>>) -> Seq<Seq<char>>
    decreases lines.len(),
{
    if lines.len() == 0 {
        Seq::empty()
    } else {
        tab_labels(lines.drop_last()) + if has_at(lines.last(), 0, "## "@) {
            seq![lines.last().subrange(3, lines.last().len() as int)]
        } else {
            Seq::empty()
        }
    }
}

/// The block a preservation marker with `id` on `line` becomes in a Quarto
/// page, given the preservation store: a placeholder when the store has no
/// such entry; the stored lines kept opaque when they were captured in
/// another dialect, or inside a restored construct (`expand` off). Of lines
/// captured as Quarto and reparsed, the block is the one they read back as
/// when they read back as exactly one, which this leaves open; otherwise
/// they are kept opaque.
pub open spec fn quarto_marker_block(store: StoreView, id: Seq<char>, line: u32, blank: u8, expand: bool, b: Block) -> bool {
    &&& b.span.start_line == line
    &&& b.span.end_line == line
    &&& b.blank_lines_before == blank
    &&& match crate::reader::store_get(store, id) {
        None => b.kind matches BlockKind::Preserved { original, code } && original@.len() == 0 && code@
            == "missing-sidecar-entry"@,
        Some((d, orig)) => if d != Dialect::Quarto {
            b.kind matches BlockKind::Preserved { original, code } && strs(original@) == orig && code@
                == "preserved-foreign-dialect"@
        } else if !expand {
            b.kind matches BlockKind::Preserved { original, code } && strs(original@) == orig && code@
                == "preserved-sidecar"@
        } else {
            true
        },
    }
}

/// An optional label as a sequence of none or one.
pub open spec fn label_seq(l: Option<String>) -> Seq<Seq<char>> {
    match l {
        Some(x) => seq![x@],
        None => Seq::empty(),
    }
}

/// The tabs' labels.
pub open spec fn tab_names(items: Seq<TabItem>) -> Seq<Seq<char>> {
    items.map_values(|t: TabItem| t.label@)
}

/// `r` keeps `line` as an unmappable construct with `reason`.
pub open spec fn kept_unmappable(r: Option<BlockKind>, line: Seq<char>, reason: Seq<char>) -> bool {
    r matches Some(BlockKind::Unmappable { original, reason: why }) && strs(original@) == seq![line] && why@ == reason
}

/// The include options a shortcode's words give: the line range from its
/// parameters after the target, nothing else.
pub open spec fn shortcode_opts(opts: IncludeOpts, parts: Seq<Seq<char>>) -> bool {
    &&& !opts.literal
    &&& opts.lang is None
    &&& opts.lines is None
    &&& if parts.len() > 2 {
        &&& opts.start_line == line_param(parts.subrange(2, parts.len() as int), "start-line"@, None)
        &&& opts.end_line == line_param(parts.subrange(2, parts.len() as int), "end-line"@, None)
    } else {
        opts.start_line is None && opts.end_line is None
    }
}

/// An include shortcode's block: what checking its target answered.
pub open spec fn include_shortcode_answer(
    ctx: ReaderContext,
    line: Seq<char>,
    parts: Seq<Seq<char>>,
    arg: Seq<char>,
    r: Option<BlockKind>,
) -> bool {
    exists|res: Result<String, crate::fs::path_guard::PathGuardError>|
        crate::reader::include_answer(ctx, arg, res) && match res {
            Ok(path) => r matches Some(BlockKind::Include { target, opts }) && target@ == path@ && shortcode_opts(
                opts,
                parts,
            ),
            Err(e) => kept_unmappable(r, line, crate::fs::path_guard::spec_guard_message(e)),
        }
}

/// What a `{{< … >}}` line becomes in `ctx`: no block when the line holds no
/// shortcode, is too short or is empty inside; an include (its target
/// checked) or an embed; and otherwise the line kept as unmappable, with a
/// reason that says why.
pub open spec fn shortcode_answer(ctx: ReaderContext, line: Seq<char>, r: Option<BlockKind>) -> bool {
    let t = crate::text::trim(line);
    if !crate::text::contains_at_any(t, "{{<"@) {
        r is None
    } else if !(has_at(t, 0, "{{<"@) && t.len() >= 3 && has_at(t, t.len() - 3, ">}}"@)) {
        kept_unmappable(r, line, "Quarto shortcodes must be supported block-level forms"@)
    } else if t.len() < 6 {
        r is None
    } else {
        let parts = crate::reader::parts::words_from(crate::text::trim(t.subrange(3, t.len() - 3)), 0);
        if parts.len() == 0 {
            r is None
        } else {
            let name = parts[0];
            let arg = if parts.len() > 1 { parts[1] } else { Seq::empty() };
            if name == "include"@ {
                include_shortcode_answer(ctx, line, parts, arg, r)
            } else if name == "embed"@ {
                r matches Some(k) && embed_answer(ctx, arg, line, k)
            } else if name == "video"@ || name == "pagebreak"@ || name == "meta"@ || name == "var"@ {
                kept_unmappable(r, line, "Quarto shortcode "@ + name + " has no MyST equivalent"@)
            } else {
                kept_unmappable(r, line, "Quarto shortcode "@ + name + " is not recognized"@)
            }
        }
    }
}

/// `{{< embed path#label >}}` target: a label within the page, or a cell of
/// another notebook.
pub open spec fn embed_shape(k: BlockKind, target: Seq<char>) -> bool {
    let p = crate::text::first_of(target, 0, '#');
    let path = if p < target.len() { target.subrange(0, p) } else { Seq::empty() };
    let name = if p < target.len() { target.subrange(p + 1, target.len() as int) } else { target };
    k matches BlockKind::Embed { target: t, label } && label is None && if path.len() == 0 {
        t matches EmbedTarget::Label(l) && l.raw@ == name
    } else {
        t matches EmbedTarget::NotebookCell { notebook, cell_label } && notebook@ == path && cell_label.raw@ == name
    }
}

fn parse_embed_target(target: &Vec<char>) -> (k: BlockKind)
    ensures
        embed_shape(k, target@),
{
    let p = find_char(target, 0, '#');
    let (path, label) = if p < target.len() {
        (slice_chars(target, 0, p), slice_chars(target, p + 1, target.len()))
    } else {
        (Vec::new(), target.clone())
    };
    let label = Label { raw: string_of(&label) };
    let target = if path.len() == 0 {
        EmbedTarget::Label(label)
    } else {
        EmbedTarget::NotebookCell { notebook: string_of(&path), cell_label: label }
    };
    BlockKind::Embed { target, label: None }
}

/// The line number the last `key=value` parameter among `parts` gives
/// (`None` for a value that is no number); `current` when none names `key`.
pub open spec fn line_param(parts: Seq<Seq<char>>, key: Seq<char>, current: Option<u32>) -> Option<u32>
    decreases parts.len(),
{
    if parts.len() == 0 {
        current
    } else {
        let part = parts.last();
        let p = crate::text::first_of(part, 0, '=');
        if p < part.len() && part.subrange(0, p) == key {
            crate::text::spec_parse_u32(part.subrange(p + 1, part.len() as int))
        } else {
            line_param(parts.drop_last(), key, current)
        }
    }
}

/// The words' characters.
pub open spec fn words_view(parts: Seq<Vec<char>>) -> Seq<Seq<char>> {
    parts.map_values(|w: Vec<char>| w@)
}

/// `start-line=` / `end-line=` parameters of an include shortcode, read from
/// the words from `from` on; no other option is set.
fn shortcode_include_opts(parts: &Vec<Vec<char>>, from: usize) -> (o: IncludeOpts)
    ensures
        !o.literal,
        o.lang is None,
        o.lines is None,
        from >= parts@.len() ==> o.start_line is None && o.end_line is None,
        from < parts@.len() ==> o.start_line == line_param(
            words_view(parts@).subrange(from as int, parts@.len() as int),
            "start-line"@,
            None,
        ),
        from < parts@.len() ==> o.end_line == line_param(
            words_view(parts@).subrange(from as int, parts@.len() as int),
            "end-line"@,
            None,
        ),
{
    let mut opts = IncludeOpts::default();
    if from >= parts.len() {
        return opts;
    }
    let ghost ws = words_view(parts@);
    let mut k = from;
    while k < parts.len()
        invariant
            from <= k <= parts@.len(),
            ws == words_view(parts@),
            !opts.literal,
            opts.lang is None,
            opts.lines is None,
            opts.start_line == line_param(ws.subrange(from as int, k as int), "start-line"@, None),
            opts.end_line == line_param(ws.subrange(from as int, k as int), "end-line"@, None),
        decreases parts.len() - k,
    {
        let ghost seen = ws.subrange(from as int, k + 1);
        assert(seen.drop_last() =~= ws.subrange(from as int, k as int));
        assert(seen.last() == parts@[k as int]@);
        proof {
            reveal_strlit("start-line");
            reveal_strlit("end-line");
            assert("start-line"@.len() != "end-line"@.len());
            assert("start-line"@ != "end-line"@);
        }
        let part = &parts[k];
        let p = find_char(part, 0, '=');
        if p < part.len() {
            let key = string_of(&slice_chars(part, 0, p));
            let value = string_of(&slice_chars(part, p + 1, part.len()));
            if str_eq(key.as_str(), "start-line") {
                opts.start_line = parse_u32(value.as_str());
            } else if str_eq(key.as_str(), "end-line") {
                opts.end_line = parse_u32(value.as_str());
            }
        }
        k = k + 1;
    }
    opts
}

fn one_line(line: &str) -> (v: Vec<String>)
    ensures
        strs(v@) == seq![line@],
{
    let mut v: Vec<String> = Vec::new();
    v.push(String::from_str(line));
    assert(strs(v@) =~= seq![line@]);
    v
}

/// The parts one after another.
fn message(parts: &[&str]) -> (s: String)
    ensures
        s@ == crate::reader::inline::concat_all(strs_ref(parts@)),
{
    let ghost ps = strs_ref(parts@);
    let mut v: Vec<char> = Vec::new();
    let mut k: usize = 0;
    while k < parts.len()
        invariant
            k <= parts@.len(),
            ps == strs_ref(parts@),
            v@ == crate::reader::inline::concat_all(ps.subrange(0, k as int)),
        decreases parts.len() - k,
    {
        assert(ps.subrange(0, k + 1).drop_last() =~= ps.subrange(0, k as int));
        push_all(&mut v, &chars_of(parts[k]));
        k = k + 1;
    }
    assert(ps.subrange(0, k as int) =~= ps);
    string_of(&v)
}

/// The inline events of a page line, with no labels known.
pub open spec fn line_events(line: Seq<char>) -> Seq<crate::reader::inline::EventView> {
    crate::reader::inline::scan_from(crate::reader::mask::mask_from(line, 0, 0).0, 0, Seq::empty())
}

/// Some line holds an inline `` `r expr` ``.
pub open spec fn lines_have_knitr(lines: Seq<Seq<char>>) -> bool {
    exists|i: int, j: int| 0 <= i < lines.len() && 0 <= j < line_events(lines[i]).len()
        && #[trigger] line_events(lines[i])[j] is KnitrEval
}

/// Some line holds an inline Jupyter expression.
pub open spec fn lines_have_jupyter(lines: Seq<Seq<char>>) -> bool {
    exists|i: int, j: int| 0 <= i < lines.len() && 0 <= j < line_events(lines[i]).len()
        && #[trigger] line_events(lines[i])[j] is JupyterEval
}

/// Some top-level block is a code cell in `r`.
pub open spec fn blocks_have_r_cell(blocks: Seq<Block>) -> bool {
    exists|b: int| 0 <= b < blocks.len() && ((#[trigger] blocks[b]).kind matches BlockKind::CodeCell { lang, .. } && lang@ == "r"@)
}

/// Some top-level block is a code cell.
pub open spec fn blocks_have_cell(blocks: Seq<Block>) -> bool {
    exists|b: int| 0 <= b < blocks.len() && (#[trigger] blocks[b]).kind is CodeCell
}

/// The execution engine of a page: knitr when an inline `` `r expr` ``
/// appears or any code cell is `r`; else Jupyter when there is any code
/// cell or inline Jupyter expression; else none.
pub fn detect_engine(lines: &[&str], blocks: &Vec<Block>) -> (e: Option<Engine>)
    requires
        forall|k: int| 0 <= k < lines@.len() ==> (#[trigger] lines@[k])@.len() < i64::MAX,
    ensures
        e == if lines_have_knitr(strs_ref(lines@)) || blocks_have_r_cell(blocks@) {
            Some(Engine::Knitr)
        } else if blocks_have_cell(blocks@) || lines_have_jupyter(strs_ref(lines@)) {
            Some(Engine::Jupyter)
        } else {
            None
        },
{
    proof { reveal_strlit("r"); }
    let ghost ls = strs_ref(lines@);
    let mut saw_jupyter_inline = false;
    let mut i: usize = 0;
    while i < lines.len()
        invariant
            i <= lines@.len(),
            ls == strs_ref(lines@),
            forall|k: int| 0 <= k < lines@.len() ==> (#[trigger] lines@[k])@.len() < i64::MAX,
            forall|a: int, j: int| 0 <= a < i && 0 <= j < line_events(ls[a]).len() ==> !(#[trigger] line_events(ls[a])[j] is KnitrEval),
            saw_jupyter_inline == exists|a: int, j: int| 0 <= a < i && 0 <= j < line_events(ls[a]).len()
                && #[trigger] line_events(ls[a])[j] is JupyterEval,
        decreases lines.len() - i,
    {
        let no_labels: Vec<String> = Vec::new();
        let scan = scan_line(lines[i], no_labels.as_slice());
        let ghost evs = crate::reader::inline::events_view(scan.events@);
        assert(ls[i as int] == lines@[i as int]@);
        assert(strs(no_labels@) =~= Seq::<Seq<char>>::empty());
        assert(evs == line_events(ls[i as int]));
        let ghost before = saw_jupyter_inline;
        let mut k: usize = 0;
        while k < scan.events.len()
            invariant
                k <= scan.events@.len(),
                evs == crate::reader::inline::events_view(scan.events@),
                ls == strs_ref(lines@),
                evs == line_events(ls[i as int]),
                i < lines@.len(),
                forall|j: int| 0 <= j < k ==> !(#[trigger] evs[j] is KnitrEval),
                saw_jupyter_inline == (before || exists|j: int| 0 <= j < k && #[trigger] evs[j] is JupyterEval),
            decreases scan.events.len() - k,
        {
            match &scan.events[k] {
                InlineEvent::KnitrEval(_) => {
                    assert(evs[k as int] is KnitrEval);
                    assert(line_events(ls[i as int])[k as int] is KnitrEval);
                    assert(lines_have_knitr(ls));
                    return Some(Engine::Knitr);
                },
                InlineEvent::JupyterEval { .. } => {
                    assert(evs[k as int] is JupyterEval);
                    saw_jupyter_inline = true;
                },
                _ => {},
            }
            k = k + 1;
        }
        proof {
            assert forall|a: int, j: int| 0 <= a < i + 1 && 0 <= j < line_events(ls[a]).len() implies !(#[trigger] line_events(ls[a])[j] is KnitrEval) by {
                if a == i {
                    assert(line_events(ls[a])[j] == evs[j]);
                }
            }
            if saw_jupyter_inline && !before {
                let j = choose|j: int| 0 <= j < k && #[trigger] evs[j] is JupyterEval;
                assert(line_events(ls[i as int])[j] is JupyterEval);
            }
            if !saw_jupyter_inline {
                assert forall|a: int, j: int| 0 <= a < i + 1 && 0 <= j < line_events(ls[a]).len() implies !(#[trigger] line_events(ls[a])[j] is JupyterEval) by {
                    if a == i {
                        assert(line_events(ls[a])[j] == evs[j]);
                    }
                }
            }
        }
        i = i + 1;
    }
    let mut any_cell = false;
    let mut b: usize = 0;
    while b < blocks.len()
        invariant
            b <= blocks@.len(),
            forall|c: int| 0 <= c < b ==> !((#[trigger] blocks@[c]).kind matches BlockKind::CodeCell { lang, .. } && lang@ == "r"@),
            any_cell == exists|c: int| 0 <= c < b && (#[trigger] blocks@[c]).kind is CodeCell,
        decreases blocks.len() - b,
    {
        match &blocks[b].kind {
            BlockKind::CodeCell { lang, .. } => {
                if str_eq(lang.as_str(), "r") {
                    return Some(Engine::Knitr);
                }
                any_cell = true;
            },
            _ => {},
        }
        b = b + 1;
    }
    if any_cell || saw_jupyter_inline {
        Some(Engine::Jupyter)
    } else {
        None
    }
}

fn as_strs_q(v: &Vec<String>) -> (r: Vec<&str>)
    ensures
        strs_ref(r@) == strs(v@),
        r@.len() == v@.len(),
{
    let mut out: Vec<&str> = Vec::new();
    let mut k: usize = 0;
    while k < v.len()
        invariant
            k <= v@.len(),
            out@.len() == k,
            strs_ref(out@) == strs(v@).subrange(0, k as int),
        decreases v.len() - k,
    {
        let ghost prev = strs_ref(out@);
        let item = v[k].as_str();
        assert(item@ == strs(v@)[k as int]);
        out.push(item);
        assert(strs_ref(out@) =~= prev.push(item@));
        assert(strs_ref(out@) =~= strs(v@).subrange(0, k + 1));
        k = k + 1;
    }
    assert(strs(v@).subrange(0, k as int) =~= strs(v@));
    out
}

fn flush_paragraph_q(out: &mut Vec<Block>, lines: &mut Vec<String>, start: u32, end: u32, blank: u8, Ghost(lo): Ghost<int>)
    requires
        old(lines)@.len() > 0 ==> 1 <= lo <= start,
        spans_from(old(out)@, lo),
    ensures
        spans_from(final(out)@, lo),
        final(lines)@.len() == 0,
        old(lines)@.len() == 0 ==> final(out)@ == old(out)@,
        old(lines)@.len() > 0 ==> final(out)@.len() == old(out)@.len() + 1 && final(out)@.drop_last() == old(out)@
            && final(out)@.last().span.start_line == start && final(out)@.last().span.end_line == (if end > start {
            end - 1
        } else {
            start as int
        }),
        old(lines)@.len() > 0 ==> final(out)@.last().kind is Paragraph,
{
    if lines.len() > 0 {
        let mut taken: Vec<String> = Vec::new();
        std::mem::swap(&mut taken, lines);
        let e = if end > start { end - 1 } else { start };
        push_within(out, block(BlockKind::Paragraph { lines: taken }, start, e, blank), Ghost(lo));
        assert(out@.drop_last() =~= old(out)@);
    }
}

/// A line that is an HTML comment on its own: `<!--` after the leading
/// whitespace and `-->` before the trailing whitespace.
pub open spec fn q_html_comment_line(line: Seq<char>) -> bool {
    let a = crate::text::skip_ws(line, 0);
    let b = crate::text::trail_ws(line, line.len() as int);
    has_at(line.subrange(a, line.len() as int), 0, "<!--"@) && b >= 3 && has_at(line.subrange(0, b), b - 3, "-->"@)
}

/// A non-blank Quarto line that none of the block openers claims: it
/// belongs to a paragraph.
pub open spec fn quarto_plain(ctx: ReaderContext, line: Seq<char>) -> bool {
    let a = crate::text::skip_ws(line, 0);
    &&& crate::text::trim(line).len() > 0
    &&& crate::reader::spec_marker_id(line) is None
    &&& shortcode_answer(ctx, line, None::<BlockKind>)
    &&& fence::spec_quarto_code_open(line) is None
    &&& fence::spec_regular_code_open(line) is None
    &&& (fence::div_open_degenerate(line) || fence::spec_quarto_div_open(line) is None)
    &&& spec_image(line) is None
    &&& !has_at(line, a, "$$"@)
    &&& !starts_with_pipe_spec(line)
    &&& spec_heading_q(line) is None
    &&& !q_html_comment_line(line)
}

/// What a Quarto block that starts on `line` is, as far as that line
/// decides it, openers tried in this order: a preservation marker restores
/// what it points at; a block-level shortcode gives what it answers; a
/// code-cell fence gives a code cell in its language, or raw content when
/// the language is `=format`; a plain code fence gives static code; a div
/// fence gives a callout of its kind when its classes name one; an image
/// line gives a figure of that path; `$$` opens display math; a `|` line
/// starts a table; `#` marks a heading of that level, text and id; an HTML
/// comment line is a comment; any other line starts a paragraph. No block
/// starts on a blank line.
#[verifier::opaque]
pub open spec fn quarto_block_on(ctx: ReaderContext, expand: bool, line: Seq<char>, b: Block) -> bool {
    let a = crate::text::skip_ws(line, 0);
    if crate::text::trim(line).len() == 0 {
        false
    } else if crate::reader::spec_marker_id(line) is Some {
        quarto_marker_block(
            ctx.preserved@,
            crate::reader::spec_marker_id(line)->0,
            b.span.start_line,
            b.blank_lines_before,
            expand,
            b,
        )
    } else if !shortcode_answer(ctx, line, None::<BlockKind>) {
        shortcode_answer(ctx, line, Some(b.kind))
    } else if fence::spec_quarto_code_open(line) is Some {
        let lang = fence::spec_quarto_code_open(line).unwrap().2;
        if lang.len() > 0 && lang[0] == '=' {
            b.kind matches BlockKind::Raw { format, .. } && format@ == lang.subrange(1, lang.len() as int)
        } else {
            b.kind matches BlockKind::CodeCell { lang: l, .. } && l@ == lang
        }
    } else if fence::spec_regular_code_open(line) is Some {
        b.kind matches BlockKind::StaticCode { lang, .. } && crate::reader::myst::lang_text(lang)
            == fence::spec_regular_code_open(line).unwrap().3
    } else if !fence::div_open_degenerate(line) && fence::spec_quarto_div_open(line) is Some {
        spec_callout_kind(fence::spec_quarto_div_open(line).unwrap().2) matches Some(c) ==> (
        b.kind matches BlockKind::Admonition { kind, .. } && kind == c)
    } else if spec_image(line) is Some {
        b.kind matches BlockKind::Figure { src: FigureSource::Path(p), .. } && p@ == spec_image(line).unwrap().0
    } else if has_at(line, a, "$$"@) {
        b.kind is Math
    } else if starts_with_pipe_spec(line) {
        b.kind is Table
    } else if spec_heading_q(line) is Some {
        b.kind matches BlockKind::Heading { level, text, label } && spec_heading_q(line) == Some(
            (level as int, text@, crate::reader::myst::label_text(label)),
        )
    } else if q_html_comment_line(line) {
        b.kind matches BlockKind::Comment { style, .. } && style == CommentStyle::Html
    } else {
        b.kind is Paragraph
    }
}

/// Every block of `bs` numbered below the line limit is what the line it
/// starts on (`ls` numbered from `lo`) makes it.
pub open spec fn quarto_blocks_on(ctx: ReaderContext, expand: bool, ls: Seq<Seq<char>>, lo: int, bs: Seq<Block>) -> bool {
    forall|k: int|
        0 <= k < bs.len() && bs[k].span.start_line < u32::MAX ==> bs[k].span.start_line - lo < ls.len()
            && quarto_block_on(ctx, expand, ls[bs[k].span.start_line - lo], #[trigger] bs[k])
}

proof fn lemma_q_on_extend(ctx: ReaderContext, expand: bool, ls: Seq<Seq<char>>, lo: int, a: Seq<Block>, b: Seq<Block>)
    requires
        quarto_blocks_on(ctx, expand, ls, lo, a),
        a.len() <= b.len(),
        b.subrange(0, a.len() as int) == a,
        forall|k: int|
            a.len() <= k < b.len() && b[k].span.start_line < u32::MAX ==> b[k].span.start_line - lo < ls.len()
                && quarto_block_on(ctx, expand, ls[b[k].span.start_line - lo], #[trigger] b[k]),
    ensures
        quarto_blocks_on(ctx, expand, ls, lo, b),
{
    assert forall|k: int| 0 <= k < b.len() && b[k].span.start_line < u32::MAX implies b[k].span.start_line - lo < ls.len()
        && quarto_block_on(ctx, expand, ls[b[k].span.start_line - lo], #[trigger] b[k]) by {
        if k < a.len() {
            assert(b.subrange(0, a.len() as int)[k] == b[k]);
        }
    }
}

proof fn lemma_q_flush_on(ctx: ReaderContext, expand: bool, ls: Seq<Seq<char>>, lo: int, a: Seq<Block>, b: Seq<Block>, pon: bool, ps: int)
    requires
        quarto_blocks_on(ctx, expand, ls, lo, a),
        pon && ps < u32::MAX ==> ps - lo < ls.len() && quarto_plain(ctx, ls[ps - lo]),
        !pon ==> b == a,
        pon ==> b.len() == a.len() + 1 && b.drop_last() == a && b.last().span.start_line == ps
            && b.last().kind is Paragraph,
    ensures
        quarto_blocks_on(ctx, expand, ls, lo, b),
{
    reveal(quarto_block_on);
    if pon {
        assert(b.subrange(0, a.len() as int) =~= b.drop_last());
        lemma_q_on_extend(ctx, expand, ls, lo, a, b);
    }
}

/// A shortcode line that answers a block does not answer nothing.
proof fn lemma_shortcode_fires(ctx: ReaderContext, line: Seq<char>, k: BlockKind)
    requires
        shortcode_answer(ctx, line, Some(k)),
    ensures
        !shortcode_answer(ctx, line, None::<BlockKind>),
{
    let t = crate::text::trim(line);
    if crate::text::contains_at_any(t, "{{<"@) && has_at(t, 0, "{{<"@) && t.len() >= 3 && has_at(t, t.len() - 3, ">}}"@)
        && t.len() >= 6 {
        let parts = crate::reader::parts::words_from(crate::text::trim(t.subrange(3, t.len() - 3)), 0);
        if parts.len() > 0 && parts[0] == "include"@ {
            let arg = if parts.len() > 1 { parts[1] } else { Seq::empty() };
            if include_shortcode_answer(ctx, line, parts, arg, None::<BlockKind>) {
                let res = choose|res: Result<String, crate::fs::path_guard::PathGuardError>|
                    crate::reader::include_answer(ctx, arg, res) && match res {
                        Ok(path) => None::<BlockKind> matches Some(BlockKind::Include { target, opts }) && target@ == path@
                            && shortcode_opts(opts, parts),
                        Err(e) => kept_unmappable(None::<BlockKind>, line, crate::fs::path_guard::spec_guard_message(e)),
                    };
                assert(false);
            }
        }
    }
}

proof fn lemma_q_shortcode_on(ctx: ReaderContext, expand: bool, line: Seq<char>, b: Block)
    requires
        crate::text::trim(line).len() > 0,
        crate::reader::spec_marker_id(line) is None,
        shortcode_answer(ctx, line, Some(b.kind)),
    ensures
        quarto_block_on(ctx, expand, line, b),
{
    reveal(quarto_block_on);
    lemma_shortcode_fires(ctx, line, b.kind);
}

/// `b` is `a` with one block pushed, which is what its line makes it.
proof fn lemma_q_push_on(ctx: ReaderContext, expand: bool, ls: Seq<Seq<char>>, lo: int, a: Seq<Block>, b: Seq<Block>)
    requires
        quarto_blocks_on(ctx, expand, ls, lo, a),
        b.len() == a.len() + 1,
        b.drop_last() == a,
        b.last().span.start_line < u32::MAX ==> b.last().span.start_line - lo < ls.len(),
        b.last().span.start_line < u32::MAX ==> quarto_block_on(ctx, expand, ls[b.last().span.start_line - lo], b.last()),
    ensures
        quarto_blocks_on(ctx, expand, ls, lo, b),
{
    assert(b.subrange(0, a.len() as int) =~= b.drop_last());
    assert forall|k: int| a.len() <= k < b.len() && b[k].span.start_line < u32::MAX implies b[k].span.start_line - lo < ls.len()
        && quarto_block_on(ctx, expand, ls[b[k].span.start_line - lo], #[trigger] b[k]) by {
        assert(b[k] == b.last());
    }
    lemma_q_on_extend(ctx, expand, ls, lo, a, b);
}

fn push_within(out: &mut Vec<Block>, b: Block, Ghost(lo): Ghost<int>)
    requires
        lo <= b.span.start_line <= b.span.end_line,
        spans_from(old(out)@, lo),
    ensures
        spans_from(final(out)@, lo),
        final(out)@ == old(out)@.push(b),
{
    out.push(b);
    assert(spans_from(out@, lo)) by {
        assert forall|k: int| 0 <= k < out@.len() implies lo <= (#[trigger] out@[k]).span.start_line <= out@[k].span.end_line by {
            if k < old(out)@.len() {
                assert(out@[k] == old(out)@[k]);
            }
        }
    }
}

impl QuartoReader {
    /// A reader over `context`.
    pub fn new(context: ReaderContext) -> (r: QuartoReader)
        ensures
            r.context() == context,
    {
        QuartoReader { context }
    }

    /// The shared reader state.
    pub closed spec fn context(&self) -> ReaderContext {
        self.context
    }

    /// Reads a whole Quarto page: its frontmatter text, its blocks, and the
    /// engine its code runs under. A line holding only a colon fence and
    /// `{` is not accepted (the div reader has nothing to read on it).
    pub fn read_str(&self, text: &str) -> (r: Result<Document, crate::yaml::YamlReadError>)
        requires
            self.context().include_chain.wf(),
            text@.len() < i64::MAX,
        ensures
            r is Ok == crate::reader::lines::frontmatter_readable(text@),
            r matches Ok(d) ==> {
                &&& d.source == self.context().source
                &&& crate::reader::lines::frontmatter_read(text@, d.frontmatter)
                &&& spans_from(d.blocks@, 1)
                &&& quarto_blocks_on(self.context(), true, lines_of(text@), 1, d.blocks@)
            },
    {
        let lines = split_lines(text);
        let (raw, body_start, start_line) = split_frontmatter(&lines);
        assert(strs(lines@) == lines_of(text@));
        let frontmatter = match raw {
            Some(r) => match crate::yaml::parse_mapping(r.as_str()) {
                Ok(m) => Some(Frontmatter { raw: r, parsed: crate::yaml::YamlValue::Mapping(m) }),
                Err(e) => return Err(e),
            },
            None => None,
        };
        let rest = copy_lines(lines.as_slice(), body_start, lines.len());
        let refs = as_strs_q(&rest);
        proof {
            crate::reader::lines::lemma_lines_short(text@, 0);
            assert(strs(rest@) == strs(lines@).subrange(body_start as int, lines@.len() as int));
            assert(strs(rest@).len() == rest@.len());
            assert(strs_ref(refs@).len() == refs@.len());
            assert forall|k: int| 0 <= k < refs@.len() implies (#[trigger] refs@[k])@.len() < i64::MAX by {
                assert(strs_ref(refs@)[k] == refs@[k]@);
                assert(strs(rest@)[k] == strs(lines@)[body_start + k]);
                assert(strs(lines@) == lines_of(text@));
                assert(lines_of(text@)[body_start + k].len() <= text@.len());
            }
        }
        let blocks = self.parse_blocks(&refs, start_line, true);
        proof {
            let ls = lines_of(text@);
            let sub = strs_ref(refs@);
            assert(sub =~= ls.subrange(body_start as int, ls.len() as int));
            assert forall|k: int| 0 <= k < blocks@.len() && blocks@[k].span.start_line < u32::MAX implies blocks@[k].span.start_line - 1
                < ls.len() && quarto_block_on(
                self.context(),
                true,
                ls[blocks@[k].span.start_line - 1],
                #[trigger] blocks@[k],
            ) by {
                assert(blocks@[k].span.start_line - start_line < sub.len());
                assert(sub[blocks@[k].span.start_line - start_line] == ls[blocks@[k].span.start_line - 1]);
            }
        }
        let engine = detect_engine(refs.as_slice(), &blocks);
        Ok(Document {
            frontmatter,
            blocks,
            source: self.context.source.clone(),
            engine,
        })
    }
}

impl QuartoReader {
    /// Reads the lines of a page body whose first line is line `start_line`.
    pub fn parse_lines(&self, lines: &Vec<String>, start_line: u32) -> (out: Vec<Block>)
        requires
            self.context().include_chain.wf(),
            start_line >= 1,
        ensures
            spans_from(out@, start_line as int),
    {
        let refs = as_strs_q(lines);
        self.parse_blocks(&refs, start_line, true)
    }

    #[verifier::rlimit(100)]
    fn parse_blocks(&self, lines: &[&str], start_line: u32, expand: bool) -> (out: Vec<Block>)
        requires
            self.context().include_chain.wf(),
            start_line >= 1,
        ensures
            spans_from(out@, start_line as int),
            forall|j: int|
                0 <= j < lines@.len() && crate::text::trim(#[trigger] strs_ref(lines@)[j]).len() > 0 && start_line + j
                    < u32::MAX ==> covers(out@, start_line + j),
            quarto_blocks_on(self.context(), expand, strs_ref(lines@), start_line as int, out@),
        decreases (if expand { 1int } else { 0int }), lines@.len(), 2int,
    {
        let ghost lo = start_line as int;
        let ghost ls = strs_ref(lines@);
        let mut out: Vec<Block> = Vec::new();
        let mut para: Vec<String> = Vec::new();
        let mut para_start: u32 = 0;
        let mut para_blank: u8 = 0;
        let mut blank: u8 = 0;
        let mut i: usize = 0;
        while i < lines.len()
            invariant
                self.context().include_chain.wf(),
                start_line >= 1,
                lo == start_line as int,
                i <= lines@.len(),
                spans_from(out@, lo),
                para@.len() > 0 ==> lo <= para_start,
                para@.len() > 0 ==> para_start <= lo + i,
                ls == strs_ref(lines@),
                q_covered_upto(out@, ls, lo, i as int, para@.len() > 0, para_start as int),
                quarto_blocks_on(self.context(), expand, ls, lo, out@),
                para@.len() > 0 && para_start < u32::MAX ==> para_start - lo < i && quarto_plain(self.context(), ls[para_start - lo]),
            decreases lines.len() - i,
        {
            let line = lines[i];
            let line_no: u32 = line_at(start_line, i);
            let v = chars_of(line);
            let t = trim_chars(&v);
            assert(ls[i as int] == line@);
            let ghost o0 = out@;
            let ghost pon0 = para@.len() > 0;
            let ghost ps0 = para_start as int;
            if t.len() == 0 {
                flush_paragraph_q(&mut out, &mut para, para_start, line_no, para_blank, Ghost(lo));
                proof {
                    if pon0 {
                        lemma_q_flush(o0, out@, ls, lo, i as int, ps0);
                    }
                    lemma_q_flush_on(self.context(), expand, ls, lo, o0, out@, pon0, ps0);
                    assert(q_covered_upto(out@, ls, lo, i + 1, false, para_start as int));
                }
                blank = if blank < 255 { blank + 1 } else { 255 };
                i = i + 1;
                continue;
            }
            if let Some(id) = preservation_marker_id(line) {
                flush_paragraph_q(&mut out, &mut para, para_start, line_no, para_blank, Ghost(lo));
                proof {
                    if pon0 {
                        lemma_q_flush(o0, out@, ls, lo, i as int, ps0);
                    }
                    lemma_q_flush_on(self.context(), expand, ls, lo, o0, out@, pon0, ps0);
                    assert(q_covered_upto(out@, ls, lo, i as int, false, 0));
                }
                let ghost o1 = out@;
                self.push_preserved_or_marker(&mut out, id.as_str(), line_no, blank, expand, Ghost(lo));
                proof {
                    assert(out@.last().span.start_line < u32::MAX ==> quarto_block_on(
                        self.context(),
                        expand,
                        ls[out@.last().span.start_line - lo],
                        out@.last(),
                    )) by {
                        reveal(quarto_block_on);
                        assert(out@.last().span.start_line < u32::MAX ==> out@.last().span.start_line - lo == i);
                    }
                    assert(out@.drop_last() =~= o1);
                    assert(out@.last().span.start_line < u32::MAX ==> out@.last().span.start_line - lo == i);
                    lemma_q_push_on(self.context(), expand, ls, lo, o1, out@);
                    lemma_q_grow(o1, out@, ls, lo, i as int, false, 0);
                    lemma_q_span(out@, ls, lo, i as int, i as int, false, 0, out@.len() - 1);
                }
                blank = 0;
                i = i + 1;
                continue;
            }
            if let Some(kind) = self.shortcode(line) {
                proof {
                    lemma_shortcode_fires(self.context(), line@, kind);
                }
                flush_paragraph_q(&mut out, &mut para, para_start, line_no, para_blank, Ghost(lo));
                proof {
                    if pon0 {
                        lemma_q_flush(o0, out@, ls, lo, i as int, ps0);
                    }
                    lemma_q_flush_on(self.context(), expand, ls, lo, o0, out@, pon0, ps0);
                    assert(q_covered_upto(out@, ls, lo, i as int, false, 0));
                }
                let ghost o1 = out@;
                push_within(&mut out, block(kind, line_no, line_no, blank), Ghost(lo));
                proof {
                    lemma_q_shortcode_on(self.context(), expand, line@, out@.last());
                    assert(out@.last().span.start_line < u32::MAX ==> out@.last().span.start_line - lo == i);
                    assert(out@.drop_last() =~= o1);
                    assert(out@.last().span.start_line < u32::MAX ==> out@.last().span.start_line - lo == i);
                    lemma_q_push_on(self.context(), expand, ls, lo, o1, out@);
                    lemma_q_grow(o1, out@, ls, lo, i as int, false, 0);
                    lemma_q_span(out@, ls, lo, i as int, i as int, false, 0, out@.len() - 1);
                }
                blank = 0;
                i = i + 1;
                continue;
            }
            if let Some(open) = fence::parse_quarto_code_open(line) {
                flush_paragraph_q(&mut out, &mut para, para_start, line_no, para_blank, Ghost(lo));
                proof {
                    if pon0 {
                        lemma_q_flush(o0, out@, ls, lo, i as int, ps0);
                    }
                    lemma_q_flush_on(self.context(), expand, ls, lo, o0, out@, pon0, ps0);
                    assert(q_covered_upto(out@, ls, lo, i as int, false, 0));
                }
                let ghost o1 = out@;
                let (body, _, end) = fence::take_fenced_body(lines, i, '`', open.fence_count, open.indent);
                proof {
                    let ls = strs_ref(lines@);
                    fence::lemma_close_from(ls, i + 1, '`', open.fence_count as int, open.indent as int);
                }
                let lang = chars_of(open.lang.as_str());
                if lang.len() > 0 && lang[0] == '=' {
                    let kind = BlockKind::Raw { format: string_of(&slice_chars(&lang, 1, lang.len())), body };
                    assert(lang@ == fence::spec_quarto_code_open(line@).unwrap().2);
                    push_within(&mut out, block(kind, line_no, line_at(start_line, end), blank), Ghost(lo));
                    proof {
                        assert(out@.last().span.start_line < u32::MAX ==> quarto_block_on(
                        self.context(),
                        expand,
                        ls[out@.last().span.start_line - lo],
                        out@.last(),
                    )) by {
                        reveal(quarto_block_on);
                        assert(out@.last().span.start_line < u32::MAX ==> out@.last().span.start_line - lo == i);
                    }
                        assert(out@.drop_last() =~= o1);
                    assert(out@.last().span.start_line < u32::MAX ==> out@.last().span.start_line - lo == i);
                    lemma_q_push_on(self.context(), expand, ls, lo, o1, out@);
                        lemma_q_grow(o1, out@, ls, lo, i as int, false, 0);
                        lemma_q_span(out@, ls, lo, i as int, end as int, false, 0, out@.len() - 1);
                    }
                    blank = 0;
                    i = end + 1;
                    continue;
                }
                let (options, consumed) = parse_cell_options(body.as_slice());
                let mut label: Option<Label> = None;
                let mut k: usize = 0;
                while k < body.len()
                    invariant
                        k <= body@.len(),
                    decreases body.len() - k,
                {
                    if let Some(l) = parse_cell_option(body[k].as_str(), "label") {
                        label = Some(Label { raw: l });
                        break;
                    }
                    k = k + 1;
                }
                let kind = BlockKind::CodeCell {
                    lang: open.lang.clone(),
                    options,
                    body: copy_lines(body.as_slice(), consumed, body.len()),
                    label,
                };
                push_within(&mut out, block(kind, line_no, line_at(start_line, end), blank), Ghost(lo));
                proof {
                    assert(out@.last().span.start_line < u32::MAX ==> quarto_block_on(
                        self.context(),
                        expand,
                        ls[out@.last().span.start_line - lo],
                        out@.last(),
                    )) by {
                        reveal(quarto_block_on);
                        assert(out@.last().span.start_line < u32::MAX ==> out@.last().span.start_line - lo == i);
                    }
                    assert(out@.drop_last() =~= o1);
                    assert(out@.last().span.start_line < u32::MAX ==> out@.last().span.start_line - lo == i);
                    lemma_q_push_on(self.context(), expand, ls, lo, o1, out@);
                    lemma_q_grow(o1, out@, ls, lo, i as int, false, 0);
                    lemma_q_span(out@, ls, lo, i as int, end as int, false, 0, out@.len() - 1);
                }
                blank = 0;
                i = end + 1;
                continue;
            }
            if let Some((fence_char, count, indent, lang)) = fence::parse_regular_code_open(line) {
                flush_paragraph_q(&mut out, &mut para, para_start, line_no, para_blank, Ghost(lo));
                proof {
                    if pon0 {
                        lemma_q_flush(o0, out@, ls, lo, i as int, ps0);
                    }
                    lemma_q_flush_on(self.context(), expand, ls, lo, o0, out@, pon0, ps0);
                    assert(q_covered_upto(out@, ls, lo, i as int, false, 0));
                }
                let ghost o1 = out@;
                let (body, _, end) = fence::take_fenced_body(lines, i, fence_char, count, indent);
                proof {
                    let ls = strs_ref(lines@);
                    fence::lemma_close_from(ls, i + 1, fence_char, count as int, indent as int);
                }
                let kind = BlockKind::StaticCode { lang, body, attrs: Attrs::new() };
                push_within(&mut out, block(kind, line_no, line_at(start_line, end), blank), Ghost(lo));
                proof {
                    assert(out@.last().span.start_line < u32::MAX ==> quarto_block_on(
                        self.context(),
                        expand,
                        ls[out@.last().span.start_line - lo],
                        out@.last(),
                    )) by {
                        reveal(quarto_block_on);
                        assert(out@.last().span.start_line < u32::MAX ==> out@.last().span.start_line - lo == i);
                    }
                    assert(out@.drop_last() =~= o1);
                    assert(out@.last().span.start_line < u32::MAX ==> out@.last().span.start_line - lo == i);
                    lemma_q_push_on(self.context(), expand, ls, lo, o1, out@);
                    lemma_q_grow(o1, out@, ls, lo, i as int, false, 0);
                    lemma_q_span(out@, ls, lo, i as int, end as int, false, 0, out@.len() - 1);
                }
                blank = 0;
                i = end + 1;
                continue;
            }
            if !fence::div_open_degenerate_exec(line) {
                if let Some(open) = fence::parse_quarto_div_open(line) {
                    flush_paragraph_q(&mut out, &mut para, para_start, line_no, para_blank, Ghost(lo));
                    proof {
                        if pon0 {
                            lemma_q_flush(o0, out@, ls, lo, i as int, ps0);
                        }
                        lemma_q_flush_on(self.context(), expand, ls, lo, o0, out@, pon0, ps0);
                        assert(q_covered_upto(out@, ls, lo, i as int, false, 0));
                    }
                    let ghost o1 = out@;
                    let (body, original, end) = fence::take_fenced_body(lines, i, ':', open.fence_count, open.indent);
                    proof {
                        let ls = strs_ref(lines@);
                        fence::lemma_close_from(ls, i + 1, ':', open.fence_count as int, open.indent as int);
                        assert(strs(body@).len() == body@.len());
                    }
                    let body_start = if line_no < 4294967295u32 { line_no + 1 } else { line_no };
                    let kind = self.div_to_block(open.attrs.as_str(), &body, &original, body_start, expand, Ghost(lines@.len() as nat));
                    push_within(&mut out, block(kind, line_no, line_at(start_line, end), blank), Ghost(lo));
                    proof {
                        assert(out@.last().span.start_line < u32::MAX ==> quarto_block_on(
                        self.context(),
                        expand,
                        ls[out@.last().span.start_line - lo],
                        out@.last(),
                    )) by {
                        reveal(quarto_block_on);
                        assert(out@.last().span.start_line < u32::MAX ==> out@.last().span.start_line - lo == i);
                    }
                        assert(out@.drop_last() =~= o1);
                    assert(out@.last().span.start_line < u32::MAX ==> out@.last().span.start_line - lo == i);
                    lemma_q_push_on(self.context(), expand, ls, lo, o1, out@);
                        lemma_q_grow(o1, out@, ls, lo, i as int, false, 0);
                        lemma_q_span(out@, ls, lo, i as int, end as int, false, 0, out@.len() - 1);
                    }
                    blank = 0;
                    i = end + 1;
                    continue;
                }
            }
            if let Some(kind) = parse_image(line) {
                flush_paragraph_q(&mut out, &mut para, para_start, line_no, para_blank, Ghost(lo));
                proof {
                    if pon0 {
                        lemma_q_flush(o0, out@, ls, lo, i as int, ps0);
                    }
                    lemma_q_flush_on(self.context(), expand, ls, lo, o0, out@, pon0, ps0);
                    assert(q_covered_upto(out@, ls, lo, i as int, false, 0));
                }
                let ghost o1 = out@;
                push_within(&mut out, block(kind, line_no, line_no, blank), Ghost(lo));
                proof {
                    assert(out@.last().span.start_line < u32::MAX ==> quarto_block_on(
                        self.context(),
                        expand,
                        ls[out@.last().span.start_line - lo],
                        out@.last(),
                    )) by {
                        reveal(quarto_block_on);
                        assert(out@.last().span.start_line < u32::MAX ==> out@.last().span.start_line - lo == i);
                    }
                    assert(out@.drop_last() =~= o1);
                    assert(out@.last().span.start_line < u32::MAX ==> out@.last().span.start_line - lo == i);
                    lemma_q_push_on(self.context(), expand, ls, lo, o1, out@);
                    lemma_q_grow(o1, out@, ls, lo, i as int, false, 0);
                    lemma_q_span(out@, ls, lo, i as int, i as int, false, 0, out@.len() - 1);
                }
                blank = 0;
                i = i + 1;
                continue;
            }
            let a = skip_ws_exec(&v, 0);
            if has_at_exec(&v, a, &chars_of("$$")) {
                flush_paragraph_q(&mut out, &mut para, para_start, line_no, para_blank, Ghost(lo));
                proof {
                    if pon0 {
                        lemma_q_flush(o0, out@, ls, lo, i as int, ps0);
                    }
                    lemma_q_flush_on(self.context(), expand, ls, lo, o0, out@, pon0, ps0);
                    assert(q_covered_upto(out@, ls, lo, i as int, false, 0));
                }
                let ghost o1 = out@;
                let (kind, end) = parse_math_q(lines, i);
                push_within(&mut out, block(kind, line_no, line_at(start_line, end), blank), Ghost(lo));
                proof {
                    assert(out@.last().span.start_line < u32::MAX ==> quarto_block_on(
                        self.context(),
                        expand,
                        ls[out@.last().span.start_line - lo],
                        out@.last(),
                    )) by {
                        reveal(quarto_block_on);
                        assert(out@.last().span.start_line < u32::MAX ==> out@.last().span.start_line - lo == i);
                    }
                    assert(out@.drop_last() =~= o1);
                    assert(out@.last().span.start_line < u32::MAX ==> out@.last().span.start_line - lo == i);
                    lemma_q_push_on(self.context(), expand, ls, lo, o1, out@);
                    lemma_q_grow(o1, out@, ls, lo, i as int, false, 0);
                    lemma_q_span(out@, ls, lo, i as int, end as int, false, 0, out@.len() - 1);
                }
                blank = 0;
                i = end + 1;
                continue;
            }
            if pipe_line(line) {
                flush_paragraph_q(&mut out, &mut para, para_start, line_no, para_blank, Ghost(lo));
                proof {
                    if pon0 {
                        lemma_q_flush(o0, out@, ls, lo, i as int, ps0);
                    }
                    lemma_q_flush_on(self.context(), expand, ls, lo, o0, out@, pon0, ps0);
                    assert(q_covered_upto(out@, ls, lo, i as int, false, 0));
                }
                let ghost o1 = out@;
                let (kind, end) = parse_table(lines, i);
                push_within(&mut out, block(kind, line_no, line_at(start_line, end), blank), Ghost(lo));
                proof {
                    assert(out@.last().span.start_line < u32::MAX ==> quarto_block_on(
                        self.context(),
                        expand,
                        ls[out@.last().span.start_line - lo],
                        out@.last(),
                    )) by {
                        reveal(quarto_block_on);
                        assert(out@.last().span.start_line < u32::MAX ==> out@.last().span.start_line - lo == i);
                    }
                    assert(out@.drop_last() =~= o1);
                    assert(out@.last().span.start_line < u32::MAX ==> out@.last().span.start_line - lo == i);
                    lemma_q_push_on(self.context(), expand, ls, lo, o1, out@);
                    lemma_q_grow(o1, out@, ls, lo, i as int, false, 0);
                    lemma_q_span(out@, ls, lo, i as int, end as int, false, 0, out@.len() - 1);
                }
                blank = 0;
                i = end + 1;
                continue;
            }
            if let Some((level, text, label)) = parse_heading_q(line) {
                flush_paragraph_q(&mut out, &mut para, para_start, line_no, para_blank, Ghost(lo));
                proof {
                    if pon0 {
                        lemma_q_flush(o0, out@, ls, lo, i as int, ps0);
                    }
                    lemma_q_flush_on(self.context(), expand, ls, lo, o0, out@, pon0, ps0);
                    assert(q_covered_upto(out@, ls, lo, i as int, false, 0));
                }
                let ghost o1 = out@;
                push_within(&mut out, block(BlockKind::Heading { level, text, label }, line_no, line_no, blank), Ghost(lo));
                proof {
                    assert(out@.last().span.start_line < u32::MAX ==> quarto_block_on(
                        self.context(),
                        expand,
                        ls[out@.last().span.start_line - lo],
                        out@.last(),
                    )) by {
                        reveal(quarto_block_on);
                        assert(out@.last().span.start_line < u32::MAX ==> out@.last().span.start_line - lo == i);
                    }
                    assert(out@.drop_last() =~= o1);
                    assert(out@.last().span.start_line < u32::MAX ==> out@.last().span.start_line - lo == i);
                    lemma_q_push_on(self.context(), expand, ls, lo, o1, out@);
                    lemma_q_grow(o1, out@, ls, lo, i as int, false, 0);
                    lemma_q_span(out@, ls, lo, i as int, i as int, false, 0, out@.len() - 1);
                }
                blank = 0;
                i = i + 1;
                continue;
            }
            let b = trail_ws_exec(&v, v.len());
            let left = slice_chars(&v, a, v.len());
            let right = slice_chars(&v, 0, b);
            if has_at_exec(&left, 0, &chars_of("<!--")) && b >= 3 && has_at_exec(&right, b - 3, &chars_of("-->")) {
                flush_paragraph_q(&mut out, &mut para, para_start, line_no, para_blank, Ghost(lo));
                proof {
                    if pon0 {
                        lemma_q_flush(o0, out@, ls, lo, i as int, ps0);
                    }
                    lemma_q_flush_on(self.context(), expand, ls, lo, o0, out@, pon0, ps0);
                    assert(q_covered_upto(out@, ls, lo, i as int, false, 0));
                }
                let ghost o1 = out@;
                let text = html_comment_text(&t);
                let kind = BlockKind::Comment { text, style: CommentStyle::Html };
                push_within(&mut out, block(kind, line_no, line_no, blank), Ghost(lo));
                proof {
                    assert(out@.last().span.start_line < u32::MAX ==> quarto_block_on(
                        self.context(),
                        expand,
                        ls[out@.last().span.start_line - lo],
                        out@.last(),
                    )) by {
                        reveal(quarto_block_on);
                        assert(out@.last().span.start_line < u32::MAX ==> out@.last().span.start_line - lo == i);
                    }
                    assert(out@.drop_last() =~= o1);
                    assert(out@.last().span.start_line < u32::MAX ==> out@.last().span.start_line - lo == i);
                    lemma_q_push_on(self.context(), expand, ls, lo, o1, out@);
                    lemma_q_grow(o1, out@, ls, lo, i as int, false, 0);
                    lemma_q_span(out@, ls, lo, i as int, i as int, false, 0, out@.len() - 1);
                }
                blank = 0;
                i = i + 1;
                continue;
            }
            if para.len() == 0 {
                para_start = line_no;
                para_blank = blank;
                blank = 0;
            }
            para.push(String::from_str(line));
            proof {
                assert forall|j: int|
                    0 <= j < i + 1 && crate::text::trim(#[trigger] ls[j]).len() > 0 && lo + j < u32::MAX implies covers(
                    out@,
                    lo + j,
                ) || (para@.len() > 0 && para_start <= lo + j) by {
                    if j < i {
                        assert(covers(o0, lo + j) || (pon0 && ps0 <= lo + j));
                    }
                }
            }
            i = i + 1;
        }
        let end_no: u32 = line_at(start_line, lines.len());
        let ghost o0 = out@;
        let ghost pon0 = para@.len() > 0;
        let ghost ps0 = para_start as int;
        flush_paragraph_q(&mut out, &mut para, para_start, end_no, para_blank, Ghost(lo));
        proof {
            if pon0 {
                lemma_q_flush(o0, out@, ls, lo, i as int, ps0);
            }
            lemma_q_flush_on(self.context(), expand, ls, lo, o0, out@, pon0, ps0);
            assert(q_covered_upto(out@, ls, lo, i as int, false, 0));
        }
        out
    }

    /// The block a `::: {attrs}` div becomes: a callout, a tab set, a margin
    /// note, a theorem, a figure (an id and no other role), a grid or card,
    /// or, for anything else, an unmappable construct kept verbatim.
    fn div_to_block(
        &self,
        attrs: &str,
        body: &Vec<String>,
        original: &Vec<String>,
        body_start: u32,
        expand: bool,
        Ghost(bound): Ghost<nat>,
    ) -> (k: BlockKind)
        requires
            self.context().include_chain.wf(),
            body@.len() < bound,
            1 <= body_start,
        ensures
            spec_callout_kind(attrs@) matches Some(c) ==> (k matches BlockKind::Admonition { kind, .. } && kind == c),
        decreases (if expand { 1int } else { 0int }), bound, 1int,
    {
        let parsed_attrs = parse_attrs(attrs);
        let av = chars_of(attrs);
        let refs = as_strs_q(body);
        if let Some(kind) = callout_kind(attrs) {
            let title = match parsed_attrs.get("title") {
                Some(t) => Some(t.clone()),
                None => None,
            };
            let collapse = match parsed_attrs.get("collapse") {
                Some(c) => Some(str_eq(c.as_str(), "true")),
                None => None,
            };
            return BlockKind::Admonition { kind, title, body: self.parse_blocks(&refs, body_start, expand), collapse };
        }
        if has(&av, ".panel-tabset") {
            return BlockKind::TabSet { items: self.parse_tabs(body, body_start, expand, Ghost(bound)) };
        }
        if has(&av, ".column-margin") {
            return BlockKind::Margin { body: self.parse_blocks(&refs, body_start, expand) };
        }
        let label = match parsed_attrs.get("id") {
            Some(id) => Some(Label { raw: id.clone() }),
            None => None,
        };
        if has(&av, ".theorem") {
            return BlockKind::Theorem {
                thm_type: String::from_str("theorem"),
                label,
                body: self.parse_blocks(&refs, body_start, expand),
            };
        }
        if label.is_some() {
            return BlockKind::Figure {
                src: FigureSource::Path(String::new()),
                caption: copy_lines(body.as_slice(), 0, body.len()),
                label,
                attrs: parsed_attrs,
            };
        }
        if has(&av, ".grid") || has(&av, ".card") {
            let name = trim_start_matches_char(&av, '.');
            return BlockKind::Directive {
                name: string_of(&name),
                attrs: parsed_attrs,
                body: self.parse_blocks(&refs, body_start, expand),
                label: None,
            };
        }
        let reason = message(&["unrecognized Quarto div {", attrs, "}"]);
        BlockKind::Unmappable { original: copy_lines(original.as_slice(), 0, original.len()), reason }
    }

    /// The tabs of a `.panel-tabset` div: each `## Label` line starts a tab
    /// whose body runs to the next one.
    fn parse_tabs(&self, lines: &Vec<String>, start: u32, expand: bool, Ghost(bound): Ghost<nat>) -> (items: Vec<TabItem>)
        requires
            self.context().include_chain.wf(),
            lines@.len() < bound,
            1 <= start,
        ensures
            tab_names(items@) == tab_labels(strs(lines@)),
        decreases (if expand { 1int } else { 0int }), bound, 0int,
    {
        let mut items: Vec<TabItem> = Vec::new();
        let mut current_label: Option<String> = None;
        let mut current: Vec<String> = Vec::new();
        let mut current_start = start;
        let mut idx: usize = 0;
        let prefix = chars_of("## ");
        while idx < lines.len()
            invariant
                self.context().include_chain.wf(),
                lines@.len() < bound,
                1 <= start <= current_start,
                idx <= lines@.len(),
                current@.len() <= idx,
                tab_names(items@) + label_seq(current_label) == tab_labels(strs(lines@).subrange(0, idx as int)),
                prefix@ == "## "@,
            decreases lines.len() - idx,
        {
            let ghost ls = strs(lines@);
            assert(ls.subrange(0, idx + 1).drop_last() =~= ls.subrange(0, idx as int));
            assert(ls[idx as int] == lines@[idx as int]@);
            let ghost before = tab_names(items@);
            let ghost held = label_seq(current_label);
            proof { reveal_strlit("## "); }
            let v = chars_of(lines[idx].as_str());
            if has_at_exec(&v, 0, &prefix) {
                let label = string_of(&slice_chars(&v, prefix.len(), v.len()));
                let previous = current_label;
                current_label = Some(label);
                if let Some(prev_label) = previous {
                    let refs = as_strs_q(&current);
                    let body = self.parse_blocks(&refs, current_start, expand);
                    let ghost pl = prev_label@;
                    items.push(TabItem { label: prev_label, body });
                    assert(tab_names(items@) =~= before.push(pl));
                    current = Vec::new();
                }
                current_start = line_at(start, idx + 1);
                assert(tab_names(items@) + seq![v@.subrange(3, v@.len() as int)] =~= before + held + seq![
                    v@.subrange(3, v@.len() as int),
                ]);
            } else {
                current.push(lines[idx].clone());
                assert(tab_labels(ls.subrange(0, idx + 1)) =~= tab_labels(ls.subrange(0, idx as int)));
            }
            idx = idx + 1;
        }
        assert(strs(lines@).subrange(0, idx as int) =~= strs(lines@));
        let ghost before = tab_names(items@);
        if let Some(label) = current_label {
            let refs = as_strs_q(&current);
            let body = self.parse_blocks(&refs, current_start, expand);
            let ghost l = label@;
            items.push(TabItem { label, body });
            assert(tab_names(items@) =~= before.push(l));
        }
        items
    }

    /// A `{{< … >}}` shortcode line: an include, an embed, or a shortcode
    /// with no MyST equivalent.
    fn shortcode(&self, line: &str) -> (r: Option<BlockKind>)
        requires
            self.context().include_chain.wf(),
        ensures
            shortcode_answer(self.context(), line@, r),
    {
        proof {
            reveal_strlit("{{<");
            reveal_strlit(">}}");
        }
        let t = trim_chars(&chars_of(line));
        let open = chars_of("{{<");
        let close = chars_of(">}}");
        if !contains_chars(&t, &open) {
            assert(shortcode_answer(self.context(), line@, None));
            return None;
        }
        if !has_at_exec(&t, 0, &open) || !(t.len() >= 3 && has_at_exec(&t, t.len() - 3, &close)) {
            let r = Some(BlockKind::Unmappable {
                original: one_line(line),
                reason: String::from_str("Quarto shortcodes must be supported block-level forms"),
            });
            assert(shortcode_answer(self.context(), line@, r));
            return r;
        }
        if t.len() < 6 {
            assert(shortcode_answer(self.context(), line@, None));
            return None;
        }
        let inner = trim_chars(&slice_chars(&t, 3, t.len() - 3));
        let parts = split_words(&inner);
        let ghost ws = words_view(parts@);
        assert(ws == crate::reader::parts::words_from(inner@, 0));
        if parts.len() == 0 {
            assert(shortcode_answer(self.context(), line@, None));
            return None;
        }
        let name = string_of(&parts[0]);
        assert(name@ == ws[0]);
        let ghost arg = if ws.len() > 1 { ws[1] } else { Seq::<char>::empty() };
        proof {
            reveal_strlit("include");
            reveal_strlit("embed");
        }
        if str_eq(name.as_str(), "include") {
            let target = if parts.len() > 1 { string_of(&parts[1]) } else { String::new() };
            assert(target@ == arg);
            let res = self.context.resolve_include(target.as_str());
            let ghost res_copy = res;
            let r = match res {
                Ok(path) => {
                    let opts = shortcode_include_opts(&parts, 2);
                    assert(shortcode_opts(opts, ws));
                    let r = Some(BlockKind::Include { target: path, opts });
                    assert(match res_copy {
                        Ok(p) => r matches Some(BlockKind::Include { target, opts }) && target@ == p@ && shortcode_opts(opts, ws),
                        Err(e) => false,
                    });
                    r
                },
                Err(e) => {
                    let r = Some(BlockKind::Unmappable { original: one_line(line), reason: e.message() });
                    assert(match res_copy {
                        Ok(p) => false,
                        Err(e) => kept_unmappable(r, line@, crate::fs::path_guard::spec_guard_message(e)),
                    });
                    r
                },
            };
            proof {
                assert(crate::reader::include_answer(self.context(), arg, res_copy));
                assert(exists|res: Result<String, crate::fs::path_guard::PathGuardError>|
                    crate::reader::include_answer(self.context(), arg, res) && match res {
                        Ok(path) => r matches Some(BlockKind::Include { target, opts }) && target@ == path@
                            && shortcode_opts(opts, ws),
                        Err(e) => kept_unmappable(r, line@, crate::fs::path_guard::spec_guard_message(e)),
                    });
                assert(name@ == "include"@);
                assert(include_shortcode_answer(self.context(), line@, ws, arg, r));
                assert(ws == crate::reader::parts::words_from(crate::text::trim(t@.subrange(3, t@.len() - 3)), 0));
            }
            assert(shortcode_answer(self.context(), line@, r));
            r
        } else if str_eq(name.as_str(), "embed") {
            let target = if parts.len() > 1 { parts[1].clone() } else { Vec::new() };
            assert(target@ == arg);
            let r = Some(self.parse_embed(&target, line));
            assert(shortcode_answer(self.context(), line@, r));
            r
        } else if str_eq(name.as_str(), "video") || str_eq(name.as_str(), "pagebreak") || str_eq(name.as_str(), "meta")
            || str_eq(name.as_str(), "var") {
            let reason = message(&["Quarto shortcode ", name.as_str(), " has no MyST equivalent"]);
            proof {
                reveal_with_fuel(crate::reader::inline::concat_all, 4);
            }
            let r = Some(BlockKind::Unmappable { original: one_line(line), reason });
            assert(shortcode_answer(self.context(), line@, r));
            r
        } else {
            let reason = message(&["Quarto shortcode ", name.as_str(), " is not recognized"]);
            proof {
                reveal_with_fuel(crate::reader::inline::concat_all, 4);
            }
            let r = Some(BlockKind::Unmappable { original: one_line(line), reason });
            assert(shortcode_answer(self.context(), line@, r));
            r
        }
    }

    /// An embed whose notebook path must pass the include checks.
    fn parse_embed(&self, target: &Vec<char>, line: &str) -> (k: BlockKind)
        requires
            self.context().include_chain.wf(),
        ensures
            embed_answer(self.context(), target@, line@, k),
    {
        let p = find_char(target, 0, '#');
        if p < target.len() && p > 0 {
            let path = string_of(&slice_chars(target, 0, p));
            let res = self.context.resolve_include(path.as_str());
            match res {
                Err(e) => {
                    let k = BlockKind::Unmappable { original: one_line(line), reason: e.message() };
                    assert(embed_by(res, target@, line@, k));
                    return k;
                },
                Ok(_) => {
                    let k = parse_embed_target(target);
                    assert(embed_by(res, target@, line@, k));
                    return k;
                },
            }
        }
        parse_embed_target(target)
    }

    /// Restores the construct a preservation marker points at: reparsed
    /// only when it was captured as Quarto and reads back as one block,
    /// otherwise kept opaque (`preserved-foreign-dialect` for another
    /// dialect), or an empty placeholder when the store has no such entry.
    /// Inside a restored construct (`expand` off), a further marker is
    /// restored opaquely.
    fn push_preserved_or_marker(
        &self,
        out: &mut Vec<Block>,
        id: &str,
        line: u32,
        blank: u8,
        expand: bool,
        Ghost(lo): Ghost<int>,
    )
        requires
            self.context().include_chain.wf(),
            1 <= lo <= line,
            spans_from(old(out)@, lo),
        ensures
            spans_from(final(out)@, lo),
            final(out)@.len() == old(out)@.len() + 1,
            final(out)@.drop_last() == old(out)@,
            quarto_marker_block(self.context().preserved@, id@, line, blank, expand, final(out)@.last()),
        decreases (if expand { 1int } else { 0int }), 0nat, 0int,
    {
        match self.context.preserved.get_matching(id, Dialect::Quarto) {
            Some(original) => {
                if expand {
                    let refs = as_strs_q(original);
                    let mut parsed = self.parse_blocks(&refs, line, false);
                    if parsed.len() == 1 {
                        let first = parsed.remove(0);
                        push_within(out, Block { kind: first.kind, span: Span::single(line), blank_lines_before: blank }, Ghost(lo));
                        assert(out@.drop_last() =~= old(out)@);
                        return;
                    }
                }
                let kept = copy_lines(original.as_slice(), 0, original.len());
                assert(strs(original@).subrange(0, original@.len() as int) =~= strs(original@));
                push_within(out, block(BlockKind::Preserved { original: kept, code: "preserved-sidecar" }, line, line, blank), Ghost(lo));
                assert(out@.drop_last() =~= old(out)@);
            },
            None => match self.context.preserved.get(id) {
                Some(original) => {
                    let kept = copy_lines(original.as_slice(), 0, original.len());
                    assert(strs(original@).subrange(0, original@.len() as int) =~= strs(original@));
                    push_within(out, block(BlockKind::Preserved { original: kept, code: "preserved-foreign-dialect" }, line, line, blank), Ghost(lo));
                    assert(out@.drop_last() =~= old(out)@);
                },
                None => {
                    push_within(out, block(BlockKind::Preserved { original: Vec::new(), code: "missing-sidecar-entry" }, line, line, blank), Ghost(lo));
                    assert(out@.drop_last() =~= old(out)@);
                },
            },
        }
    }
}

/// The text of a one-line HTML comment.
/// Where the leading `<!--` markers of `t`, from `a` on, end.
pub open spec fn comment_open_end(t: Seq<char>, a: int) -> int
    decreases t.len() - a,
{
    if 0 <= a && a + 4 <= t.len() && has_at(t, a, "<!--"@) {
        comment_open_end(t, a + 4)
    } else {
        a
    }
}

/// Where the trailing `-->` markers of `t` before `b` start, not reaching
/// back past `a`.
pub open spec fn comment_close_start(t: Seq<char>, a: int, b: int) -> int
    decreases b,
{
    if 0 <= a && b - a >= 3 && has_at(t, b - 3, "-->"@) {
        comment_close_start(t, a, b - 3)
    } else {
        b
    }
}

/// The text of a one-line HTML comment: the line without its `<!--` and
/// `-->` markers, trimmed.
pub open spec fn spec_comment_text(t: Seq<char>) -> Seq<char> {
    let a = comment_open_end(t, 0);
    crate::text::trim(t.subrange(a, comment_close_start(t, a, t.len() as int)))
}

/// The text of a one-line HTML comment.
fn html_comment_text(t: &Vec<char>) -> (s: String)
    ensures
        s@ == spec_comment_text(t@),
{
    proof {
        reveal_strlit("<!--");
        reveal_strlit("-->");
    }
    let open = chars_of("<!--");
    let close = chars_of("-->");
    let mut a: usize = 0;
    while open.len() <= t.len() - a && has_at_exec(t, a, &open)
        invariant
            a <= t@.len(),
            open@ == "<!--"@,
            open@.len() == 4,
            comment_open_end(t@, 0) == comment_open_end(t@, a as int),
        decreases t.len() - a,
    {
        a = a + open.len();
    }
    let mut b: usize = t.len();
    while b - a >= close.len() && has_at_exec(t, b - close.len(), &close)
        invariant
            a <= b <= t@.len(),
            close@ == "-->"@,
            close@.len() == 3,
            a == comment_open_end(t@, 0),
            comment_close_start(t@, a as int, t@.len() as int) == comment_close_start(t@, a as int, b as int),
        decreases b,
    {
        b = b - close.len();
    }
    string_of(&trim_chars(&slice_chars(t, a, b)))
}

} // verus!
