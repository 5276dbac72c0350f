//! The MyST Markdown reader.
use vstd::prelude::*;
use crate::ir::{AdmonitionKind, Attrs, Block, BlockKind, CellOptions, CommentStyle, Document, EmbedTarget, Engine, FigureSource, Frontmatter, TabItem};
use crate::label::Label;
use crate::reader::fence::{self, lemma_scan_state_len, spec_myst_open, strs, strs_ref, DirectiveFrame};
use crate::reader::lines::{lines_of, split_frontmatter, split_lines};
use crate::reader::parts::{
    admonition_kind, cell_options_from_myst, collapse_from_options, copy_lines, find_table_start, include_opts,
    options_to_attrs, parse_heading, parse_target, spec_admonition_kind, trim_blank_lines,
};
use crate::reader::{block, label_option, parse_cell_options, preservation_marker_id, ReaderContext, StoreView};
use crate::span::Span;
use crate::text::{chars_of, has_at_exec, push_all, skip_ws_exec, slice_chars, str_eq, string_of, trim_chars, trim_start};

verus! {

/// Every stored original is short enough that its lines can be numbered
/// from any line before `limit`.
pub open spec fn store_fits(s: StoreView, limit: int) -> bool {
    forall|i: int| 0 <= i < s.len() ==> #[trigger] s[i].1.1.len() + limit <= u32::MAX
}

proof fn lemma_store_fits_mono(s: StoreView, a: int, b: int)
    requires
        store_fits(s, a),
        b <= a,
    ensures
        store_fits(s, b),
{
    assert forall|i: int| 0 <= i < s.len() implies #[trigger] s[i].1.1.len() + b <= u32::MAX by {
        assert(s[i].1.1.len() + a <= u32::MAX);
    }
}

/// The block a preservation marker with `id` on `line` becomes in a MyST
/// document, given the preservation store: a placeholder when the store has
/// no such entry; inside a restored construct (`expand` off) the stored
/// lines kept opaque. Reparsed lines give the block they read back as when
/// they read back as exactly one, which this leaves open; otherwise they are
/// kept opaque.
pub open spec fn myst_marker_block(store: StoreView, id: Seq<char>, line: u32, blank: u8, expand: bool, b: Block) -> bool {
    &&& b.span.start_line == line
    &&& b.span.end_line == line
    &&& b.blank_lines_before == blank
    &&& match crate::reader::store_get(store, id) {
        None => b.kind matches BlockKind::Preserved { original, code } && original@.len() == 0 && code@
            == "missing-sidecar-entry"@,
        Some((_, orig)) => !expand ==> (b.kind matches BlockKind::Preserved { original, code } && strs(original@)
            == orig && code@ == "preserved-sidecar"@),
    }
}

/// A line that carries content of its own: not blank, and not a `(label)=`
/// target line (a preservation marker counts as content).
pub open spec fn holds_content(l: Seq<char>) -> bool {
    crate::text::trim(l).len() > 0 && (crate::reader::spec_marker_id(l) is Some || crate::reader::parts::spec_target(l) is None)
}

/// Some block's span holds line `line`.
pub open spec fn covers(out: Seq<Block>, line: int) -> bool {
    exists|k: int| 0 <= k < out.len() && (#[trigger] out[k]).span.start_line <= line <= out[k].span.end_line
}

/// Every content line among the first `i` of `ls` (numbered from `start`)
/// lies in a block of `out`, or in the paragraph being collected from
/// `para_start` on when `para_on`.
pub open spec fn covered_upto(out: Seq<Block>, ls: Seq<Seq<char>>, start: int, i: int, para_on: bool, para_start: int) -> bool {
    forall|j: int| 0 <= j < i && #[trigger] holds_content(ls[j]) ==> covers(out, start + j) || (para_on && para_start
        <= start + j)
}

proof fn lemma_covered_grow(a: Seq<Block>, b: Seq<Block>, ls: Seq<Seq<char>>, start: int, i: int, pon: bool, ps: int)
    requires
        a.len() <= b.len(),
        forall|k: int| 0 <= k < a.len() ==> b[k] == a[k],
        covered_upto(a, ls, start, i, pon, ps),
    ensures
        covered_upto(b, ls, start, i, pon, ps),
{
    assert forall|j: int| 0 <= j < i && #[trigger] holds_content(ls[j]) implies covers(b, start + j) || (pon && ps
        <= start + j) by {
        if covers(a, start + j) {
            let k = choose|k: int| 0 <= k < a.len() && (#[trigger] a[k]).span.start_line <= start + j <= a[k].span.end_line;
            assert(b[k] == a[k]);
        }
    }
}

/// A block whose span runs over lines `i..=e` covers them.
proof fn lemma_covered_span(out: Seq<Block>, ls: Seq<Seq<char>>, start: int, i: int, e: int, pon: bool, ps: int, k: int)
    requires
        covered_upto(out, ls, start, i, pon, ps),
        0 <= k < out.len(),
        out[k].span.start_line <= start + i,
        start + e <= out[k].span.end_line,
        i <= e + 1,
    ensures
        covered_upto(out, ls, start, e + 1, pon, ps),
{
    assert forall|j: int| 0 <= j < e + 1 && #[trigger] holds_content(ls[j]) implies covers(out, start + j) || (pon
        && ps <= start + j) by {
        if j >= i {
            assert(out[k].span.start_line <= start + j <= out[k].span.end_line);
        }
    }
}

/// Closing the paragraph: its block covers the lines it collected.
proof fn lemma_covered_flush(a: Seq<Block>, b: Seq<Block>, ls: Seq<Seq<char>>, start: int, i: int, ps: int)
    requires
        covered_upto(a, ls, start, i, true, ps),
        b.len() == a.len() + 1,
        b.drop_last() == a,
        b.last().span.start_line == ps,
        b.last().span.end_line == start + i - 1,
    ensures
        covered_upto(b, ls, start, i, false, 0),
{
    assert forall|j: int| 0 <= j < i && #[trigger] holds_content(ls[j]) implies covers(b, start + j) by {
        if covers(a, start + j) {
            let k = choose|k: int| 0 <= k < a.len() && (#[trigger] a[k]).span.start_line <= start + j <= a[k].span.end_line;
            assert(b[k] == b.drop_last()[k]);
        } else {
            assert(b[b.len() - 1].span.start_line <= start + j <= b[b.len() - 1].span.end_line);
        }
    }
}

/// Every block's span is well formed and lies within `lo..=hi`.
pub open spec fn spans_within(out: Seq<Block>, lo: int, hi: int) -> bool {
    forall|k: int| 0 <= k < out.len() ==> lo <= (#[trigger] out[k]).span.start_line <= out[k].span.end_line <= hi
}

/// Reads MyST Markdown into blocks.
#[derive(Debug)]
pub struct MystReader {
    context: ReaderContext,
}

/// The pending `(label)=` target: its label, line and blank lines before it.
type Pending = Option<(Label, u32, u8)>;

/// Gives `block` the pending target's label when it can carry one and has
/// none; otherwise the target stays a block of its own, before `block`.
fn push_with_target(out: &mut Vec<Block>, block: Block, pending: &mut Pending, Ghost(lo): Ghost<int>, Ghost(hi): Ghost<int>)
    requires
        *old(pending) matches Some(t) ==> lo <= t.1 <= hi,
        lo >= 1,
        lo <= block.span.start_line <= block.span.end_line <= hi,
        spans_within(old(out)@, lo, hi),
    ensures
        spans_within(final(out)@, lo, hi),
        *final(pending) is None,
        old(out)@.len() + 1 <= final(out)@.len() <= old(out)@.len() + 2,
        forall|k: int| 0 <= k < old(out)@.len() ==> final(out)@[k] == old(out)@[k],
        final(out)@.last().span == block.span,
        final(out)@.len() == old(out)@.len() + 2 ==> (*old(pending) matches Some(t)
            && final(out)@[old(out)@.len() as int].span == (Span { start_line: t.1, end_line: t.1 })
            && final(out)@[old(out)@.len() as int].kind == BlockKind::Target { label: t.0 }),
        unlabeled(final(out)@.last().kind) == unlabeled(block.kind),
{
    let mut block = block;
    match pending.take() {
        Some((label, line, blank)) => {
            let lbl = Label { raw: label.raw.clone() };
            if !attach_label(&mut block, lbl) {
                out.push(crate::reader::block(BlockKind::Target { label }, line, line, blank));
            }
        },
        None => {},
    }
    out.push(block);
    assert(spans_within(out@, lo, hi)) by {
        assert forall|k: int| 0 <= k < out@.len() implies lo <= (#[trigger] out@[k]).span.start_line <= out@[k].span.end_line <= hi by {
            if k < old(out)@.len() {
                assert(out@[k] == old(out)@[k]);
            }
        }
    }
}

/// The label slot of a block a target line can label: a heading, figure,
/// table, display math, code cell, theorem or directive; `None` for any
/// other kind.
pub open spec fn label_slot(k: BlockKind) -> Option<Option<Label>> {
    match k {
        BlockKind::Heading { label, .. } => Some(label),
        BlockKind::Figure { label, .. } => Some(label),
        BlockKind::Table { label, .. } => Some(label),
        BlockKind::Math { label, .. } => Some(label),
        BlockKind::CodeCell { label, .. } => Some(label),
        BlockKind::Theorem { label, .. } => Some(label),
        BlockKind::Directive { label, .. } => Some(label),
        _ => None,
    }
}

/// `k` with its label slot set to `l`, everything else kept.
pub open spec fn with_label(k: BlockKind, l: Label) -> BlockKind {
    match k {
        BlockKind::Heading { level, text, .. } => BlockKind::Heading { level, text, label: Some(l) },
        BlockKind::Figure { src, caption, attrs, .. } => BlockKind::Figure { src, caption, label: Some(l), attrs },
        BlockKind::Table { caption, rows, .. } => BlockKind::Table { caption, rows, label: Some(l) },
        BlockKind::Math { body, .. } => BlockKind::Math { body, label: Some(l) },
        BlockKind::CodeCell { lang, options, body, .. } => BlockKind::CodeCell { lang, options, body, label: Some(l) },
        BlockKind::Theorem { thm_type, body, .. } => BlockKind::Theorem { thm_type, label: Some(l), body },
        BlockKind::Directive { name, attrs, body, .. } => BlockKind::Directive { name, attrs, body, label: Some(l) },
        _ => k,
    }
}

/// `k` with its label slot, where it has one, emptied.
pub open spec fn unlabeled(k: BlockKind) -> BlockKind {
    match k {
        BlockKind::Heading { level, text, .. } => BlockKind::Heading { level, text, label: None },
        BlockKind::Figure { src, caption, attrs, .. } => BlockKind::Figure { src, caption, label: None, attrs },
        BlockKind::Table { caption, rows, .. } => BlockKind::Table { caption, rows, label: None },
        BlockKind::Math { body, .. } => BlockKind::Math { body, label: None },
        BlockKind::CodeCell { lang, options, body, .. } => BlockKind::CodeCell { lang, options, body, label: None },
        BlockKind::Theorem { thm_type, body, .. } => BlockKind::Theorem { thm_type, label: None, body },
        BlockKind::Directive { name, attrs, body, .. } => BlockKind::Directive { name, attrs, body, label: None },
        _ => k,
    }
}

/// The language of a code fence, as text.
pub open spec fn lang_text(l: Option<String>) -> Option<Seq<char>> {
    match l {
        Some(x) => Some(x@),
        None => None,
    }
}

/// A non-blank MyST line that none of the block openers claims: it belongs
/// to a paragraph.
pub open spec fn myst_plain(line: Seq<char>) -> bool {
    let a = crate::text::skip_ws(line, 0);
    &&& crate::text::trim(line).len() > 0
    &&& crate::reader::spec_marker_id(line) is None
    &&& crate::reader::parts::spec_target(line) is None
    &&& !(a < line.len() && line[a] == '%')
    &&& crate::text::trim(line) != "+++"@
    &&& spec_myst_open(line) is None
    &&& fence::spec_regular_code_open(line) is None
    &&& !crate::text::has_at(line, a, "$$"@)
    &&& crate::reader::parts::spec_heading(line) is None
}

/// What a MyST block that starts on `line` is, as far as that line decides
/// it, openers tried in this order: a preservation marker restores what it
/// points at; a target line `(label)=` left unattached stands alone; `%`
/// starts a comment; `+++` is a block break; a directive fence gives what
/// its directive becomes (up to a label taken from a target line above); a
/// plain code fence gives static code in its language; `$$` opens display
/// math; `#` marks a heading of that level and text; any other line starts
/// a paragraph. No block starts on a blank line.
pub open spec fn myst_block_on(ctx: ReaderContext, expand: bool, line: Seq<char>, b: Block) -> bool {
    let a = crate::text::skip_ws(line, 0);
    if crate::text::trim(line).len() == 0 {
        false
    } else if crate::reader::spec_marker_id(line) is Some {
        myst_marker_block(
            ctx.preserved@,
            crate::reader::spec_marker_id(line)->0,
            b.span.start_line,
            b.blank_lines_before,
            expand,
            b,
        )
    } else if crate::reader::parts::spec_target(line) is Some {
        b.kind matches BlockKind::Target { label } && Some(label.raw@) == crate::reader::parts::spec_target(line)
    } else if a < line.len() && line[a] == '%' {
        b.kind matches BlockKind::Comment { style, .. } && style == CommentStyle::Percent
    } else if crate::text::trim(line) == "+++"@ {
        b.kind is BlockBreak
    } else if spec_myst_open(line) is Some {
        exists|f: DirectiveFrame, k0: BlockKind|
            f.open.view_tuple() == spec_myst_open(line)->0 && #[trigger] directive_shape(ctx, f.open.name@, f, k0)
                && unlabeled(k0) == unlabeled(b.kind)
    } else if fence::spec_regular_code_open(line) is Some {
        b.kind matches BlockKind::StaticCode { lang, .. } && lang_text(lang) == fence::spec_regular_code_open(line).unwrap().3
    } else if crate::text::has_at(line, a, "$$"@) {
        b.kind is Math
    } else if crate::reader::parts::spec_heading(line) is Some {
        b.kind matches BlockKind::Heading { level, text, .. } && crate::reader::parts::spec_heading(line) == Some(
            (level as int, text@),
        )
    } else {
        b.kind is Paragraph
    }
}

/// Every block of `bs` is what the line it starts on (`ls` numbered from
/// `lo`) makes it.
pub open spec fn myst_blocks_on(ctx: ReaderContext, expand: bool, ls: Seq<Seq<char>>, lo: int, bs: Seq<Block>) -> bool {
    forall|k: int| 0 <= k < bs.len() ==> myst_block_on(ctx, expand, ls[bs[k].span.start_line - lo], #[trigger] bs[k])
}

proof fn lemma_blocks_on_extend(ctx: ReaderContext, expand: bool, ls: Seq<Seq<char>>, lo: int, a: Seq<Block>, b: Seq<Block>)
    requires
        myst_blocks_on(ctx, expand, ls, lo, a),
        a.len() <= b.len(),
        forall|k: int| 0 <= k < a.len() ==> b[k] == a[k],
        forall|k: int| a.len() <= k < b.len() ==> myst_block_on(ctx, expand, ls[b[k].span.start_line - lo], #[trigger] b[k]),
    ensures
        myst_blocks_on(ctx, expand, ls, lo, b),
{
    assert forall|k: int| 0 <= k < b.len() implies myst_block_on(ctx, expand, ls[b[k].span.start_line - lo], #[trigger] b[k]) by {
        if k < a.len() {
            assert(b[k] == a[k]);
        }
    }
}

/// A target line `(label)=` naming `l`.
pub open spec fn myst_target_line(line: Seq<char>, l: Label) -> bool {
    &&& crate::text::trim(line).len() > 0
    &&& crate::reader::spec_marker_id(line) is None
    &&& crate::reader::parts::spec_target(line) == Some(l.raw@)
}

proof fn lemma_flush_on(ctx: ReaderContext, expand: bool, ls: Seq<Seq<char>>, lo: int, a: Seq<Block>, b: Seq<Block>, pon: bool, ps: int)
    requires
        myst_blocks_on(ctx, expand, ls, lo, a),
        pon ==> myst_plain(ls[ps - lo]),
        !pon ==> b == a,
        pon ==> b.len() == a.len() + 1 && b.drop_last() == a && b.last().span.start_line == ps
            && b.last().kind is Paragraph,
    ensures
        myst_blocks_on(ctx, expand, ls, lo, b),
{
    if pon {
        assert forall|k: int| 0 <= k < a.len() implies b[k] == a[k] by {
            assert(b.drop_last()[k] == b[k]);
        }
        lemma_blocks_on_extend(ctx, expand, ls, lo, a, b);
    }
}

/// A block the line decides keeps that status when only its label changes.
proof fn lemma_relabel_on(ctx: ReaderContext, expand: bool, line: Seq<char>, x: Block, y: Block)
    requires
        myst_block_on(ctx, expand, line, x),
        crate::reader::spec_marker_id(line) is None,
        unlabeled(x.kind) == unlabeled(y.kind),
    ensures
        myst_block_on(ctx, expand, line, y),
{
    let a = crate::text::skip_ws(line, 0);
    if crate::reader::parts::spec_target(line) is None && !(a < line.len() && line[a] == '%')
        && crate::text::trim(line) != "+++"@ && spec_myst_open(line) is Some {
        let (f, k0) = choose|f: DirectiveFrame, k0: BlockKind|
            f.open.view_tuple() == spec_myst_open(line)->0 && #[trigger] directive_shape(ctx, f.open.name@, f, k0)
                && unlabeled(k0) == unlabeled(x.kind);
        assert(directive_shape(ctx, f.open.name@, f, k0));
    }
}

proof fn lemma_push_with_target_on(ctx: ReaderContext, expand: bool, ls: Seq<Seq<char>>, lo: int, a: Seq<Block>, b: Seq<Block>, pend: Pending, blk: Block)
    requires
        myst_blocks_on(ctx, expand, ls, lo, a),
        pend matches Some(t) ==> myst_target_line(ls[t.1 - lo], t.0),
        a.len() + 1 <= b.len() <= a.len() + 2,
        forall|k: int| 0 <= k < a.len() ==> b[k] == a[k],
        b.last().span == blk.span,
        unlabeled(b.last().kind) == unlabeled(blk.kind),
        b.len() == a.len() + 2 ==> (pend matches Some(t) && b[a.len() as int].span == (Span { start_line: t.1, end_line: t.1 })
            && b[a.len() as int].kind == BlockKind::Target { label: t.0 }),
        myst_block_on(ctx, expand, ls[blk.span.start_line - lo], blk),
        crate::reader::spec_marker_id(ls[blk.span.start_line - lo]) is None,
    ensures
        myst_blocks_on(ctx, expand, ls, lo, b),
{
    lemma_relabel_on(ctx, expand, ls[blk.span.start_line - lo], blk, b.last());
    assert forall|k: int| a.len() <= k < b.len() implies myst_block_on(ctx, expand, ls[b[k].span.start_line - lo], #[trigger] b[k]) by {
        if k == b.len() - 1 {
            assert(b[k] == b.last());
        }
    }
    lemma_blocks_on_extend(ctx, expand, ls, lo, a, b);
}

/// Sets the label of a labelable block that has none.
fn attach_label(block: &mut Block, label: Label) -> (r: bool)
    ensures
        final(block).span == old(block).span,
        final(block).blank_lines_before == old(block).blank_lines_before,
        r == (label_slot(old(block).kind) == Some(None::<Label>)),
        r ==> final(block).kind == with_label(old(block).kind, label),
        !r ==> final(block).kind == old(block).kind,
{
    match &mut block.kind {
        BlockKind::Heading { label: slot, .. } => set_if_none(slot, label),
        BlockKind::Figure { label: slot, .. } => set_if_none(slot, label),
        BlockKind::Table { label: slot, .. } => set_if_none(slot, label),
        BlockKind::Math { label: slot, .. } => set_if_none(slot, label),
        BlockKind::CodeCell { label: slot, .. } => set_if_none(slot, label),
        BlockKind::Theorem { label: slot, .. } => set_if_none(slot, label),
        BlockKind::Directive { label: slot, .. } => set_if_none(slot, label),
        _ => false,
    }
}

fn set_if_none(slot: &mut Option<Label>, label: Label) -> (r: bool)
    ensures
        r == (*old(slot) is None),
        r ==> *final(slot) == Some(label),
        !r ==> *final(slot) == *old(slot),
{
    if slot.is_none() {
        *slot = Some(label);
        true
    } else {
        false
    }
}

/// Emits the paragraph being collected, if any, ending on the line before
/// `end`.
fn flush_paragraph(out: &mut Vec<Block>, lines: &mut Vec<String>, start: u32, end: u32, blank: u8, Ghost(lo): Ghost<int>, Ghost(hi): Ghost<int>)
    requires
        old(lines)@.len() > 0 ==> 1 <= start < end,
        old(lines)@.len() > 0 ==> lo <= start && end - 1 <= hi,
        spans_within(old(out)@, lo, hi),
    ensures
        spans_within(final(out)@, lo, hi),
        final(lines)@.len() == 0,
        old(lines)@.len() == 0 ==> final(out)@ == old(out)@,
        old(lines)@.len() > 0 ==> final(out)@.len() == old(out)@.len() + 1,
        old(lines)@.len() > 0 ==> final(out)@.drop_last() == old(out)@,
        old(lines)@.len() > 0 ==> final(out)@.last().span == (Span { start_line: start, end_line: (end - 1) as u32 }),
        old(lines)@.len() > 0 ==> (final(out)@.last().kind matches BlockKind::Paragraph { lines: l } && strs(l@) == strs(
            old(lines)@,
        )),
{
    if lines.len() > 0 {
        let mut taken: Vec<String> = Vec::new();
        std::mem::swap(&mut taken, lines);
        let ghost v = taken@;
        out.push(block(BlockKind::Paragraph { lines: taken }, start, end - 1, blank));
        assert(out@.drop_last() =~= old(out)@);
        assert(spans_within(out@, lo, hi)) by {
            assert forall|k: int| 0 <= k < out@.len() implies lo <= (#[trigger] out@[k]).span.start_line <= out@[k].span.end_line <= hi by {
                if k < old(out)@.len() {
                    assert(out@[k] == old(out)@[k]);
                }
            }
        }
    }
}

/// `$$ … $$`: the math body and the index of the closing `$$` line (or of
/// the last line when it never closes).
fn parse_dollar_math(lines: &[&str], start: usize) -> (r: (BlockKind, usize))
    requires
        start < lines@.len(),
    ensures
        start <= r.1 < lines@.len(),
        r.0 matches BlockKind::Math { label, .. } && label is None,
{
    let mut body: Vec<String> = Vec::new();
    let n = lines.len();
    let mut i = start + 1;
    while i < n
        invariant
            n == lines@.len(),
            start < i <= lines@.len(),
        decreases lines.len() - i,
    {
        let v = chars_of(lines[i]);
        let a = skip_ws_exec(&v, 0);
        if has_at_exec(&v, a, &chars_of("$$")) {
            return (BlockKind::Math { body, label: None }, i);
        }
        body.push(String::from_str(lines[i]));
        i = i + 1;
    }
    (BlockKind::Math { body, label: None }, lines.len() - 1)
}

fn as_strs(v: &Vec<String>) -> (r: Vec<&str>)
    ensures
        strs_ref(r@) == strs(v@),
{
    let mut out: Vec<&str> = Vec::new();
    let mut k: usize = 0;
    while k < v.len()
        invariant
            k <= v@.len(),
            strs_ref(out@) == strs(v@).subrange(0, k as int),
        decreases v.len() - k,
    {
        let ghost prev = strs_ref(out@);
        let item = v[k].as_str();
        assert(item@ == strs(v@)[k as int]);
        out.push(item);
        assert(strs_ref(out@) =~= prev.push(item@));
        assert(strs_ref(out@) =~= strs(v@).subrange(0, k + 1));
        k = k + 1;
    }
    assert(strs(v@).subrange(0, k as int) =~= strs(v@));
    out
}

/// A `{code}` or `{mermaid}` directive: static code in the argument's
/// language (none when the argument is empty; `mermaid` for a diagram),
/// with its body and with its options other than the label as attributes.
fn static_code(frame: &DirectiveFrame) -> (k: BlockKind)
    requires
        crate::strmap::keys_sorted(frame.options@),
    ensures
        k matches BlockKind::StaticCode { lang, body, attrs } && strs(body@) == strs(frame.body@) && attrs@
            == crate::reader::parts::without_keys(frame.options@, |key: Seq<char>| crate::reader::parts::is_label_key(key))
            && if frame.open.name@ == "mermaid"@ {
            lang matches Some(l) && l@ == "mermaid"@
        } else if frame.open.argument@.len() == 0 {
            lang is None
        } else {
            lang matches Some(l) && l@ == frame.open.argument@
        },
{
    proof { reveal_strlit("mermaid"); }
    assert(strs(frame.body@).subrange(0, frame.body@.len() as int) =~= strs(frame.body@));
    let lang = if str_eq(frame.open.name.as_str(), "mermaid") {
        Some(String::from_str("mermaid"))
    } else if crate::text::char_len(frame.open.argument.as_str()) == 0 {
        None
    } else {
        Some(frame.open.argument.clone())
    };
    BlockKind::StaticCode {
        lang,
        body: copy_lines(frame.body.as_slice(), 0, frame.body.len()),
        attrs: options_to_attrs(&frame.options),
    }
}

/// A `{table}` directive: the lines before the first table row, less blank
/// lines at either end, are its caption; the rest are its rows.
fn table(frame: &DirectiveFrame) -> (k: BlockKind)
    ensures
        ({
            let body = strs(frame.body@);
            let ts = crate::reader::parts::table_start(body, 0);
            k matches BlockKind::Table { caption, rows, label } && strs(caption@)
                == crate::reader::parts::spec_trim_blank_lines(body.subrange(0, ts)) && strs(rows@) == body.subrange(
                ts,
                body.len() as int,
            ) && match crate::reader::spec_label_option(frame.options@) {
                Some(l) => label matches Some(x) && x.raw@ == l,
                None => label is None,
            }
        }),
{
    let ts = find_table_start(&frame.body);
    let head = copy_lines(frame.body.as_slice(), 0, ts);
    BlockKind::Table {
        caption: trim_blank_lines(head.as_slice()),
        rows: copy_lines(frame.body.as_slice(), ts, frame.body.len()),
        label: label_option(&frame.options),
    }
}

/// An `{embed}` directive: its argument, without leading `#`s, as the label
/// embedded, and its `label` option as the embed's own label.
fn embed(frame: &DirectiveFrame) -> (k: BlockKind)
    ensures
        k matches BlockKind::Embed { target: EmbedTarget::Label(l), label } && l.raw@ == frame.open.argument@.subrange(
            crate::text::run_end(frame.open.argument@, 0, '#'),
            frame.open.argument@.len() as int,
        ) && match crate::reader::spec_label_option(frame.options@) {
            Some(x) => label matches Some(y) && y.raw@ == x,
            None => label is None,
        },
{
    let arg = chars_of(frame.open.argument.as_str());
    let mut a: usize = 0;
    while a < arg.len() && arg[a] == '#'
        invariant
            a <= arg@.len(),
            crate::text::run_end(arg@, 0, '#') == crate::text::run_end(arg@, a as int, '#'),
        decreases arg.len() - a,
    {
        a = a + 1;
    }
    let raw = string_of(&slice_chars(&arg, a, arg.len()));
    BlockKind::Embed { target: EmbedTarget::Label(Label { raw }), label: label_option(&frame.options) }
}

/// Where the copies of `p` that follow one another in `s` from `a` on end.
pub open spec fn runs_end(s: Seq<char>, p: Seq<char>, a: int) -> int
    decreases s.len() - a,
{
    if p.len() > 0 && 0 <= a && crate::text::has_at(s, a, p) {
        runs_end(s, p, a + p.len())
    } else {
        a
    }
}

/// `s` with every leading copy of `p` removed.
fn strip_prefix_runs(s: &Vec<char>, p: &Vec<char>) -> (r: Vec<char>)
    requires
        p@.len() > 0,
    ensures
        r@ == s@.subrange(runs_end(s@, p@, 0), s@.len() as int),
{
    let mut a: usize = 0;
    while p.len() <= s.len() - a && has_at_exec(s, a, p)
        invariant
            a <= s@.len(),
            p@.len() > 0,
            runs_end(s@, p@, 0) == runs_end(s@, p@, a as int),
        decreases s.len() - a,
    {
        a = a + p.len();
    }
    slice_chars(s, a, s.len())
}

/// `{name} has no typed target in the opposite dialect`.
fn no_target_reason(name: &str) -> (r: String)
    ensures
        r@ == "{"@ + name@ + "} has no typed target in the opposite dialect"@,
{
    let mut v = chars_of("{");
    push_all(&mut v, &chars_of(name));
    push_all(&mut v, &chars_of("} has no typed target in the opposite dialect"));
    string_of(&v)
}

/// `unrecognized MyST directive {name}`.
fn unrecognized_reason(name: &str) -> (r: String)
    ensures
        r@ == "unrecognized MyST directive {"@ + name@ + "}"@,
{
    let mut v = chars_of("unrecognized MyST directive {");
    push_all(&mut v, &chars_of(name));
    push_all(&mut v, &chars_of("}"));
    string_of(&v)
}

/// The label an `Option<Label>` holds, as text.
pub open spec fn label_text(l: Option<Label>) -> Option<Seq<char>> {
    match l {
        Some(x) => Some(x.raw@),
        None => None,
    }
}

/// The caption, label and attributes of a figure directive: its body
/// without leading and trailing blank lines, its `:label:` (or `:name:`),
/// and its other options.
pub open spec fn figure_parts(frame: DirectiveFrame, caption: Vec<String>, label: Option<Label>, attrs: Attrs) -> bool {
    &&& strs(caption@) == crate::reader::parts::spec_trim_blank_lines(strs(frame.body@))
    &&& label_text(label) == crate::reader::spec_label_option(frame.options@)
    &&& attrs@ == crate::reader::parts::without_keys(frame.options@, |k: Seq<char>| crate::reader::parts::is_label_key(k))
}

/// What a figure or image directive becomes: an argument `#nb:x` names the
/// notebook cell `nb:x`, which must resolve in the cell index, else the
/// directive is kept opaque with that reason; any other argument is an
/// image path.
pub open spec fn myst_figure(ctx: ReaderContext, frame: DirectiveFrame, k: BlockKind) -> bool {
    let arg = frame.open.argument@;
    if crate::text::has_at(arg, 0, "#nb:"@) {
        let raw = "nb:"@ + arg.subrange(4, arg.len() as int);
        match crate::reader::cell_get(ctx.notebook_index@, raw) {
            None => k matches BlockKind::Unmappable { original, reason } && strs(original@) == strs(frame.original@)
                && reason@ == raw + " does not resolve to a notebook cell in the conversion set"@,
            Some(c) => k matches BlockKind::Figure { src: FigureSource::CellRef { label: cl, notebook: Some(nb) }, caption, label, attrs }
                && cl.raw@ == raw && nb@ == c.0 && figure_parts(frame, caption, label, attrs),
        }
    } else {
        k matches BlockKind::Figure { src: FigureSource::Path(p), caption, label, attrs } && p@ == arg && figure_parts(
            frame,
            caption,
            label,
            attrs,
        )
    }
}

/// What an include directive becomes, given what checking its target
/// answered: the include with its options, or the directive kept opaque
/// with the refusal's sentence as the reason.
pub open spec fn myst_include_of(frame: DirectiveFrame, r: Result<String, crate::fs::path_guard::PathGuardError>, k: BlockKind) -> bool {
    match r {
        Ok(path) => k matches BlockKind::Include { target, opts } && target@ == path@
            && crate::reader::parts::include_opts_read(frame.options@, opts),
        Err(e) => k matches BlockKind::Unmappable { original, reason } && strs(original@) == strs(frame.original@)
            && reason@ == crate::fs::path_guard::spec_guard_message(e),
    }
}

/// What an include directive becomes in `ctx`.
pub open spec fn myst_include(ctx: ReaderContext, frame: DirectiveFrame, k: BlockKind) -> bool {
    exists|r: Result<String, crate::fs::path_guard::PathGuardError>|
        crate::reader::include_answer(ctx, frame.open.argument@, r) && #[trigger] myst_include_of(frame, r, k)
}

/// What a directive becomes, by name.
pub open spec fn directive_shape(ctx: ReaderContext, name: Seq<char>, frame: DirectiveFrame, kind: BlockKind) -> bool {
    if name == "code-cell"@ {
        kind matches BlockKind::CodeCell { lang, .. } && lang@ == frame.open.argument@
    } else if name == "code"@ || name == "mermaid"@ {
        kind is StaticCode
    } else if name == "figure"@ || name == "image"@ {
        myst_figure(ctx, frame, kind)
    } else if name == "table"@ {
        kind is Table
    } else if name == "math"@ {
        kind matches BlockKind::Math { body, .. } && strs(body@) == strs(frame.body@)
    } else if name == "include"@ {
        myst_include(ctx, frame, kind)
    } else if name == "embed"@ {
        kind is Embed
    } else if name == "raw"@ {
        kind matches BlockKind::Raw { format, body } && format@ == frame.open.argument@ && strs(body@) == strs(frame.body@)
    } else if name == "tab-set"@ {
        kind is TabSet
    } else if name == "margin"@ || name == "aside"@ {
        kind is Margin
    } else if name == "admonition"@ {
        kind matches BlockKind::Admonition { kind: k, .. } && k == AdmonitionKind::Note
    } else if spec_admonition_kind(name) is Some {
        kind matches BlockKind::Admonition { kind: k, .. } && Some(k) == spec_admonition_kind(name)
    } else if name.len() >= 4 && name.subrange(0, 4) == "prf:"@ {
        kind is Theorem
    } else if name == "tab-item"@ || name == "grid"@ || name == "card"@ || name == "bibliography"@ || name
        == "tableofcontents"@ {
        kind matches BlockKind::Directive { name: n, .. } && n@ == name
    } else {
        kind matches BlockKind::Unmappable { original, .. } && strs(original@) == strs(frame.original@)
    }
}

impl MystReader {
    /// A reader over `context`.
    pub fn new(context: ReaderContext) -> (r: MystReader)
        ensures
            r.context() == context,
    {
        MystReader { context }
    }

    /// The shared reader state.
    pub closed spec fn context(&self) -> ReaderContext {
        self.context
    }

    /// Reads a whole MyST page: its frontmatter text, then its blocks.
    pub fn read_str(&self, text: &str) -> (r: Result<Document, crate::yaml::YamlReadError>)
        requires
            self.context().include_chain.wf(),
            lines_of(text@).len() + 4 <= u32::MAX,
            store_fits(self.context().preserved@, lines_of(text@).len() + 4int),
        ensures
            r is Ok == crate::reader::lines::frontmatter_readable(text@),
            r matches Ok(d) ==> {
                &&& d.source == self.context().source
                &&& d.engine == Some(Engine::Jupyter)
                &&& crate::reader::lines::frontmatter_read(text@, d.frontmatter)
                &&& spans_within(d.blocks@, 1, lines_of(text@).len() as int)
                &&& myst_blocks_on(self.context(), true, lines_of(text@), 1, d.blocks@)
            },
    {
        let lines = split_lines(text);
        assert(lines@.len() == lines_of(text@).len()) by {
            assert(strs(lines@).len() == lines@.len());
        }
        let (raw, body_start, start_line) = split_frontmatter(&lines);
        assert(strs(lines@) == lines_of(text@));
        let frontmatter = match raw {
            Some(r) => match crate::yaml::parse_mapping(r.as_str()) {
                Ok(m) => Some(Frontmatter { raw: r, parsed: crate::yaml::YamlValue::Mapping(m) }),
                Err(e) => return Err(e),
            },
            None => None,
        };
        let rest = copy_lines(lines.as_slice(), body_start, lines.len());
        let refs = as_strs(&rest);
        assert(refs@.len() == rest@.len()) by {
            assert(strs_ref(refs@).len() == strs(rest@).len());
        }
        assert(rest@.len() == lines@.len() - body_start) by {
            assert(strs(rest@).len() == rest@.len());
        }
        assert(start_line == body_start + 1);
        proof {
            lemma_store_fits_mono(self.context().preserved@, lines_of(text@).len() + 4int, start_line + refs@.len() + 2);
        }
        let blocks = self.parse_blocks(&refs, start_line, true);
        proof {
            let ls = lines_of(text@);
            let sub = strs_ref(refs@);
            assert(sub =~= ls.subrange(body_start as int, ls.len() as int));
            assert forall|k: int| 0 <= k < blocks@.len() implies myst_block_on(
                self.context(),
                true,
                ls[blocks@[k].span.start_line - 1],
                #[trigger] blocks@[k],
            ) by {
                assert(myst_block_on(self.context(), true, sub[blocks@[k].span.start_line - start_line], blocks@[k]));
                assert(sub[blocks@[k].span.start_line - start_line] == ls[blocks@[k].span.start_line - 1]);
            }
        }
        Ok(Document {
            frontmatter,
            blocks,
            source: self.context.source.clone(),
            engine: Some(Engine::Jupyter),
        })
    }

    /// Reads the lines of a page body whose first line is line `start_line`.
    pub fn parse_lines(&self, lines: &Vec<String>, start_line: u32) -> (out: Vec<Block>)
        requires
            self.context().include_chain.wf(),
            start_line >= 1,
            start_line + lines@.len() + 2 <= u32::MAX,
            store_fits(self.context().preserved@, start_line + lines@.len() + 2),
        ensures
            spans_within(out@, start_line as int, start_line + lines@.len() - 1),
            forall|j: int|
                0 <= j < lines@.len() && #[trigger] holds_content(strs(lines@)[j]) ==> covers(out@, start_line + j),
            myst_blocks_on(self.context(), true, strs(lines@), start_line as int, out@),
    {
        let refs = as_strs(lines);
        assert(refs@.len() == lines@.len()) by {
            assert(strs_ref(refs@).len() == strs(lines@).len());
        }
        self.parse_blocks(&refs, start_line, true)
    }

    fn parse_blocks(&self, lines: &[&str], start_line: u32, expand: bool) -> (out: Vec<Block>)
        requires
            self.context().include_chain.wf(),
            start_line >= 1,
            start_line + lines@.len() + 2 <= u32::MAX,
            expand ==> store_fits(self.context().preserved@, start_line + lines@.len() + 2),
        ensures
            spans_within(out@, start_line as int, start_line + lines@.len() - 1),
            forall|j: int|
                0 <= j < lines@.len() && #[trigger] holds_content(strs_ref(lines@)[j]) ==> covers(out@, start_line + j),
            myst_blocks_on(self.context(), expand, strs_ref(lines@), start_line as int, out@),
        decreases (if expand { 1int } else { 0int }), lines@.len(), 2int,
    {
        let ghost lo = start_line as int;
        let ghost hi = start_line + lines@.len() - 1;
        let ghost ls = strs_ref(lines@);
        let mut out: Vec<Block> = Vec::new();
        let mut para: Vec<String> = Vec::new();
        let mut para_start: u32 = 0;
        let mut para_blank: u8 = 0;
        let mut blank: u8 = 0;
        let mut pending: Pending = None;
        let mut i: usize = 0;
        while i < lines.len()
            invariant
                self.context().include_chain.wf(),
                start_line >= 1,
                start_line + lines@.len() + 2 <= u32::MAX,
                expand ==> store_fits(self.context().preserved@, start_line + lines@.len() + 2),
                lo == start_line as int,
                hi == start_line + lines@.len() - 1,
                ls == strs_ref(lines@),
                i <= lines@.len(),
                spans_within(out@, lo, hi),
                para@.len() > 0 ==> lo <= para_start && para_start < start_line + i,
                pending matches Some(t) ==> lo <= t.1 && t.1 < start_line + i,
                covered_upto(out@, ls, lo, i as int, para@.len() > 0, para_start as int),
                myst_blocks_on(self.context(), expand, ls, lo, out@),
                para@.len() > 0 ==> myst_plain(ls[para_start - lo]),
                pending matches Some(t) ==> myst_target_line(ls[t.1 - lo], t.0),
            decreases lines.len() - i,
        {
            let line = lines[i];
            let line_no: u32 = start_line + i as u32;
            let v = chars_of(line);
            let t = trim_chars(&v);
            assert(ls[i as int] == line@);
            let ghost o0 = out@;
            let ghost pon0 = para@.len() > 0;
            let ghost ps0 = para_start as int;
            if t.len() == 0 {
                flush_paragraph(&mut out, &mut para, para_start, line_no, para_blank, Ghost(lo), Ghost(hi));
                proof {
                    if pon0 {
                        lemma_covered_flush(o0, out@, ls, lo, i as int, ps0);
                    }
                    lemma_flush_on(self.context(), expand, ls, lo, o0, out@, pon0, ps0);
                    assert(!holds_content(ls[i as int]));
                    assert(covered_upto(out@, ls, lo, i + 1, false, para_start as int));
                }
                blank = if blank < 255 { blank + 1 } else { 255 };
                i = i + 1;
                continue;
            }
            if let Some(id) = preservation_marker_id(line) {
                flush_paragraph(&mut out, &mut para, para_start, line_no, para_blank, Ghost(lo), Ghost(hi));
                proof {
                    if pon0 {
                        lemma_covered_flush(o0, out@, ls, lo, i as int, ps0);
                    }
                    lemma_flush_on(self.context(), expand, ls, lo, o0, out@, pon0, ps0);
                    assert(covered_upto(out@, ls, lo, i as int, false, 0));
                }
                let ghost o1 = out@;
                self.push_preserved_or_marker(&mut out, id.as_str(), line_no, blank, expand, Ghost(lo), Ghost(hi));
                proof {
                    assert(out@.last().span.start_line == lo + i);
                    assert(myst_block_on(self.context(), expand, ls[out@.last().span.start_line - lo], out@.last()));
                    lemma_blocks_on_extend(self.context(), expand, ls, lo, o1, out@);
                    lemma_covered_grow(o1, out@, ls, lo, i as int, false, 0);
                    lemma_covered_span(out@, ls, lo, i as int, i as int, false, 0, out@.len() - 1);
                    assert(covered_upto(out@, ls, lo, i + 1, false, para_start as int));
                }
                blank = 0;
                i = i + 1;
                continue;
            }
            if let Some(label) = parse_target(line) {
                flush_paragraph(&mut out, &mut para, para_start, line_no, para_blank, Ghost(lo), Ghost(hi));
                proof {
                    if pon0 {
                        lemma_covered_flush(o0, out@, ls, lo, i as int, ps0);
                    }
                    lemma_flush_on(self.context(), expand, ls, lo, o0, out@, pon0, ps0);
                    assert(covered_upto(out@, ls, lo, i as int, false, 0));
                    assert(!holds_content(ls[i as int]));
                }
                let previous = pending.take();
                pending = Some((label, line_no, blank));
                let ghost o1 = out@;
                if let Some((plabel, pline, pblank)) = previous {
                    out.push(block(BlockKind::Target { label: plabel }, pline, pline, pblank));
                }
                proof {
                    if out@.len() > o1.len() {
                        assert(out@.drop_last() =~= o1);
                    }
                    lemma_blocks_on_extend(self.context(), expand, ls, lo, o1, out@);
                    lemma_covered_grow(o1, out@, ls, lo, i as int, false, 0);
                    assert(covered_upto(out@, ls, lo, i + 1, false, para_start as int));
                }
                blank = 0;
                i = i + 1;
                continue;
            }
            let a = skip_ws_exec(&v, 0);
            if a < v.len() && v[a] == '%' {
                flush_paragraph(&mut out, &mut para, para_start, line_no, para_blank, Ghost(lo), Ghost(hi));
                proof {
                    if pon0 {
                        lemma_covered_flush(o0, out@, ls, lo, i as int, ps0);
                    }
                    lemma_flush_on(self.context(), expand, ls, lo, o0, out@, pon0, ps0);
                    assert(covered_upto(out@, ls, lo, i as int, false, 0));
                }
                let mut b = a;
                while b < v.len() && v[b] == '%'
                    invariant
                        a <= b <= v@.len(),
                    decreases v.len() - b,
                {
                    b = b + 1;
                }
                let rest = slice_chars(&v, b, v.len());
                let c = skip_ws_exec(&rest, 0);
                let text = string_of(&slice_chars(&rest, c, rest.len()));
                let blk = block(BlockKind::Comment { text, style: CommentStyle::Percent }, line_no, line_no, blank);
                let ghost o1 = out@;
                let ghost gb = blk;
                let ghost pend0 = pending;
                push_with_target(&mut out, blk, &mut pending, Ghost(lo), Ghost(hi));
                proof {
                    lemma_push_with_target_on(self.context(), expand, ls, lo, o1, out@, pend0, gb);
                }
                proof {
                    lemma_covered_grow(o1, out@, ls, lo, i as int, false, 0);
                    lemma_covered_span(out@, ls, lo, i as int, i as int, false, 0, out@.len() - 1);
                    assert(covered_upto(out@, ls, lo, i + 1, false, para_start as int));
                }
                blank = 0;
                i = i + 1;
                continue;
            }
            if str_eq(string_of(&t).as_str(), "+++") {
                flush_paragraph(&mut out, &mut para, para_start, line_no, para_blank, Ghost(lo), Ghost(hi));
                proof {
                    if pon0 {
                        lemma_covered_flush(o0, out@, ls, lo, i as int, ps0);
                    }
                    lemma_flush_on(self.context(), expand, ls, lo, o0, out@, pon0, ps0);
                    assert(covered_upto(out@, ls, lo, i as int, false, 0));
                }
                let ghost o1 = out@;
                let bb = block(BlockKind::BlockBreak, line_no, line_no, blank);
                let ghost gb = bb;
                let ghost pend0 = pending;
                push_with_target(&mut out, bb, &mut pending, Ghost(lo), Ghost(hi));
                proof {
                    lemma_push_with_target_on(self.context(), expand, ls, lo, o1, out@, pend0, gb);
                }
                proof {
                    lemma_covered_grow(o1, out@, ls, lo, i as int, false, 0);
                    lemma_covered_span(out@, ls, lo, i as int, i as int, false, 0, out@.len() - 1);
                    assert(covered_upto(out@, ls, lo, i + 1, false, para_start as int));
                }
                blank = 0;
                i = i + 1;
                continue;
            }
            if let Some(frame) = fence::take_myst_directive(lines, i, line_no) {
                flush_paragraph(&mut out, &mut para, para_start, line_no, para_blank, Ghost(lo), Ghost(hi));
                proof {
                    if pon0 {
                        lemma_covered_flush(o0, out@, ls, lo, i as int, ps0);
                    }
                    lemma_flush_on(self.context(), expand, ls, lo, o0, out@, pon0, ps0);
                    assert(covered_upto(out@, ls, lo, i as int, false, 0));
                }
                proof {
                    let c = fence::close_from(ls, i + 1, frame.open.fence_char, frame.open.fence_count as int, frame.open.indent as int);
                    fence::lemma_close_from(ls, i + 1, frame.open.fence_char, frame.open.fence_count as int, frame.open.indent as int);
                    lemma_scan_state_len(ls, i as int, frame.open.indent as int, c);
                    fence::lemma_scan_state_sorted(ls, i as int, frame.open.indent as int, c);
                }
                let span_lines = (frame.end_line - frame.start_line + 1) as usize;
                let b = self.directive_to_block(&frame, blank, expand, Ghost(lines@.len() as nat));
                let ghost o1 = out@;
                let ghost gb = b;
                let ghost pend0 = pending;
                push_with_target(&mut out, b, &mut pending, Ghost(lo), Ghost(hi));
                proof {
                    lemma_push_with_target_on(self.context(), expand, ls, lo, o1, out@, pend0, gb);
                }
                proof {
                    lemma_covered_grow(o1, out@, ls, lo, i as int, false, 0);
                    lemma_covered_span(out@, ls, lo, i as int, i + span_lines - 1, false, 0, out@.len() - 1);
                    assert(covered_upto(out@, ls, lo, i + span_lines, false, para_start as int));
                }
                blank = 0;
                i = i + span_lines;
                continue;
            }
            if let Some((fence_char, count, indent, lang)) = fence::parse_regular_code_open(line) {
                flush_paragraph(&mut out, &mut para, para_start, line_no, para_blank, Ghost(lo), Ghost(hi));
                proof {
                    if pon0 {
                        lemma_covered_flush(o0, out@, ls, lo, i as int, ps0);
                    }
                    lemma_flush_on(self.context(), expand, ls, lo, o0, out@, pon0, ps0);
                    assert(covered_upto(out@, ls, lo, i as int, false, 0));
                }
                let (body, _, end) = fence::take_fenced_body(lines, i, fence_char, count, indent);
                proof {
                    fence::lemma_close_from(ls, i + 1, fence_char, count as int, indent as int);
                }
                let blk = block(
                    BlockKind::StaticCode { lang, body, attrs: Attrs::new() },
                    line_no,
                    start_line + end as u32,
                    blank,
                );
                let ghost o1 = out@;
                let ghost gb = blk;
                let ghost pend0 = pending;
                push_with_target(&mut out, blk, &mut pending, Ghost(lo), Ghost(hi));
                proof {
                    lemma_push_with_target_on(self.context(), expand, ls, lo, o1, out@, pend0, gb);
                }
                proof {
                    lemma_covered_grow(o1, out@, ls, lo, i as int, false, 0);
                    lemma_covered_span(out@, ls, lo, i as int, end as int, false, 0, out@.len() - 1);
                    assert(covered_upto(out@, ls, lo, end + 1, false, para_start as int));
                }
                blank = 0;
                i = end + 1;
                continue;
            }
            if has_at_exec(&v, a, &chars_of("$$")) {
                flush_paragraph(&mut out, &mut para, para_start, line_no, para_blank, Ghost(lo), Ghost(hi));
                proof {
                    if pon0 {
                        lemma_covered_flush(o0, out@, ls, lo, i as int, ps0);
                    }
                    lemma_flush_on(self.context(), expand, ls, lo, o0, out@, pon0, ps0);
                    assert(covered_upto(out@, ls, lo, i as int, false, 0));
                }
                let (kind, end) = parse_dollar_math(lines, i);
                let ghost o1 = out@;
                let mb = block(kind, line_no, start_line + end as u32, blank);
                let ghost gb = mb;
                let ghost pend0 = pending;
                push_with_target(&mut out, mb, &mut pending, Ghost(lo), Ghost(hi));
                proof {
                    lemma_push_with_target_on(self.context(), expand, ls, lo, o1, out@, pend0, gb);
                }
                proof {
                    lemma_covered_grow(o1, out@, ls, lo, i as int, false, 0);
                    lemma_covered_span(out@, ls, lo, i as int, end as int, false, 0, out@.len() - 1);
                    assert(covered_upto(out@, ls, lo, end + 1, false, para_start as int));
                }
                blank = 0;
                i = end + 1;
                continue;
            }
            if let Some((level, text)) = parse_heading(line) {
                flush_paragraph(&mut out, &mut para, para_start, line_no, para_blank, Ghost(lo), Ghost(hi));
                proof {
                    if pon0 {
                        lemma_covered_flush(o0, out@, ls, lo, i as int, ps0);
                    }
                    lemma_flush_on(self.context(), expand, ls, lo, o0, out@, pon0, ps0);
                    assert(covered_upto(out@, ls, lo, i as int, false, 0));
                }
                let label = match pending.take() {
                    Some((l, _, _)) => Some(l),
                    None => None,
                };
                let ghost o1 = out@;
                out.push(block(BlockKind::Heading { level, text, label }, line_no, line_no, blank));
                proof {
                    lemma_covered_grow(o1, out@, ls, lo, i as int, false, 0);
                    lemma_covered_span(out@, ls, lo, i as int, i as int, false, 0, out@.len() - 1);
                    assert(covered_upto(out@, ls, lo, i + 1, false, para_start as int));
                }
                blank = 0;
                i = i + 1;
                continue;
            }
            if para.len() == 0 {
                para_start = line_no;
                para_blank = blank;
                blank = 0;
            }
            para.push(String::from_str(line));
            proof {
                assert forall|j: int| 0 <= j < i + 1 && #[trigger] holds_content(ls[j]) implies covers(out@, lo + j) || (
                para@.len() > 0 && para_start <= lo + j) by {
                    if j < i {
                        assert(covers(o0, lo + j) || (pon0 && ps0 <= lo + j));
                    }
                }
            }
            i = i + 1;
        }
        let end_no: u32 = start_line + lines.len() as u32;
        let ghost o0 = out@;
        let ghost pon0 = para@.len() > 0;
        let ghost ps0 = para_start as int;
        flush_paragraph(&mut out, &mut para, para_start, end_no, para_blank, Ghost(lo), Ghost(hi));
        proof {
            if pon0 {
                lemma_covered_flush(o0, out@, ls, lo, i as int, ps0);
            }
            lemma_flush_on(self.context(), expand, ls, lo, o0, out@, pon0, ps0);
            assert(covered_upto(out@, ls, lo, i as int, false, 0));
        }
        let ghost o1 = out@;
        let ghost pend = pending;
        if let Some((label, line, pblank)) = pending.take() {
            out.push(block(BlockKind::Target { label }, line, line, pblank));
        }
        proof {
            lemma_covered_grow(o1, out@, ls, lo, i as int, false, 0);
            if out@.len() > o1.len() {
                assert(out@.drop_last() =~= o1);
            }
            lemma_blocks_on_extend(self.context(), expand, ls, lo, o1, out@);
        }
        out
    }

    /// The block a directive becomes, spanning its fence lines.
    fn directive_to_block(&self, frame: &DirectiveFrame, blank: u8, expand: bool, Ghost(bound): Ghost<nat>) -> (b: Block)
        requires
            self.context().include_chain.wf(),
            frame.body@.len() < bound,
            1 <= frame.start_line <= frame.end_line,
            frame.start_line + frame.body@.len() + 3 <= u32::MAX,
            expand ==> store_fits(self.context().preserved@, frame.start_line + frame.body@.len() + 3),
            crate::strmap::keys_sorted(frame.options@),
        ensures
            b.span == (Span { start_line: frame.start_line, end_line: frame.end_line }),
            b.blank_lines_before == blank,
            directive_shape(self.context(), frame.open.name@, *frame, b.kind),
        decreases (if expand { 1int } else { 0int }), bound, 1int,
    {
        proof {
            reveal_strlit("code-cell");
            reveal_strlit("code");
            reveal_strlit("mermaid");
            reveal_strlit("figure");
            reveal_strlit("image");
            reveal_strlit("table");
            reveal_strlit("math");
            reveal_strlit("include");
            reveal_strlit("embed");
            reveal_strlit("raw");
            reveal_strlit("tab-set");
            reveal_strlit("margin");
            reveal_strlit("aside");
            reveal_strlit("admonition");
            reveal_strlit("note");
            reveal_strlit("warning");
            reveal_strlit("tip");
            reveal_strlit("important");
            reveal_strlit("caution");
            reveal_strlit("danger");
            reveal_strlit("error");
            reveal_strlit("hint");
            reveal_strlit("seealso");
            reveal_strlit("attention");
            reveal_strlit("prf:");
            reveal_strlit("tab-item");
            reveal_strlit("grid");
            reveal_strlit("card");
            reveal_strlit("bibliography");
            reveal_strlit("tableofcontents");
        }
        let name = frame.open.name.as_str();
        let body_start = frame.start_line + 1;
        let body_refs = as_strs(&frame.body);
        assert(body_refs@.len() == frame.body@.len()) by {
            assert(strs_ref(body_refs@).len() == strs(frame.body@).len());
        }
        let kind = if str_eq(name, "code-cell") {
            self.code_cell(frame)
        } else if str_eq(name, "code") || str_eq(name, "mermaid") {
            static_code(frame)
        } else if str_eq(name, "figure") || str_eq(name, "image") {
            self.figure(frame)
        } else if str_eq(name, "table") {
            table(frame)
        } else if str_eq(name, "math") {
            let body = copy_lines(frame.body.as_slice(), 0, frame.body.len());
            assert(strs(body@) =~= strs(frame.body@));
            BlockKind::Math { body, label: label_option(&frame.options) }
        } else if str_eq(name, "include") {
            self.include_target(frame)
        } else if str_eq(name, "embed") {
            embed(frame)
        } else if str_eq(name, "raw") {
            let body = copy_lines(frame.body.as_slice(), 0, frame.body.len());
            assert(strs(body@) =~= strs(frame.body@));
            BlockKind::Raw { format: frame.open.argument.clone(), body }
        } else if str_eq(name, "tab-set") {
            self.tab_set(frame, expand, Ghost(bound))
        } else if str_eq(name, "margin") || str_eq(name, "aside") {
            BlockKind::Margin { body: self.parse_blocks(&body_refs, body_start, expand) }
        } else if str_eq(name, "admonition") {
            let title = if crate::text::char_len(frame.open.argument.as_str()) > 0 {
                Some(frame.open.argument.clone())
            } else {
                None
            };
            BlockKind::Admonition {
                kind: AdmonitionKind::Note,
                title,
                body: self.parse_blocks(&body_refs, body_start, expand),
                collapse: collapse_from_options(&frame.options),
            }
        } else if let Some(k) = admonition_kind(name) {
            let title = match frame.options.get("title") {
                Some(t) => Some(t.clone()),
                None => None,
            };
            BlockKind::Admonition {
                kind: k,
                title,
                body: self.parse_blocks(&body_refs, body_start, expand),
                collapse: collapse_from_options(&frame.options),
            }
        } else if has_at_exec(&chars_of(name), 0, &chars_of("prf:")) {
            let nv = chars_of(name);
            BlockKind::Theorem {
                thm_type: string_of(&strip_prefix_runs(&nv, &chars_of("prf:"))),
                label: label_option(&frame.options),
                body: self.parse_blocks(&body_refs, body_start, expand),
            }
        } else if str_eq(name, "tab-item") || str_eq(name, "grid") || str_eq(name, "card") || str_eq(name, "bibliography")
            || str_eq(name, "tableofcontents") {
            BlockKind::Directive {
                name: frame.open.name.clone(),
                attrs: options_to_attrs(&frame.options),
                body: self.parse_blocks(&body_refs, body_start, expand),
                label: label_option(&frame.options),
            }
        } else if str_eq(name, "epigraph") || str_eq(name, "pull-quote") || str_eq(name, "glossary") || str_eq(
            name,
            "list-table",
        ) || str_eq(name, "csv-table") {
            let original = copy_lines(frame.original.as_slice(), 0, frame.original.len());
            assert(strs(original@) =~= strs(frame.original@));
            BlockKind::Unmappable { original, reason: no_target_reason(name) }
        } else {
            let original = copy_lines(frame.original.as_slice(), 0, frame.original.len());
            assert(strs(original@) =~= strs(frame.original@));
            BlockKind::Unmappable { original, reason: unrecognized_reason(name) }
        };
        block(kind, frame.start_line, frame.end_line, blank)
    }

    fn code_cell(&self, frame: &DirectiveFrame) -> (k: BlockKind)
        requires
            crate::strmap::keys_sorted(frame.options@),
        ensures
            k matches BlockKind::CodeCell { lang, .. } && lang@ == frame.open.argument@,
    {
        let mut options = cell_options_from_myst(&frame.options);
        let (quarto_options, consumed) = parse_cell_options(frame.body.as_slice());
        let extra = quarto_options.extra.entries();
        let mut k: usize = 0;
        while k < extra.len()
            invariant
                k <= extra@.len(),
            decreases extra.len() - k,
        {
            options.extra.insert(extra[k].0.clone(), extra[k].1.clone());
            k = k + 1;
        }
        let body = copy_lines(frame.body.as_slice(), consumed, frame.body.len());
        BlockKind::CodeCell { lang: frame.open.argument.clone(), options, body, label: label_option(&frame.options) }
    }

    fn figure(&self, frame: &DirectiveFrame) -> (k: BlockKind)
        requires
            crate::strmap::keys_sorted(frame.options@),
        ensures
            myst_figure(self.context(), *frame, k),
    {
        proof {
            reveal_strlit("#nb:");
        }
        let arg = chars_of(frame.open.argument.as_str());
        let pfx = chars_of("#nb:");
        let src = if has_at_exec(&arg, 0, &pfx) {
            let mut raw = chars_of("nb:");
            push_all(&mut raw, &slice_chars(&arg, 4, arg.len()));
            let raw_s = string_of(&raw);
            match self.context.notebook_index.resolve(raw_s.as_str()) {
                None => {
                    assert(strs(frame.original@).subrange(0, frame.original@.len() as int) =~= strs(frame.original@));
                    let mut reason = raw.clone();
                    push_all(&mut reason, &chars_of(" does not resolve to a notebook cell in the conversion set"));
                    return BlockKind::Unmappable {
                        original: copy_lines(frame.original.as_slice(), 0, frame.original.len()),
                        reason: string_of(&reason),
                    };
                },
                Some(found) => FigureSource::CellRef { label: Label { raw: raw_s }, notebook: Some(found.notebook.clone()) },
            }
        } else {
            FigureSource::Path(frame.open.argument.clone())
        };
        BlockKind::Figure {
            src,
            caption: trim_blank_lines(frame.body.as_slice()),
            label: label_option(&frame.options),
            attrs: options_to_attrs(&frame.options),
        }
    }

    fn include_target(&self, frame: &DirectiveFrame) -> (k: BlockKind)
        requires
            self.context().include_chain.wf(),
        ensures
            myst_include(self.context(), *frame, k),
    {
        let r = self.context.resolve_include(frame.open.argument.as_str());
        let k = match &r {
            Ok(path) => BlockKind::Include { target: path.clone(), opts: include_opts(&frame.options) },
            Err(e) => BlockKind::Unmappable {
                original: copy_lines(frame.original.as_slice(), 0, frame.original.len()),
                reason: e.message(),
            },
        };
        proof {
            if let Err(_) = r {
                assert(strs(frame.original@).subrange(0, frame.original@.len() as int) =~= strs(frame.original@));
            }
            assert(myst_include_of(*frame, r, k));
        }
        k
    }

    fn tab_set(&self, frame: &DirectiveFrame, expand: bool, Ghost(bound): Ghost<nat>) -> (k: BlockKind)
        requires
            self.context().include_chain.wf(),
            frame.body@.len() < bound,
            1 <= frame.start_line,
            frame.start_line + frame.body@.len() + 3 <= u32::MAX,
            expand ==> store_fits(self.context().preserved@, frame.start_line + frame.body@.len() + 3),
        ensures
            k is TabSet,
        decreases (if expand { 1int } else { 0int }), bound, 0int,
    {
        let refs = as_strs(&frame.body);
        assert(refs@.len() == frame.body@.len()) by {
            assert(strs_ref(refs@).len() == strs(frame.body@).len());
        }
        let mut items: Vec<TabItem> = Vec::new();
        let mut i: usize = 0;
        while i < refs.len()
            invariant
                self.context().include_chain.wf(),
                refs@.len() == frame.body@.len(),
                frame.body@.len() < bound,
                1 <= frame.start_line,
                frame.start_line + frame.body@.len() + 3 <= u32::MAX,
                expand ==> store_fits(self.context().preserved@, frame.start_line + frame.body@.len() + 3),
                i <= refs@.len(),
            decreases refs.len() - i,
        {
            let line_no: u32 = frame.start_line + 1 + i as u32;
            if let Some(item) = fence::take_myst_directive(&refs, i, line_no) {
                proof {
                    let ls = strs_ref(refs@);
                    let c = fence::close_from(ls, i + 1, item.open.fence_char, item.open.fence_count as int, item.open.indent as int);
                    fence::lemma_close_from(ls, i + 1, item.open.fence_char, item.open.fence_count as int, item.open.indent as int);
                    lemma_scan_state_len(ls, i as int, item.open.indent as int, c);
                }
                if str_eq(item.open.name.as_str(), "tab-item") {
                    let body = self.parse_blocks(&as_strs(&item.body), item.start_line + 1, expand);
                    items.push(TabItem { label: item.open.argument.clone(), body });
                    i = i + (item.end_line - item.start_line + 1) as usize;
                    continue;
                }
            }
            i = i + 1;
        }
        BlockKind::TabSet { items }
    }

    /// Restores the construct a preservation marker points at: reparsed
    /// when it reads back as a single block, kept opaque otherwise, or an
    /// empty placeholder when the store has no such entry. Inside a restored
    /// construct (`expand` off), a further marker is restored opaquely.
    fn push_preserved_or_marker(
        &self,
        out: &mut Vec<Block>,
        id: &str,
        line: u32,
        blank: u8,
        expand: bool,
        Ghost(lo): Ghost<int>,
        Ghost(hi): Ghost<int>,
    )
        requires
            self.context().include_chain.wf(),
            1 <= lo <= line <= hi,
            expand ==> store_fits(self.context().preserved@, hi + 3),
            spans_within(old(out)@, lo, hi),
        ensures
            spans_within(final(out)@, lo, hi),
            final(out)@.len() == old(out)@.len() + 1,
            final(out)@.drop_last() == old(out)@,
            myst_marker_block(self.context().preserved@, id@, line, blank, expand, final(out)@.last()),
        decreases (if expand { 1int } else { 0int }), 0nat, 0int,
    {
        match self.context.preserved.get(id) {
            Some(original) => {
                if expand {
                    let refs = as_strs(original);
                    proof {
                        let s = self.context().preserved@;
                        let k = crate::reader::store_pos(s, id@);
                        crate::reader::lemma_store_pos_pub(s, id@);
                        assert(s[k].1.1.len() + hi + 3 <= u32::MAX);
                    }
                    let mut parsed = self.parse_blocks(&refs, line, false);
                    if parsed.len() == 1 {
                        let first = parsed.remove(0);
                        out.push(Block { kind: first.kind, span: Span::single(line), blank_lines_before: blank });
                        assert(out@.drop_last() =~= old(out)@);
                        return;
                    }
                }
                let kept = copy_lines(original.as_slice(), 0, original.len());
                assert(strs(original@).subrange(0, original@.len() as int) =~= strs(original@));
                out.push(block(BlockKind::Preserved { original: kept, code: "preserved-sidecar" }, line, line, blank));
                assert(out@.drop_last() =~= old(out)@);
            },
            None => {
                out.push(
                    block(BlockKind::Preserved { original: Vec::new(), code: "missing-sidecar-entry" }, line, line, blank),
                );
                assert(out@.drop_last() =~= old(out)@);
            },
        }
    }
}

} // verus!
