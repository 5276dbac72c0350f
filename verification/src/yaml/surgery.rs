//! Targeted line-level edits to an existing frontmatter block.
//!
//! [`apply_edits`] never re-serializes the whole document. It slices the
//! original text into one segment per top-level key (plus one for comment
//! or blank lines after the last key), replaces only the segments an edit
//! names, and copies every other segment's lines through unchanged — so a
//! `|` block scalar, a comment or the key order of an untouched key
//! survives exactly. A column-0 comment or blank line belongs to the key
//! that follows it, so removing a key also removes the comment above it.
//! Lines come from `str::lines`: a `\r` before a `\n` is not kept.
use vstd::prelude::*;
use super::emit::{emittable, field_text, render_field};
use super::{opt_view, YamlValue};
use crate::preserve::{join_chars, join_lines};
use crate::reader::fence::strs;
use crate::reader::lines::{lines_from, lines_of, split_lines, strip_cr};
use crate::text::{
    chars_of, find_char, first_of, lemma_first_of, lemma_skip_ws_bounds, lemma_trail_ws_bounds,
    push_all, skip_ws_exec, slice_chars, string_of, trail_ws_exec, trim, trim_chars, trim_end,
    trim_start,
};

verus! {

/// One change to a frontmatter block.
#[derive(Debug, PartialEq)]
pub enum FrontmatterEdit {
    /// Sets `key` to `value`, rewriting only that key's lines; a key not yet
    /// present is appended at the end.
    SetKey { key: String, value: YamlValue },
    /// Removes `key`, its value lines and the comment lines above it.
    Remove { key: String },
    /// Renames `from` to `to`; only the key text on the first line changes.
    Rename { from: String, to: String },
}

/// Why an edit could not be applied.
#[derive(Debug, PartialEq, Eq)]
pub enum SurgeryError {
    /// `Remove` or the `from` of `Rename` named a key not present.
    KeyNotFound(String),
}

impl SurgeryError {
    /// The error's message.
    pub fn message(&self) -> (m: String)
        ensures
            m@ == match self {
                SurgeryError::KeyNotFound(k) => "frontmatter key not found: \""@ + k@ + "\""@,
            },
    {
        match self {
            SurgeryError::KeyNotFound(k) => {
                let mut v = chars_of("frontmatter key not found: \"");
                push_all(&mut v, &chars_of(k.as_str()));
                push_all(&mut v, &chars_of("\""));
                string_of(&v)
            },
        }
    }
}

// ---------------------------------------------------------------------------
// Line shapes.
// ---------------------------------------------------------------------------

/// The line starts with a space or a tab.
pub open spec fn starts_indented(l: Seq<char>) -> bool {
    l.len() > 0 && (l[0] == ' ' || l[0] == '\t')
}

/// The key a line opens, when it opens a top-level mapping entry: it is not
/// indented, not a comment or sequence item, and the text before its first
/// `:` (trimmed) is non-empty, with the `:` followed by a space or nothing.
pub open spec fn top_level_key(l: Seq<char>) -> Option<Seq<char>> {
    if starts_indented(l) {
        None
    } else {
        let t = trim_end(l);
        if t.len() == 0 || t[0] == '#' || t[0] == '-' {
            None
        } else {
            let c = first_of(t, 0, ':');
            if c >= t.len() {
                None
            } else {
                let k = trim(t.subrange(0, c));
                if k.len() == 0 {
                    None
                } else if c + 1 < t.len() && t[c + 1] != ' ' {
                    None
                } else {
                    Some(k)
                }
            }
        }
    }
}

/// An unindented comment or blank line.
pub open spec fn comment_or_blank(l: Seq<char>) -> bool {
    !starts_indented(l) && (trim(l).len() == 0 || trim(l)[0] == '#')
}

/// Characters allowed after `|` or `>`: chomping indicators and digits.
pub open spec fn indicators_only(p: Seq<char>) -> bool {
    forall|i: int| 0 <= i < p.len() ==> (#[trigger] p[i] == '-' || p[i] == '+' || ('0' <= p[i] <= '9'))
}

/// A `key: |` or `key: >` line (with optional chomping/indent indicators
/// and comment): every following blank or indented line is its content.
pub open spec fn block_opener(l: Seq<char>) -> bool {
    let t = trim_end(l);
    let c = first_of(t, 0, ':');
    c < t.len() && {
        let rest = trim_start(t.subrange(c + 1, t.len() as int));
        rest.len() > 0 && (rest[0] == '|' || rest[0] == '>')
            && indicators_only(trim(rest.subrange(1, first_of(rest, 1, '#'))))
    }
}

fn starts_indented_exec(l: &Vec<char>) -> (r: bool)
    ensures
        r == starts_indented(l@),
{
    l.len() > 0 && (l[0] == ' ' || l[0] == '\t')
}

fn trim_end_exec(l: &Vec<char>) -> (r: Vec<char>)
    ensures
        r@ == trim_end(l@),
{
    let b = trail_ws_exec(l, l.len());
    slice_chars(l, 0, b)
}

fn trim_start_exec(l: &Vec<char>) -> (r: Vec<char>)
    ensures
        r@ == trim_start(l@),
{
    let a = skip_ws_exec(l, 0);
    slice_chars(l, a, l.len())
}

fn top_level_key_exec(l: &Vec<char>) -> (r: Option<Vec<char>>)
    ensures
        match r {
            Some(k) => top_level_key(l@) == Some(k@),
            None => top_level_key(l@) is None,
        },
{
    if starts_indented_exec(l) {
        return None;
    }
    let t = trim_end_exec(l);
    if t.len() == 0 || t[0] == '#' || t[0] == '-' {
        return None;
    }
    let c = find_char(&t, 0, ':');
    proof { lemma_first_of(t@, 0, ':'); }
    if c >= t.len() {
        return None;
    }
    let k = trim_chars(&slice_chars(&t, 0, c));
    if k.len() == 0 {
        return None;
    }
    if c + 1 < t.len() && t[c + 1] != ' ' {
        return None;
    }
    Some(k)
}

fn comment_or_blank_exec(l: &Vec<char>) -> (r: bool)
    ensures
        r == comment_or_blank(l@),
{
    if starts_indented_exec(l) {
        return false;
    }
    let t = trim_chars(l);
    t.len() == 0 || t[0] == '#'
}

fn block_opener_exec(l: &Vec<char>) -> (r: bool)
    ensures
        r == block_opener(l@),
{
    let t = trim_end_exec(l);
    let c = find_char(&t, 0, ':');
    proof { lemma_first_of(t@, 0, ':'); }
    if c >= t.len() {
        return false;
    }
    let rest = trim_start_exec(&slice_chars(&t, c + 1, t.len()));
    if rest.len() == 0 || !(rest[0] == '|' || rest[0] == '>') {
        return false;
    }
    let h = find_char(&rest, 1, '#');
    proof { lemma_first_of(rest@, 1, '#'); }
    let p = trim_chars(&slice_chars(&rest, 1, h));
    assert(block_opener(l@) == indicators_only(p@));
    let mut i: usize = 0;
    while i < p.len()
        invariant
            i <= p@.len(),
            block_opener(l@) == indicators_only(p@),
            forall|k: int| 0 <= k < i ==> (#[trigger] p@[k] == '-' || p@[k] == '+' || ('0' <= p@[k] <= '9')),
        decreases p.len() - i,
    {
        let ch = p[i];
        if !(ch == '-' || ch == '+' || ('0' <= ch && ch <= '9')) {
            assert(!(p@[i as int] == '-' || p@[i as int] == '+' || ('0' <= p@[i as int] <= '9')));
            assert(!indicators_only(p@));
            return false;
        }
        i = i + 1;
    }
    true
}

// ---------------------------------------------------------------------------
// Segments.
// ---------------------------------------------------------------------------

/// The model of one segment: its key, the comment/blank lines above it,
/// its key line, and the lines that continue its value.
pub struct SegView {
    pub key: Option<Seq<char>>,
    pub leading: Seq<Seq<char>>,
    pub key_line: Option<Seq<char>>,
    pub continuation: Seq<Seq<char>>,
}

/// One top-level key's original lines, or trailing comment/blank lines.
struct Segment {
    key: Option<String>,
    leading: Vec<String>,
    key_line: Option<String>,
    continuation: Vec<String>,
}

spec fn seg_view(s: Segment) -> SegView {
    SegView {
        key: opt_view(s.key),
        leading: strs(s.leading@),
        key_line: opt_view(s.key_line),
        continuation: strs(s.continuation@),
    }
}

spec fn segs_view(s: Seq<Segment>) -> Seq<SegView> {
    s.map_values(|x: Segment| seg_view(x))
}

/// A segment's lines, in order.
pub open spec fn seg_lines(s: SegView) -> Seq<Seq<char>> {
    s.leading + (match s.key_line {
        Some(l) => seq![l],
        None => Seq::empty(),
    }) + s.continuation
}

/// All segments' lines, in order.
pub open spec fn flat(segs: Seq<SegView>) -> Seq<Seq<char>>
    decreases segs.len(),
{
    if segs.len() == 0 {
        Seq::empty()
    } else {
        flat(segs.drop_last()) + seg_lines(segs.last())
    }
}

/// Where the line-by-line scan stands.
pub struct ScanState {
    pub segs: Seq<SegView>,
    pub pending: Seq<Seq<char>>,
    pub current: Option<SegView>,
    pub in_block: bool,
}

pub open spec fn scan_start() -> ScanState {
    ScanState { segs: Seq::empty(), pending: Seq::empty(), current: None, in_block: false }
}

/// Closes the segment being read, if any.
pub open spec fn close(st: ScanState) -> ScanState {
    match st.current {
        Some(c) => ScanState { segs: st.segs.push(c), current: None, ..st },
        None => st,
    }
}

/// `line` added to the continuation of the segment being read, if any.
pub open spec fn continue_with(st: ScanState, line: Seq<char>) -> ScanState {
    match st.current {
        Some(c) => ScanState { current: Some(SegView { continuation: c.continuation.push(line), ..c }), ..st },
        None => st,
    }
}

/// One line read. Inside a block scalar, blank and indented lines are
/// content. A key line starts a new segment that takes the comment lines
/// waiting above it; a column-0 comment or blank line closes the segment
/// and waits for the next key; anything else continues the current value
/// (or, with no key open yet, waits like a comment).
pub open spec fn scan_step(st: ScanState, line: Seq<char>) -> ScanState {
    if st.in_block && (trim(line).len() == 0 || starts_indented(line)) {
        continue_with(st, line)
    } else {
        let st1 = ScanState { in_block: false, ..st };
        match top_level_key(line) {
            Some(k) => {
                let f = close(st1);
                ScanState {
                    segs: f.segs,
                    pending: Seq::empty(),
                    current: Some(SegView { key: Some(k), leading: f.pending, key_line: Some(line), continuation: Seq::empty() }),
                    in_block: block_opener(line),
                }
            },
            None => if comment_or_blank(line) {
                let f = close(st1);
                ScanState { pending: f.pending.push(line), ..f }
            } else if st1.current is Some {
                continue_with(st1, line)
            } else {
                ScanState { pending: st1.pending.push(line), ..st1 }
            },
        }
    }
}

/// The state after reading `lines`.
pub open spec fn scan(lines: Seq<Seq<char>>) -> ScanState
    decreases lines.len(),
{
    if lines.len() == 0 {
        scan_start()
    } else {
        scan_step(scan(lines.drop_last()), lines.last())
    }
}

/// The segments of a block's lines.
pub open spec fn segments_of(lines: Seq<Seq<char>>) -> Seq<SegView> {
    let f = close(scan(lines));
    if f.pending.len() > 0 {
        f.segs.push(SegView { key: None, leading: f.pending, key_line: None, continuation: Seq::empty() })
    } else {
        f.segs
    }
}

/// The lines a scan state holds, in order.
pub open spec fn state_lines(st: ScanState) -> Seq<Seq<char>> {
    flat(st.segs) + (match st.current {
        Some(c) => seg_lines(c),
        None => Seq::empty(),
    }) + st.pending
}

pub proof fn lemma_flat_push(segs: Seq<SegView>, s: SegView)
    ensures
        flat(segs.push(s)) == flat(segs) + seg_lines(s),
{
    assert(segs.push(s).drop_last() =~= segs);
}

/// A scan holds every line read, in order; a segment is open only when no
/// comment line is waiting.
pub proof fn lemma_scan_lines(lines: Seq<Seq<char>>)
    ensures
        state_lines(scan(lines)) == lines,
        scan(lines).current is Some ==> scan(lines).pending.len() == 0,
        scan(lines).in_block ==> scan(lines).current is Some,
    decreases lines.len(),
{
    if lines.len() > 0 {
        let prev = lines.drop_last();
        let line = lines.last();
        lemma_scan_lines(prev);
        let st = scan(prev);
        assert(lines =~= prev.push(line));
        if let Some(c) = st.current {
            lemma_flat_push(st.segs, c);
            let c2 = SegView { continuation: c.continuation.push(line), ..c };
            assert(seg_lines(c2) =~= seg_lines(c).push(line));
        }
        let st1 = ScanState { in_block: false, ..st };
        assert(state_lines(st1) == state_lines(st));
        assert(state_lines(close(st1)) =~= state_lines(st));
        let nxt = scan_step(st, line);
        assert(nxt == scan(lines));
        assert(state_lines(nxt) =~= lines);
    }
}

/// Segmenting loses, adds and reorders no line.
pub proof fn lemma_segments_partition(lines: Seq<Seq<char>>)
    ensures
        flat(segments_of(lines)) == lines,
{
    lemma_scan_lines(lines);
    let st = scan(lines);
    if let Some(c) = st.current {
        lemma_flat_push(st.segs, c);
    }
    let f = close(st);
    assert(state_lines(f) =~= lines);
    if f.pending.len() > 0 {
        let t = SegView { key: None, leading: f.pending, key_line: None, continuation: Seq::empty() };
        lemma_flat_push(f.segs, t);
        assert(seg_lines(t) =~= f.pending);
    }
    assert(flat(segments_of(lines)) =~= lines);
}

spec fn state_view(segs: Seq<Segment>, pending: Seq<String>, current: Option<Segment>, in_block: bool) -> ScanState {
    ScanState {
        segs: segs_view(segs),
        pending: strs(pending),
        current: match current {
            Some(c) => Some(seg_view(c)),
            None => None,
        },
        in_block,
    }
}

fn close_exec(segments: &mut Vec<Segment>, current: &mut Option<Segment>, Ghost(pending): Ghost<Seq<String>>, Ghost(in_block): Ghost<bool>)
    ensures
        state_view(final(segments)@, pending, *final(current), in_block) == close(state_view(old(segments)@, pending, *old(current), in_block)),
        *final(current) is None,
{
    match current.take() {
        Some(seg) => {
            let ghost sv = seg_view(seg);
            segments.push(seg);
            assert(segs_view(segments@) =~= segs_view(old(segments)@).push(sv));
        },
        None => {},
    }
}

fn segment_text(text: &str) -> (r: Vec<Segment>)
    ensures
        segs_view(r@) == segments_of(lines_of(text@)),
{
    let lines = split_lines(text);
    let ghost ls = strs(lines@);
    let mut segments: Vec<Segment> = Vec::new();
    let mut pending: Vec<String> = Vec::new();
    let mut current: Option<Segment> = None;
    let mut in_block = false;
    let mut i: usize = 0;
    assert(segs_view(segments@) =~= Seq::<SegView>::empty());
    assert(strs(pending@) =~= Seq::<Seq<char>>::empty());
    assert(ls.subrange(0, 0) =~= Seq::<Seq<char>>::empty());
    while i < lines.len()
        invariant
            i <= lines@.len(),
            ls == strs(lines@),
            ls.len() == lines@.len(),
            state_view(segments@, pending@, current, in_block) == scan(ls.subrange(0, i as int)),
        decreases lines.len() - i,
    {
        assert(ls.subrange(0, i + 1).drop_last() =~= ls.subrange(0, i as int));
        assert(ls.subrange(0, i + 1).last() == lines@[i as int]@);
        let ghost st = state_view(segments@, pending@, current, in_block);
        let line = &lines[i];
        let lv = chars_of(line.as_str());
        if in_block && (trim_chars(&lv).len() == 0 || starts_indented_exec(&lv)) {
            match current.take() {
                Some(mut seg) => {
                    let ghost c0 = seg;
                    seg.continuation.push(line.clone());
                    assert(strs(seg.continuation@) =~= strs(c0.continuation@).push(line@));
                    current = Some(seg);
                },
                None => {},
            }
            assert(state_view(segments@, pending@, current, in_block) == scan_step(st, line@));
        } else {
            in_block = false;
            let ghost st1 = state_view(segments@, pending@, current, in_block);
            assert(st1 == ScanState { in_block: false, ..st });
            match top_level_key_exec(&lv) {
                Some(k) => {
                    close_exec(&mut segments, &mut current, Ghost(pending@), Ghost(in_block));
                    let leading = pending;
                    pending = Vec::new();
                    in_block = block_opener_exec(&lv);
                    let cont: Vec<String> = Vec::new();
                    assert(strs(cont@) =~= Seq::<Seq<char>>::empty());
                    current = Some(Segment { key: Some(string_of(&k)), leading, key_line: Some(line.clone()), continuation: cont });
                    assert(strs(pending@) =~= Seq::<Seq<char>>::empty());
                    assert(state_view(segments@, pending@, current, in_block) =~= scan_step(st, line@));
                },
                None => {
                    if comment_or_blank_exec(&lv) {
                        close_exec(&mut segments, &mut current, Ghost(pending@), Ghost(in_block));
                        let ghost p0 = pending@;
                        pending.push(line.clone());
                        assert(strs(pending@) =~= strs(p0).push(line@));
                        assert(state_view(segments@, pending@, current, in_block) =~= scan_step(st, line@));
                    } else {
                        match current.take() {
                            Some(mut seg) => {
                                let ghost c0 = seg;
                                seg.continuation.push(line.clone());
                                assert(strs(seg.continuation@) =~= strs(c0.continuation@).push(line@));
                                current = Some(seg);
                                assert(state_view(segments@, pending@, current, in_block) =~= scan_step(st, line@));
                            },
                            None => {
                                let ghost p0 = pending@;
                                pending.push(line.clone());
                                assert(strs(pending@) =~= strs(p0).push(line@));
                                assert(state_view(segments@, pending@, current, in_block) =~= scan_step(st, line@));
                            },
                        }
                    }
                },
            }
        }
        i = i + 1;
    }
    assert(ls.subrange(0, i as int) =~= ls);
    close_exec(&mut segments, &mut current, Ghost(pending@), Ghost(in_block));
    if pending.len() > 0 {
        let ghost pv = strs(pending@);
        let ghost s0 = segments@;
        let cont: Vec<String> = Vec::new();
        assert(strs(cont@) =~= Seq::<Seq<char>>::empty());
        segments.push(Segment { key: None, leading: pending, key_line: None, continuation: cont });
        assert(segs_view(segments@) =~= segs_view(s0).push(SegView { key: None, leading: pv, key_line: None, continuation: Seq::empty() }));
    }
    segments
}

// ---------------------------------------------------------------------------
// Edits.
// ---------------------------------------------------------------------------

/// Position of the first segment keyed `k`, or the number of segments.
pub open spec fn seg_index(segs: Seq<SegView>, k: Seq<char>) -> int
    decreases segs.len(),
{
    if segs.len() == 0 {
        0
    } else if segs[0].key == Some(k) {
        0
    } else {
        1 + seg_index(segs.drop_first(), k)
    }
}

pub proof fn lemma_seg_index(segs: Seq<SegView>, k: Seq<char>)
    ensures
        0 <= seg_index(segs, k) <= segs.len(),
        seg_index(segs, k) < segs.len() ==> segs[seg_index(segs, k)].key == Some(k),
        forall|i: int| 0 <= i < seg_index(segs, k) ==> #[trigger] segs[i].key != Some(k),
    decreases segs.len(),
{
    if segs.len() > 0 && segs[0].key != Some(k) {
        lemma_seg_index(segs.drop_first(), k);
        assert forall|i: int| 0 <= i < seg_index(segs, k) implies #[trigger] segs[i].key != Some(k) by {
            if i > 0 {
                assert(segs[i] == segs.drop_first()[i - 1]);
            }
        }
    }
}

/// The lines a `SetKey` writes for `key` and `value`.
pub open spec fn set_lines(key: Seq<char>, value: super::YamlView) -> Seq<Seq<char>> {
    lines_of(field_text(key, value, Seq::empty()))
}

/// The model of an edit.
pub enum EditView {
    SetKey(Seq<char>, super::YamlView),
    Remove(Seq<char>),
    Rename(Seq<char>, Seq<char>),
}

pub open spec fn edit_view(e: FrontmatterEdit) -> EditView {
    match e {
        FrontmatterEdit::SetKey { key, value } => EditView::SetKey(key@, value@),
        FrontmatterEdit::Remove { key } => EditView::Remove(key@),
        FrontmatterEdit::Rename { from, to } => EditView::Rename(from@, to@),
    }
}

pub open spec fn edits_view(edits: Seq<FrontmatterEdit>) -> Seq<EditView> {
    edits.map_values(|e: FrontmatterEdit| edit_view(e))
}

/// The segments after one edit, or the key an edit could not find.
pub open spec fn apply_edit(segs: Seq<SegView>, e: EditView) -> Result<Seq<SegView>, Seq<char>> {
    match e {
        EditView::SetKey(key, value) => {
            let ls = set_lines(key, value);
            let kl = if ls.len() > 0 { ls[0] } else { Seq::empty() };
            let cont = if ls.len() > 0 { ls.drop_first() } else { Seq::empty() };
            let i = seg_index(segs, key);
            if i < segs.len() {
                Ok(segs.update(i, SegView { key_line: Some(kl), continuation: cont, ..segs[i] }))
            } else {
                Ok(segs.push(SegView { key: Some(key), leading: Seq::empty(), key_line: Some(kl), continuation: cont }))
            }
        },
        EditView::Remove(key) => {
            let i = seg_index(segs, key);
            if i < segs.len() {
                Ok(segs.remove(i))
            } else {
                Err(key)
            }
        },
        EditView::Rename(from, to) => {
            let i = seg_index(segs, from);
            if i < segs.len() {
                let ol = match segs[i].key_line {
                    Some(l) => l,
                    None => Seq::empty(),
                };
                let c = first_of(ol, 0, ':');
                Ok(segs.update(i, SegView { key: Some(to), key_line: Some(to + ol.subrange(c, ol.len() as int)), ..segs[i] }))
            } else {
                Err(from)
            }
        },
    }
}

/// The segments after the edits in order, or the first key not found.
pub open spec fn apply_all(segs: Seq<SegView>, edits: Seq<EditView>) -> Result<Seq<SegView>, Seq<char>>
    decreases edits.len(),
{
    if edits.len() == 0 {
        Ok(segs)
    } else {
        match apply_all(segs, edits.drop_last()) {
            Ok(s) => apply_edit(s, edits.last()),
            Err(k) => Err(k),
        }
    }
}

/// What [`apply_edits`] gives: the edited segments' lines joined, with a
/// final newline when the original ended with one (and the result is not
/// empty); or the key an edit could not find.
pub open spec fn surgery(original: Seq<char>, edits: Seq<EditView>) -> Result<Seq<char>, Seq<char>> {
    match apply_all(segments_of(lines_of(original)), edits) {
        Ok(segs) => {
            let out = join_lines(flat(segs));
            Ok(if original.len() > 0 && original.last() == '\n' && out.len() > 0 { out.push('\n') } else { out })
        },
        Err(k) => Err(k),
    }
}

/// Every key segment's key line holds a `:`.
pub open spec fn keyed_lines_ok(segs: Seq<SegView>) -> bool {
    forall|i: int| 0 <= i < segs.len() && (#[trigger] segs[i]).key is Some ==> (segs[i].key_line matches Some(l) && first_of(l, 0, ':') < l.len())
}

/// The edits [`apply_edits`] can carry out: a `SetKey` key holds no newline
/// and its value can be written.
pub open spec fn edits_ok(edits: Seq<EditView>) -> bool {
    forall|i: int| 0 <= i < edits.len() ==> match #[trigger] edits[i] {
        EditView::SetKey(key, value) => !key.contains('\n') && emittable(value),
        _ => true,
    }
}

proof fn lemma_colon_found(l: Seq<char>, c: int)
    requires
        0 <= c < l.len(),
        l[c] == ':',
    ensures
        first_of(l, 0, ':') < l.len(),
{
    lemma_first_of(l, 0, ':');
}

proof fn lemma_key_line_has_colon(l: Seq<char>)
    requires
        top_level_key(l) is Some,
    ensures
        first_of(l, 0, ':') < l.len(),
{
    let t = trim_end(l);
    crate::text::lemma_trail_ws_bounds(l, l.len() as int);
    lemma_first_of(t, 0, ':');
    let c = first_of(t, 0, ':');
    assert(l[c] == t[c]);
    lemma_colon_found(l, c);
}

proof fn lemma_scan_keyed(lines: Seq<Seq<char>>)
    ensures
        keyed_lines_ok(scan(lines).segs),
        scan(lines).current matches Some(c) ==> (c.key is Some && (c.key_line matches Some(l) && first_of(l, 0, ':') < l.len())),
    decreases lines.len(),
{
    if lines.len() > 0 {
        lemma_scan_keyed(lines.drop_last());
        let line = lines.last();
        if top_level_key(line) is Some {
            lemma_key_line_has_colon(line);
        }
        let st = scan(lines.drop_last());
        let nxt = scan(lines);
        assert forall|i: int| 0 <= i < nxt.segs.len() && (#[trigger] nxt.segs[i]).key is Some implies (nxt.segs[i].key_line matches Some(l) && first_of(l, 0, ':') < l.len()) by {
            if i < st.segs.len() {
                assert(nxt.segs[i] == st.segs[i]);
            }
        }
    }
}

proof fn lemma_segments_keyed(lines: Seq<Seq<char>>)
    ensures
        keyed_lines_ok(segments_of(lines)),
{
    lemma_scan_keyed(lines);
    let st = scan(lines);
    let f = close(st);
    assert(keyed_lines_ok(f.segs)) by {
        assert forall|i: int| 0 <= i < f.segs.len() && (#[trigger] f.segs[i]).key is Some implies (f.segs[i].key_line matches Some(l) && first_of(l, 0, ':') < l.len()) by {
            if i < st.segs.len() {
                assert(f.segs[i] == st.segs[i]);
            }
        }
    }
    let r = segments_of(lines);
    assert forall|i: int| 0 <= i < r.len() && (#[trigger] r[i]).key is Some implies (r[i].key_line matches Some(l) && first_of(l, 0, ':') < l.len()) by {
        if i < f.segs.len() {
            assert(r[i] == f.segs[i]);
        }
    }
}

/// The first line of text that starts with a newline-free `key` then `:`
/// holds a `:`.
proof fn lemma_first_line_colon(key: Seq<char>, s: Seq<char>)
    requires
        !key.contains('\n'),
        s.len() > key.len(),
        s.subrange(0, key.len() as int) == key,
        s[key.len() as int] == ':',
    ensures
        lines_of(s).len() > 0,
        first_of(lines_of(s)[0], 0, ':') < lines_of(s)[0].len(),
{
    lemma_first_of(s, 0, '\n');
    let j = first_of(s, 0, '\n');
    let k = key.len() as int;
    if j <= k {
        assert(s[j] == key[j]);
        assert(key.contains('\n'));
    }
    let p = s.subrange(0, j);
    assert(p[k] == ':');
    if j < s.len() {
        assert(lines_of(s)[0] == strip_cr(p));
        lemma_colon_found(strip_cr(p), k);
    } else {
        assert(lines_of(s)[0] == p);
        lemma_colon_found(p, k);
    }
}

proof fn lemma_field_text_starts(key: Seq<char>, v: super::YamlView)
    ensures
        field_text(key, v, Seq::empty()).len() > key.len(),
        field_text(key, v, Seq::empty()).subrange(0, key.len() as int) == key,
        field_text(key, v, Seq::empty())[key.len() as int] == ':',
{
    reveal_strlit(": ");
    reveal_strlit(": |");
    reveal_strlit(": null");
    reveal_strlit(": []");
    reveal_strlit(": {}");
    reveal_strlit(":\n");
    let e = Seq::<char>::empty();
    let t = field_text(key, v, e);
    let head = e + key;
    assert(head =~= key);
    match v {
        super::YamlView::Block(s) => {
            let b = super::emit::block_text(key, s, e);
            assert(b.subrange(0, key.len() as int) =~= key);
        },
        _ => {
            assert(t.subrange(0, key.len() as int) =~= key);
        },
    }
}

fn find_index(segments: &Vec<Segment>, key: &String) -> (r: usize)
    ensures
        r == seg_index(segs_view(segments@), key@),
{
    let ghost sv = segs_view(segments@);
    proof { lemma_seg_index(sv, key@); }
    let mut i: usize = 0;
    while i < segments.len()
        invariant
            i <= segments@.len(),
            sv == segs_view(segments@),
            sv.len() == segments@.len(),
            0 <= seg_index(sv, key@) <= sv.len(),
            seg_index(sv, key@) < sv.len() ==> sv[seg_index(sv, key@)].key == Some(key@),
            forall|m: int| 0 <= m < i ==> #[trigger] sv[m].key != Some(key@),
        decreases segments.len() - i,
    {
        assert(sv[i as int] == seg_view(segments@[i as int]));
        let hit = match &segments[i].key {
            Some(k) => crate::text::str_eq(k.as_str(), key.as_str()),
            None => false,
        };
        if hit {
            assert(sv[i as int].key == Some(key@));
            proof {
                if seg_index(sv, key@) < i {
                    assert(sv[seg_index(sv, key@)].key != Some(key@));
                }
                if seg_index(sv, key@) > i {
                    lemma_seg_index(sv, key@);
                }
            }
            return i;
        }
        i = i + 1;
    }
    proof {
        if seg_index(sv, key@) < i {
            assert(sv[seg_index(sv, key@)].key != Some(key@));
        }
    }
    i
}

/// Applies `edits` in order to `original` (a frontmatter block without its
/// `---` delimiters). Every segment no edit names keeps its exact lines.
pub fn apply_edits(original: &str, edits: &Vec<FrontmatterEdit>) -> (r: Result<String, SurgeryError>)
    requires
        edits_ok(edits_view(edits@)),
    ensures
        match r {
            Ok(t) => surgery(original@, edits_view(edits@)) == Ok::<Seq<char>, Seq<char>>(t@),
            Err(SurgeryError::KeyNotFound(k)) => surgery(original@, edits_view(edits@)) == Err::<Seq<char>, Seq<char>>(k@),
        },
{
    let mut segments = segment_text(original);
    let ghost base = segments_of(lines_of(original@));
    proof { lemma_segments_keyed(lines_of(original@)); }
    let ghost ev = edits_view(edits@);
    let mut j: usize = 0;
    assert(ev.subrange(0, 0) =~= Seq::<EditView>::empty());
    while j < edits.len()
        invariant
            j <= edits@.len(),
            ev == edits_view(edits@),
            ev.len() == edits@.len(),
            edits_ok(ev),
            base == segments_of(lines_of(original@)),
            apply_all(base, ev.subrange(0, j as int)) == Ok::<Seq<SegView>, Seq<char>>(segs_view(segments@)),
            keyed_lines_ok(segs_view(segments@)),
        decreases edits.len() - j,
    {
        assert(ev.subrange(0, j + 1).drop_last() =~= ev.subrange(0, j as int));
        assert(ev.subrange(0, j + 1).last() == edit_view(edits@[j as int]));
        assert(ev[j as int] == edit_view(edits@[j as int]));
        let ghost sv = segs_view(segments@);
        proof { lemma_seg_index(sv, Seq::empty()); }
        match &edits[j] {
            FrontmatterEdit::SetKey { key, value } => {
                assert(!key@.contains('\n') && emittable(value@)) by {
                    assert(edits_ok(ev));
                    assert(ev[j as int] == EditView::SetKey(key@, value@));
                }
                let rendered = render_field(key.as_str(), value);
                let ls = split_lines(rendered.as_str());
                let ghost lv = strs(ls@);
                proof {
                    lemma_field_text_starts(key@, value@);
                    lemma_first_line_colon(key@, rendered@);
                }
                let key_line = ls[0].clone();
                let mut cont: Vec<String> = Vec::new();
                let mut m: usize = 1;
                while m < ls.len()
                    invariant
                        1 <= m <= ls@.len(),
                        lv == strs(ls@),
                        lv.len() == ls@.len(),
                        strs(cont@) =~= lv.subrange(1, m as int),
                    decreases ls.len() - m,
                {
                    let ghost c0 = cont@;
                    let x = ls[m].clone();
                    assert(x@ == lv[m as int]);
                    cont.push(x);
                    assert(strs(cont@) =~= strs(c0).push(x@));
                    assert(strs(cont@) =~= lv.subrange(1, m + 1));
                    m = m + 1;
                }
                assert(lv.subrange(1, m as int) =~= lv.drop_first());
                let i = find_index(&segments, key);
                proof { lemma_seg_index(sv, key@); }
                if i < segments.len() {
                    let mut seg = segments.remove(i);
                    let ghost old_seg = seg_view(seg);
                    seg.key_line = Some(key_line);
                    seg.continuation = cont;
                    segments.insert(i, seg);
                    assert(segs_view(segments@) =~= sv.update(i as int, SegView { key_line: Some(lv[0]), continuation: lv.drop_first(), ..old_seg }));
                } else {
                    segments.push(Segment { key: Some(key.clone()), leading: Vec::new(), key_line: Some(key_line), continuation: cont });
                    assert(strs(Seq::<String>::empty()) =~= Seq::<Seq<char>>::empty());
                    assert(segs_view(segments@) =~= sv.push(SegView { key: Some(key@), leading: Seq::empty(), key_line: Some(lv[0]), continuation: lv.drop_first() }));
                }
                let ghost nv = segs_view(segments@);
                assert(keyed_lines_ok(nv)) by {
                    assert forall|t: int| 0 <= t < nv.len() && (#[trigger] nv[t]).key is Some implies (nv[t].key_line matches Some(l) && first_of(l, 0, ':') < l.len()) by {
                        if t < sv.len() && t != i {
                            assert(nv[t] == sv[t]);
                        }
                    }
                }
            },
            FrontmatterEdit::Remove { key } => {
                let i = find_index(&segments, key);
                proof { lemma_seg_index(sv, key@); }
                if i < segments.len() {
                    segments.remove(i);
                    assert(segs_view(segments@) =~= sv.remove(i as int));
                    let ghost nv = segs_view(segments@);
                    assert(keyed_lines_ok(nv)) by {
                        assert forall|t: int| 0 <= t < nv.len() && (#[trigger] nv[t]).key is Some implies (nv[t].key_line matches Some(l) && first_of(l, 0, ':') < l.len()) by {
                            if t < i {
                                assert(nv[t] == sv[t]);
                            } else {
                                assert(nv[t] == sv[t + 1]);
                            }
                        }
                    }
                } else {
                    proof {
                        assert(apply_all(base, ev.subrange(0, j + 1)) == Err::<Seq<SegView>, Seq<char>>(key@));
                        lemma_apply_all_err_stays(base, ev, j as int + 1);
                        assert(ev.subrange(0, ev.len() as int) =~= ev);
                    }
                    let kc = key.clone();
                    assert(kc@ == key@);
                    return Err(SurgeryError::KeyNotFound(kc));
                }
            },
            FrontmatterEdit::Rename { from, to } => {
                let i = find_index(&segments, from);
                proof { lemma_seg_index(sv, from@); }
                if i < segments.len() {
                    let mut seg = segments.remove(i);
                    let ghost old_seg = seg_view(seg);
                    assert(old_seg == sv[i as int]);
                    let ol = match &seg.key_line {
                        Some(l) => chars_of(l.as_str()),
                        None => Vec::new(),
                    };
                    let c = find_char(&ol, 0, ':');
                    proof { lemma_first_of(ol@, 0, ':'); }
                    let mut nl = chars_of(to.as_str());
                    push_all(&mut nl, &slice_chars(&ol, c, ol.len()));
                    seg.key_line = Some(string_of(&nl));
                    seg.key = Some(to.clone());
                    segments.insert(i, seg);
                    assert(segs_view(segments@) =~= sv.update(i as int, SegView { key: Some(to@), key_line: Some(to@ + ol@.subrange(c as int, ol@.len() as int)), ..old_seg }));
                    let ghost nv = segs_view(segments@);
                    assert(keyed_lines_ok(nv)) by {
                        assert forall|t: int| 0 <= t < nv.len() && (#[trigger] nv[t]).key is Some implies (nv[t].key_line matches Some(l) && first_of(l, 0, ':') < l.len()) by {
                            if t != i {
                                assert(nv[t] == sv[t]);
                            } else {
                                let l = to@ + ol@.subrange(c as int, ol@.len() as int);
                                assert(l[to@.len() as int] == ':');
                                lemma_colon_found(l, to@.len() as int);
                            }
                        }
                    }
                } else {
                    proof {
                        assert(apply_all(base, ev.subrange(0, j + 1)) == Err::<Seq<SegView>, Seq<char>>(from@));
                        lemma_apply_all_err_stays(base, ev, j as int + 1);
                        assert(ev.subrange(0, ev.len() as int) =~= ev);
                    }
                    let kc = from.clone();
                    assert(kc@ == from@);
                    return Err(SurgeryError::KeyNotFound(kc));
                }
            },
        }
        j = j + 1;
    }
    assert(ev.subrange(0, j as int) =~= ev);
    let ghost fin = segs_view(segments@);
    let mut all: Vec<String> = Vec::new();
    let mut s: usize = 0;
    assert(strs(all@) =~= flat(fin.subrange(0, 0)));
    while s < segments.len()
        invariant
            s <= segments@.len(),
            fin == segs_view(segments@),
            fin.len() == segments@.len(),
            strs(all@) == flat(fin.subrange(0, s as int)),
        decreases segments.len() - s,
    {
        assert(fin.subrange(0, s + 1).drop_last() =~= fin.subrange(0, s as int));
        assert(fin[s as int] == seg_view(segments@[s as int]));
        let seg = &segments[s];
        let ghost before = strs(all@);
        let mut m: usize = 0;
        while m < seg.leading.len()
            invariant
                m <= seg.leading@.len(),
                strs(all@) == before + strs(seg.leading@).subrange(0, m as int),
            decreases seg.leading.len() - m,
        {
            let ghost a0 = all@;
            let x = seg.leading[m].clone();
            assert(x@ == strs(seg.leading@)[m as int]);
            all.push(x);
            assert(strs(all@) =~= strs(a0).push(x@));
            assert(strs(all@) =~= before + strs(seg.leading@).subrange(0, m + 1));
            m = m + 1;
        }
        assert(strs(seg.leading@).subrange(0, m as int) =~= strs(seg.leading@));
        let ghost mid = strs(all@);
        match &seg.key_line {
            Some(l) => {
                all.push(l.clone());
                assert(strs(all@) =~= mid.push(l@));
            },
            None => {},
        }
        let ghost mid2 = strs(all@);
        let mut m: usize = 0;
        while m < seg.continuation.len()
            invariant
                m <= seg.continuation@.len(),
                strs(all@) == mid2 + strs(seg.continuation@).subrange(0, m as int),
            decreases seg.continuation.len() - m,
        {
            let ghost a0 = all@;
            let x = seg.continuation[m].clone();
            assert(x@ == strs(seg.continuation@)[m as int]);
            all.push(x);
            assert(strs(all@) =~= strs(a0).push(x@));
            assert(strs(all@) =~= mid2 + strs(seg.continuation@).subrange(0, m + 1));
            m = m + 1;
        }
        assert(strs(seg.continuation@).subrange(0, m as int) =~= strs(seg.continuation@));
        assert(strs(all@) =~= before + seg_lines(fin[s as int]));
        s = s + 1;
    }
    assert(fin.subrange(0, s as int) =~= fin);
    let mut out = join_chars(&all);
    let ov = chars_of(original);
    if ov.len() > 0 && ov[ov.len() - 1] == '\n' && out.len() > 0 {
        out.push('\n');
    }
    Ok(string_of(&out))
}

proof fn lemma_apply_all_err_stays(base: Seq<SegView>, edits: Seq<EditView>, n: int)
    requires
        0 <= n <= edits.len(),
        apply_all(base, edits.subrange(0, n)) is Err,
    ensures
        apply_all(base, edits.subrange(0, edits.len() as int)) == apply_all(base, edits.subrange(0, n)),
    decreases edits.len() - n,
{
    if n < edits.len() {
        assert(edits.subrange(0, n + 1).drop_last() =~= edits.subrange(0, n));
        lemma_apply_all_err_stays(base, edits, n + 1);
    }
}

proof fn lemma_join_cons(a: Seq<char>, rest: Seq<Seq<char>>)
    requires
        rest.len() > 0,
    ensures
        join_lines(seq![a] + rest) == a + seq!['\n'] + join_lines(rest),
    decreases rest.len(),
{
    let whole = seq![a] + rest;
    if rest.len() == 1 {
        assert(whole.drop_last() =~= seq![a]);
        assert(join_lines(seq![a]) == a);
        assert(whole.last() == rest[0]);
        assert(join_lines(rest) == rest[0]);
        assert(join_lines(whole) =~= a + seq!['\n'] + join_lines(rest));
    } else {
        assert(whole.drop_last() =~= seq![a] + rest.drop_last());
        lemma_join_cons(a, rest.drop_last());
        assert(join_lines(whole) =~= a + seq!['\n'] + join_lines(rest));
    }
}

/// A trailing newline marker: `\n` when `s` ends with one.
pub open spec fn final_newline(s: Seq<char>) -> Seq<char> {
    if s.len() > 0 && s.last() == '\n' { seq!['\n'] } else { Seq::empty() }
}

proof fn lemma_join_lines_from(s: Seq<char>, i: int)
    requires
        0 <= i < s.len(),
        !s.contains('\r'),
    ensures
        join_lines(lines_from(s, i)) + final_newline(s) == s.subrange(i, s.len() as int),
    decreases s.len() - i,
{
    lemma_first_of(s, i, '\n');
    let j = first_of(s, i, '\n');
    let p = s.subrange(i, j);
    if j < s.len() {
        assert(strip_cr(p) == p) by {
            if p.len() > 0 && p.last() == '\r' {
                assert(s[j - 1] == '\r');
                assert(s.contains('\r'));
            }
        }
        if j + 1 == s.len() {
            assert(lines_from(s, j + 1) =~= Seq::<Seq<char>>::empty());
            assert(lines_from(s, i) =~= seq![p]);
            assert(join_lines(seq![p]) == p);
            assert(p + final_newline(s) =~= s.subrange(i, s.len() as int));
        } else {
            lemma_join_lines_from(s, j + 1);
            let rest = lines_from(s, j + 1);
            assert(lines_from(s, i) == seq![p] + rest);
            assert(rest.len() > 0);
            lemma_join_cons(p, rest);
            assert(join_lines(lines_from(s, i)) + final_newline(s) =~= p + seq!['\n'] + (join_lines(rest) + final_newline(s)));
            assert(s.subrange(i, s.len() as int) =~= p + seq!['\n'] + s.subrange(j + 1, s.len() as int));
        }
    } else {
        assert(lines_from(s, i) =~= seq![p]);
        assert(final_newline(s) =~= Seq::<char>::empty()) by {
            if s.len() > 0 && s.last() == '\n' {
                assert(s[s.len() - 1] != '\n');
            }
        }
        assert(join_lines(seq![p]) == p);
        assert(p + final_newline(s) =~= s.subrange(i, s.len() as int));
    }
}

/// With no edits, a block without carriage returns comes back exactly as
/// it was; the one exception is a block that is a single newline, which
/// comes back empty.
pub proof fn lemma_no_edits_identity(original: Seq<char>)
    requires
        !original.contains('\r'),
        original != seq!['\n'],
    ensures
        surgery(original, Seq::<EditView>::empty()) == Ok::<Seq<char>, Seq<char>>(original),
{
    let ls = lines_of(original);
    lemma_segments_partition(ls);
    let out = join_lines(ls);
    assert(apply_all(segments_of(ls), Seq::<EditView>::empty()) == Ok::<Seq<SegView>, Seq<char>>(segments_of(ls)));
    if original.len() == 0 {
        assert(ls =~= Seq::<Seq<char>>::empty());
        assert(out =~= original);
    } else {
        lemma_join_lines_from(original, 0);
        assert(original.subrange(0, original.len() as int) =~= original);
        if original.last() == '\n' {
            if out.len() == 0 {
                assert(original =~= seq!['\n']);
            }
            assert(out.push('\n') =~= out + final_newline(original));
        } else {
            assert(out =~= out + final_newline(original));
        }
    }
}


/// The key an edit acts on.
pub open spec fn edit_key(e: EditView) -> Seq<char> {
    match e {
        EditView::SetKey(key, _) => key,
        EditView::Remove(key) => key,
        EditView::Rename(from, _) => from,
    }
}

/// Law: an edit touches only the segment of its key (the first one with
/// that key). Every other segment, before or after it, comes out unchanged
/// and in the same order; a removed key's segment is the only one dropped,
/// a set or renamed key keeps the comment lines above it, and a key set
/// that was not there is appended after everything else.
pub proof fn lemma_edit_touches_one_segment(segs: Seq<SegView>, e: EditView)
    ensures
        apply_edit(segs, e) matches Ok(out) ==> {
            let i = seg_index(segs, edit_key(e));
            if i < segs.len() {
                &&& out.subrange(0, i) == segs.subrange(0, i)
                &&& match e {
                    EditView::Remove(_) => out == segs.subrange(0, i) + segs.subrange(i + 1, segs.len() as int),
                    _ => {
                        &&& out.len() == segs.len()
                        &&& out.subrange(i + 1, out.len() as int) == segs.subrange(i + 1, segs.len() as int)
                        &&& out[i].leading == segs[i].leading
                    },
                }
            } else {
                &&& e is SetKey
                &&& out.len() == segs.len() + 1
                &&& out.subrange(0, segs.len() as int) == segs
                &&& out.last().key == Some(edit_key(e))
            }
        },
{
    lemma_seg_index(segs, edit_key(e));
    let i = seg_index(segs, edit_key(e));
    match apply_edit(segs, e) {
        Ok(out) => {
            if i < segs.len() {
                assert(out.subrange(0, i) =~= segs.subrange(0, i));
                match e {
                    EditView::Remove(_) => {
                        assert(out =~= segs.subrange(0, i) + segs.subrange(i + 1, segs.len() as int));
                    },
                    _ => {
                        assert(out.subrange(i + 1, out.len() as int) =~= segs.subrange(i + 1, segs.len() as int));
                    },
                }
            } else {
                assert(out.subrange(0, segs.len() as int) =~= segs);
            }
        },
        Err(_) => {},
    }
}

} // verus!
