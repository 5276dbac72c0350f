//! Document → MyST and document → Quarto writers, and what both share:
//! preservation markers, blank-line spacing, nested-body rendering and the
//! set of labels that read as cross-references.
pub mod myst;
pub mod quarto;

use vstd::prelude::*;
use crate::diagnostics::{codes, Diagnostic, Severity};
use crate::ir::Block;
use crate::label::Label;
use crate::preserve::{entry_id, marker, spec_entry_id, spec_marker, Dialect, PreservedEntry};
use crate::reader::fence::strs;
use crate::reader::lines::{lines_of, split_lines};
use crate::registry::LabelRegistry;
use crate::span::Span;
use crate::strmap::{map_insert, EntriesView, StrMap};
use crate::text::{char_len, chars_of, find_char, first_of, lemma_first_of, push_all, slice_chars, string_of};

verus! {

/// `a` then `b`.
pub fn cat2(a: &str, b: &str) -> (r: String)
    ensures
        r@ == a@ + b@,
{
    let mut v = chars_of(a);
    push_all(&mut v, &chars_of(b));
    string_of(&v)
}

/// `a`, `b` then `c`.
pub fn cat3(a: &str, b: &str, c: &str) -> (r: String)
    ensures
        r@ == a@ + b@ + c@,
{
    let mut v = chars_of(a);
    push_all(&mut v, &chars_of(b));
    push_all(&mut v, &chars_of(c));
    string_of(&v)
}

/// `a`, `b`, `c` then `d`.
pub fn cat4(a: &str, b: &str, c: &str, d: &str) -> (r: String)
    ensures
        r@ == a@ + b@ + c@ + d@,
{
    let mut v = chars_of(a);
    push_all(&mut v, &chars_of(b));
    push_all(&mut v, &chars_of(c));
    push_all(&mut v, &chars_of(d));
    string_of(&v)
}

/// `a`, `b`, `c`, `d` then `e`.
pub fn cat5(a: &str, b: &str, c: &str, d: &str, e: &str) -> (r: String)
    ensures
        r@ == a@ + b@ + c@ + d@ + e@,
{
    let mut v = chars_of(a);
    push_all(&mut v, &chars_of(b));
    push_all(&mut v, &chars_of(c));
    push_all(&mut v, &chars_of(d));
    push_all(&mut v, &chars_of(e));
    string_of(&v)
}

/// Appends copies of `src`'s lines.
pub fn extend_lines(dst: &mut Vec<String>, src: &[String])
    ensures
        strs(final(dst)@) == strs(old(dst)@) + strs(src@),
{
    let mut k: usize = 0;
    while k < src.len()
        invariant
            k <= src@.len(),
            strs(dst@) == strs(old(dst)@) + strs(src@).subrange(0, k as int),
        decreases src.len() - k,
    {
        let ghost prev = strs(dst@);
        let item = src[k].clone();
        assert(item@ == strs(src@)[k as int]);
        dst.push(item);
        assert(strs(dst@) =~= prev.push(item@));
        assert(strs(dst@) =~= strs(old(dst)@) + strs(src@).subrange(0, k + 1));
        k = k + 1;
    }
    assert(strs(src@).subrange(0, k as int) =~= strs(src@));
}

/// Appends one line.
pub fn push_line(dst: &mut Vec<String>, line: String)
    ensures
        strs(final(dst)@) == strs(old(dst)@).push(line@),
{
    dst.push(line);
    assert(strs(dst@) =~= strs(old(dst)@).push(line@));
}

/// What `Path::file_stem` answers for `path`.
pub uninterp spec fn path_file_stem(path: Seq<char>) -> Option<Seq<char>>;

/// Calls `Path::file_stem` (lossily as text). Claimed: the answer depends
/// only on the path text.
#[verifier::external_body]
pub(crate) fn file_stem_of(path: &str) -> (r: Option<String>)
    ensures
        match r {
            Some(s) => path_file_stem(path@) == Some(s@),
            None => path_file_stem(path@) is None,
        },
{
    std::path::Path::new(path).file_stem().and_then(|s| s.to_str()).map(|s| s.to_string())
}

/// The stem an include target's converted file name is built on: its file
/// stem (`include` when it has none) without a leading `_`.
pub open spec fn include_stem(target: Seq<char>) -> Seq<char> {
    let stem = match path_file_stem(target) {
        Some(s) => s,
        None => "include"@,
    };
    if stem.len() > 0 && stem[0] == '_' {
        stem.drop_first()
    } else {
        stem
    }
}

/// `name` in `target`'s directory (`name` alone when that is empty).
pub open spec fn beside(target: Seq<char>, name: Seq<char>) -> Seq<char> {
    match crate::reader::path_parent(target) {
        Some(d) => if d.len() == 0 {
            name
        } else {
            crate::reader::path_joined(d, name)
        },
        None => name,
    }
}

pub(crate) fn include_stem_exec(target: &str) -> (r: String)
    ensures
        r@ == include_stem(target@),
{
    proof { reveal_strlit("include"); }
    let stem = match file_stem_of(target) {
        Some(s) => s,
        None => String::from_str("include"),
    };
    let sv = chars_of(stem.as_str());
    if sv.len() > 0 && sv[0] == '_' {
        let r = string_of(&slice_chars(&sv, 1, sv.len()));
        assert(r@ =~= sv@.drop_first());
        r
    } else {
        stem
    }
}

pub(crate) fn beside_exec(target: &str, name: String) -> (r: String)
    ensures
        r@ == beside(target@, name@),
{
    match crate::reader::parent_of(target) {
        Some(dir) => {
            if char_len(dir.as_str()) == 0 {
                name
            } else {
                crate::reader::join_path(dir.as_str(), name.as_str())
            }
        },
        None => name,
    }
}

/// The text between the first `{` of a reason and the `}` after it, or
/// `construct` when there is no such pair.
pub open spec fn spec_preserved_kind(reason: Seq<char>) -> Seq<char> {
    let a = first_of(reason, 0, '{');
    if a < reason.len() {
        let b = first_of(reason, a, '}');
        if b < reason.len() {
            reason.subrange(a + 1, b)
        } else {
            "construct"@
        }
    } else {
        "construct"@
    }
}

/// A short name for a preserved construct, taken from its reason text.
pub fn preserved_kind(reason: &str) -> (r: String)
    ensures
        r@ == spec_preserved_kind(reason@),
{
    let v = chars_of(reason);
    let a = find_char(&v, 0, '{');
    if a < v.len() {
        let b = find_char(&v, a, '}');
        if b < v.len() {
            proof {
                lemma_first_of(v@, a as int, '}');
                lemma_first_of(v@, 0, '{');
                assert(v@[a as int] == '{');
            }
            return string_of(&slice_chars(&v, a + 1, b));
        }
    }
    String::from_str("construct")
}

/// The lines joined with `\n`.
pub open spec fn joined(v: Seq<Seq<char>>) -> Seq<char> {
    crate::preserve::join_lines(v)
}

/// Joins rendered lines with `\n`.
pub fn join_lines(lines: &[String]) -> (r: String)
    ensures
        r@ == joined(strs(lines@)),
{
    string_of(&crate::preserve::join_chars(lines))
}

/// The text after pushing a block's leading blank lines: nothing before the
/// first block; otherwise the previous text is ended with `\n` (when it is
/// not already) and then one `\n` per blank line.
pub open spec fn spec_spacing(out: Seq<char>, blank: u8, is_first: bool) -> Seq<char> {
    if is_first {
        out
    } else {
        let ended = if out.len() > 0 && out.last() != '\n' { out.push('\n') } else { out };
        ended + Seq::new(blank as nat, |i: int| '\n')
    }
}

/// A document's text from `head` on: each rendered block after its leading
/// blank lines (with one more blank line after frontmatter), its lines
/// joined with `\n`.
pub open spec fn laid_out(head: Seq<char>, rendered: Seq<(u8, Seq<Seq<char>>)>, has_fm: bool) -> Seq<char>
    decreases rendered.len(),
{
    if rendered.len() == 0 {
        head
    } else {
        let first = rendered.len() == 1;
        spec_spacing(laid_out(head, rendered.drop_last(), has_fm), rendered.last().0, first && !has_fm) + (if has_fm
            && first {
            seq!['\n']
        } else {
            Seq::empty()
        }) + joined(rendered.last().1)
    }
}

/// The text ended with a newline (one is added when it is empty or does not
/// end in one).
pub open spec fn newline_ended(t: Seq<char>) -> Seq<char> {
    if t.len() == 0 || t.last() != '\n' {
        t.push('\n')
    } else {
        t
    }
}

/// Pushes a block's leading blank lines.
pub fn push_spacing(out: &mut Vec<char>, blank_lines_before: u8, is_first: bool)
    ensures
        final(out)@ == spec_spacing(old(out)@, blank_lines_before, is_first),
{
    if is_first {
        return;
    }
    if out.len() > 0 && out[out.len() - 1] != '\n' {
        out.push('\n');
    }
    let ghost base = out@;
    let mut k: u8 = 0;
    while k < blank_lines_before
        invariant
            k <= blank_lines_before,
            out@ == base + Seq::new(k as nat, |i: int| '\n'),
        decreases blank_lines_before - k,
    {
        out.push('\n');
        k = k + 1;
        assert(out@ =~= base + Seq::new(k as nat, |i: int| '\n'));
    }
    assert(final(out)@ =~= spec_spacing(old(out)@, blank_lines_before, is_first));
}

/// Every raw label and every id of the registry, sorted, each once.
pub open spec fn label_keys(f: crate::registry::ForwardView, n: int) -> EntriesView
    decreases n,
{
    if n <= 0 || n > f.len() {
        Seq::empty()
    } else {
        let m = label_keys(f, n - 1);
        map_insert(map_insert(m, f[n - 1].1, Seq::empty()), f[n - 1].2, Seq::empty())
    }
}

/// Every label spelling that reads as a cross-reference rather than a
/// citation: each raw label and each id of the registry, sorted, each once.
pub fn known_reference_labels(registry: &LabelRegistry) -> (r: Vec<String>)
    ensures
        strs(r@) == label_keys(registry.forward_view(), registry.forward_view().len() as int).map_values(
            |e: (Seq<char>, Seq<char>)| e.0,
        ),
        crate::strmap::keys_sorted(label_keys(registry.forward_view(), registry.forward_view().len() as int)),
{
    let entries = registry.entries();
    let ghost f = registry.forward_view();
    let mut set = StrMap::new();
    let mut i: usize = 0;
    while i < entries.len()
        invariant
            i <= entries@.len(),
            f == registry.forward_view(),
            entries@.map_values(|e: (String, String, String)| crate::registry::triple_view(e)) == f,
            set@ == label_keys(f, i as int),
            crate::strmap::keys_sorted(set@),
        decreases entries.len() - i,
    {
        assert(f[i as int] == crate::registry::triple_view(entries@[i as int]));
        let ghost s0 = set@;
        proof {
            crate::strmap::lemma_insert_keeps_sorted(s0, f[i as int].1, Seq::empty());
            crate::strmap::lemma_insert_keeps_sorted(map_insert(s0, f[i as int].1, Seq::empty()), f[i as int].2, Seq::empty());
        }
        set.insert(entries[i].1.clone(), String::new());
        set.insert(entries[i].2.clone(), String::new());
        i = i + 1;
    }
    let pairs = set.entries();
    let mut out: Vec<String> = Vec::new();
    let mut k: usize = 0;
    while k < pairs.len()
        invariant
            k <= pairs@.len(),
            pairs@.map_values(|e: (String, String)| (e.0@, e.1@)) == set@,
            strs(out@) == set@.subrange(0, k as int).map_values(|e: (Seq<char>, Seq<char>)| e.0),
        decreases pairs.len() - k,
    {
        assert(set@[k as int] == (pairs@[k as int].0@, pairs@[k as int].1@));
        let ghost prev = strs(out@);
        let key = pairs[k].0.clone();
        out.push(key);
        assert(strs(out@) =~= prev.push(key@));
        assert(strs(out@) =~= set@.subrange(0, k + 1).map_values(|e: (Seq<char>, Seq<char>)| e.0));
        k = k + 1;
    }
    assert(set@.subrange(0, k as int) =~= set@);
    out
}

/// `(file, id) → original label` entries, as the label sidecar restores
/// them.
pub type RestoreMap = Vec<((String, String), Label)>;

/// The label the MyST writer emits for `label` read in `source`: the
/// restored original when the map has one (first match), else `label`.
pub open spec fn spec_myst_label(source: Seq<char>, label: Seq<char>, restore: Seq<((String, String), Label)>) -> Seq<char>
    decreases restore.len(),
{
    if restore.len() == 0 {
        label
    } else if restore[0].0.0@ == source && restore[0].0.1@ == label {
        restore[0].1.raw@
    } else {
        spec_myst_label(source, label, restore.drop_first())
    }
}

/// What the MyST writer emits for `label` as read in `source`.
pub fn resolve_myst_label(source: &str, label: &Label, restore: &RestoreMap) -> (r: Label)
    ensures
        r.raw@ == spec_myst_label(source@, label.raw@, restore@),
{
    let src = String::from_str(source);
    let mut k: usize = 0;
    assert(restore@.subrange(0, restore@.len() as int) =~= restore@);
    while k < restore.len()
        invariant
            k <= restore@.len(),
            src@ == source@,
            spec_myst_label(source@, label.raw@, restore@) == spec_myst_label(
                source@,
                label.raw@,
                restore@.subrange(k as int, restore@.len() as int),
            ),
        decreases restore.len() - k,
    {
        let ghost rest = restore@.subrange(k as int, restore@.len() as int);
        assert(rest[0] == restore@[k as int]);
        if restore[k].0.0 == src && restore[k].0.1 == label.raw {
            return Label { raw: restore[k].1.raw.clone() };
        }
        assert(rest.drop_first() =~= restore@.subrange(k + 1, restore@.len() as int));
        k = k + 1;
    }
    Label { raw: label.raw.clone() }
}

/// `(id, entry)` pairs of preserved constructs, one per id.
pub type PreservedEntries = Vec<(String, PreservedEntry)>;

/// Position of the first entry stored under `id`, or the length.
pub open spec fn entry_pos(es: Seq<(String, PreservedEntry)>, id: Seq<char>) -> int
    decreases es.len(),
{
    if es.len() == 0 {
        0
    } else if es[0].0@ == id {
        0
    } else {
        1 + entry_pos(es.drop_first(), id)
    }
}

/// `new` is `old` with `(id, e)` stored: in place of the first entry under
/// `id`, or appended when there is none.
pub open spec fn put_into(old: Seq<(String, PreservedEntry)>, new: Seq<(String, PreservedEntry)>, id: Seq<char>, e: PreservedEntry) -> bool {
    let p = entry_pos(old, id);
    &&& new.len() == if p < old.len() { old.len() } else { old.len() + 1 }
    &&& new[p].0@ == id
    &&& new[p].1 == e
    &&& forall|k: int| 0 <= k < old.len() && k != p ==> new[k] == old[k]
}

proof fn lemma_entry_pos(es: Seq<(String, PreservedEntry)>, id: Seq<char>)
    ensures
        0 <= entry_pos(es, id) <= es.len(),
        entry_pos(es, id) < es.len() ==> es[entry_pos(es, id)].0@ == id,
        forall|i: int| 0 <= i < entry_pos(es, id) ==> (#[trigger] es[i]).0@ != id,
    decreases es.len(),
{
    if es.len() > 0 && es[0].0@ != id {
        lemma_entry_pos(es.drop_first(), id);
        assert forall|i: int| 0 <= i < entry_pos(es, id) implies (#[trigger] es[i]).0@ != id by {
            if i > 0 {
                assert(es[i] == es.drop_first()[i - 1]);
            }
        }
    }
}

/// Stores `entry` under `id`, replacing an earlier entry with that id.
pub fn put_entry(entries: &mut PreservedEntries, id: String, entry: PreservedEntry)
    ensures
        put_into(old(entries)@, final(entries)@, id@, entry),
{
    proof { lemma_entry_pos(entries@, id@); }
    let ghost e0 = entries@;
    let mut k: usize = 0;
    while k < entries.len()
        invariant
            k <= entries@.len(),
            entries@ == e0,
            e0 == old(entries)@,
            forall|i: int| 0 <= i < k ==> (#[trigger] e0[i]).0@ != id@,
        decreases entries.len() - k,
    {
        if crate::text::str_eq(entries[k].0.as_str(), id.as_str()) {
            proof {
                lemma_entry_pos(e0, id@);
                if entry_pos(e0, id@) < k {
                    assert(e0[entry_pos(e0, id@)].0@ == id@);
                }
                if entry_pos(e0, id@) > k {
                    assert(e0[k as int].0@ != id@);
                }
            }
            entries.set(k, (id, entry));
            return;
        }
        k = k + 1;
    }
    proof {
        lemma_entry_pos(e0, id@);
        if entry_pos(e0, id@) < k {
            assert(e0[entry_pos(e0, id@)].0@ == id@);
        }
    }
    entries.push((id, entry));
}

/// How one preserved construct is recorded: its code, severity and dialect.
pub struct PreservedDisposition {
    pub code: &'static str,
    pub severity: Severity,
    pub dialect: Dialect,
}

/// The marker left for a construct whose original lines are unknown.
pub open spec fn missing_marker() -> Seq<char> {
    "<!-- mystquarto: preservation entry missing, original content unavailable -->"@
}

/// Replaces a construct by its one-line marker: records the original lines
/// under their content id and says what was preserved, or, with nothing to
/// preserve, warns that the entry is missing and leaves a marker saying so.
pub fn render_preserved(
    preserved: &mut PreservedEntries,
    diagnostics: &mut Vec<Diagnostic>,
    file: &str,
    span: Span,
    kind: &str,
    disposition: PreservedDisposition,
    original: Vec<String>,
) -> (r: String)
    ensures
        original@.len() == 0 ==> r@ == missing_marker() && final(preserved)@ == old(preserved)@,
        original@.len() > 0 ==> r@ == spec_marker(disposition.code@, kind@, spec_entry_id(strs(original@))),
        final(diagnostics)@.len() == old(diagnostics)@.len() + 1,
        final(diagnostics)@.drop_last() == old(diagnostics)@,
        original@.len() == 0 ==> final(diagnostics)@.last().severity == Severity::Warning
            && final(diagnostics)@.last().code == codes::block::PRESERVATION_ENTRY_MISSING,
        original@.len() > 0 ==> final(diagnostics)@.last().severity == disposition.severity
            && final(diagnostics)@.last().code == disposition.code,
        original@.len() > 0 ==> (final(diagnostics)@.last().preserved matches Some(p) && p@ == spec_entry_id(
            strs(original@),
        )),
        original@.len() > 0 ==> exists|e: PreservedEntry|
            {
                &&& put_into(old(preserved)@, final(preserved)@, spec_entry_id(strs(original@)), e)
                &&& e.file@ == file@
                &&& e.line == span.start_line
                &&& e.code@ == disposition.code@
                &&& e.kind@ == kind@
                &&& e.dialect == disposition.dialect
                &&& strs(e.original@) == strs(original@)
            },
{
    if original.len() == 0 {
        let d = Diagnostic::new(
            Severity::Warning,
            codes::block::PRESERVATION_ENTRY_MISSING,
            "a preservation marker's sidecar entry was not found (missing or stale .mystquarto/preserved.json); its original content could not be restored",
        ).with_file(file).with_span(span);
        diagnostics.push(d);
        assert(diagnostics@.drop_last() =~= old(diagnostics)@);
        return String::from_str("<!-- mystquarto: preservation entry missing, original content unavailable -->");
    }
    let id = entry_id(original.as_slice());
    let ghost orig = strs(original@);
    let m = marker(disposition.code, kind, id.as_str());
    let mut msg = chars_of(kind);
    push_all(&mut msg, &chars_of(" has no equivalent in the target dialect; preserved"));
    let d = Diagnostic::new(disposition.severity, disposition.code, string_of(&msg).as_str()).with_file(file).with_span(
        span,
    ).with_preserved(id.as_str());
    diagnostics.push(d);
    assert(diagnostics@.drop_last() =~= old(diagnostics)@);
    let entry = PreservedEntry {
        file: String::from_str(file),
        line: span.start_line,
        code: String::from_str(disposition.code),
        kind: String::from_str(kind),
        dialect: disposition.dialect,
        original,
    };
    let ghost ev = entry;
    put_entry(preserved, id, entry);
    assert(put_into(old(preserved)@, preserved@, spec_entry_id(orig), ev));
    m
}

/// Nested blocks' rendered lines laid out one after another, each after its
/// blank lines.
pub open spec fn body_text(rendered: Seq<(u8, Seq<Seq<char>>)>) -> Seq<char>
    decreases rendered.len(),
{
    if rendered.len() == 0 {
        Seq::empty()
    } else {
        spec_spacing(body_text(rendered.drop_last()), rendered.last().0, rendered.len() == 1)
            + crate::preserve::join_lines(rendered.last().1)
    }
}

pub open spec fn rendered_view(rendered: Seq<(u8, Vec<String>)>) -> Seq<(u8, Seq<Seq<char>>)> {
    rendered.map_values(|x: (u8, Vec<String>)| (x.0, strs(x.1@)))
}

/// Renders nested blocks one after another with their blank lines between
/// them, and splits the result back into lines.
pub fn render_body_lines(rendered: &Vec<(u8, Vec<String>)>) -> (r: Vec<String>)
    ensures
        strs(r@) == lines_of(body_text(rendered_view(rendered@))),
{
    let ghost rv = rendered_view(rendered@);
    let mut out: Vec<char> = Vec::new();
    let mut i: usize = 0;
    while i < rendered.len()
        invariant
            i <= rendered@.len(),
            rv == rendered_view(rendered@),
            out@ == body_text(rv.subrange(0, i as int)),
        decreases rendered.len() - i,
    {
        assert(rv.subrange(0, i + 1).drop_last() =~= rv.subrange(0, i as int));
        assert(rv.subrange(0, i + 1).last() == (rendered@[i as int].0, strs(rendered@[i as int].1@)));
        push_spacing(&mut out, rendered[i].0, i == 0);
        push_all(&mut out, &crate::preserve::join_chars(rendered[i].1.as_slice()));
        i = i + 1;
    }
    assert(rv.subrange(0, i as int) =~= rv);
    split_lines(string_of(&out).as_str())
}

/// Rewrites a line's inline syntax with `render`; a line too long to scan
/// (beyond what any allocation can hold) is left as it is.
pub fn rewrite_text<F: Fn(crate::reader::inline::InlineEvent) -> Option<String>>(
    line: &str,
    known_labels: &[String],
    render: F,
) -> (r: String)
    requires
        forall|e: crate::reader::inline::InlineEvent| call_requires(render, (e,)),
    ensures
        line@.len() >= i64::MAX ==> r@ == line@,
        line@.len() < i64::MAX ==> ({
            let segs = crate::reader::inline::segments_from(
                crate::reader::mask::mask_from(line@, 0, 0).0,
                0,
                strs(known_labels@),
            );
            let spans = crate::reader::mask::mask_from(line@, 0, 0).1;
            exists|outs: Seq<Seq<char>>|
                {
                    &&& outs.len() == segs.len()
                    &&& forall|k: int| 0 <= k < segs.len() ==> crate::reader::inline::piece_ok(render, segs[k], outs[k])
                    &&& r@ == crate::reader::mask::unmask_upto(spans, crate::reader::inline::concat_all(outs), spans.len() as int)
                }
        }),
{
    if char_len(line) as u64 >= 9223372036854775807u64 {
        return String::from_str(line);
    }
    crate::reader::inline::rewrite_line(line, known_labels, render)
}


/// An optional string's characters.
pub open spec fn opt_seq(o: Option<String>) -> Option<Seq<char>> {
    match o {
        Some(s) => Some(s@),
        None => None,
    }
}

/// What a piece of a line becomes when events render by `f`: plain text and
/// events `f` declines keep their text.
pub open spec fn piece_with(
    f: spec_fn(crate::reader::inline::EventView) -> Option<Seq<char>>,
    seg: (Seq<char>, Option<crate::reader::inline::EventView>),
) -> Seq<char> {
    match seg.1 {
        None => seg.0,
        Some(ev) => match f(ev) {
            Some(o) => o,
            None => seg.0,
        },
    }
}

/// A line with its inline events rendered by `f`, code spans untouched (a
/// line too long to scan is kept as it is).
pub open spec fn rewritten(
    line: Seq<char>,
    known: Seq<Seq<char>>,
    f: spec_fn(crate::reader::inline::EventView) -> Option<Seq<char>>,
) -> Seq<char> {
    if line.len() >= i64::MAX {
        line
    } else {
        let segs = crate::reader::inline::segments_from(crate::reader::mask::mask_from(line, 0, 0).0, 0, known);
        let spans = crate::reader::mask::mask_from(line, 0, 0).1;
        crate::reader::mask::unmask_upto(
            spans,
            crate::reader::inline::concat_all(
                segs.map_values(|seg: (Seq<char>, Option<crate::reader::inline::EventView>)| piece_with(f, seg)),
            ),
            spans.len() as int,
        )
    }
}

/// Rewrites a line with a `render` that answers each event as `f` says.
pub(crate) fn rewrite_with<F: Fn(crate::reader::inline::InlineEvent) -> Option<String>>(
    line: &str,
    known_labels: &[String],
    render: F,
    Ghost(f): Ghost<spec_fn(crate::reader::inline::EventView) -> Option<Seq<char>>>,
) -> (r: String)
    requires
        forall|e: crate::reader::inline::InlineEvent| call_requires(render, (e,)),
        forall|e: crate::reader::inline::InlineEvent, ret: Option<String>|
            call_ensures(render, (e,), ret) ==> opt_seq(ret) == f(e@),
    ensures
        r@ == rewritten(line@, strs(known_labels@), f),
{
    let r = rewrite_text(line, known_labels, render);
    proof {
        if line@.len() < i64::MAX {
            let segs = crate::reader::inline::segments_from(
                crate::reader::mask::mask_from(line@, 0, 0).0,
                0,
                strs(known_labels@),
            );
            let spans = crate::reader::mask::mask_from(line@, 0, 0).1;
            let outs = choose|outs: Seq<Seq<char>>|
                {
                    &&& outs.len() == segs.len()
                    &&& forall|k: int| 0 <= k < segs.len() ==> crate::reader::inline::piece_ok(render, segs[k], outs[k])
                    &&& r@ == crate::reader::mask::unmask_upto(spans, crate::reader::inline::concat_all(outs), spans.len() as int)
                };
            let want = segs.map_values(|seg: (Seq<char>, Option<crate::reader::inline::EventView>)| piece_with(f, seg));
            assert forall|k: int| 0 <= k < segs.len() implies outs[k] == want[k] by {
                assert(crate::reader::inline::piece_ok(render, segs[k], outs[k]));
                match segs[k].1 {
                    None => {},
                    Some(ev) => {
                        let (e, ret) = choose|e: crate::reader::inline::InlineEvent, ret: Option<String>|
                            {
                                &&& e@ == ev
                                &&& call_ensures(render, (e,), ret)
                                &&& outs[k] == match ret {
                                    Some(o) => o@,
                                    None => segs[k].0,
                                }
                            };
                        assert(opt_seq(ret) == f(e@));
                    },
                }
            }
            assert(outs =~= want);
        }
    }
    r
}

} // verus!
