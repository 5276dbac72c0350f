//! MyST and Quarto source readers: block scanners that recognize dialect
//! constructs into typed blocks and keep unrecognized source as
//! `Unmappable` instead of discarding it.
pub mod fence;
pub mod mask;
pub mod inline;
pub mod lines;
pub mod parts;
pub mod myst;
pub mod quarto;

use vstd::prelude::*;
use crate::ir::{Block, BlockKind, CellOptions};
use crate::label::Label;
use crate::span::Span;
use crate::strmap::{map_get, map_insert, EntriesView, StrMap};
use crate::text::{
    chars_of, has_at, has_at_exec, lemma_skip_ws_bounds, lemma_trail_ws_bounds, push_all, skip_ws,
    skip_ws_exec, slice_chars, string_of, trail_ws, trail_ws_exec, trim, trim_chars, trim_start, is_ws,
    first_of, find_char,
};
use crate::reader::fence::strs;
use crate::reader::lines::{lines_of, split_lines};
use crate::fs::path_guard::{is_descendant, path_absolute, path_has_prefix, IncludeChain, PathGuardError};
use crate::preserve::Dialect;

verus! {

/// A block spanning `start..=max(start, end)`.
pub fn block(kind: BlockKind, start: u32, end: u32, blank: u8) -> (b: Block)
    requires
        start >= 1,
    ensures
        b.kind == kind,
        b.span.start_line == start,
        b.span.end_line == if end >= start { end } else { start },
        b.blank_lines_before == blank,
{
    let e = if end >= start { end } else { start };
    Block { kind, span: Span::new(start, e), blank_lines_before: blank }
}

/// The label of a directive: its `label` option, else its `name` option,
/// when non-empty.
pub open spec fn spec_label_option(options: EntriesView) -> Option<Seq<char>> {
    let v = match map_get(options, "label"@) {
        Some(l) => Some(l),
        None => map_get(options, "name"@),
    };
    match v {
        Some(l) => if l.len() > 0 { Some(l) } else { None },
        None => None,
    }
}

/// The label named by a directive's options.
pub fn label_option(options: &StrMap) -> (r: Option<Label>)
    ensures
        match r {
            Some(l) => spec_label_option(options@) == Some(l.raw@),
            None => spec_label_option(options@) is None,
        },
{
    let v = match options.get("label") {
        Some(l) => Some(l),
        None => options.get("name"),
    };
    match v {
        Some(l) => if crate::text::char_len(l.as_str()) > 0 {
            Some(Label { raw: l.clone() })
        } else {
            None
        },
        None => None,
    }
}

/// Strips every leading and trailing `c`.
pub open spec fn trim_matches(s: Seq<char>, c: char) -> Seq<char>
    decreases s.len(),
{
    if s.len() > 0 && s[0] == c {
        trim_matches(s.drop_first(), c)
    } else if s.len() > 0 && s.last() == c {
        trim_matches(s.drop_last(), c)
    } else {
        s
    }
}

fn trim_matches_exec(v: &Vec<char>, c: char) -> (r: Vec<char>)
    ensures
        r@ == trim_matches(v@, c),
{
    let mut lo: usize = 0;
    let mut hi: usize = v.len();
    assert(v@.subrange(0, hi as int) =~= v@);
    while lo < hi && v[lo] == c
        invariant
            lo <= hi <= v@.len(),
            hi == v@.len(),
            trim_matches(v@.subrange(lo as int, hi as int), c) == trim_matches(v@, c),
        decreases hi - lo,
    {
        assert(v@.subrange(lo as int, hi as int)[0] == v@[lo as int]);
        assert(v@.subrange(lo as int, hi as int).drop_first() =~= v@.subrange(lo + 1, hi as int));
        lo = lo + 1;
    }
    while lo < hi && v[hi - 1] == c
        invariant
            lo <= hi <= v@.len(),
            lo < hi ==> v@[lo as int] != c,
            trim_matches(v@.subrange(lo as int, hi as int), c) == trim_matches(v@, c),
        decreases hi - lo,
    {
        assert(v@.subrange(lo as int, hi as int)[0] == v@[lo as int]);
        assert(v@.subrange(lo as int, hi as int).last() == v@[hi - 1]);
        assert(v@.subrange(lo as int, hi as int).drop_last() =~= v@.subrange(lo as int, hi - 1));
        hi = hi - 1;
    }
    proof {
        if lo < hi {
            assert(v@.subrange(lo as int, hi as int)[0] == v@[lo as int]);
            assert(v@.subrange(lo as int, hi as int).last() == v@[hi - 1]);
        }
    }
    slice_chars(v, lo, hi)
}

/// `value` trimmed, then stripped of surrounding `"` and then `'`.
pub open spec fn spec_unquote(value: Seq<char>) -> Seq<char> {
    trim_matches(trim_matches(trim(value), '"'), '\'')
}

/// Strips whitespace and surrounding quotes from an option value.
pub fn unquote(value: &str) -> (r: String)
    ensures
        r@ == spec_unquote(value@),
{
    let t = trim_chars(&chars_of(value));
    let a = trim_matches_exec(&t, '"');
    let b = trim_matches_exec(&a, '\'');
    string_of(&b)
}

/// `#| key: value` → `(key, value)`, both trimmed.
pub open spec fn spec_option_pair(line: Seq<char>) -> Option<(Seq<char>, Seq<char>)> {
    let t = trim_start(line);
    if has_at(t, 0, "#|"@) {
        let rest = trim_start(t.subrange(2, t.len() as int));
        let p = first_of(rest, 0, ':');
        if p < rest.len() {
            Some((trim(rest.subrange(0, p)), trim(rest.subrange(p + 1, rest.len() as int))))
        } else {
            None
        }
    } else {
        None
    }
}

/// A `#| key: value` line written with one space after `#|` and after the
/// colon, from a key and a value without whitespace (and a key without a
/// colon), reads back as that key and value.
pub proof fn lemma_option_line_reads_back(k: Seq<char>, v: Seq<char>)
    requires
        k.len() > 0,
        v.len() > 0,
        forall|i: int| 0 <= i < k.len() ==> !crate::text::is_ws(#[trigger] k[i]) && k[i] != ':',
        forall|i: int| 0 <= i < v.len() ==> !crate::text::is_ws(#[trigger] v[i]),
    ensures
        spec_option_pair(seq!['#', '|', ' '] + k + seq![':', ' '] + v) == Some((k, v)),
{
    reveal_strlit("#|");
    let line = seq!['#', '|', ' '] + k + seq![':', ' '] + v;
    assert(line[0] == '#');
    assert(!crate::text::is_ws('#'));
    assert(crate::text::skip_ws(line, 0) == 0);
    assert(trim_start(line) =~= line);
    assert(line.subrange(0, 2) =~= "#|"@);
    assert(has_at(line, 0, "#|"@));
    let r0 = line.subrange(2, line.len() as int);
    assert(r0 =~= seq![' '] + k + seq![':', ' '] + v);
    assert(r0[1] == k[0]);
    assert(crate::text::skip_ws(r0, 1) == 1);
    assert(crate::text::is_ws(' '));
    assert(crate::text::skip_ws(r0, 0) == 1);
    let rest = trim_start(r0);
    assert(rest =~= k + seq![':', ' '] + v);
    crate::text::lemma_first_of(rest, 0, ':');
    let p = first_of(rest, 0, ':');
    assert(rest[k.len() as int] == ':');
    if p < k.len() {
        assert(rest[p] == k[p]);
    }
    assert(p == k.len());
    let key = rest.subrange(0, p);
    assert(key =~= k);
    assert(crate::text::skip_ws(k, 0) == 0);
    assert(trim_start(k) =~= k);
    assert(crate::text::trail_ws(k, k.len() as int) == k.len());
    assert(trim(k) =~= k);
    let val = rest.subrange(p + 1, rest.len() as int);
    assert(val =~= seq![' '] + v);
    assert(val[1] == v[0]);
    assert(crate::text::skip_ws(val, 1) == 1);
    assert(crate::text::skip_ws(val, 0) == 1);
    assert(trim_start(val) =~= v);
    assert(crate::text::skip_ws(v, 0) == 0);
    assert(crate::text::trail_ws(v, v.len() as int) == v.len());
    assert(trim(val) =~= v);
}

fn trim_start_chars(v: &Vec<char>) -> (r: Vec<char>)
    ensures
        r@ == trim_start(v@),
{
    let a = skip_ws_exec(v, 0);
    slice_chars(v, a, v.len())
}

/// Splits a Quarto cell-option comment into its key and value.
pub fn parse_quarto_option_pair(line: &str) -> (r: Option<(String, String)>)
    ensures
        match r {
            Some((k, v)) => spec_option_pair(line@) == Some((k@, v@)),
            None => spec_option_pair(line@) is None,
        },
{
    proof {
        reveal_strlit("#|");
    }
    let t = trim_start_chars(&chars_of(line));
    let pfx = chars_of("#|");
    if !has_at_exec(&t, 0, &pfx) {
        return None;
    }
    let rest = trim_start_chars(&slice_chars(&t, 2, t.len()));
    let p = find_char(&rest, 0, ':');
    if p >= rest.len() {
        return None;
    }
    let k = trim_chars(&slice_chars(&rest, 0, p));
    let v = trim_chars(&slice_chars(&rest, p + 1, rest.len()));
    Some((string_of(&k), string_of(&v)))
}

/// The unquoted value of cell option `wanted` on this line, if it is one.
pub fn parse_cell_option(line: &str, wanted: &str) -> (r: Option<String>)
    ensures
        match spec_option_pair(line@) {
            Some((k, v)) => if k == wanted@ {
                r matches Some(s) && s@ == spec_unquote(v)
            } else {
                r is None
            },
            None => r is None,
        },
{
    match parse_quarto_option_pair(line) {
        Some((k, v)) => {
            if crate::text::str_eq(k.as_str(), wanted) {
                Some(unquote(v.as_str()))
            } else {
                None
            }
        },
        None => None,
    }
}

/// The cell options after one more `#| key: value` line.
pub open spec fn cell_option_step(
    o: (Seq<Seq<char>>, Option<Seq<char>>, EntriesView),
    k: Seq<char>,
    v: Seq<char>,
) -> (Seq<Seq<char>>, Option<Seq<char>>, EntriesView) {
    let (tags, caption, extra) = o;
    if k == "fig-cap"@ {
        (tags, Some(spec_unquote(v)), extra)
    } else if k == "echo"@ && v == "false"@ {
        (tags.push("remove-input"@), caption, extra)
    } else if k == "output"@ && v == "false"@ {
        (tags.push("remove-output"@), caption, extra)
    } else if k == "include"@ && v == "false"@ {
        (tags.push("remove-cell"@), caption, extra)
    } else if k == "code-fold"@ && v == "true"@ {
        (tags.push("hide-input"@), caption, extra)
    } else {
        (tags, caption, map_insert(extra, k, v))
    }
}

/// How many leading lines are `#|` option lines.
pub open spec fn option_run(lines: Seq<Seq<char>>) -> int
    decreases lines.len(),
{
    if lines.len() > 0 && spec_option_pair(lines[0]) is Some {
        1 + option_run(lines.drop_first())
    } else {
        0
    }
}

/// The cell options read from the leading option lines of `lines[..n]`.
pub open spec fn cell_options_of(lines: Seq<Seq<char>>, n: int) -> (Seq<Seq<char>>, Option<Seq<char>>, EntriesView)
    decreases n,
{
    if n <= 0 || n > lines.len() {
        (Seq::empty(), None, Seq::empty())
    } else {
        let (k, v) = spec_option_pair(lines[n - 1]).unwrap();
        cell_option_step(cell_options_of(lines, n - 1), k, v)
    }
}

/// The view of cell options: tags, caption, other options.
pub open spec fn cell_options_view(o: CellOptions) -> (Seq<Seq<char>>, Option<Seq<char>>, EntriesView) {
    (strs(o.tags@), match o.caption {
        Some(c) => Some(c@),
        None => None,
    }, o.extra@)
}

proof fn lemma_option_run(lines: Seq<Seq<char>>, i: int)
    requires
        0 <= i <= lines.len(),
        forall|m: int| 0 <= m < i ==> spec_option_pair(#[trigger] lines[m]) is Some,
        i == lines.len() || spec_option_pair(lines[i]) is None,
    ensures
        option_run(lines) == i,
    decreases i,
{
    if i > 0 {
        assert forall|m: int| 0 <= m < i - 1 implies spec_option_pair(#[trigger] lines.drop_first()[m]) is Some by {
            assert(lines.drop_first()[m] == lines[m + 1]);
        }
        if i < lines.len() {
            assert(lines.drop_first()[i - 1] == lines[i]);
        }
        lemma_option_run(lines.drop_first(), i - 1);
    }
}

/// Reads the leading `#| key: value` lines of a code cell into cell options,
/// returning them and how many lines they took.
pub fn parse_cell_options(lines: &[String]) -> (r: (CellOptions, usize))
    ensures
        r.1 == option_run(strs(lines@)),
        r.1 <= lines@.len(),
        cell_options_view(r.0) == cell_options_of(strs(lines@), r.1 as int),
{
    proof {
        reveal_strlit("fig-cap");
        reveal_strlit("echo");
        reveal_strlit("false");
        reveal_strlit("output");
        reveal_strlit("include");
        reveal_strlit("code-fold");
        reveal_strlit("true");
    }
    let ghost ls = strs(lines@);
    let mut opts = CellOptions::empty();
    let mut consumed: usize = 0;
    assert(strs(opts.tags@) =~= Seq::<Seq<char>>::empty());
    while consumed < lines.len()
        invariant
            consumed <= lines@.len(),
            ls == strs(lines@),
            forall|m: int| 0 <= m < consumed ==> spec_option_pair(#[trigger] ls[m]) is Some,
            cell_options_view(opts) == cell_options_of(ls, consumed as int),
        ensures
            consumed <= lines@.len(),
            forall|m: int| 0 <= m < consumed ==> spec_option_pair(#[trigger] ls[m]) is Some,
            cell_options_view(opts) == cell_options_of(ls, consumed as int),
            consumed == lines@.len() || spec_option_pair(ls[consumed as int]) is None,
        decreases lines.len() - consumed,
    {
        assert(ls[consumed as int] == lines@[consumed as int]@);
        let (key, value) = match parse_quarto_option_pair(lines[consumed].as_str()) {
            Some(p) => p,
            None => break,
        };
        let ghost before = cell_options_view(opts);
        if crate::text::str_eq(key.as_str(), "fig-cap") {
            opts.caption = Some(unquote(value.as_str()));
        } else if crate::text::str_eq(key.as_str(), "echo") && crate::text::str_eq(value.as_str(), "false") {
            opts.tags.push(String::from_str("remove-input"));
        } else if crate::text::str_eq(key.as_str(), "output") && crate::text::str_eq(value.as_str(), "false") {
            opts.tags.push(String::from_str("remove-output"));
        } else if crate::text::str_eq(key.as_str(), "include") && crate::text::str_eq(value.as_str(), "false") {
            opts.tags.push(String::from_str("remove-cell"));
        } else if crate::text::str_eq(key.as_str(), "code-fold") && crate::text::str_eq(value.as_str(), "true") {
            opts.tags.push(String::from_str("hide-input"));
        } else {
            opts.extra.insert(key, value);
        }
        assert(cell_options_view(opts) =~= cell_option_step(before, key@, value@));
        consumed = consumed + 1;
    }
    proof {
        lemma_option_run(ls, consumed as int);
    }
    (opts, consumed)
}


/// The last index `i <= k` at which `pat` occurs in `s`, or `-1`.
pub open spec fn last_at(s: Seq<char>, pat: Seq<char>, k: int) -> int
    decreases k + 1,
{
    if k < 0 {
        -1
    } else if has_at(s, k, pat) {
        k
    } else {
        last_at(s, pat, k - 1)
    }
}

pub proof fn lemma_last_at_pub(s: Seq<char>, pat: Seq<char>, k: int)
    requires
        k >= -1,
    ensures
        -1 <= last_at(s, pat, k) <= k,
        last_at(s, pat, k) >= 0 ==> has_at(s, last_at(s, pat, k), pat),
{
    lemma_last_at(s, pat, k);
}

proof fn lemma_last_at(s: Seq<char>, pat: Seq<char>, k: int)
    requires
        k >= -1,
    ensures
        -1 <= last_at(s, pat, k) <= k,
        last_at(s, pat, k) >= 0 ==> has_at(s, last_at(s, pat, k), pat),
        forall|i: int| last_at(s, pat, k) < i <= k ==> !has_at(s, i, pat),
    decreases k + 1,
{
    if k >= 0 && !has_at(s, k, pat) {
        lemma_last_at(s, pat, k - 1);
    }
}

/// The first whitespace index at or after `i`, or the length.
pub open spec fn ws_from(s: Seq<char>, i: int) -> int
    decreases s.len() - i,
{
    if i < 0 || i >= s.len() {
        s.len() as int
    } else if is_ws(s[i]) {
        i
    } else {
        ws_from(s, i + 1)
    }
}

proof fn lemma_ws_from(s: Seq<char>, i: int)
    requires
        0 <= i <= s.len(),
    ensures
        i <= ws_from(s, i) <= s.len(),
    decreases s.len() - i,
{
    if i < s.len() && !is_ws(s[i]) {
        lemma_ws_from(s, i + 1);
    }
}

pub proof fn lemma_ws_from_pub(s: Seq<char>, i: int)
    requires
        0 <= i <= s.len(),
    ensures
        i <= ws_from(s, i) <= s.len(),
        i < s.len() && !is_ws(s[i]) ==> ws_from(s, i) > i,
{
    lemma_ws_from(s, i);
    if i < s.len() && !is_ws(s[i]) {
        lemma_ws_from(s, i + 1);
    }
}

/// Every trailing `-->` removed.
pub open spec fn strip_arrows(s: Seq<char>) -> Seq<char>
    decreases s.len(),
{
    if s.len() >= 3 && has_at(s, s.len() - 3, "-->"@) {
        strip_arrows(s.subrange(0, s.len() - 3))
    } else {
        s
    }
}

/// The sidecar anchor in a preservation marker.
pub open spec fn marker_needle() -> Seq<char> {
    ".mystquarto/preserved.json#"@
}

/// The id a preservation marker line points at: the line, trimmed, must
/// start with `<!-- mystquarto ` and end with `-->`; the id is the first
/// whitespace-separated word after the *last* sidecar anchor, with trailing
/// `-->` and whitespace removed, when that leaves something.
pub open spec fn spec_marker_id(line: Seq<char>) -> Option<Seq<char>> {
    let t = trim(line);
    let needle = marker_needle();
    if !has_at(t, 0, "<!-- mystquarto "@) || !(t.len() >= 3 && has_at(t, t.len() - 3, "-->"@)) {
        None
    } else {
        let p = last_at(t, needle, t.len() - needle.len());
        if p < 0 {
            None
        } else {
            let after = t.subrange(p + needle.len(), t.len() as int);
            let a = skip_ws(after, 0);
            if a >= after.len() {
                None
            } else {
                let word = after.subrange(a, ws_from(after, a));
                let id = trim(strip_arrows(word));
                if id.len() > 0 {
                    Some(id)
                } else {
                    None
                }
            }
        }
    }
}

fn strip_arrows_exec(v: &Vec<char>) -> (r: Vec<char>)
    ensures
        r@ == strip_arrows(v@),
{
    proof {
        reveal_strlit("-->");
    }
    let arrow = chars_of("-->");
    let mut hi: usize = v.len();
    assert(v@.subrange(0, hi as int) =~= v@);
    while hi >= 3 && has_at_exec(v, hi - 3, &arrow)
        invariant
            hi <= v@.len(),
            arrow@ == "-->"@,
            strip_arrows(v@.subrange(0, hi as int)) == strip_arrows(v@),
        decreases hi,
    {
        proof {
            reveal_strlit("-->");
        }
        assert(has_at(v@.subrange(0, hi as int), hi - 3, "-->"@)) by {
            assert(v@.subrange(0, hi as int).subrange(hi - 3, hi as int) =~= v@.subrange(hi - 3, hi as int));
        }
        assert(v@.subrange(0, hi as int).subrange(0, hi - 3) =~= v@.subrange(0, hi - 3));
        hi = hi - 3;
    }
    proof {
        if hi >= 3 {
            reveal_strlit("-->");
            assert(v@.subrange(0, hi as int).subrange(hi - 3, hi as int) =~= v@.subrange(hi - 3, hi as int));
        }
    }
    slice_chars(v, 0, hi)
}

/// The last position of `needle` in `t`.
fn last_index_of(t: &Vec<char>, needle: &Vec<char>) -> (r: Option<usize>)
    ensures
        match r {
            Some(k) => last_at(t@, needle@, t@.len() - needle@.len()) == k && k + needle@.len() <= t@.len(),
            None => last_at(t@, needle@, t@.len() - needle@.len()) < 0,
        },
{
    if t.len() < needle.len() {
        return None;
    }
    let mut k: usize = t.len() - needle.len();
    proof {
        lemma_last_at(t@, needle@, k as int);
    }
    loop
        invariant
            k + needle@.len() <= t@.len(),
            last_at(t@, needle@, t@.len() - needle@.len()) == last_at(t@, needle@, k as int),
        decreases k,
    {
        if has_at_exec(t, k, needle) {
            return Some(k);
        }
        if k == 0 {
            assert(last_at(t@, needle@, -1) == -1);
            return None;
        }
        k = k - 1;
    }
}

/// The id a preservation marker comment points at, if `line` is one.
pub fn preservation_marker_id(line: &str) -> (r: Option<String>)
    ensures
        match r {
            Some(id) => spec_marker_id(line@) == Some(id@),
            None => spec_marker_id(line@) is None,
        },
{
    proof {
        reveal_strlit("<!-- mystquarto ");
        reveal_strlit("-->");
        reveal_strlit(".mystquarto/preserved.json#");
    }
    let t = trim_chars(&chars_of(line));
    let open = chars_of("<!-- mystquarto ");
    let arrow = chars_of("-->");
    if !has_at_exec(&t, 0, &open) || !(t.len() >= 3 && has_at_exec(&t, t.len() - 3, &arrow)) {
        return None;
    }
    let needle = chars_of(".mystquarto/preserved.json#");
    let k = match last_index_of(&t, &needle) {
        Some(k) => k,
        None => return None,
    };
    let after = slice_chars(&t, k + needle.len(), t.len());
    let a = skip_ws_exec(&after, 0);
    if a >= after.len() {
        return None;
    }
    let mut b = a;
    while b < after.len() && !crate::text::is_whitespace(after[b])
        invariant
            a <= b <= after@.len(),
            ws_from(after@, a as int) == ws_from(after@, b as int),
        decreases after.len() - b,
    {
        b = b + 1;
    }
    let word = slice_chars(&after, a, b);
    let id = trim_chars(&strip_arrows_exec(&word));
    if id.len() > 0 {
        Some(string_of(&id))
    } else {
        None
    }
}

/// Where a labeled notebook cell lives: its notebook and its index there.
#[derive(Debug, Clone, PartialEq, Eq)]
pub struct NotebookCellRef {
    pub notebook: String,
    pub cell_index: usize,
}

/// `(label, (notebook, cell index))` entries.
pub type CellIndexView = Seq<(Seq<char>, (Seq<char>, usize))>;

/// Position of the entry for `label`, or the length.
pub open spec fn cell_pos(s: CellIndexView, label: Seq<char>) -> int
    decreases s.len(),
{
    if s.len() == 0 {
        0
    } else if s[0].0 == label {
        0
    } else {
        1 + cell_pos(s.drop_first(), label)
    }
}

proof fn lemma_cell_pos(s: CellIndexView, label: Seq<char>)
    ensures
        0 <= cell_pos(s, label) <= s.len(),
        cell_pos(s, label) < s.len() ==> s[cell_pos(s, label)].0 == label,
        forall|i: int| 0 <= i < cell_pos(s, label) ==> #[trigger] s[i].0 != label,
    decreases s.len(),
{
    if s.len() > 0 && s[0].0 != label {
        lemma_cell_pos(s.drop_first(), label);
        assert forall|i: int| 0 <= i < cell_pos(s, label) implies #[trigger] s[i].0 != label by {
            if i > 0 {
                assert(s[i] == s.drop_first()[i - 1]);
            }
        }
    }
}

/// The cell recorded for `label`.
pub open spec fn cell_get(s: CellIndexView, label: Seq<char>) -> Option<(Seq<char>, usize)> {
    let i = cell_pos(s, label);
    if i < s.len() {
        Some(s[i].1)
    } else {
        None
    }
}

/// Recording `label`: replaces an earlier entry for it, else appends.
pub open spec fn cell_put(s: CellIndexView, label: Seq<char>, at: (Seq<char>, usize)) -> CellIndexView {
    let i = cell_pos(s, label);
    if i < s.len() {
        s.update(i, (label, at))
    } else {
        s.push((label, at))
    }
}

/// `#| label:` cells found in notebooks or executable Quarto documents.
#[derive(Debug, Clone, PartialEq, Eq)]
pub struct NotebookCellIndex {
    cells: Vec<(String, NotebookCellRef)>,
}

impl View for NotebookCellIndex {
    type V = CellIndexView;

    closed spec fn view(&self) -> CellIndexView {
        self.cells@.map_values(|e: (String, NotebookCellRef)| (e.0@, (e.1.notebook@, e.1.cell_index)))
    }
}

/// The labeled cells of a `.qmd` text after its first `n` lines: each
/// executable code fence starts a new cell, and a `#| label:` line names the
/// current one (the first, before any fence).
pub open spec fn qmd_scan(path: Seq<char>, lines: Seq<Seq<char>>, n: int, start: CellIndexView) -> (CellIndexView, nat)
    decreases n,
{
    if n <= 0 || n > lines.len() {
        (start, 0)
    } else {
        let (cells, count) = qmd_scan(path, lines, n - 1, start);
        let line = lines[n - 1];
        let count2: nat = if crate::reader::fence::spec_quarto_code_open(line) is Some { count + 1 } else { count };
        let cells2 = match spec_option_pair(line) {
            Some((k, v)) => if k == "label"@ {
                cell_put(cells, spec_unquote(v), (path, if count2 > 0 { (count2 - 1) as usize } else { 0usize }))
            } else {
                cells
            },
            None => cells,
        };
        (cells2, count2)
    }
}

impl NotebookCellIndex {
    /// An empty index.
    pub fn new() -> (r: NotebookCellIndex)
        ensures
            r@ == Seq::<(Seq<char>, (Seq<char>, usize))>::empty(),
    {
        let r = NotebookCellIndex { cells: Vec::new() };
        assert(r@ =~= Seq::<(Seq<char>, (Seq<char>, usize))>::empty());
        r
    }

    /// Records that cell `cell_index` of `notebook` carries `label`.
    pub fn insert(&mut self, label: &str, notebook: &str, cell_index: usize)
        ensures
            final(self)@ == cell_put(old(self)@, label@, (notebook@, cell_index)),
    {
        proof {
            lemma_cell_pos(self@, label@);
        }
        let key = String::from_str(label);
        let mut i: usize = 0;
        while i < self.cells.len()
            invariant
                i <= self.cells@.len(),
                self@ == old(self)@,
                self@.len() == self.cells@.len(),
                key@ == label@,
                forall|m: int| 0 <= m < i ==> #[trigger] self@[m].0 != label@,
            decreases self.cells.len() - i,
        {
            assert(self@[i as int].0 == self.cells@[i as int].0@);
            if self.cells[i].0 == key {
                proof {
                    lemma_cell_pos(self@, label@);
                    if cell_pos(self@, label@) > i {
                        assert(self@[i as int].0 != label@);
                    }
                }
                let entry = (key, NotebookCellRef { notebook: String::from_str(notebook), cell_index });
                self.cells.set(i, entry);
                assert(self@ =~= cell_put(old(self)@, label@, (notebook@, cell_index)));
                return;
            }
            i = i + 1;
        }
        proof {
            lemma_cell_pos(self@, label@);
            if cell_pos(self@, label@) < i {
                assert(self@[cell_pos(self@, label@)].0 == label@);
            }
        }
        self.cells.push((key, NotebookCellRef { notebook: String::from_str(notebook), cell_index }));
        assert(self@ =~= cell_put(old(self)@, label@, (notebook@, cell_index)));
    }

    /// The cell recorded for `label`.
    pub fn resolve(&self, label: &str) -> (r: Option<&NotebookCellRef>)
        ensures
            match r {
                Some(c) => cell_get(self@, label@) == Some((c.notebook@, c.cell_index)),
                None => cell_get(self@, label@) is None,
            },
    {
        proof {
            lemma_cell_pos(self@, label@);
        }
        let key = String::from_str(label);
        let mut i: usize = 0;
        while i < self.cells.len()
            invariant
                i <= self.cells@.len(),
                self@.len() == self.cells@.len(),
                key@ == label@,
                forall|m: int| 0 <= m < i ==> #[trigger] self@[m].0 != label@,
            decreases self.cells.len() - i,
        {
            assert(self@[i as int] == (self.cells@[i as int].0@, (self.cells@[i as int].1.notebook@, self.cells@[i as int].1.cell_index)));
            if self.cells[i].0 == key {
                proof {
                    lemma_cell_pos(self@, label@);
                    if cell_pos(self@, label@) > i {
                        assert(self@[i as int].0 != label@);
                    }
                }
                return Some(&self.cells[i].1);
            }
            i = i + 1;
        }
        proof {
            lemma_cell_pos(self@, label@);
            if cell_pos(self@, label@) < i {
                assert(self@[cell_pos(self@, label@)].0 == label@);
            }
        }
        None
    }

    /// Indexes the `#| label:` cells of a `.qmd` text.
    pub fn add_qmd_cells(&mut self, path: &str, text: &str)
        ensures
            final(self)@ == qmd_scan(path@, lines_of(text@), lines_of(text@).len() as int, old(self)@).0,
    {
        proof {
            reveal_strlit("label");
        }
        let lines = split_lines(text);
        let ghost ls = strs(lines@);
        let mut cell_index: usize = 0;
        let mut i: usize = 0;
        while i < lines.len()
            invariant
                i <= lines@.len(),
                ls == strs(lines@),
                ls == lines_of(text@),
                cell_index <= i,
                (self@, cell_index as nat) == qmd_scan(path@, ls, i as int, old(self)@),
            decreases lines.len() - i,
        {
            let line = lines[i].as_str();
            assert(ls[i as int] == line@);
            if crate::reader::fence::parse_quarto_code_open(line).is_some() {
                cell_index = cell_index + 1;
            }
            if let Some(label) = parse_cell_option(line, "label") {
                let at = if cell_index > 0 { cell_index - 1 } else { 0 };
                self.insert(label.as_str(), path, at);
            }
            i = i + 1;
        }
    }

    /// Indexes the `#| label:` lines of a notebook's cells from its JSON
    /// text: each cell (of any type) by its position, its labels read from
    /// its source lines. A notebook without a `cells` array adds nothing;
    /// text that is not JSON is an error and adds nothing.
    pub fn add_notebook_json(&mut self, path: &str, text: &str) -> (r: Result<(), crate::notebook::NotebookParseError>)
        ensures
            match crate::notebook::notebook_cells(text@) {
                None => r is Err && final(self)@ == old(self)@,
                Some(None) => r is Ok && final(self)@ == old(self)@,
                Some(Some(cells)) => r is Ok && final(self)@ == notebook_scan_all(
                    path@,
                    cells.map_values(|c: crate::notebook::CellView| crate::notebook::source_lines(c.1)),
                    old(self)@,
                ),
            },
    {
        let cells = match crate::notebook::read_cells(text) {
            Err(e) => return Err(e),
            Ok(None) => return Ok(()),
            Ok(Some(cells)) => cells,
        };
        let ghost cv = crate::notebook::cells_view(cells@);
        let mut lines: Vec<Vec<String>> = Vec::new();
        let mut i: usize = 0;
        while i < cells.len()
            invariant
                i <= cells@.len(),
                cv == crate::notebook::cells_view(cells@),
                lines@.map_values(|c: Vec<String>| strs(c@)) == cv.subrange(0, i as int).map_values(
                    |c: crate::notebook::CellView| crate::notebook::source_lines(c.1),
                ),
            decreases cells.len() - i,
        {
            let ghost before = lines@.map_values(|c: Vec<String>| strs(c@));
            let l = crate::notebook::cell_source_lines(&cells[i]);
            assert(cv[i as int] == crate::notebook::cell_view(cells@[i as int]));
            lines.push(l);
            assert(lines@.map_values(|c: Vec<String>| strs(c@)) =~= before.push(crate::notebook::source_lines(cv[i as int].1)));
            assert(lines@.map_values(|c: Vec<String>| strs(c@)) =~= cv.subrange(0, i + 1).map_values(
                |c: crate::notebook::CellView| crate::notebook::source_lines(c.1),
            ));
            i = i + 1;
        }
        assert(cv.subrange(0, i as int) =~= cv);
        self.add_notebook_cells(path, &lines);
        Ok(())
    }

    /// Indexes the `#| label:` lines of notebook cells, given each cell's
    /// source lines in order.
    pub fn add_notebook_cells(&mut self, path: &str, cells: &Vec<Vec<String>>)
        ensures
            final(self)@ == notebook_scan_all(path@, cells@.map_values(|c: Vec<String>| strs(c@)), old(self)@),
    {
        proof {
            reveal_strlit("label");
        }
        let ghost cs = cells@.map_values(|c: Vec<String>| strs(c@));
        let mut n: usize = 0;
        while n < cells.len()
            invariant
                n <= cells@.len(),
                cs == cells@.map_values(|c: Vec<String>| strs(c@)),
                self@ == notebook_scan_all(path@, cs.subrange(0, n as int), old(self)@),
            decreases cells.len() - n,
        {
            let cell = &cells[n];
            let ghost before = self@;
            let mut m: usize = 0;
            while m < cell.len()
                invariant
                    m <= cell@.len(),
                    cs == cells@.map_values(|c: Vec<String>| strs(c@)),
                    n < cells@.len(),
                    *cell == cells@[n as int],
                    self@ == cell_scan(path@, strs(cell@), n, m as int, before),
                decreases cell.len() - m,
            {
                if let Some(label) = parse_cell_option(cell[m].as_str(), "label") {
                    self.insert(label.as_str(), path, n);
                }
                assert(strs(cell@)[m as int] == cell@[m as int]@);
                m = m + 1;
            }
            assert(cs.subrange(0, n + 1).drop_last() =~= cs.subrange(0, n as int));
            assert(cs[n as int] == strs(cell@));
            n = n + 1;
        }
        assert(cs.subrange(0, n as int) =~= cs);
    }
}

/// The entries after scanning lines `lines[..m]` of cell `idx`.
pub open spec fn cell_scan(path: Seq<char>, lines: Seq<Seq<char>>, idx: usize, m: int, start: CellIndexView) -> CellIndexView
    decreases m,
{
    if m <= 0 || m > lines.len() {
        start
    } else {
        let prev = cell_scan(path, lines, idx, m - 1, start);
        match spec_option_pair(lines[m - 1]) {
            Some((k, v)) => if k == "label"@ {
                cell_put(prev, spec_unquote(v), (path, idx))
            } else {
                prev
            },
            None => prev,
        }
    }
}

/// The entries after scanning every line of every cell, in order.
pub open spec fn notebook_scan_all(path: Seq<char>, cells: Seq<Seq<Seq<char>>>, start: CellIndexView) -> CellIndexView
    decreases cells.len(),
{
    if cells.len() == 0 {
        start
    } else {
        let prev = notebook_scan_all(path, cells.drop_last(), start);
        cell_scan(path, cells.last(), (cells.len() - 1) as usize, cells.last().len() as int, prev)
    }
}


/// `(id, (dialect, original lines))` entries.
pub type StoreView = Seq<(Seq<char>, (Dialect, Seq<Seq<char>>))>;

/// Position of the entry for `id`, or the length.
pub open spec fn store_pos(s: StoreView, id: Seq<char>) -> int
    decreases s.len(),
{
    if s.len() == 0 {
        0
    } else if s[0].0 == id {
        0
    } else {
        1 + store_pos(s.drop_first(), id)
    }
}

proof fn lemma_store_pos(s: StoreView, id: Seq<char>)
    ensures
        0 <= store_pos(s, id) <= s.len(),
        store_pos(s, id) < s.len() ==> s[store_pos(s, id)].0 == id,
        forall|i: int| 0 <= i < store_pos(s, id) ==> #[trigger] s[i].0 != id,
    decreases s.len(),
{
    if s.len() > 0 && s[0].0 != id {
        lemma_store_pos(s.drop_first(), id);
        assert forall|i: int| 0 <= i < store_pos(s, id) implies #[trigger] s[i].0 != id by {
            if i > 0 {
                assert(s[i] == s.drop_first()[i - 1]);
            }
        }
    }
}

pub proof fn lemma_store_pos_pub(s: StoreView, id: Seq<char>)
    ensures
        0 <= store_pos(s, id) <= s.len(),
        store_pos(s, id) < s.len() ==> s[store_pos(s, id)].0 == id,
{
    lemma_store_pos(s, id);
}

/// The entry stored under `id`.
pub open spec fn store_get(s: StoreView, id: Seq<char>) -> Option<(Dialect, Seq<Seq<char>>)> {
    let i = store_pos(s, id);
    if i < s.len() {
        Some(s[i].1)
    } else {
        None
    }
}

/// Storing under `id`: replaces an earlier entry, else appends.
pub open spec fn store_put(s: StoreView, id: Seq<char>, e: (Dialect, Seq<Seq<char>>)) -> StoreView {
    let i = store_pos(s, id);
    if i < s.len() {
        s.update(i, (id, e))
    } else {
        s.push((id, e))
    }
}

/// Preserved constructs keyed by the id in their marker comment, each with
/// the dialect its lines were captured in.
#[derive(Debug, Clone, PartialEq, Eq)]
pub struct PreservationStore {
    entries: Vec<(String, Dialect, Vec<String>)>,
}

impl View for PreservationStore {
    type V = StoreView;

    closed spec fn view(&self) -> StoreView {
        self.entries@.map_values(|e: (String, Dialect, Vec<String>)| (e.0@, (e.1, strs(e.2@))))
    }
}

impl PreservationStore {
    /// Whether every stored original can be numbered from any line before
    /// `limit` (each has at most `u32::MAX - limit` lines).
    pub fn fits(&self, limit: u64) -> (r: bool)
        ensures
            r == crate::reader::myst::store_fits(self@, limit as int),
    {
        let mut i: usize = 0;
        while i < self.entries.len()
            invariant
                i <= self.entries@.len(),
                self@.len() == self.entries@.len(),
                forall|m: int| 0 <= m < i ==> #[trigger] self@[m].1.1.len() + limit <= u32::MAX,
            decreases self.entries.len() - i,
        {
            assert(self@[i as int].1.1.len() == self.entries@[i as int].2@.len());
            if self.entries[i].2.len() as u64 > 4294967295u64 || limit > 4294967295u64 - self.entries[i].2.len() as u64 {
                return false;
            }
            i = i + 1;
        }
        true
    }

    /// An empty store.
    pub fn new() -> (r: PreservationStore)
        ensures
            r@ == Seq::<(Seq<char>, (Dialect, Seq<Seq<char>>))>::empty(),
    {
        let r = PreservationStore { entries: Vec::new() };
        assert(r@ =~= Seq::<(Seq<char>, (Dialect, Seq<Seq<char>>))>::empty());
        r
    }

    fn find(&self, id: &String) -> (i: usize)
        ensures
            i == store_pos(self@, id@),
    {
        proof {
            lemma_store_pos(self@, id@);
        }
        let mut i: usize = 0;
        while i < self.entries.len()
            invariant
                i <= self.entries@.len(),
                self@.len() == self.entries@.len(),
                forall|m: int| 0 <= m < i ==> #[trigger] self@[m].0 != id@,
            decreases self.entries.len() - i,
        {
            assert(self@[i as int].0 == self.entries@[i as int].0@);
            if self.entries[i].0 == *id {
                proof {
                    lemma_store_pos(self@, id@);
                    if store_pos(self@, id@) > i {
                        assert(self@[i as int].0 != id@);
                    }
                }
                return i;
            }
            i = i + 1;
        }
        proof {
            lemma_store_pos(self@, id@);
            if store_pos(self@, id@) < i {
                assert(self@[store_pos(self@, id@)].0 == id@);
            }
        }
        i
    }

    /// Stores an entry of unknown dialect: foreign to every reader, so it is
    /// only ever restored opaquely, never reparsed.
    pub fn insert(&mut self, id: &str, original: Vec<String>)
        ensures
            final(self)@ == store_put(old(self)@, id@, (Dialect::Unknown, strs(original@))),
    {
        self.insert_dialect(id, Dialect::Unknown, original);
    }

    /// Stores an entry captured in `dialect`.
    pub fn insert_dialect(&mut self, id: &str, dialect: Dialect, original: Vec<String>)
        ensures
            final(self)@ == store_put(old(self)@, id@, (dialect, strs(original@))),
    {
        let key = String::from_str(id);
        let i = self.find(&key);
        if i < self.entries.len() {
            self.entries.set(i, (key, dialect, original));
        } else {
            self.entries.push((key, dialect, original));
        }
        assert(self@ =~= store_put(old(self)@, id@, (dialect, strs(original@))));
    }

    /// The original lines stored under `id`, only when they were captured in
    /// `dialect`: a reader reparses only what is native to it.
    pub fn get_matching(&self, id: &str, dialect: Dialect) -> (r: Option<&Vec<String>>)
        ensures
            match r {
                Some(o) => store_get(self@, id@) == Some((dialect, strs(o@))),
                None => !(store_get(self@, id@) matches Some(e) && e.0 == dialect),
            },
    {
        let key = String::from_str(id);
        let i = self.find(&key);
        if i < self.entries.len() {
            assert(self@[i as int] == (self.entries@[i as int].0@, (self.entries@[i as int].1, strs(self.entries@[i as int].2@))));
            if self.entries[i].1 == dialect {
                return Some(&self.entries[i].2);
            }
        }
        None
    }

    /// The original lines stored under `id`, whatever their dialect.
    pub fn get(&self, id: &str) -> (r: Option<&Vec<String>>)
        ensures
            match r {
                Some(o) => store_get(self@, id@) matches Some(e) && e.1 == strs(o@),
                None => store_get(self@, id@) is None,
            },
    {
        let key = String::from_str(id);
        let i = self.find(&key);
        if i < self.entries.len() {
            assert(self@[i as int] == (self.entries@[i as int].0@, (self.entries@[i as int].1, strs(self.entries@[i as int].2@))));
            Some(&self.entries[i].2)
        } else {
            None
        }
    }
}

/// What `Path::parent` answers for `path`.
pub uninterp spec fn path_parent(path: Seq<char>) -> Option<Seq<char>>;

/// What `Path::join` answers for `base` and `rel`.
pub uninterp spec fn path_joined(base: Seq<char>, rel: Seq<char>) -> Seq<char>;

/// Calls `Path::parent`. Claimed: the answer depends only on the text.
#[verifier::external_body]
pub(crate) fn parent_of(path: &str) -> (r: Option<String>)
    ensures
        match r {
            Some(p) => path_parent(path@) == Some(p@),
            None => path_parent(path@) is None,
        },
{
    std::path::Path::new(path).parent().map(|p| p.to_string_lossy().into_owned())
}

/// Calls `Path::join`. Claimed: the answer depends only on the two texts.
#[verifier::external_body]
pub(crate) fn join_path(base: &str, rel: &str) -> (r: String)
    ensures
        r@ == path_joined(base@, rel@),
{
    std::path::Path::new(base).join(rel).to_string_lossy().into_owned()
}

/// Shared reader state for one conversion set. `resolved` holds the
/// canonical form of each include target (as written, relative to the
/// source), resolved by the caller against the file system.
#[derive(Debug, Clone)]
pub struct ReaderContext {
    pub source: String,
    pub input_root: Option<String>,
    pub notebook_index: NotebookCellIndex,
    pub preserved: PreservationStore,
    pub include_chain: IncludeChain,
    pub resolved: StrMap,
}

/// The directory of `source`: its parent, or `.` when it has none.
pub open spec fn spec_source_dir(source: Seq<char>) -> Seq<char> {
    match path_parent(source) {
        Some(p) => p,
        None => "."@,
    }
}

impl ReaderContext {
    /// A context for reading `source`, with empty indexes and no input root.
    pub fn new(source: &str) -> (c: ReaderContext)
        ensures
            c.source@ == source@,
            c.input_root is None,
            c.notebook_index@.len() == 0,
            c.preserved@.len() == 0,
            c.include_chain@.len() == 0,
            c.include_chain.wf(),
            c.resolved@.len() == 0,
    {
        ReaderContext {
            source: String::from_str(source),
            input_root: None,
            notebook_index: NotebookCellIndex::new(),
            preserved: PreservationStore::new(),
            include_chain: IncludeChain::new(),
            resolved: StrMap::new(),
        }
    }

    /// The same context with `input_root` as the declared root that include
    /// targets must stay inside.
    pub fn with_input_root(self, input_root: &str) -> (c: ReaderContext)
        ensures
            c.input_root matches Some(r) && r@ == input_root@,
            c.source == self.source,
            c.notebook_index == self.notebook_index,
            c.preserved == self.preserved,
            c.include_chain == self.include_chain,
            c.resolved == self.resolved,
    {
        let mut c = self;
        c.input_root = Some(String::from_str(input_root));
        c
    }

    /// The directory containing the source file.
    pub fn source_dir(&self) -> (d: String)
        ensures
            d@ == spec_source_dir(self.source@),
    {
        match parent_of(self.source.as_str()) {
            Some(p) => p,
            None => String::from_str("."),
        }
    }

    /// Checks an include target: absolute targets are refused; under a
    /// declared root, the target's canonical form must lie inside it; and
    /// entering it must not close a cycle or exceed the depth cap. Answers
    /// the target as written.
    pub fn resolve_include(&self, target: &str) -> (r: Result<String, PathGuardError>)
        requires
            self.include_chain.wf(),
        ensures
            include_answer(*self, target@, r),
    {
        if crate::fs::path_guard::path_is_absolute(target) {
            return Err(PathGuardError::AbsoluteTarget { path: String::from_str(target) });
        }
        let chain_target = match &self.input_root {
            Some(root) => match self.resolved.get(target) {
                None => {
                    let dir = self.source_dir();
                    return Err(
                        PathGuardError::Canonicalize {
                            path: join_path(dir.as_str(), target),
                            message: String::from_str("the target was not resolved against the file system"),
                        },
                    );
                },
                Some(canon) => {
                    if !is_descendant(root.as_str(), canon.as_str()) {
                        return Err(PathGuardError::EscapesRoot { path: canon.clone(), root: root.clone() });
                    }
                    canon.clone()
                },
            },
            None => String::from_str(target),
        };
        match self.include_chain.check_push(&chain_target) {
            Ok(()) => Ok(String::from_str(target)),
            Err(e) => Err(e),
        }
    }
}

/// What checking `target` as an include in `ctx` answers: absolute targets
/// are refused; under a declared root, a target that cannot be resolved, or
/// whose canonical form lies outside the root, is refused; otherwise what
/// entering it on the include chain answers. (Of a target that cannot be
/// resolved, the error's text is the file system's and is left open.)
pub open spec fn include_answer(ctx: ReaderContext, target: Seq<char>, r: Result<String, PathGuardError>) -> bool {
    &&& path_absolute(target) ==> (r matches Err(PathGuardError::AbsoluteTarget { path }) && path@ == target)
    &&& !path_absolute(target) ==> match ctx.input_root {
        Some(root) => match map_get(ctx.resolved@, target) {
            None => r matches Err(PathGuardError::Canonicalize { path, .. })
                && path@ == path_joined(spec_source_dir(ctx.source@), target),
            Some(canon) => if !path_has_prefix(canon, root@) {
                r matches Err(PathGuardError::EscapesRoot { path, root: rt }) && path@ == canon && rt@ == root@
            } else {
                chain_answer(ctx.include_chain@, canon, target, r)
            },
        },
        None => chain_answer(ctx.include_chain@, target, target, r),
    }
}

/// What entering `canon` on `chain` answers: the depth error, the cycle
/// error, or the target as written.
pub open spec fn chain_answer(chain: Seq<Seq<char>>, canon: Seq<char>, target: Seq<char>, r: Result<String, PathGuardError>) -> bool {
    if chain.len() >= crate::fs::path_guard::MAX_INCLUDE_DEPTH {
        r == Err::<String, PathGuardError>(PathGuardError::DepthExceeded {
            depth: (chain.len() + 1) as usize,
            max: crate::fs::path_guard::MAX_INCLUDE_DEPTH,
        })
    } else if chain.contains(canon) {
        r matches Err(PathGuardError::IncludeCycle { path }) && path@ == canon
    } else {
        r matches Ok(t) && t@ == target
    }
}


/// A character an id in a preservation marker may hold: no whitespace, no
/// `.` (which could start another sidecar anchor) and no `>`.
pub open spec fn marker_id_char(c: char) -> bool {
    !is_ws(c) && c != '.' && c != '>'
}

proof fn lemma_trim_unpadded(s: Seq<char>)
    requires
        s.len() > 0,
        !is_ws(s[0]),
        !is_ws(s.last()),
    ensures
        trim(s) == s,
{
    assert(skip_ws(s, 0) == 0);
    assert(s.subrange(0, s.len() as int) =~= s);
    assert(crate::text::trim_start(s) == s);
    assert(trail_ws(s, s.len() as int) == s.len());
    assert(crate::text::trim_end(s) =~= s);
}

proof fn lemma_ws_from_word(s: Seq<char>, i: int, n: int)
    requires
        0 <= i <= n < s.len(),
        forall|k: int| 0 <= k < n ==> !is_ws(#[trigger] s[k]),
        is_ws(s[n]),
    ensures
        ws_from(s, i) == n,
    decreases n - i,
{
    if i < n {
        lemma_ws_from_word(s, i + 1, n);
    }
}

/// Law: a preservation marker written for an id of marker-id characters
/// reads back as exactly that id, whatever its code and kind say.
pub proof fn lemma_marker_id_round_trip(code: Seq<char>, kind: Seq<char>, id: Seq<char>)
    requires
        id.len() > 0,
        forall|i: int| 0 <= i < id.len() ==> marker_id_char(#[trigger] id[i]),
    ensures
        spec_marker_id(crate::preserve::spec_marker(code, kind, id)) == Some(id),
{
    reveal_strlit("<!-- mystquarto ");
    reveal_strlit(": ");
    reveal_strlit(" preserved \u{2014} see .mystquarto/preserved.json#");
    reveal_strlit(" -->");
    reveal_strlit("-->");
    reveal_strlit(".mystquarto/preserved.json#");
    let head = "<!-- mystquarto "@ + code + ": "@ + crate::preserve::safe_kind(kind);
    let l = " preserved \u{2014} see .mystquarto/preserved.json#"@;
    let e = " -->"@;
    let n = marker_needle();
    let m = crate::preserve::spec_marker(code, kind, id);
    assert(m =~= head + l + id + e);
    assert(l.len() == 44);
    assert(n.len() == 27);
    let p: int = head.len() as int + 17;
    assert(m.len() == head.len() + 44 + id.len() + 4);
    // The line needs no trimming and has the marker's ends.
    assert(m[0] == '<');
    assert(m[m.len() - 1] == '>');
    lemma_trim_unpadded(m);
    assert(m.subrange(0, 16) =~= "<!-- mystquarto "@);
    assert(m.subrange(m.len() - 3, m.len() as int) =~= "-->"@);
    // The anchor before the id is the last one.
    assert forall|i: int| 0 <= i < 27 implies #[trigger] m[p + i] == n[i] by {
        assert(m[p + i] == l[17 + i]);
    }
    assert(m.subrange(p, p + 27) =~= n);
    assert forall|i: int| 0 <= i < id.len() implies #[trigger] m[p + 27 + i] == id[i] by {}
    assert forall|q: int| p < q <= m.len() - 27 implies !has_at(m, q, n) by {
        if has_at(m, q, n) {
            assert(m.subrange(q, q + 27)[0] == n[0]);
            assert(m.subrange(q, q + 27)[1] == n[1]);
            assert(m[q] == '.');
            assert(m[q + 1] == 'm');
            if q < p + 27 {
                let i = q - p;
                assert(m[p + i] == n[i]);
                if i == 22 {
                    assert(m[p + 23] == n[23]);
                }
            } else {
                assert(m[p + 27 + (q - p - 27)] == id[q - p - 27]);
                assert(marker_id_char(id[q - p - 27]));
            }
        }
    }
    lemma_last_at(m, n, m.len() - 27);
    let found = last_at(m, n, m.len() - 27);
    if found < p {
        assert(has_at(m, p, n));
    }
    assert(found == p);
    // The word after it is the id.
    let after = m.subrange(p + 27, m.len() as int);
    assert(after =~= id + e);
    assert(!is_ws(after[0]));
    assert(skip_ws(after, 0) == 0);
    assert forall|k: int| 0 <= k < id.len() implies !is_ws(#[trigger] after[k]) by {
        assert(after[k] == id[k]);
        assert(marker_id_char(id[k]));
    }
    assert(after[id.len() as int] == ' ');
    lemma_ws_from_word(after, 0, id.len() as int);
    let word = after.subrange(0, id.len() as int);
    assert(word =~= id);
    assert(marker_id_char(id[id.len() - 1]));
    if id.len() >= 3 && has_at(id, id.len() - 3, "-->"@) {
        assert(id.subrange(id.len() - 3, id.len() as int)[2] == '>');
    }
    assert(strip_arrows(id) == id);
    assert(marker_id_char(id[0]));
    lemma_trim_unpadded(id);
}

/// Law: the marker the writers leave for a preserved construct reads back
/// as the id its original lines were stored under, so the reverse
/// conversion finds them.
pub proof fn lemma_preserved_marker_round_trip(code: Seq<char>, kind: Seq<char>, original: Seq<Seq<char>>)
    ensures
        spec_marker_id(crate::preserve::spec_marker(code, kind, crate::preserve::spec_entry_id(original)))
            == Some(crate::preserve::spec_entry_id(original)),
{
    let id = crate::preserve::spec_entry_id(original);
    reveal_strlit("fnv1a:");
    let h = crate::registry::sidecar::fnv1a_from(
        crate::registry::sidecar::FNV_OFFSET_BASIS,
        vstd::utf8::encode_utf8(crate::preserve::join_lines(original)),
    );
    let hex = crate::registry::sidecar::hex16(h);
    assert(id =~= "fnv1a:"@ + hex);
    assert forall|i: int| 0 <= i < id.len() implies marker_id_char(#[trigger] id[i]) by {
        if i >= 6 {
            assert(id[i] == hex[i - 6]);
            let d = (h >> ((60 - 4 * (i - 6)) as u64)) & 0xf;
            assert(hex[i - 6] == crate::registry::sidecar::hex_digit(d));
        }
    }
    lemma_marker_id_round_trip(code, kind, id);
}

} // verus!
