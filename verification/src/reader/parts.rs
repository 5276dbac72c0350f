//! Line-level recognizers and option readers shared by the MyST reader.
use vstd::prelude::*;
use crate::ir::{AdmonitionKind, Attrs, CellOptions, IncludeOpts};
use crate::label::Label;
use crate::reader::fence::strs;
use crate::reader::{spec_unquote, unquote, ws_from};
use crate::strmap::{map_get, map_insert, EntriesView, StrMap};
use crate::text::{
    chars_of, contains_at_any, contains_chars, find_char, first_of, has_at, has_at_exec, lemma_first_of,
    parse_u32, run_end, run_end_exec, skip_ws_exec, slice_chars, spec_parse_u32, str_eq, string_of,
    trim, trim_chars, trim_start,
};

verus! {

/// `(label)=` on a line of its own: the label, when non-empty.
pub open spec fn spec_target(line: Seq<char>) -> Option<Seq<char>> {
    let t = trim(line);
    if t.len() > 3 && t[0] == '(' && t[t.len() - 2] == ')' && t[t.len() - 1] == '=' {
        Some(t.subrange(1, t.len() - 2))
    } else {
        None
    }
}

/// Recognizes a `(label)=` target line.
pub fn parse_target(line: &str) -> (r: Option<Label>)
    ensures
        match r {
            Some(l) => spec_target(line@) == Some(l.raw@),
            None => spec_target(line@) is None,
        },
{
    let t = trim_chars(&chars_of(line));
    let n = t.len();
    if n > 3 && t[0] == '(' && t[n - 2] == ')' && t[n - 1] == '=' {
        Some(Label { raw: string_of(&slice_chars(&t, 1, n - 2)) })
    } else {
        None
    }
}

/// `# Heading` (one to six `#`, then a space): its level and text.
pub open spec fn spec_heading(line: Seq<char>) -> Option<(int, Seq<char>)> {
    let t = trim_start(line);
    let level = run_end(t, 0, '#');
    if 1 <= level <= 6 && level < t.len() && t[level] == ' ' {
        Some((level, t.subrange(level + 1, t.len() as int)))
    } else {
        None
    }
}

/// Recognizes an ATX heading line.
pub fn parse_heading(line: &str) -> (r: Option<(u8, String)>)
    ensures
        match r {
            Some((level, text)) => spec_heading(line@) == Some((level as int, text@)),
            None => spec_heading(line@) is None,
        },
{
    let v = chars_of(line);
    let a = skip_ws_exec(&v, 0);
    let t = slice_chars(&v, a, v.len());
    let level = run_end_exec(&t, 0, '#');
    if 1 <= level && level <= 6 && level < t.len() && t[level] == ' ' {
        Some((level as u8, string_of(&slice_chars(&t, level + 1, t.len()))))
    } else {
        None
    }
}

/// A line holding only whitespace.
pub open spec fn is_blank(l: Seq<char>) -> bool {
    trim(l).len() == 0
}

/// The first non-blank line at or after `i`, or the length.
pub open spec fn first_nonblank(ls: Seq<Seq<char>>, i: int) -> int
    decreases ls.len() - i,
{
    if i < 0 || i >= ls.len() {
        ls.len() as int
    } else if !is_blank(ls[i]) {
        i
    } else {
        first_nonblank(ls, i + 1)
    }
}

/// One past the last non-blank line before `j`, or `lo` when there is none
/// at or after `lo`.
pub open spec fn end_nonblank(ls: Seq<Seq<char>>, lo: int, j: int) -> int
    decreases j - lo,
{
    if j <= lo {
        lo
    } else if !is_blank(ls[j - 1]) {
        j
    } else {
        end_nonblank(ls, lo, j - 1)
    }
}

/// The lines with leading and trailing blank lines removed.
pub open spec fn spec_trim_blank_lines(ls: Seq<Seq<char>>) -> Seq<Seq<char>> {
    let a = first_nonblank(ls, 0);
    ls.subrange(a, end_nonblank(ls, a, ls.len() as int))
}

proof fn lemma_first_nonblank(ls: Seq<Seq<char>>, i: int)
    requires
        0 <= i <= ls.len(),
    ensures
        i <= first_nonblank(ls, i) <= ls.len(),
    decreases ls.len() - i,
{
    if i < ls.len() && is_blank(ls[i]) {
        lemma_first_nonblank(ls, i + 1);
    }
}

proof fn lemma_end_nonblank(ls: Seq<Seq<char>>, lo: int, j: int)
    requires
        0 <= lo <= j <= ls.len(),
    ensures
        lo <= end_nonblank(ls, lo, j) <= j,
    decreases j - lo,
{
    if j > lo && is_blank(ls[j - 1]) {
        lemma_end_nonblank(ls, lo, j - 1);
    }
}

fn is_blank_str(s: &str) -> (r: bool)
    ensures
        r == is_blank(s@),
{
    trim_chars(&chars_of(s)).len() == 0
}

/// Copies `v[lo..hi]`.
pub fn copy_lines(v: &[String], lo: usize, hi: usize) -> (r: Vec<String>)
    requires
        lo <= hi <= v@.len(),
    ensures
        strs(r@) == strs(v@).subrange(lo as int, hi as int),
{
    let mut out: Vec<String> = Vec::new();
    let mut k = lo;
    while k < hi
        invariant
            lo <= k <= hi <= v@.len(),
            strs(out@) == strs(v@).subrange(lo as int, k as int),
        decreases hi - k,
    {
        let ghost prev = strs(out@);
        let item = v[k].clone();
        assert(item@ == strs(v@)[k as int]);
        out.push(item);
        assert(strs(out@) =~= prev.push(item@));
        assert(strs(out@) =~= strs(v@).subrange(lo as int, k + 1));
        k = k + 1;
    }
    out
}

/// Drops leading and trailing blank lines.
pub fn trim_blank_lines(lines: &[String]) -> (r: Vec<String>)
    ensures
        strs(r@) == spec_trim_blank_lines(strs(lines@)),
{
    let ghost ls = strs(lines@);
    proof {
        lemma_first_nonblank(ls, 0);
    }
    let mut a: usize = 0;
    while a < lines.len() && is_blank_str(lines[a].as_str())
        invariant
            a <= lines@.len(),
            ls == strs(lines@),
            first_nonblank(ls, 0) == first_nonblank(ls, a as int),
        decreases lines.len() - a,
    {
        assert(ls[a as int] == lines@[a as int]@);
        a = a + 1;
    }
    proof {
        if a < lines.len() {
            assert(ls[a as int] == lines@[a as int]@);
        }
        lemma_end_nonblank(ls, a as int, ls.len() as int);
    }
    let mut b: usize = lines.len();
    while b > a && is_blank_str(lines[b - 1].as_str())
        invariant
            a <= b <= lines@.len(),
            ls == strs(lines@),
            end_nonblank(ls, a as int, ls.len() as int) == end_nonblank(ls, a as int, b as int),
        decreases b,
    {
        assert(ls[b - 1] == lines@[b - 1]@);
        b = b - 1;
    }
    proof {
        if b > a {
            assert(ls[b - 1] == lines@[b - 1]@);
        }
    }
    copy_lines(lines, a, b)
}

/// The pieces of `s[i..]` between occurrences of `c` (`str::split`).
pub open spec fn split_from(s: Seq<char>, i: int, c: char) -> Seq<Seq<char>>
    decreases s.len() - i,
    via split_from_decreases
{
    if i < 0 || i > s.len() {
        Seq::empty()
    } else {
        let j = first_of(s, i, c);
        if j < s.len() {
            seq![s.subrange(i, j)] + split_from(s, j + 1, c)
        } else {
            seq![s.subrange(i, s.len() as int)]
        }
    }
}

#[via_fn]
proof fn split_from_decreases(s: Seq<char>, i: int, c: char) {
    if 0 <= i <= s.len() {
        lemma_first_of(s, i, c);
    }
}

/// `[` or `]`.
pub open spec fn is_bracket(c: char) -> bool {
    c == '[' || c == ']'
}

fn is_bracket_exec(c: char) -> (r: bool)
    ensures
        r == is_bracket(c),
{
    c == '[' || c == ']'
}

/// Strips every leading and trailing `[` or `]`.
pub open spec fn trim_brackets(s: Seq<char>) -> Seq<char>
    decreases s.len(),
{
    if s.len() > 0 && is_bracket(s[0]) {
        trim_brackets(s.drop_first())
    } else if s.len() > 0 && is_bracket(s.last()) {
        trim_brackets(s.drop_last())
    } else {
        s
    }
}

/// The trimmed, non-empty pieces, in order.
pub open spec fn nonempty_trimmed(pieces: Seq<Seq<char>>) -> Seq<Seq<char>>
    decreases pieces.len(),
{
    if pieces.len() == 0 {
        Seq::empty()
    } else {
        let rest = nonempty_trimmed(pieces.drop_last());
        let t = trim(pieces.last());
        if t.len() > 0 {
            rest.push(t)
        } else {
            rest
        }
    }
}

/// The tags of a `:tags: [a, b]` option.
pub open spec fn spec_tag_list(v: Seq<char>) -> Seq<Seq<char>> {
    nonempty_trimmed(split_from(trim_brackets(v), 0, ','))
}

fn trim_brackets_exec(v: &Vec<char>) -> (r: Vec<char>)
    ensures
        r@ == trim_brackets(v@),
{
    let mut lo: usize = 0;
    let mut hi: usize = v.len();
    assert(v@.subrange(0, hi as int) =~= v@);
    while lo < hi && is_bracket_exec(v[lo])
        invariant
            lo <= hi <= v@.len(),
            hi == v@.len(),
            trim_brackets(v@.subrange(lo as int, hi as int)) == trim_brackets(v@),
        decreases hi - lo,
    {
        assert(v@.subrange(lo as int, hi as int)[0] == v@[lo as int]);
        assert(v@.subrange(lo as int, hi as int).drop_first() =~= v@.subrange(lo + 1, hi as int));
        lo = lo + 1;
    }
    while lo < hi && is_bracket_exec(v[hi - 1])
        invariant
            lo <= hi <= v@.len(),
            lo < hi ==> !is_bracket(v@[lo as int]),
            trim_brackets(v@.subrange(lo as int, hi as int)) == trim_brackets(v@),
        decreases hi - lo,
    {
        assert(v@.subrange(lo as int, hi as int)[0] == v@[lo as int]);
        assert(v@.subrange(lo as int, hi as int).last() == v@[hi - 1]);
        assert(v@.subrange(lo as int, hi as int).drop_last() =~= v@.subrange(lo as int, hi - 1));
        hi = hi - 1;
    }
    proof {
        if lo < hi {
            assert(v@.subrange(lo as int, hi as int)[0] == v@[lo as int]);
            assert(v@.subrange(lo as int, hi as int).last() == v@[hi - 1]);
        }
    }
    slice_chars(v, lo, hi)
}

/// Reads a `:tags: [a, b]` option into its tags.
pub fn tag_list(value: &str) -> (r: Vec<String>)
    ensures
        strs(r@) == spec_tag_list(value@),
{
    let v = trim_brackets_exec(&chars_of(value));
    let mut out: Vec<String> = Vec::new();
    let mut i: usize = 0;
    let ghost pieces = split_from(v@, 0, ',');
    assert(strs(out@) =~= nonempty_trimmed(Seq::<Seq<char>>::empty()));
    assert(Seq::<Seq<char>>::empty() + pieces =~= pieces);
    let ghost mut done: Seq<Seq<char>> = Seq::empty();
    loop
        invariant
            i <= v@.len(),
            v@ == trim_brackets(value@),
            pieces == split_from(v@, 0, ','),
            done + split_from(v@, i as int, ',') == pieces,
            strs(out@) == nonempty_trimmed(done),
        decreases v@.len() - i,
    {
        let j = find_char(&v, i, ',');
        proof {
            lemma_first_of(v@, i as int, ',');
        }
        let piece = slice_chars(&v, i, j);
        let t = trim_chars(&piece);
        let ghost prev_done = done;
        proof {
            done = done.push(piece@);
            assert(done.drop_last() == prev_done);
        }
        if t.len() > 0 {
            out.push(string_of(&t));
        }
        assert(strs(out@) =~= nonempty_trimmed(done));
        if j >= v.len() {
            assert(split_from(v@, i as int, ',') =~= seq![piece@]);
            assert(done =~= pieces);
            return out;
        }
        assert(split_from(v@, i as int, ',') =~= seq![piece@] + split_from(v@, j + 1, ','));
        assert(done + split_from(v@, j + 1, ',') =~= prev_done + split_from(v@, i as int, ','));
        i = j + 1;
    }
}

/// The options except those whose key satisfies `drop`, in key order.
pub open spec fn without_keys(s: EntriesView, drop: spec_fn(Seq<char>) -> bool) -> EntriesView
    decreases s.len(),
{
    if s.len() == 0 {
        Seq::empty()
    } else {
        let rest = without_keys(s.drop_last(), drop);
        if drop(s.last().0) {
            rest
        } else {
            rest.push(s.last())
        }
    }
}

/// `label` and `name` carry the label, not an attribute.
pub open spec fn is_label_key(k: Seq<char>) -> bool {
    k == "label"@ || k == "name"@
}

/// Keys a code cell's options read into dedicated fields.
pub open spec fn is_cell_key(k: Seq<char>) -> bool {
    k == "tags"@ || k == "caption"@ || k == "label"@ || k == "name"@
}

fn key_is_label(k: &String) -> (r: bool)
    ensures
        r == is_label_key(k@),
{
    str_eq(k.as_str(), "label") || str_eq(k.as_str(), "name")
}

fn key_is_cell(k: &String) -> (r: bool)
    ensures
        r == is_cell_key(k@),
{
    str_eq(k.as_str(), "tags") || str_eq(k.as_str(), "caption") || str_eq(k.as_str(), "label") || str_eq(
        k.as_str(),
        "name",
    )
}

/// Entries kept in order, appended to a map whose keys all sort before the
/// kept ones, insert exactly where a push would.
proof fn lemma_sorted_insert_is_push(m: EntriesView, k: Seq<char>, v: Seq<char>)
    requires
        forall|i: int| 0 <= i < m.len() ==> crate::strmap::seq_lt(#[trigger] m[i].0, k),
    ensures
        map_insert(m, k, v) == m.push((k, v)),
{
    crate::strmap::lemma_key_index(m, k);
    crate::strmap::lemma_insert_pos(m, k);
    if crate::strmap::key_index(m, k) < m.len() {
        let i = crate::strmap::key_index(m, k);
        assert(crate::strmap::seq_lt(m[i].0, k));
        crate::strmap::lemma_seq_lt_total(k, k);
    }
    if crate::strmap::insert_pos(m, k) < m.len() {
        assert(crate::strmap::seq_lt(m[crate::strmap::insert_pos(m, k)].0, k));
    }
}

/// A directive's options as attributes: all but `label` and `name`.
pub fn options_to_attrs(options: &StrMap) -> (r: Attrs)
    requires
        crate::strmap::keys_sorted(options@),
    ensures
        r@ == without_keys(options@, |k: Seq<char>| is_label_key(k)),
{
    filtered(options, false)
}

/// The options whose keys are not label keys (or, with `cell`, not the keys
/// a code cell reads into dedicated fields), in key order.
fn filtered(options: &StrMap, cell: bool) -> (r: StrMap)
    requires
        crate::strmap::keys_sorted(options@),
    ensures
        r@ == without_keys(
            options@,
            if cell {
                |k: Seq<char>| is_cell_key(k)
            } else {
                |k: Seq<char>| is_label_key(k)
            },
        ),
{
    let ghost drop = if cell {
        |k: Seq<char>| is_cell_key(k)
    } else {
        |k: Seq<char>| is_label_key(k)
    };
    let entries = options.entries();
    let mut out = StrMap::new();
    let mut i: usize = 0;
    while i < entries.len()
        invariant
            i <= entries@.len(),
            entries@.map_values(|e: (String, String)| (e.0@, e.1@)) == options@,
            crate::strmap::keys_sorted(options@),
            drop == (if cell {
                |k: Seq<char>| is_cell_key(k)
            } else {
                |k: Seq<char>| is_label_key(k)
            }),
            out@ == without_keys(options@.subrange(0, i as int), drop),
            forall|m: int| 0 <= m < out@.len() ==> exists|n: int| 0 <= n < i && #[trigger] out@[m] == options@[n],
        decreases entries.len() - i,
    {
        let ghost pre = options@.subrange(0, i as int);
        assert(options@.subrange(0, i + 1).drop_last() =~= pre);
        assert(options@[i as int] == (entries@[i as int].0@, entries@[i as int].1@));
        let k = &entries[i].0;
        let skip = if cell { key_is_cell(k) } else { key_is_label(k) };
        if !skip {
            proof {
                assert forall|m: int| 0 <= m < out@.len() implies crate::strmap::seq_lt(#[trigger] out@[m].0, options@[i as int].0) by {
                    let n = choose|n: int| 0 <= n < i && out@[m] == options@[n];
                    assert(crate::strmap::seq_lt(options@[n].0, options@[i as int].0));
                }
                lemma_sorted_insert_is_push(out@, options@[i as int].0, options@[i as int].1);
            }
            let ghost before = out@;
            out.insert(k.clone(), entries[i].1.clone());
            assert forall|m: int| 0 <= m < out@.len() implies exists|n: int| 0 <= n < i + 1 && #[trigger] out@[m] == options@[n] by {
                if m < before.len() {
                    assert(out@[m] == before[m]);
                    let n = choose|n: int| 0 <= n < i && before[m] == options@[n];
                } else {
                    assert(out@[m] == options@[i as int]);
                }
            }
        }
        i = i + 1;
    }
    assert(options@.subrange(0, i as int) =~= options@);
    out
}

/// The cell options of a MyST `{code-cell}`: its `:tags:` list, its
/// `:caption:`, and every other option but its label keys.
pub fn cell_options_from_myst(options: &StrMap) -> (r: CellOptions)
    requires
        crate::strmap::keys_sorted(options@),
    ensures
        strs(r.tags@) == match map_get(options@, "tags"@) {
            Some(t) => spec_tag_list(t),
            None => Seq::empty(),
        },
        match map_get(options@, "caption"@) {
            Some(c) => r.caption matches Some(rc) && rc@ == c,
            None => r.caption is None,
        },
        r.extra@ == without_keys(options@, |k: Seq<char>| is_cell_key(k)),
{
    let tags = match options.get("tags") {
        Some(t) => tag_list(t.as_str()),
        None => Vec::new(),
    };
    let caption = match options.get("caption") {
        Some(c) => Some(c.clone()),
        None => None,
    };
    let extra = filtered(options, true);
    CellOptions { tags, caption, extra }
}

/// `true` when a dropdown admonition's options ask for it collapsed: a
/// `dropdown` class is collapsed unless `:open: true`.
pub open spec fn spec_collapse(options: EntriesView) -> Option<bool> {
    match map_get(options, "class"@) {
        Some(c) => if contains_at_any(c, "dropdown"@) {
            Some(map_get(options, "open"@) != Some("true"@))
        } else {
            None
        },
        None => None,
    }
}

/// Whether a dropdown admonition starts collapsed.
pub fn collapse_from_options(options: &StrMap) -> (r: Option<bool>)
    ensures
        r == spec_collapse(options@),
{
    match options.get("class") {
        Some(c) => {
            if contains_chars(&chars_of(c.as_str()), &chars_of("dropdown")) {
                let open_true = match options.get("open") {
                    Some(o) => str_eq(o.as_str(), "true"),
                    None => false,
                };
                Some(!open_true)
            } else {
                None
            }
        },
        None => None,
    }
}

/// The admonition kind a directive name denotes.
pub open spec fn spec_admonition_kind(name: Seq<char>) -> Option<AdmonitionKind> {
    if name == "note"@ { Some(AdmonitionKind::Note) }
    else if name == "warning"@ { Some(AdmonitionKind::Warning) }
    else if name == "tip"@ { Some(AdmonitionKind::Tip) }
    else if name == "important"@ { Some(AdmonitionKind::Important) }
    else if name == "caution"@ { Some(AdmonitionKind::Caution) }
    else if name == "danger"@ { Some(AdmonitionKind::Danger) }
    else if name == "error"@ { Some(AdmonitionKind::Error) }
    else if name == "hint"@ { Some(AdmonitionKind::Hint) }
    else if name == "seealso"@ { Some(AdmonitionKind::SeeAlso) }
    else if name == "attention"@ { Some(AdmonitionKind::Attention) }
    else { None }
}

/// Maps an admonition directive name to its kind.
pub fn admonition_kind(name: &str) -> (r: Option<AdmonitionKind>)
    ensures
        r == spec_admonition_kind(name@),
{
    if str_eq(name, "note") { Some(AdmonitionKind::Note) }
    else if str_eq(name, "warning") { Some(AdmonitionKind::Warning) }
    else if str_eq(name, "tip") { Some(AdmonitionKind::Tip) }
    else if str_eq(name, "important") { Some(AdmonitionKind::Important) }
    else if str_eq(name, "caution") { Some(AdmonitionKind::Caution) }
    else if str_eq(name, "danger") { Some(AdmonitionKind::Danger) }
    else if str_eq(name, "error") { Some(AdmonitionKind::Error) }
    else if str_eq(name, "hint") { Some(AdmonitionKind::Hint) }
    else if str_eq(name, "seealso") { Some(AdmonitionKind::SeeAlso) }
    else if str_eq(name, "attention") { Some(AdmonitionKind::Attention) }
    else { None }
}

/// `r` holds what the options of an include say: `:literal:` present,
/// `:lang:`, the line bounds when they parse as numbers, and `:lines:`.
pub open spec fn include_opts_read(options: EntriesView, r: IncludeOpts) -> bool {
    &&& r.literal == (map_get(options, "literal"@) is Some)
    &&& match map_get(options, "lang"@) {
        Some(l) => r.lang matches Some(rl) && rl@ == l,
        None => r.lang is None,
    }
    &&& r.start_line == match map_get(options, "start-line"@) {
        Some(s) => spec_parse_u32(s),
        None => None,
    }
    &&& r.end_line == match map_get(options, "end-line"@) {
        Some(s) => spec_parse_u32(s),
        None => None,
    }
    &&& match map_get(options, "lines"@) {
        Some(l) => r.lines matches Some(rl) && rl@ == l,
        None => r.lines is None,
    }
}

/// The options of an include, read from the directive's option map.
pub fn include_opts(options: &StrMap) -> (r: IncludeOpts)
    ensures
        include_opts_read(options@, r),
{
    IncludeOpts {
        literal: options.get("literal").is_some(),
        lang: match options.get("lang") {
            Some(l) => Some(l.clone()),
            None => None,
        },
        start_line: match options.get("start-line") {
            Some(s) => parse_u32(s.as_str()),
            None => None,
        },
        end_line: match options.get("end-line") {
            Some(s) => parse_u32(s.as_str()),
            None => None,
        },
        lines: match options.get("lines") {
            Some(l) => Some(l.clone()),
            None => None,
        },
    }
}

/// The index of the first line that, left-trimmed, starts with `|`, or the
/// length.
pub open spec fn table_start(ls: Seq<Seq<char>>, i: int) -> int
    decreases ls.len() - i,
{
    if i < 0 || i >= ls.len() {
        ls.len() as int
    } else if trim_start(ls[i]).len() > 0 && trim_start(ls[i])[0] == '|' {
        i
    } else {
        table_start(ls, i + 1)
    }
}

proof fn lemma_table_start(ls: Seq<Seq<char>>, i: int)
    requires
        0 <= i <= ls.len(),
    ensures
        i <= table_start(ls, i) <= ls.len(),
    decreases ls.len() - i,
{
    if i < ls.len() && !(trim_start(ls[i]).len() > 0 && trim_start(ls[i])[0] == '|') {
        lemma_table_start(ls, i + 1);
    }
}

fn starts_with_pipe(s: &str) -> (r: bool)
    ensures
        r == (trim_start(s@).len() > 0 && trim_start(s@)[0] == '|'),
{
    let v = chars_of(s);
    let a = skip_ws_exec(&v, 0);
    a < v.len() && v[a] == '|'
}

/// Where the pipe table starts in a table directive's body.
pub fn find_table_start(body: &Vec<String>) -> (r: usize)
    ensures
        r == table_start(strs(body@), 0),
        r <= body@.len(),
{
    let ghost ls = strs(body@);
    proof {
        lemma_table_start(ls, 0);
    }
    let mut i: usize = 0;
    while i < body.len() && !starts_with_pipe(body[i].as_str())
        invariant
            i <= body@.len(),
            ls == strs(body@),
            table_start(ls, 0) == table_start(ls, i as int),
        decreases body.len() - i,
    {
        assert(ls[i as int] == body@[i as int]@);
        i = i + 1;
    }
    proof {
        if i < body.len() {
            assert(ls[i as int] == body@[i as int]@);
        }
    }
    i
}


/// The whitespace-separated words of `s[i..]` (`str::split_whitespace`).
pub open spec fn words_from(s: Seq<char>, i: int) -> Seq<Seq<char>>
    decreases s.len() - i,
    via words_from_decreases
{
    let a = crate::text::skip_ws(s, i);
    if i < 0 || a >= s.len() {
        Seq::empty()
    } else {
        let b = ws_from(s, a);
        seq![s.subrange(a, b)] + words_from(s, b)
    }
}

#[via_fn]
proof fn words_from_decreases(s: Seq<char>, i: int) {
    if 0 <= i <= s.len() {
        crate::text::lemma_skip_ws_bounds(s, i);
        let a = crate::text::skip_ws(s, i);
        if a < s.len() {
            crate::reader::lemma_ws_from_pub(s, a);
            assert(!crate::text::is_ws(s[a]));
        }
    }
}

/// The words of `s`.
pub fn split_words(v: &Vec<char>) -> (r: Vec<Vec<char>>)
    ensures
        r@.map_values(|w: Vec<char>| w@) == words_from(v@, 0),
{
    let mut out: Vec<Vec<char>> = Vec::new();
    let mut i: usize = 0;
    let ghost all = words_from(v@, 0);
    assert(Seq::<Seq<char>>::empty() + all =~= all);
    loop
        invariant
            i <= v@.len(),
            all == words_from(v@, 0),
            out@.map_values(|w: Vec<char>| w@) + words_from(v@, i as int) == all,
        decreases v@.len() - i,
    {
        proof {
            crate::text::lemma_skip_ws_bounds(v@, i as int);
        }
        let a = skip_ws_exec(v, i);
        if a >= v.len() {
            assert(words_from(v@, i as int) =~= Seq::<Seq<char>>::empty());
            assert(out@.map_values(|w: Vec<char>| w@) =~= all);
            return out;
        }
        let mut b = a;
        while b < v.len() && !crate::text::is_whitespace(v[b])
            invariant
                a <= b <= v@.len(),
                ws_from(v@, a as int) == ws_from(v@, b as int),
            decreases v.len() - b,
        {
            b = b + 1;
        }
        proof {
            crate::reader::lemma_ws_from_pub(v@, a as int);
            assert(!crate::text::is_ws(v@[a as int]));
        }
        let w = slice_chars(v, a, b);
        let ghost prev = out@.map_values(|w: Vec<char>| w@);
        out.push(w);
        assert(out@.map_values(|w: Vec<char>| w@) =~= prev.push(v@.subrange(a as int, b as int)));
        assert(words_from(v@, i as int) =~= seq![v@.subrange(a as int, b as int)] + words_from(v@, b as int));
        i = b;
    }
}

/// The attribute a single `{…}` word sets: `#id`, `.class`, or `key=value`.
pub open spec fn attr_step(m: EntriesView, w: Seq<char>) -> EntriesView {
    if w.len() > 0 && w[0] == '#' {
        map_insert(m, "id"@, w.drop_first())
    } else if w.len() > 0 && w[0] == '.' {
        map_insert(m, "class"@, w.drop_first())
    } else {
        let p = first_of(w, 0, '=');
        if p < w.len() {
            map_insert(m, w.subrange(0, p), spec_unquote(w.subrange(p + 1, w.len() as int)))
        } else {
            m
        }
    }
}

/// The attributes of the first `n` words.
pub open spec fn attrs_of_words(ws: Seq<Seq<char>>, n: int) -> EntriesView
    decreases n,
{
    if n <= 0 || n > ws.len() {
        Seq::empty()
    } else {
        attr_step(attrs_of_words(ws, n - 1), ws[n - 1])
    }
}

/// The attributes of a Pandoc `{#id .class key="value"}` body.
pub open spec fn spec_parse_attrs(s: Seq<char>) -> EntriesView {
    attrs_of_words(words_from(s, 0), words_from(s, 0).len() as int)
}

/// Reads a Pandoc attribute body into attributes.
pub fn parse_attrs(attrs: &str) -> (r: Attrs)
    ensures
        r@ == spec_parse_attrs(attrs@),
        crate::strmap::keys_sorted(r@),
{
    proof {
        reveal_strlit("id");
        reveal_strlit("class");
    }
    let v = chars_of(attrs);
    let ws = split_words(&v);
    let ghost wv = ws@.map_values(|w: Vec<char>| w@);
    let mut out = StrMap::new();
    let mut k: usize = 0;
    while k < ws.len()
        invariant
            k <= ws@.len(),
            wv == ws@.map_values(|w: Vec<char>| w@),
            wv == words_from(attrs@, 0),
            out@ == attrs_of_words(wv, k as int),
            crate::strmap::keys_sorted(out@),
        decreases ws.len() - k,
    {
        let w = &ws[k];
        assert(wv[k as int] == w@);
        let ghost before = out@;
        if w.len() > 0 && w[0] == '#' {
            out.insert(String::from_str("id"), string_of(&slice_chars(w, 1, w.len())));
            assert(w@.drop_first() =~= w@.subrange(1, w@.len() as int));
            proof { crate::strmap::lemma_insert_keeps_sorted(before, "id"@, w@.drop_first()); }
        } else if w.len() > 0 && w[0] == '.' {
            out.insert(String::from_str("class"), string_of(&slice_chars(w, 1, w.len())));
            assert(w@.drop_first() =~= w@.subrange(1, w@.len() as int));
            proof { crate::strmap::lemma_insert_keeps_sorted(before, "class"@, w@.drop_first()); }
        } else {
            let p = find_char(w, 0, '=');
            if p < w.len() {
                let key = string_of(&slice_chars(w, 0, p));
                let value = unquote(string_of(&slice_chars(w, p + 1, w.len())).as_str());
                proof { crate::strmap::lemma_insert_keeps_sorted(before, key@, value@); }
                out.insert(key, value);
            }
        }
        assert(out@ == attr_step(before, w@));
        k = k + 1;
    }
    out
}

} // verus!
