//! Splitting text into lines the way `str::lines` does, and finding a
//! page's frontmatter block.
use vstd::prelude::*;
use crate::reader::fence::strs;
use crate::text::{chars_of, find_char, first_of, lemma_first_of, slice_chars, string_of};

verus! {

/// A line's trailing `\r`, removed.
pub open spec fn strip_cr(p: Seq<char>) -> Seq<char> {
    if p.len() > 0 && p.last() == '\r' {
        p.drop_last()
    } else {
        p
    }
}

/// The lines of `s[i..]`: split at each `\n`, a `\r` before it dropped, and
/// no empty line after a final `\n`.
pub open spec fn lines_from(s: Seq<char>, i: int) -> Seq<Seq<char>>
    decreases s.len() - i,
    via lines_from_decreases
{
    if i < 0 || i >= s.len() {
        Seq::empty()
    } else {
        let j = first_of(s, i, '\n');
        let p = s.subrange(i, j);
        if j < s.len() {
            seq![strip_cr(p)] + lines_from(s, j + 1)
        } else {
            seq![p]
        }
    }
}

#[via_fn]
proof fn lines_from_decreases(s: Seq<char>, i: int) {
    if 0 <= i < s.len() {
        lemma_first_of(s, i, '\n');
    }
}

/// No line is longer than the text it came from.
pub proof fn lemma_lines_short(s: Seq<char>, i: int)
    ensures
        forall|k: int| 0 <= k < lines_from(s, i).len() ==> (#[trigger] lines_from(s, i)[k]).len() <= s.len(),
    decreases s.len() - i,
{
    if 0 <= i < s.len() {
        lemma_first_of(s, i, '\n');
        let j = first_of(s, i, '\n');
        if j < s.len() {
            lemma_lines_short(s, j + 1);
            let rest = lines_from(s, j + 1);
            assert forall|k: int| 0 <= k < lines_from(s, i).len() implies (#[trigger] lines_from(s, i)[k]).len() <= s.len() by {
                if k > 0 {
                    assert(lines_from(s, i)[k] == rest[k - 1]);
                }
            }
        }
    }
}

/// `str::lines`.
pub open spec fn lines_of(s: Seq<char>) -> Seq<Seq<char>> {
    lines_from(s, 0)
}

/// Splits text into lines as `str::lines` does.
pub fn split_lines(text: &str) -> (r: Vec<String>)
    ensures
        strs(r@) == lines_of(text@),
{
    let v = chars_of(text);
    let mut out: Vec<String> = Vec::new();
    let mut i: usize = 0;
    assert(strs(out@) =~= Seq::<Seq<char>>::empty());
    while i < v.len()
        invariant
            i <= v@.len(),
            v@ == text@,
            strs(out@) + lines_from(v@, i as int) == lines_of(v@),
        decreases v.len() - i,
    {
        let j = find_char(&v, i, '\n');
        proof {
            lemma_first_of(v@, i as int, '\n');
        }
        let mut hi = j;
        if j < v.len() && j > i && v[j - 1] == '\r' {
            hi = j - 1;
        }
        let piece = slice_chars(&v, i, hi);
        let ghost p = v@.subrange(i as int, j as int);
        assert(piece@ == if j < v@.len() { strip_cr(p) } else { p }) by {
            if j < v@.len() && j > i && v@[j - 1] == '\r' {
                assert(piece@ =~= p.drop_last());
            } else {
                assert(piece@ =~= p);
            }
        }
        let ghost prev = strs(out@);
        out.push(string_of(&piece));
        assert(strs(out@) =~= prev.push(piece@));
        if j < v.len() {
            assert(lines_from(v@, i as int) =~= seq![piece@] + lines_from(v@, j + 1));
            assert(strs(out@) + lines_from(v@, j + 1) =~= prev + lines_from(v@, i as int));
        } else {
            assert(lines_from(v@, i as int) =~= seq![piece@]);
            assert(lines_from(v@, v@.len() as int) =~= Seq::<Seq<char>>::empty());
            assert(strs(out@) + lines_from(v@, v@.len() as int) =~= prev + lines_from(v@, i as int));
        }
        i = if j < v.len() { j + 1 } else { v.len() };
    }
    assert(lines_from(v@, i as int) =~= Seq::<Seq<char>>::empty());
    assert(strs(out@) =~= strs(out@) + lines_from(v@, i as int));
    out
}

/// The index of the first line at or after `i` that is exactly `---`, or
/// the number of lines.
pub open spec fn fence_line_from(lines: Seq<Seq<char>>, i: int) -> int
    decreases lines.len() - i,
{
    if i < 0 || i >= lines.len() {
        lines.len() as int
    } else if lines[i] == "---"@ {
        i
    } else {
        fence_line_from(lines, i + 1)
    }
}

proof fn lemma_fence_line_from(lines: Seq<Seq<char>>, i: int)
    requires
        0 <= i <= lines.len(),
    ensures
        i <= fence_line_from(lines, i) <= lines.len(),
        fence_line_from(lines, i) < lines.len() ==> lines[fence_line_from(lines, i)] == "---"@,
    decreases lines.len() - i,
{
    if i < lines.len() && lines[i] != "---"@ {
        lemma_fence_line_from(lines, i + 1);
    }
}

/// Where a page's frontmatter sits: `Some(end)` when the first line is
/// `---` and a later line `end` is `---` too.
pub open spec fn frontmatter_end(lines: Seq<Seq<char>>) -> Option<int> {
    if lines.len() > 0 && lines[0] == "---"@ {
        let e = fence_line_from(lines, 1);
        if e < lines.len() {
            Some(e)
        } else {
            None
        }
    } else {
        None
    }
}

/// The lines joined with a `\n` after each one.
pub open spec fn join_terminated(v: Seq<Seq<char>>) -> Seq<char>
    decreases v.len(),
{
    if v.len() == 0 {
        Seq::empty()
    } else {
        join_terminated(v.drop_last()) + v.last() + seq!['\n']
    }
}

/// Splits a page into its frontmatter text (the lines between the two
/// `---` lines, each followed by `\n`), the index of the first body line,
/// and that line's 1-based number. With no complete `---` block the whole
/// page is body, starting at line 1.
/// The frontmatter text of a page: the lines between its opening and
/// closing `---`, each ended with a newline; none when the page has none.
pub open spec fn frontmatter_text(text: Seq<char>) -> Option<Seq<char>> {
    match frontmatter_end(lines_of(text)) {
        Some(e) => Some(crate::preserve::join_lines(lines_of(text).subrange(1, e)) + seq!['\n']),
        None => None,
    }
}

/// What reading a page's frontmatter gives: nothing without frontmatter; its
/// text with the mapping it holds; `None` (an error) when that text is not a
/// YAML mapping.
pub open spec fn frontmatter_read(text: Seq<char>, fm: Option<crate::ir::Frontmatter>) -> bool {
    match frontmatter_text(text) {
        None => fm is None,
        Some(raw) => match crate::yaml::yaml_mapping(raw) {
            None => false,
            Some(fields) => fm matches Some(f) && f.raw@ == raw && f.parsed@ == crate::yaml::YamlView::Dict(fields),
        },
    }
}

/// Whether a page's frontmatter, when it has one, is a YAML mapping.
pub open spec fn frontmatter_readable(text: Seq<char>) -> bool {
    match frontmatter_text(text) {
        None => true,
        Some(raw) => crate::yaml::yaml_mapping(raw) is Some,
    }
}

pub fn split_frontmatter(lines: &Vec<String>) -> (r: (Option<String>, usize, u32))
    ensures
        match frontmatter_end(strs(lines@)) {
            Some(e) => {
                &&& r.0 matches Some(raw) && raw@ == crate::preserve::join_lines(strs(lines@).subrange(1, e)) + seq!['\n']
                &&& r.1 == e + 1
                &&& r.2 == if e + 2 <= u32::MAX { e + 2 } else { u32::MAX as int }
            },
            None => r.0 is None && r.1 == 0 && r.2 == 1,
        },
{
    proof {
        reveal_strlit("---");
    }
    let ghost ls = strs(lines@);
    let dashes = String::from_str("---");
    if lines.len() == 0 || !(lines[0] == dashes) {
        assert(lines@.len() > 0 ==> ls[0] == lines@[0]@);
        return (None, 0, 1);
    }
    assert(ls[0] == lines@[0]@);
    proof {
        lemma_fence_line_from(ls, 1);
    }
    let mut e: usize = 1;
    while e < lines.len() && !(lines[e] == dashes)
        invariant
            1 <= e <= lines@.len(),
            ls == strs(lines@),
            dashes@ == "---"@,
            fence_line_from(ls, 1) == fence_line_from(ls, e as int),
        decreases lines.len() - e,
    {
        assert(ls[e as int] == lines@[e as int]@);
        e = e + 1;
    }
    if e >= lines.len() {
        return (None, 0, 1);
    }
    assert(ls[e as int] == lines@[e as int]@);
    let mut joined = crate::preserve::join_chars(&lines.as_slice()[1..e]);
    joined.push('\n');
    assert(strs(lines@.subrange(1, e as int)) =~= ls.subrange(1, e as int));
    let start_line: u32 = if e <= 4294967293usize { (e + 2) as u32 } else { 4294967295u32 };
    (Some(string_of(&joined)), e + 1, start_line)
}

} // verus!
