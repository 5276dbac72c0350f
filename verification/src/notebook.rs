//! Relabeling notebook cells in place. A notebook's text is never
//! re-serialized: each code cell whose `#| label:` line names a label being
//! renamed has exactly that source string replaced, as JSON text, and every
//! other byte of the file stays as it was. Each replacement is searched for
//! only after the cell's own `"source"` key, so a copy of the same line
//! echoed earlier in the file (in an output, say) is never rewritten instead.
use vstd::prelude::*;
use serde_json::Value;
use crate::reader::lines::{lines_of, split_lines};
use crate::reader::fence::strs;
use crate::reader::{parse_cell_option, spec_option_pair, spec_unquote};
use crate::strmap::{map_get, EntriesView, StrMap};
use crate::text::{chars_of, has_at, has_at_exec, push_all, slice_chars, string_of};

verus! {

/// A cell's `source` as the JSON has it.
#[derive(Debug, Clone, PartialEq, Eq)]
pub enum CellSource {
    /// No `source` key.
    Missing,
    /// An array: each item's text, `None` for an item that is not a string.
    Lines(Vec<Option<String>>),
    /// A single string.
    Text(String),
    /// Any other JSON value.
    Other,
}

/// One notebook cell, as far as relabeling reads it.
#[derive(Debug, Clone, PartialEq, Eq)]
pub struct NotebookCell {
    /// The `cell_type` string, if the cell has one.
    pub cell_type: Option<String>,
    pub source: CellSource,
}

/// The notebook text is not JSON; `message` is the parser's.
#[derive(Debug, Clone, PartialEq, Eq)]
pub struct NotebookParseError {
    pub message: String,
}

pub enum SourceView {
    Missing,
    Lines(Seq<Option<Seq<char>>>),
    Text(Seq<char>),
    Other,
}

/// `(cell type, source)` of a cell.
pub type CellView = (Option<Seq<char>>, SourceView);

pub open spec fn opt_view(o: Option<String>) -> Option<Seq<char>> {
    match o {
        Some(s) => Some(s@),
        None => None,
    }
}

pub open spec fn source_view(s: CellSource) -> SourceView {
    match s {
        CellSource::Missing => SourceView::Missing,
        CellSource::Lines(items) => SourceView::Lines(items@.map_values(|i: Option<String>| opt_view(i))),
        CellSource::Text(t) => SourceView::Text(t@),
        CellSource::Other => SourceView::Other,
    }
}

pub open spec fn cell_view(c: NotebookCell) -> CellView {
    (opt_view(c.cell_type), source_view(c.source))
}

pub open spec fn cells_view(cs: Seq<NotebookCell>) -> Seq<CellView> {
    cs.map_values(|c: NotebookCell| cell_view(c))
}

/// The name for what `serde_json` reads of a notebook text: `None` when the
/// text is not JSON, else its `cells` array (`None` when there is none), each
/// cell's `cell_type` and `source`.
pub uninterp spec fn notebook_cells(text: Seq<char>) -> Option<Option<Seq<CellView>>>;

/// The lower-case hex digit of `n`, for `n` below 16.
pub open spec fn hex_digit(n: int) -> char {
    seq!['0', '1', '2', '3', '4', '5', '6', '7', '8', '9', 'a', 'b', 'c', 'd', 'e', 'f'][n]
}

/// One character as it stands inside a JSON string literal: `"` and `\`
/// escaped, the control characters below U+0020 escaped (backspace, form
/// feed, line feed, carriage return and tab by letter, the others as
/// `\u00XX` in lower-case hex), every other character as itself.
pub open spec fn json_escape(c: char) -> Seq<char> {
    if c == '"' {
        seq!['\\', '"']
    } else if c == '\\' {
        seq!['\\', '\\']
    } else if c == '\u{8}' {
        seq!['\\', 'b']
    } else if c == '\u{c}' {
        seq!['\\', 'f']
    } else if c == '\n' {
        seq!['\\', 'n']
    } else if c == '\r' {
        seq!['\\', 'r']
    } else if c == '\t' {
        seq!['\\', 't']
    } else if (c as int) < 0x20 {
        seq!['\\', 'u', '0', '0', hex_digit((c as int) / 16), hex_digit((c as int) % 16)]
    } else {
        seq![c]
    }
}

/// Every character of `s`, escaped as in a JSON string literal.
pub open spec fn json_escaped(s: Seq<char>) -> Seq<char>
    decreases s.len(),
{
    if s.len() == 0 {
        Seq::empty()
    } else {
        json_escaped(s.drop_last()) + json_escape(s.last())
    }
}

/// The JSON string literal of `s`, as `serde_json` writes it: the escaped
/// characters between double quotes.
pub open spec fn json_string_literal(s: Seq<char>) -> Seq<char> {
    seq!['"'] + json_escaped(s) + seq!['"']
}

/// Parses the notebook text with `serde_json::from_str` and takes out the
/// `cells` array's `cell_type` and `source` values, unchanged.
#[verifier::external_body]
pub(crate) fn read_cells(text: &str) -> (r: Result<Option<Vec<NotebookCell>>, NotebookParseError>)
    ensures
        match r {
            Ok(Some(cells)) => notebook_cells(text@) == Some(Some(cells_view(cells@))),
            Ok(None) => notebook_cells(text@) == Some(None::<Seq<CellView>>),
            Err(_) => notebook_cells(text@) is None,
        },
{
    let v: Value = serde_json::from_str(text).map_err(|e| NotebookParseError { message: e.to_string() })?;
    Ok(v.get("cells").and_then(|c| c.as_array()).map(|cells| cells.iter().map(|c| NotebookCell {
        cell_type: c.get("cell_type").and_then(|t| t.as_str()).map(String::from),
        source: match c.get("source") {
            None => CellSource::Missing,
            Some(Value::Array(items)) => CellSource::Lines(items.iter().map(|i| i.as_str().map(String::from)).collect()),
            Some(Value::String(s)) => CellSource::Text(s.clone()),
            Some(_) => CellSource::Other,
        },
    }).collect()))
}

/// Calls `serde_json::to_string` on a string, which cannot fail and writes
/// the string's JSON literal: its characters between double quotes, with
/// `"`, `\\` and the control characters escaped as serde_json's escape
/// table does.
#[verifier::external_body]
fn json_string(s: &str) -> (r: Vec<char>)
    ensures
        r@ == json_string_literal(s@),
{
    serde_json::to_string(s).unwrap_or_default().chars().collect()
}

/// The first index at or after `from` where `pat` occurs in `t`, or `-1`.
pub open spec fn find_from(t: Seq<char>, from: int, pat: Seq<char>) -> int
    decreases t.len() + 1 - from,
{
    if from < 0 || from + pat.len() > t.len() {
        -1
    } else if has_at(t, from, pat) {
        from
    } else {
        find_from(t, from + 1, pat)
    }
}

pub proof fn lemma_find_from(t: Seq<char>, from: int, pat: Seq<char>)
    requires
        0 <= from,
    ensures
        find_from(t, from, pat) == -1 || (from <= find_from(t, from, pat) && find_from(t, from, pat) + pat.len() <= t.len()
            && has_at(t, find_from(t, from, pat), pat)),
    decreases t.len() + 1 - from,
{
    if from + pat.len() <= t.len() && !has_at(t, from, pat) {
        lemma_find_from(t, from + 1, pat);
    }
}

/// `s` with its first occurrence of `pat` replaced by `rep` (`str::replacen`
/// with a count of one).
pub open spec fn replace_first(s: Seq<char>, pat: Seq<char>, rep: Seq<char>) -> Seq<char> {
    let p = find_from(s, 0, pat);
    if p < 0 {
        s
    } else {
        s.subrange(0, p) + rep + s.subrange(p + pat.len(), s.len() as int)
    }
}

/// `s` without its trailing newlines.
pub open spec fn trim_newlines(s: Seq<char>) -> Seq<char>
    decreases s.len(),
{
    if s.len() > 0 && s.last() == '\n' {
        trim_newlines(s.drop_last())
    } else {
        s
    }
}

/// The value of a `#| label:` cell-option line.
pub open spec fn label_value(line: Seq<char>) -> Option<Seq<char>> {
    match spec_option_pair(line) {
        Some((k, v)) => if k == "label"@ {
            Some(spec_unquote(v))
        } else {
            None
        },
        None => None,
    }
}

/// `(old, new)` when `line` is a label line naming a label being renamed.
pub open spec fn matching_rename(line: Seq<char>, renames: EntriesView) -> Option<(Seq<char>, Seq<char>)> {
    match label_value(trim_newlines(line)) {
        Some(v) => match map_get(renames, v) {
            Some(n) => Some((v, n)),
            None => None,
        },
        None => None,
    }
}

/// Replaces the JSON literal of `old` by that of `new`, at its first
/// occurrence at or after the search position, which then moves past the
/// replacement; nothing changes when there is no such occurrence.
pub open spec fn replace_source(st: (Seq<char>, int), old: Seq<char>, new: Seq<char>) -> (Seq<char>, int) {
    let oj = json_string_literal(old);
    let nj = json_string_literal(new);
    let p = find_from(st.0, st.1, oj);
    if p < 0 {
        st
    } else {
        (st.0.subrange(0, p) + nj + st.0.subrange(p + oj.len(), st.0.len() as int), p + nj.len())
    }
}

/// Relabels each string item of an array source that is a renamed label line.
pub open spec fn items_step(st: (Seq<char>, int), items: Seq<Option<Seq<char>>>, renames: EntriesView) -> (Seq<char>, int)
    decreases items.len(),
{
    if items.len() == 0 {
        st
    } else {
        let prev = items_step(st, items.drop_last(), renames);
        match items.last() {
            Some(line) => match matching_rename(line, renames) {
                Some((o, n)) => replace_source(prev, line, replace_first(line, o, n)),
                None => prev,
            },
            None => prev,
        }
    }
}

/// The rename of the first renamed label line among `ls[i..]`.
pub open spec fn first_match(ls: Seq<Seq<char>>, i: int, renames: EntriesView) -> Option<(Seq<char>, Seq<char>)>
    decreases ls.len() - i,
{
    if i < 0 || i >= ls.len() {
        None
    } else {
        match matching_rename(ls[i], renames) {
            Some(m) => Some(m),
            None => first_match(ls, i + 1, renames),
        }
    }
}

/// A single-string source: the first renamed label line decides the rename,
/// which is applied (once) to the whole string.
pub open spec fn text_step(st: (Seq<char>, int), full: Seq<char>, renames: EntriesView) -> (Seq<char>, int) {
    match first_match(lines_of(full), 0, renames) {
        Some((o, n)) => replace_source(st, full, replace_first(full, o, n)),
        None => st,
    }
}

/// One cell: only a code cell with a source is touched; the search first
/// moves to that cell's `"source"` key.
pub open spec fn cell_step(st: (Seq<char>, int), cell: CellView, renames: EntriesView) -> (Seq<char>, int) {
    if cell.0 != Some("code"@) {
        st
    } else {
        match cell.1 {
            SourceView::Missing => st,
            src => {
                let p = find_from(st.0, st.1, "\"source\""@);
                let st1 = if p >= 0 { (st.0, p) } else { st };
                match src {
                    SourceView::Lines(items) => items_step(st1, items, renames),
                    SourceView::Text(full) => text_step(st1, full, renames),
                    _ => st1,
                }
            },
        }
    }
}

/// Every cell in turn, from the start of the text.
pub open spec fn cells_step(st: (Seq<char>, int), cells: Seq<CellView>, renames: EntriesView) -> (Seq<char>, int)
    decreases cells.len(),
{
    if cells.len() == 0 {
        st
    } else {
        cell_step(cells_step(st, cells.drop_last(), renames), cells.last(), renames)
    }
}

/// What relabeling makes of a notebook text.
pub open spec fn spec_relabel(text: Seq<char>, renames: EntriesView) -> Option<Seq<char>> {
    match notebook_cells(text) {
        None => None,
        Some(None) => Some(text),
        Some(Some(cells)) => if renames.len() == 0 {
            Some(text)
        } else {
            Some(cells_step((text, 0), cells, renames).0)
        },
    }
}

fn find_from_exec(t: &Vec<char>, from: usize, pat: &Vec<char>) -> (r: Option<usize>)
    requires
        from <= t@.len(),
    ensures
        match r {
            Some(k) => k == find_from(t@, from as int, pat@),
            None => find_from(t@, from as int, pat@) == -1,
        },
{
    let mut i = from;
    loop
        invariant
            from <= i <= t@.len(),
            find_from(t@, from as int, pat@) == find_from(t@, i as int, pat@),
        decreases t@.len() - i,
    {
        if pat.len() > t.len() - i {
            return None;
        }
        if has_at_exec(t, i, pat) {
            return Some(i);
        }
        if pat.len() == 0 {
            assert(t@.subrange(i as int, i as int) =~= pat@);
        }
        i = i + 1;
    }
}

pub(crate) fn trim_newlines_exec(s: &str) -> (r: String)
    ensures
        r@ == trim_newlines(s@),
{
    let v = chars_of(s);
    let mut n = v.len();
    assert(v@.subrange(0, n as int) =~= v@);
    while n > 0 && v[n - 1] == '\n'
        invariant
            n <= v@.len(),
            trim_newlines(v@.subrange(0, n as int)) == trim_newlines(v@),
        decreases n,
    {
        assert(v@.subrange(0, n as int).drop_last() =~= v@.subrange(0, n - 1));
        n = n - 1;
    }
    string_of(&slice_chars(&v, 0, n))
}

fn matching_rename_exec(line: &str, renames: &StrMap) -> (r: Option<(String, String)>)
    ensures
        match r {
            Some((o, n)) => matching_rename(line@, renames@) == Some((o@, n@)),
            None => matching_rename(line@, renames@) is None,
        },
{
    proof { reveal_strlit("label"); }
    let trimmed = trim_newlines_exec(line);
    match parse_cell_option(trimmed.as_str(), "label") {
        Some(v) => match renames.get(v.as_str()) {
            Some(n) => Some((v, String::from_str(n.as_str()))),
            None => None,
        },
        None => None,
    }
}

fn replace_first_exec(s: &str, pat: &str, rep: &str) -> (r: String)
    ensures
        r@ == replace_first(s@, pat@, rep@),
{
    let v = chars_of(s);
    let p = chars_of(pat);
    let found = find_from_exec(&v, 0, &p);
    proof { lemma_find_from(v@, 0, p@); }
    let k = match found {
        Some(k) => k,
        None => return String::from_str(s),
    };
    assert(k as int == find_from(v@, 0, p@));
    let vl = v.len();
    assert(k + p@.len() <= vl);
    let mut out = slice_chars(&v, 0, k);
    push_all(&mut out, &chars_of(rep));
    push_all(&mut out, &slice_chars(&v, k + p.len(), v.len()));
    string_of(&out)
}

/// Replaces at the search position; `pos` is kept within the text.
fn replace_source_exec(out: &mut Vec<char>, pos: &mut usize, was: &str, now: &str)
    requires
        *old(pos) <= old(out)@.len(),
    ensures
        (final(out)@, *final(pos) as int) == replace_source((old(out)@, *old(pos) as int), was@, now@),
        *final(pos) <= final(out)@.len(),
{
    let oj = json_string(was);
    let nj = json_string(now);
    let found = find_from_exec(out, *pos, &oj);
    proof { lemma_find_from(out@, *pos as int, oj@); }
    let k = match found {
        Some(k) => k,
        None => return,
    };
    assert(k as int == find_from(out@, *pos as int, oj@));
    let ol = out.len();
    assert(k + oj@.len() <= ol);
    let mut next = slice_chars(out, 0, k);
    push_all(&mut next, &nj);
    let after = next.len();
    push_all(&mut next, &slice_chars(out, k + oj.len(), out.len()));
    *out = next;
    *pos = after;
}

/// Relabels the `#| label:` lines of a notebook's code cells by `renames`
/// (old label -> new label), changing only the source strings rewritten;
/// see the module documentation. A text that is not JSON is an error,
/// whatever the renames; with no renames a JSON text is returned untouched.
pub fn relabel(text: &str, renames: &StrMap) -> (r: Result<String, NotebookParseError>)
    ensures
        match spec_relabel(text@, renames@) {
            Some(t) => r matches Ok(s) && s@ == t,
            None => r is Err,
        },
{
    let cells = match read_cells(text) {
        Err(e) => return Err(e),
        Ok(None) => return Ok(String::from_str(text)),
        Ok(Some(cells)) => cells,
    };
    if renames.len() == 0 {
        return Ok(String::from_str(text));
    }
    let ghost rv = renames@;
    let ghost cv = cells_view(cells@);
    let mut out = chars_of(text);
    let mut pos: usize = 0;
    let mut c: usize = 0;
    while c < cells.len()
        invariant
            c <= cells@.len(),
            rv == renames@,
            cv == cells_view(cells@),
            (out@, pos as int) == cells_step((text@, 0), cv.subrange(0, c as int), rv),
            pos <= out@.len(),
        decreases cells.len() - c,
    {
        assert(cv.subrange(0, c + 1).drop_last() =~= cv.subrange(0, c as int));
        assert(cv.subrange(0, c + 1).last() == cell_view(cells@[c as int]));
        relabel_cell(&cells[c], renames, &mut out, &mut pos);
        c = c + 1;
    }
    assert(cv.subrange(0, c as int) =~= cv);
    Ok(string_of(&out))
}

fn relabel_cell(cell: &NotebookCell, renames: &StrMap, out: &mut Vec<char>, pos: &mut usize)
    requires
        *old(pos) <= old(out)@.len(),
    ensures
        (final(out)@, *final(pos) as int) == cell_step((old(out)@, *old(pos) as int), cell_view(*cell), renames@),
        *final(pos) <= final(out)@.len(),
{
    proof { reveal_strlit("code"); reveal_strlit("\"source\""); }
    let is_code = match &cell.cell_type {
        Some(t) => crate::text::str_eq(t.as_str(), "code"),
        None => false,
    };
    if !is_code {
        return;
    }
    if let CellSource::Missing = &cell.source {
        return;
    }
    let key = chars_of("\"source\"");
    let found = find_from_exec(out, *pos, &key);
    proof { lemma_find_from(out@, *pos as int, key@); }
    if let Some(k) = found {
        *pos = k;
    }
    match &cell.source {
        CellSource::Lines(items) => {
            let ghost st1 = (out@, *pos as int);
            let ghost iv = items@.map_values(|i: Option<String>| opt_view(i));
            let mut j: usize = 0;
            while j < items.len()
                invariant
                    j <= items@.len(),
                    iv == items@.map_values(|i: Option<String>| opt_view(i)),
                    (out@, *pos as int) == items_step(st1, iv.subrange(0, j as int), renames@),
                    *pos <= out@.len(),
                decreases items.len() - j,
            {
                assert(iv.subrange(0, j + 1).drop_last() =~= iv.subrange(0, j as int));
                assert(iv.subrange(0, j + 1).last() == opt_view(items@[j as int]));
                if let Some(line) = &items[j] {
                    if let Some((o, n)) = matching_rename_exec(line.as_str(), renames) {
                        let new_line = replace_first_exec(line.as_str(), o.as_str(), n.as_str());
                        replace_source_exec(out, pos, line.as_str(), new_line.as_str());
                    }
                }
                j = j + 1;
            }
            assert(iv.subrange(0, j as int) =~= iv);
        },
        CellSource::Text(full) => {
            let ls = split_lines(full.as_str());
            let ghost lv = strs(ls@);
            let mut j: usize = 0;
            let mut found: Option<(String, String)> = None;
            while j < ls.len() && found.is_none()
                invariant
                    j <= ls@.len(),
                    lv == strs(ls@),
                    lv == lines_of(full@),
                    match found {
                        Some((o, n)) => first_match(lv, 0, renames@) == Some((o@, n@)),
                        None => first_match(lv, 0, renames@) == first_match(lv, j as int, renames@),
                    },
                decreases ls.len() - j,
            {
                assert(lv[j as int] == ls@[j as int]@);
                found = matching_rename_exec(ls[j].as_str(), renames);
                j = j + 1;
            }
            match found {
                Some((o, n)) => {
                    let new_full = replace_first_exec(full.as_str(), o.as_str(), n.as_str());
                    replace_source_exec(out, pos, full.as_str(), new_full.as_str());
                },
                None => {},
            }
        },
        _ => {},
    }
}


/// The source lines a cell's labels are read from: a string source split
/// into lines, or an array's string items without their trailing newlines.
pub open spec fn source_lines(src: SourceView) -> Seq<Seq<char>> {
    match src {
        SourceView::Text(t) => lines_of(t),
        SourceView::Lines(items) => string_items(items),
        _ => Seq::empty(),
    }
}

/// The string items of an array source, trailing newlines removed.
pub open spec fn string_items(items: Seq<Option<Seq<char>>>) -> Seq<Seq<char>>
    decreases items.len(),
{
    if items.len() == 0 {
        Seq::empty()
    } else {
        string_items(items.drop_last()) + match items.last() {
            Some(l) => seq![trim_newlines(l)],
            None => Seq::empty(),
        }
    }
}

/// The source lines of a cell.
pub fn cell_source_lines(cell: &NotebookCell) -> (r: Vec<String>)
    ensures
        strs(r@) == source_lines(cell_view(*cell).1),
{
    match &cell.source {
        CellSource::Text(t) => split_lines(t.as_str()),
        CellSource::Lines(items) => {
            let ghost iv = items@.map_values(|i: Option<String>| opt_view(i));
            let mut out: Vec<String> = Vec::new();
            let mut j: usize = 0;
            while j < items.len()
                invariant
                    j <= items@.len(),
                    iv == items@.map_values(|i: Option<String>| opt_view(i)),
                    strs(out@) == string_items(iv.subrange(0, j as int)),
                decreases items.len() - j,
            {
                assert(iv.subrange(0, j + 1).drop_last() =~= iv.subrange(0, j as int));
                assert(iv.subrange(0, j + 1).last() == opt_view(items@[j as int]));
                if let Some(line) = &items[j] {
                    out.push(trim_newlines_exec(line.as_str()));
                }
                assert(strs(out@) =~= string_items(iv.subrange(0, j + 1)));
                j = j + 1;
            }
            assert(iv.subrange(0, j as int) =~= iv);
            out
        },
        _ => {
            let out: Vec<String> = Vec::new();
            assert(strs(out@) =~= Seq::<Seq<char>>::empty());
            out
        },
    }
}

} // verus!
