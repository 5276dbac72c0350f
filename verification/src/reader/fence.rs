//! Fence recognition shared by the readers.
use vstd::prelude::*;
use crate::strmap::{map_insert, EntriesView, StrMap};
use crate::text::{all_eq, any_ws, any_ws_exec, chars_of, find_char, first_of, has_at, has_at_exec, indent_end, indent_end_exec, run_end, run_end_exec, skip_ws_exec, slice_chars, string_of, trim, trim_chars, trim_start};

verus! {

/// The characters of each string, in order.
pub open spec fn strs(v: Seq<String>) -> Seq<Seq<char>> {
    v.map_values(|s: String| s@)
}

/// The characters of each string slice, in order.
pub open spec fn strs_ref(v: Seq<&str>) -> Seq<Seq<char>> {
    v.map_values(|s: &str| s@)
}

/// A MyST directive opening fence: `` ```{name} argument `` or `:::{name} argument`.
#[derive(Debug, Clone, PartialEq, Eq)]
pub struct DirectiveOpen {
    pub indent: usize,
    pub fence_char: char,
    pub fence_count: usize,
    pub name: String,
    pub argument: String,
}

/// `(indent, fence_char, fence_count, name, argument)`.
pub type OpenView = (int, char, int, Seq<char>, Seq<char>);

impl DirectiveOpen {
    pub open spec fn view_tuple(&self) -> OpenView {
        (self.indent as int, self.fence_char, self.fence_count as int, self.name@, self.argument@)
    }
}

/// A whole MyST directive: its opening fence, its `:key: value` options, its
/// body lines (indent stripped), and the original source lines.
#[derive(Debug, Clone, PartialEq, Eq)]
pub struct DirectiveFrame {
    pub open: DirectiveOpen,
    pub options: StrMap,
    pub body: Vec<String>,
    pub original: Vec<String>,
    pub start_line: u32,
    pub end_line: u32,
}

/// A Quarto div opening fence: `::: {attrs}`.
#[derive(Debug, Clone, PartialEq, Eq)]
pub struct QuartoDivOpen {
    pub indent: usize,
    pub fence_count: usize,
    pub attrs: String,
}

/// A Quarto executable code fence: `` ```{lang} ``.
#[derive(Debug, Clone, PartialEq, Eq)]
pub struct QuartoCodeOpen {
    pub indent: usize,
    pub fence_count: usize,
    pub lang: String,
}

/// The number of leading spaces and tabs.
pub open spec fn indent_of(s: Seq<char>) -> int {
    indent_end(s, 0)
}

/// `line` with at most `indent` leading spaces/tabs removed.
pub open spec fn strip_indent_spec(s: Seq<char>, indent: int) -> Seq<char> {
    let e = indent_end(s, 0);
    s.subrange(if e < indent { e } else { indent }, s.len() as int)
}

/// `{name} argument` after a run of at least three `fc`.
pub open spec fn spec_braced_open(line: Seq<char>, fc: char) -> Option<OpenView> {
    let t = trim_start(line);
    let count = run_end(t, 0, fc);
    if count < 3 || !(count < t.len() && t[count] == '{') {
        None
    } else {
        let rest = t.subrange(count + 1, t.len() as int);
        let close = first_of(rest, 0, '}');
        if close >= rest.len() {
            None
        } else {
            let name = trim(rest.subrange(0, close));
            if name.len() == 0 {
                None
            } else {
                Some(
                    (
                        indent_of(line),
                        fc,
                        count,
                        name,
                        trim(rest.subrange(close + 1, rest.len() as int)),
                    ),
                )
            }
        }
    }
}

/// A backtick directive fence, else a colon one.
pub open spec fn spec_myst_open(line: Seq<char>) -> Option<OpenView> {
    match spec_braced_open(line, '`') {
        Some(o) => Some(o),
        None => spec_braced_open(line, ':'),
    }
}

/// `(indent, fence_count, lang)` of a `` ```{lang} `` line with nothing after the brace.
pub open spec fn spec_quarto_code_open(line: Seq<char>) -> Option<(int, int, Seq<char>)> {
    let t = trim_start(line);
    let count = run_end(t, 0, '`');
    if count < 3 || !(count < t.len() && t[count] == '{') {
        None
    } else {
        let rest = t.subrange(count + 1, t.len() as int);
        let close = first_of(rest, 0, '}');
        if close >= rest.len() || trim(rest.subrange(close + 1, rest.len() as int)).len() != 0 {
            None
        } else {
            Some((indent_of(line), count, trim(rest.subrange(0, close))))
        }
    }
}

/// `(fence_char, count, indent, lang)` of a plain `` ``` `` or `~~~` fence.
pub open spec fn spec_regular_code_open(line: Seq<char>) -> Option<
    (char, int, int, Option<Seq<char>>),
> {
    let t = trim_start(line);
    if t.len() == 0 || (t[0] != '`' && t[0] != '~') {
        None
    } else {
        let count = run_end(t, 0, t[0]);
        if count < 3 || has_at(t, 0, "```{"@) {
            None
        } else {
            let lang = trim(t.subrange(count, t.len() as int));
            Some(
                (
                    t[0],
                    count,
                    indent_of(line),
                    if lang.len() == 0 {
                        None
                    } else {
                        Some(lang)
                    },
                ),
            )
        }
    }
}

/// The text after a run of at least three colons, with leading whitespace removed.
pub open spec fn div_rest(line: Seq<char>) -> Seq<char> {
    let t = trim_start(line);
    trim_start(t.subrange(run_end(t, 0, ':'), t.len() as int))
}

/// Lines on which the div-fence parser would slice past its own end: a colon
/// fence followed by a lone `{`.
pub open spec fn div_open_degenerate(line: Seq<char>) -> bool {
    let t = trim_start(line);
    run_end(t, 0, ':') >= 3 && div_rest(line) == seq!['{']
}

/// `(indent, fence_count, attrs)` of a `::: {attrs}` line.
pub open spec fn spec_quarto_div_open(line: Seq<char>) -> Option<(int, int, Seq<char>)> {
    let t = trim_start(line);
    let count = run_end(t, 0, ':');
    let rest = div_rest(line);
    if count < 3 || !(rest.len() > 0 && rest[0] == '{' && rest[rest.len() - 1] == '}') {
        None
    } else {
        Some((indent_of(line), count, trim(rest.subrange(1, rest.len() - 1))))
    }
}

/// A closing fence: no deeper indent than the opener, and nothing but at
/// least `count` copies of `fc` once trimmed.
pub open spec fn spec_is_close(line: Seq<char>, fc: char, count: int, indent: int) -> bool {
    let s = trim(line);
    &&& indent_of(line) <= indent
    &&& s.len() > 0
    &&& all_eq(s, fc)
    &&& s.len() >= count
}

/// `:key: value` with a non-empty key that holds no whitespace.
pub open spec fn spec_myst_option(line: Seq<char>) -> Option<(Seq<char>, Seq<char>)> {
    if line.len() > 0 && line[0] == ':' {
        let rest = line.subrange(1, line.len() as int);
        let p = first_of(rest, 0, ':');
        if p >= rest.len() {
            None
        } else {
            let key = rest.subrange(0, p);
            if key.len() == 0 || any_ws(key) {
                None
            } else {
                Some((key, trim(rest.subrange(p + 1, rest.len() as int))))
            }
        }
    } else {
        None
    }
}

/// The option/body split after one more directive content line.
pub open spec fn scan_step(
    state: (bool, EntriesView, Seq<Seq<char>>),
    content: Seq<char>,
) -> (bool, EntriesView, Seq<Seq<char>>) {
    let (in_options, opts, body) = state;
    if in_options {
        match spec_myst_option(trim(content)) {
            Some((k, v)) => (true, map_insert(opts, k, v), body),
            None => if trim(content).len() == 0 {
                (false, opts, body)
            } else {
                (false, opts, body.push(content))
            },
        }
    } else {
        (false, opts, body.push(content))
    }
}

/// `(in_options, options, body)` after the lines strictly between `start` and `i`.
pub open spec fn scan_state(lines: Seq<Seq<char>>, start: int, indent: int, i: int) -> (
    bool,
    EntriesView,
    Seq<Seq<char>>,
)
    decreases i - start,
{
    if i <= start + 1 {
        (true, Seq::empty(), Seq::empty())
    } else {
        scan_step(
            scan_state(lines, start, indent, i - 1),
            strip_indent_spec(lines[i - 1], indent),
        )
    }
}

/// The first line at or after `i` that closes the fence, or the length.
pub open spec fn close_from(lines: Seq<Seq<char>>, i: int, fc: char, count: int, indent: int) -> int
    decreases lines.len() - i,
{
    if i < 0 || i >= lines.len() {
        lines.len() as int
    } else if spec_is_close(lines[i], fc, count, indent) {
        i
    } else {
        close_from(lines, i + 1, fc, count, indent)
    }
}

/// The body never holds more lines than lie strictly between the opening
/// line and `i`.
pub proof fn lemma_scan_state_len(lines: Seq<Seq<char>>, start: int, indent: int, i: int)
    ensures
        scan_state(lines, start, indent, i).2.len() <= if i > start + 1 { i - start - 1 } else { 0 },
    decreases i - start,
{
    if i > start + 1 {
        lemma_scan_state_len(lines, start, indent, i - 1);
    }
}

/// The options read so far are in key order.
pub proof fn lemma_scan_state_sorted(lines: Seq<Seq<char>>, start: int, indent: int, i: int)
    ensures
        crate::strmap::keys_sorted(scan_state(lines, start, indent, i).1),
    decreases i - start,
{
    if i > start + 1 {
        lemma_scan_state_sorted(lines, start, indent, i - 1);
        let st = scan_state(lines, start, indent, i - 1);
        let content = strip_indent_spec(lines[i - 1], indent);
        if st.0 {
            match spec_myst_option(trim(content)) {
                Some((k, v)) => crate::strmap::lemma_insert_keeps_sorted(st.1, k, v),
                None => {},
            }
        }
    } else {
        assert(scan_state(lines, start, indent, i).1 =~= Seq::<(Seq<char>, Seq<char>)>::empty());
    }
}

pub proof fn lemma_close_from(lines: Seq<Seq<char>>, i: int, fc: char, count: int, indent: int)
    requires
        0 <= i <= lines.len(),
    ensures
        i <= close_from(lines, i, fc, count, indent) <= lines.len(),
        close_from(lines, i, fc, count, indent) < lines.len() ==> spec_is_close(
            lines[close_from(lines, i, fc, count, indent)],
            fc,
            count,
            indent,
        ),
    decreases lines.len() - i,
{
    if i < lines.len() && !spec_is_close(lines[i], fc, count, indent) {
        lemma_close_from(lines, i + 1, fc, count, indent);
    }
}

fn count_indent(v: &Vec<char>) -> (n: usize)
    ensures
        n == indent_of(v@),
        n <= v@.len(),
{
    indent_end_exec(v, 0)
}

fn strip_indent(v: &Vec<char>, indent: usize) -> (r: Vec<char>)
    ensures
        r@ == strip_indent_spec(v@, indent as int),
{
    let e = indent_end_exec(v, 0);
    let k = if e < indent { e } else { indent };
    slice_chars(v, k, v.len())
}

fn trimmed_start(v: &Vec<char>) -> (t: Vec<char>)
    ensures
        t@ == trim_start(v@),
{
    let a = skip_ws_exec(v, 0);
    slice_chars(v, a, v.len())
}

fn parse_braced_open(line: &str, fence_char: char) -> (r: Option<DirectiveOpen>)
    ensures
        match r {
            Some(o) => spec_braced_open(line@, fence_char) == Some(o.view_tuple()),
            None => spec_braced_open(line@, fence_char) is None,
        },
{
    let v = chars_of(line);
    let indent = count_indent(&v);
    let t = trimmed_start(&v);
    let count = run_end_exec(&t, 0, fence_char);
    if count < 3 || !(count < t.len() && t[count] == '{') {
        return None;
    }
    let rest = slice_chars(&t, count + 1, t.len());
    let close = find_char(&rest, 0, '}');
    if close >= rest.len() {
        return None;
    }
    let name = trim_chars(&slice_chars(&rest, 0, close));
    if name.len() == 0 {
        return None;
    }
    let argument = trim_chars(&slice_chars(&rest, close + 1, rest.len()));
    Some(
        DirectiveOpen {
            indent,
            fence_char,
            fence_count: count,
            name: string_of(&name),
            argument: string_of(&argument),
        },
    )
}

/// Recognizes a MyST directive opening fence.
pub fn parse_myst_open(line: &str) -> (r: Option<DirectiveOpen>)
    ensures
        match r {
            Some(o) => spec_myst_open(line@) == Some(o.view_tuple()),
            None => spec_myst_open(line@) is None,
        },
{
    match parse_braced_open(line, '`') {
        Some(o) => Some(o),
        None => parse_braced_open(line, ':'),
    }
}

/// Recognizes a Quarto executable code fence `` ```{lang} ``.
pub fn parse_quarto_code_open(line: &str) -> (r: Option<QuartoCodeOpen>)
    ensures
        match r {
            Some(o) => spec_quarto_code_open(line@) == Some(
                (o.indent as int, o.fence_count as int, o.lang@),
            ),
            None => spec_quarto_code_open(line@) is None,
        },
{
    let v = chars_of(line);
    let indent = count_indent(&v);
    let t = trimmed_start(&v);
    let count = run_end_exec(&t, 0, '`');
    if count < 3 || !(count < t.len() && t[count] == '{') {
        return None;
    }
    let rest = slice_chars(&t, count + 1, t.len());
    let close = find_char(&rest, 0, '}');
    if close >= rest.len() {
        return None;
    }
    let after = trim_chars(&slice_chars(&rest, close + 1, rest.len()));
    if after.len() != 0 {
        return None;
    }
    let lang = trim_chars(&slice_chars(&rest, 0, close));
    Some(QuartoCodeOpen { indent, fence_count: count, lang: string_of(&lang) })
}

/// Recognizes a plain code fence: `(fence_char, count, indent, lang)`.
pub fn parse_regular_code_open(line: &str) -> (r: Option<(char, usize, usize, Option<String>)>)
    ensures
        match r {
            Some((c, n, ind, lang)) => spec_regular_code_open(line@) == Some(
                (
                    c,
                    n as int,
                    ind as int,
                    match lang {
                        Some(l) => Some(l@),
                        None => None,
                    },
                ),
            ),
            None => spec_regular_code_open(line@) is None,
        },
{
    let v = chars_of(line);
    let indent = count_indent(&v);
    let t = trimmed_start(&v);
    if t.len() == 0 || (t[0] != '`' && t[0] != '~') {
        return None;
    }
    let first = t[0];
    let count = run_end_exec(&t, 0, first);
    let brace = chars_of("```{");
    if count < 3 || has_at_exec(&t, 0, &brace) {
        return None;
    }
    let lang = trim_chars(&slice_chars(&t, count, t.len()));
    let lang_opt = if lang.len() == 0 {
        None
    } else {
        Some(string_of(&lang))
    };
    Some((first, count, indent, lang_opt))
}

/// `true` on a colon fence followed by a lone `{`, which no div reading can
/// handle.
pub fn div_open_degenerate_exec(line: &str) -> (r: bool)
    ensures
        r == div_open_degenerate(line@),
{
    let v = chars_of(line);
    let t = trimmed_start(&v);
    let count = run_end_exec(&t, 0, ':');
    if count < 3 {
        return false;
    }
    let rest = trimmed_start(&slice_chars(&t, count, t.len()));
    let r = rest.len() == 1 && rest[0] == '{';
    proof {
        if r {
            assert(rest@ =~= seq!['{']);
        }
    }
    r
}

/// Recognizes a Quarto div fence `::: {attrs}`.
pub fn parse_quarto_div_open(line: &str) -> (r: Option<QuartoDivOpen>)
    ensures
        match r {
            Some(o) => spec_quarto_div_open(line@) == Some(
                (o.indent as int, o.fence_count as int, o.attrs@),
            ),
            None => spec_quarto_div_open(line@) is None,
        },
{
    let v = chars_of(line);
    let indent = count_indent(&v);
    let t = trimmed_start(&v);
    let count = run_end_exec(&t, 0, ':');
    if count < 3 {
        return None;
    }
    let rest = trimmed_start(&slice_chars(&t, count, t.len()));
    if !(rest.len() > 0 && rest[0] == '{' && rest[rest.len() - 1] == '}') {
        return None;
    }
    if rest.len() < 2 {
        assert(rest@ =~= seq!['{']);
        return None;
    }
    let attrs = trim_chars(&slice_chars(&rest, 1, rest.len() - 1));
    Some(QuartoDivOpen { indent, fence_count: count, attrs: string_of(&attrs) })
}

#[verifier::loop_isolation(false)]
fn is_close_chars(v: &Vec<char>, fence_char: char, fence_count: usize, indent: usize) -> (r: bool)
    ensures
        r == spec_is_close(v@, fence_char, fence_count as int, indent as int),
{
    let current = count_indent(v);
    if current > indent {
        return false;
    }
    let s = trim_chars(v);
    if s.len() == 0 {
        return false;
    }
    let mut k: usize = 0;
    while k < s.len()
        invariant
            k <= s@.len(),
            forall|m: int| 0 <= m < k ==> s@[m] == fence_char,
        decreases s.len() - k,
    {
        if s[k] != fence_char {
            assert(s@[k as int] != fence_char);
            return false;
        }
        k = k + 1;
    }
    s.len() >= fence_count
}

/// A closing fence for an opener of `fence_count` copies of `fence_char` at `indent`.
pub fn is_close(line: &str, fence_char: char, fence_count: usize, indent: usize) -> (r: bool)
    ensures
        r == spec_is_close(line@, fence_char, fence_count as int, indent as int),
{
    let v = chars_of(line);
    is_close_chars(&v, fence_char, fence_count, indent)
}

/// A closing colon fence (three or more colons).
pub fn is_colon_close(line: &str, indent: usize) -> (r: bool)
    ensures
        r == spec_is_close(line@, ':', 3, indent as int),
{
    is_close(line, ':', 3, indent)
}

fn parse_myst_option(v: &Vec<char>) -> (r: Option<(String, String)>)
    ensures
        match r {
            Some((k, val)) => spec_myst_option(v@) == Some((k@, val@)),
            None => spec_myst_option(v@) is None,
        },
{
    if !(v.len() > 0 && v[0] == ':') {
        return None;
    }
    let rest = slice_chars(v, 1, v.len());
    let p = find_char(&rest, 0, ':');
    if p >= rest.len() {
        return None;
    }
    let key = slice_chars(&rest, 0, p);
    if key.len() == 0 || any_ws_exec(&key) {
        return None;
    }
    let value = trim_chars(&slice_chars(&rest, p + 1, rest.len()));
    Some((string_of(&key), string_of(&value)))
}

/// The state after reading one directive line, for the loop below.
fn step_frame(
    in_options: &mut bool,
    options: &mut StrMap,
    body: &mut Vec<String>,
    content: &Vec<char>,
)
    ensures
        (*final(in_options), final(options)@, strs(final(body)@)) == scan_step(
            (*old(in_options), old(options)@, strs(old(body)@)),
            content@,
        ),
{
    if *in_options {
        let tc = trim_chars(content);
        match parse_myst_option(&tc) {
            Some((key, value)) => {
                options.insert(key, value);
                return;
            },
            None => {},
        }
        *in_options = false;
        if tc.len() == 0 {
            return;
        }
    }
    let s = string_of(content);
    body.push(s);
    assert(strs(body@) =~= strs(old(body)@).push(content@));
}

/// Reads the MyST directive whose opening fence is `lines[start]`, up to its
/// closing fence (or the end of `lines` when it is never closed).
pub fn take_myst_directive(lines: &[&str], start: usize, line_no: u32) -> (r: Option<
    DirectiveFrame,
>)
    requires
        start < lines@.len(),
        line_no + (lines@.len() - start) <= u32::MAX,
    ensures
        ({
            let ls = strs_ref(lines@);
            match r {
                None => spec_myst_open(ls[start as int]) is None,
                Some(f) => {
                    let o = spec_myst_open(ls[start as int]);
                    let c = close_from(
                        ls,
                        start + 1,
                        f.open.fence_char,
                        f.open.fence_count as int,
                        f.open.indent as int,
                    );
                    let st = scan_state(ls, start as int, f.open.indent as int, c);
                    &&& o == Some(f.open.view_tuple())
                    &&& f.options@ == st.1
                    &&& strs(f.body@) == st.2
                    &&& f.start_line == line_no
                    &&& c < ls.len() ==> strs(f.original@) == ls.subrange(start as int, c + 1)
                        && f.end_line == line_no + (c - start)
                    &&& c == ls.len() ==> strs(f.original@) == ls.subrange(start as int, c)
                        && f.end_line == line_no + (c - start - 1)
                }
            }
        }),
{
    let ghost ls = strs_ref(lines@);
    assert(ls[start as int] == lines@[start as int]@);
    let open = match parse_myst_open(lines[start]) {
        Some(o) => o,
        None => return None,
    };
    let mut options = StrMap::new();
    let mut body: Vec<String> = Vec::new();
    let mut original: Vec<String> = Vec::new();
    original.push(String::from_str(lines[start]));
    let mut i = start + 1;
    let mut in_options = true;
    proof {
        lemma_close_from(ls, start + 1, open.fence_char, open.fence_count as int, open.indent as int);
        assert(strs(original@) =~= ls.subrange(start as int, i as int));
    }
    while i < lines.len()
        invariant
            start < i <= lines@.len(),
            ls == strs_ref(lines@),
            line_no + (lines@.len() - start) <= u32::MAX,
            spec_myst_open(ls[start as int]) == Some(open.view_tuple()),
            close_from(ls, start + 1, open.fence_char, open.fence_count as int, open.indent as int)
                == close_from(ls, i as int, open.fence_char, open.fence_count as int, open.indent as int),
            (in_options, options@, strs(body@)) == scan_state(ls, start as int, open.indent as int, i as int),
            strs(original@) == ls.subrange(start as int, i as int),
        decreases lines.len() - i,
    {
        let line = lines[i];
        let ghost prev = original@;
        original.push(String::from_str(line));
        proof {
            assert(ls[i as int] == lines@[i as int]@);
            assert(strs(original@) =~= strs(prev).push(ls[i as int]));
            assert(strs(original@) =~= ls.subrange(start as int, i + 1));
        }
        let v = chars_of(line);
        if is_close_chars(&v, open.fence_char, open.fence_count, open.indent) {
            let end_line = line_no + (i - start) as u32;
            assert(v@ == ls[i as int]);
            assert(close_from(ls, i as int, open.fence_char, open.fence_count as int, open.indent as int) == i);
            return Some(
                DirectiveFrame {
                    open,
                    options,
                    body,
                    original,
                    start_line: line_no,
                    end_line,
                },
            );
        }
        let content = strip_indent(&v, open.indent);
        step_frame(&mut in_options, &mut options, &mut body, &content);
        i = i + 1;
    }
    let end_line = line_no + (lines.len() - start - 1) as u32;
    Some(DirectiveFrame { open, options, body, original, start_line: line_no, end_line })
}

/// Reads a plain fenced block opened at `lines[start]`: its body, the original
/// lines, and the index of the closing fence (or of the last line).
pub fn take_fenced_body(
    lines: &[&str],
    start: usize,
    fence_char: char,
    fence_count: usize,
    indent: usize,
) -> (r: (Vec<String>, Vec<String>, usize))
    requires
        start < lines@.len(),
    ensures
        ({
            let ls = strs_ref(lines@);
            let c = close_from(ls, start + 1, fence_char, fence_count as int, indent as int);
            &&& strs(r.0@) == ls.subrange(start + 1, c)
            &&& c < ls.len() ==> strs(r.1@) == ls.subrange(start as int, c + 1) && r.2 == c
            &&& c == ls.len() ==> strs(r.1@) == ls.subrange(start as int, c) && r.2 == c - 1
        }),
{
    let ghost ls = strs_ref(lines@);
    let mut body: Vec<String> = Vec::new();
    let mut original: Vec<String> = Vec::new();
    original.push(String::from_str(lines[start]));
    let mut i = start + 1;
    proof {
        assert(ls[start as int] == lines@[start as int]@);
        lemma_close_from(ls, start + 1, fence_char, fence_count as int, indent as int);
        assert(strs(original@) =~= ls.subrange(start as int, i as int));
        assert(strs(body@) =~= ls.subrange(start + 1, i as int));
    }
    while i < lines.len()
        invariant
            start < i <= lines@.len(),
            ls == strs_ref(lines@),
            close_from(ls, start + 1, fence_char, fence_count as int, indent as int) == close_from(
                ls,
                i as int,
                fence_char,
                fence_count as int,
                indent as int,
            ),
            strs(body@) == ls.subrange(start + 1, i as int),
            strs(original@) == ls.subrange(start as int, i as int),
        decreases lines.len() - i,
    {
        let ghost prev = original@;
        original.push(String::from_str(lines[i]));
        proof {
            assert(ls[i as int] == lines@[i as int]@);
            assert(strs(original@) =~= strs(prev).push(ls[i as int]));
            assert(strs(original@) =~= ls.subrange(start as int, i + 1));
        }
        if is_close(lines[i], fence_char, fence_count, indent) {
            return (body, original, i);
        }
        let ghost prevb = body@;
        body.push(String::from_str(lines[i]));
        proof {
            assert(strs(body@) =~= strs(prevb).push(ls[i as int]));
            assert(strs(body@) =~= ls.subrange(start + 1, i + 1));
        }
        i = i + 1;
    }
    (body, original, lines.len() - 1)
}

} // verus!
