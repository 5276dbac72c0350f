//! Single-pass inline recognizer used by readers for type-aware decisions.
use vstd::prelude::*;
use crate::reader::fence::strs;
use crate::reader::mask::{mask_code_spans, mask_from, unmask_upto, MaskedText};
use crate::text::{
    chars_of, eq_chars, find_char, first_of, has_at, has_at_exec, is_alphanumeric, is_ws,
    lemma_first_of, push_all, skip_ws_exec, slice_chars, string_of, trim, trim_chars,
    trim_start, unicode_alphanumeric,
};

verus! {

/// One inline construct found on a line.
#[derive(Debug, Clone, PartialEq, Eq)]
pub enum InlineEvent {
    Citation(String),
    CrossReference(String),
    LegacyRole { role: String, target: String },
    JupyterEval { engine: String, expr: String },
    KnitrEval(String),
}

/// The mathematical content of an [`InlineEvent`].
pub enum EventView {
    Citation(Seq<char>),
    CrossReference(Seq<char>),
    LegacyRole(Seq<char>, Seq<char>),
    JupyterEval(Seq<char>, Seq<char>),
    KnitrEval(Seq<char>),
}

impl View for InlineEvent {
    type V = EventView;

    open spec fn view(&self) -> EventView {
        match self {
            InlineEvent::Citation(k) => EventView::Citation(k@),
            InlineEvent::CrossReference(k) => EventView::CrossReference(k@),
            InlineEvent::LegacyRole { role, target } => EventView::LegacyRole(role@, target@),
            InlineEvent::JupyterEval { engine, expr } => EventView::JupyterEval(engine@, expr@),
            InlineEvent::KnitrEval(e) => EventView::KnitrEval(e@),
        }
    }
}

/// The events found on one line, in order.
#[derive(Debug, Clone, Default, PartialEq, Eq)]
pub struct InlineScan {
    pub events: Vec<InlineEvent>,
}

/// The views of a list of events.
pub open spec fn events_view(v: Seq<InlineEvent>) -> Seq<EventView> {
    v.map_values(|e: InlineEvent| e@)
}

/// A character that may appear in a citation key or reference label.
pub open spec fn key_char(c: char) -> bool {
    unicode_alphanumeric(c) || c == ':' || c == '-' || c == '_' || c == '.' || c == '/'
}

/// End of the run of key characters that starts at `i`.
pub open spec fn key_run(s: Seq<char>, i: int) -> int
    decreases s.len() - i,
{
    if 0 <= i < s.len() && key_char(s[i]) {
        key_run(s, i + 1)
    } else {
        i
    }
}

/// Trailing sentence punctuation that never ends a key.
pub open spec fn key_punct(c: char) -> bool {
    c == '.' || c == ',' || c == ';' || c == ':'
}

/// End of `s.take(j)` with trailing key punctuation removed.
pub open spec fn punct_end(s: Seq<char>, j: int) -> int
    decreases j,
{
    if 0 < j <= s.len() && key_punct(s[j - 1]) {
        punct_end(s, j - 1)
    } else {
        j
    }
}

/// End of `s.take(j)` with trailing slashes removed.
pub open spec fn slash_end(s: Seq<char>, j: int) -> int
    decreases j,
{
    if 0 < j <= s.len() && s[j - 1] == '/' {
        slash_end(s, j - 1)
    } else {
        j
    }
}

/// End of the run of `-` that starts at `i`.
pub open spec fn dash_run(s: Seq<char>, i: int) -> int
    decreases s.len() - i,
{
    if 0 <= i < s.len() && s[i] == '-' {
        dash_run(s, i + 1)
    } else {
        i
    }
}

/// The first `p >= from` with `s[p] == a` and `s[p + 1] == b`, or the length.
pub open spec fn find_pair(s: Seq<char>, from: int, a: char, b: char) -> int
    decreases s.len() - from,
{
    if from < 0 || from + 1 >= s.len() {
        s.len() as int
    } else if s[from] == a && s[from + 1] == b {
        from
    } else {
        find_pair(s, from + 1, a, b)
    }
}

/// The key at the start of `c`: its key characters, less trailing punctuation.
pub open spec fn key_candidate(c: Seq<char>) -> Option<Seq<char>> {
    let k = c.subrange(0, key_run(c, 0));
    let k2 = k.subrange(0, punct_end(k, k.len() as int));
    if k2.len() == 0 {
        None
    } else {
        Some(k2)
    }
}

/// The key of the first part of a bracket citation: `@key`, `-@key` (the
/// part after `[@`/`[-@`, so leading dashes are dropped).
pub open spec fn first_part_key(part: Seq<char>) -> Option<Seq<char>> {
    let t = trim_start(part);
    key_candidate(t.subrange(dash_run(t, 0), t.len() as int))
}

/// The key of a later part of a bracket citation: whatever follows its `@`.
pub open spec fn later_part_key(part: Seq<char>) -> Option<Seq<char>> {
    let a = first_of(part, 0, '@');
    if a >= part.len() {
        None
    } else {
        key_candidate(trim_start(part.subrange(a + 1, part.len() as int)))
    }
}

/// The keys of the `;`-separated parts of `seg` starting at `from`.
pub open spec fn cite_keys_from(seg: Seq<char>, from: int, first: bool) -> Seq<Seq<char>>
    decreases seg.len() - from,
{
    if from < 0 || from > seg.len() {
        Seq::empty()
    } else {
        let p = first_of(seg, from, ';');
        proof {
            lemma_first_of(seg, from, ';');
        }
        let part = seg.subrange(from, p);
        let key = if first {
            first_part_key(part)
        } else {
            later_part_key(part)
        };
        let here = match key {
            Some(k) => seq![k],
            None => Seq::empty(),
        };
        if p >= seg.len() {
            here
        } else {
            here + cite_keys_from(seg, p + 1, false)
        }
    }
}

/// `[@a; @b]` or `[-@a]` at the start of `rest`: its length and its keys.
pub open spec fn spec_bracket_citation(rest: Seq<char>) -> Option<(int, Seq<Seq<char>>)> {
    let plen: int = if has_at(rest, 0, seq!['[', '@']) {
        2
    } else if has_at(rest, 0, seq!['[', '-', '@']) {
        3
    } else {
        0
    };
    if plen == 0 {
        None
    } else {
        let tail = rest.subrange(plen, rest.len() as int);
        let end = first_of(tail, 0, ']');
        if end >= tail.len() {
            None
        } else {
            let keys = cite_keys_from(tail.subrange(0, end), 0, true);
            if keys.len() == 0 {
                None
            } else {
                Some((end + plen + 1, keys))
            }
        }
    }
}

/// `` {role}`target` `` at the start of `rest`.
pub open spec fn spec_legacy_role(rest: Seq<char>) -> Option<(int, EventView)> {
    if rest.len() > 0 && rest[0] == '{' {
        let tail = rest.subrange(1, rest.len() as int);
        let close = find_pair(tail, 0, '}', '`');
        if close >= tail.len() {
            None
        } else {
            let after = close + 2;
            let e = first_of(tail, after, '`');
            if e >= tail.len() {
                None
            } else {
                Some(
                    (
                        e + 2,
                        EventView::LegacyRole(
                            tail.subrange(0, close),
                            tail.subrange(after, e),
                        ),
                    ),
                )
            }
        }
    } else {
        None
    }
}

/// `` `{engine} expr` `` at the start of `rest`.
pub open spec fn spec_braced_eval(rest: Seq<char>) -> Option<(int, EventView)> {
    if has_at(rest, 0, seq!['`', '{']) {
        let tail = rest.subrange(2, rest.len() as int);
        let close = first_of(tail, 0, '}');
        if close >= tail.len() {
            None
        } else {
            let e = first_of(tail, close + 1, '`');
            if e >= tail.len() {
                None
            } else {
                Some(
                    (
                        e + 3,
                        EventView::JupyterEval(
                            tail.subrange(0, close),
                            trim(tail.subrange(close + 1, e)),
                        ),
                    ),
                )
            }
        }
    } else {
        None
    }
}

/// `` `r expr` `` at the start of `rest`.
pub open spec fn spec_knitr_eval(rest: Seq<char>) -> Option<(int, EventView)> {
    if has_at(rest, 0, seq!['`', 'r', ' ']) {
        let tail = rest.subrange(3, rest.len() as int);
        let e = first_of(tail, 0, '`');
        if e >= tail.len() {
            None
        } else {
            Some((e + 4, EventView::KnitrEval(tail.subrange(0, e))))
        }
    } else {
        None
    }
}

/// The MyST cross-reference prefixes that mark `@prefix:name` as a reference.
pub open spec fn crossref_prefix(key: Seq<char>) -> bool {
    let p = first_of(key, 0, ':');
    p < key.len() && {
        let pre = key.subrange(0, p);
        pre == "fig"@ || pre == "tbl"@ || pre == "tab"@ || pre == "eq"@ || pre == "sec"@ || pre
            == "nb"@ || pre == "thm"@
    }
}

/// The key of `@key`: key characters, less trailing punctuation and slashes.
pub open spec fn at_key(tail: Seq<char>) -> Seq<char> {
    let k = tail.subrange(0, key_run(tail, 0));
    let k2 = k.subrange(0, punct_end(k, k.len() as int));
    k2.subrange(0, slash_end(k2, k2.len() as int))
}

/// `@key` at the start of `rest`: a cross-reference when the key is a known
/// label or carries a cross-reference prefix, else a citation.
pub open spec fn spec_at_reference(rest: Seq<char>, known: Seq<Seq<char>>) -> Option<
    (int, EventView),
> {
    if rest.len() > 0 && rest[0] == '@' {
        let tail = rest.subrange(1, rest.len() as int);
        if key_run(tail, 0) == 0 {
            None
        } else {
            let key = at_key(tail);
            Some(
                (
                    1 + key.len() as int,
                    if known.contains(key) || crossref_prefix(key) {
                        EventView::CrossReference(key)
                    } else {
                        EventView::Citation(key)
                    },
                ),
            )
        }
    } else {
        None
    }
}

/// The first of the single-event matchers that applies, in priority order.
pub open spec fn spec_single_event(rest: Seq<char>, known: Seq<Seq<char>>) -> Option<
    (int, EventView),
> {
    match spec_legacy_role(rest) {
        Some(r) => Some(r),
        None => match spec_braced_eval(rest) {
            Some(r) => Some(r),
            None => match spec_knitr_eval(rest) {
                Some(r) => Some(r),
                None => spec_at_reference(rest, known),
            },
        },
    }
}

pub proof fn lemma_matchers_advance(rest: Seq<char>, known: Seq<Seq<char>>)
    ensures
        spec_bracket_citation(rest) matches Some((n, _)) ==> 1 <= n <= rest.len(),
        spec_single_event(rest, known) matches Some((n, _)) ==> 1 <= n <= rest.len(),
{
    if rest.len() > 0 {
        let t1 = rest.subrange(1, rest.len() as int);
        lemma_first_of(t1, 0, ']');
        lemma_find_pair(t1, 0, '}', '`');
        let close = find_pair(t1, 0, '}', '`');
        if close < t1.len() {
            lemma_first_of(t1, close + 2, '`');
        }
        lemma_key_run(t1, 0);
        lemma_punct_end(t1.subrange(0, key_run(t1, 0)), key_run(t1, 0));
        let k = t1.subrange(0, key_run(t1, 0));
        let k2 = k.subrange(0, punct_end(k, k.len() as int));
        lemma_slash_end(k2, k2.len() as int);
    }
    if rest.len() >= 2 {
        let t2 = rest.subrange(2, rest.len() as int);
        lemma_first_of(t2, 0, ']');
        lemma_first_of(t2, 0, '}');
        let c = first_of(t2, 0, '}');
        if c < t2.len() {
            lemma_first_of(t2, c + 1, '`');
        }
    }
    if rest.len() >= 3 {
        let t3 = rest.subrange(3, rest.len() as int);
        lemma_first_of(t3, 0, ']');
        lemma_first_of(t3, 0, '`');
    }
}

pub proof fn lemma_find_pair(s: Seq<char>, from: int, a: char, b: char)
    requires
        0 <= from,
    ensures
        from <= find_pair(s, from, a, b) <= s.len() || find_pair(s, from, a, b) == s.len(),
        find_pair(s, from, a, b) < s.len() ==> find_pair(s, from, a, b) + 1 < s.len()
            && s[find_pair(s, from, a, b)] == a && s[find_pair(s, from, a, b) + 1] == b,
        forall|k: int|
            from <= k < find_pair(s, from, a, b) && k + 1 < s.len() ==> !(#[trigger] s[k] == a
                && s[k + 1] == b),
    decreases s.len() - from,
{
    if from + 1 < s.len() && !(s[from] == a && s[from + 1] == b) {
        lemma_find_pair(s, from + 1, a, b);
    }
}

pub proof fn lemma_key_run(s: Seq<char>, i: int)
    requires
        0 <= i <= s.len(),
    ensures
        i <= key_run(s, i) <= s.len(),
        key_run(s, i) < s.len() ==> !key_char(s[key_run(s, i)]),
        forall|k: int| i <= k < key_run(s, i) ==> key_char(#[trigger] s[k]),
    decreases s.len() - i,
{
    if i < s.len() && key_char(s[i]) {
        lemma_key_run(s, i + 1);
    }
}

pub proof fn lemma_punct_end(s: Seq<char>, j: int)
    requires
        0 <= j <= s.len(),
    ensures
        0 <= punct_end(s, j) <= j,
    decreases j,
{
    if j > 0 && key_punct(s[j - 1]) {
        lemma_punct_end(s, j - 1);
    }
}

pub proof fn lemma_slash_end(s: Seq<char>, j: int)
    requires
        0 <= j <= s.len(),
    ensures
        0 <= slash_end(s, j) <= j,
    decreases j,
{
    if j > 0 && s[j - 1] == '/' {
        lemma_slash_end(s, j - 1);
    }
}

pub proof fn lemma_dash_run(s: Seq<char>, i: int)
    requires
        0 <= i <= s.len(),
    ensures
        i <= dash_run(s, i) <= s.len(),
    decreases s.len() - i,
{
    if i < s.len() && s[i] == '-' {
        lemma_dash_run(s, i + 1);
    }
}

/// The events found scanning `t` from `i`.
pub open spec fn scan_from(t: Seq<char>, i: int, known: Seq<Seq<char>>) -> Seq<EventView>
    decreases t.len() - i,
{
    if i < 0 || i >= t.len() {
        Seq::empty()
    } else {
        let rest = t.subrange(i, t.len() as int);
        proof {
            lemma_matchers_advance(rest, known);
        }
        match spec_bracket_citation(rest) {
            Some((n, keys)) => keys.map_values(|k: Seq<char>| EventView::Citation(k)) + scan_from(
                t,
                i + n,
                known,
            ),
            None => match spec_single_event(rest, known) {
                Some((n, ev)) => seq![ev] + scan_from(t, i + n, known),
                None => scan_from(t, i + 1, known),
            },
        }
    }
}

} // verus!

verus! {

fn key_run_exec(v: &Vec<char>, i: usize) -> (r: usize)
    requires
        i <= v@.len(),
    ensures
        r == key_run(v@, i as int),
        i <= r <= v@.len(),
{
    proof { lemma_key_run(v@, i as int); }
    let mut k = i;
    while k < v.len() && (is_alphanumeric(v[k]) || v[k] == ':' || v[k] == '-' || v[k] == '_'
        || v[k] == '.' || v[k] == '/')
        invariant
            i <= k <= v@.len(),
            key_run(v@, k as int) == key_run(v@, i as int),
        decreases v.len() - k,
    {
        k = k + 1;
    }
    k
}

fn punct_end_exec(v: &Vec<char>, j: usize) -> (r: usize)
    requires
        j <= v@.len(),
    ensures
        r == punct_end(v@, j as int),
        r <= j,
{
    proof { lemma_punct_end(v@, j as int); }
    let mut k = j;
    while k > 0 && (v[k - 1] == '.' || v[k - 1] == ',' || v[k - 1] == ';' || v[k - 1] == ':')
        invariant
            k <= j <= v@.len(),
            punct_end(v@, k as int) == punct_end(v@, j as int),
        decreases k,
    {
        k = k - 1;
    }
    k
}

fn slash_end_exec(v: &Vec<char>, j: usize) -> (r: usize)
    requires
        j <= v@.len(),
    ensures
        r == slash_end(v@, j as int),
        r <= j,
{
    proof { lemma_slash_end(v@, j as int); }
    let mut k = j;
    while k > 0 && v[k - 1] == '/'
        invariant
            k <= j <= v@.len(),
            slash_end(v@, k as int) == slash_end(v@, j as int),
        decreases k,
    {
        k = k - 1;
    }
    k
}

fn dash_run_exec(v: &Vec<char>, i: usize) -> (r: usize)
    requires
        i <= v@.len(),
    ensures
        r == dash_run(v@, i as int),
        i <= r <= v@.len(),
{
    proof { lemma_dash_run(v@, i as int); }
    let mut k = i;
    while k < v.len() && v[k] == '-'
        invariant
            i <= k <= v@.len(),
            dash_run(v@, k as int) == dash_run(v@, i as int),
        decreases v.len() - k,
    {
        k = k + 1;
    }
    k
}

fn find_pair_exec(v: &Vec<char>, from: usize, a: char, b: char) -> (r: usize)
    requires
        from <= v@.len(),
    ensures
        r == find_pair(v@, from as int, a, b),
{
    proof { lemma_find_pair(v@, from as int, a, b); }
    let mut k = from;
    while k < v.len() && k + 1 < v.len() && !(v[k] == a && v[k + 1] == b)
        invariant
            from <= k <= v@.len(),
            find_pair(v@, k as int, a, b) == find_pair(v@, from as int, a, b),
        decreases v.len() - k,
    {
        k = k + 1;
    }
    if k >= v.len() || k + 1 >= v.len() {
        v.len()
    } else {
        k
    }
}

fn citation_key_from_candidate(c: &Vec<char>) -> (r: Option<String>)
    ensures
        match r {
            Some(k) => key_candidate(c@) == Some(k@),
            None => key_candidate(c@) is None,
        },
{
    let n = key_run_exec(c, 0);
    let k = slice_chars(c, 0, n);
    let e = punct_end_exec(&k, k.len());
    if e == 0 {
        return None;
    }
    Some(string_of(&slice_chars(&k, 0, e)))
}

fn trimmed_start(v: &Vec<char>) -> (t: Vec<char>)
    ensures
        t@ == trim_start(v@),
{
    let a = skip_ws_exec(v, 0);
    slice_chars(v, a, v.len())
}

fn citation_key_from_first_part(part: &Vec<char>) -> (r: Option<String>)
    ensures
        match r {
            Some(k) => first_part_key(part@) == Some(k@),
            None => first_part_key(part@) is None,
        },
{
    let t = trimmed_start(part);
    let d = dash_run_exec(&t, 0);
    citation_key_from_candidate(&slice_chars(&t, d, t.len()))
}

fn citation_key_from_part(part: &Vec<char>) -> (r: Option<String>)
    ensures
        match r {
            Some(k) => later_part_key(part@) == Some(k@),
            None => later_part_key(part@) is None,
        },
{
    let a = find_char(part, 0, '@');
    if a >= part.len() {
        return None;
    }
    citation_key_from_candidate(&trimmed_start(&slice_chars(part, a + 1, part.len())))
}

fn cite_keys(seg: &Vec<char>) -> (keys: Vec<String>)
    ensures
        strs(keys@) == cite_keys_from(seg@, 0, true),
{
    let mut keys: Vec<String> = Vec::new();
    let mut from: usize = 0;
    let mut first = true;
    let mut done = false;
    while !done
        invariant
            from <= seg@.len(),
            done ==> cite_keys_from(seg@, 0, true) == strs(keys@),
            !done ==> cite_keys_from(seg@, 0, true) == strs(keys@) + cite_keys_from(
                seg@,
                from as int,
                first,
            ),
        decreases seg@.len() - from + (if done { 0int } else { 1int }),
    {
        proof { lemma_first_of(seg@, from as int, ';'); }
        let p = find_char(seg, from, ';');
        let part = slice_chars(seg, from, p);
        let key = if first {
            citation_key_from_first_part(&part)
        } else {
            citation_key_from_part(&part)
        };
        let ghost prev = keys@;
        match key {
            Some(k) => {
                keys.push(k);
            },
            None => {},
        }
        proof {
            let kk = if first { first_part_key(part@) } else { later_part_key(part@) };
            let here = match kk {
                Some(x) => seq![x],
                None => Seq::<Seq<char>>::empty(),
            };
            assert(strs(keys@) =~= strs(prev) + here);
        }
        if p >= seg.len() {
            done = true;
            assert(cite_keys_from(seg@, 0, true) =~= strs(keys@));
        } else {
            assert(strs(keys@) + cite_keys_from(seg@, p + 1, false) =~= strs(prev) + cite_keys_from(seg@, from as int, first));
            from = p + 1;
            first = false;
        }
    }
    keys
}

fn read_bracket_citation(rest: &Vec<char>) -> (r: Option<(usize, Vec<String>)>)
    ensures
        match r {
            Some((n, keys)) => spec_bracket_citation(rest@) == Some((n as int, strs(keys@))),
            None => spec_bracket_citation(rest@) is None,
        },
{
    let plen: usize = if has_at_exec(rest, 0, &['[', '@']) {
        2
    } else if has_at_exec(rest, 0, &['[', '-', '@']) {
        3
    } else {
        0
    };
    if plen == 0 {
        return None;
    }
    let tail = slice_chars(rest, plen, rest.len());
    let end = find_char(&tail, 0, ']');
    if end >= tail.len() {
        return None;
    }
    let keys = cite_keys(&slice_chars(&tail, 0, end));
    if keys.len() == 0 {
        return None;
    }
    Some((end + plen + 1, keys))
}

fn read_legacy_role(rest: &Vec<char>) -> (r: Option<(usize, InlineEvent)>)
    ensures
        match r {
            Some((n, e)) => spec_legacy_role(rest@) == Some((n as int, e@)),
            None => spec_legacy_role(rest@) is None,
        },
{
    if !(rest.len() > 0 && rest[0] == '{') {
        return None;
    }
    let tail = slice_chars(rest, 1, rest.len());
    let close = find_pair_exec(&tail, 0, '}', '`');
    proof { lemma_find_pair(tail@, 0, '}', '`'); }
    if close >= tail.len() {
        return None;
    }
    let after = close + 2;
    let e = find_char(&tail, after, '`');
    if e >= tail.len() {
        return None;
    }
    let role = string_of(&slice_chars(&tail, 0, close));
    let target = string_of(&slice_chars(&tail, after, e));
    Some((e + 2, InlineEvent::LegacyRole { role, target }))
}

fn read_braced_eval(rest: &Vec<char>) -> (r: Option<(usize, InlineEvent)>)
    ensures
        match r {
            Some((n, e)) => spec_braced_eval(rest@) == Some((n as int, e@)),
            None => spec_braced_eval(rest@) is None,
        },
{
    if !has_at_exec(rest, 0, &['`', '{']) {
        return None;
    }
    let tail = slice_chars(rest, 2, rest.len());
    let close = find_char(&tail, 0, '}');
    if close >= tail.len() {
        return None;
    }
    let e = find_char(&tail, close + 1, '`');
    if e >= tail.len() {
        return None;
    }
    let engine = string_of(&slice_chars(&tail, 0, close));
    let expr = string_of(&trim_chars(&slice_chars(&tail, close + 1, e)));
    Some((e + 3, InlineEvent::JupyterEval { engine, expr }))
}

fn read_knitr_eval(rest: &Vec<char>) -> (r: Option<(usize, InlineEvent)>)
    ensures
        match r {
            Some((n, e)) => spec_knitr_eval(rest@) == Some((n as int, e@)),
            None => spec_knitr_eval(rest@) is None,
        },
{
    if !has_at_exec(rest, 0, &['`', 'r', ' ']) {
        return None;
    }
    let tail = slice_chars(rest, 3, rest.len());
    let e = find_char(&tail, 0, '`');
    if e >= tail.len() {
        return None;
    }
    Some((e + 4, InlineEvent::KnitrEval(string_of(&slice_chars(&tail, 0, e)))))
}

fn has_crossref_prefix(key: &Vec<char>) -> (r: bool)
    ensures
        r == crossref_prefix(key@),
{
    let p = find_char(key, 0, ':');
    if p >= key.len() {
        return false;
    }
    let pre = slice_chars(key, 0, p);
    eq_chars(&pre, &chars_of("fig")) || eq_chars(&pre, &chars_of("tbl")) || eq_chars(
        &pre,
        &chars_of("tab"),
    ) || eq_chars(&pre, &chars_of("eq")) || eq_chars(&pre, &chars_of("sec")) || eq_chars(
        &pre,
        &chars_of("nb"),
    ) || eq_chars(&pre, &chars_of("thm"))
}

fn contains_label(known: &[String], key: &String) -> (r: bool)
    ensures
        r == strs(known@).contains(key@),
{
    let mut k: usize = 0;
    while k < known.len()
        invariant
            k <= known@.len(),
            forall|m: int| 0 <= m < k ==> known@[m]@ != key@,
        decreases known.len() - k,
    {
        if known[k] == *key {
            assert(strs(known@)[k as int] == key@);
            return true;
        }
        k = k + 1;
    }
    assert forall|m: int| 0 <= m < strs(known@).len() implies strs(known@)[m] != key@ by {
        assert(strs(known@)[m] == known@[m]@);
    }
    false
}

fn read_at_reference(rest: &Vec<char>, known: &[String]) -> (r: Option<(usize, InlineEvent)>)
    ensures
        match r {
            Some((n, e)) => spec_at_reference(rest@, strs(known@)) == Some((n as int, e@)),
            None => spec_at_reference(rest@, strs(known@)) is None,
        },
{
    if !(rest.len() > 0 && rest[0] == '@') {
        return None;
    }
    let tail = slice_chars(rest, 1, rest.len());
    let n = key_run_exec(&tail, 0);
    if n == 0 {
        return None;
    }
    let k = slice_chars(&tail, 0, n);
    let e = punct_end_exec(&k, k.len());
    let k2 = slice_chars(&k, 0, e);
    let s = slash_end_exec(&k2, k2.len());
    let key_chars = slice_chars(&k2, 0, s);
    let key = string_of(&key_chars);
    let len = 1 + key_chars.len();
    if contains_label(known, &key) || has_crossref_prefix(&key_chars) {
        Some((len, InlineEvent::CrossReference(key)))
    } else {
        Some((len, InlineEvent::Citation(key)))
    }
}

fn read_single_event(rest: &Vec<char>, known: &[String]) -> (r: Option<(usize, InlineEvent)>)
    ensures
        match r {
            Some((n, e)) => spec_single_event(rest@, strs(known@)) == Some((n as int, e@)),
            None => spec_single_event(rest@, strs(known@)) is None,
        },
{
    match read_legacy_role(rest) {
        Some(r) => return Some(r),
        None => {},
    }
    match read_braced_eval(rest) {
        Some(r) => return Some(r),
        None => {},
    }
    match read_knitr_eval(rest) {
        Some(r) => return Some(r),
        None => {},
    }
    read_at_reference(rest, known)
}

/// Scans a line once for citation, cross-reference, legacy role, and
/// executable inline-code forms. Code spans are masked first, so examples
/// that discuss syntax are left alone.
pub fn scan_line(line: &str, known_labels: &[String]) -> (r: InlineScan)
    requires
        line@.len() < i64::MAX,
    ensures
        events_view(r.events@) == scan_from(mask_from(line@, 0, 0).0, 0, strs(known_labels@)),
{
    let masked = mask_code_spans(line);
    let t = chars_of(masked.text_str());
    let ghost known = strs(known_labels@);
    let mut events: Vec<InlineEvent> = Vec::new();
    let mut i: usize = 0;
    while i < t.len()
        invariant
            i <= t@.len(),
            known == strs(known_labels@),
            scan_from(t@, 0, known) == events_view(events@) + scan_from(t@, i as int, known),
        decreases t.len() - i,
    {
        let rest = slice_chars(&t, i, t.len());
        proof {
            lemma_matchers_advance(rest@, known);
        }
        let ghost prev = events_view(events@);
        match read_bracket_citation(&rest) {
            Some((n, keys)) => {
                let mut k: usize = 0;
                while k < keys.len()
                    invariant
                        k <= keys@.len(),
                        events_view(events@) == prev + strs(keys@).subrange(0, k as int).map_values(
                            |x: Seq<char>| EventView::Citation(x),
                        ),
                    decreases keys.len() - k,
                {
                    let ghost before = events_view(events@);
                    events.push(InlineEvent::Citation(keys[k].clone()));
                    assert(strs(keys@)[k as int] == keys@[k as int]@);
                    assert(events_view(events@) =~= before.push(EventView::Citation(keys@[k as int]@)));
                    assert(events_view(events@) =~= prev + strs(keys@).subrange(0, k + 1).map_values(
                        |x: Seq<char>| EventView::Citation(x),
                    ));
                    k = k + 1;
                }
                assert(strs(keys@).subrange(0, keys@.len() as int) =~= strs(keys@));
                assert(events_view(events@) + scan_from(t@, (i + n) as int, known) =~= prev
                    + scan_from(t@, i as int, known));
                i = i + n;
            },
            None => match read_single_event(&rest, known_labels) {
                Some((n, ev)) => {
                    events.push(ev);
                    assert(events_view(events@) + scan_from(t@, (i + n) as int, known) =~= prev
                        + scan_from(t@, i as int, known));
                    i = i + n;
                },
                None => {
                    i = i + 1;
                },
            },
        }
    }
    assert(events_view(events@) =~= events_view(events@) + scan_from(t@, i as int, known));
    InlineScan { events }
}

} // verus!

verus! {

/// The pieces `rewrite_line` cuts the masked text `t[i..]` into: each piece's
/// original text, and the event a writer may re-render it as (`None` for text
/// that is always copied: plain characters, bracket citations, and `@key`
/// citations).
pub open spec fn segments_from(t: Seq<char>, i: int, known: Seq<Seq<char>>) -> Seq<
    (Seq<char>, Option<EventView>),
>
    decreases t.len() - i,
{
    if i < 0 || i >= t.len() {
        Seq::empty()
    } else {
        let rest = t.subrange(i, t.len() as int);
        proof {
            lemma_matchers_advance(rest, known);
        }
        match spec_bracket_citation(rest) {
            Some((n, _)) => seq![(rest.subrange(0, n), None)] + segments_from(t, i + n, known),
            None => match spec_single_event(rest, known) {
                Some((n, ev)) => seq![
                    (
                        rest.subrange(0, n),
                        match ev {
                            EventView::Citation(_) => None,
                            _ => Some(ev),
                        },
                    ),
                ] + segments_from(t, i + n, known),
                None => seq![(rest.subrange(0, 1), None)] + segments_from(t, i + 1, known),
            },
        }
    }
}

/// The concatenation of a list of texts.
pub open spec fn concat_all(v: Seq<Seq<char>>) -> Seq<char>
    decreases v.len(),
{
    if v.len() == 0 {
        Seq::empty()
    } else {
        concat_all(v.drop_last()) + v.last()
    }
}

/// What a rewritten piece may be: its original text when it is not an event
/// or `render` declined it, else what `render` returned for that event.
pub open spec fn piece_ok<F: Fn(InlineEvent) -> Option<String>>(
    render: F,
    seg: (Seq<char>, Option<EventView>),
    out: Seq<char>,
) -> bool {
    match seg.1 {
        None => out == seg.0,
        Some(ev) => exists|e: InlineEvent, ret: Option<String>|
            {
                &&& e@ == ev
                &&& call_ensures(render, (e,), ret)
                &&& out == match ret {
                    Some(o) => o@,
                    None => seg.0,
                }
            },
    }
}

/// Rewrites `line` for a specific writer target, leaving code spans, bracket
/// and `@key` citations, and any text `render` declines (returns `None` for)
/// unchanged. `render` sees only cross-references, roles and inline
/// executable code.
pub fn rewrite_line<F: Fn(InlineEvent) -> Option<String>>(
    line: &str,
    known_labels: &[String],
    render: F,
) -> (r: String)
    requires
        line@.len() < i64::MAX,
        forall|e: InlineEvent| call_requires(render, (e,)),
    ensures
        ({
            let segs = segments_from(mask_from(line@, 0, 0).0, 0, strs(known_labels@));
            let spans = mask_from(line@, 0, 0).1;
            exists|outs: Seq<Seq<char>>|
                {
                    &&& outs.len() == segs.len()
                    &&& forall|k: int| 0 <= k < segs.len() ==> piece_ok(render, segs[k], outs[k])
                    &&& r@ == unmask_upto(spans, concat_all(outs), spans.len() as int)
                }
        }),
{
    let masked = mask_code_spans(line);
    let t = chars_of(masked.text_str());
    let ghost known = strs(known_labels@);
    let ghost all = segments_from(t@, 0, known);
    let mut out: Vec<char> = Vec::new();
    let ghost mut outs: Seq<Seq<char>> = Seq::empty();
    let ghost mut done: Seq<(Seq<char>, Option<EventView>)> = Seq::empty();
    let mut i: usize = 0;
    while i < t.len()
        invariant
            i <= t@.len(),
            known == strs(known_labels@),
            all == segments_from(t@, 0, known),
            all == done + segments_from(t@, i as int, known),
            outs.len() == done.len(),
            forall|k: int| 0 <= k < done.len() ==> piece_ok(render, done[k], outs[k]),
            out@ == concat_all(outs),
            forall|e: InlineEvent| call_requires(render, (e,)),
        decreases t.len() - i,
    {
        let rest = slice_chars(&t, i, t.len());
        proof {
            lemma_matchers_advance(rest@, known);
        }
        let ghost old_done = done;
        let ghost old_outs = outs;
        let ghost old_out = out@;
        let n: usize;
        let ghost piece: Seq<char>;
        let ghost seg: (Seq<char>, Option<EventView>);
        match read_bracket_citation(&rest) {
            Some((len, _)) => {
                let orig = slice_chars(&rest, 0, len);
                push_all(&mut out, &orig);
                n = len;
                proof {
                    piece = orig@;
                    seg = (orig@, None);
                }
            },
            None => match read_single_event(&rest, known_labels) {
                Some((len, ev)) => {
                    let orig = slice_chars(&rest, 0, len);
                    let is_citation = match &ev {
                        InlineEvent::Citation(_) => true,
                        _ => false,
                    };
                    if is_citation {
                        push_all(&mut out, &orig);
                        proof {
                            piece = orig@;
                            seg = (orig@, None);
                        }
                    } else {
                        let ghost evv = ev@;
                        let ghost ev_copy = ev;
                        let ret = render(ev);
                        let text = match &ret {
                            Some(o) => chars_of(o.as_str()),
                            None => orig.clone(),
                        };
                        push_all(&mut out, &text);
                        proof {
                            piece = text@;
                            seg = (orig@, Some(evv));
                            assert(piece_ok(render, seg, piece)) by {
                                assert(ev_copy@ == evv);
                                assert(call_ensures(render, (ev_copy,), ret));
                            }
                        }
                    }
                    n = len;
                },
                None => {
                    let orig = slice_chars(&rest, 0, 1);
                    push_all(&mut out, &orig);
                    n = 1;
                    proof {
                        piece = orig@;
                        seg = (orig@, None);
                    }
                },
            },
        }
        proof {
            assert(segments_from(t@, i as int, known) == seq![seg] + segments_from(t@, i + n, known));
            done = old_done.push(seg);
            outs = old_outs.push(piece);
            assert(done + segments_from(t@, i + n, known) =~= old_done + segments_from(t@, i as int, known));
            assert(outs.drop_last() =~= old_outs);
            assert(out@ == concat_all(outs));
            assert forall|k: int| 0 <= k < done.len() implies piece_ok(render, done[k], outs[k]) by {
                if k < old_done.len() {
                    assert(done[k] == old_done[k] && outs[k] == old_outs[k]);
                }
            }
        }
        i = i + n;
    }
    proof {
        assert(done =~= all);
    }
    masked.unmask(&string_of(&out))
}

} // verus!
