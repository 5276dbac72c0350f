//! Code-span masking for safe inline scans.
use vstd::prelude::*;
use crate::strmap::EntriesView;
use crate::text::{
    chars_of, dec, eq_chars, first_of, find_char, has_at, has_at_exec, is_ascii_alnum,
    is_ascii_alphanumeric, last_of, last_of_exec, lemma_run_end, push_all, push_decimal,
    replace_all, replace_chars, run_end, run_end_exec, slice_chars, string_of,
};

verus! {

/// The placeholder for the `k`-th masked span: NUL, `MQCODE`, `k`, NUL.
pub open spec fn token(k: nat) -> Seq<char> {
    seq!['\0', 'M', 'Q', 'C', 'O', 'D', 'E'] + dec(k) + seq!['\0']
}

/// Where the code span whose opening run has `run_len` backticks closes,
/// searching from `j`: the index just past the first backtick run of the
/// same length, or `-1`.
pub open spec fn close_run(s: Seq<char>, j: int, run_len: int) -> int
    decreases s.len() - j,
{
    if j < 0 || j >= s.len() {
        -1
    } else if s[j] == '`' {
        let e = run_end(s, j, '`');
        proof {
            lemma_run_end(s, j, '`');
        }
        if e - j == run_len {
            e
        } else {
            close_run(s, e, run_len)
        }
    } else {
        close_run(s, j + 1, run_len)
    }
}

pub proof fn lemma_close_run(s: Seq<char>, j: int, run_len: int)
    requires
        0 <= j <= s.len(),
    ensures
        close_run(s, j, run_len) == -1 || j < close_run(s, j, run_len) <= s.len(),
        close_run(s, j, run_len) >= 0 ==> close_run(s, j, run_len) >= j + run_len,
    decreases s.len() - j,
{
    if j < s.len() {
        if s[j] == '`' {
            lemma_run_end(s, j, '`');
            let e = run_end(s, j, '`');
            if e - j != run_len {
                lemma_close_run(s, e, run_len);
            }
        } else {
            lemma_close_run(s, j + 1, run_len);
        }
    }
}

/// A character allowed in a role name between `{` and `}`.
pub open spec fn role_name_char(c: char) -> bool {
    is_ascii_alnum(c) || c == ':' || c == '-' || c == '_'
}

/// The backtick run at `run_start` directly follows a bare `{name}`.
pub open spec fn spec_role_brace(s: Seq<char>, run_start: int) -> bool {
    let close = last_of(s, run_start, '}');
    let open = last_of(s, close, '{');
    &&& close >= 0
    &&& close + 1 == run_start
    &&& open >= 0
    &&& close - open - 1 > 0
    &&& forall|k: int| open < k < close ==> role_name_char(#[trigger] s[k])
}

/// One of the inline-execution engines.
pub open spec fn is_engine(e: Seq<char>) -> bool {
    e == "python"@ || e == "r"@ || e == "julia"@ || e == "ojs"@
}

/// The code span is executable inline code: `` `r expr` `` or `` `{engine} expr` ``.
pub open spec fn spec_exec_inline(span: Seq<char>, ticks: int) -> bool {
    let inner = span.subrange(ticks, span.len() - ticks);
    ||| has_at(inner, 0, seq!['r', ' '])
    ||| inner.len() > 0 && inner[0] == '{' && {
        let rest = inner.subrange(1, inner.len() as int);
        let p = first_of(rest, 0, '}');
        p < rest.len() && is_engine(rest.subrange(0, p)) && has_at(rest, p + 1, seq![' '])
    }
}

/// What the masker emits for the backtick run at `i`, and where it resumes:
/// `(piece, masked span if any, next index)`.
pub open spec fn mask_piece(s: Seq<char>, i: int, k: nat) -> (Seq<char>, Option<(Seq<char>, Seq<char>)>, int) {
    let e = run_end(s, i, '`');
    let c = close_run(s, e, e - i);
    if c >= 0 {
        let original = s.subrange(i, c);
        if spec_exec_inline(original, e - i) || spec_role_brace(s, i) {
            (original, None, c)
        } else {
            (token(k), Some((token(k), original)), c)
        }
    } else {
        (s.subrange(i, e), None, e)
    }
}

/// The masked text and masked spans produced from `s[i..]` when `k` spans
/// were masked before.
pub open spec fn mask_from(s: Seq<char>, i: int, k: nat) -> (Seq<char>, EntriesView)
    decreases s.len() - i,
{
    if i < 0 || i >= s.len() {
        (Seq::empty(), Seq::empty())
    } else if s[i] != '`' {
        let r = mask_from(s, i + 1, k);
        (seq![s[i]] + r.0, r.1)
    } else {
        let p = mask_piece(s, i, k);
        proof {
            lemma_run_end(s, i, '`');
            lemma_close_run(s, run_end(s, i, '`'), run_end(s, i, '`') - i);
        }
        match p.1 {
            Some(span) => {
                let r = mask_from(s, p.2, k + 1);
                (p.0 + r.0, seq![span] + r.1)
            },
            None => {
                let r = mask_from(s, p.2, k);
                (p.0 + r.0, r.1)
            },
        }
    }
}

/// Undoes masking on `t`: replaces each span's token by its original, in order.
pub open spec fn unmask_upto(spans: EntriesView, t: Seq<char>, m: int) -> Seq<char>
    decreases m,
{
    if m <= 0 {
        t
    } else {
        replace_all(unmask_upto(spans, t, m - 1), spans[m - 1].0, spans[m - 1].1)
    }
}

/// Text with its code spans replaced by placeholder tokens, plus what each
/// token stands for.
#[derive(Debug, Clone, PartialEq, Eq)]
pub struct MaskedText {
    pub text: String,
    spans: Vec<(String, String)>,
}

impl MaskedText {
    /// The masked text.
    pub closed spec fn text_view(&self) -> Seq<char> {
        self.text@
    }

    /// The masked text, as a string slice.
    pub fn text_str(&self) -> (r: &str)
        ensures
            r@ == self.text_view(),
    {
        self.text.as_str()
    }

    /// The masked spans as `(token, original)` pairs.
    pub closed spec fn spans_view(&self) -> EntriesView {
        self.spans@.map_values(|e: (String, String)| (e.0@, e.1@))
    }

    /// Replaces every placeholder token in `text` by the code span it stands for.
    pub fn unmask(&self, text: &str) -> (r: String)
        ensures
            r@ == unmask_upto(self.spans_view(), text@, self.spans_view().len() as int),
    {
        let mut out = chars_of(text);
        let mut m: usize = 0;
        while m < self.spans.len()
            invariant
                m <= self.spans@.len(),
                self.spans_view().len() == self.spans@.len(),
                out@ == unmask_upto(self.spans_view(), text@, m as int),
            decreases self.spans.len() - m,
        {
            let tok = chars_of(self.spans[m].0.as_str());
            let orig = chars_of(self.spans[m].1.as_str());
            assert(self.spans_view()[m as int] == (self.spans@[m as int].0@, self.spans@[m as int].1@));
            out = replace_chars(&out, &tok, &orig);
            m = m + 1;
        }
        string_of(&out)
    }
}

fn is_executable_inline(span: &Vec<char>, ticks: usize) -> (r: bool)
    requires
        2 * ticks <= span@.len(),
    ensures
        r == spec_exec_inline(span@, ticks as int),
{
    let inner = slice_chars(span, ticks, span.len() - ticks);
    let r_space = chars_of("r ");
    assert(r_space@ == seq!['r', ' ']) by {
        reveal_strlit("r ");
    }
    if has_at_exec(&inner, 0, &r_space) {
        return true;
    }
    if !(inner.len() > 0 && inner[0] == '{') {
        return false;
    }
    let rest = slice_chars(&inner, 1, inner.len());
    let p = find_char(&rest, 0, '}');
    if p >= rest.len() {
        return false;
    }
    let engine = slice_chars(&rest, 0, p);
    let is_eng = eq_chars(&engine, &chars_of("python")) || eq_chars(&engine, &chars_of("r"))
        || eq_chars(&engine, &chars_of("julia")) || eq_chars(&engine, &chars_of("ojs"));
    let space = chars_of(" ");
    assert(space@ == seq![' ']) by {
        reveal_strlit(" ");
    }
    is_eng && has_at_exec(&rest, p + 1, &space)
}

#[verifier::loop_isolation(false)]
fn preceded_by_role_brace(s: &Vec<char>, run_start: usize) -> (r: bool)
    requires
        run_start <= s@.len(),
        s@.len() < i64::MAX,
    ensures
        r == spec_role_brace(s@, run_start as int),
{
    proof {
        crate::text::lemma_last_of(s@, run_start as int, '}');
    }
    let close = last_of_exec(s, run_start, '}');
    if close < 0 || close as usize + 1 != run_start {
        return false;
    }
    let close = close as usize;
    proof {
        crate::text::lemma_last_of(s@, close as int, '{');
    }
    let open = last_of_exec(s, close, '{');
    if open < 0 {
        return false;
    }
    let open = open as usize;
    if close - open - 1 == 0 {
        return false;
    }
    let mut k = open + 1;
    while k < close
        invariant
            open < k <= close < s@.len(),
            forall|m: int| open < m < k ==> role_name_char(#[trigger] s@[m]),
        decreases close - k,
    {
        let c = s[k];
        if !(is_ascii_alphanumeric(c) || c == ':' || c == '-' || c == '_') {
            assert(!role_name_char(s@[k as int]));
            return false;
        }
        k = k + 1;
    }
    true
}

/// Replaces CommonMark code spans with placeholder tokens. Opening and
/// closing backtick runs must have the same length; executable inline code
/// and role arguments are left in place.
pub fn mask_code_spans(input: &str) -> (r: MaskedText)
    requires
        input@.len() < i64::MAX,
    ensures
        r.text_view() == mask_from(input@, 0, 0).0,
        r.spans_view() == mask_from(input@, 0, 0).1,
{
    let s = chars_of(input);
    let mut out: Vec<char> = Vec::new();
    let mut spans: Vec<(String, String)> = Vec::new();
    let mut i: usize = 0;
    let ghost sv = s@;
    while i < s.len()
        invariant
            sv == s@,
            s@.len() < i64::MAX,
            i <= s@.len(),
            mask_from(sv, 0, 0).0 == out@ + mask_from(sv, i as int, spans@.len() as nat).0,
            mask_from(sv, 0, 0).1 == spans@.map_values(|e: (String, String)| (e.0@, e.1@))
                + mask_from(sv, i as int, spans@.len() as nat).1,
        decreases s.len() - i,
    {
        let ghost k = spans@.len() as nat;
        let ghost old_out = out@;
        let ghost old_spans = spans@.map_values(|e: (String, String)| (e.0@, e.1@));
        if s[i] != '`' {
            out.push(s[i]);
            assert(out@ + mask_from(sv, i + 1, k).0 =~= old_out + mask_from(sv, i as int, k).0);
            i = i + 1;
            continue;
        }
        proof {
            lemma_run_end(sv, i as int, '`');
        }
        let run_start = i;
        let e = run_end_exec(&s, i, '`');
        let run_len = e - run_start;
        proof {
            lemma_close_run(sv, e as int, run_len as int);
        }
        let mut j = e;
        let mut close: Option<usize> = None;
        while j < s.len()
            invariant_except_break
                close is None,
                close_run(sv, e as int, run_len as int) == close_run(sv, j as int, run_len as int),
            invariant
                sv == s@,
                e <= j <= s@.len(),
            ensures
                close matches Some(end) ==> close_run(sv, e as int, run_len as int) == end && end <= s@.len(),
                close is None ==> close_run(sv, e as int, run_len as int) == -1,
            decreases s.len() - j,
        {
            if s[j] == '`' {
                proof {
                    lemma_run_end(sv, j as int, '`');
                }
                let close_start = j;
                j = run_end_exec(&s, j, '`');
                if j - close_start == run_len {
                    close = Some(j);
                    break;
                }
                continue;
            }
            j = j + 1;
        }
        match close {
            Some(end) => {
                assert(close_run(sv, e as int, run_len as int) == end as int);
                let original = slice_chars(&s, run_start, end);
                if is_executable_inline(&original, run_len) || preceded_by_role_brace(&s, run_start) {
                    push_all(&mut out, &original);
                    assert(out@ + mask_from(sv, end as int, k).0 =~= old_out + mask_from(sv, i as int, k).0);
                } else {
                    let mut tok: Vec<char> = Vec::new();
                    tok.push('\0');
                    tok.push('M');
                    tok.push('Q');
                    tok.push('C');
                    tok.push('O');
                    tok.push('D');
                    tok.push('E');
                    push_decimal(&mut tok, spans.len());
                    tok.push('\0');
                    assert(tok@ =~= token(k));
                    let tok_s = string_of(&tok);
                    spans.push((tok_s, string_of(&original)));
                    push_all(&mut out, &tok);
                    assert(out@ + mask_from(sv, end as int, k + 1).0 =~= old_out + mask_from(sv, i as int, k).0);
                    assert(spans@.map_values(|e: (String, String)| (e.0@, e.1@)) =~= old_spans.push((token(k), original@)));
                    assert(spans@.map_values(|e: (String, String)| (e.0@, e.1@)) + mask_from(sv, end as int, k + 1).1
                        =~= old_spans + mask_from(sv, i as int, k).1);
                }
                i = end;
            },
            None => {
                assert(close_run(sv, e as int, run_len as int) == -1);
                let piece = slice_chars(&s, run_start, e);
                push_all(&mut out, &piece);
                assert(out@ + mask_from(sv, e as int, k).0 =~= old_out + mask_from(sv, i as int, k).0);
                i = e;
            },
        }
    }
    assert(out@ =~= out@ + mask_from(sv, i as int, spans@.len() as nat).0);
    assert(spans@.map_values(|e: (String, String)| (e.0@, e.1@)) =~= spans@.map_values(|e: (String, String)| (e.0@, e.1@)) + mask_from(sv, i as int, spans@.len() as nat).1);
    MaskedText { text: string_of(&out), spans }
}

} // verus!
