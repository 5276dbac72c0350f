//! Character-level text model shared by the readers and writers.
//!
//! Text is modelled as `Seq<char>` (the view of `str`/`String`); the
//! executable side works on `Vec<char>` buffers and converts at the edges.
use vstd::prelude::*;
use vstd::string::StrSliceExecFns;

verus! {

/// Unicode `White_Space`, the set `char::is_whitespace` tests for.
pub open spec fn is_ws(c: char) -> bool {
    let u = c as u32;
    ||| u == 0x20
    ||| 0x09 <= u <= 0x0d
    ||| u == 0x85
    ||| u == 0xa0
    ||| u == 0x1680
    ||| 0x2000 <= u <= 0x200a
    ||| u == 0x2028
    ||| u == 0x2029
    ||| u == 0x202f
    ||| u == 0x205f
    ||| u == 0x3000
}

/// Executable `char::is_whitespace`.
pub fn is_whitespace(c: char) -> (r: bool)
    ensures
        r == is_ws(c),
{
    let u = c as u32;
    u == 0x20 || (0x09 <= u && u <= 0x0d) || u == 0x85 || u == 0xa0 || u == 0x1680 || (0x2000
        <= u && u <= 0x200a) || u == 0x2028 || u == 0x2029 || u == 0x202f || u == 0x205f || u
        == 0x3000
}

/// ASCII letters and digits.
pub open spec fn is_ascii_alnum(c: char) -> bool {
    ('a' <= c <= 'z') || ('A' <= c <= 'Z') || ('0' <= c <= '9')
}

pub fn is_ascii_alphanumeric(c: char) -> (r: bool)
    ensures
        r == is_ascii_alnum(c),
{
    ('a' <= c && c <= 'z') || ('A' <= c && c <= 'Z') || ('0' <= c && c <= '9')
}

/// ASCII letters.
pub open spec fn is_ascii_alpha(c: char) -> bool {
    ('a' <= c <= 'z') || ('A' <= c <= 'Z')
}

pub fn is_ascii_alphabetic(c: char) -> (r: bool)
    ensures
        r == is_ascii_alpha(c),
{
    ('a' <= c && c <= 'z') || ('A' <= c && c <= 'Z')
}

/// What `char::is_alphanumeric` returns: Unicode `Alphabetic` or `Numeric`.
pub uninterp spec fn unicode_alphanumeric(c: char) -> bool;

/// Calls `char::is_alphanumeric`. Claimed: the result is a function of the
/// character alone, every ASCII letter and digit is alphanumeric, and no other
/// ASCII character is (the property tables put no ASCII punctuation,
/// whitespace or control character in `Alphabetic` or `Numeric`).
#[verifier::external_body]
pub fn is_alphanumeric(c: char) -> (r: bool)
    ensures
        r == unicode_alphanumeric(c),
        is_ascii_alnum(c) ==> r,
        (c as u32) < 128 && !is_ascii_alnum(c) ==> !r,
{
    c.is_alphanumeric()
}

/// Calls `str::chars` and collects: the characters of `s`, in order.
#[verifier::external_body]
pub fn chars_of(s: &str) -> (v: Vec<char>)
    ensures
        v@ == s@,
{
    s.chars().collect()
}

/// Collects characters into a `String` (`FromIterator<char>`): the string
/// holds exactly those characters, in order.
#[verifier::external_body]
pub fn string_of(v: &[char]) -> (s: String)
    ensures
        s@ == v@,
{
    v.iter().collect()
}

/// The first index at or after `i` that is not whitespace.
pub open spec fn skip_ws(s: Seq<char>, i: int) -> int
    decreases s.len() - i,
{
    if 0 <= i < s.len() && is_ws(s[i]) {
        skip_ws(s, i + 1)
    } else {
        i
    }
}

/// The end of `s.take(j)` with trailing whitespace removed.
pub open spec fn trail_ws(s: Seq<char>, j: int) -> int
    decreases j,
{
    if 0 < j <= s.len() && is_ws(s[j - 1]) {
        trail_ws(s, j - 1)
    } else {
        j
    }
}

/// `str::trim_start`.
pub open spec fn trim_start(s: Seq<char>) -> Seq<char> {
    s.subrange(skip_ws(s, 0), s.len() as int)
}

/// `str::trim_end`.
pub open spec fn trim_end(s: Seq<char>) -> Seq<char> {
    s.subrange(0, trail_ws(s, s.len() as int))
}

/// `str::trim`.
pub open spec fn trim(s: Seq<char>) -> Seq<char> {
    trim_end(trim_start(s))
}

pub proof fn lemma_skip_ws_bounds(s: Seq<char>, i: int)
    requires
        0 <= i <= s.len(),
    ensures
        i <= skip_ws(s, i) <= s.len(),
        skip_ws(s, i) < s.len() ==> !is_ws(s[skip_ws(s, i)]),
        forall|k: int| i <= k < skip_ws(s, i) ==> is_ws(#[trigger] s[k]),
    decreases s.len() - i,
{
    if i < s.len() && is_ws(s[i]) {
        lemma_skip_ws_bounds(s, i + 1);
    }
}

pub proof fn lemma_trail_ws_bounds(s: Seq<char>, j: int)
    requires
        0 <= j <= s.len(),
    ensures
        0 <= trail_ws(s, j) <= j,
        trail_ws(s, j) > 0 ==> !is_ws(s[trail_ws(s, j) - 1]),
        forall|k: int| trail_ws(s, j) <= k < j ==> is_ws(#[trigger] s[k]),
    decreases j,
{
    if j > 0 && is_ws(s[j - 1]) {
        lemma_trail_ws_bounds(s, j - 1);
    }
}

/// Index of the first non-whitespace character at or after `i` in `v[..hi]`.
pub fn skip_ws_exec(v: &Vec<char>, i: usize) -> (r: usize)
    requires
        i <= v.len(),
    ensures
        r == skip_ws(v@, i as int),
        i <= r <= v.len(),
{
    proof { lemma_skip_ws_bounds(v@, i as int); }
    let mut k = i;
    while k < v.len() && is_whitespace(v[k])
        invariant
            i <= k <= v.len(),
            skip_ws(v@, k as int) == skip_ws(v@, i as int),
        decreases v.len() - k,
    {
        k = k + 1;
    }
    k
}

/// End of `v[..j]` without its trailing whitespace.
pub fn trail_ws_exec(v: &Vec<char>, j: usize) -> (r: usize)
    requires
        j <= v.len(),
    ensures
        r == trail_ws(v@, j as int),
        r <= j,
{
    proof { lemma_trail_ws_bounds(v@, j as int); }
    let mut k = j;
    while k > 0 && is_whitespace(v[k - 1])
        invariant
            k <= j <= v.len(),
            trail_ws(v@, k as int) == trail_ws(v@, j as int),
        decreases k,
    {
        k = k - 1;
    }
    k
}

/// Copies `v[lo..hi]`.
pub fn slice_chars(v: &[char], lo: usize, hi: usize) -> (r: Vec<char>)
    requires
        lo <= hi <= v@.len(),
    ensures
        r@ == v@.subrange(lo as int, hi as int),
{
    let mut r: Vec<char> = Vec::new();
    let mut k = lo;
    while k < hi
        invariant
            lo <= k <= hi <= v@.len(),
            r@ == v@.subrange(lo as int, k as int),
        decreases hi - k,
    {
        r.push(v[k]);
        k = k + 1;
    }
    r
}

/// Appends all of `src` to `dst`.
pub fn push_all(dst: &mut Vec<char>, src: &[char])
    ensures
        final(dst)@ == old(dst)@ + src@,
{
    let mut k: usize = 0;
    while k < src.len()
        invariant
            k <= src@.len(),
            dst@ == old(dst)@ + src@.subrange(0, k as int),
        decreases src.len() - k,
    {
        dst.push(src[k]);
        k = k + 1;
    }
    assert(src@.subrange(0, src@.len() as int) =~= src@);
}

/// The whole text with its leading and trailing whitespace removed.
pub fn trim_chars(v: &Vec<char>) -> (r: Vec<char>)
    ensures
        r@ == trim(v@),
{
    let a = skip_ws_exec(v, 0);
    let t = slice_chars(v, a, v.len());
    proof {
        assert(t@ == trim_start(v@));
    }
    let b = trail_ws_exec(&t, t.len());
    slice_chars(&t, 0, b)
}

/// `true` when `v[i..]` starts with `p`.
pub open spec fn has_at(s: Seq<char>, i: int, p: Seq<char>) -> bool {
    0 <= i && i + p.len() <= s.len() && s.subrange(i, i + p.len()) == p
}

pub fn has_at_exec(v: &[char], i: usize, p: &[char]) -> (r: bool)
    ensures
        r == has_at(v@, i as int, p@),
{
    if i > v.len() || p.len() > v.len() - i {
        return false;
    }
    let mut k: usize = 0;
    while k < p.len()
        invariant
            i + p@.len() <= v@.len(),
            v@.len() == v.len(),
            k <= p@.len(),
            forall|m: int| 0 <= m < k ==> v@[i + m] == p@[m],
        decreases p.len() - k,
    {
        if v[i + k] != p[k] {
            assert(v@.subrange(i as int, i + p@.len())[k as int] != p@[k as int]);
            return false;
        }
        k = k + 1;
    }
    assert(v@.subrange(i as int, i + p@.len()) =~= p@);
    true
}

/// Index of the first occurrence of `c` in `v[from..]`.
pub open spec fn first_of(s: Seq<char>, from: int, c: char) -> int
    decreases s.len() - from,
{
    if from < 0 || from >= s.len() {
        s.len() as int
    } else if s[from] == c {
        from
    } else {
        first_of(s, from + 1, c)
    }
}

pub proof fn lemma_first_of(s: Seq<char>, from: int, c: char)
    requires
        0 <= from <= s.len(),
    ensures
        from <= first_of(s, from, c) <= s.len(),
        first_of(s, from, c) < s.len() ==> s[first_of(s, from, c)] == c,
        forall|k: int| from <= k < first_of(s, from, c) ==> #[trigger] s[k] != c,
    decreases s.len() - from,
{
    if from < s.len() && s[from] != c {
        lemma_first_of(s, from + 1, c);
    }
}

pub fn find_char(v: &[char], from: usize, c: char) -> (r: usize)
    requires
        from <= v@.len(),
    ensures
        r == first_of(v@, from as int, c),
        from <= r <= v@.len(),
{
    proof { lemma_first_of(v@, from as int, c); }
    let mut k = from;
    while k < v.len() && v[k] != c
        invariant
            from <= k <= v@.len(),
            first_of(v@, k as int, c) == first_of(v@, from as int, c),
        decreases v.len() - k,
    {
        k = k + 1;
    }
    k
}

} // verus!

verus! {

/// End of the run of `c` that starts at `i`.
pub open spec fn run_end(s: Seq<char>, i: int, c: char) -> int
    decreases s.len() - i,
{
    if 0 <= i < s.len() && s[i] == c {
        run_end(s, i + 1, c)
    } else {
        i
    }
}

pub proof fn lemma_run_end(s: Seq<char>, i: int, c: char)
    requires
        0 <= i <= s.len(),
    ensures
        i <= run_end(s, i, c) <= s.len(),
        run_end(s, i, c) < s.len() ==> s[run_end(s, i, c)] != c,
        forall|k: int| i <= k < run_end(s, i, c) ==> #[trigger] s[k] == c,
    decreases s.len() - i,
{
    if i < s.len() && s[i] == c {
        lemma_run_end(s, i + 1, c);
    }
}

pub fn run_end_exec(v: &Vec<char>, i: usize, c: char) -> (r: usize)
    requires
        i <= v.len(),
    ensures
        r == run_end(v@, i as int, c),
        i <= r <= v.len(),
{
    proof { lemma_run_end(v@, i as int, c); }
    let mut k = i;
    while k < v.len() && v[k] == c
        invariant
            i <= k <= v.len(),
            run_end(v@, k as int, c) == run_end(v@, i as int, c),
        decreases v.len() - k,
    {
        k = k + 1;
    }
    k
}

/// Space or tab: the characters an indent is counted in.
pub open spec fn is_sp_tab(c: char) -> bool {
    c == ' ' || c == '\t'
}

/// End of the run of spaces and tabs that starts at `i`.
pub open spec fn indent_end(s: Seq<char>, i: int) -> int
    decreases s.len() - i,
{
    if 0 <= i < s.len() && is_sp_tab(s[i]) {
        indent_end(s, i + 1)
    } else {
        i
    }
}

pub proof fn lemma_indent_end(s: Seq<char>, i: int)
    requires
        0 <= i <= s.len(),
    ensures
        i <= indent_end(s, i) <= s.len(),
        indent_end(s, i) < s.len() ==> !is_sp_tab(s[indent_end(s, i)]),
        forall|k: int| i <= k < indent_end(s, i) ==> is_sp_tab(#[trigger] s[k]),
    decreases s.len() - i,
{
    if i < s.len() && is_sp_tab(s[i]) {
        lemma_indent_end(s, i + 1);
    }
}

pub fn indent_end_exec(v: &Vec<char>, i: usize) -> (r: usize)
    requires
        i <= v.len(),
    ensures
        r == indent_end(v@, i as int),
        i <= r <= v.len(),
{
    proof { lemma_indent_end(v@, i as int); }
    let mut k = i;
    while k < v.len() && (v[k] == ' ' || v[k] == '\t')
        invariant
            i <= k <= v.len(),
            indent_end(v@, k as int) == indent_end(v@, i as int),
        decreases v.len() - k,
    {
        k = k + 1;
    }
    k
}

/// `true` when every character of `s` is `c`.
pub open spec fn all_eq(s: Seq<char>, c: char) -> bool {
    forall|k: int| 0 <= k < s.len() ==> s[k] == c
}

/// `true` when some character of `s` is whitespace.
pub open spec fn any_ws(s: Seq<char>) -> bool {
    exists|k: int| 0 <= k < s.len() && is_ws(#[trigger] s[k])
}

pub fn any_ws_exec(v: &Vec<char>) -> (r: bool)
    ensures
        r == any_ws(v@),
{
    let mut k: usize = 0;
    while k < v.len()
        invariant
            k <= v.len(),
            forall|m: int| 0 <= m < k ==> !is_ws(#[trigger] v@[m]),
        decreases v.len() - k,
    {
        if is_whitespace(v[k]) {
            return true;
        }
        k = k + 1;
    }
    false
}

} // verus!

verus! {

/// The decimal digit character for `d < 10`.
pub open spec fn digit(d: nat) -> char {
    if d == 0 { '0' }
    else if d == 1 { '1' }
    else if d == 2 { '2' }
    else if d == 3 { '3' }
    else if d == 4 { '4' }
    else if d == 5 { '5' }
    else if d == 6 { '6' }
    else if d == 7 { '7' }
    else if d == 8 { '8' }
    else { '9' }
}

/// The decimal representation of `n`, without leading zeros.
pub open spec fn dec(n: nat) -> Seq<char>
    decreases n,
{
    if n < 10 {
        seq![digit(n)]
    } else {
        dec(n / 10).push(digit(n % 10))
    }
}

fn digit_exec(d: usize) -> (c: char)
    requires
        d < 10,
    ensures
        c == digit(d as nat),
{
    if d == 0 { '0' }
    else if d == 1 { '1' }
    else if d == 2 { '2' }
    else if d == 3 { '3' }
    else if d == 4 { '4' }
    else if d == 5 { '5' }
    else if d == 6 { '6' }
    else if d == 7 { '7' }
    else if d == 8 { '8' }
    else { '9' }
}

/// Appends the decimal representation of a `u64`.
pub fn push_decimal_u64(out: &mut Vec<char>, n: u64)
    ensures
        final(out)@ == old(out)@ + dec(n as nat),
    decreases n,
{
    if n >= 10 {
        push_decimal_u64(out, n / 10);
    }
    out.push(digit_exec((n % 10) as usize));
    assert(final(out)@ =~= old(out)@ + dec(n as nat));
}

/// Appends the decimal representation of `n`.
pub fn push_decimal(out: &mut Vec<char>, n: usize)
    ensures
        final(out)@ == old(out)@ + dec(n as nat),
    decreases n,
{
    if n >= 10 {
        push_decimal(out, n / 10);
    }
    out.push(digit_exec(n % 10));
    assert(final(out)@ =~= old(out)@ + dec(n as nat));
}

/// The last index `< end` holding `c`, or `-1`.
pub open spec fn last_of(s: Seq<char>, end: int, c: char) -> int
    decreases end,
{
    if end <= 0 || end > s.len() {
        -1
    } else if s[end - 1] == c {
        end - 1
    } else {
        last_of(s, end - 1, c)
    }
}

pub proof fn lemma_last_of(s: Seq<char>, end: int, c: char)
    requires
        0 <= end <= s.len(),
    ensures
        -1 <= last_of(s, end, c) < end,
        last_of(s, end, c) >= 0 ==> s[last_of(s, end, c)] == c,
        forall|k: int| last_of(s, end, c) < k < end ==> #[trigger] s[k] != c,
    decreases end,
{
    if end > 0 && s[end - 1] != c {
        lemma_last_of(s, end - 1, c);
    }
}

pub fn last_of_exec(v: &[char], end: usize, c: char) -> (r: i64)
    requires
        end <= v@.len(),
        v@.len() < i64::MAX,
    ensures
        r == last_of(v@, end as int, c),
{
    proof { lemma_last_of(v@, end as int, c); }
    let mut k = end;
    while k > 0 && v[k - 1] != c
        invariant
            k <= end <= v@.len(),
            last_of(v@, k as int, c) == last_of(v@, end as int, c),
        decreases k,
    {
        k = k - 1;
    }
    if k == 0 {
        -1
    } else {
        (k - 1) as i64
    }
}

/// `true` when `a` and `b` hold the same characters.
pub fn eq_chars(a: &[char], b: &[char]) -> (r: bool)
    ensures
        r == (a@ == b@),
{
    if a.len() != b.len() {
        return false;
    }
    let r = has_at_exec(a, 0, b);
    proof {
        if r {
            assert(a@ =~= a@.subrange(0, b@.len() as int));
        } else {
            assert(a@ == b@ ==> a@.subrange(0, b@.len() as int) =~= b@);
        }
    }
    r
}

/// `pat` occurs somewhere in `s`.
pub open spec fn contains_at_any(s: Seq<char>, pat: Seq<char>) -> bool {
    exists|i: int| #[trigger] has_at(s, i, pat)
}

/// `true` when `pat` occurs in `v`.
pub fn contains_chars(v: &Vec<char>, pat: &Vec<char>) -> (r: bool)
    ensures
        r == contains_at_any(v@, pat@),
{
    if pat.len() > v.len() {
        assert forall|i: int| !#[trigger] has_at(v@, i, pat@) by {}
        return false;
    }
    if pat.len() == 0 {
        assert(has_at(v@, 0, pat@)) by {
            assert(v@.subrange(0, 0) =~= pat@);
        }
        return true;
    }
    let mut i: usize = 0;
    while i <= v.len() - pat.len()
        invariant
            0 < pat@.len() <= v@.len(),
            i <= v@.len() - pat@.len() + 1,
            forall|k: int| 0 <= k < i ==> !#[trigger] has_at(v@, k, pat@),
        decreases v.len() - pat.len() + 1 - i,
    {
        if has_at_exec(v, i, pat) {
            return true;
        }
        i = i + 1;
    }
    assert forall|k: int| !#[trigger] has_at(v@, k, pat@) by {
        if 0 <= k < i {
        }
    }
    false
}

/// The value of a run of decimal digits.
pub open spec fn digits_value(d: Seq<char>) -> nat
    decreases d.len(),
{
    if d.len() == 0 {
        0
    } else {
        digits_value(d.drop_last()) * 10 + ((d.last() as int - '0' as int) as nat)
    }
}

/// Every character is an ASCII digit.
pub open spec fn all_digits(d: Seq<char>) -> bool {
    forall|k: int| 0 <= k < d.len() ==> '0' <= #[trigger] d[k] <= '9'
}

/// What `u32::from_str` answers: an optional `+`, then one or more ASCII
/// digits whose value fits.
pub open spec fn spec_parse_u32(s: Seq<char>) -> Option<u32> {
    let d = if s.len() > 0 && s[0] == '+' { s.drop_first() } else { s };
    if d.len() == 0 || !all_digits(d) || digits_value(d) > u32::MAX {
        None
    } else {
        Some(digits_value(d) as u32)
    }
}

/// Parses a `u32` as `str::parse::<u32>` does.
pub fn parse_u32(s: &str) -> (r: Option<u32>)
    ensures
        r == spec_parse_u32(s@),
{
    let v = chars_of(s);
    let start: usize = if v.len() > 0 && v[0] == '+' { 1 } else { 0 };
    let ghost d = if v@.len() > 0 && v@[0] == '+' { v@.drop_first() } else { v@ };
    assert(d =~= v@.subrange(start as int, v@.len() as int));
    if start >= v.len() {
        assert(d.len() == 0);
        return None;
    }
    let mut acc: u64 = 0;
    let mut i: usize = start;
    while i < v.len()
        invariant
            v@ == s@,
            start <= i <= v@.len(),
            start < v@.len(),
            d == v@.subrange(start as int, v@.len() as int),
            d == (if s@.len() > 0 && s@[0] == '+' { s@.drop_first() } else { s@ }),
            all_digits(v@.subrange(start as int, i as int)),
            acc == digits_value(v@.subrange(start as int, i as int)),
            acc <= u32::MAX,
        decreases v.len() - i,
    {
        let c = v[i];
        assert(v@.subrange(start as int, i + 1).drop_last() =~= v@.subrange(start as int, i as int));
        if !('0' <= c && c <= '9') {
            assert(v@.subrange(start as int, v@.len() as int)[i - start] == v@[i as int]);
            assert(d[i - start] == c);
            assert(!all_digits(d));
            return None;
        }
        let digit_value: u64 = (c as u32 - '0' as u32) as u64;
        let next: u64 = acc * 10 + digit_value;
        assert(next == digits_value(v@.subrange(start as int, i + 1)));
        if next > 4294967295u64 {
            proof {
                assert(d.subrange(0, i + 1 - start) =~= v@.subrange(start as int, i + 1));
                if all_digits(d) {
                    lemma_digits_prefix_bound(d, i + 1 - start);
                }
            }
            return None;
        }
        acc = next;
        i = i + 1;
    }
    assert(v@.subrange(start as int, i as int) =~= d);
    Some(acc as u32)
}

/// A longer digit run is worth at least as much as its prefix.
proof fn lemma_digits_prefix_bound(d: Seq<char>, n: int)
    requires
        0 <= n <= d.len(),
        all_digits(d),
    ensures
        digits_value(d) >= digits_value(d.subrange(0, n)),
    decreases d.len() - n,
{
    if n < d.len() {
        assert forall|k: int| 0 <= k < d.drop_last().len() implies '0' <= #[trigger] d.drop_last()[k] <= '9' by {
            assert(d.drop_last()[k] == d[k]);
        }
        lemma_digits_prefix_bound(d.drop_last(), n);
        assert(d.drop_last().subrange(0, n) =~= d.subrange(0, n));
        assert('0' <= d.last() <= '9');
    } else {
        assert(d.subrange(0, n) =~= d);
    }
}

/// The number of characters of `s`.
pub fn char_len(s: &str) -> (n: usize)
    ensures
        n == s@.len(),
{
    s.unicode_len()
}

/// `true` when the two string slices hold the same characters.
pub fn str_eq(a: &str, b: &str) -> (r: bool)
    ensures
        r == (a@ == b@),
{
    let x = String::from_str(a);
    let y = String::from_str(b);
    x == y
}

/// Left-to-right, non-overlapping replacement of `pat` by `rep` in `s[i..]`
/// (an empty pattern leaves the text as it is).
pub open spec fn replace_from(s: Seq<char>, i: int, pat: Seq<char>, rep: Seq<char>) -> Seq<char>
    decreases s.len() - i,
{
    if i < 0 || i >= s.len() {
        Seq::empty()
    } else if pat.len() > 0 && has_at(s, i, pat) {
        rep + replace_from(s, i + pat.len(), pat, rep)
    } else {
        seq![s[i]] + replace_from(s, i + 1, pat, rep)
    }
}

/// `str::replace` for a non-empty pattern.
pub open spec fn replace_all(s: Seq<char>, pat: Seq<char>, rep: Seq<char>) -> Seq<char> {
    replace_from(s, 0, pat, rep)
}

pub fn replace_chars(v: &Vec<char>, pat: &Vec<char>, rep: &Vec<char>) -> (r: Vec<char>)
    ensures
        r@ == replace_all(v@, pat@, rep@),
{
    let mut out: Vec<char> = Vec::new();
    let mut i: usize = 0;
    while i < v.len()
        invariant
            i <= v@.len(),
            replace_from(v@, 0, pat@, rep@) == out@ + replace_from(v@, i as int, pat@, rep@),
        decreases v.len() - i,
    {
        if pat.len() > 0 && has_at_exec(v, i, pat) {
            let ghost prev = out@;
            push_all(&mut out, rep);
            assert(out@ + replace_from(v@, (i + pat.len()) as int, pat@, rep@) =~= prev + replace_from(v@, i as int, pat@, rep@)) by {
                assert(replace_from(v@, i as int, pat@, rep@) == rep@ + replace_from(v@, i + pat@.len(), pat@, rep@));
            }
            i = i + pat.len();
        } else {
            let ghost prev = out@;
            out.push(v[i]);
            assert(out@ + replace_from(v@, i + 1, pat@, rep@) =~= prev + replace_from(v@, i as int, pat@, rep@));
            i = i + 1;
        }
    }
    assert(out@ =~= out@ + replace_from(v@, i as int, pat@, rep@));
    out
}

} // verus!
