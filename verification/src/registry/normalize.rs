//! Colon-prefixed MyST label -> hyphen-prefixed Quarto id normalization.
use vstd::prelude::*;
use crate::text::{chars_of, eq_chars, find_char, first_of, push_all, slice_chars, string_of};

verus! {

/// What kind of construct a label is attached to, used when the label itself
/// carries no recognized prefix.
#[derive(Debug, Clone, PartialEq, Eq)]
pub enum RefKind {
    Section,
    Figure,
    Table,
    Equation,
    CodeCell,
    Theorem { subtype: String },
    Generic,
}

/// The view of a [`RefKind`]: the theorem subtype, if any, as characters.
pub enum RefKindView {
    Section,
    Figure,
    Table,
    Equation,
    CodeCell,
    Theorem(Seq<char>),
    Generic,
}

impl View for RefKind {
    type V = RefKindView;

    open spec fn view(&self) -> RefKindView {
        match self {
            RefKind::Section => RefKindView::Section,
            RefKind::Figure => RefKindView::Figure,
            RefKind::Table => RefKindView::Table,
            RefKind::Equation => RefKindView::Equation,
            RefKind::CodeCell => RefKindView::CodeCell,
            RefKind::Theorem { subtype } => RefKindView::Theorem(subtype@),
            RefKind::Generic => RefKindView::Generic,
        }
    }
}

/// The prefix key of a `prf:` theorem subtype.
pub open spec fn spec_theorem_prefix(subtype: Seq<char>) -> Option<Seq<char>> {
    if subtype == "theorem"@ { Some("thm:"@) }
    else if subtype == "lemma"@ { Some("lem:"@) }
    else if subtype == "corollary"@ { Some("cor:"@) }
    else if subtype == "proposition"@ { Some("prp:"@) }
    else if subtype == "conjecture"@ { Some("cnj:"@) }
    else if subtype == "definition"@ { Some("def:"@) }
    else if subtype == "example"@ { Some("exm:"@) }
    else if subtype == "exercise"@ { Some("exr:"@) }
    else if subtype == "solution"@ { Some("sol:"@) }
    else if subtype == "remark"@ { Some("rem:"@) }
    else if subtype == "algorithm"@ { Some("alg:"@) }
    else { None }
}

/// The label-prefix table: MyST colon prefix -> Quarto hyphen prefix.
pub open spec fn spec_label_prefix(key: Seq<char>) -> Option<Seq<char>> {
    if key == "fig:"@ { Some("fig-"@) }
    else if key == "tab:"@ { Some("tbl-"@) }
    else if key == "eq:"@ { Some("eq-"@) }
    else if key == "sec:"@ { Some("sec-"@) }
    else if key == "thm:"@ { Some("thm-"@) }
    else if key == "lem:"@ { Some("lem-"@) }
    else if key == "cor:"@ { Some("cor-"@) }
    else if key == "prp:"@ { Some("prp-"@) }
    else if key == "cnj:"@ { Some("cnj-"@) }
    else if key == "def:"@ { Some("def-"@) }
    else if key == "exm:"@ { Some("exm-"@) }
    else if key == "exr:"@ { Some("exr-"@) }
    else if key == "sol:"@ { Some("sol-"@) }
    else if key == "rem:"@ { Some("rem-"@) }
    else if key == "alg:"@ { Some("alg-"@) }
    else { None }
}

/// The prefix key a label of this kind would carry.
pub open spec fn spec_inferred_prefix_key(kind: RefKindView) -> Option<Seq<char>> {
    match kind {
        RefKindView::Section => Some("sec:"@),
        RefKindView::Figure => Some("fig:"@),
        RefKindView::Table => Some("tab:"@),
        RefKindView::Equation => Some("eq:"@),
        RefKindView::CodeCell => Some("fig:"@),
        RefKindView::Theorem(subtype) => spec_theorem_prefix(subtype),
        RefKindView::Generic => None,
    }
}

/// A character of a Quarto id: lowercase ASCII letter, digit or hyphen.
pub open spec fn id_char(c: char) -> bool {
    ('a' <= c <= 'z') || ('0' <= c <= '9') || c == '-'
}

/// What one input character becomes in an id: lowercased, `_`/`:` turned
/// into `-`, anything else outside `[a-z0-9-]` dropped.
pub open spec fn sanitize_char(c: char) -> Option<char> {
    if 'A' <= c <= 'Z' {
        Some((c as u32 + 32) as char)
    } else if id_char(c) {
        Some(c)
    } else if c == '_' || c == ':' {
        Some('-')
    } else {
        None
    }
}

/// Rule 4 over a whole string.
pub open spec fn sanitize_spec(s: Seq<char>) -> Seq<char>
    decreases s.len(),
{
    if s.len() == 0 {
        Seq::empty()
    } else {
        sanitize_spec(s.drop_last()) + match sanitize_char(s.last()) {
            Some(c) => seq![c],
            None => Seq::empty(),
        }
    }
}

/// The id before sanitizing: the raw label with a recognized prefix
/// substituted, or an inferred prefix prepended when there is no colon.
pub open spec fn prefixed(raw: Seq<char>, kind: RefKindView) -> Seq<char> {
    let p = first_of(raw, 0, ':');
    if p < raw.len() {
        let prefix = raw.subrange(0, p);
        let rest = raw.subrange(p + 1, raw.len() as int);
        if prefix == "nb"@ {
            "fig-"@ + rest
        } else {
            match spec_label_prefix(prefix.push(':')) {
                Some(q) => q + rest,
                None => raw,
            }
        }
    } else {
        match spec_inferred_prefix_key(kind) {
            Some(key) => match spec_label_prefix(key) {
                Some(q) => q + raw,
                None => raw,
            },
            None => raw,
        }
    }
}

/// The normalized id of a raw label attached to a construct of `kind`.
pub open spec fn spec_normalize(raw: Seq<char>, kind: RefKindView) -> Seq<char> {
    sanitize_spec(prefixed(raw, kind))
}

/// Maps a MyST `prf:` theorem subtype to its prefix key.
pub fn theorem_prefix(subtype: &str) -> (r: Option<&'static str>)
    ensures
        match r {
            Some(p) => spec_theorem_prefix(subtype@) == Some(p@),
            None => spec_theorem_prefix(subtype@) is None,
        },
{
    let s = chars_of(subtype);
    if eq_chars(&s, &chars_of("theorem")) { Some("thm:") }
    else if eq_chars(&s, &chars_of("lemma")) { Some("lem:") }
    else if eq_chars(&s, &chars_of("corollary")) { Some("cor:") }
    else if eq_chars(&s, &chars_of("proposition")) { Some("prp:") }
    else if eq_chars(&s, &chars_of("conjecture")) { Some("cnj:") }
    else if eq_chars(&s, &chars_of("definition")) { Some("def:") }
    else if eq_chars(&s, &chars_of("example")) { Some("exm:") }
    else if eq_chars(&s, &chars_of("exercise")) { Some("exr:") }
    else if eq_chars(&s, &chars_of("solution")) { Some("sol:") }
    else if eq_chars(&s, &chars_of("remark")) { Some("rem:") }
    else if eq_chars(&s, &chars_of("algorithm")) { Some("alg:") }
    else { None }
}

fn inferred_prefix_key(kind: &RefKind) -> (r: Option<&'static str>)
    ensures
        match r {
            Some(p) => spec_inferred_prefix_key(kind@) == Some(p@),
            None => spec_inferred_prefix_key(kind@) is None,
        },
{
    match kind {
        RefKind::Section => Some("sec:"),
        RefKind::Figure => Some("fig:"),
        RefKind::Table => Some("tab:"),
        RefKind::Equation => Some("eq:"),
        RefKind::CodeCell => Some("fig:"),
        RefKind::Theorem { subtype } => theorem_prefix(subtype.as_str()),
        RefKind::Generic => None,
    }
}

fn label_prefix_quarto(key: &Vec<char>) -> (r: Option<&'static str>)
    ensures
        match r {
            Some(q) => spec_label_prefix(key@) == Some(q@),
            None => spec_label_prefix(key@) is None,
        },
{
    if eq_chars(key, &chars_of("fig:")) { Some("fig-") }
    else if eq_chars(key, &chars_of("tab:")) { Some("tbl-") }
    else if eq_chars(key, &chars_of("eq:")) { Some("eq-") }
    else if eq_chars(key, &chars_of("sec:")) { Some("sec-") }
    else if eq_chars(key, &chars_of("thm:")) { Some("thm-") }
    else if eq_chars(key, &chars_of("lem:")) { Some("lem-") }
    else if eq_chars(key, &chars_of("cor:")) { Some("cor-") }
    else if eq_chars(key, &chars_of("prp:")) { Some("prp-") }
    else if eq_chars(key, &chars_of("cnj:")) { Some("cnj-") }
    else if eq_chars(key, &chars_of("def:")) { Some("def-") }
    else if eq_chars(key, &chars_of("exm:")) { Some("exm-") }
    else if eq_chars(key, &chars_of("exr:")) { Some("exr-") }
    else if eq_chars(key, &chars_of("sol:")) { Some("sol-") }
    else if eq_chars(key, &chars_of("rem:")) { Some("rem-") }
    else if eq_chars(key, &chars_of("alg:")) { Some("alg-") }
    else { None }
}

fn sanitize_one(c: char) -> (r: Option<char>)
    ensures
        r == sanitize_char(c),
{
    if 'A' <= c && c <= 'Z' {
        let l = ((c as u8) + 32) as char;
        assert(l == (c as u32 + 32) as char);
        Some(l)
    } else if ('a' <= c && c <= 'z') || ('0' <= c && c <= '9') || c == '-' {
        Some(c)
    } else if c == '_' || c == ':' {
        Some('-')
    } else {
        None
    }
}

fn sanitize(s: &Vec<char>) -> (r: Vec<char>)
    ensures
        r@ == sanitize_spec(s@),
{
    let mut out: Vec<char> = Vec::new();
    let mut k: usize = 0;
    while k < s.len()
        invariant
            k <= s@.len(),
            out@ == sanitize_spec(s@.subrange(0, k as int)),
        decreases s.len() - k,
    {
        let ghost prev = out@;
        match sanitize_one(s[k]) {
            Some(c) => out.push(c),
            None => {},
        }
        assert(s@.subrange(0, k + 1).drop_last() =~= s@.subrange(0, k as int));
        assert(out@ =~= sanitize_spec(s@.subrange(0, k + 1)));
        k = k + 1;
    }
    assert(s@.subrange(0, s@.len() as int) =~= s@);
    out
}

fn prefix_then(q: &str, rest: &Vec<char>) -> (r: Vec<char>)
    ensures
        r@ == q@ + rest@,
{
    let mut out = chars_of(q);
    push_all(&mut out, rest);
    out
}

/// Normalizes one raw MyST-side label into a Quarto-legal id: a recognized
/// `kind:` prefix becomes its Quarto prefix (`tab:` -> `tbl-`), an unprefixed
/// label gets the prefix its construct implies, and the result is lowercased
/// with `_`/`:` as `-` and anything outside `[a-z0-9-]` dropped.
pub fn normalize(raw: &str, kind: RefKind) -> (r: String)
    ensures
        r@ == spec_normalize(raw@, kind@),
        forall|k: int| 0 <= k < r@.len() ==> id_char(#[trigger] r@[k]),
{
    let v = chars_of(raw);
    let p = find_char(&v, 0, ':');
    let with_prefix: Vec<char> = if p < v.len() {
        let prefix = slice_chars(&v, 0, p);
        let rest = slice_chars(&v, p + 1, v.len());
        if eq_chars(&prefix, &chars_of("nb")) {
            prefix_then("fig-", &rest)
        } else {
            let mut key = prefix.clone();
            key.push(':');
            match label_prefix_quarto(&key) {
                Some(q) => prefix_then(q, &rest),
                None => v.clone(),
            }
        }
    } else {
        match inferred_prefix_key(&kind) {
            Some(key) => match label_prefix_quarto(&chars_of(key)) {
                Some(q) => prefix_then(q, &v),
                None => v.clone(),
            },
            None => v.clone(),
        }
    };
    let out = sanitize(&with_prefix);
    proof {
        lemma_sanitize_legal(with_prefix@);
    }
    string_of(&out)
}

/// Every character `sanitize_spec` emits is an id character.
pub proof fn lemma_sanitize_legal(s: Seq<char>)
    ensures
        forall|k: int| 0 <= k < sanitize_spec(s).len() ==> id_char(#[trigger] sanitize_spec(s)[k]),
    decreases s.len(),
{
    if s.len() > 0 {
        lemma_sanitize_legal(s.drop_last());
        let c = s.last();
        let a = sanitize_spec(s.drop_last());
        let b = match sanitize_char(c) {
            Some(x) => seq![x],
            None => Seq::<char>::empty(),
        };
        if 'A' <= c <= 'Z' {
            let d = (c as u32 + 32) as char;
            assert(97 <= d as u32 <= 122);
            assert(id_char(d));
        }
        assert(sanitize_spec(s) == a + b);
        assert forall|k: int| 0 <= k < (a + b).len() implies id_char(#[trigger] (a + b)[k]) by {
            if k < a.len() {
                assert((a + b)[k] == a[k]);
            } else {
                assert((a + b)[k] == b[k - a.len()]);
            }
        }
    }
}

} // verus!

verus! {

/// Sanitizing text made only of id characters leaves it unchanged.
pub proof fn lemma_sanitize_fixed(s: Seq<char>)
    requires
        forall|k: int| 0 <= k < s.len() ==> id_char(#[trigger] s[k]),
    ensures
        sanitize_spec(s) == s,
    decreases s.len(),
{
    if s.len() > 0 {
        assert forall|k: int| 0 <= k < s.drop_last().len() implies id_char(#[trigger] s.drop_last()[k]) by {
            assert(s.drop_last()[k] == s[k]);
        }
        lemma_sanitize_fixed(s.drop_last());
        assert(id_char(s[s.len() - 1]));
        assert(s.drop_last().push(s.last()) =~= s);
    }
}

/// Law: a normalized id is already normal. Normalizing it again as a
/// generic label gives it back unchanged.
pub proof fn lemma_normalize_idempotent(raw: Seq<char>, kind: RefKindView)
    ensures
        spec_normalize(spec_normalize(raw, kind), RefKindView::Generic) == spec_normalize(raw, kind),
{
    let s = spec_normalize(raw, kind);
    lemma_sanitize_legal(prefixed(raw, kind));
    crate::text::lemma_first_of(s, 0, ':');
    if first_of(s, 0, ':') < s.len() {
        assert(id_char(s[first_of(s, 0, ':')]));
    }
    assert(prefixed(s, RefKindView::Generic) == s);
    lemma_sanitize_fixed(s);
}

} // verus!

verus! {

/// Sanitizing works character by character, so it splits over a
/// concatenation.
proof fn lemma_sanitize_concat(a: Seq<char>, b: Seq<char>)
    ensures
        sanitize_spec(a + b) == sanitize_spec(a) + sanitize_spec(b),
    decreases b.len(),
{
    if b.len() == 0 {
        assert(a + b =~= a);
        assert(sanitize_spec(a) + sanitize_spec(b) =~= sanitize_spec(a));
    } else {
        assert((a + b).drop_last() =~= a + b.drop_last());
        assert((a + b).last() == b.last());
        lemma_sanitize_concat(a, b.drop_last());
        assert(sanitize_spec(a + b) =~= sanitize_spec(a) + sanitize_spec(b));
    }
}

proof fn lemma_no_colon_generic(raw: Seq<char>)
    requires
        !raw.contains(':'),
    ensures
        first_of(raw, 0, ':') == raw.len(),
        prefixed(raw, RefKindView::Generic) == raw,
{
    crate::text::lemma_first_of(raw, 0, ':');
    if first_of(raw, 0, ':') < raw.len() {
        assert(raw[first_of(raw, 0, ':')] == ':');
    }
}

/// The `prf:` subtype whose Quarto id prefix is `q`.
spec fn subtype_of_quarto_prefix(q: Seq<char>) -> Seq<char> {
    if q == "thm-"@ {
        "theorem"@
    } else if q == "lem-"@ {
        "lemma"@
    } else if q == "cor-"@ {
        "corollary"@
    } else if q == "prp-"@ {
        "proposition"@
    } else if q == "cnj-"@ {
        "conjecture"@
    } else if q == "def-"@ {
        "definition"@
    } else if q == "exm-"@ {
        "example"@
    } else if q == "exr-"@ {
        "exercise"@
    } else if q == "sol-"@ {
        "solution"@
    } else if q == "rem-"@ {
        "remark"@
    } else if q == "alg-"@ {
        "algorithm"@
    } else {
        Seq::empty()
    }
}

/// A theorem-family Quarto prefix: three letters and a hyphen.
proof fn lemma_quarto_prefix_shape(q: Seq<char>)
    requires
        q == "thm-"@ || q == "lem-"@ || q == "cor-"@ || q == "prp-"@ || q == "cnj-"@ || q == "def-"@ || q == "exm-"@ || q == "exr-"@ || q == "sol-"@ || q == "rem-"@ || q == "alg-"@,
    ensures
        q.len() == 4,
        q[3] == '-',
        forall|k: int| 0 <= k < 4 ==> id_char(#[trigger] q[k]),
{
    reveal_strlit("thm-");
    reveal_strlit("lem-");
    reveal_strlit("cor-");
    reveal_strlit("prp-");
    reveal_strlit("cnj-");
    reveal_strlit("def-");
    reveal_strlit("exm-");
    reveal_strlit("exr-");
    reveal_strlit("sol-");
    reveal_strlit("rem-");
    reveal_strlit("alg-");
}

/// The Quarto prefixes of the theorem-family keys.
proof fn lemma_theorem_key_table()
    ensures
        spec_label_prefix("thm:"@) == Some("thm-"@),
        spec_label_prefix("lem:"@) == Some("lem-"@),
        spec_label_prefix("cor:"@) == Some("cor-"@),
        spec_label_prefix("prp:"@) == Some("prp-"@),
        spec_label_prefix("cnj:"@) == Some("cnj-"@),
        spec_label_prefix("def:"@) == Some("def-"@),
        spec_label_prefix("exm:"@) == Some("exm-"@),
        spec_label_prefix("exr:"@) == Some("exr-"@),
        spec_label_prefix("sol:"@) == Some("sol-"@),
        spec_label_prefix("rem:"@) == Some("rem-"@),
        spec_label_prefix("alg:"@) == Some("alg-"@),
{
    reveal_strlit("fig:");
    reveal_strlit("tab:");
    reveal_strlit("eq:");
    reveal_strlit("sec:");
    reveal_strlit("thm:");
    reveal_strlit("lem:");
    reveal_strlit("cor:");
    reveal_strlit("prp:");
    reveal_strlit("cnj:");
    reveal_strlit("def:");
    reveal_strlit("exm:");
    reveal_strlit("exr:");
    reveal_strlit("sol:");
    reveal_strlit("rem:");
    reveal_strlit("alg:");
    assert("fig:"@[0] == 'f' && "fig:"@[1] == 'i' && "fig:"@[2] == 'g');
    assert("tab:"@[0] == 't' && "tab:"@[1] == 'a' && "tab:"@[2] == 'b');
    assert("sec:"@[0] == 's' && "sec:"@[1] == 'e' && "sec:"@[2] == 'c');
    assert("thm:"@[0] == 't' && "thm:"@[1] == 'h' && "thm:"@[2] == 'm');
    assert("lem:"@[0] == 'l' && "lem:"@[1] == 'e' && "lem:"@[2] == 'm');
    assert("cor:"@[0] == 'c' && "cor:"@[1] == 'o' && "cor:"@[2] == 'r');
    assert("prp:"@[0] == 'p' && "prp:"@[1] == 'r' && "prp:"@[2] == 'p');
    assert("cnj:"@[0] == 'c' && "cnj:"@[1] == 'n' && "cnj:"@[2] == 'j');
    assert("def:"@[0] == 'd' && "def:"@[1] == 'e' && "def:"@[2] == 'f');
    assert("exm:"@[0] == 'e' && "exm:"@[1] == 'x' && "exm:"@[2] == 'm');
    assert("exr:"@[0] == 'e' && "exr:"@[1] == 'x' && "exr:"@[2] == 'r');
    assert("sol:"@[0] == 's' && "sol:"@[1] == 'o' && "sol:"@[2] == 'l');
    assert("rem:"@[0] == 'r' && "rem:"@[1] == 'e' && "rem:"@[2] == 'm');
    assert("alg:"@[0] == 'a' && "alg:"@[1] == 'l' && "alg:"@[2] == 'g');
    assert("eq:"@[0] == 'e' && "eq:"@[1] == 'q');
}

/// Each theorem-family Quarto prefix names its subtype back.
proof fn lemma_quarto_prefix_inverse()
    ensures
        subtype_of_quarto_prefix("thm-"@) == "theorem"@,
        subtype_of_quarto_prefix("lem-"@) == "lemma"@,
        subtype_of_quarto_prefix("cor-"@) == "corollary"@,
        subtype_of_quarto_prefix("prp-"@) == "proposition"@,
        subtype_of_quarto_prefix("cnj-"@) == "conjecture"@,
        subtype_of_quarto_prefix("def-"@) == "definition"@,
        subtype_of_quarto_prefix("exm-"@) == "example"@,
        subtype_of_quarto_prefix("exr-"@) == "exercise"@,
        subtype_of_quarto_prefix("sol-"@) == "solution"@,
        subtype_of_quarto_prefix("rem-"@) == "remark"@,
        subtype_of_quarto_prefix("alg-"@) == "algorithm"@,
{
    reveal_strlit("thm-");
    reveal_strlit("lem-");
    reveal_strlit("cor-");
    reveal_strlit("prp-");
    reveal_strlit("cnj-");
    reveal_strlit("def-");
    reveal_strlit("exm-");
    reveal_strlit("exr-");
    reveal_strlit("sol-");
    reveal_strlit("rem-");
    reveal_strlit("alg-");
    assert("thm-"@[0] == 't' && "thm-"@[1] == 'h' && "thm-"@[2] == 'm');
    assert("lem-"@[0] == 'l' && "lem-"@[1] == 'e' && "lem-"@[2] == 'm');
    assert("cor-"@[0] == 'c' && "cor-"@[1] == 'o' && "cor-"@[2] == 'r');
    assert("prp-"@[0] == 'p' && "prp-"@[1] == 'r' && "prp-"@[2] == 'p');
    assert("cnj-"@[0] == 'c' && "cnj-"@[1] == 'n' && "cnj-"@[2] == 'j');
    assert("def-"@[0] == 'd' && "def-"@[1] == 'e' && "def-"@[2] == 'f');
    assert("exm-"@[0] == 'e' && "exm-"@[1] == 'x' && "exm-"@[2] == 'm');
    assert("exr-"@[0] == 'e' && "exr-"@[1] == 'x' && "exr-"@[2] == 'r');
    assert("sol-"@[0] == 's' && "sol-"@[1] == 'o' && "sol-"@[2] == 'l');
    assert("rem-"@[0] == 'r' && "rem-"@[1] == 'e' && "rem-"@[2] == 'm');
    assert("alg-"@[0] == 'a' && "alg-"@[1] == 'l' && "alg-"@[2] == 'g');
}

/// The Quarto prefix of each `prf:` subtype with an abbreviation.
proof fn lemma_theorem_quarto_prefix(subtype: Seq<char>)
    requires
        spec_theorem_prefix(subtype) is Some,
    ensures
        spec_label_prefix(spec_theorem_prefix(subtype)->0) is Some,
        spec_label_prefix(spec_theorem_prefix(subtype)->0)->0.len() == 4,
        spec_label_prefix(spec_theorem_prefix(subtype)->0)->0[3] == '-',
        forall|k: int| 0 <= k < 4 ==> id_char(#[trigger] spec_label_prefix(spec_theorem_prefix(subtype)->0)->0[k]),
        subtype_of_quarto_prefix(spec_label_prefix(spec_theorem_prefix(subtype)->0)->0) == subtype,
{
    lemma_theorem_key_table();
    lemma_quarto_prefix_inverse();
    reveal_strlit("theorem");
    reveal_strlit("lemma");
    reveal_strlit("corollary");
    reveal_strlit("proposition");
    reveal_strlit("conjecture");
    reveal_strlit("definition");
    reveal_strlit("example");
    reveal_strlit("exercise");
    reveal_strlit("solution");
    reveal_strlit("remark");
    reveal_strlit("algorithm");
    reveal_strlit("thm:");
    reveal_strlit("thm-");
    reveal_strlit("lem:");
    reveal_strlit("lem-");
    reveal_strlit("cor:");
    reveal_strlit("cor-");
    reveal_strlit("prp:");
    reveal_strlit("prp-");
    reveal_strlit("cnj:");
    reveal_strlit("cnj-");
    reveal_strlit("def:");
    reveal_strlit("def-");
    reveal_strlit("exm:");
    reveal_strlit("exm-");
    reveal_strlit("exr:");
    reveal_strlit("exr-");
    reveal_strlit("sol:");
    reveal_strlit("sol-");
    reveal_strlit("rem:");
    reveal_strlit("rem-");
    reveal_strlit("alg:");
    reveal_strlit("alg-");
    reveal_strlit("fig:");
    reveal_strlit("tab:");
    reveal_strlit("eq:");
    reveal_strlit("sec:");
    if subtype == "theorem"@ {
        assert(spec_theorem_prefix(subtype) == Some("thm:"@));
    } else if subtype == "lemma"@ {
        assert(spec_theorem_prefix(subtype) == Some("lem:"@));
    } else if subtype == "corollary"@ {
        assert(spec_theorem_prefix(subtype) == Some("cor:"@));
    } else if subtype == "proposition"@ {
        assert(spec_theorem_prefix(subtype) == Some("prp:"@));
    } else if subtype == "conjecture"@ {
        assert(spec_theorem_prefix(subtype) == Some("cnj:"@));
    } else if subtype == "definition"@ {
        assert(spec_theorem_prefix(subtype) == Some("def:"@));
    } else if subtype == "example"@ {
        assert(spec_theorem_prefix(subtype) == Some("exm:"@));
    } else if subtype == "exercise"@ {
        assert(spec_theorem_prefix(subtype) == Some("exr:"@));
    } else if subtype == "solution"@ {
        assert(spec_theorem_prefix(subtype) == Some("sol:"@));
    } else if subtype == "remark"@ {
        assert(spec_theorem_prefix(subtype) == Some("rem:"@));
    } else if subtype == "algorithm"@ {
        assert(spec_theorem_prefix(subtype) == Some("alg:"@));
    }
    lemma_quarto_prefix_shape(spec_label_prefix(spec_theorem_prefix(subtype)->0)->0);
}

/// An unprefixed label on a `prf:` block with an abbreviation is that
/// subtype's Quarto prefix followed by the label normalized generically.
proof fn lemma_theorem_id_split(raw: Seq<char>, subtype: Seq<char>)
    requires
        !raw.contains(':'),
        spec_theorem_prefix(subtype) is Some,
    ensures
        spec_normalize(raw, RefKindView::Theorem(subtype)) == spec_label_prefix(spec_theorem_prefix(subtype)->0)->0
            + spec_normalize(raw, RefKindView::Generic),
{
    lemma_no_colon_generic(raw);
    lemma_theorem_quarto_prefix(subtype);
    let q = spec_label_prefix(spec_theorem_prefix(subtype)->0)->0;
    lemma_sanitize_concat(q, raw);
    lemma_sanitize_fixed(q);
}

/// Law: an unprefixed label on a `{prf:theorem}` block becomes a Quarto
/// theorem id: `thm-` followed by the label as a plain label would
/// normalize, the same id the label gets when written as `thm:label`.
pub proof fn lemma_theorem_label_id(raw: Seq<char>)
    requires
        !raw.contains(':'),
    ensures
        spec_normalize(raw, RefKindView::Theorem("theorem"@)) == "thm-"@ + spec_normalize(raw, RefKindView::Generic),
        spec_normalize(raw, RefKindView::Theorem("theorem"@)) == spec_normalize("thm:"@ + raw, RefKindView::Generic),
{
    reveal_strlit("thm:");
    reveal_strlit("thm-");
    reveal_strlit("thm");
    reveal_strlit("nb");
    reveal_strlit("fig:");
    reveal_strlit("tab:");
    reveal_strlit("eq:");
    reveal_strlit("sec:");
    lemma_theorem_id_split(raw, "theorem"@);
    let t = "thm:"@ + raw;
    crate::text::lemma_first_of(t, 0, ':');
    assert("thm:"@.len() == 4);
    assert(t[0] == 't' && t[1] == 'h' && t[2] == 'm' && t[3] == ':');
    assert(first_of(t, 0, ':') == 3) by {
        assert(t[0] != ':' && t[1] != ':' && t[2] != ':');
        reveal_with_fuel(first_of, 4);
    }
    assert(t.subrange(0, 3) =~= "thm"@);
    assert(t.subrange(0, 3).push(':') =~= "thm:"@);
    assert(t.subrange(4, t.len() as int) =~= raw);
    assert(t.subrange(0, 3) != "nb"@);
    assert(spec_label_prefix("thm:"@) == Some("thm-"@));
    assert(prefixed(t, RefKindView::Generic) == "thm-"@ + raw);
    lemma_no_colon_generic(raw);
    lemma_sanitize_concat("thm-"@, raw);
    assert forall|k: int| 0 <= k < 4 implies id_char(#[trigger] "thm-"@[k]) by {}
    lemma_sanitize_fixed("thm-"@);
}

/// Law: two different `prf:` subtypes that both have an abbreviation never
/// give the same label the same id (theorems and lemmas, say, stay apart).
pub proof fn lemma_theorem_subtypes_distinct(raw: Seq<char>, s1: Seq<char>, s2: Seq<char>)
    requires
        !raw.contains(':'),
        s1 != s2,
        spec_theorem_prefix(s1) is Some,
        spec_theorem_prefix(s2) is Some,
    ensures
        spec_normalize(raw, RefKindView::Theorem(s1)) != spec_normalize(raw, RefKindView::Theorem(s2)),
{
    lemma_theorem_id_split(raw, s1);
    lemma_theorem_id_split(raw, s2);
    let q1 = spec_label_prefix(spec_theorem_prefix(s1)->0)->0;
    let q2 = spec_label_prefix(spec_theorem_prefix(s2)->0)->0;
    let g = spec_normalize(raw, RefKindView::Generic);
    lemma_theorem_quarto_prefix(s1);
    lemma_theorem_quarto_prefix(s2);
    if q1 + g == q2 + g {
        assert forall|k: int| 0 <= k < 4 implies q1[k] == q2[k] by {
            assert((q1 + g)[k] == (q2 + g)[k]);
        }
        assert(q1 =~= q2);
        assert(s1 == subtype_of_quarto_prefix(q1));
    }
}

} // verus!
