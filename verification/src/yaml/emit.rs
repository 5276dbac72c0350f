//! Bounded, deterministic YAML emitter for synthesizing a document from an
//! ordered list of top-level fields, each with an optional comment above it.
//!
//! Supports `|` block-literal scalars, key order exactly as given, nested
//! mappings, sequences (including sequences of small mappings, written in
//! the `- name: ...` style), and comment lines above a top-level key.
use vstd::prelude::*;
use super::{dict_get, fields_view, items_view, lemma_dict_index, lemma_fields_view, lemma_items_view, yview, DictView, YamlValue, YamlView};
use crate::reader::fence::strs;
use crate::reader::lines::{lines_of, split_lines};
use crate::text::{
    chars_of, contains_at_any, contains_chars, dec, eq_chars, push_all, push_decimal, run_end,
    run_end_exec, lemma_run_end, slice_chars, string_of, trim, trim_chars,
};

verus! {

// ---------------------------------------------------------------------------
// Scalars: when a plain string must be quoted, and how.
// ---------------------------------------------------------------------------

/// ASCII lower-casing of one character.
pub open spec fn lower_char(c: char) -> char {
    if 'A' <= c <= 'Z' {
        ((c as u32) + 32) as char
    } else {
        c
    }
}

/// `str::to_ascii_lowercase`.
pub open spec fn ascii_lower(s: Seq<char>) -> Seq<char> {
    Seq::new(s.len(), |i: int| lower_char(s[i]))
}

fn lower_char_exec(c: char) -> (r: char)
    ensures
        r == lower_char(c),
{
    if 'A' <= c && c <= 'Z' {
        let u: u8 = (c as u8) + 32;
        proof {
            assert((c as u32) < 256);
            assert(u as u32 == (c as u32) + 32);
        }
        u as char
    } else {
        c
    }
}

fn ascii_lower_exec(v: &Vec<char>) -> (r: Vec<char>)
    ensures
        r@ == ascii_lower(v@),
{
    let mut out: Vec<char> = Vec::new();
    let mut i: usize = 0;
    while i < v.len()
        invariant
            i <= v@.len(),
            out@ =~= ascii_lower(v@).subrange(0, i as int),
        decreases v.len() - i,
    {
        out.push(lower_char_exec(v[i]));
        i = i + 1;
    }
    out
}

/// An ASCII decimal digit.
pub open spec fn is_digit(c: char) -> bool {
    '0' <= c <= '9'
}

/// End of the run of decimal digits that starts at `i`.
pub open spec fn digit_end(s: Seq<char>, i: int) -> int
    decreases s.len() - i,
{
    if 0 <= i < s.len() && is_digit(s[i]) {
        digit_end(s, i + 1)
    } else {
        i
    }
}

pub proof fn lemma_digit_end(s: Seq<char>, i: int)
    requires
        0 <= i <= s.len(),
    ensures
        i <= digit_end(s, i) <= s.len(),
    decreases s.len() - i,
{
    if i < s.len() && is_digit(s[i]) {
        lemma_digit_end(s, i + 1);
    }
}

fn digit_end_exec(v: &Vec<char>, i: usize) -> (r: usize)
    requires
        i <= v.len(),
    ensures
        r == digit_end(v@, i as int),
        i <= r <= v.len(),
{
    proof { lemma_digit_end(v@, i as int); }
    let mut k = i;
    while k < v.len() && '0' <= v[k] && v[k] <= '9'
        invariant
            i <= k <= v.len(),
            digit_end(v@, k as int) == digit_end(v@, i as int),
        decreases v.len() - k,
    {
        k = k + 1;
    }
    k
}

/// The exponent tail after `e`: an optional sign, then one or more digits to the end.
pub open spec fn exponent_rest(u: Seq<char>, i: int) -> bool {
    let j = if i < u.len() && (u[i] == '+' || u[i] == '-') { i + 1 } else { i };
    let k = digit_end(u, j);
    k > j && k == u.len()
}

/// `Digit+ | Digit+ '.' Digit* | Digit* '.' Digit+`, then an optional exponent.
pub open spec fn number_literal(u: Seq<char>) -> bool {
    let d1 = digit_end(u, 0);
    let dot = d1 < u.len() && u[d1] == '.';
    let d2 = if dot { digit_end(u, d1 + 1) } else { d1 };
    let mantissa = if dot { d1 > 0 || d2 > d1 + 1 } else { d1 > 0 };
    mantissa && (d2 == u.len() || (u[d2] == 'e' && exponent_rest(u, d2 + 1)))
}

/// The text `f64::from_str` accepts: after lower-casing, an optional sign
/// then `inf`, `infinity`, `nan` or a decimal number (no surrounding space).
pub open spec fn float_literal(s: Seq<char>) -> bool {
    let t = ascii_lower(s);
    let b: int = if t.len() > 0 && (t[0] == '+' || t[0] == '-') { 1 } else { 0 };
    let u = t.subrange(b, t.len() as int);
    u == "inf"@ || u == "infinity"@ || u == "nan"@ || number_literal(u)
}

fn number_literal_exec(u: &Vec<char>) -> (r: bool)
    ensures
        r == number_literal(u@),
{
    let d1 = digit_end_exec(u, 0);
    let dot = d1 < u.len() && u[d1] == '.';
    let d2 = if dot { digit_end_exec(u, d1 + 1) } else { d1 };
    let mantissa = if dot { d1 > 0 || d2 > d1 + 1 } else { d1 > 0 };
    if !mantissa {
        return false;
    }
    if d2 == u.len() {
        return true;
    }
    if u[d2] != 'e' {
        return false;
    }
    let i = d2 + 1;
    let j = if i < u.len() && (u[i] == '+' || u[i] == '-') { i + 1 } else { i };
    let k = digit_end_exec(u, j);
    k > j && k == u.len()
}

/// `true` when `s` reads as a floating-point number (`str::parse::<f64>` succeeds).
pub fn is_float_literal(s: &Vec<char>) -> (r: bool)
    ensures
        r == float_literal(s@),
{
    let t = ascii_lower_exec(s);
    let b: usize = if t.len() > 0 && (t[0] == '+' || t[0] == '-') { 1 } else { 0 };
    let u = slice_chars(&t, b, t.len());
    if eq_chars(&u, &chars_of("inf")) || eq_chars(&u, &chars_of("infinity")) || eq_chars(&u, &chars_of("nan")) {
        return true;
    }
    number_literal_exec(&u)
}

/// The words a plain scalar must not be, compared lower-cased: they would
/// read back as a boolean or null.
pub open spec fn reserved_word(l: Seq<char>) -> bool {
    ||| l == "true"@
    ||| l == "false"@
    ||| l == "null"@
    ||| l == "~"@
    ||| l == "yes"@
    ||| l == "no"@
    ||| l == "on"@
    ||| l == "off"@
}

/// A YAML indicator character, which cannot start a plain scalar.
pub open spec fn is_indicator(c: char) -> bool {
    c == '!' || c == '&' || c == '*' || c == '-' || c == '?' || c == '|' || c == '>' || c == '%'
        || c == '@' || c == '`' || c == '"' || c == '\'' || c == '#' || c == ',' || c == '['
        || c == ']' || c == '{' || c == '}' || c == ':'
}

/// Whether writing `s` unquoted would change what it reads back as, or be invalid.
pub open spec fn needs_quoting(s: Seq<char>) -> bool {
    ||| s.len() == 0
    ||| reserved_word(ascii_lower(s))
    ||| float_literal(s)
    ||| is_indicator(s[0])
    ||| contains_at_any(s, ": "@)
    ||| s.last() == ':'
    ||| contains_at_any(s, " #"@)
    ||| s.contains('\n')
    ||| trim(s) != s
}

fn reserved_word_exec(l: &Vec<char>) -> (r: bool)
    ensures
        r == reserved_word(l@),
{
    eq_chars(l, &chars_of("true")) || eq_chars(l, &chars_of("false")) || eq_chars(l, &chars_of("null"))
        || eq_chars(l, &chars_of("~")) || eq_chars(l, &chars_of("yes")) || eq_chars(l, &chars_of("no"))
        || eq_chars(l, &chars_of("on")) || eq_chars(l, &chars_of("off"))
}

pub(crate) fn has_newline(v: &Vec<char>) -> (r: bool)
    ensures
        r == v@.contains('\n'),
{
    let mut i: usize = 0;
    while i < v.len()
        invariant
            i <= v@.len(),
            forall|k: int| 0 <= k < i ==> v@[k] != '\n',
        decreases v.len() - i,
    {
        if v[i] == '\n' {
            assert(v@[i as int] == '\n');
            return true;
        }
        i = i + 1;
    }
    false
}

/// Executable [`needs_quoting`].
pub fn needs_quoting_exec(s: &Vec<char>) -> (r: bool)
    ensures
        r == needs_quoting(s@),
{
    if s.len() == 0 {
        return true;
    }
    let c = s[0];
    let r = reserved_word_exec(&ascii_lower_exec(s)) || is_float_literal(s) || c == '!' || c == '&'
        || c == '*' || c == '-' || c == '?' || c == '|' || c == '>' || c == '%' || c == '@' || c
        == '`' || c == '"' || c == '\'' || c == '#' || c == ',' || c == '[' || c == ']' || c == '{'
        || c == '}' || c == ':' || contains_chars(s, &chars_of(": ")) || s[s.len() - 1] == ':'
        || contains_chars(s, &chars_of(" #")) || has_newline(s) || !eq_chars(&trim_chars(s), s);
    r
}

/// One character escaped for a double-quoted scalar.
pub open spec fn escape_char(c: char) -> Seq<char> {
    if c == '\\' {
        seq!['\\', '\\']
    } else if c == '"' {
        seq!['\\', '"']
    } else {
        seq![c]
    }
}

/// Backslashes and double quotes escaped with a backslash.
pub open spec fn escaped(s: Seq<char>) -> Seq<char>
    decreases s.len(),
{
    if s.len() == 0 {
        Seq::empty()
    } else {
        escaped(s.drop_last()) + escape_char(s.last())
    }
}

/// A plain string as written: double-quoted and escaped where [`needs_quoting`].
pub open spec fn quoted(s: Seq<char>) -> Seq<char> {
    if needs_quoting(s) {
        seq!['"'] + escaped(s) + seq!['"']
    } else {
        s
    }
}

fn push_quoted(out: &mut Vec<char>, s: &Vec<char>)
    ensures
        final(out)@ == old(out)@ + quoted(s@),
{
    if !needs_quoting_exec(s) {
        push_all(out, s);
        return;
    }
    out.push('"');
    let ghost start = out@;
    let mut i: usize = 0;
    while i < s.len()
        invariant
            i <= s@.len(),
            out@ == start + escaped(s@.subrange(0, i as int)),
        decreases s.len() - i,
    {
        let c = s[i];
        let ghost before = out@;
        if c == '\\' {
            out.push('\\');
            out.push('\\');
        } else if c == '"' {
            out.push('\\');
            out.push('"');
        } else {
            out.push(c);
        }
        assert(s@.subrange(0, i + 1).drop_last() =~= s@.subrange(0, i as int));
        assert(out@ =~= before + escape_char(c));
        i = i + 1;
    }
    assert(s@.subrange(0, i as int) =~= s@);
    out.push('"');
    assert(final(out)@ =~= old(out)@ + quoted(s@));
}

/// The decimal text of an integer.
pub open spec fn int_text(i: i64) -> Seq<char> {
    if i < 0 {
        seq!['-'] + dec((-(i as int)) as nat)
    } else {
        dec(i as nat)
    }
}

fn push_u64(out: &mut Vec<char>, n: u64)
    ensures
        final(out)@ == old(out)@ + dec(n as nat),
    decreases n,
{
    if n >= 10 {
        push_u64(out, n / 10);
    }
    let d = (n % 10) as usize;
    push_decimal(out, d);
    assert(dec(d as nat) == seq![crate::text::digit(d as nat)]);
    assert(final(out)@ =~= old(out)@ + dec(n as nat));
}

fn push_int(out: &mut Vec<char>, i: i64)
    ensures
        final(out)@ == old(out)@ + int_text(i),
{
    if i < 0 {
        out.push('-');
        let m: u64 = if i == i64::MIN { 9223372036854775808u64 } else { (-i) as u64 };
        push_u64(out, m);
        assert(final(out)@ =~= old(out)@ + int_text(i));
    } else {
        push_u64(out, i as u64);
    }
}

/// `true` or `false`.
pub open spec fn bool_text(b: bool) -> Seq<char> {
    if b { "true"@ } else { "false"@ }
}

// ---------------------------------------------------------------------------
// Fields, sequences and mappings.
// ---------------------------------------------------------------------------

/// The two spaces each nesting level adds.
pub open spec fn sp2() -> Seq<char> {
    seq![' ', ' ']
}

/// `s` with `pad` written after every newline.
pub open spec fn indent_newlines(s: Seq<char>, pad: Seq<char>) -> Seq<char>
    decreases s.len(),
{
    if s.len() == 0 {
        Seq::empty()
    } else if s.last() == '\n' {
        indent_newlines(s.drop_last(), pad) + seq!['\n'] + pad
    } else {
        indent_newlines(s.drop_last(), pad).push(s.last())
    }
}

/// `key: |` then the content's lines indented one level deeper (one
/// trailing newline of the content is not written as an empty last line).
pub open spec fn block_text(key: Seq<char>, content: Seq<char>, pad: Seq<char>) -> Seq<char> {
    let body = if content.len() > 0 && content.last() == '\n' { content.drop_last() } else { content };
    let head = pad + key + ": |"@;
    if body.len() == 0 {
        head
    } else {
        head + seq!['\n'] + pad + sp2() + indent_newlines(body, pad + sp2())
    }
}

/// A scalar as it is written after `- ` in a sequence.
pub open spec fn inline_text(v: YamlView) -> Seq<char> {
    match v {
        YamlView::Str(s) => quoted(s),
        YamlView::Block(s) => quoted(s),
        YamlView::Int(i) => int_text(i),
        YamlView::Float(t) => t,
        YamlView::Bool(b) => bool_text(b),
        YamlView::Null => "null"@,
        _ => Seq::empty(),
    }
}

/// `s` without its leading spaces.
pub open spec fn strip_spaces(s: Seq<char>) -> Seq<char> {
    s.subrange(run_end(s, 0, ' '), s.len() as int)
}

/// One `key: value` field at indent `pad`, with no trailing newline.
pub open spec fn field_text(key: Seq<char>, v: YamlView, pad: Seq<char>) -> Seq<char>
    decreases v,
{
    match v {
        YamlView::Str(s) => pad + key + ": "@ + quoted(s),
        YamlView::Block(s) => block_text(key, s, pad),
        YamlView::Int(i) => pad + key + ": "@ + int_text(i),
        YamlView::Float(t) => pad + key + ": "@ + t,
        YamlView::Bool(b) => pad + key + ": "@ + bool_text(b),
        YamlView::Null => pad + key + ": null"@,
        YamlView::List(items) => if items.len() == 0 {
            pad + key + ": []"@
        } else {
            pad + key + ":\n"@ + items_text(items, pad + sp2())
        },
        YamlView::Dict(fields) => if fields.len() == 0 {
            pad + key + ": {}"@
        } else {
            pad + key + ":\n"@ + fields_text(fields, pad + sp2())
        },
    }
}

/// Fields at indent `pad`, one per line.
pub open spec fn fields_text(fields: DictView, pad: Seq<char>) -> Seq<char>
    decreases fields,
{
    if fields.len() == 0 {
        Seq::empty()
    } else if fields.len() == 1 {
        field_text(fields[0].0, fields[0].1, pad)
    } else {
        fields_text(fields.drop_last(), pad) + seq!['\n'] + field_text(fields.last().0, fields.last().1, pad)
    }
}

/// Sequence items at indent `pad`, one `- ` entry after another.
pub open spec fn items_text(items: Seq<YamlView>, pad: Seq<char>) -> Seq<char>
    decreases items,
{
    if items.len() == 0 {
        Seq::empty()
    } else if items.len() == 1 {
        item_text(items[0], pad)
    } else {
        items_text(items.drop_last(), pad) + seq!['\n'] + item_text(items.last(), pad)
    }
}

/// One sequence item: a mapping puts its first key on the `- ` line and
/// aligns the rest under it; a nested sequence starts on the next line.
pub open spec fn item_text(v: YamlView, pad: Seq<char>) -> Seq<char>
    decreases v,
{
    match v {
        YamlView::Dict(fields) => pad + "- "@ + dict_item_text(fields, pad + sp2()),
        YamlView::List(items) => pad + "-\n"@ + items_text(items, pad + sp2()),
        _ => pad + "- "@ + inline_text(v),
    }
}

/// A mapping as a sequence item, after its `- `.
pub open spec fn dict_item_text(fields: DictView, pad: Seq<char>) -> Seq<char>
    decreases fields,
{
    if fields.len() == 0 {
        Seq::empty()
    } else if fields.len() == 1 {
        strip_spaces(field_text(fields[0].0, fields[0].1, pad))
    } else {
        dict_item_text(fields.drop_last(), pad) + seq!['\n'] + field_text(fields.last().0, fields.last().1, pad)
    }
}

/// A value the emitter can write: no sequence holds an empty sequence or
/// an empty mapping as an item (such an item has no block form here).
pub open spec fn emittable(v: YamlView) -> bool
    decreases v,
{
    match v {
        YamlView::List(items) => items_emittable(items),
        YamlView::Dict(fields) => fields_emittable(fields),
        _ => true,
    }
}

pub open spec fn items_emittable(items: Seq<YamlView>) -> bool
    decreases items,
{
    if items.len() == 0 {
        true
    } else {
        items_emittable(items.drop_last()) && item_ok(items.last())
    }
}

pub open spec fn fields_emittable(fields: DictView) -> bool
    decreases fields,
{
    if fields.len() == 0 {
        true
    } else {
        fields_emittable(fields.drop_last()) && emittable(fields.last().1)
    }
}

/// A value that can stand as a sequence item.
pub open spec fn item_ok(v: YamlView) -> bool
    decreases v,
{
    match v {
        YamlView::List(items) => items.len() > 0 && items_emittable(items),
        YamlView::Dict(fields) => fields.len() > 0 && fields_emittable(fields),
        _ => true,
    }
}

pub proof fn lemma_items_emittable(items: Seq<YamlView>)
    ensures
        items_emittable(items) <==> forall|i: int| 0 <= i < items.len() ==> #[trigger] item_ok(items[i]),
    decreases items.len(),
{
    if items.len() > 0 {
        lemma_items_emittable(items.drop_last());
        if items_emittable(items) {
            assert forall|i: int| 0 <= i < items.len() implies #[trigger] item_ok(items[i]) by {
                if i < items.len() - 1 {
                    assert(items.drop_last()[i] == items[i]);
                }
            }
        }
        if forall|i: int| 0 <= i < items.len() ==> #[trigger] item_ok(items[i]) {
            assert forall|i: int| 0 <= i < items.drop_last().len() implies #[trigger] item_ok(items.drop_last()[i]) by {
                assert(items.drop_last()[i] == items[i]);
            }
            assert(item_ok(items[items.len() - 1]));
        }
    }
}

pub proof fn lemma_fields_emittable(fields: DictView)
    ensures
        fields_emittable(fields) <==> forall|i: int| 0 <= i < fields.len() ==> #[trigger] emittable(fields[i].1),
    decreases fields.len(),
{
    if fields.len() > 0 {
        lemma_fields_emittable(fields.drop_last());
        if fields_emittable(fields) {
            assert forall|i: int| 0 <= i < fields.len() implies #[trigger] emittable(fields[i].1) by {
                if i < fields.len() - 1 {
                    assert(fields.drop_last()[i] == fields[i]);
                }
            }
        }
        if forall|i: int| 0 <= i < fields.len() ==> #[trigger] emittable(fields[i].1) {
            assert forall|i: int| 0 <= i < fields.drop_last().len() implies #[trigger] emittable(fields.drop_last()[i].1) by {
                assert(fields.drop_last()[i] == fields[i]);
            }
            assert(emittable(fields[fields.len() - 1].1));
        }
    }
}

fn padded(pad: &Vec<char>) -> (r: Vec<char>)
    ensures
        r@ == pad@ + sp2(),
{
    let mut r: Vec<char> = Vec::new();
    push_all(&mut r, pad);
    r.push(' ');
    r.push(' ');
    assert(r@ =~= pad@ + sp2());
    r
}

fn push_block(out: &mut Vec<char>, key: &Vec<char>, content: &String, pad: &Vec<char>)
    ensures
        final(out)@ == old(out)@ + block_text(key@, content@, pad@),
{
    let c = chars_of(content.as_str());
    let body = if c.len() > 0 && c[c.len() - 1] == '\n' { slice_chars(&c, 0, c.len() - 1) } else { slice_chars(&c, 0, c.len()) };
    assert(body@ == if c@.len() > 0 && c@.last() == '\n' { c@.drop_last() } else { c@ }) by {
        if c@.len() > 0 && c@.last() == '\n' {
            assert(body@ =~= c@.drop_last());
        } else {
            assert(body@ =~= c@);
        }
    }
    push_all(out, pad);
    push_all(out, key);
    push_all(out, &chars_of(": |"));
    if body.len() == 0 {
        return;
    }
    out.push('\n');
    let inner = padded(pad);
    push_all(out, &inner);
    let ghost start = out@;
    let mut i: usize = 0;
    while i < body.len()
        invariant
            i <= body@.len(),
            inner@ == pad@ + sp2(),
            out@ == start + indent_newlines(body@.subrange(0, i as int), inner@),
        decreases body.len() - i,
    {
        assert(body@.subrange(0, i + 1).drop_last() =~= body@.subrange(0, i as int));
        if body[i] == '\n' {
            out.push('\n');
            push_all(out, &inner);
        } else {
            out.push(body[i]);
        }
        assert(out@ =~= start + indent_newlines(body@.subrange(0, i + 1), inner@));
        i = i + 1;
    }
    assert(body@.subrange(0, i as int) =~= body@);
    assert(final(out)@ =~= old(out)@ + block_text(key@, content@, pad@));
}

fn push_inline(out: &mut Vec<char>, v: &YamlValue)
    ensures
        final(out)@ == old(out)@ + inline_text(v@),
{
    match v {
        YamlValue::String(s) => push_quoted(out, &chars_of(s.as_str())),
        YamlValue::BlockLiteral(s) => push_quoted(out, &chars_of(s.as_str())),
        YamlValue::Int(i) => push_int(out, *i),
        YamlValue::Float(t) => push_all(out, &chars_of(t.as_str())),
        YamlValue::Bool(b) => {
            if *b {
                push_all(out, &chars_of("true"));
            } else {
                push_all(out, &chars_of("false"));
            }
        },
        YamlValue::Null => push_all(out, &chars_of("null")),
        _ => {
            assert(inline_text(v@) =~= Seq::<char>::empty());
            assert(final(out)@ =~= old(out)@ + inline_text(v@));
        },
    }
}

/// Appends one field at indent `pad`.
fn push_field(out: &mut Vec<char>, key: &Vec<char>, v: &YamlValue, pad: &Vec<char>)
    requires
        emittable(v@),
    ensures
        final(out)@ == old(out)@ + field_text(key@, v@, pad@),
    decreases v,
{
    match v {
        YamlValue::BlockLiteral(s) => {
            push_block(out, key, s, pad);
            return;
        },
        _ => {},
    }
    push_all(out, pad);
    push_all(out, key);
    match v {
        YamlValue::String(s) => {
            push_all(out, &chars_of(": "));
            push_quoted(out, &chars_of(s.as_str()));
        },
        YamlValue::BlockLiteral(_) => {},
        YamlValue::Int(i) => {
            push_all(out, &chars_of(": "));
            push_int(out, *i);
        },
        YamlValue::Float(t) => {
            push_all(out, &chars_of(": "));
            push_all(out, &chars_of(t.as_str()));
        },
        YamlValue::Bool(b) => {
            push_all(out, &chars_of(": "));
            if *b {
                push_all(out, &chars_of("true"));
            } else {
                push_all(out, &chars_of("false"));
            }
        },
        YamlValue::Null => push_all(out, &chars_of(": null")),
        YamlValue::Sequence(items) => {
            proof { lemma_items_view(items@); }
            if items.len() == 0 {
                push_all(out, &chars_of(": []"));
            } else {
                push_all(out, &chars_of(":\n"));
                let inner = padded(pad);
                push_items(out, items, &inner);
            }
        },
        YamlValue::Mapping(fields) => {
            proof { lemma_fields_view(fields@); }
            if fields.len() == 0 {
                push_all(out, &chars_of(": {}"));
            } else {
                push_all(out, &chars_of(":\n"));
                let inner = padded(pad);
                push_fields(out, fields, &inner);
            }
        },
    }
    assert(final(out)@ =~= old(out)@ + field_text(key@, v@, pad@));
}

/// Appends fields at indent `pad`, one per line.
fn push_fields(out: &mut Vec<char>, fields: &Vec<(String, YamlValue)>, pad: &Vec<char>)
    requires
        fields_emittable(fields_view(fields@)),
    ensures
        final(out)@ == old(out)@ + fields_text(fields_view(fields@), pad@),
    decreases fields@,
{
    let ghost fv = fields_view(fields@);
    proof {
        lemma_fields_view(fields@);
        lemma_fields_emittable(fv);
    }
    let ghost start = out@;
    let mut i: usize = 0;
    while i < fields.len()
        invariant
            i <= fields@.len(),
            fv == fields_view(fields@),
            fv.len() == fields@.len(),
            forall|k: int| 0 <= k < fields@.len() ==> #[trigger] fv[k] == (fields@[k].0@, yview(fields@[k].1)),
            forall|k: int| 0 <= k < fv.len() ==> #[trigger] emittable(fv[k].1),
            out@ == start + fields_text(fv.subrange(0, i as int), pad@),
        decreases fields.len() - i,
    {
        assert(fv.subrange(0, i + 1).drop_last() =~= fv.subrange(0, i as int));
        assert(fv.subrange(0, i + 1).last() == fv[i as int]);
        if i > 0 {
            out.push('\n');
        }
        let key = chars_of(fields[i].0.as_str());
        assert(emittable(fv[i as int].1));
        push_field(out, &key, &fields[i].1, pad);
        assert(out@ =~= start + fields_text(fv.subrange(0, i + 1), pad@));
        i = i + 1;
    }
    assert(fv.subrange(0, i as int) =~= fv);
}

/// Appends sequence items at indent `pad`.
fn push_items(out: &mut Vec<char>, items: &Vec<YamlValue>, pad: &Vec<char>)
    requires
        items_emittable(items_view(items@)),
    ensures
        final(out)@ == old(out)@ + items_text(items_view(items@), pad@),
    decreases items@,
{
    let ghost iv = items_view(items@);
    proof {
        lemma_items_view(items@);
        lemma_items_emittable(iv);
    }
    let ghost start = out@;
    let mut i: usize = 0;
    while i < items.len()
        invariant
            i <= items@.len(),
            iv == items_view(items@),
            iv.len() == items@.len(),
            forall|k: int| 0 <= k < items@.len() ==> #[trigger] iv[k] == yview(items@[k]),
            forall|k: int| 0 <= k < iv.len() ==> #[trigger] item_ok(iv[k]),
            out@ == start + items_text(iv.subrange(0, i as int), pad@),
        decreases items.len() - i,
    {
        assert(iv.subrange(0, i + 1).drop_last() =~= iv.subrange(0, i as int));
        assert(iv.subrange(0, i + 1).last() == iv[i as int]);
        if i > 0 {
            out.push('\n');
        }
        assert(item_ok(iv[i as int]));
        push_item(out, &items[i], pad);
        assert(out@ =~= start + items_text(iv.subrange(0, i + 1), pad@));
        i = i + 1;
    }
    assert(iv.subrange(0, i as int) =~= iv);
}

/// Appends one sequence item at indent `pad`.
fn push_item(out: &mut Vec<char>, v: &YamlValue, pad: &Vec<char>)
    requires
        item_ok(v@),
    ensures
        final(out)@ == old(out)@ + item_text(v@, pad@),
    decreases v,
{
    push_all(out, pad);
    match v {
        YamlValue::Mapping(fields) => {
            push_all(out, &chars_of("- "));
            let inner = padded(pad);
            push_dict_item(out, fields, &inner);
        },
        YamlValue::Sequence(items) => {
            push_all(out, &chars_of("-\n"));
            let inner = padded(pad);
            push_items(out, items, &inner);
        },
        _ => {
            push_all(out, &chars_of("- "));
            push_inline(out, v);
        },
    }
    assert(final(out)@ =~= old(out)@ + item_text(v@, pad@));
}

/// Appends a mapping written as a sequence item, after its `- `.
fn push_dict_item(out: &mut Vec<char>, fields: &Vec<(String, YamlValue)>, pad: &Vec<char>)
    requires
        fields_emittable(fields_view(fields@)),
    ensures
        final(out)@ == old(out)@ + dict_item_text(fields_view(fields@), pad@),
    decreases fields@,
{
    let ghost fv = fields_view(fields@);
    proof {
        lemma_fields_view(fields@);
        lemma_fields_emittable(fv);
    }
    let ghost start = out@;
    let mut i: usize = 0;
    while i < fields.len()
        invariant
            i <= fields@.len(),
            fv == fields_view(fields@),
            fv.len() == fields@.len(),
            forall|k: int| 0 <= k < fields@.len() ==> #[trigger] fv[k] == (fields@[k].0@, yview(fields@[k].1)),
            forall|k: int| 0 <= k < fv.len() ==> #[trigger] emittable(fv[k].1),
            out@ == start + dict_item_text(fv.subrange(0, i as int), pad@),
        decreases fields.len() - i,
    {
        assert(fv.subrange(0, i + 1).drop_last() =~= fv.subrange(0, i as int));
        assert(fv.subrange(0, i + 1).last() == fv[i as int]);
        let key = chars_of(fields[i].0.as_str());
        assert(emittable(fv[i as int].1));
        if i == 0 {
            let mut tmp: Vec<char> = Vec::new();
            push_field(&mut tmp, &key, &fields[i].1, pad);
            let a = run_end_exec(&tmp, 0, ' ');
            push_all(out, &slice_chars(&tmp, a, tmp.len()));
            assert(tmp@ =~= field_text(fv[0].0, fv[0].1, pad@));
        } else {
            out.push('\n');
            push_field(out, &key, &fields[i].1, pad);
        }
        assert(out@ =~= start + dict_item_text(fv.subrange(0, i + 1), pad@));
        i = i + 1;
    }
    assert(fv.subrange(0, i as int) =~= fv);
}

/// One top-level `key: value` field, unindented, with no trailing newline.
pub fn render_field(key: &str, value: &YamlValue) -> (r: String)
    requires
        emittable(value@),
    ensures
        r@ == field_text(key@, value@, Seq::empty()),
{
    let mut out: Vec<char> = Vec::new();
    let pad: Vec<char> = Vec::new();
    push_field(&mut out, &chars_of(key), value, &pad);
    assert(out@ =~= field_text(key@, value@, Seq::empty()));
    string_of(&out)
}

// ---------------------------------------------------------------------------
// Documents.
// ---------------------------------------------------------------------------

/// One top-level field to emit, with an optional comment written as
/// `# ...` lines directly above it.
#[derive(Debug, PartialEq)]
pub struct EmitField {
    pub key: String,
    pub value: YamlValue,
    pub comment: Option<String>,
}

impl EmitField {
    /// A field with no comment.
    pub fn new(key: &str, value: YamlValue) -> (f: EmitField)
        ensures
            f.key@ == key@,
            f.value == value,
            f.comment is None,
    {
        EmitField { key: String::from_str(key), value, comment: None }
    }

    /// This field with `comment` above it.
    pub fn with_comment(self, comment: &str) -> (f: EmitField)
        ensures
            f.key == self.key,
            f.value == self.value,
            f.comment matches Some(c) && c@ == comment@,
    {
        EmitField { key: self.key, value: self.value, comment: Some(String::from_str(comment)) }
    }
}

/// An ordered document: top-level fields in the order they are written.
#[derive(Debug, PartialEq)]
pub struct YamlDoc(pub Vec<EmitField>);

/// Each line of a comment as `# line` and a newline.
pub open spec fn comment_text(lines: Seq<Seq<char>>) -> Seq<char>
    decreases lines.len(),
{
    if lines.len() == 0 {
        Seq::empty()
    } else {
        comment_text(lines.drop_last()) + "# "@ + lines.last() + seq!['\n']
    }
}

/// The model of a top-level field: key, value, comment.
pub type FieldView = (Seq<char>, YamlView, Option<Seq<char>>);

pub open spec fn field_view(f: EmitField) -> FieldView {
    (f.key@, f.value@, super::opt_view(f.comment))
}

pub open spec fn doc_view(fields: Seq<EmitField>) -> Seq<FieldView> {
    fields.map_values(|f: EmitField| field_view(f))
}

/// A top-level field as written: its comment lines, the field, a newline.
pub open spec fn entry_text(f: FieldView) -> Seq<char> {
    (match f.2 {
        Some(c) => comment_text(lines_of(c)),
        None => Seq::empty(),
    }) + field_text(f.0, f.1, Seq::empty()) + seq!['\n']
}

/// The text of a whole document.
pub open spec fn doc_text(fields: Seq<FieldView>) -> Seq<char>
    decreases fields.len(),
{
    if fields.len() == 0 {
        Seq::empty()
    } else {
        doc_text(fields.drop_last()) + entry_text(fields.last())
    }
}

/// Every field's value can be written.
pub open spec fn doc_emittable(fields: Seq<FieldView>) -> bool {
    forall|i: int| 0 <= i < fields.len() ==> #[trigger] emittable(fields[i].1)
}

/// Writes `doc`: the same document always gives the same text.
pub fn emit(doc: &YamlDoc) -> (r: String)
    requires
        doc_emittable(doc_view(doc.0@)),
    ensures
        r@ == doc_text(doc_view(doc.0@)),
{
    let fields = &doc.0;
    let ghost dv = doc_view(fields@);
    let mut out: Vec<char> = Vec::new();
    let empty: Vec<char> = Vec::new();
    let mut i: usize = 0;
    while i < fields.len()
        invariant
            i <= fields@.len(),
            empty@ == Seq::<char>::empty(),
            dv == doc_view(fields@),
            dv.len() == fields@.len(),
            doc_emittable(dv),
            out@ == doc_text(dv.subrange(0, i as int)),
        decreases fields.len() - i,
    {
        assert(dv.subrange(0, i + 1).drop_last() =~= dv.subrange(0, i as int));
        assert(dv[i as int] == field_view(fields@[i as int]));
        let ghost before = out@;
        let f = &fields[i];
        match &f.comment {
            Some(c) => {
                let lines = split_lines(c.as_str());
                let ghost cstart = out@;
                let mut k: usize = 0;
                while k < lines.len()
                    invariant
                        k <= lines@.len(),
                        out@ == cstart + comment_text(strs(lines@).subrange(0, k as int)),
                    decreases lines.len() - k,
                {
                    assert(strs(lines@).subrange(0, k + 1).drop_last() =~= strs(lines@).subrange(0, k as int));
                    push_all(&mut out, &chars_of("# "));
                    push_all(&mut out, &chars_of(lines[k].as_str()));
                    out.push('\n');
                    assert(out@ =~= cstart + comment_text(strs(lines@).subrange(0, k + 1)));
                    k = k + 1;
                }
                assert(strs(lines@).subrange(0, k as int) =~= strs(lines@));
            },
            None => {},
        }
        let key = chars_of(f.key.as_str());
        assert(emittable(dv[i as int].1));
        push_field(&mut out, &key, &f.value, &empty);
        out.push('\n');
        assert(out@ =~= before + entry_text(dv[i as int]));
        i = i + 1;
    }
    assert(dv.subrange(0, i as int) =~= dv);
    string_of(&out)
}

/// A value under a key of a writable mapping can be written.
pub proof fn lemma_dict_get_emittable(d: DictView, k: Seq<char>)
    requires
        emittable(YamlView::Dict(d)),
    ensures
        dict_get(d, k) matches Some(v) ==> emittable(v),
{
    lemma_fields_emittable(d);
    lemma_dict_index(d, k);
}

/// An item of a writable sequence can stand as an item and be written.
pub proof fn lemma_list_item_emittable(s: Seq<YamlView>, i: int)
    requires
        emittable(YamlView::List(s)),
        0 <= i < s.len(),
    ensures
        item_ok(s[i]),
        emittable(s[i]),
{
    lemma_items_emittable(s);
    lemma_item_ok_emittable(s[i]);
}

pub proof fn lemma_item_ok_emittable(v: YamlView)
    requires
        item_ok(v),
    ensures
        emittable(v),
{
}

/// Every value of the mapping can be written.
pub open spec fn values_emittable(d: DictView) -> bool {
    forall|i: int| 0 <= i < d.len() ==> #[trigger] emittable(d[i].1)
}

pub proof fn lemma_values_emittable(d: DictView)
    ensures
        values_emittable(d) <==> emittable(YamlView::Dict(d)),
{
    lemma_fields_emittable(d);
}

/// Every item can stand as a sequence item.
pub open spec fn all_items_ok(s: Seq<YamlView>) -> bool {
    forall|i: int| 0 <= i < s.len() ==> #[trigger] item_ok(s[i])
}

pub proof fn lemma_all_items_ok(s: Seq<YamlView>)
    ensures
        all_items_ok(s) <==> emittable(YamlView::List(s)),
{
    lemma_items_emittable(s);
}

/// `{k: v}` can be written when `v` can, and can stand as an item.
pub proof fn lemma_single_entry_emittable(k: Seq<char>, v: YamlView)
    requires
        emittable(v),
    ensures
        emittable(YamlView::Dict(seq![(k, v)])),
        item_ok(YamlView::Dict(seq![(k, v)])),
{
    let dd = seq![(k, v)];
    assert(dd.drop_last() =~= Seq::<(Seq<char>, YamlView)>::empty());
    assert(fields_emittable(dd.drop_last()));
    assert(fields_emittable(dd));
}

/// The empty mapping and the empty sequence can be written (as values).
pub proof fn lemma_empty_emittable()
    ensures
        emittable(YamlView::Dict(Seq::empty())),
        emittable(YamlView::List(Seq::empty())),
{
}


/// `true` when `v` can be emitted: no list or mapping stands empty as a
/// list item (such an item has no block form).
pub fn is_emittable(v: &YamlValue) -> (r: bool)
    ensures
        r == emittable(v@),
    decreases v,
{
    match v {
        YamlValue::Sequence(items) => items_emittable_exec(items),
        YamlValue::Mapping(fields) => fields_emittable_exec(fields),
        _ => true,
    }
}

fn item_ok_exec(v: &YamlValue) -> (r: bool)
    ensures
        r == item_ok(v@),
    decreases v,
{
    match v {
        YamlValue::Sequence(items) => {
            proof { lemma_items_view(items@); }
            items.len() > 0 && items_emittable_exec(items)
        },
        YamlValue::Mapping(fields) => {
            proof { lemma_fields_view(fields@); }
            fields.len() > 0 && fields_emittable_exec(fields)
        },
        _ => true,
    }
}

fn items_emittable_exec(items: &Vec<YamlValue>) -> (r: bool)
    ensures
        r == items_emittable(items_view(items@)),
    decreases items@,
{
    let mut i: usize = 0;
    while i < items.len()
        invariant
            i <= items@.len(),
            items_emittable(items_view(items@.subrange(0, i as int))),
        decreases items.len() - i,
    {
        let ghost pre = items_view(items@.subrange(0, i as int));
        let ghost a = yview(items@[i as int]);
        assert(items@.subrange(0, i + 1).drop_last() =~= items@.subrange(0, i as int));
        assert(items@.subrange(0, i + 1).last() == items@[i as int]);
        assert(items_view(items@.subrange(0, i + 1)) == pre.push(a));
        assert(pre.push(a).drop_last() =~= pre);
        if !item_ok_exec(&items[i]) {
            proof {
                lemma_items_view(items@);
                lemma_items_emittable(items_view(items@));
                assert(items_view(items@)[i as int] == a);
                assert(!item_ok(items_view(items@)[i as int]));
            }
            return false;
        }
        assert(items_emittable(pre.push(a)));
        i = i + 1;
    }
    assert(items@.subrange(0, i as int) =~= items@);
    true
}

fn fields_emittable_exec(fields: &Vec<(String, YamlValue)>) -> (r: bool)
    ensures
        r == fields_emittable(fields_view(fields@)),
    decreases fields@,
{
    let mut i: usize = 0;
    while i < fields.len()
        invariant
            i <= fields@.len(),
            fields_emittable(fields_view(fields@.subrange(0, i as int))),
        decreases fields.len() - i,
    {
        let ghost pre = fields_view(fields@.subrange(0, i as int));
        let ghost a = (fields@[i as int].0@, yview(fields@[i as int].1));
        assert(fields@.subrange(0, i + 1).drop_last() =~= fields@.subrange(0, i as int));
        assert(fields@.subrange(0, i + 1).last() == fields@[i as int]);
        assert(fields_view(fields@.subrange(0, i + 1)) == pre.push(a));
        assert(pre.push(a).drop_last() =~= pre);
        if !is_emittable(&fields[i].1) {
            proof {
                lemma_fields_view(fields@);
                if fields_emittable(fields_view(fields@)) {
                    lemma_fields_emittable_all(fields_view(fields@), i as int);
                    assert(fields_view(fields@)[i as int].1 == yview(fields@[i as int].1));
                }
            }
            return false;
        }
        assert(fields_emittable(pre.push(a)));
        i = i + 1;
    }
    assert(fields@.subrange(0, i as int) =~= fields@);
    true
}

/// An emittable mapping has every value emittable.
pub proof fn lemma_fields_emittable_all(fields: DictView, i: int)
    requires
        fields_emittable(fields),
        0 <= i < fields.len(),
    ensures
        emittable(fields[i].1),
    decreases fields.len(),
{
    if i < fields.len() - 1 {
        lemma_fields_emittable_all(fields.drop_last(), i);
    }
}

} // verus!
