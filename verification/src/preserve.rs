//! Preservation of constructs with no equivalent in the target dialect: a
//! stable id per preserved block and the marker comment that points at it.
use vstd::prelude::*;
use crate::reader::fence::strs;
use crate::registry::sidecar::{content_hash, spec_content_hash};
use crate::text::{chars_of, push_all, replace_all, replace_chars, string_of};

verus! {

/// Largest preservation sidecar that is read back.
pub const MAX_SIDECAR_BYTES: u64 = 8 * 1024 * 1024;

/// Which dialect a preserved construct was written in.
#[derive(Debug, Clone, Copy, PartialEq, Eq, Structural)]
pub enum Dialect {
    Unknown,
    Myst,
    Quarto,
}

impl Default for Dialect {
    fn default() -> (d: Dialect)
        ensures
            d == Dialect::Unknown,
    {
        Dialect::Unknown
    }
}

/// One preserved construct: where it was, why, and its original lines.
#[derive(Debug, Clone, PartialEq, Eq)]
pub struct PreservedEntry {
    pub file: String,
    pub line: u32,
    pub code: String,
    pub kind: String,
    pub dialect: Dialect,
    pub original: Vec<String>,
}

/// The lines joined with `\n` between them.
pub open spec fn join_lines(v: Seq<Seq<char>>) -> Seq<char>
    decreases v.len(),
{
    if v.len() == 0 {
        Seq::empty()
    } else if v.len() == 1 {
        v[0]
    } else {
        join_lines(v.drop_last()) + seq!['\n'] + v.last()
    }
}

/// Joins lines with `\n` between them.
pub fn join_chars(lines: &[String]) -> (r: Vec<char>)
    ensures
        r@ == join_lines(strs(lines@)),
{
    let mut out: Vec<char> = Vec::new();
    let mut k: usize = 0;
    while k < lines.len()
        invariant
            k <= lines@.len(),
            out@ == join_lines(strs(lines@).subrange(0, k as int)),
        decreases lines.len() - k,
    {
        if k > 0 {
            out.push('\n');
        }
        push_all(&mut out, &chars_of(lines[k].as_str()));
        assert(strs(lines@).subrange(0, k + 1).drop_last() =~= strs(lines@).subrange(0, k as int));
        assert(strs(lines@)[k as int] == lines@[k as int]@);
        assert(out@ =~= join_lines(strs(lines@).subrange(0, k + 1)));
        k = k + 1;
    }
    assert(strs(lines@).subrange(0, k as int) =~= strs(lines@));
    out
}

/// The stable id of a preserved block: the content hash of its lines joined
/// with `\n`, as UTF-8.
pub open spec fn spec_entry_id(original: Seq<Seq<char>>) -> Seq<char> {
    spec_content_hash(vstd::utf8::encode_utf8(join_lines(original)))
}

/// The stable id of a preserved block.
pub fn entry_id(original: &[String]) -> (r: String)
    ensures
        r@ == spec_entry_id(strs(original@)),
{
    let joined = string_of(&join_chars(original));
    content_hash(joined.as_str().as_bytes())
}

/// The kind text with every way it could end or fake the marker comment
/// neutralized.
pub open spec fn safe_kind(kind: Seq<char>) -> Seq<char> {
    let a = replace_all(kind, "-->"@, "- >"@);
    let b = replace_all(a, "--!>"@, "- !>"@);
    let c = replace_all(replace_all(b, "\n"@, " "@), "\r"@, " "@);
    replace_all(c, ".mystquarto/preserved.json#"@, ".mystquarto/preserved_json#"@)
}

/// The marker comment left where a construct was preserved.
pub open spec fn spec_marker(code: Seq<char>, kind: Seq<char>, id: Seq<char>) -> Seq<char> {
    "<!-- mystquarto "@ + code + ": "@ + safe_kind(kind) + " preserved \u{2014} see .mystquarto/preserved.json#"@
        + id + " -->"@
}

/// The marker comment left where a construct was preserved.
pub fn marker(code: &str, kind: &str, id: &str) -> (r: String)
    ensures
        r@ == spec_marker(code@, kind@, id@),
{
    let k = chars_of(kind);
    let a = replace_chars(&k, &chars_of("-->"), &chars_of("- >"));
    let b = replace_chars(&a, &chars_of("--!>"), &chars_of("- !>"));
    let c1 = replace_chars(&b, &chars_of("\n"), &chars_of(" "));
    let c = replace_chars(&c1, &chars_of("\r"), &chars_of(" "));
    let safe = replace_chars(&c, &chars_of(".mystquarto/preserved.json#"), &chars_of(".mystquarto/preserved_json#"));
    let mut out = chars_of("<!-- mystquarto ");
    push_all(&mut out, &chars_of(code));
    push_all(&mut out, &chars_of(": "));
    push_all(&mut out, &safe);
    push_all(&mut out, &chars_of(" preserved \u{2014} see .mystquarto/preserved.json#"));
    push_all(&mut out, &chars_of(id));
    push_all(&mut out, &chars_of(" -->"));
    string_of(&out)
}

} // verus!
