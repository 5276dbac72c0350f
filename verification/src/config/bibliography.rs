//! BibTeX key discovery and the missing-citation diagnostic.
use vstd::prelude::*;
use crate::diagnostics::codes::bibliography::CITATION_KEY_MISSING;
use crate::diagnostics::{Diagnostic, Severity};
use crate::ir::{Block, BlockKind, Document, TabItem};
use crate::reader::fence::strs;
use crate::reader::inline::{events_view, scan_from, scan_line, EventView, InlineEvent};
use crate::reader::mask::mask_from;
use crate::strmap::{add_keys, keys_of, map_insert, StrMap};
use crate::text::{
    char_len, chars_of, find_char, first_of, is_ascii_alpha, is_ascii_alphabetic, lemma_first_of, push_all,
    slice_chars, string_of, trim, trim_chars,
};

verus! {

/// End of the run of ASCII letters that starts at `i`.
pub open spec fn alpha_run(s: Seq<char>, i: int) -> int
    decreases s.len() - i,
{
    if 0 <= i < s.len() && is_ascii_alpha(s[i]) {
        alpha_run(s, i + 1)
    } else {
        i
    }
}

pub proof fn lemma_alpha_run(s: Seq<char>, i: int)
    requires
        0 <= i <= s.len(),
    ensures
        i <= alpha_run(s, i) <= s.len(),
    decreases s.len() - i,
{
    if i < s.len() && is_ascii_alpha(s[i]) {
        lemma_alpha_run(s, i + 1);
    }
}

/// A character that ends an entry key.
pub open spec fn key_stop(c: char) -> bool {
    c == ',' || c == '}' || c == '\n'
}

/// The first index at or after `i` holding a key terminator, or the length.
pub open spec fn key_stop_from(s: Seq<char>, i: int) -> int
    decreases s.len() - i,
{
    if i < 0 || i >= s.len() {
        s.len() as int
    } else if key_stop(s[i]) {
        i
    } else {
        key_stop_from(s, i + 1)
    }
}

pub proof fn lemma_key_stop_from(s: Seq<char>, i: int)
    requires
        0 <= i <= s.len(),
    ensures
        i <= key_stop_from(s, i) <= s.len(),
    decreases s.len() - i,
{
    if i < s.len() && !key_stop(s[i]) {
        lemma_key_stop_from(s, i + 1);
    }
}

/// The key of the entry whose `@` is at `at`: `@type{key,` with a non-empty
/// type of ASCII letters and a key that is non-empty once trimmed.
pub open spec fn entry_key_at(s: Seq<char>, at: int) -> Option<Seq<char>> {
    let after = s.subrange(at + 1, s.len() as int);
    let t = alpha_run(after, 0);
    if t > 0 && t < after.len() && after[t] == '{' {
        let rest = after.subrange(t + 1, after.len() as int);
        let key = trim(rest.subrange(0, key_stop_from(rest, 0)));
        if key.len() > 0 {
            Some(key)
        } else {
            None
        }
    } else {
        None
    }
}

/// The keys of the entries whose `@` is at or after `from`, in text order.
pub open spec fn bib_keys_from(s: Seq<char>, from: int) -> Seq<Seq<char>>
    decreases s.len() - from,
{
    if from < 0 || from >= s.len() {
        Seq::empty()
    } else {
        let at = first_of(s, from, '@');
        proof {
            lemma_first_of(s, from, '@');
        }
        if at >= s.len() {
            Seq::empty()
        } else {
            (match entry_key_at(s, at) {
                Some(k) => seq![k],
                None => Seq::empty(),
            }) + bib_keys_from(s, at + 1)
        }
    }
}

/// The distinct members of `s`, in order of first occurrence.
pub open spec fn dedup(s: Seq<Seq<char>>) -> Seq<Seq<char>>
    decreases s.len(),
{
    if s.len() == 0 {
        Seq::empty()
    } else {
        let d = dedup(s.drop_last());
        if d.contains(s.last()) {
            d
        } else {
            d.push(s.last())
        }
    }
}

fn contains_str(v: &Vec<String>, key: &String) -> (r: bool)
    ensures
        r == strs(v@).contains(key@),
{
    let mut k: usize = 0;
    while k < v.len()
        invariant
            k <= v@.len(),
            forall|m: int| 0 <= m < k ==> v@[m]@ != key@,
        decreases v.len() - k,
    {
        if v[k] == *key {
            assert(strs(v@)[k as int] == key@);
            return true;
        }
        k = k + 1;
    }
    assert forall|m: int| 0 <= m < strs(v@).len() implies strs(v@)[m] != key@ by {
        assert(strs(v@)[m] == v@[m]@);
    }
    false
}

fn entry_key(s: &Vec<char>, at: usize) -> (r: Option<String>)
    requires
        at < s.len(),
    ensures
        match r {
            Some(k) => entry_key_at(s@, at as int) == Some(k@),
            None => entry_key_at(s@, at as int) is None,
        },
{
    let after = slice_chars(s, at + 1, s.len());
    proof { lemma_alpha_run(after@, 0); }
    let mut t: usize = 0;
    while t < after.len() && is_ascii_alphabetic(after[t])
        invariant
            t <= after@.len(),
            alpha_run(after@, t as int) == alpha_run(after@, 0),
        decreases after.len() - t,
    {
        t = t + 1;
    }
    if !(t > 0 && t < after.len() && after[t] == '{') {
        return None;
    }
    let rest = slice_chars(&after, t + 1, after.len());
    proof { lemma_key_stop_from(rest@, 0); }
    let mut e: usize = 0;
    while e < rest.len() && !(rest[e] == ',' || rest[e] == '}' || rest[e] == '\n')
        invariant
            e <= rest@.len(),
            key_stop_from(rest@, e as int) == key_stop_from(rest@, 0),
        decreases rest.len() - e,
    {
        e = e + 1;
    }
    let key = trim_chars(&slice_chars(&rest, 0, e));
    if key.len() == 0 {
        return None;
    }
    Some(string_of(&key))
}

/// Every citation key defined by a `@type{key, ...}` entry in BibTeX text,
/// each once, in order of first definition.
pub fn bib_defined_keys(bib_text: &str) -> (r: Vec<String>)
    ensures
        strs(r@) == dedup(bib_keys_from(bib_text@, 0)),
{
    let s = chars_of(bib_text);
    let mut out: Vec<String> = Vec::new();
    let mut from: usize = 0;
    proof {
        lemma_dedup_onto_empty(bib_keys_from(s@, 0));
        assert(strs(out@) =~= Seq::<Seq<char>>::empty());
    }
    while from < s.len()
        invariant
            from <= s@.len(),
            dedup(bib_keys_from(s@, 0)) == dedup_onto(strs(out@), bib_keys_from(s@, from as int)),
        decreases s@.len() - from,
    {
        proof { lemma_first_of(s@, from as int, '@'); }
        let at = find_char(&s, from, '@');
        if at >= s.len() {
            proof {
                assert(bib_keys_from(s@, from as int) =~= Seq::<Seq<char>>::empty());
                assert(bib_keys_from(s@, s@.len() as int) =~= Seq::<Seq<char>>::empty());
            }
            from = s.len();
        } else {
            let key = entry_key(&s, at);
            let ghost prev = strs(out@);
            let ghost here = match entry_key_at(s@, at as int) {
                Some(k) => seq![k],
                None => Seq::<Seq<char>>::empty(),
            };
            match key {
                Some(k) => {
                    if !contains_str(&out, &k) {
                        out.push(k);
                        assert(strs(out@) =~= prev.push(here[0]));
                    }
                },
                None => {},
            }
            proof {
                assert(bib_keys_from(s@, from as int) == here + bib_keys_from(s@, at + 1));
                lemma_dedup_onto_step(prev, here, bib_keys_from(s@, at + 1));
            }
            from = at + 1;
        }
    }
    proof {
        assert(bib_keys_from(s@, from as int) =~= Seq::<Seq<char>>::empty());
    }
    out
}

/// `dedup` continued from an already-deduplicated prefix `d`.
pub open spec fn dedup_onto(d: Seq<Seq<char>>, rest: Seq<Seq<char>>) -> Seq<Seq<char>>
    decreases rest.len(),
{
    if rest.len() == 0 {
        d
    } else {
        dedup_onto(if d.contains(rest[0]) { d } else { d.push(rest[0]) }, rest.drop_first())
    }
}

pub proof fn lemma_dedup_onto_step(d: Seq<Seq<char>>, here: Seq<Seq<char>>, rest: Seq<Seq<char>>)
    requires
        here.len() <= 1,
    ensures
        dedup_onto(d, here + rest) == dedup_onto(
            if here.len() == 1 {
                if d.contains(here[0]) { d } else { d.push(here[0]) }
            } else {
                d
            },
            rest,
        ),
{
    if here.len() == 1 {
        assert((here + rest)[0] == here[0]);
        assert((here + rest).drop_first() =~= rest);
    } else {
        assert(here + rest =~= rest);
    }
}

pub proof fn lemma_dedup_onto_empty(s: Seq<Seq<char>>)
    ensures
        dedup_onto(Seq::empty(), s) == dedup(s),
{
    lemma_dedup_onto_general(Seq::empty(), s);
}

/// `dedup_onto(dedup(a), b) == dedup(a + b)`.
pub proof fn lemma_dedup_onto_general(a: Seq<Seq<char>>, b: Seq<Seq<char>>)
    ensures
        dedup_onto(dedup(a), b) == dedup(a + b),
    decreases b.len(),
{
    if b.len() == 0 {
        assert(a + b =~= a);
    } else {
        let a2 = a.push(b[0]);
        assert(a2.drop_last() =~= a);
        assert(dedup(a2) == if dedup(a).contains(b[0]) { dedup(a) } else { dedup(a).push(b[0]) });
        lemma_dedup_onto_general(a2, b.drop_first());
        assert(a2 + b.drop_first() =~= a + b);
    }
}

/// The message for a citation key no bibliography defines.
pub open spec fn missing_message(key: Seq<char>) -> Seq<char> {
    "citation key `"@ + key
        + "` is used but defined in no reachable .bib file; MyST may have resolved it live from a DOI (reference RT-14) \u{2014} Quarto requires a local bibliography entry, so this citation will render as literal text"@
}

/// The keys of a set, in its order: strictly increasing, so none twice.
pub open spec fn keys_in_order(keys: Seq<Seq<char>>) -> bool {
    forall|i: int, j: int| 0 <= i < j < keys.len() ==> crate::strmap::seq_lt(#[trigger] keys[i], #[trigger] keys[j])
}

/// A warning for each key in `used` that `bib_keys` does not define, in the
/// order of `used`.
pub fn missing_citation_warnings(used: &Vec<String>, bib_keys: &Vec<String>) -> (r: Vec<Diagnostic>)
    requires
        keys_in_order(strs(used@)),
    ensures
        r@.len() == strs(used@).filter(|k: Seq<char>| !strs(bib_keys@).contains(k)).len(),
        forall|i: int| 0 <= i < r@.len() ==> {
            &&& (#[trigger] r@[i]).severity == Severity::Warning
            &&& r@[i].code == CITATION_KEY_MISSING
            &&& r@[i].message@ == missing_message(
                strs(used@).filter(|k: Seq<char>| !strs(bib_keys@).contains(k))[i],
            )
        },
{
    let ghost missing = |k: Seq<char>| !strs(bib_keys@).contains(k);
    let mut out: Vec<Diagnostic> = Vec::new();
    let mut i: usize = 0;
    while i < used.len()
        invariant
            i <= used@.len(),
            missing == (|k: Seq<char>| !strs(bib_keys@).contains(k)),
            out@.len() == strs(used@).subrange(0, i as int).filter(missing).len(),
            forall|m: int| 0 <= m < out@.len() ==> {
                &&& (#[trigger] out@[m]).severity == Severity::Warning
                &&& out@[m].code == CITATION_KEY_MISSING
                &&& out@[m].message@ == missing_message(strs(used@).subrange(0, i as int).filter(missing)[m])
            },
        decreases used.len() - i,
    {
        let ghost prefix = strs(used@).subrange(0, i as int);
        let ghost next = strs(used@).subrange(0, i + 1);
        assert(next.drop_last() =~= prefix);
        assert(next.last() == used@[i as int]@);
        proof {
            reveal(Seq::filter);
            assert(next.filter(missing) == if missing(next.last()) {
                prefix.filter(missing).push(next.last())
            } else {
                prefix.filter(missing)
            });
        }
        if !contains_str(bib_keys, &used[i]) {
            let mut msg = chars_of("citation key `");
            push_all(&mut msg, &chars_of(used[i].as_str()));
            push_all(&mut msg, &chars_of("` is used but defined in no reachable .bib file; MyST may have resolved it live from a DOI (reference RT-14) \u{2014} Quarto requires a local bibliography entry, so this citation will render as literal text"));
            let d = Diagnostic::new(Severity::Warning, CITATION_KEY_MISSING, string_of(&msg).as_str());
            out.push(d);
        }
        i = i + 1;
    }
    assert(strs(used@).subrange(0, i as int) =~= strs(used@));
    out
}


/// The citation keys among `evs`, in order.
pub open spec fn event_citations(evs: Seq<EventView>) -> Seq<Seq<char>>
    decreases evs.len(),
{
    if evs.len() == 0 {
        Seq::empty()
    } else {
        event_citations(evs.drop_last()) + match evs.last() {
            EventView::Citation(k) => seq![k],
            _ => Seq::empty(),
        }
    }
}

/// The citation keys a line cites, as the writers' inline scanner reads it
/// (a line too long to scan cites nothing).
pub open spec fn line_citations(line: Seq<char>, known: Seq<Seq<char>>) -> Seq<Seq<char>> {
    if line.len() < i64::MAX {
        event_citations(scan_from(mask_from(line, 0, 0).0, 0, known))
    } else {
        Seq::empty()
    }
}

/// The citation keys of a run of lines, in order.
pub open spec fn lines_citations(lines: Seq<Seq<char>>, known: Seq<Seq<char>>) -> Seq<Seq<char>>
    decreases lines.len(),
{
    if lines.len() == 0 {
        Seq::empty()
    } else {
        lines_citations(lines.drop_last(), known) + line_citations(lines.last(), known)
    }
}

/// The citation keys of a block: its paragraph lines or caption, then the
/// blocks nested in it.
pub open spec fn block_citations(b: Block, known: Seq<Seq<char>>) -> Seq<Seq<char>>
    decreases b,
{
    match b.kind {
        BlockKind::Paragraph { lines } => lines_citations(strs(lines@), known),
        BlockKind::Figure { caption, .. } => lines_citations(strs(caption@), known),
        BlockKind::Table { caption, .. } => lines_citations(strs(caption@), known),
        BlockKind::Admonition { body, .. } => blocks_citations(body@, known),
        BlockKind::Margin { body } => blocks_citations(body@, known),
        BlockKind::Blockquote { body, .. } => blocks_citations(body@, known),
        BlockKind::Theorem { body, .. } => blocks_citations(body@, known),
        BlockKind::Directive { body, .. } => blocks_citations(body@, known),
        BlockKind::TabSet { items } => items_citations(items@, known),
        _ => Seq::empty(),
    }
}

/// The citation keys of a run of blocks, in order.
pub open spec fn blocks_citations(bs: Seq<Block>, known: Seq<Seq<char>>) -> Seq<Seq<char>>
    decreases bs,
{
    if bs.len() == 0 {
        Seq::empty()
    } else {
        blocks_citations(bs.drop_last(), known) + block_citations(bs.last(), known)
    }
}

/// The citation keys of the bodies of a run of tabs, in order.
pub open spec fn items_citations(items: Seq<TabItem>, known: Seq<Seq<char>>) -> Seq<Seq<char>>
    decreases items,
{
    if items.len() == 0 {
        Seq::empty()
    } else {
        items_citations(items.drop_last(), known) + blocks_citations(items.last().body@, known)
    }
}

/// Adding two runs of keys is adding their concatenation.
pub proof fn lemma_add_keys_append(m: crate::strmap::EntriesView, a: Seq<Seq<char>>, b: Seq<Seq<char>>)
    ensures
        add_keys(add_keys(m, a), b) == add_keys(m, a + b),
    decreases b.len(),
{
    if b.len() == 0 {
        assert(a + b =~= a);
    } else {
        lemma_add_keys_append(m, a, b.drop_last());
        assert((a + b).drop_last() =~= a + b.drop_last());
        assert((a + b).last() == b.last());
    }
}

fn add_line_citations(line: &str, known_labels: &[String], out: &mut StrMap)
    ensures
        final(out)@ == add_keys(old(out)@, line_citations(line@, strs(known_labels@))),
{
    if char_len(line) as u64 >= 9223372036854775807u64 {
        return;
    }
    let scan = scan_line(line, known_labels);
    let ghost evs = events_view(scan.events@);
    let ghost start = out@;
    let mut i: usize = 0;
    while i < scan.events.len()
        invariant
            i <= scan.events@.len(),
            evs == events_view(scan.events@),
            out@ == add_keys(start, event_citations(evs.subrange(0, i as int))),
        decreases scan.events.len() - i,
    {
        assert(evs.subrange(0, i + 1).drop_last() =~= evs.subrange(0, i as int));
        let ghost prev = event_citations(evs.subrange(0, i as int));
        match &scan.events[i] {
            InlineEvent::Citation(key) => {
                out.insert(String::from_str(key.as_str()), String::new());
                proof {
                    assert(event_citations(evs.subrange(0, i + 1)) =~= prev + seq![key@]);
                    lemma_add_keys_append(start, prev, seq![key@]);
                    let one: Seq<Seq<char>> = seq![key@];
                    assert(one.drop_last() =~= Seq::<Seq<char>>::empty());
                    assert(one.last() == key@);
                    assert(add_keys(add_keys(start, prev), one.drop_last()) == add_keys(start, prev));
                    assert(add_keys(add_keys(start, prev), one) == map_insert(add_keys(start, prev), key@, Seq::empty()));
                }
            },
            _ => {
                assert(event_citations(evs.subrange(0, i + 1)) =~= prev);
            },
        }
        i = i + 1;
    }
    assert(evs.subrange(0, i as int) =~= evs);
}

fn add_lines_citations(lines: &Vec<String>, known_labels: &[String], out: &mut StrMap)
    ensures
        final(out)@ == add_keys(old(out)@, lines_citations(strs(lines@), strs(known_labels@))),
{
    let ghost known = strs(known_labels@);
    let ghost start = out@;
    let mut i: usize = 0;
    while i < lines.len()
        invariant
            i <= lines@.len(),
            known == strs(known_labels@),
            out@ == add_keys(start, lines_citations(strs(lines@).subrange(0, i as int), known)),
        decreases lines.len() - i,
    {
        let ghost prev = lines_citations(strs(lines@).subrange(0, i as int), known);
        assert(strs(lines@).subrange(0, i + 1).drop_last() =~= strs(lines@).subrange(0, i as int));
        assert(strs(lines@).subrange(0, i + 1).last() == lines@[i as int]@);
        add_line_citations(lines[i].as_str(), known_labels, out);
        proof { lemma_add_keys_append(start, prev, line_citations(lines@[i as int]@, known)); }
        i = i + 1;
    }
    assert(strs(lines@).subrange(0, i as int) =~= strs(lines@));
}

pub(crate) fn add_blocks_citations(blocks: &Vec<Block>, known_labels: &[String], out: &mut StrMap)
    ensures
        final(out)@ == add_keys(old(out)@, blocks_citations(blocks@, strs(known_labels@))),
    decreases blocks@,
{
    let ghost known = strs(known_labels@);
    let ghost start = out@;
    let mut i: usize = 0;
    while i < blocks.len()
        invariant
            i <= blocks@.len(),
            known == strs(known_labels@),
            out@ == add_keys(start, blocks_citations(blocks@.subrange(0, i as int), known)),
        decreases blocks.len() - i,
    {
        let ghost prev = blocks_citations(blocks@.subrange(0, i as int), known);
        assert(blocks@.subrange(0, i + 1).drop_last() =~= blocks@.subrange(0, i as int));
        assert(blocks@.subrange(0, i + 1).last() == blocks@[i as int]);
        add_block_citations(&blocks[i], known_labels, out);
        proof { lemma_add_keys_append(start, prev, block_citations(blocks@[i as int], known)); }
        i = i + 1;
    }
    assert(blocks@.subrange(0, i as int) =~= blocks@);
}

fn add_block_citations(block: &Block, known_labels: &[String], out: &mut StrMap)
    ensures
        final(out)@ == add_keys(old(out)@, block_citations(*block, strs(known_labels@))),
    decreases *block,
{
    match &block.kind {
        BlockKind::Paragraph { lines } => add_lines_citations(lines, known_labels, out),
        BlockKind::Figure { caption, .. } => add_lines_citations(caption, known_labels, out),
        BlockKind::Table { caption, .. } => add_lines_citations(caption, known_labels, out),
        BlockKind::Admonition { body, .. } => add_blocks_citations(body, known_labels, out),
        BlockKind::Margin { body } => add_blocks_citations(body, known_labels, out),
        BlockKind::Blockquote { body, .. } => add_blocks_citations(body, known_labels, out),
        BlockKind::Theorem { body, .. } => add_blocks_citations(body, known_labels, out),
        BlockKind::Directive { body, .. } => add_blocks_citations(body, known_labels, out),
        BlockKind::TabSet { items } => add_items_citations(items, known_labels, out),
        _ => {
            assert(block_citations(*block, strs(known_labels@)) =~= Seq::<Seq<char>>::empty());
        },
    }
}

fn add_items_citations(items: &Vec<TabItem>, known_labels: &[String], out: &mut StrMap)
    ensures
        final(out)@ == add_keys(old(out)@, items_citations(items@, strs(known_labels@))),
    decreases items@,
{
    let ghost known = strs(known_labels@);
    let ghost start = out@;
    let mut i: usize = 0;
    while i < items.len()
        invariant
            i <= items@.len(),
            known == strs(known_labels@),
            out@ == add_keys(start, items_citations(items@.subrange(0, i as int), known)),
        decreases items.len() - i,
    {
        let ghost prev = items_citations(items@.subrange(0, i as int), known);
        assert(items@.subrange(0, i + 1).drop_last() =~= items@.subrange(0, i as int));
        assert(items@.subrange(0, i + 1).last() == items@[i as int]);
        add_blocks_citations(&items[i].body, known_labels, out);
        proof { lemma_add_keys_append(start, prev, blocks_citations(items@[i as int].body@, known)); }
        i = i + 1;
    }
    assert(items@.subrange(0, i as int) =~= items@);
}

/// Every citation key `doc` cites, in paragraphs and figure and table
/// captions at any nesting depth, each once, in key order. A `@token` naming
/// one of `known_labels` is a cross-reference, not a citation; keys are
/// recognized by the same inline scanner the writers use.
pub fn citation_keys_in_document(doc: &Document, known_labels: &[String]) -> (r: Vec<String>)
    ensures
        strs(r@) == keys_of(add_keys(Seq::empty(), blocks_citations(doc.blocks@, strs(known_labels@)))),
{
    let mut out = StrMap::new();
    add_blocks_citations(&doc.blocks, known_labels, &mut out);
    let r = out.keys();
    assert(strs(r@) =~= r@.map_values(|k: String| k@));
    r
}

} // verus!
