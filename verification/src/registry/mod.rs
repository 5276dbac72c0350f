//! The run-scoped label registry: every label of a conversion set is
//! normalized once, before any file is written, so a cross-file reference
//! resolves to the id its definition gets, and two files that define the same
//! label collide predictably (`-2`, `-3`, …) instead of emitting duplicate ids.
pub mod normalize;
pub mod order;
pub mod sidecar;

use vstd::prelude::*;
use crate::ir::{Block, BlockKind, Document, TabItem};
use crate::label::Label;
use crate::registry::normalize::{normalize, spec_normalize, RefKind, RefKindView};
use crate::strmap::{lemma_seq_lt_total, lemma_seq_lt_trans, map_get, map_insert, seq_lt, str_lt, StrMap};
use crate::text::{chars_of, dec, push_all, push_decimal, string_of};
use crate::reader::fence::strs;
use crate::diagnostics::{codes, Diagnostic, Severity};

verus! {

/// A label as collected: its raw text and the kind of construct owning it.
pub type LabelView = (Seq<char>, RefKindView);

/// The labels a block defines, itself first, then those nested in it, in
/// source order.
pub open spec fn block_labels(b: Block) -> Seq<LabelView>
    decreases b,
{
    match b.kind {
        BlockKind::Heading { label, .. } => match label {
            Some(l) => seq![(l.raw@, RefKindView::Section)],
            None => Seq::empty(),
        },
        BlockKind::Figure { label, .. } => match label {
            Some(l) => seq![(l.raw@, RefKindView::Figure)],
            None => Seq::empty(),
        },
        BlockKind::Table { label, .. } => match label {
            Some(l) => seq![(l.raw@, RefKindView::Table)],
            None => Seq::empty(),
        },
        BlockKind::Math { label, .. } => match label {
            Some(l) => seq![(l.raw@, RefKindView::Equation)],
            None => Seq::empty(),
        },
        BlockKind::CodeCell { label, .. } => match label {
            Some(l) => seq![(l.raw@, RefKindView::CodeCell)],
            None => Seq::empty(),
        },
        BlockKind::Theorem { thm_type, label, body } => match label {
            Some(l) => seq![(l.raw@, RefKindView::Theorem(thm_type@))] + labels_in(body@),
            None => labels_in(body@),
        },
        BlockKind::Directive { label, body, .. } => match label {
            Some(l) => seq![(l.raw@, RefKindView::Generic)] + labels_in(body@),
            None => labels_in(body@),
        },
        BlockKind::Target { label } => seq![(label.raw@, RefKindView::Generic)],
        BlockKind::Admonition { body, .. } => labels_in(body@),
        BlockKind::Margin { body } => labels_in(body@),
        BlockKind::Blockquote { body, .. } => labels_in(body@),
        BlockKind::TabSet { items } => items_labels(items@),
        _ => Seq::empty(),
    }
}

/// The labels defined in a run of blocks, in source order.
pub open spec fn labels_in(bs: Seq<Block>) -> Seq<LabelView>
    decreases bs,
{
    if bs.len() == 0 {
        Seq::empty()
    } else {
        labels_in(bs.drop_last()) + block_labels(bs.last())
    }
}

/// The labels defined in the bodies of a run of tabs, in order.
pub open spec fn items_labels(items: Seq<TabItem>) -> Seq<LabelView>
    decreases items,
{
    if items.len() == 0 {
        Seq::empty()
    } else {
        items_labels(items.drop_last()) + labels_in(items.last().body@)
    }
}

/// One collected label, with the file that defines it.
#[derive(Debug)]
struct RawLabel {
    source: String,
    label: Label,
    kind: RefKind,
}

/// `(file, raw label, construct kind)`.
pub type RawView = (Seq<char>, Seq<char>, RefKindView);

spec fn raw_view(r: RawLabel) -> RawView {
    (r.source@, r.label.raw@, r.kind@)
}

spec fn raw_views(v: Seq<RawLabel>) -> Seq<RawView> {
    v.map_values(|r: RawLabel| raw_view(r))
}

/// Tags each collected label with the file that defines it.
pub open spec fn tag(source: Seq<char>, ls: Seq<LabelView>) -> Seq<RawView> {
    ls.map_values(|e: LabelView| (source, e.0, e.1))
}

proof fn lemma_tag_append(source: Seq<char>, a: Seq<LabelView>, b: Seq<LabelView>)
    ensures
        tag(source, a + b) == tag(source, a) + tag(source, b),
{
    assert(tag(source, a + b) =~= tag(source, a) + tag(source, b));
}

fn copy_kind(k: &RefKind) -> (r: RefKind)
    ensures
        r@ == k@,
{
    match k {
        RefKind::Section => RefKind::Section,
        RefKind::Figure => RefKind::Figure,
        RefKind::Table => RefKind::Table,
        RefKind::Equation => RefKind::Equation,
        RefKind::CodeCell => RefKind::CodeCell,
        RefKind::Theorem { subtype } => RefKind::Theorem { subtype: subtype.clone() },
        RefKind::Generic => RefKind::Generic,
    }
}

fn push_label(out: &mut Vec<RawLabel>, source: &String, label: &Label, kind: RefKind)
    ensures
        raw_views(final(out)@) == raw_views(old(out)@).push((source@, label.raw@, kind@)),
{
    out.push(RawLabel { source: source.clone(), label: Label { raw: label.raw.clone() }, kind });
    assert(raw_views(final(out)@) =~= raw_views(old(out)@).push((source@, label.raw@, kind@)));
}

/// Appends every label defined in `blocks`, nested ones included.
fn collect_labels(blocks: &Vec<Block>, source: &String, out: &mut Vec<RawLabel>)
    ensures
        raw_views(final(out)@) == raw_views(old(out)@) + tag(source@, labels_in(blocks@)),
    decreases blocks@,
{
    let mut i: usize = 0;
    while i < blocks.len()
        invariant
            i <= blocks@.len(),
            raw_views(out@) == raw_views(old(out)@) + tag(source@, labels_in(blocks@.subrange(0, i as int))),
        decreases blocks.len() - i,
    {
        let ghost before = raw_views(out@);
        let ghost pre = blocks@.subrange(0, i as int);
        assert(blocks@.subrange(0, i + 1).drop_last() =~= pre);
        assert(blocks@.subrange(0, i + 1).last() == blocks@[i as int]);
        collect_block(&blocks[i], source, out);
        proof {
            lemma_tag_append(source@, labels_in(pre), block_labels(blocks@[i as int]));
        }
        assert(raw_views(out@) =~= raw_views(old(out)@) + tag(source@, labels_in(blocks@.subrange(0, i + 1))));
        i = i + 1;
    }
    assert(blocks@.subrange(0, i as int) =~= blocks@);
}

fn collect_block(block: &Block, source: &String, out: &mut Vec<RawLabel>)
    ensures
        raw_views(final(out)@) == raw_views(old(out)@) + tag(source@, block_labels(*block)),
    decreases *block,
{
    let ghost start = raw_views(out@);
    match &block.kind {
        BlockKind::Heading { label, .. } => {
            if let Some(l) = label {
                push_label(out, source, l, RefKind::Section);
            }
        },
        BlockKind::Figure { label, .. } => {
            if let Some(l) = label {
                push_label(out, source, l, RefKind::Figure);
            }
        },
        BlockKind::Table { label, .. } => {
            if let Some(l) = label {
                push_label(out, source, l, RefKind::Table);
            }
        },
        BlockKind::Math { label, .. } => {
            if let Some(l) = label {
                push_label(out, source, l, RefKind::Equation);
            }
        },
        BlockKind::CodeCell { label, .. } => {
            if let Some(l) = label {
                push_label(out, source, l, RefKind::CodeCell);
            }
        },
        BlockKind::Theorem { thm_type, label, body } => {
            if let Some(l) = label {
                push_label(out, source, l, RefKind::Theorem { subtype: thm_type.clone() });
            }
            let ghost mid = raw_views(out@);
            collect_labels(body, source, out);
            proof {
                match label {
                    Some(l) => lemma_tag_append(source@, seq![(l.raw@, RefKindView::Theorem(thm_type@))], labels_in(body@)),
                    None => {},
                }
            }
        },
        BlockKind::Directive { label, body, .. } => {
            if let Some(l) = label {
                push_label(out, source, l, RefKind::Generic);
            }
            collect_labels(body, source, out);
            proof {
                match label {
                    Some(l) => lemma_tag_append(source@, seq![(l.raw@, RefKindView::Generic)], labels_in(body@)),
                    None => {},
                }
            }
        },
        BlockKind::Target { label } => {
            push_label(out, source, label, RefKind::Generic);
        },
        BlockKind::Admonition { body, .. } => {
            collect_labels(body, source, out);
        },
        BlockKind::Margin { body } => {
            collect_labels(body, source, out);
        },
        BlockKind::Blockquote { body, .. } => {
            collect_labels(body, source, out);
        },
        BlockKind::TabSet { items } => {
            collect_items(items, source, out);
        },
        _ => {},
    }
    assert(raw_views(out@) =~= start + tag(source@, block_labels(*block)));
}

fn collect_items(items: &Vec<TabItem>, source: &String, out: &mut Vec<RawLabel>)
    ensures
        raw_views(final(out)@) == raw_views(old(out)@) + tag(source@, items_labels(items@)),
    decreases items@,
{
    let mut i: usize = 0;
    while i < items.len()
        invariant
            i <= items@.len(),
            raw_views(out@) == raw_views(old(out)@) + tag(source@, items_labels(items@.subrange(0, i as int))),
        decreases items.len() - i,
    {
        let ghost pre = items@.subrange(0, i as int);
        assert(items@.subrange(0, i + 1).drop_last() =~= pre);
        assert(items@.subrange(0, i + 1).last() == items@[i as int]);
        collect_labels(&items[i].body, source, out);
        proof {
            lemma_tag_append(source@, items_labels(pre), labels_in(items@[i as int].body@));
        }
        assert(raw_views(out@) =~= raw_views(old(out)@) + tag(source@, items_labels(items@.subrange(0, i + 1))));
        i = i + 1;
    }
    assert(items@.subrange(0, i as int) =~= items@);
}


/// `(file, label)` of `a` sorts strictly before that of `b`.
pub open spec fn key_lt(a: RawView, b: RawView) -> bool {
    seq_lt(a.0, b.0) || (a.0 == b.0 && seq_lt(a.1, b.1))
}

/// Where a stable insertion puts `x` into `s`: after every entry whose key
/// is not greater than `x`'s, scanning from the back.
pub open spec fn stable_pos(s: Seq<RawView>, x: RawView) -> int
    decreases s.len(),
{
    if s.len() == 0 {
        0
    } else if key_lt(x, s.last()) {
        stable_pos(s.drop_last(), x)
    } else {
        s.len() as int
    }
}

/// Stable sort of the collected labels by `(file, label)`: entries with
/// equal keys keep their collection order.
pub open spec fn sorted_labels(s: Seq<RawView>) -> Seq<RawView>
    decreases s.len(),
{
    if s.len() == 0 {
        Seq::empty()
    } else {
        let t = sorted_labels(s.drop_last());
        t.insert(stable_pos(t, s.last()), s.last())
    }
}

proof fn lemma_stable_pos(s: Seq<RawView>, x: RawView)
    ensures
        0 <= stable_pos(s, x) <= s.len(),
    decreases s.len(),
{
    if s.len() > 0 && key_lt(x, s.last()) {
        lemma_stable_pos(s.drop_last(), x);
    }
}

proof fn lemma_sorted_len(s: Seq<RawView>)
    ensures
        sorted_labels(s).len() == s.len(),
    decreases s.len(),
{
    if s.len() > 0 {
        lemma_sorted_len(s.drop_last());
        lemma_stable_pos(sorted_labels(s.drop_last()), s.last());
    }
}

fn key_lt_exec(a: &RawLabel, b: &RawLabel) -> (r: bool)
    ensures
        r == key_lt(raw_view(*a), raw_view(*b)),
{
    if str_lt(&a.source, &b.source) {
        true
    } else if a.source == b.source {
        str_lt(&a.label.raw, &b.label.raw)
    } else {
        false
    }
}

/// Stable insertion sort by `(file, label)`.
fn sort_labels(raw: Vec<RawLabel>) -> (r: Vec<RawLabel>)
    ensures
        raw_views(r@) == sorted_labels(raw_views(raw@)),
{
    let mut out: Vec<RawLabel> = Vec::new();
    let mut rest = raw;
    let ghost all = raw_views(rest@);
    let mut taken_count: usize = 0;
    let n_len = rest.len();
    let ghost n = n_len as nat;
    assert(all.subrange(0, n as int) =~= all);
    assert(all.subrange(0, 0) =~= Seq::<RawView>::empty());
    while rest.len() > 0
        invariant
            all.len() == n,
            n <= usize::MAX,
            taken_count + rest@.len() == n,
            raw_views(rest@) == all.subrange(taken_count as int, n as int),
            raw_views(out@) == sorted_labels(all.subrange(0, taken_count as int)),
        decreases rest.len(),
    {
        let ghost rv = raw_views(rest@);
        let ghost before_rest = rest@;
        let x = rest.remove(0);
        let ghost xv = raw_view(x);
        assert(rv[0] == raw_view(before_rest[0]));
        assert(xv == all[taken_count as int]);
        let ghost t = raw_views(out@);
        proof { lemma_stable_pos(t, xv); }
        let mut p: usize = out.len();
        assert(t.subrange(0, p as int) =~= t);
        while p > 0 && key_lt_exec(&x, &out[p - 1])
            invariant
                p <= out@.len(),
                xv == raw_view(x),
                raw_views(out@) == t,
                stable_pos(t, xv) == stable_pos(t.subrange(0, p as int), xv),
            decreases p,
        {
            assert(t.subrange(0, p as int).drop_last() =~= t.subrange(0, p - 1));
            assert(t.subrange(0, p as int).last() == raw_view(out@[p - 1]));
            assert(key_lt(xv, t.subrange(0, p as int).last()));
            assert(stable_pos(t.subrange(0, p as int), xv) == stable_pos(t.subrange(0, p - 1), xv));
            p = p - 1;
        }
        proof {
            if p > 0 {
                assert(t.subrange(0, p as int).last() == raw_view(out@[p - 1]));
                assert(!key_lt(xv, t.subrange(0, p as int).last()));
            } else {
                assert(t.subrange(0, 0) =~= Seq::<RawView>::empty());
            }
        }
        out.insert(p, x);
        assert(all.subrange(0, taken_count + 1).drop_last() =~= all.subrange(0, taken_count as int));
        assert(raw_views(out@) =~= t.insert(p as int, xv));
        taken_count = taken_count + 1;
        assert(rest@ =~= before_rest.subrange(1, before_rest.len() as int));
        assert(raw_views(rest@) =~= rv.subrange(1, rv.len() as int));
        assert(raw_views(rest@) =~= all.subrange(taken_count as int, n as int));
    }
    assert(all.subrange(0, n as int) =~= all);
    out
}


/// `base-n`.
pub open spec fn suffixed(base: Seq<char>, n: nat) -> Seq<char> {
    base + "-"@ + dec(n)
}

/// The first of `base-n`, `base-(n+1)`, … not in `taken`, looking at most
/// `fuel` steps ahead.
pub open spec fn first_free(base: Seq<char>, taken: Set<Seq<char>>, n: nat, fuel: nat) -> Seq<char>
    decreases fuel,
{
    if fuel == 0 || !taken.contains(suffixed(base, n)) {
        suffixed(base, n)
    } else {
        first_free(base, taken, n + 1, (fuel - 1) as nat)
    }
}

/// The id a label with normalized form `base` gets when `taken` ids are
/// already handed out: `base` itself if free, else the first free `base-n`
/// for `n = 2, 3, …`.
pub open spec fn fresh_id(base: Seq<char>, taken: Set<Seq<char>>) -> Seq<char> {
    if !taken.contains(base) {
        base
    } else {
        first_free(base, taken, 2, taken.len())
    }
}

/// The normalized form of a collected label.
pub open spec fn base_of(e: RawView) -> Seq<char> {
    spec_normalize(e.1, e.2)
}

/// The ids handed out, in order, to the (sorted) entries `s`.
pub open spec fn assign_ids(s: Seq<RawView>, taken: Set<Seq<char>>) -> Seq<Seq<char>>
    decreases s.len(),
{
    if s.len() == 0 {
        Seq::empty()
    } else {
        let id = fresh_id(base_of(s[0]), taken);
        seq![id] + assign_ids(s.drop_first(), taken.insert(id))
    }
}

proof fn lemma_digit_injective(a: nat, b: nat)
    requires
        a < 10,
        b < 10,
        crate::text::digit(a) == crate::text::digit(b),
    ensures
        a == b,
{
}

proof fn lemma_dec_len(n: nat)
    ensures
        dec(n).len() >= 1,
        n >= 10 ==> dec(n).len() >= 2,
    decreases n,
{
    if n >= 10 {
        lemma_dec_len(n / 10);
    }
}

proof fn lemma_dec_injective(a: nat, b: nat)
    requires
        dec(a) == dec(b),
    ensures
        a == b,
    decreases a,
{
    lemma_dec_len(a);
    lemma_dec_len(b);
    if a < 10 && b < 10 {
        assert(dec(a) == seq![crate::text::digit(a)]);
        assert(dec(b) == seq![crate::text::digit(b)]);
        assert(seq![crate::text::digit(a)][0] == crate::text::digit(a));
        assert(seq![crate::text::digit(b)][0] == crate::text::digit(b));
        assert(dec(a)[0] == dec(b)[0]);
        lemma_digit_injective(a, b);
    } else if a >= 10 && b >= 10 {
        assert(dec(a) == dec(a / 10).push(crate::text::digit(a % 10)));
        assert(dec(b) == dec(b / 10).push(crate::text::digit(b % 10)));
        assert(dec(a).last() == crate::text::digit(a % 10));
        assert(dec(b).last() == crate::text::digit(b % 10));
        assert(dec(a).last() == dec(b).last());
        lemma_digit_injective(a % 10, b % 10);
        assert(dec(a).drop_last() =~= dec(a / 10));
        assert(dec(b).drop_last() =~= dec(b / 10));
        lemma_dec_injective(a / 10, b / 10);
    } else if a < 10 {
        lemma_dec_len(b / 10);
    } else {
        lemma_dec_len(a / 10);
    }
}

proof fn lemma_suffixed_injective(base: Seq<char>, a: nat, b: nat)
    requires
        suffixed(base, a) == suffixed(base, b),
    ensures
        a == b,
{
    reveal_strlit("-");
    let k = base.len() + 1;
    assert(suffixed(base, a).skip(k as int) =~= dec(a));
    assert(suffixed(base, b).skip(k as int) =~= dec(b));
    lemma_dec_injective(a, b);
}

/// Pigeonhole: `n - 2` distinct ids `base-2 .. base-(n-1)` all taken means
/// at least that many ids are taken.
proof fn lemma_pigeon(base: Seq<char>, taken: Set<Seq<char>>, n: nat)
    requires
        taken.finite(),
        n >= 2,
        forall|m: nat| 2 <= m < n ==> taken.contains(#[trigger] suffixed(base, m)),
    ensures
        n - 2 <= taken.len(),
{
    let range = vstd::set_lib::set_int_range(2, n as int);
    let f = |m: int| suffixed(base, m as nat);
    vstd::set_lib::lemma_int_range(2, n as int);
    assert(vstd::relations::injective_on(f, range)) by {
        assert forall|x1: int, x2: int| range.contains(x1) && range.contains(x2) && #[trigger] f(x1) == #[trigger] f(x2) implies x1 == x2 by {
            lemma_suffixed_injective(base, x1 as nat, x2 as nat);
        }
    }
    let img = range.map(f);
    vstd::set_lib::lemma_map_size(range, img, f);
    assert(img.subset_of(taken)) by {
        assert forall|x: Seq<char>| img.contains(x) implies taken.contains(x) by {
            let m = choose|m: int| range.contains(m) && x == f(m);
            assert(taken.contains(suffixed(base, m as nat)));
        }
    }
    vstd::set_lib::lemma_len_subset(img, taken);
}

/// The id `first_free` settles on is free, when the search starts with all
/// earlier candidates taken and has enough fuel to outlast `taken`.
proof fn lemma_first_free(base: Seq<char>, taken: Set<Seq<char>>, n: nat, fuel: nat)
    requires
        taken.finite(),
        n >= 2,
        forall|m: nat| 2 <= m < n ==> taken.contains(#[trigger] suffixed(base, m)),
        n - 2 + fuel == taken.len(),
    ensures
        !taken.contains(first_free(base, taken, n, fuel)),
    decreases fuel,
{
    if fuel == 0 {
        if taken.contains(suffixed(base, n)) {
            assert forall|m: nat| 2 <= m < n + 1 implies taken.contains(#[trigger] suffixed(base, m)) by {}
            lemma_pigeon(base, taken, n + 1);
        }
    } else if taken.contains(suffixed(base, n)) {
        assert forall|m: nat| 2 <= m < n + 1 implies taken.contains(#[trigger] suffixed(base, m)) by {}
        lemma_first_free(base, taken, n + 1, (fuel - 1) as nat);
    }
}

/// A fresh id is never one already taken.
pub proof fn lemma_fresh_is_fresh(base: Seq<char>, taken: Set<Seq<char>>)
    requires
        taken.finite(),
    ensures
        !taken.contains(fresh_id(base, taken)),
{
    if taken.contains(base) {
        lemma_first_free(base, taken, 2, taken.len());
    }
}

/// Law: the ids handed out are pairwise distinct and none was taken before.
pub proof fn lemma_assigned_ids_distinct(s: Seq<RawView>, taken: Set<Seq<char>>)
    requires
        taken.finite(),
    ensures
        assign_ids(s, taken).len() == s.len(),
        forall|i: int| 0 <= i < s.len() ==> !taken.contains(#[trigger] assign_ids(s, taken)[i]),
        forall|i: int, j: int| 0 <= i < j < s.len() ==> assign_ids(s, taken)[i] != assign_ids(s, taken)[j],
    decreases s.len(),
{
    if s.len() > 0 {
        let id = fresh_id(base_of(s[0]), taken);
        lemma_fresh_is_fresh(base_of(s[0]), taken);
        let rest = assign_ids(s.drop_first(), taken.insert(id));
        lemma_assigned_ids_distinct(s.drop_first(), taken.insert(id));
        let all = assign_ids(s, taken);
        assert(all == seq![id] + rest);
        assert forall|i: int| 0 <= i < s.len() implies !taken.contains(#[trigger] all[i]) by {
            if i > 0 {
                assert(all[i] == rest[i - 1]);
            }
        }
        assert forall|i: int, j: int| 0 <= i < j < s.len() implies all[i] != all[j] by {
            assert(all[j] == rest[j - 1]);
            if i > 0 {
                assert(all[i] == rest[i - 1]);
            } else {
                assert(!taken.insert(id).contains(rest[j - 1]));
            }
        }
    }
}


/// Every label of a conversion set, file by file in the order given, each
/// file's in source order.
pub open spec fn all_labels(docs: Seq<(String, Document)>) -> Seq<RawView>
    decreases docs.len(),
{
    if docs.len() == 0 {
        Seq::empty()
    } else {
        all_labels(docs.drop_last()) + tag(docs.last().0@, labels_in(docs.last().1.blocks@))
    }
}

/// `(file, raw label, id)` entries.
pub type ForwardView = Seq<(Seq<char>, Seq<char>, Seq<char>)>;

/// The `(file, label) -> id` table after recording the entries `s` with ids
/// `ids` in order: an entry whose key equals the previous one's replaces it.
pub open spec fn forward_table(s: Seq<RawView>, ids: Seq<Seq<char>>) -> ForwardView
    decreases s.len(),
{
    if s.len() == 0 || ids.len() < s.len() {
        Seq::empty()
    } else {
        let f = forward_table(s.drop_last(), ids.subrange(0, s.len() - 1));
        let e = s.last();
        let id = ids[s.len() - 1];
        if f.len() > 0 && f.last().0 == e.0 && f.last().1 == e.1 {
            f.update(f.len() - 1, (e.0, e.1, id))
        } else {
            f.push((e.0, e.1, id))
        }
    }
}

/// Stores `v` under `k` unless `k` already has a value.
pub open spec fn insert_absent(m: crate::strmap::EntriesView, k: Seq<char>, v: Seq<char>) -> crate::strmap::EntriesView {
    if map_get(m, k) is Some {
        m
    } else {
        map_insert(m, k, v)
    }
}

/// The `raw label -> id` index: the first id handed to each raw label.
pub open spec fn by_label_table(s: Seq<RawView>, ids: Seq<Seq<char>>) -> crate::strmap::EntriesView
    decreases s.len(),
{
    if s.len() == 0 || ids.len() < s.len() {
        Seq::empty()
    } else {
        insert_absent(by_label_table(s.drop_last(), ids.subrange(0, s.len() - 1)), s.last().1, ids[s.len() - 1])
    }
}

/// The warning text for a label whose normalized form was already taken.
pub open spec fn collision_message(raw: Seq<char>, base: Seq<char>, id: Seq<char>) -> Seq<char> {
    "label `"@ + raw + "` normalizes to `"@ + base
        + "`, which is already taken in this conversion set; using `"@ + id + "` instead"@
}

/// `(file, message)` of each collision warning, in assignment order.
pub open spec fn collision_warnings(s: Seq<RawView>, ids: Seq<Seq<char>>) -> Seq<(Seq<char>, Seq<char>)>
    decreases s.len(),
{
    if s.len() == 0 || ids.len() < s.len() {
        Seq::empty()
    } else {
        let w = collision_warnings(s.drop_last(), ids.subrange(0, s.len() - 1));
        let e = s.last();
        let id = ids[s.len() - 1];
        if id != base_of(e) {
            w.push((e.0, collision_message(e.1, base_of(e), id)))
        } else {
            w
        }
    }
}

/// The run-scoped label registry, built once over every document of a
/// conversion set before any writer runs.
#[derive(Debug, Clone, PartialEq, Eq)]
pub struct LabelRegistry {
    forward: Vec<(String, String, String)>,
    by_raw_label: StrMap,
}

pub open spec fn triple_view(e: (String, String, String)) -> (Seq<char>, Seq<char>, Seq<char>) {
    (e.0@, e.1@, e.2@)
}

/// Position of the first entry with key `(source, label)`, or the length.
pub open spec fn forward_index(f: ForwardView, source: Seq<char>, label: Seq<char>) -> int
    decreases f.len(),
{
    if f.len() == 0 {
        0
    } else if f[0].0 == source && f[0].1 == label {
        0
    } else {
        1 + forward_index(f.drop_first(), source, label)
    }
}

proof fn lemma_forward_index(f: ForwardView, source: Seq<char>, label: Seq<char>)
    ensures
        0 <= forward_index(f, source, label) <= f.len(),
        forward_index(f, source, label) < f.len() ==> f[forward_index(f, source, label)].0 == source
            && f[forward_index(f, source, label)].1 == label,
        forall|i: int| 0 <= i < forward_index(f, source, label) ==> !(#[trigger] f[i].0 == source && f[i].1 == label),
    decreases f.len(),
{
    if f.len() > 0 && !(f[0].0 == source && f[0].1 == label) {
        lemma_forward_index(f.drop_first(), source, label);
        assert forall|i: int| 0 <= i < forward_index(f, source, label) implies !(#[trigger] f[i].0 == source && f[i].1 == label) by {
            if i > 0 {
                assert(f[i] == f.drop_first()[i - 1]);
            }
        }
    }
}

/// The id recorded for `(source, label)`, if any.
pub open spec fn forward_get(f: ForwardView, source: Seq<char>, label: Seq<char>) -> Option<Seq<char>> {
    let i = forward_index(f, source, label);
    if i < f.len() {
        Some(f[i].2)
    } else {
        None
    }
}

/// What a cross-reference to `raw` written in `source` resolves to: the
/// label as defined in `source` first, then the first id any definition of
/// it got, else its plain normalization.
pub open spec fn spec_resolve(reg: LabelRegistry, source: Seq<char>, raw: Seq<char>) -> Seq<char> {
    match forward_get(reg.forward_view(), source, raw) {
        Some(id) => id,
        None => match map_get(reg.by_label_view(), raw) {
            Some(id) => id,
            None => spec_normalize(raw, RefKindView::Generic),
        },
    }
}

impl LabelRegistry {
    /// The `(file, label, id)` entries.
    pub closed spec fn forward_view(&self) -> ForwardView {
        self.forward@.map_values(|e: (String, String, String)| triple_view(e))
    }

    /// The `raw label -> id` index.
    pub closed spec fn by_label_view(&self) -> crate::strmap::EntriesView {
        self.by_raw_label@
    }
}

fn contains_id(taken: &Vec<String>, cand: &String) -> (r: bool)
    ensures
        r == strs(taken@).contains(cand@),
{
    let mut k: usize = 0;
    while k < taken.len()
        invariant
            k <= taken@.len(),
            forall|m: int| 0 <= m < k ==> strs(taken@)[m] != cand@,
        decreases taken.len() - k,
    {
        if taken[k] == *cand {
            assert(strs(taken@)[k as int] == cand@);
            return true;
        }
        k = k + 1;
    }
    proof {
        if strs(taken@).contains(cand@) {
            let m = choose|m: int| 0 <= m < strs(taken@).len() && strs(taken@)[m] == cand@;
            assert(strs(taken@)[m] == cand@);
        }
    }
    false
}

fn suffixed_exec(base: &Vec<char>, n: usize) -> (r: String)
    ensures
        r@ == suffixed(base@, n as nat),
{
    proof {
        reveal_strlit("-");
    }
    let mut c = base.clone();
    c.push('-');
    push_decimal(&mut c, n);
    assert(c@ =~= suffixed(base@, n as nat));
    string_of(&c)
}

/// The first free `base-n`, `n = 2, 3, …`.
fn next_free(taken: &Vec<String>, base: &Vec<char>) -> (r: String)
    requires
        strs(taken@).len() + 3 <= usize::MAX,
    ensures
        r@ == first_free(base@, strs(taken@).to_set(), 2, strs(taken@).to_set().len()),
        !strs(taken@).to_set().contains(r@),
{
    let ghost t = strs(taken@).to_set();
    proof {
        strs(taken@).lemma_cardinality_of_set();
        vstd::seq_lib::seq_to_set_is_finite(strs(taken@));
    }
    let ghost total = t.len();
    let mut n: usize = 2;
    loop
        invariant
            2 <= n,
            t == strs(taken@).to_set(),
            t.finite(),
            total == t.len(),
            total <= strs(taken@).len(),
            strs(taken@).len() + 3 <= usize::MAX,
            n - 2 <= total,
            forall|m: nat| 2 <= m < n ==> t.contains(#[trigger] suffixed(base@, m)),
            first_free(base@, t, 2, total) == first_free(base@, t, n as nat, (total - (n - 2)) as nat),
        decreases total - (n - 2),
    {
        let cand = suffixed_exec(base, n);
        if !contains_id(taken, &cand) {
            assert(!t.contains(cand@));
            proof {
                lemma_first_free(base@, t, 2, total);
            }
            return cand;
        }
        assert(t.contains(suffixed(base@, n as nat)));
        assert forall|m: nat| 2 <= m < n + 1 implies t.contains(#[trigger] suffixed(base@, m)) by {}
        proof {
            lemma_pigeon(base@, t, (n + 1) as nat);
        }
        n = n + 1;
    }
}

proof fn lemma_assign_step(s: Seq<RawView>, i: int, t: Set<Seq<char>>)
    requires
        0 <= i < s.len(),
    ensures
        assign_ids(s.skip(i), t) == seq![fresh_id(base_of(s[i]), t)] + assign_ids(
            s.skip(i + 1),
            t.insert(fresh_id(base_of(s[i]), t)),
        ),
{
    assert(s.skip(i).drop_first() =~= s.skip(i + 1));
    assert(s.skip(i)[0] == s[i]);
}

fn chars_of_string(s: &String) -> (v: Vec<char>)
    ensures
        v@ == s@,
{
    chars_of(s.as_str())
}

fn warning_message(raw: &String, base: &String, id: &String) -> (m: String)
    ensures
        m@ == collision_message(raw@, base@, id@),
{
    let mut v = chars_of("label `");
    push_all(&mut v, &chars_of_string(raw));
    push_all(&mut v, &chars_of("` normalizes to `"));
    push_all(&mut v, &chars_of_string(base));
    push_all(&mut v, &chars_of("`, which is already taken in this conversion set; using `"));
    push_all(&mut v, &chars_of_string(id));
    push_all(&mut v, &chars_of("` instead"));
    string_of(&v)
}


/// `d` is the collision warning `w = (file, message)`.
pub open spec fn is_collision_warning(d: Diagnostic, w: (Seq<char>, Seq<char>)) -> bool {
    &&& d.severity == Severity::Warning
    &&& d.code == codes::label::COLLISION_DISAMBIGUATED
    &&& d.message@ == w.1
    &&& d.file matches Some(f) && f@ == w.0
    &&& d.span == (crate::span::Span { start_line: 1, end_line: 1 })
    &&& d.reference is None
    &&& d.preserved is None
}

impl LabelRegistry {
    /// Builds the registry over every document of a conversion set. Labels
    /// are assigned ids in a stable sort of `(file, label)`, not in the
    /// order the documents are given, so adding an unrelated file never
    /// renumbers a label elsewhere. A label whose normalized form is already
    /// taken gets the first free `-2`, `-3`, … suffix and a warning.
    pub fn build(documents: &Vec<(String, Document)>) -> (r: (LabelRegistry, Vec<Diagnostic>))
        requires
            all_labels(documents@).len() + 3 <= usize::MAX,
        ensures
            ({
                let s = sorted_labels(all_labels(documents@));
                let ids = assign_ids(s, Set::empty());
                &&& r.0.forward_view() == forward_table(s, ids)
                &&& r.0.by_label_view() == by_label_table(s, ids)
                &&& r.1@.len() == collision_warnings(s, ids).len()
                &&& forall|k: int| 0 <= k < r.1@.len() ==> is_collision_warning(#[trigger] r.1@[k], collision_warnings(s, ids)[k])
            }),
    {
        let mut raw: Vec<RawLabel> = Vec::new();
        let mut d: usize = 0;
        while d < documents.len()
            invariant
                d <= documents@.len(),
                raw_views(raw@) == all_labels(documents@.subrange(0, d as int)),
            decreases documents.len() - d,
        {
            assert(documents@.subrange(0, d + 1).drop_last() =~= documents@.subrange(0, d as int));
            assert(documents@.subrange(0, d + 1).last() == documents@[d as int]);
            collect_labels(&documents[d].1.blocks, &documents[d].0, &mut raw);
            d = d + 1;
        }
        assert(documents@.subrange(0, d as int) =~= documents@);
        let sorted = sort_labels(raw);
        let ghost s = raw_views(sorted@);
        let ghost ids = assign_ids(s, Set::empty());
        proof {
            lemma_sorted_len(all_labels(documents@));
            lemma_assigned_ids_distinct(s, Set::empty());
        }
        let mut forward: Vec<(String, String, String)> = Vec::new();
        let mut by_raw = StrMap::new();
        let mut warnings: Vec<Diagnostic> = Vec::new();
        let mut taken: Vec<String> = Vec::new();
        let mut i: usize = 0;
        assert(s.skip(0) =~= s);
        assert(strs(taken@).to_set() =~= Set::<Seq<char>>::empty());
        assert(strs(taken@) =~= ids.subrange(0, 0));
        assert(s.subrange(0, 0) =~= Seq::<RawView>::empty());
        while i < sorted.len()
            invariant
                s == raw_views(sorted@),
                s.len() + 3 <= usize::MAX,
                i <= s.len(),
                ids == assign_ids(s, Set::empty()),
                ids.len() == s.len(),
                strs(taken@) == ids.subrange(0, i as int),
                ids.subrange(i as int, s.len() as int) == assign_ids(s.skip(i as int), strs(taken@).to_set()),
                forward@.map_values(|e: (String, String, String)| triple_view(e)) == forward_table(
                    s.subrange(0, i as int),
                    ids.subrange(0, i as int),
                ),
                by_raw@ == by_label_table(s.subrange(0, i as int), ids.subrange(0, i as int)),
                warnings@.len() == collision_warnings(s.subrange(0, i as int), ids.subrange(0, i as int)).len(),
                forall|k: int| 0 <= k < warnings@.len() ==> is_collision_warning(
                    #[trigger] warnings@[k],
                    collision_warnings(s.subrange(0, i as int), ids.subrange(0, i as int))[k],
                ),
            decreases sorted.len() - i,
        {
            let e = &sorted[i];
            let ghost t = strs(taken@).to_set();
            assert(s[i as int] == raw_view(*e));
            let base = normalize(e.label.raw.as_str(), copy_kind(&e.kind));
            assert(base@ == base_of(s[i as int]));
            let id = if !contains_id(&taken, &base) {
                base.clone()
            } else {
                next_free(&taken, &chars_of_string(&base))
            };
            assert(id@ == fresh_id(base@, t));
            proof {
                lemma_assign_step(s, i as int, t);
                assert(ids[i as int] == ids.subrange(i as int, s.len() as int)[0]);
                assert(ids.subrange(i + 1, s.len() as int) =~= ids.subrange(i as int, s.len() as int).drop_first());
            }
            let ghost ps = s.subrange(0, i + 1);
            let ghost pi = ids.subrange(0, i + 1);
            assert(ps.drop_last() =~= s.subrange(0, i as int));
            assert(pi.subrange(0, i as int) =~= ids.subrange(0, i as int));
            assert(ps.last() == s[i as int]);
            assert(pi[i as int] == id@);
            if !(id == base) {
                let msg = warning_message(&e.label.raw, &base, &id);
                let w = Diagnostic::new(Severity::Warning, codes::label::COLLISION_DISAMBIGUATED, msg.as_str()).with_file(
                    e.source.as_str(),
                );
                warnings.push(w);
            }
            let fl = forward.len();
            let ghost fv = forward@.map_values(|e: (String, String, String)| triple_view(e));
            if fl > 0 && forward[fl - 1].0 == e.source && forward[fl - 1].1 == e.label.raw {
                assert(fv.last() == triple_view(forward@[fl - 1]));
                forward.set(fl - 1, (e.source.clone(), e.label.raw.clone(), id.clone()));
                assert(forward@.map_values(|e: (String, String, String)| triple_view(e)) =~= forward_table(ps, pi));
            } else {
                proof {
                    if fl > 0 {
                        assert(fv.last() == triple_view(forward@[fl - 1]));
                    }
                }
                forward.push((e.source.clone(), e.label.raw.clone(), id.clone()));
                assert(forward@.map_values(|e: (String, String, String)| triple_view(e)) =~= forward_table(ps, pi));
            }
            if by_raw.get(e.label.raw.as_str()).is_none() {
                by_raw.insert(e.label.raw.clone(), id.clone());
            }
            assert(by_raw@ == by_label_table(ps, pi));
            let ghost before_taken = strs(taken@);
            taken.push(id);
            assert(strs(taken@) =~= before_taken.push(ids[i as int]));
            assert(strs(taken@) =~= ids.subrange(0, i + 1));
            assert(strs(taken@).to_set() =~= t.insert(ids[i as int]));
            i = i + 1;
        }
        assert(s.subrange(0, i as int) =~= s);
        assert(ids.subrange(0, i as int) =~= ids);
        (LabelRegistry { forward, by_raw_label: by_raw }, warnings)
    }

    /// The id recorded for `label` as defined in `source`.
    pub fn quarto_id(&self, source: &str, label: &Label) -> (r: Option<&str>)
        ensures
            match r {
                Some(id) => forward_get(self.forward_view(), source@, label.raw@) == Some(id@),
                None => forward_get(self.forward_view(), source@, label.raw@) is None,
            },
    {
        let src = String::from_str(source);
        let i = self.find(&src, &label.raw);
        if i < self.forward.len() {
            Some(self.forward[i].2.as_str())
        } else {
            None
        }
    }

    fn find(&self, source: &String, label: &String) -> (i: usize)
        ensures
            i == forward_index(self.forward_view(), source@, label@),
    {
        proof {
            lemma_forward_index(self.forward_view(), source@, label@);
        }
        let mut i: usize = 0;
        while i < self.forward.len()
            invariant
                i <= self.forward@.len(),
                self.forward_view().len() == self.forward@.len(),
                forall|m: int| 0 <= m < i ==> !(#[trigger] self.forward_view()[m].0 == source@ && self.forward_view()[m].1 == label@),
            decreases self.forward.len() - i,
        {
            assert(self.forward_view()[i as int] == triple_view(self.forward@[i as int]));
            if self.forward[i].0 == *source && self.forward[i].1 == *label {
                proof {
                    lemma_forward_index(self.forward_view(), source@, label@);
                    let k = forward_index(self.forward_view(), source@, label@);
                    if k < i {
                        assert(self.forward_view()[k].0 == source@ && self.forward_view()[k].1 == label@);
                    }
                    assert(self.forward_view()[i as int].0 == source@ && self.forward_view()[i as int].1 == label@);
                    if k > i {
                        assert(!(self.forward_view()[i as int].0 == source@ && self.forward_view()[i as int].1 == label@));
                    }
                }
                return i;
            }
            i = i + 1;
        }
        proof {
            lemma_forward_index(self.forward_view(), source@, label@);
            let k = forward_index(self.forward_view(), source@, label@);
            if k < i {
                assert(self.forward_view()[k].0 == source@ && self.forward_view()[k].1 == label@);
            }
        }
        i
    }

    /// Resolves a cross-reference's raw label, written in `source`, to its
    /// final id: the label as defined in `source` itself first, then the
    /// first id any file's definition of that label got, and only when no
    /// file defines it, the label's plain normalization.
    pub fn resolve_reference(&self, source: &str, raw: &str) -> (r: String)
        ensures
            r@ == match forward_get(self.forward_view(), source@, raw@) {
                Some(id) => id,
                None => match map_get(self.by_label_view(), raw@) {
                    Some(id) => id,
                    None => spec_normalize(raw@, RefKindView::Generic),
                },
            },
    {
        let label = Label::new(raw);
        match self.quarto_id(source, &label) {
            Some(id) => String::from_str(id),
            None => match self.by_raw_label.get(raw) {
                Some(id) => id.clone(),
                None => normalize(raw, RefKind::Generic),
            },
        }
    }

    /// Every `(file, label, id)` entry, in `(file, label)` order.
    pub fn entries(&self) -> (r: &Vec<(String, String, String)>)
        ensures
            r@.map_values(|e: (String, String, String)| triple_view(e)) == self.forward_view(),
    {
        &self.forward
    }
}


proof fn lemma_forward_ids(s: Seq<RawView>, ids: Seq<Seq<char>>)
    requires
        ids.len() >= s.len(),
    ensures
        forall|a: int| 0 <= a < forward_table(s, ids).len() ==> exists|j: int|
            0 <= j < s.len() && #[trigger] forward_table(s, ids)[a].2 == ids[j],
        forall|a: int, b: int| 0 <= a < b < forward_table(s, ids).len() ==> exists|ja: int, jb: int|
            0 <= ja < jb < s.len() && #[trigger] forward_table(s, ids)[a].2 == ids[ja]
                && #[trigger] forward_table(s, ids)[b].2 == ids[jb],
    decreases s.len(),
{
    if s.len() > 0 {
        let n = s.len() - 1;
        let pi = ids.subrange(0, n);
        let fp = forward_table(s.drop_last(), pi);
        let f = forward_table(s, ids);
        lemma_forward_ids(s.drop_last(), pi);
        assert forall|a: int| 0 <= a < fp.len() implies exists|j: int| 0 <= j < n && #[trigger] fp[a].2 == ids[j] by {
            let j = choose|j: int| 0 <= j < s.drop_last().len() && fp[a].2 == pi[j];
            assert(pi[j] == ids[j]);
        }
        assert forall|a: int| 0 <= a < f.len() implies exists|j: int| 0 <= j < s.len() && #[trigger] f[a].2 == ids[j] by {
            if a < fp.len() && f[a] == fp[a] {
                let j = choose|j: int| 0 <= j < n && fp[a].2 == ids[j];
                assert(f[a].2 == ids[j]);
            } else {
                assert(f[a].2 == ids[n]);
            }
        }
        assert forall|a: int, b: int| 0 <= a < b < f.len() implies exists|ja: int, jb: int|
            0 <= ja < jb < s.len() && #[trigger] f[a].2 == ids[ja] && #[trigger] f[b].2 == ids[jb] by {
            if b < fp.len() && f[b] == fp[b] {
                assert(f[a] == fp[a]);
                let (ja, jb) = choose|ja: int, jb: int| 0 <= ja < jb < s.drop_last().len() && fp[a].2 == pi[ja] && fp[b].2 == pi[jb];
                assert(pi[ja] == ids[ja] && pi[jb] == ids[jb]);
                assert(f[a].2 == ids[ja] && f[b].2 == ids[jb]);
            } else {
                assert(f[b].2 == ids[n]);
                assert(f[a] == fp[a]);
                let ja = choose|j: int| 0 <= j < n && fp[a].2 == ids[j];
                assert(f[a].2 == ids[ja]);
            }
        }
    }
}

/// Law: no two `(file, label)` entries of a built registry share an id, so
/// no id is emitted twice across a project.
pub proof fn lemma_build_ids_distinct(documents: Seq<(String, Document)>)
    ensures
        ({
            let s = sorted_labels(all_labels(documents));
            let f = forward_table(s, assign_ids(s, Set::empty()));
            forall|a: int, b: int| 0 <= a < b < f.len() ==> f[a].2 != f[b].2
        }),
{
    let s = sorted_labels(all_labels(documents));
    let ids = assign_ids(s, Set::empty());
    lemma_assigned_ids_distinct(s, Set::empty());
    lemma_forward_ids(s, ids);
    let f = forward_table(s, ids);
    assert forall|a: int, b: int| 0 <= a < b < f.len() implies f[a].2 != f[b].2 by {
        let (ja, jb) = choose|ja: int, jb: int| 0 <= ja < jb < s.len() && f[a].2 == ids[ja] && f[b].2 == ids[jb];
        assert(ids[ja] != ids[jb]);
    }
}


/// The raw spellings of the labels a conversion set defines, in the order of
/// [`all_labels`].
pub open spec fn defined_raws(docs: Seq<(String, Document)>) -> Seq<Seq<char>> {
    all_labels(docs).map_values(|e: RawView| e.1)
}

/// The raw spelling of every label defined anywhere in `documents` (nested
/// blocks included), each once, in key order.
pub fn defined_labels(documents: &Vec<(String, Document)>) -> (r: Vec<String>)
    ensures
        strs(r@) == crate::strmap::keys_of(crate::strmap::add_keys(Seq::empty(), defined_raws(documents@))),
{
    let mut raw: Vec<RawLabel> = Vec::new();
    let mut d: usize = 0;
    while d < documents.len()
        invariant
            d <= documents@.len(),
            raw_views(raw@) == all_labels(documents@.subrange(0, d as int)),
        decreases documents.len() - d,
    {
        assert(documents@.subrange(0, d + 1).drop_last() =~= documents@.subrange(0, d as int));
        assert(documents@.subrange(0, d + 1).last() == documents@[d as int]);
        collect_labels(&documents[d].1.blocks, &documents[d].0, &mut raw);
        d = d + 1;
    }
    assert(documents@.subrange(0, d as int) =~= documents@);
    let ghost raws = raw_views(raw@).map_values(|e: RawView| e.1);
    let mut set = StrMap::new();
    let mut i: usize = 0;
    while i < raw.len()
        invariant
            i <= raw@.len(),
            raws == raw_views(raw@).map_values(|e: RawView| e.1),
            set@ == crate::strmap::add_keys(Seq::empty(), raws.subrange(0, i as int)),
        decreases raw.len() - i,
    {
        assert(raws.subrange(0, i + 1).drop_last() =~= raws.subrange(0, i as int));
        assert(raws[i as int] == raw@[i as int].label.raw@);
        set.insert(String::from_str(raw[i].label.raw.as_str()), String::new());
        i = i + 1;
    }
    assert(raws.subrange(0, i as int) =~= raws);
    assert(raws =~= defined_raws(documents@));
    let r = set.keys();
    assert(strs(r@) =~= r@.map_values(|k: String| k@));
    r
}

} // verus!
