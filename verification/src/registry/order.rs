//! The registry does not depend on the order in which documents are given.
use vstd::prelude::*;
use crate::ir::Document;
use crate::registry::{all_labels, key_lt, sorted_labels, stable_pos, tag, RawView};
use crate::strmap::{lemma_seq_lt_total, lemma_seq_lt_trans, seq_lt};

verus! {

/// The keys never step down along `t`.
pub open spec fn keys_ascending(t: Seq<RawView>) -> bool {
    forall|i: int, j: int| 0 <= i < j < t.len() ==> !key_lt(#[trigger] t[j], #[trigger] t[i])
}

/// `t` with `x` put in by the stable insertion that sorting uses.
pub open spec fn ins(t: Seq<RawView>, x: RawView) -> Seq<RawView> {
    t.insert(stable_pos(t, x), x)
}

/// Every entry of `s` put into `t` in turn.
pub open spec fn ins_all(t: Seq<RawView>, s: Seq<RawView>) -> Seq<RawView>
    decreases s.len(),
{
    if s.len() == 0 {
        t
    } else {
        ins(ins_all(t, s.drop_last()), s.last())
    }
}

/// `(file, label)` keys are totally ordered.
proof fn lemma_key_order(a: RawView, b: RawView, c: RawView)
    ensures
        !key_lt(a, a),
        key_lt(a, b) ==> !key_lt(b, a),
        key_lt(a, b) && key_lt(b, c) ==> key_lt(a, c),
        !key_lt(a, b) && !(a.0 == b.0 && a.1 == b.1) ==> key_lt(b, a),
{
    lemma_seq_lt_total(a.0, b.0);
    lemma_seq_lt_total(a.1, b.1);
    lemma_seq_lt_total(b.0, a.0);
    lemma_seq_lt_total(b.1, a.1);
    lemma_seq_lt_total(a.0, a.0);
    lemma_seq_lt_total(a.1, a.1);
    if seq_lt(a.0, b.0) && seq_lt(b.0, c.0) {
        lemma_seq_lt_trans(a.0, b.0, c.0);
    }
    if seq_lt(a.1, b.1) && seq_lt(b.1, c.1) {
        lemma_seq_lt_trans(a.1, b.1, c.1);
    }
}

/// In ascending `t`, the stable insertion point of `x` splits the entries
/// not above `x` from those above it.
proof fn lemma_stable_pos_split(t: Seq<RawView>, x: RawView)
    requires
        keys_ascending(t),
    ensures
        0 <= stable_pos(t, x) <= t.len(),
        forall|i: int| 0 <= i < stable_pos(t, x) ==> !key_lt(x, #[trigger] t[i]),
        forall|i: int| stable_pos(t, x) <= i < t.len() ==> key_lt(x, #[trigger] t[i]),
    decreases t.len(),
{
    if t.len() > 0 {
        let d = t.drop_last();
        assert(keys_ascending(d)) by {
            assert forall|i: int, j: int| 0 <= i < j < d.len() implies !key_lt(#[trigger] d[j], #[trigger] d[i]) by {
                assert(d[i] == t[i] && d[j] == t[j]);
            }
        }
        if key_lt(x, t.last()) {
            lemma_stable_pos_split(d, x);
            assert forall|i: int| stable_pos(t, x) <= i < t.len() implies key_lt(x, #[trigger] t[i]) by {
                if i < t.len() - 1 {
                    assert(d[i] == t[i]);
                }
            }
            assert forall|i: int| 0 <= i < stable_pos(t, x) implies !key_lt(x, #[trigger] t[i]) by {
                assert(d[i] == t[i]);
            }
        } else {
            assert forall|i: int| 0 <= i < t.len() implies !key_lt(x, #[trigger] t[i]) by {
                if i < t.len() - 1 {
                    assert(!key_lt(t[t.len() - 1], t[i]));
                    lemma_key_order(t.last(), t[i], x);
                    lemma_key_order(x, t[i], t.last());
                }
            }
        }
    }
}

/// A split point of `t` for `x` is the stable insertion point.
proof fn lemma_split_is_pos(t: Seq<RawView>, x: RawView, q: int)
    requires
        keys_ascending(t),
        0 <= q <= t.len(),
        forall|i: int| 0 <= i < q ==> !key_lt(x, #[trigger] t[i]),
        forall|i: int| q <= i < t.len() ==> key_lt(x, #[trigger] t[i]),
    ensures
        stable_pos(t, x) == q,
{
    lemma_stable_pos_split(t, x);
    let p = stable_pos(t, x);
    if p < q {
        assert(key_lt(x, t[p]));
    } else if q < p {
        assert(key_lt(x, t[q]));
    }
}

/// Stable insertion keeps the keys ascending.
proof fn lemma_ins_ascending(t: Seq<RawView>, x: RawView)
    requires
        keys_ascending(t),
    ensures
        keys_ascending(ins(t, x)),
{
    lemma_stable_pos_split(t, x);
    let p = stable_pos(t, x);
    let u = ins(t, x);
    assert forall|i: int, j: int| 0 <= i < j < u.len() implies !key_lt(#[trigger] u[j], #[trigger] u[i]) by {
        if i < p && j == p {
        } else if i == p && j > p {
            lemma_key_order(x, t[j - 1], x);
        } else if i < p && j > p {
            assert(!key_lt(t[j - 1], t[i]));
        } else if i > p {
            assert(!key_lt(t[j - 1], t[i - 1]));
        } else {
            assert(!key_lt(t[j], t[i]));
        }
    }
}

/// Two entries in strict key order can be put in either order.
proof fn lemma_ins_commute_lt(t: Seq<RawView>, x: RawView, y: RawView)
    requires
        keys_ascending(t),
        key_lt(x, y),
    ensures
        ins(ins(t, x), y) == ins(ins(t, y), x),
{
    lemma_stable_pos_split(t, x);
    lemma_stable_pos_split(t, y);
    let px = stable_pos(t, x);
    let py = stable_pos(t, y);
    lemma_key_order(x, y, x);
    assert(px <= py) by {
        if py < px {
            assert(key_lt(y, t[py]));
            assert(!key_lt(x, t[py]));
            lemma_key_order(x, y, t[py]);
        }
    }
    let t1 = ins(t, x);
    let t2 = ins(t, y);
    lemma_ins_ascending(t, x);
    lemma_ins_ascending(t, y);
    assert forall|i: int| 0 <= i < py + 1 implies !key_lt(y, #[trigger] t1[i]) by {
        if i < px {
            lemma_key_order(t[i], x, y);
            lemma_key_order(x, t[i], y);
            lemma_key_order(y, t[i], x);
        } else if i > px {
            assert(t1[i] == t[i - 1]);
        }
    }
    assert forall|i: int| py + 1 <= i < t1.len() implies key_lt(y, #[trigger] t1[i]) by {
        assert(t1[i] == t[i - 1]);
    }
    lemma_split_is_pos(t1, y, py + 1);
    assert forall|i: int| 0 <= i < px implies !key_lt(x, #[trigger] t2[i]) by {
        assert(t2[i] == t[i]);
    }
    assert forall|i: int| px <= i < t2.len() implies key_lt(x, #[trigger] t2[i]) by {
        if i < py {
            assert(t2[i] == t[i]);
        } else if i > py {
            assert(t2[i] == t[i - 1]);
        }
    }
    lemma_split_is_pos(t2, x, px);
    assert(ins(t1, y) =~= ins(t2, x));
}

/// Two entries of different files can be put in either order.
proof fn lemma_ins_commute(t: Seq<RawView>, x: RawView, y: RawView)
    requires
        keys_ascending(t),
        x.0 != y.0,
    ensures
        ins(ins(t, x), y) == ins(ins(t, y), x),
{
    lemma_key_order(x, y, x);
    if key_lt(x, y) {
        lemma_ins_commute_lt(t, x, y);
    } else {
        lemma_ins_commute_lt(t, y, x);
    }
}

proof fn lemma_ins_all_ascending(t: Seq<RawView>, s: Seq<RawView>)
    requires
        keys_ascending(t),
    ensures
        keys_ascending(ins_all(t, s)),
    decreases s.len(),
{
    if s.len() > 0 {
        lemma_ins_all_ascending(t, s.drop_last());
        lemma_ins_ascending(ins_all(t, s.drop_last()), s.last());
    }
}

/// An entry of another file than all of `a` can be put before or after them.
proof fn lemma_commute_one(t: Seq<RawView>, a: Seq<RawView>, y: RawView)
    requires
        keys_ascending(t),
        forall|k: int| 0 <= k < a.len() ==> (#[trigger] a[k]).0 != y.0,
    ensures
        ins(ins_all(t, a), y) == ins_all(ins(t, y), a),
    decreases a.len(),
{
    if a.len() > 0 {
        let a1 = a.drop_last();
        assert forall|k: int| 0 <= k < a1.len() implies (#[trigger] a1[k]).0 != y.0 by {
            assert(a1[k] == a[k]);
        }
        lemma_ins_all_ascending(t, a1);
        assert(a.last() == a[a.len() - 1]);
        lemma_ins_commute(ins_all(t, a1), a.last(), y);
        lemma_commute_one(t, a1, y);
    }
}

/// Entries of files disjoint from those of `a` can be put before or after
/// them.
proof fn lemma_commute_all(t: Seq<RawView>, a: Seq<RawView>, b: Seq<RawView>)
    requires
        keys_ascending(t),
        forall|i: int, j: int| 0 <= i < a.len() && 0 <= j < b.len() ==> (#[trigger] a[i]).0 != (#[trigger] b[j]).0,
    ensures
        ins_all(ins_all(t, a), b) == ins_all(ins_all(t, b), a),
    decreases b.len(),
{
    if b.len() > 0 {
        let b1 = b.drop_last();
        assert forall|i: int, j: int| 0 <= i < a.len() && 0 <= j < b1.len() implies (#[trigger] a[i]).0 != (#[trigger] b1[j]).0 by {
            assert(b1[j] == b[j]);
        }
        lemma_commute_all(t, a, b1);
        lemma_ins_all_ascending(t, b1);
        assert forall|k: int| 0 <= k < a.len() implies (#[trigger] a[k]).0 != b.last().0 by {
            assert(b.last() == b[b.len() - 1]);
        }
        lemma_commute_one(ins_all(t, b1), a, b.last());
    }
}

proof fn lemma_sorted_ascending(s: Seq<RawView>)
    ensures
        keys_ascending(sorted_labels(s)),
    decreases s.len(),
{
    if s.len() > 0 {
        lemma_sorted_ascending(s.drop_last());
        lemma_ins_ascending(sorted_labels(s.drop_last()), s.last());
    }
}

proof fn lemma_sorted_concat(p: Seq<RawView>, s: Seq<RawView>)
    ensures
        sorted_labels(p + s) == ins_all(sorted_labels(p), s),
    decreases s.len(),
{
    if s.len() == 0 {
        assert(p + s =~= p);
    } else {
        assert((p + s).drop_last() =~= p + s.drop_last());
        assert((p + s).last() == s.last());
        lemma_sorted_concat(p, s.drop_last());
    }
}

proof fn lemma_ins_all_concat(t: Seq<RawView>, a: Seq<RawView>, b: Seq<RawView>)
    ensures
        ins_all(t, a + b) == ins_all(ins_all(t, a), b),
    decreases b.len(),
{
    if b.len() == 0 {
        assert(a + b =~= a);
    } else {
        assert((a + b).drop_last() =~= a + b.drop_last());
        assert((a + b).last() == b.last());
        lemma_ins_all_concat(t, a, b.drop_last());
    }
}

proof fn lemma_all_labels_concat(d1: Seq<(String, Document)>, d2: Seq<(String, Document)>)
    ensures
        all_labels(d1 + d2) == all_labels(d1) + all_labels(d2),
    decreases d2.len(),
{
    if d2.len() == 0 {
        assert(d1 + d2 =~= d1);
        assert(all_labels(d1) + all_labels(d2) =~= all_labels(d1));
    } else {
        assert((d1 + d2).drop_last() =~= d1 + d2.drop_last());
        assert((d1 + d2).last() == d2.last());
        lemma_all_labels_concat(d1, d2.drop_last());
        assert(all_labels(d1) + all_labels(d2) =~= all_labels(d1) + all_labels(d2.drop_last()) + tag(
            d2.last().0@,
            crate::registry::labels_in(d2.last().1.blocks@),
        ));
    }
}

proof fn lemma_all_labels_one(d: (String, Document))
    ensures
        all_labels(seq![d]) == tag(d.0@, crate::registry::labels_in(d.1.blocks@)),
{
    assert(seq![d].drop_last() =~= Seq::<(String, Document)>::empty());
    assert(all_labels(Seq::<(String, Document)>::empty()) + tag(d.0@, crate::registry::labels_in(d.1.blocks@)) =~= tag(
        d.0@,
        crate::registry::labels_in(d.1.blocks@),
    ));
}

/// Swapping two neighbouring documents of different files leaves the
/// sorted labels, and so every id, table and warning the registry is built
/// from, unchanged: labels are assigned in `(file, label)` order, not in
/// the order the documents are given. Any reordering of documents with
/// distinct files is a series of such swaps.
pub proof fn lemma_build_order_independent(docs: Seq<(String, Document)>, i: int)
    requires
        0 <= i,
        i + 1 < docs.len(),
        docs[i].0@ != docs[i + 1].0@,
    ensures
        sorted_labels(all_labels(docs.update(i, docs[i + 1]).update(i + 1, docs[i]))) == sorted_labels(
            all_labels(docs),
        ),
{
    let p = docs.subrange(0, i);
    let q = docs.subrange(i + 2, docs.len() as int);
    let a = docs[i];
    let b = docs[i + 1];
    let swapped = docs.update(i, b).update(i + 1, a);
    assert(docs =~= p + seq![a] + seq![b] + q);
    assert(swapped =~= p + seq![b] + seq![a] + q);
    lemma_all_labels_concat(p + seq![a] + seq![b], q);
    lemma_all_labels_concat(p + seq![a], seq![b]);
    lemma_all_labels_concat(p, seq![a]);
    lemma_all_labels_concat(p + seq![b] + seq![a], q);
    lemma_all_labels_concat(p + seq![b], seq![a]);
    lemma_all_labels_concat(p, seq![b]);
    lemma_all_labels_one(a);
    lemma_all_labels_one(b);
    let lp = all_labels(p);
    let la = all_labels(seq![a]);
    let lb = all_labels(seq![b]);
    let lq = all_labels(q);
    let t = sorted_labels(lp);
    lemma_sorted_ascending(lp);
    lemma_sorted_concat(lp + la + lb, lq);
    lemma_sorted_concat(lp + lb + la, lq);
    lemma_sorted_concat(lp, la + lb);
    lemma_sorted_concat(lp, lb + la);
    assert(lp + la + lb =~= lp + (la + lb));
    assert(lp + lb + la =~= lp + (lb + la));
    lemma_ins_all_concat(t, la, lb);
    lemma_ins_all_concat(t, lb, la);
    assert forall|x: int, y: int| 0 <= x < la.len() && 0 <= y < lb.len() implies (#[trigger] la[x]).0 != (
    #[trigger] lb[y]).0 by {
        assert(la[x].0 == a.0@);
        assert(lb[y].0 == b.0@);
    }
    lemma_commute_all(t, la, lb);
}

} // verus!
