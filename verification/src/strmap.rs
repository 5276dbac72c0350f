//! A small string-keyed map that keeps one entry per key, ordered by key.
use vstd::prelude::*;
use crate::text::chars_of;

verus! {

/// The view of a map entry list: `(key, value)` pairs as character sequences.
pub type EntriesView = Seq<(Seq<char>, Seq<char>)>;

/// Position of the entry with key `k`, or the length when there is none.
pub open spec fn key_index(s: EntriesView, k: Seq<char>) -> int
    decreases s.len(),
{
    if s.len() == 0 {
        0
    } else if s[0].0 == k {
        0
    } else {
        1 + key_index(s.drop_first(), k)
    }
}

pub proof fn lemma_key_index(s: EntriesView, k: Seq<char>)
    ensures
        0 <= key_index(s, k) <= s.len(),
        key_index(s, k) < s.len() ==> s[key_index(s, k)].0 == k,
        forall|i: int| 0 <= i < key_index(s, k) ==> #[trigger] s[i].0 != k,
    decreases s.len(),
{
    if s.len() > 0 && s[0].0 != k {
        lemma_key_index(s.drop_first(), k);
        assert forall|i: int| 0 <= i < key_index(s, k) implies #[trigger] s[i].0 != k by {
            if i > 0 {
                assert(s[i] == s.drop_first()[i - 1]);
            }
        }
    }
}

/// The value stored under `k`.
pub open spec fn map_get(s: EntriesView, k: Seq<char>) -> Option<Seq<char>> {
    let i = key_index(s, k);
    if i < s.len() {
        Some(s[i].1)
    } else {
        None
    }
}

/// Lexicographic order on character sequences, by code point: the order
/// `String`'s `Ord` gives (UTF-8 bytes order the same way code points do).
pub open spec fn seq_lt(a: Seq<char>, b: Seq<char>) -> bool
    decreases a.len(),
{
    if a.len() == 0 {
        b.len() > 0
    } else if b.len() == 0 {
        false
    } else if a[0] != b[0] {
        (a[0] as int) < (b[0] as int)
    } else {
        seq_lt(a.drop_first(), b.drop_first())
    }
}

/// `seq_lt` is irreflexive and total.
pub proof fn lemma_seq_lt_total(a: Seq<char>, b: Seq<char>)
    ensures
        !seq_lt(a, a),
        a != b ==> seq_lt(a, b) || seq_lt(b, a),
        seq_lt(a, b) ==> !seq_lt(b, a),
    decreases a.len(),
{
    if a.len() > 0 && b.len() > 0 {
        lemma_seq_lt_total(a.drop_first(), b.drop_first());
        lemma_seq_lt_total(a.drop_first(), a.drop_first());
        if a[0] == b[0] && a.drop_first() == b.drop_first() {
            assert(a =~= seq![a[0]] + a.drop_first());
            assert(b =~= seq![b[0]] + b.drop_first());
        }
        if a[0] != b[0] {
            assert((a[0] as int) != (b[0] as int));
        }
    } else if a.len() > 0 {
        lemma_seq_lt_total(a.drop_first(), a.drop_first());
    } else if b.len() == 0 {
        assert(a =~= b);
    }
}

/// `seq_lt` is transitive.
pub proof fn lemma_seq_lt_trans(a: Seq<char>, b: Seq<char>, c: Seq<char>)
    requires
        seq_lt(a, b),
        seq_lt(b, c),
    ensures
        seq_lt(a, c),
    decreases a.len(),
{
    if a.len() > 0 && b.len() > 0 && c.len() > 0 {
        if a[0] == b[0] && b[0] == c[0] {
            lemma_seq_lt_trans(a.drop_first(), b.drop_first(), c.drop_first());
        }
    }
}

/// Keys strictly increase along the entries.
pub open spec fn keys_sorted(s: EntriesView) -> bool {
    forall|i: int, j: int| 0 <= i < j < s.len() ==> seq_lt(#[trigger] s[i].0, #[trigger] s[j].0)
}

/// Where a new key `k` goes: before the first entry whose key is not
/// smaller than `k`.
pub open spec fn insert_pos(s: EntriesView, k: Seq<char>) -> int
    decreases s.len(),
{
    if s.len() == 0 {
        0
    } else if !seq_lt(s[0].0, k) {
        0
    } else {
        1 + insert_pos(s.drop_first(), k)
    }
}

pub proof fn lemma_insert_pos(s: EntriesView, k: Seq<char>)
    ensures
        0 <= insert_pos(s, k) <= s.len(),
        forall|i: int| 0 <= i < insert_pos(s, k) ==> seq_lt(#[trigger] s[i].0, k),
        insert_pos(s, k) < s.len() ==> !seq_lt(s[insert_pos(s, k)].0, k),
    decreases s.len(),
{
    if s.len() > 0 && seq_lt(s[0].0, k) {
        lemma_insert_pos(s.drop_first(), k);
        assert forall|i: int| 0 <= i < insert_pos(s, k) implies seq_lt(#[trigger] s[i].0, k) by {
            if i > 0 {
                assert(s[i] == s.drop_first()[i - 1]);
            }
        }
    }
}

/// Inserting `(k, v)`: overwrite the value of an existing key in place, or
/// put a new entry where its key belongs in key order.
pub open spec fn map_insert(s: EntriesView, k: Seq<char>, v: Seq<char>) -> EntriesView {
    let i = key_index(s, k);
    if i < s.len() {
        s.update(i, (k, v))
    } else {
        s.insert(insert_pos(s, k), (k, v))
    }
}

/// No key occurs twice.
pub open spec fn keys_unique(s: EntriesView) -> bool {
    forall|i: int, j: int| 0 <= i < j < s.len() ==> s[i].0 != s[j].0
}

/// `a` sorts strictly before `b`, as `String`'s `<` answers.
pub fn str_lt(a: &String, b: &String) -> (r: bool)
    ensures
        r == seq_lt(a@, b@),
{
    let x = chars_of(a.as_str());
    let y = chars_of(b.as_str());
    let mut i: usize = 0;
    assert(a@.skip(0) =~= a@);
    assert(b@.skip(0) =~= b@);
    while i < x.len() && i < y.len() && x[i] == y[i]
        invariant
            i <= x@.len(),
            i <= y@.len(),
            x@ == a@,
            y@ == b@,
            seq_lt(a@, b@) == seq_lt(a@.skip(i as int), b@.skip(i as int)),
        decreases x.len() - i,
    {
        assert(a@.skip(i as int).drop_first() =~= a@.skip(i + 1));
        assert(b@.skip(i as int).drop_first() =~= b@.skip(i + 1));
        i = i + 1;
    }
    if i == x.len() {
        i < y.len()
    } else if i == y.len() {
        false
    } else {
        x[i] < y[i]
    }
}

/// String-keyed map with one value per key.
#[derive(Debug, Clone, PartialEq, Eq)]
pub struct StrMap {
    entries: Vec<(String, String)>,
}

impl View for StrMap {
    type V = EntriesView;

    closed spec fn view(&self) -> EntriesView {
        self.entries@.map_values(|e: (String, String)| (e.0@, e.1@))
    }
}

impl StrMap {
    /// An empty map.
    pub fn new() -> (m: StrMap)
        ensures
            m@ == Seq::<(Seq<char>, Seq<char>)>::empty(),
    {
        let m = StrMap { entries: Vec::new() };
        assert(m@ =~= Seq::<(Seq<char>, Seq<char>)>::empty());
        m
    }

    /// Number of entries.
    pub fn len(&self) -> (n: usize)
        ensures
            n == self@.len(),
    {
        self.entries.len()
    }

    /// `true` when the map has no entries.
    pub fn is_empty(&self) -> (b: bool)
        ensures
            b == (self@.len() == 0),
    {
        self.entries.len() == 0
    }

    fn find(&self, key: &String) -> (r: usize)
        ensures
            r == key_index(self@, key@),
    {
        proof { lemma_key_index(self@, key@); }
        let mut i: usize = 0;
        while i < self.entries.len()
            invariant
                i <= self.entries@.len(),
                self@.len() == self.entries@.len(),
                forall|m: int| 0 <= m < i ==> #[trigger] self@[m].0 != key@,
            decreases self.entries.len() - i,
        {
            proof { lemma_key_index(self@, key@); }
            if self.entries[i].0 == *key {
                assert(self@[i as int].0 == key@);
                return i;
            }
            assert(self@[i as int].0 != key@);
            i = i + 1;
        }
        proof { lemma_key_index(self@, key@); }
        i
    }

    /// The value stored under `key`.
    pub fn get(&self, key: &str) -> (r: Option<&String>)
        ensures
            match r {
                Some(v) => map_get(self@, key@) == Some(v@),
                None => map_get(self@, key@) is None,
            },
    {
        let k = String::from_str(key);
        let i = self.find(&k);
        if i < self.entries.len() {
            Some(&self.entries[i].1)
        } else {
            None
        }
    }

    fn position_for(&self, key: &String) -> (r: usize)
        ensures
            r == insert_pos(self@, key@),
    {
        proof { lemma_insert_pos(self@, key@); }
        let mut i: usize = 0;
        while i < self.entries.len()
            invariant
                i <= self.entries@.len(),
                self@.len() == self.entries@.len(),
                forall|m: int| 0 <= m < i ==> seq_lt(#[trigger] self@[m].0, key@),
            decreases self.entries.len() - i,
        {
            proof { lemma_insert_pos(self@, key@); }
            assert(self@[i as int].0 == self.entries@[i as int].0@);
            if !str_lt(&self.entries[i].0, key) {
                proof {
                    if insert_pos(self@, key@) > i {
                        assert(seq_lt(self@[i as int].0, key@));
                    }
                    if insert_pos(self@, key@) < i {
                        assert(seq_lt(self@[insert_pos(self@, key@)].0, key@));
                    }
                }
                return i;
            }
            i = i + 1;
        }
        proof {
            lemma_insert_pos(self@, key@);
            if insert_pos(self@, key@) < i {
                assert(seq_lt(self@[insert_pos(self@, key@)].0, key@));
            }
        }
        i
    }

    /// Stores `value` under `key`, replacing any earlier value in place.
    pub fn insert(&mut self, key: String, value: String)
        ensures
            final(self)@ == map_insert(old(self)@, key@, value@),
    {
        let i = self.find(&key);
        if i < self.entries.len() {
            self.entries.set(i, (key, value));
            assert(self@ =~= map_insert(old(self)@, key@, value@));
        } else {
            let p = self.position_for(&key);
            proof { lemma_insert_pos(self@, key@); }
            self.entries.insert(p, (key, value));
            assert(self@ =~= map_insert(old(self)@, key@, value@));
        }
    }

    /// The entries in key order.
    pub fn entries(&self) -> (r: &Vec<(String, String)>)
        ensures
            r@.map_values(|e: (String, String)| (e.0@, e.1@)) == self@,
    {
        &self.entries
    }
}

/// The entries whose flag in `keep` is set, in order.
pub open spec fn select(s: EntriesView, keep: Seq<bool>) -> EntriesView
    decreases s.len(),
{
    if s.len() == 0 || keep.len() < s.len() {
        Seq::empty()
    } else {
        select(s.drop_last(), keep.subrange(0, s.len() - 1)) + if keep[s.len() - 1] {
            seq![s.last()]
        } else {
            Seq::empty()
        }
    }
}

impl StrMap {
    /// The entries whose flag in `keep` is set, in order.
    pub fn selected(&self, keep: &Vec<bool>) -> (r: StrMap)
        requires
            keep@.len() == self@.len(),
        ensures
            r@ == select(self@, keep@),
    {
        let mut out: Vec<(String, String)> = Vec::new();
        let mut i: usize = 0;
        while i < self.entries.len()
            invariant
                i <= self.entries@.len(),
                keep@.len() == self.entries@.len(),
                self@.len() == self.entries@.len(),
                out@.map_values(|e: (String, String)| (e.0@, e.1@)) == select(
                    self@.subrange(0, i as int),
                    keep@.subrange(0, i as int),
                ),
            decreases self.entries.len() - i,
        {
            let ghost before = out@.map_values(|e: (String, String)| (e.0@, e.1@));
            assert(self@.subrange(0, i + 1).drop_last() =~= self@.subrange(0, i as int));
            assert(keep@.subrange(0, i + 1).subrange(0, i as int) =~= keep@.subrange(0, i as int));
            if keep[i] {
                out.push((self.entries[i].0.clone(), self.entries[i].1.clone()));
                assert(out@.map_values(|e: (String, String)| (e.0@, e.1@)) =~= before.push(self@[i as int]));
            }
            assert(out@.map_values(|e: (String, String)| (e.0@, e.1@)) =~= select(
                self@.subrange(0, i + 1),
                keep@.subrange(0, i + 1),
            ));
            i = i + 1;
        }
        assert(self@.subrange(0, i as int) =~= self@);
        assert(keep@.subrange(0, i as int) =~= keep@);
        let r = StrMap { entries: out };
        r
    }
}

/// Inserting keeps the keys sorted, and the new value is stored.
pub proof fn lemma_insert_keeps_sorted(s: EntriesView, k: Seq<char>, v: Seq<char>)
    requires
        keys_sorted(s),
    ensures
        keys_sorted(map_insert(s, k, v)),
        map_get(map_insert(s, k, v), k) == Some(v),
{
    lemma_key_index(s, k);
    lemma_insert_pos(s, k);
    let i = key_index(s, k);
    let t = map_insert(s, k, v);
    if i < s.len() {
        assert forall|a: int, b: int| 0 <= a < b < t.len() implies seq_lt(#[trigger] t[a].0, #[trigger] t[b].0) by {
            assert(t[a].0 == s[a].0 && t[b].0 == s[b].0);
            assert(seq_lt(s[a].0, s[b].0));
        }
        lemma_key_index(t, k);
        assert forall|m: int| 0 <= m < i implies #[trigger] t[m].0 != k by {
            assert(t[m] == s[m]);
        }
        assert(t[i].0 == k);
        assert(key_index(t, k) == i);
    } else {
        let p = insert_pos(s, k);
        assert forall|m: int| 0 <= m < s.len() implies #[trigger] s[m].0 != k by {}
        assert forall|a: int, b: int| 0 <= a < b < t.len() implies seq_lt(#[trigger] t[a].0, #[trigger] t[b].0) by {
            if b < p {
                assert(t[a] == s[a] && t[b] == s[b]);
                assert(seq_lt(s[a].0, s[b].0));
            } else if b == p {
                assert(t[a] == s[a]);
                assert(seq_lt(s[a].0, k));
            } else if a == p {
                assert(t[b] == s[b - 1]);
                lemma_seq_lt_total(s[p].0, k);
                if b - 1 > p {
                    assert(seq_lt(s[p].0, s[b - 1].0));
                    lemma_seq_lt_total(k, s[p].0);
                    if s[p].0 != k && seq_lt(k, s[p].0) {
                        lemma_seq_lt_trans(k, s[p].0, s[b - 1].0);
                    }
                } else {
                    lemma_seq_lt_total(k, s[p].0);
                }
            } else if a < p {
                assert(t[a] == s[a] && t[b] == s[b - 1]);
                if a < b - 1 {
                    assert(seq_lt(s[a].0, s[b - 1].0));
                }
            } else {
                assert(t[a] == s[a - 1] && t[b] == s[b - 1]);
                assert(seq_lt(s[a - 1].0, s[b - 1].0));
            }
        }
        lemma_key_index(t, k);
        assert forall|m: int| 0 <= m < p implies #[trigger] t[m].0 != k by {
            assert(t[m] == s[m]);
        }
        assert(t[p].0 == k);
        assert(key_index(t, k) == p);
    }
}


/// The keys of an entry list, in order.
pub open spec fn keys_of(s: EntriesView) -> Seq<Seq<char>> {
    s.map_values(|e: (Seq<char>, Seq<char>)| e.0)
}

/// `m` with each of `ks` added as a key (with an empty value), in turn: the
/// set of those keys, each once, in key order.
pub open spec fn add_keys(m: EntriesView, ks: Seq<Seq<char>>) -> EntriesView
    decreases ks.len(),
{
    if ks.len() == 0 {
        m
    } else {
        map_insert(add_keys(m, ks.drop_last()), ks.last(), Seq::empty())
    }
}

impl StrMap {
    /// A copy of the map.
    pub fn copy(&self) -> (r: StrMap)
        ensures
            r@ == self@,
    {
        let mut out: Vec<(String, String)> = Vec::new();
        let mut i: usize = 0;
        while i < self.entries.len()
            invariant
                i <= self.entries@.len(),
                self@.len() == self.entries@.len(),
                out@.map_values(|e: (String, String)| (e.0@, e.1@)) == self@.subrange(0, i as int),
            decreases self.entries.len() - i,
        {
            let ghost before = out@.map_values(|e: (String, String)| (e.0@, e.1@));
            let k = String::from_str(self.entries[i].0.as_str());
            let v = String::from_str(self.entries[i].1.as_str());
            out.push((k, v));
            assert(out@.map_values(|e: (String, String)| (e.0@, e.1@)) =~= before.push(self@[i as int]));
            assert(self@.subrange(0, i + 1) =~= self@.subrange(0, i as int).push(self@[i as int]));
            i = i + 1;
        }
        assert(self@.subrange(0, i as int) =~= self@);
        StrMap { entries: out }
    }

    /// The keys, in key order.
    pub fn keys(&self) -> (r: Vec<String>)
        ensures
            r@.map_values(|k: String| k@) == keys_of(self@),
    {
        let mut out: Vec<String> = Vec::new();
        let mut i: usize = 0;
        while i < self.entries.len()
            invariant
                i <= self.entries@.len(),
                self@.len() == self.entries@.len(),
                out@.map_values(|k: String| k@) == keys_of(self@).subrange(0, i as int),
            decreases self.entries.len() - i,
        {
            let ghost before = out@.map_values(|k: String| k@);
            assert(self@[i as int].0 == self.entries@[i as int].0@);
            let k = String::from_str(self.entries[i].0.as_str());
            assert(k@ == keys_of(self@)[i as int]);
            out.push(k);
            assert(out@.map_values(|k: String| k@) =~= before.push(keys_of(self@)[i as int]));
            assert(keys_of(self@).subrange(0, i + 1) =~= keys_of(self@).subrange(0, i as int).push(keys_of(self@)[i as int]));
            i = i + 1;
        }
        assert(keys_of(self@).subrange(0, i as int) =~= keys_of(self@));
        out
    }

    /// Adds each of `ks` as a key with an empty value.
    pub fn add_keys(&mut self, ks: &Vec<String>)
        ensures
            final(self)@ == add_keys(old(self)@, ks@.map_values(|k: String| k@)),
    {
        let ghost kv = ks@.map_values(|k: String| k@);
        let mut i: usize = 0;
        while i < ks.len()
            invariant
                i <= ks@.len(),
                kv == ks@.map_values(|k: String| k@),
                self@ == add_keys(old(self)@, kv.subrange(0, i as int)),
            decreases ks.len() - i,
        {
            assert(kv.subrange(0, i + 1).drop_last() =~= kv.subrange(0, i as int));
            self.insert(String::from_str(ks[i].as_str()), String::new());
            i = i + 1;
        }
        assert(kv.subrange(0, i as int) =~= kv);
    }
}


/// Two entry lists with the same keys at every position find every key at
/// the same position.
pub proof fn lemma_key_index_same_keys(s: EntriesView, t: EntriesView, k: Seq<char>)
    requires
        s.len() == t.len(),
        forall|i: int| 0 <= i < s.len() ==> #[trigger] s[i].0 == t[i].0,
    ensures
        key_index(s, k) == key_index(t, k),
{
    lemma_key_index(s, k);
    lemma_key_index(t, k);
    let a = key_index(s, k);
    let b = key_index(t, k);
    if a < b {
        assert(t[a].0 == s[a].0);
    }
    if b < a {
        assert(s[b].0 == t[b].0);
    }
}

/// Inserting stores the value under its key and leaves every other key's
/// value as it was.
pub proof fn lemma_map_insert_get(s: EntriesView, k: Seq<char>, v: Seq<char>, k2: Seq<char>)
    ensures
        map_get(map_insert(s, k, v), k) == Some(v),
        k2 != k ==> map_get(map_insert(s, k, v), k2) == map_get(s, k2),
{
    lemma_key_index(s, k);
    lemma_key_index(s, k2);
    let i = key_index(s, k);
    let t = map_insert(s, k, v);
    if i < s.len() {
        assert forall|m: int| 0 <= m < s.len() implies #[trigger] s[m].0 == t[m].0 by {}
        lemma_key_index_same_keys(s, t, k);
        lemma_key_index_same_keys(s, t, k2);
        if k2 != k {
            let a = key_index(s, k2);
            if a < s.len() {
                assert(a != i);
                assert(t[a] == s[a]);
            }
        }
    } else {
        let p = insert_pos(s, k);
        lemma_insert_pos(s, k);
        lemma_key_index(t, k);
        lemma_key_index(t, k2);
        assert(t.len() == s.len() + 1);
        assert(t[p] == (k, v));
        let b = key_index(t, k);
        assert(t[p].0 == k);
        if b < p {
            assert(t[b] == s[b]);
            assert(s[b].0 != k);
        }
        assert(b == p);
        if k2 != k {
            let a = key_index(s, k2);
            let c = key_index(t, k2);
            if a < p {
                assert(t[a] == s[a]);
                if c < a {
                    assert(t[c] == s[c]);
                }
                assert(c == a);
            } else if a < s.len() {
                assert(t[a + 1] == s[a]);
                if c < a + 1 {
                    if c < p {
                        assert(t[c] == s[c]);
                    } else if c > p {
                        assert(t[c] == s[c - 1]);
                    }
                }
                assert(c == a + 1);
            } else {
                if c < t.len() {
                    if c < p {
                        assert(t[c] == s[c]);
                    } else if c > p {
                        assert(t[c] == s[c - 1]);
                    }
                }
                assert(c == t.len());
            }
        }
    }
}

} // verus!
