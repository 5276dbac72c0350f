//! The YAML value model shared by page-frontmatter edits and project-config
//! synthesis: strings (plain or forced to `|` block style), integers,
//! floating-point scalars (held as their decimal text), booleans, null,
//! sequences and order-preserving mappings.
//!
//! Two narrow mechanisms build on it: [`surgery`] edits an existing
//! frontmatter block line by line, so untouched keys keep their exact text,
//! and [`emit`] synthesizes a new document from an ordered field list.
use vstd::prelude::*;
use saphyr::{LoadableYamlNode, ScalarOwned, YamlOwned};

pub mod emit;
pub mod surgery;

verus! {

/// `saphyr`'s owned YAML node, carried opaquely.
#[verifier::external_type_specification]
#[verifier::external_body]
pub struct ExYamlOwned(saphyr::YamlOwned);

/// `saphyr`'s owned YAML scalar, carried opaquely.
#[verifier::external_type_specification]
#[verifier::external_body]
pub struct ExScalarOwned(saphyr::ScalarOwned);

/// The name for what reading `text` as a single-document YAML mapping with
/// `saphyr`'s YAML 1.2 core-schema loader gives: its fields in document order,
/// or nothing when the text is not YAML or its one document is not a mapping
/// with string keys.
pub uninterp spec fn yaml_mapping(text: Seq<char>) -> Option<DictView>;

/// Reads `text` with `saphyr::YamlOwned::load_from_str` into a mapping's
/// fields, keeping their order (floating-point scalars carried as their
/// display text, tags dropped, aliases as null). The contract claims only
/// that the result is the named one: the fields on success, an error exactly
/// when there are none; which error, and its message, are left open.
#[verifier::external_body]
pub fn parse_mapping(text: &str) -> (r: Result<Vec<(String, YamlValue)>, YamlReadError>)
    ensures
        match r {
            Ok(m) => yaml_mapping(text@) == Some(fields_view(m@)),
            Err(_) => yaml_mapping(text@) is None,
        },
{
    let docs = YamlOwned::load_from_str(text).map_err(|e| YamlReadError::Scan(e.to_string()))?;
    match docs.as_slice() {
        [YamlOwned::Mapping(m)] => m.iter().map(|(k, v)| match k.as_str() {
            Some(key) => Ok((key.to_string(), yaml_value(v))),
            None => Err(YamlReadError::NotAMapping),
        }).collect(),
        _ => Err(YamlReadError::NotAMapping),
    }
}

/// One loaded node as a library value; converts `saphyr::YamlOwned` variant
/// by variant for `parse_mapping`, which is the only caller.
#[verifier::external_body]
fn yaml_value(y: &YamlOwned) -> YamlValue {
    match y {
        YamlOwned::Value(scalar) => scalar_value(scalar),
        YamlOwned::Sequence(items) => YamlValue::Sequence(items.iter().map(yaml_value).collect()),
        YamlOwned::Mapping(m) => YamlValue::Mapping(
            m.iter().map(|(k, v)| (k.as_str().unwrap_or_default().to_string(), yaml_value(v))).collect(),
        ),
        YamlOwned::Tagged(_, inner) => yaml_value(inner),
        YamlOwned::Representation(s, _, _) => YamlValue::String(s.clone()),
        YamlOwned::Alias(_) | YamlOwned::BadValue => YamlValue::Null,
    }
}

/// One loaded scalar as a library value (a floating-point scalar as its
/// display text), for `yaml_value`.
#[verifier::external_body]
fn scalar_value(s: &ScalarOwned) -> YamlValue {
    match s {
        ScalarOwned::Null => YamlValue::Null,
        ScalarOwned::Boolean(b) => YamlValue::Bool(*b),
        ScalarOwned::Integer(i) => YamlValue::Int(*i),
        ScalarOwned::FloatingPoint(x) => YamlValue::Float(x.0.to_string()),
        ScalarOwned::String(t) => YamlValue::String(t.clone()),
    }
}

/// A minimal, typed YAML value. Mappings keep their keys in document order.
#[derive(Debug, PartialEq)]
pub enum YamlValue {
    /// A plain scalar string, quoted on output only where needed.
    String(String),
    /// A string always written in `|` block-literal style.
    BlockLiteral(String),
    /// A core-schema integer.
    Int(i64),
    /// A core-schema floating-point scalar, as the decimal text it is written as.
    Float(String),
    /// A core-schema boolean.
    Bool(bool),
    /// `~`, `null` or an empty value.
    Null,
    /// A sequence, in order.
    Sequence(Vec<YamlValue>),
    /// `(key, value)` pairs in document (or caller) order.
    Mapping(Vec<(String, YamlValue)>),
}

/// Why a YAML text could not be read as one top-level mapping.
#[derive(Debug, PartialEq, Eq)]
pub enum YamlReadError {
    /// The text is not well-formed YAML; the parser's message.
    Scan(String),
    /// The text holds no single document whose root is a mapping.
    NotAMapping,
}

/// The mathematical model of a [`YamlValue`]: strings as character sequences.
pub enum YamlView {
    Str(Seq<char>),
    Block(Seq<char>),
    Int(i64),
    Float(Seq<char>),
    Bool(bool),
    Null,
    List(Seq<YamlView>),
    Dict(Seq<(Seq<char>, YamlView)>),
}

/// The model of a mapping: `(key, value)` pairs in order.
pub type DictView = Seq<(Seq<char>, YamlView)>;

pub open spec fn yview(v: YamlValue) -> YamlView
    decreases v,
{
    match v {
        YamlValue::String(s) => YamlView::Str(s@),
        YamlValue::BlockLiteral(s) => YamlView::Block(s@),
        YamlValue::Int(i) => YamlView::Int(i),
        YamlValue::Float(s) => YamlView::Float(s@),
        YamlValue::Bool(b) => YamlView::Bool(b),
        YamlValue::Null => YamlView::Null,
        YamlValue::Sequence(items) => YamlView::List(items_view(items@)),
        YamlValue::Mapping(fields) => YamlView::Dict(fields_view(fields@)),
    }
}

/// The models of a run of values.
pub open spec fn items_view(s: Seq<YamlValue>) -> Seq<YamlView>
    decreases s,
{
    if s.len() == 0 {
        Seq::empty()
    } else {
        items_view(s.drop_last()).push(yview(s.last()))
    }
}

/// The model of a run of mapping entries.
pub open spec fn fields_view(s: Seq<(String, YamlValue)>) -> DictView
    decreases s,
{
    if s.len() == 0 {
        Seq::empty()
    } else {
        fields_view(s.drop_last()).push((s.last().0@, yview(s.last().1)))
    }
}

/// An optional string as an optional character sequence.
pub open spec fn opt_view(o: Option<String>) -> Option<Seq<char>> {
    match o {
        Some(s) => Some(s@),
        None => None,
    }
}

impl View for YamlValue {
    type V = YamlView;

    open spec fn view(&self) -> YamlView {
        yview(*self)
    }
}

pub proof fn lemma_items_view(s: Seq<YamlValue>)
    ensures
        items_view(s).len() == s.len(),
        forall|i: int| 0 <= i < s.len() ==> #[trigger] items_view(s)[i] == yview(s[i]),
    decreases s.len(),
{
    if s.len() > 0 {
        lemma_items_view(s.drop_last());
    }
}

pub proof fn lemma_fields_view(s: Seq<(String, YamlValue)>)
    ensures
        fields_view(s).len() == s.len(),
        forall|i: int| 0 <= i < s.len() ==> #[trigger] fields_view(s)[i] == (s[i].0@, yview(s[i].1)),
    decreases s.len(),
{
    if s.len() > 0 {
        lemma_fields_view(s.drop_last());
    }
}

/// Position of the first entry keyed `k`, or the length when there is none.
pub open spec fn dict_index(d: DictView, k: Seq<char>) -> int
    decreases d.len(),
{
    if d.len() == 0 {
        0
    } else if d[0].0 == k {
        0
    } else {
        1 + dict_index(d.drop_first(), k)
    }
}

pub proof fn lemma_dict_index(d: DictView, k: Seq<char>)
    ensures
        0 <= dict_index(d, k) <= d.len(),
        dict_index(d, k) < d.len() ==> d[dict_index(d, k)].0 == k,
        forall|i: int| 0 <= i < dict_index(d, k) ==> #[trigger] d[i].0 != k,
    decreases d.len(),
{
    if d.len() > 0 && d[0].0 != k {
        lemma_dict_index(d.drop_first(), k);
        assert forall|i: int| 0 <= i < dict_index(d, k) implies #[trigger] d[i].0 != k by {
            if i > 0 {
                assert(d[i] == d.drop_first()[i - 1]);
            }
        }
    }
}

/// The value of the first entry keyed `k`.
pub open spec fn dict_get(d: DictView, k: Seq<char>) -> Option<YamlView> {
    let i = dict_index(d, k);
    if i < d.len() {
        Some(d[i].1)
    } else {
        None
    }
}

/// Whether some entry is keyed `k`.
pub open spec fn dict_has(d: DictView, k: Seq<char>) -> bool {
    dict_get(d, k) is Some
}

impl YamlValue {
    /// A copy of this value.
    pub fn copy(&self) -> (r: YamlValue)
        ensures
            r@ == self@,
        decreases self,
    {
        match self {
            YamlValue::String(s) => YamlValue::String(s.clone()),
            YamlValue::BlockLiteral(s) => YamlValue::BlockLiteral(s.clone()),
            YamlValue::Int(i) => YamlValue::Int(*i),
            YamlValue::Float(s) => YamlValue::Float(s.clone()),
            YamlValue::Bool(b) => YamlValue::Bool(*b),
            YamlValue::Null => YamlValue::Null,
            YamlValue::Sequence(items) => YamlValue::Sequence(copy_items(items)),
            YamlValue::Mapping(fields) => YamlValue::Mapping(copy_fields(fields)),
        }
    }
}

/// A copy of a run of values.
pub fn copy_items(items: &Vec<YamlValue>) -> (r: Vec<YamlValue>)
    ensures
        items_view(r@) == items_view(items@),
    decreases items@,
{
    let mut out: Vec<YamlValue> = Vec::new();
    let mut i: usize = 0;
    while i < items.len()
        invariant
            i <= items@.len(),
            items_view(out@) == items_view(items@.subrange(0, i as int)),
        decreases items.len() - i,
    {
        let c = items[i].copy();
        let ghost before = out@;
        out.push(c);
        assert(out@.drop_last() =~= before);
        assert(items@.subrange(0, i + 1).drop_last() =~= items@.subrange(0, i as int));
        i = i + 1;
    }
    assert(items@.subrange(0, i as int) =~= items@);
    out
}

/// A copy of a run of mapping entries.
pub fn copy_fields(fields: &Vec<(String, YamlValue)>) -> (r: Vec<(String, YamlValue)>)
    ensures
        fields_view(r@) == fields_view(fields@),
    decreases fields@,
{
    let mut out: Vec<(String, YamlValue)> = Vec::new();
    let mut i: usize = 0;
    while i < fields.len()
        invariant
            i <= fields@.len(),
            fields_view(out@) == fields_view(fields@.subrange(0, i as int)),
        decreases fields.len() - i,
    {
        let c = fields[i].1.copy();
        let ghost before = out@;
        out.push((fields[i].0.clone(), c));
        assert(out@.drop_last() =~= before);
        assert(fields@.subrange(0, i + 1).drop_last() =~= fields@.subrange(0, i as int));
        i = i + 1;
    }
    assert(fields@.subrange(0, i as int) =~= fields@);
    out
}

/// Where `k` goes in a key-ordered mapping: the first entry whose key is
/// not below `k`.
pub open spec fn put_pos(d: DictView, k: Seq<char>) -> int
    decreases d.len(),
{
    if d.len() == 0 {
        0
    } else if crate::strmap::seq_lt(d[0].0, k) {
        1 + put_pos(d.drop_first(), k)
    } else {
        0
    }
}

pub proof fn lemma_put_pos(d: DictView, k: Seq<char>)
    ensures
        0 <= put_pos(d, k) <= d.len(),
    decreases d.len(),
{
    if d.len() > 0 && crate::strmap::seq_lt(d[0].0, k) {
        lemma_put_pos(d.drop_first(), k);
    }
}

/// A key-ordered mapping with `k` set to `v`: replaced in place when `k`
/// is there, inserted at its place in key order otherwise.
pub open spec fn dict_put(d: DictView, k: Seq<char>, v: YamlView) -> DictView {
    let i = put_pos(d, k);
    if i < d.len() && d[i].0 == k {
        d.update(i, (k, v))
    } else {
        d.insert(i, (k, v))
    }
}

/// Sets `key` to `value` in a key-ordered mapping.
pub fn put_entry(d: &mut Vec<(String, YamlValue)>, key: String, value: YamlValue)
    ensures
        fields_view(final(d)@) == dict_put(fields_view(old(d)@), key@, value@),
{
    let ghost dv = fields_view(d@);
    proof {
        lemma_fields_view(d@);
        lemma_put_pos(dv, key@);
        assert(dv.subrange(0, dv.len() as int) =~= dv);
    }
    let mut i: usize = 0;
    while i < d.len() && crate::strmap::str_lt(&d[i].0, &key)
        invariant
            i <= d@.len(),
            dv == fields_view(d@),
            dv.len() == d@.len(),
            forall|m: int| 0 <= m < d@.len() ==> #[trigger] dv[m] == (d@[m].0@, d@[m].1@),
            put_pos(dv, key@) == i + put_pos(dv.subrange(i as int, dv.len() as int), key@),
        decreases d.len() - i,
    {
        let ghost rest = dv.subrange(i as int, dv.len() as int);
        assert(rest[0] == dv[i as int]);
        assert(rest.drop_first() =~= dv.subrange(i + 1, dv.len() as int));
        i = i + 1;
    }
    proof {
        let rest = dv.subrange(i as int, dv.len() as int);
        if i < dv.len() {
            assert(rest[0] == dv[i as int]);
        } else {
            assert(rest.len() == 0);
        }
        assert(put_pos(dv, key@) == i);
    }
    let ghost kv = (key@, value@);
    if i < d.len() && crate::text::str_eq(d[i].0.as_str(), key.as_str()) {
        let _old = d.remove(i);
        d.insert(i, (key, value));
        proof { lemma_fields_view(d@); }
        assert(fields_view(d@) =~= dv.update(i as int, kv));
    } else {
        d.insert(i, (key, value));
        proof { lemma_fields_view(d@); }
        assert(fields_view(d@) =~= dv.insert(i as int, kv));
    }
}

} // verus!
