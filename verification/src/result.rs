//! Result types for parse operations.
//!
//! Provides the `ParseResult` struct that holds parsed values,
//! supporting both positional (indexed) and named field access.

use crate::text::{lemma_first_satisfying, str_equal};
use vstd::prelude::*;

verus! {

/// A small map from field names to values that keeps its entries in the
/// order they were first inserted.
#[derive(Debug)]
pub struct FieldMap<V> {
    pub entries: Vec<(String, V)>,
}

/// Index of the first entry whose key is `k`, if any.
pub open spec fn key_index<V>(entries: Seq<(Seq<char>, V)>, k: Seq<char>) -> Option<int> {
    if exists|i: int| 0 <= i < entries.len() && (#[trigger] entries[i]).0 == k {
        Some(
            choose|i: int|
                0 <= i < entries.len() && (#[trigger] entries[i]).0 == k && forall|j: int|
                    0 <= j < i ==> (#[trigger] entries[j]).0 != k,
        )
    } else {
        None
    }
}

/// The value stored under `k`, if any.
pub open spec fn lookup<V>(entries: Seq<(Seq<char>, V)>, k: Seq<char>) -> Option<V> {
    match key_index(entries, k) {
        Some(i) => Some(entries[i].1),
        None => None,
    }
}

/// The entries after storing `v` under `k`: the first entry with that key is
/// overwritten, or a new entry is appended.
pub open spec fn store<V>(entries: Seq<(Seq<char>, V)>, k: Seq<char>, v: V) -> Seq<(Seq<char>, V)> {
    match key_index(entries, k) {
        Some(i) => entries.update(i, (k, v)),
        None => entries.push((k, v)),
    }
}

pub proof fn lemma_key_index_first<V>(entries: Seq<(Seq<char>, V)>, k: Seq<char>, i: int)
    requires
        0 <= i < entries.len(),
        entries[i].0 == k,
        forall|j: int| 0 <= j < i ==> (#[trigger] entries[j]).0 != k,
    ensures
        key_index(entries, k) == Some(i),
{
    let c = choose|c: int|
        0 <= c < entries.len() && (#[trigger] entries[c]).0 == k && forall|j: int|
            0 <= j < c ==> (#[trigger] entries[j]).0 != k;
    assert(0 <= i < entries.len() && (#[trigger] entries[i]).0 == k && forall|j: int|
        0 <= j < i ==> (#[trigger] entries[j]).0 != k);
    if c < i {
        assert(entries[c].0 != k);
    } else if c > i {
        assert(entries[i].0 != k);
    }
}

pub proof fn lemma_key_index_props<V>(entries: Seq<(Seq<char>, V)>, k: Seq<char>)
    ensures
        match key_index(entries, k) {
            Some(i) => 0 <= i < entries.len() && entries[i].0 == k && forall|j: int|
                0 <= j < i ==> (#[trigger] entries[j]).0 != k,
            None => forall|j: int| 0 <= j < entries.len() ==> (#[trigger] entries[j]).0 != k,
        },
{
    if exists|i: int| 0 <= i < entries.len() && (#[trigger] entries[i]).0 == k {
        let w = choose|i: int| 0 <= i < entries.len() && (#[trigger] entries[i]).0 == k;
        let p = |e: (Seq<char>, V)| e.0 == k;
        lemma_first_satisfying(entries, p, w);
        let i = choose|i: int|
            0 <= i < entries.len() && p(#[trigger] entries[i]) && forall|j: int| 0 <= j < i ==> !p(#[trigger] entries[j]);
        assert(0 <= i < entries.len() && (#[trigger] entries[i]).0 == k && forall|j: int|
            0 <= j < i ==> (#[trigger] entries[j]).0 != k) by {
            assert(forall|j: int| 0 <= j < i ==> !p(#[trigger] entries[j]));
        }
    }
}

/// The entries of a map of strings to strings, as character sequences.
pub open spec fn str_pairs(m: FieldMap<String>) -> Seq<(Seq<char>, Seq<char>)> {
    m.entries@.map_values(|e: (String, String)| (e.0@, e.1@))
}

/// Entries of strings, values taken as character sequences.
pub open spec fn str_values(p: Seq<(Seq<char>, String)>) -> Seq<(Seq<char>, Seq<char>)> {
    p.map_values(|e: (Seq<char>, String)| (e.0, e.1@))
}

pub proof fn lemma_key_index_same_keys<A, B>(a: Seq<(Seq<char>, A)>, b: Seq<(Seq<char>, B)>, k: Seq<char>)
    requires
        a.len() == b.len(),
        forall|j: int| 0 <= j < a.len() ==> (#[trigger] a[j]).0 == b[j].0,
    ensures
        key_index(a, k) == key_index(b, k),
{
    lemma_key_index_props(a, k);
    lemma_key_index_props(b, k);
    match key_index(a, k) {
        Some(i) => {
            assert forall|j: int| 0 <= j < i implies (#[trigger] b[j]).0 != k by {
                assert(a[j].0 == b[j].0);
            }
            lemma_key_index_first(b, k, i);
        },
        None => {
            assert forall|j: int| 0 <= j < b.len() implies (#[trigger] b[j]).0 != k by {
                assert(a[j].0 == b[j].0);
            }
        },
    }
}

pub proof fn lemma_str_pairs(m: FieldMap<String>)
    ensures
        str_pairs(m) == str_values(m.pairs()),
{
    assert(str_pairs(m) =~= str_values(m.pairs()));
}

pub proof fn lemma_str_values_keys(p: Seq<(Seq<char>, String)>, k: Seq<char>)
    ensures
        key_index(str_values(p), k) == key_index(p, k),
{
    let q = str_values(p);
    assert forall|j: int| 0 <= j < p.len() implies (#[trigger] p[j]).0 == q[j].0 by {}
    lemma_key_index_same_keys(p, q, k);
}

pub proof fn lemma_store_str_values(p: Seq<(Seq<char>, String)>, k: Seq<char>, v: String)
    ensures
        str_values(store(p, k, v)) == store(str_values(p), k, v@),
        key_index(str_values(p), k) == key_index(p, k),
{
    lemma_str_values_keys(p, k);
    match key_index(p, k) {
        Some(i) => {
            lemma_key_index_props(p, k);
            assert(str_values(p.update(i, (k, v))) =~= str_values(p).update(i, (k, v@)));
        },
        None => {
            assert(str_values(p.push((k, v))) =~= str_values(p).push((k, v@)));
        },
    }
}

/// Stores `value` under `key` in a map of strings.
pub fn insert_str(m: &mut FieldMap<String>, key: String, value: String)
    ensures
        str_pairs(*final(m)) == store(str_pairs(*old(m)), key@, value@),
{
    let ghost kv = key@;
    let ghost vv = value;
    m.insert(key, value);
    proof {
        lemma_str_pairs(*old(m));
        lemma_str_pairs(*m);
        lemma_store_str_values(old(m).pairs(), kv, vv);
    }
}

/// The value stored under `key` in a map of strings.
pub fn get_str<'a>(m: &'a FieldMap<String>, key: &str) -> (r: Option<&'a String>)
    ensures
        match r {
            Some(v) => lookup(str_pairs(*m), key@) == Some(v@),
            None => lookup(str_pairs(*m), key@) is None,
        },
{
    let r = m.get(key);
    proof {
        lemma_str_pairs(*m);
        let p = m.pairs();
        lemma_str_values_keys(p, key@);
        lemma_key_index_props(p, key@);
    }
    r
}

impl<V> FieldMap<V> {
    /// The entries, keys taken as character sequences.
    pub open spec fn pairs(&self) -> Seq<(Seq<char>, V)> {
        self.entries@.map_values(|e: (String, V)| (e.0@, e.1))
    }

    pub fn new() -> (m: FieldMap<V>)
        ensures
            m.entries@ == Seq::<(String, V)>::empty(),
    {
        FieldMap { entries: Vec::new() }
    }

    /// Position of the entry stored under `key`.
    pub fn position(&self, key: &str) -> (r: Option<usize>)
        ensures
            match r {
                Some(i) => i < self.entries@.len() && key_index(self.pairs(), key@) == Some(
                    i as int,
                ),
                None => key_index(self.pairs(), key@) is None,
            },
    {
        let mut i: usize = 0;
        while i < self.entries.len()
            invariant
                i <= self.entries@.len(),
                forall|j: int| 0 <= j < i ==> (#[trigger] self.pairs()[j]).0 != key@,
            decreases self.entries.len() - i,
        {
            if str_equal(self.entries[i].0.as_str(), key) {
                proof {
                    lemma_key_index_first(self.pairs(), key@, i as int);
                }
                return Some(i);
            }
            i = i + 1;
        }
        None
    }

    /// The value stored under `key`.
    pub fn get(&self, key: &str) -> (r: Option<&V>)
        ensures
            match r {
                Some(v) => lookup(self.pairs(), key@) == Some(*v),
                None => lookup(self.pairs(), key@) is None,
            },
    {
        match self.position(key) {
            Some(i) => Some(&self.entries[i].1),
            None => None,
        }
    }

    /// Whether a value is stored under `key`.
    pub fn contains_key(&self, key: &str) -> (r: bool)
        ensures
            r == (lookup(self.pairs(), key@) is Some),
    {
        self.position(key).is_some()
    }

    /// Stores `value` under `key`, replacing an earlier value.
    pub fn insert(&mut self, key: String, value: V)
        ensures
            final(self).pairs() == store(old(self).pairs(), key@, value),
    {
        let ghost kv = key@;
        match self.position(key.as_str()) {
            Some(i) => {
                proof {
                    lemma_key_index_props(self.pairs(), kv);
                }
                let (name, _) = self.entries.remove(i);
                let ghost nm = name;
                self.entries.insert(i, (name, value));
                proof {
                    assert(self.entries@ =~= old(self).entries@.update(i as int, (nm, value)));
                    assert(self.pairs() =~= old(self).pairs().update(i as int, (kv, value)));
                }
            },
            None => {
                self.entries.push((key, value));
                proof {
                    assert(self.pairs() =~= old(self).pairs().push((kv, value)));
                }
            },
        }
    }

    pub fn len(&self) -> (n: usize)
        ensures
            n == self.entries@.len(),
    {
        self.entries.len()
    }

    pub fn is_empty(&self) -> (b: bool)
        ensures
            b == (self.entries@.len() == 0),
    {
        self.entries.len() == 0
    }
}

/// A parsed value that can be one of several types.
///
/// Numbers written with a fraction (the `f`, `e`, `g` and `%` types) are
/// kept as the text that matched; turning that text into a binary float is
/// left to the caller.
#[derive(Debug)]
pub enum ParseValue {
    /// A string value (default, or from :s, :l, :w, :W, :S, :D specifiers).
    Str(String),
    /// An integer value (from :d, :b, :o, :x, :n specifiers).
    Int(i64),
    /// A floating-point value (from :f, :e, :g specifiers), as matched text.
    Float(String),
    /// A decimal value (from :F specifier), preserved as text.
    Decimal(String),
    /// A datetime string value with its original format specifier.
    DateTime { raw: String, format: String },
    /// A percentage value (from :% specifier): the number in front of the
    /// percent signs, as text.
    Percent(String),
    /// A nested mapping value used for bracket-style fields like `foo[bar]`.
    Dict(FieldMap<ParseValue>),
}

/// The mathematical counterpart of `ParseValue`.
pub enum ValueView {
    Str(Seq<char>),
    Int(i64),
    Float(Seq<char>),
    Decimal(Seq<char>),
    DateTime(Seq<char>, Seq<char>),
    Percent(Seq<char>),
    Dict(Seq<(Seq<char>, ValueView)>),
}

pub open spec fn value_view(v: ParseValue) -> ValueView
    decreases v,
{
    match v {
        ParseValue::Str(s) => ValueView::Str(s@),
        ParseValue::Int(i) => ValueView::Int(i),
        ParseValue::Float(s) => ValueView::Float(s@),
        ParseValue::Decimal(s) => ValueView::Decimal(s@),
        ParseValue::DateTime { raw, format } => ValueView::DateTime(raw@, format@),
        ParseValue::Percent(s) => ValueView::Percent(s@),
        ParseValue::Dict(m) => ValueView::Dict(entries_view(m.entries@)),
    }
}

pub open spec fn entries_view(s: Seq<(String, ParseValue)>) -> Seq<(Seq<char>, ValueView)>
    decreases s,
{
    if s.len() == 0 {
        Seq::empty()
    } else {
        entries_view(s.drop_last()).push((s.last().0@, value_view(s.last().1)))
    }
}

impl PartialEq for ParseValue {
    /// Values are equal when `values_equal` says so.
    fn eq(&self, other: &Self) -> (r: bool) {
        crate::parser::parse_values_equal(self, other)
    }
}

impl vstd::std_specs::cmp::PartialEqSpecImpl for ParseValue {
    open spec fn obeys_eq_spec() -> bool {
        true
    }

    open spec fn eq_spec(&self, other: &Self) -> bool {
        crate::parser::values_equal(self@, other@)
    }
}

impl View for ParseValue {
    type V = ValueView;

    open spec fn view(&self) -> ValueView {
        value_view(*self)
    }
}

/// Represents the result of a successful parse operation.
///
/// Contains both positional (fixed) and named captured values,
/// along with span information indicating where each field was
/// matched in the original string.
#[derive(Debug)]
pub struct ParseResult {
    /// Positional captured values, in order of appearance.
    pub fixed: Vec<ParseValue>,
    /// Named captured values, keyed by field name.
    pub named: FieldMap<ParseValue>,
    /// Span (start, end) positions for positional captures.
    pub fixed_spans: Vec<(usize, usize)>,
    /// Span (start, end) positions for named captures keyed by original field name.
    pub named_spans: FieldMap<(usize, usize)>,
}

/// The mathematical counterpart of `ParseResult`.
pub struct ResultView {
    pub fixed: Seq<ValueView>,
    pub named: Seq<(Seq<char>, ValueView)>,
    pub fixed_spans: Seq<(usize, usize)>,
    pub named_spans: Seq<(Seq<char>, (usize, usize))>,
}

impl View for ParseResult {
    type V = ResultView;

    open spec fn view(&self) -> ResultView {
        ResultView {
            fixed: self.fixed@.map_values(|v: ParseValue| v@),
            named: entries_view(self.named.entries@),
            fixed_spans: self.fixed_spans@,
            named_spans: self.named_spans.pairs(),
        }
    }
}

impl ParseResult {
    /// Create a new empty ParseResult.
    pub fn new() -> (r: ParseResult)
        ensures
            r.fixed@.len() == 0,
            r.named.entries@.len() == 0,
            r.fixed_spans@.len() == 0,
            r.named_spans.entries@.len() == 0,
    {
        ParseResult {
            fixed: Vec::new(),
            named: FieldMap::new(),
            fixed_spans: Vec::new(),
            named_spans: FieldMap::new(),
        }
    }

    /// Get a fixed (positional) field by index.
    pub fn get_fixed(&self, index: usize) -> (r: Option<&ParseValue>)
        ensures
            match r {
                Some(v) => index < self.fixed@.len() && *v == self.fixed@[index as int],
                None => index >= self.fixed@.len(),
            },
    {
        if index < self.fixed.len() {
            Some(&self.fixed[index])
        } else {
            None
        }
    }

    /// Get a named field by name.
    pub fn get_named(&self, name: &str) -> (r: Option<&ParseValue>)
        ensures
            match r {
                Some(v) => lookup(self.named.pairs(), name@) == Some(*v),
                None => lookup(self.named.pairs(), name@) is None,
            },
    {
        self.named.get(name)
    }

    pub fn get_fixed_span(&self, index: usize) -> (r: Option<(usize, usize)>)
        ensures
            match r {
                Some(sp) => index < self.fixed_spans@.len() && sp == self.fixed_spans@[index as int],
                None => index >= self.fixed_spans@.len(),
            },
    {
        if index < self.fixed_spans.len() {
            Some(self.fixed_spans[index])
        } else {
            None
        }
    }

    pub fn get_named_span(&self, key: &str) -> (r: Option<(usize, usize)>)
        ensures
            r == lookup(self.named_spans.pairs(), key@),
    {
        match self.named_spans.get(key) {
            Some(sp) => Some(*sp),
            None => None,
        }
    }
}

/// The entries of a map of values, values taken by their views.
pub open spec fn value_pairs(m: FieldMap<ParseValue>) -> Seq<(Seq<char>, ValueView)> {
    deep_values(m.pairs())
}

pub open spec fn deep_values(p: Seq<(Seq<char>, ParseValue)>) -> Seq<(Seq<char>, ValueView)> {
    p.map_values(|e: (Seq<char>, ParseValue)| (e.0, e.1@))
}

pub proof fn lemma_entries_view(s: Seq<(String, ParseValue)>)
    ensures
        entries_view(s) == s.map_values(|e: (String, ParseValue)| (e.0@, e.1@)),
    decreases s.len(),
{
    if s.len() > 0 {
        lemma_entries_view(s.drop_last());
        assert(s.map_values(|e: (String, ParseValue)| (e.0@, e.1@)) =~= s.drop_last().map_values(
            |e: (String, ParseValue)| (e.0@, e.1@),
        ).push((s.last().0@, s.last().1@)));
    } else {
        assert(s.map_values(|e: (String, ParseValue)| (e.0@, e.1@)) =~= Seq::<
            (Seq<char>, ValueView),
        >::empty());
    }
}

pub proof fn lemma_value_pairs(m: FieldMap<ParseValue>)
    ensures
        entries_view(m.entries@) == value_pairs(m),
{
    lemma_entries_view(m.entries@);
    assert(entries_view(m.entries@) =~= value_pairs(m));
}

pub proof fn lemma_deep_values_keys(p: Seq<(Seq<char>, ParseValue)>, k: Seq<char>)
    ensures
        key_index(deep_values(p), k) == key_index(p, k),
{
    let q = deep_values(p);
    assert forall|j: int| 0 <= j < p.len() implies (#[trigger] p[j]).0 == q[j].0 by {}
    lemma_key_index_same_keys(p, q, k);
}

pub proof fn lemma_store_deep_values(p: Seq<(Seq<char>, ParseValue)>, k: Seq<char>, v: ParseValue)
    ensures
        deep_values(store(p, k, v)) == store(deep_values(p), k, v@),
{
    lemma_deep_values_keys(p, k);
    match key_index(p, k) {
        Some(i) => {
            lemma_key_index_props(p, k);
            assert(deep_values(p.update(i, (k, v))) =~= deep_values(p).update(i, (k, v@)));
        },
        None => {
            assert(deep_values(p.push((k, v))) =~= deep_values(p).push((k, v@)));
        },
    }
}

/// Stores a value in a map of values.
pub fn insert_value(m: &mut FieldMap<ParseValue>, key: String, value: ParseValue)
    ensures
        value_pairs(*final(m)) == store(value_pairs(*old(m)), key@, value@),
{
    let ghost kv = key@;
    let ghost vv = value;
    m.insert(key, value);
    proof {
        lemma_store_deep_values(old(m).pairs(), kv, vv);
    }
}

/// The value stored under `key` in a map of values.
pub fn get_value<'a>(m: &'a FieldMap<ParseValue>, key: &str) -> (r: Option<&'a ParseValue>)
    ensures
        match r {
            Some(v) => lookup(value_pairs(*m), key@) == Some(v@),
            None => lookup(value_pairs(*m), key@) is None,
        },
{
    let r = m.get(key);
    proof {
        let p = m.pairs();
        lemma_deep_values_keys(p, key@);
        lemma_key_index_props(p, key@);
    }
    r
}

} // verus!
