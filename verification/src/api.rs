//! The decisions behind the Python-facing functions: which exception a
//! compile error becomes, where the value of a bracketed field name is
//! found, which fields get a user-defined converter and what text each
//! converter receives, and the entries that describe a format
//! specification.

use crate::compiler::{FieldInfo, FieldView, FormatSpec, FormatSpecView, field_views};
use crate::nested::{insert_named, nested_insert, parse_subkeys, string_seq_views, subkeys};
use crate::result::{
    FieldMap, ParseResult, ParseValue, ValueView, get_value, key_index, lemma_key_index_first,
    lemma_key_index_props, lemma_key_index_same_keys, lookup, store, value_pairs,
};
use crate::text::{chars_of, find_char, first_index, lemma_first_index, string_of, string_of_range};
use crate::types::{trim_range, trimmed};
use vstd::prelude::*;
use vstd::string::StrSliceExecFns;

verus! {

/// The kind of exception a compile error is raised as.
#[derive(Debug, Clone, Copy, PartialEq, Eq, Structural)]
pub enum ErrorKind {
    RepeatedName,
    NotImplemented,
    Value,
}

/// `str::trim_start_matches`: `s` without every leading copy of `p`.
pub open spec fn without_prefixes(s: Seq<char>, p: Seq<char>) -> Seq<char>
    decreases s.len(),
{
    if p.len() > 0 && p.is_prefix_of(s) {
        without_prefixes(s.skip(p.len() as int), p)
    } else {
        s
    }
}

/// How a compile error is raised: errors tagged `RepeatedNameError:` or
/// `NotImplementedError:` as those exceptions, with the tag removed and
/// the rest trimmed; the others as `ValueError`, unchanged.
pub open spec fn error_class(err: Seq<char>) -> (ErrorKind, Seq<char>) {
    if "RepeatedNameError:"@.is_prefix_of(err) {
        (ErrorKind::RepeatedName, trimmed(without_prefixes(err, "RepeatedNameError:"@)))
    } else if "NotImplementedError:"@.is_prefix_of(err) {
        (ErrorKind::NotImplemented, trimmed(without_prefixes(err, "NotImplementedError:"@)))
    } else {
        (ErrorKind::Value, err)
    }
}

/// Whether `p` occurs in `cs` at position `pos`.
fn occurs_at(cs: &Vec<char>, pos: usize, p: &Vec<char>) -> (r: bool)
    requires
        pos <= cs@.len(),
    ensures
        r == p@.is_prefix_of(cs@.skip(pos as int)),
{
    let n = cs.len();
    if p.len() > n - pos {
        return false;
    }
    let mut i: usize = 0;
    while i < p.len()
        invariant
            i <= p@.len(),
            n == cs@.len(),
            pos + p@.len() <= n,
            forall|j: int| 0 <= j < i ==> p@[j] == cs@[pos + j],
        decreases p.len() - i,
    {
        if p[i] != cs[pos + i] {
            proof {
                assert(cs@.skip(pos as int)[i as int] == cs@[pos + i]);
            }
            return false;
        }
        i = i + 1;
    }
    proof {
        assert forall|j: int| 0 <= j < p@.len() implies p@[j] == cs@.skip(pos as int)[j] by {}
    }
    true
}

/// `s` without every leading copy of `p` (see `without_prefixes`).
fn strip_prefixes(cs: &Vec<char>, p: &Vec<char>) -> (r: usize)
    ensures
        r <= cs@.len(),
        cs@.skip(r as int) == without_prefixes(cs@, p@),
{
    let mut pos: usize = 0;
    let n = cs.len();
    proof {
        assert(cs@.skip(0) =~= cs@);
    }
    if p.len() == 0 {
        return 0;
    }
    while occurs_at(cs, pos, p)
        invariant
            pos <= n,
            n == cs@.len(),
            p@.len() > 0,
            without_prefixes(cs@.skip(pos as int), p@) == without_prefixes(cs@, p@),
        decreases cs@.len() - pos,
    {
        proof {
            assert(cs@.skip(pos as int).skip(p@.len() as int) =~= cs@.skip(pos + p@.len()));
        }
        pos = pos + p.len();
    }
    pos
}

/// Tells how a compile error is raised (see `error_class`).
pub fn classify_error(err: &str) -> (r: (ErrorKind, String))
    ensures
        (r.0, r.1@) == error_class(err@),
{
    let cs = chars_of(err);
    let repeated = chars_of("RepeatedNameError:");
    let unimplemented = chars_of("NotImplementedError:");
    let (kind, tag) = if occurs_at(&cs, 0, &repeated) {
        (ErrorKind::RepeatedName, repeated)
    } else if occurs_at(&cs, 0, &unimplemented) {
        (ErrorKind::NotImplemented, unimplemented)
    } else {
        proof {
            assert(cs@.skip(0) =~= cs@);
        }
        return (ErrorKind::Value, string_of(err));
    };
    proof {
        assert(cs@.skip(0) =~= cs@);
    }
    let start = strip_prefixes(&cs, &tag);
    let rest = string_of_range(&cs, start, cs.len());
    let rest_chars = chars_of(rest.as_str());
    let (a, b) = trim_range(&rest_chars);
    proof {
        assert(rest@ =~= cs@.skip(start as int));
    }
    (kind, string_of_range(&rest_chars, a, b))
}


/// Where the value of the field named `field` is stored: under its whole
/// name, or, for a name such as `a[b][c]`, under `a` and then the keys
/// `b` and `c` of nested dictionaries; `None` when a `[` is never closed.
pub open spec fn field_path(field: Seq<char>) -> Option<(Seq<char>, Seq<Seq<char>>)> {
    match first_index(field, '[') {
        None => Some((field, Seq::empty())),
        Some(b) => match subkeys(field.skip(b)) {
            Some(keys) => Some((field.take(b), keys)),
            None => None,
        },
    }
}

/// The value reached from `v` through the keys of nested dictionaries.
pub open spec fn value_at_keys(v: ValueView, keys: Seq<Seq<char>>) -> Option<ValueView>
    decreases keys.len(),
{
    if keys.len() == 0 {
        Some(v)
    } else {
        match v {
            ValueView::Dict(m) => match lookup(m, keys[0]) {
                Some(c) => value_at_keys(c, keys.skip(1)),
                None => None,
            },
            _ => None,
        }
    }
}

/// The named value of the field called `field`, following its path.
pub open spec fn named_value(named: Seq<(Seq<char>, ValueView)>, field: Seq<char>) -> Option<ValueView> {
    match field_path(field) {
        None => None,
        Some((base, keys)) => match lookup(named, base) {
            Some(v) => value_at_keys(v, keys),
            None => None,
        },
    }
}

/// Splits a field name into its base name and the keys that follow it
/// (see `field_path`).
pub fn split_field_path(field: &str) -> (r: Option<(String, Vec<String>)>)
    ensures
        match r {
            Some((base, keys)) => field_path(field@) == Some((base@, string_seq_views(keys@))),
            None => field_path(field@) is None,
        },
{
    let cs = chars_of(field);
    match find_char(&cs, '[') {
        None => {
            let keys: Vec<String> = Vec::new();
            proof {
                assert(string_seq_views(keys@) =~= Seq::<Seq<char>>::empty());
            }
            Some((string_of(field), keys))
        },
        Some(b) => {
            proof {
                lemma_first_index(cs@, '[');
            }
            match parse_subkeys(&cs, b) {
                Some(keys) => {
                    let base = string_of_range(&cs, 0, b);
                    proof {
                        assert(base@ =~= field@.take(b as int));
                    }
                    Some((base, keys))
                },
                None => None,
            }
        },
    }
}

/// The value reached from `v` through the keys `keys[k..]`.
fn follow_keys<'a>(v: &'a ParseValue, keys: &Vec<String>, k: usize) -> (r: Option<&'a ParseValue>)
    requires
        k <= keys@.len(),
    ensures
        match r {
            Some(x) => value_at_keys(v@, string_seq_views(keys@).skip(k as int)) == Some(x@),
            None => value_at_keys(v@, string_seq_views(keys@).skip(k as int)) is None,
        },
    decreases keys@.len() - k,
{
    let ghost ks = string_seq_views(keys@).skip(k as int);
    if k == keys.len() {
        return Some(v);
    }
    proof {
        assert(ks[0] == keys@[k as int]@);
        assert(ks.skip(1) =~= string_seq_views(keys@).skip(k + 1));
    }
    match v {
        ParseValue::Dict(m) => {
            proof {
                crate::result::lemma_value_pairs(*m);
                assert(v@ == ValueView::Dict(value_pairs(*m)));
            }
            match get_value(m, keys[k].as_str()) {
                Some(c) => {
                    let r = follow_keys(c, keys, k + 1);
                    proof {
                        lemma_value_at_keys_dict(value_pairs(*m), ks, c@);
                    }
                    r
                },
                None => {
                    proof {
                        lemma_value_at_keys_dict_missing(value_pairs(*m), ks);
                    }
                    None
                },
            }
        },
        _ => {
            proof {
                lemma_value_at_keys_other(v@, ks);
            }
            None
        },
    }
}

proof fn lemma_value_at_keys_dict(m: Seq<(Seq<char>, ValueView)>, ks: Seq<Seq<char>>, c: ValueView)
    requires
        ks.len() > 0,
        lookup(m, ks[0]) == Some(c),
    ensures
        value_at_keys(ValueView::Dict(m), ks) == value_at_keys(c, ks.skip(1)),
{
}

proof fn lemma_value_at_keys_dict_missing(m: Seq<(Seq<char>, ValueView)>, ks: Seq<Seq<char>>)
    requires
        ks.len() > 0,
        lookup(m, ks[0]) is None,
    ensures
        value_at_keys(ValueView::Dict(m), ks) is None,
{
}

proof fn lemma_value_at_keys_other(v: ValueView, ks: Seq<Seq<char>>)
    requires
        ks.len() > 0,
        !(v is Dict),
    ensures
        value_at_keys(v, ks) is None,
{
}

/// The named value of the field called `field`, following its path (see
/// `named_value`).
pub fn named_value_at<'a>(named: &'a FieldMap<ParseValue>, field: &str) -> (r: Option<&'a ParseValue>)
    ensures
        match r {
            Some(x) => named_value(value_pairs(*named), field@) == Some(x@),
            None => named_value(value_pairs(*named), field@) is None,
        },
{
    match split_field_path(field) {
        None => None,
        Some((base, keys)) => match get_value(named, base.as_str()) {
            Some(v) => {
                proof {
                    assert(string_seq_views(keys@).skip(0) =~= string_seq_views(keys@));
                }
                follow_keys(v, &keys, 0)
            },
            None => None,
        },
    }
}

/// A field whose value is handed to a user-defined converter.
#[derive(Debug)]
pub struct ConverterSlot {
    /// The field's name.
    pub field_name: String,
    /// The position of a positional field.
    pub fixed_index: Option<usize>,
    /// The user-defined type the field was written with.
    pub type_label: String,
}

pub struct SlotView {
    pub field_name: Seq<char>,
    pub fixed_index: Option<usize>,
    pub type_label: Seq<char>,
}

impl View for ConverterSlot {
    type V = SlotView;

    open spec fn view(&self) -> SlotView {
        SlotView { field_name: self.field_name@, fixed_index: self.fixed_index, type_label: self.type_label@ }
    }
}

pub open spec fn slot_views(s: Seq<ConverterSlot>) -> Seq<SlotView> {
    s.map_values(|x: ConverterSlot| x@)
}

/// The fields of `fields[..k]` written with a user-defined type, except
/// the repetitions of a named field, in order.
pub open spec fn converter_slots(fields: Seq<FieldView>, k: int) -> Seq<SlotView>
    decreases k,
{
    if k <= 0 {
        Seq::empty()
    } else {
        let prev = converter_slots(fields, k - 1);
        let f = fields[k - 1];
        match f.custom_type {
            Some(t) => if f.repeated_of is None {
                prev.push(SlotView { field_name: f.name, fixed_index: f.index, type_label: t })
            } else {
                prev
            },
            None => prev,
        }
    }
}

/// The fields written with a user-defined type whose values go to a
/// converter (see `converter_slots`).
pub fn converter_fields(fields: &[FieldInfo]) -> (r: Vec<ConverterSlot>)
    ensures
        slot_views(r@) == converter_slots(field_views(fields@), fields@.len() as int),
{
    let ghost fv = field_views(fields@);
    let mut slots: Vec<ConverterSlot> = Vec::new();
    let mut i: usize = 0;
    proof {
        assert(slot_views(slots@) =~= Seq::<SlotView>::empty());
    }
    while i < fields.len()
        invariant
            i <= fields@.len(),
            fv == field_views(fields@),
            slot_views(slots@) == converter_slots(fv, i as int),
        decreases fields.len() - i,
    {
        let f = &fields[i];
        proof {
            assert(fv[i as int] == f@);
        }
        let ghost before = slots@;
        match &f.custom_type {
            Some(t) => {
                if f.repeated_of.is_none() {
                    slots.push(
                        ConverterSlot { field_name: f.name.clone(), fixed_index: f.index, type_label: t.clone() },
                    );
                    proof {
                        assert(slot_views(slots@) =~= slot_views(before).push(
                            SlotView { field_name: f.name@, fixed_index: f.index, type_label: t@ },
                        ));
                    }
                }
            },
            None => {},
        }
        i = i + 1;
    }
    slots
}

/// What a converter is given for a field.
#[derive(Debug)]
pub enum ConverterInput {
    /// The text the field captured.
    Text(String),
    /// The field's value is not text: the converter is not called.
    Skip,
    /// There is no positional value at this index.
    MissingIndex(usize),
    /// There is no named value for this field.
    MissingField,
}

pub enum InputView {
    Text(Seq<char>),
    Skip,
    MissingIndex(usize),
    MissingField,
}

/// What the converter of the field named `field_name` (at position
/// `fixed_index` when positional) is given from a result.
pub open spec fn converter_input_of(
    fixed: Seq<ValueView>,
    named: Seq<(Seq<char>, ValueView)>,
    field_name: Seq<char>,
    fixed_index: Option<usize>,
) -> InputView {
    let found = match fixed_index {
        Some(i) => if i < fixed.len() {
            Some(fixed[i as int])
        } else {
            None
        },
        None => named_value(named, field_name),
    };
    match found {
        Some(ValueView::Str(t)) => InputView::Text(t),
        Some(_) => InputView::Skip,
        None => match fixed_index {
            Some(i) => InputView::MissingIndex(i),
            None => InputView::MissingField,
        },
    }
}

impl View for ConverterInput {
    type V = InputView;

    open spec fn view(&self) -> InputView {
        match self {
            ConverterInput::Text(t) => InputView::Text(t@),
            ConverterInput::Skip => InputView::Skip,
            ConverterInput::MissingIndex(i) => InputView::MissingIndex(*i),
            ConverterInput::MissingField => InputView::MissingField,
        }
    }
}

/// What the converter of a field is given from `result` (see
/// `converter_input_of`).
pub fn converter_input(result: &ParseResult, field_name: &str, fixed_index: Option<usize>) -> (r:
    ConverterInput)
    ensures
        r@ == converter_input_of(result@.fixed, result@.named, field_name@, fixed_index),
{
    proof {
        crate::result::lemma_value_pairs(result.named);
    }
    let found = match fixed_index {
        Some(i) => if i < result.fixed.len() {
            Some(&result.fixed[i])
        } else {
            None
        },
        None => named_value_at(&result.named, field_name),
    };
    match found {
        Some(ParseValue::Str(t)) => ConverterInput::Text(t.clone()),
        Some(_) => ConverterInput::Skip,
        None => match fixed_index {
            Some(i) => ConverterInput::MissingIndex(i),
            None => ConverterInput::MissingField,
        },
    }
}


/// The decimal digit `d`.
pub open spec fn digit_char(d: nat) -> char {
    if d == 0 {
        '0'
    } else if d == 1 {
        '1'
    } else if d == 2 {
        '2'
    } else if d == 3 {
        '3'
    } else if d == 4 {
        '4'
    } else if d == 5 {
        '5'
    } else if d == 6 {
        '6'
    } else if d == 7 {
        '7'
    } else if d == 8 {
        '8'
    } else {
        '9'
    }
}

/// `n` written in decimal.
pub open spec fn decimal_text(n: nat) -> Seq<char>
    decreases n,
{
    if n < 10 {
        seq![digit_char(n)]
    } else {
        decimal_text(n / 10).push(digit_char(n % 10))
    }
}

fn digit_of(d: usize) -> (c: char)
    requires
        d < 10,
    ensures
        c == digit_char(d as nat),
{
    if d == 0 {
        '0'
    } else if d == 1 {
        '1'
    } else if d == 2 {
        '2'
    } else if d == 3 {
        '3'
    } else if d == 4 {
        '4'
    } else if d == 5 {
        '5'
    } else if d == 6 {
        '6'
    } else if d == 7 {
        '7'
    } else if d == 8 {
        '8'
    } else {
        '9'
    }
}

/// Appends `n` written in decimal.
fn push_decimal(s: &mut String, n: usize)
    ensures
        final(s)@ == old(s)@ + decimal_text(n as nat),
    decreases n,
{
    if n >= 10 {
        push_decimal(s, n / 10);
    }
    crate::text::push_char(s, digit_of(n % 10));
    proof {
        if n >= 10 {
            assert(old(s)@ + decimal_text((n / 10) as nat) + seq![digit_char((n % 10) as nat)]
                =~= old(s)@ + decimal_text(n as nat));
        } else {
            assert(old(s)@ + seq![digit_char(n as nat)] =~= old(s)@ + decimal_text(n as nat));
        }
    }
}

/// A value describing part of a format specification.
#[derive(Debug)]
pub enum SpecItem {
    Text(String),
    /// The part is present (zero padding).
    Flag,
}

pub enum ItemView {
    Text(Seq<char>),
    Flag,
}

pub open spec fn item_views(s: Seq<(String, SpecItem)>) -> Seq<(Seq<char>, ItemView)> {
    s.map_values(
        |e: (String, SpecItem)|
            (
                e.0@,
                match e.1 {
                    SpecItem::Text(t) => ItemView::Text(t@),
                    SpecItem::Flag => ItemView::Flag,
                },
            ),
    )
}

pub open spec fn optional_item(key: Seq<char>, v: Option<Seq<char>>) -> Seq<(Seq<char>, ItemView)> {
    match v {
        Some(t) => seq![(key, ItemView::Text(t))],
        None => Seq::empty(),
    }
}

pub open spec fn char_text(c: Option<char>) -> Option<Seq<char>> {
    match c {
        Some(c) => Some(seq![c]),
        None => None,
    }
}

pub open spec fn number_text(n: Option<usize>) -> Option<Seq<char>> {
    match n {
        Some(n) => Some(decimal_text(n as nat)),
        None => None,
    }
}

/// The parts present in a format specification, in this order: fill,
/// alignment, zero padding, width, grouping, precision and type, each
/// with its text.
pub open spec fn spec_entries(sp: FormatSpecView) -> Seq<(Seq<char>, ItemView)> {
    optional_item("fill"@, char_text(sp.fill)) + optional_item("align"@, char_text(sp.align)) + (
    if sp.zero_pad {
        seq![("zero"@, ItemView::Flag)]
    } else {
        Seq::empty()
    }) + optional_item("width"@, number_text(sp.width)) + optional_item(
        "grouping"@,
        char_text(sp.grouping),
    ) + optional_item("precision"@, number_text(sp.precision)) + optional_item(
        "type"@,
        if sp.type_token.len() > 0 {
            Some(sp.type_token)
        } else {
            None
        },
    )
}

fn push_item(items: &mut Vec<(String, SpecItem)>, key: &str, value: Option<String>)
    ensures
        item_views(final(items)@) == item_views(old(items)@) + optional_item(
            key@,
            match value {
                Some(t) => Some(t@),
                None => None,
            },
        ),
{
    match value {
        Some(t) => {
            let ghost tv = t@;
            items.push((string_of(key), SpecItem::Text(t)));
            proof {
                assert(item_views(items@) =~= item_views(old(items)@) + seq![(key@, ItemView::Text(tv))]);
            }
        },
        None => {
            proof {
                assert(item_views(items@) =~= item_views(old(items)@) + Seq::<(Seq<char>, ItemView)>::empty());
            }
        },
    }
}

fn char_string(c: Option<char>) -> (r: Option<String>)
    ensures
        match r {
            Some(t) => char_text(c) == Some(t@),
            None => c is None,
        },
{
    match c {
        Some(c) => {
            let mut t = String::new();
            crate::text::push_char(&mut t, c);
            Some(t)
        },
        None => None,
    }
}

fn number_string(n: Option<usize>) -> (r: Option<String>)
    ensures
        match r {
            Some(t) => number_text(n) == Some(t@),
            None => n is None,
        },
{
    match n {
        Some(n) => {
            let mut t = String::new();
            push_decimal(&mut t, n);
            proof {
                assert(Seq::<char>::empty() + decimal_text(n as nat) =~= decimal_text(n as nat));
            }
            Some(t)
        },
        None => None,
    }
}

/// The parts present in a format specification (see `spec_entries`).
pub fn spec_items(spec: &FormatSpec) -> (r: Vec<(String, SpecItem)>)
    ensures
        item_views(r@) == spec_entries(spec@),
{
    let mut items: Vec<(String, SpecItem)> = Vec::new();
    proof {
        assert(item_views(items@) =~= Seq::<(Seq<char>, ItemView)>::empty());
    }
    push_item(&mut items, "fill", char_string(spec.fill));
    push_item(&mut items, "align", char_string(spec.align));
    let ghost before_zero = item_views(items@);
    if spec.zero_pad {
        items.push((string_of("zero"), SpecItem::Flag));
        proof {
            assert(item_views(items@) =~= before_zero + seq![("zero"@, ItemView::Flag)]);
        }
    } else {
        proof {
            assert(item_views(items@) =~= before_zero + Seq::<(Seq<char>, ItemView)>::empty());
        }
    }
    push_item(&mut items, "width", number_string(spec.width));
    push_item(&mut items, "grouping", char_string(spec.grouping));
    push_item(&mut items, "precision", number_string(spec.precision));
    let type_text = if spec.type_token.as_str().unicode_len() > 0 {
        Some(spec.type_token.clone())
    } else {
        None
    };
    push_item(&mut items, "type", type_text);
    proof {
        assert(item_views(items@) =~= spec_entries(spec@));
    }
    items
}


/// After a value is stored under a key, the key holds it.
proof fn lemma_lookup_store<V>(m: Seq<(Seq<char>, V)>, k: Seq<char>, x: V)
    ensures
        lookup(store(m, k, x), k) == Some(x),
{
    lemma_key_index_props(m, k);
    match key_index(m, k) {
        Some(i) => {
            let n = m.update(i, (k, x));
            assert forall|j: int| 0 <= j < i implies (#[trigger] n[j]).0 != k by {
                assert(n[j] == m[j]);
            }
            lemma_key_index_first(n, k, i);
        },
        None => {
            let n = m.push((k, x));
            assert forall|j: int| 0 <= j < m.len() implies (#[trigger] n[j]).0 != k by {
                assert(n[j] == m[j]);
            }
            lemma_key_index_first(n, k, m.len() as int);
        },
    }
}

/// Following the keys a value was stored at leads back to it.
proof fn lemma_nested_read_back(target: ValueView, keys: Seq<Seq<char>>, v: ValueView)
    ensures
        value_at_keys(nested_insert(target, keys, v), keys) == Some(v),
    decreases keys.len(),
{
    if keys.len() == 0 {
    } else {
        let m = match target {
            ValueView::Dict(m) => m,
            _ => Seq::empty(),
        };
        if keys.len() == 1 {
            lemma_lookup_store(m, keys[0], v);
            assert(keys.skip(1) =~= Seq::<Seq<char>>::empty());
            assert(nested_insert(target, keys, v) == ValueView::Dict(store(m, keys[0], v)));
            assert(value_at_keys(v, keys.skip(1)) == Some(v));
        } else {
            let child = match lookup(m, keys[0]) {
                Some(c) => c,
                None => ValueView::Dict(Seq::empty()),
            };
            let inner = nested_insert(child, keys.skip(1), v);
            lemma_lookup_store(m, keys[0], inner);
            lemma_nested_read_back(child, keys.skip(1), v);
            assert(nested_insert(target, keys, v) == ValueView::Dict(store(m, keys[0], inner)));
            assert(value_at_keys(ValueView::Dict(store(m, keys[0], inner)), keys) == value_at_keys(
                inner,
                keys.skip(1),
            ));
        }
    }
}

/// A named value is found again under the name it was stored with,
/// bracketed names included: the value of a field named `a[b][c]` is at
/// key `c` of key `b` of the value under `a`.
pub proof fn law_named_read_back(named: Seq<(Seq<char>, ValueView)>, field: Seq<char>, v: ValueView)
    requires
        field_path(field) is Some,
    ensures
        named_value(insert_named(named, field, v), field) == Some(v),
{
    match first_index(field, '[') {
        None => {
            lemma_lookup_store(named, field, v);
        },
        Some(b) => {
            let keys = subkeys(field.skip(b))->0;
            let base = field.take(b);
            let existing = match lookup(named, base) {
                Some(e) => e,
                None => ValueView::Dict(Seq::empty()),
            };
            lemma_lookup_store(named, base, nested_insert(existing, keys, v));
            lemma_nested_read_back(existing, keys, v);
        },
    }
}


/// Storing under one key leaves what the other keys hold.
proof fn lemma_lookup_store_other<V>(m: Seq<(Seq<char>, V)>, k: Seq<char>, x: V, k2: Seq<char>)
    requires
        k2 != k,
    ensures
        lookup(store(m, k, x), k2) == lookup(m, k2),
{
    lemma_key_index_props(m, k);
    lemma_key_index_props(m, k2);
    let n = store(m, k, x);
    lemma_key_index_props(n, k2);
    match key_index(m, k) {
        Some(i) => {
            assert forall|j: int| 0 <= j < m.len() implies (#[trigger] m[j]).0 == n[j].0 by {
                if j == i {
                    assert(n[j] == (k, x));
                } else {
                    assert(n[j] == m[j]);
                }
            }
            lemma_key_index_same_keys(m, n, k2);
            match key_index(m, k2) {
                Some(j) => {
                    assert(j != i);
                    assert(n[j] == m[j]);
                },
                None => {},
            }
        },
        None => {
            match key_index(m, k2) {
                Some(j) => {
                    assert(n[j] == m[j]);
                    assert forall|l: int| 0 <= l < j implies (#[trigger] n[l]).0 != k2 by {
                        assert(n[l] == m[l]);
                    }
                    lemma_key_index_first(n, k2, j);
                },
                None => {
                    assert forall|l: int| 0 <= l < n.len() implies (#[trigger] n[l]).0 != k2 by {
                        if l < m.len() {
                            assert(n[l] == m[l]);
                        }
                    }
                },
            }
        },
    }
}

/// The full path of a field: its base name, then its bracketed keys.
pub open spec fn full_path(field: Seq<char>) -> Option<Seq<Seq<char>>> {
    match field_path(field) {
        Some((base, keys)) => Some(seq![base] + keys),
        None => None,
    }
}

/// Two paths part somewhere: neither is a prefix of the other.
pub open spec fn paths_part(p: Seq<Seq<char>>, q: Seq<Seq<char>>) -> bool {
    exists|i: int| 0 <= i < p.len() && i < q.len() && #[trigger] p[i] != q[i]
}

/// Storing a value along one path leaves what lies along a path that parts
/// from it.
proof fn lemma_nested_frame(t: ValueView, k2: Seq<Seq<char>>, v: ValueView, k1: Seq<Seq<char>>)
    requires
        paths_part(k1, k2),
    ensures
        value_at_keys(nested_insert(t, k2, v), k1) == value_at_keys(t, k1),
    decreases k2.len(),
{
    let i = choose|i: int| 0 <= i < k1.len() && i < k2.len() && #[trigger] k1[i] != k2[i];
    let m = match t {
        ValueView::Dict(m) => m,
        _ => Seq::empty(),
    };
    let k = k2[0];
    if k1[0] != k {
        let x = if k2.len() == 1 {
            v
        } else {
            nested_insert(
                match lookup(m, k) {
                    Some(c) => c,
                    None => ValueView::Dict(Seq::empty()),
                },
                k2.skip(1),
                v,
            )
        };
        assert(nested_insert(t, k2, v) == ValueView::Dict(store(m, k, x)));
        lemma_lookup_store_other(m, k, x, k1[0]);
    } else {
        assert(i >= 1);
        let child = match lookup(m, k) {
            Some(c) => c,
            None => ValueView::Dict(Seq::empty()),
        };
        let inner = nested_insert(child, k2.skip(1), v);
        assert(nested_insert(t, k2, v) == ValueView::Dict(store(m, k, inner)));
        lemma_lookup_store(m, k, inner);
        assert(k1.skip(1)[i - 1] != k2.skip(1)[i - 1]);
        lemma_nested_frame(child, k2.skip(1), v, k1.skip(1));
        assert(k1.skip(1).len() > 0);
    }
}

/// Storing the value of one field leaves the value of every field whose
/// path parts from it: `p[age]` does not disturb `p[name]`, nor `q`.
pub proof fn law_named_frame(
    named: Seq<(Seq<char>, ValueView)>,
    f1: Seq<char>,
    f2: Seq<char>,
    v2: ValueView,
)
    requires
        full_path(f1) is Some,
        full_path(f2) is Some,
        paths_part(full_path(f1)->0, full_path(f2)->0),
    ensures
        named_value(insert_named(named, f2, v2), f1) == named_value(named, f1),
{
    let (b1, k1) = field_path(f1)->0;
    let (b2, k2) = field_path(f2)->0;
    let p1 = full_path(f1)->0;
    let p2 = full_path(f2)->0;
    let i = choose|i: int| 0 <= i < p1.len() && i < p2.len() && #[trigger] p1[i] != p2[i];
    let existing = match lookup(named, b2) {
        Some(e) => e,
        None => ValueView::Dict(Seq::empty()),
    };
    let x = nested_insert(existing, k2, v2);
    assert(insert_named(named, f2, v2) == store(named, b2, x)) by {
        if first_index(f2, '[') is None {
            assert(k2.len() == 0);
        }
    }
    if b1 != b2 {
        lemma_lookup_store_other(named, b2, x, b1);
    } else {
        assert(i >= 1);
        assert(p1[i] == k1[i - 1]);
        assert(p2[i] == k2[i - 1]);
        lemma_lookup_store(named, b2, x);
        lemma_nested_frame(existing, k2, v2, k1);
    }
}

/// The fields of a result keep their values as later fields are stored:
/// after `f1` and then `f2` (paths parting) are stored, `f1` still reads
/// its own value.
pub proof fn law_named_keeps_earlier(
    named: Seq<(Seq<char>, ValueView)>,
    f1: Seq<char>,
    v1: ValueView,
    f2: Seq<char>,
    v2: ValueView,
)
    requires
        full_path(f1) is Some,
        full_path(f2) is Some,
        paths_part(full_path(f1)->0, full_path(f2)->0),
    ensures
        named_value(insert_named(insert_named(named, f1, v1), f2, v2), f1) == Some(v1),
{
    law_named_read_back(named, f1, v1);
    law_named_frame(insert_named(named, f1, v1), f1, f2, v2);
}

} // verus!
