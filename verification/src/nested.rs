//! Named values under bracketed names: a field called `a[b][c]` is stored
//! as the value at key `c` of the dictionary at key `b` of the dictionary
//! stored under `a`.

use crate::result::{
    FieldMap, ParseValue, ValueView, insert_value, lemma_deep_values_keys, lemma_key_index_props, lemma_value_pairs, lookup, store, value_pairs,
};
use crate::text::{
    chars_of, find_char, find_char_from, first_index, lemma_first_index, string_of, string_of_range,
};
use vstd::prelude::*;

verus! {

/// The keys of a bracketed path such as `[a][b]`: the text between each
/// `[` and the next `]`, read while the rest starts with `[`; `None` when a
/// `[` is never closed.
#[verifier::opaque]
pub open spec fn subkeys(rest: Seq<char>) -> Option<Seq<Seq<char>>>
    decreases rest.len(),
{
    if rest.len() > 0 && rest[0] == '[' {
        let stripped = rest.skip(1);
        match first_index(stripped, ']') {
            None => None,
            Some(e) => {
                proof {
                    lemma_first_index(stripped, ']');
                }
                match subkeys(stripped.skip(e + 1)) {
                    None => None,
                    Some(ks) => Some(seq![stripped.take(e)] + ks),
                }
            },
        }
    } else {
        Some(Seq::empty())
    }
}

proof fn lemma_subkeys_step(rest: Seq<char>, e: int)
    requires
        rest.len() > 0,
        rest[0] == '[',
        first_index(rest.skip(1), ']') == Some(e),
    ensures
        subkeys(rest) == match subkeys(rest.skip(1).skip(e + 1)) {
            None => None,
            Some(ks) => Some(seq![rest.skip(1).take(e)] + ks),
        },
{
    reveal(subkeys);
}

proof fn lemma_subkeys_open(rest: Seq<char>)
    requires
        rest.len() > 0,
        rest[0] == '[',
        first_index(rest.skip(1), ']') is None,
    ensures
        subkeys(rest) is None,
{
    reveal(subkeys);
}

proof fn lemma_subkeys_end(rest: Seq<char>)
    requires
        !(rest.len() > 0 && rest[0] == '['),
    ensures
        subkeys(rest) == Some(Seq::<Seq<char>>::empty()),
{
    reveal(subkeys);
}

/// Stores `value` at the path `keys` inside `target`, turning whatever is
/// on the way into nested dictionaries.
pub open spec fn nested_insert(target: ValueView, keys: Seq<Seq<char>>, value: ValueView) -> ValueView
    decreases keys.len(),
{
    if keys.len() == 0 {
        value
    } else {
        let m = match target {
            ValueView::Dict(m) => m,
            _ => Seq::empty(),
        };
        if keys.len() == 1 {
            ValueView::Dict(store(m, keys[0], value))
        } else {
            let child = match lookup(m, keys[0]) {
                Some(c) => c,
                None => ValueView::Dict(Seq::empty()),
            };
            ValueView::Dict(store(m, keys[0], nested_insert(child, keys.skip(1), value)))
        }
    }
}

/// Stores the value of the field named `field`: a name such as
/// `a[b][c]` stores into nested dictionaries under `a`, other names are
/// stored as they are.
pub open spec fn insert_named(
    target: Seq<(Seq<char>, ValueView)>,
    field: Seq<char>,
    value: ValueView,
) -> Seq<(Seq<char>, ValueView)> {
    match first_index(field, '[') {
        None => store(target, field, value),
        Some(b) => match subkeys(field.skip(b)) {
            None => store(target, field, value),
            Some(keys) => {
                let base = field.take(b);
                let existing = match lookup(target, base) {
                    Some(v) => v,
                    None => ValueView::Dict(Seq::empty()),
                };
                store(target, base, nested_insert(existing, keys, value))
            },
        },
    }
}

/// The named values with bracketed names expanded, inserted in order.
pub open spec fn expand_named(flat: Seq<(Seq<char>, ValueView)>) -> Seq<(Seq<char>, ValueView)>
    decreases flat.len(),
{
    if flat.len() == 0 {
        Seq::empty()
    } else {
        insert_named(expand_named(flat.drop_last()), flat.last().0, flat.last().1)
    }
}

pub open spec fn string_seq_views(s: Seq<String>) -> Seq<Seq<char>> {
    s.map_values(|x: String| x@)
}

/// One bracketed key read: the keys gathered so far followed by those of
/// the rest after the `[` ... `]` pair.
#[verifier::spinoff_prover]
#[verifier::rlimit(30)]
proof fn lemma_subkeys_advance(chars: Seq<char>, pos: int, e: int, keys: Seq<Seq<char>>)
    requires
        0 <= pos < e < chars.len(),
        chars[pos] == '[',
        first_index(chars.skip(pos + 1), ']') == Some(e - pos - 1),
    ensures
        match subkeys(chars.skip(pos)) {
            None => None,
            Some(ks) => Some(keys + ks),
        } == match subkeys(chars.skip(e + 1)) {
            None => None,
            Some(ks) => Some(keys.push(chars.subrange(pos + 1, e)) + ks),
        },
{
    let rest = chars.skip(pos);
    let key = chars.subrange(pos + 1, e);
    let after = chars.skip(e + 1);
    assert(rest.skip(1) =~= chars.skip(pos + 1));
    assert(rest[0] == chars[pos]);
    assert(rest.skip(1).take(e - pos - 1) =~= key);
    assert(rest.skip(1).skip(e - pos - 1 + 1) =~= after);
    lemma_subkeys_step(rest, e - pos - 1);
    match subkeys(after) {
        None => {
            assert(subkeys(rest) is None);
        },
        Some(ks) => {
            assert(subkeys(rest) == Some(seq![key] + ks));
            assert(keys.push(key) + ks =~= keys + (seq![key] + ks));
        },
    }
}

proof fn lemma_string_seq_views_push(s: Seq<String>, x: String)
    ensures
        string_seq_views(s.push(x)) == string_seq_views(s).push(x@),
{
    assert(string_seq_views(s.push(x)) =~= string_seq_views(s).push(x@));
}

/// Reads the bracketed keys of `chars[from..]`.
pub fn parse_subkeys(chars: &Vec<char>, from: usize) -> (r: Option<Vec<String>>)
    requires
        from <= chars@.len(),
    ensures
        match r {
            Some(ks) => subkeys(chars@.skip(from as int)) == Some(string_seq_views(ks@)),
            None => subkeys(chars@.skip(from as int)) is None,
        },
{
    let ghost goal = subkeys(chars@.skip(from as int));
    let mut keys: Vec<String> = Vec::new();
    let mut pos = from;
    proof {
        match subkeys(chars@.skip(from as int)) {
            None => {},
            Some(ks) => {
                assert(string_seq_views(keys@) + ks =~= ks);
            },
        }
    }
    while pos < chars.len() && chars[pos] == '['
        invariant
            from <= pos <= chars@.len(),
            goal == subkeys(chars@.skip(from as int)),
            goal == match subkeys(chars@.skip(pos as int)) {
                None => None,
                Some(ks) => Some(string_seq_views(keys@) + ks),
            },
        decreases chars.len() - pos,
    {
        match find_char_from(chars, pos + 1, ']') {
            None => {
                proof {
                    let rest = chars@.skip(pos as int);
                    assert(rest.skip(1) =~= chars@.skip(pos + 1));
                    assert(rest[0] == chars@[pos as int]);
                    lemma_subkeys_open(rest);
                }
                return None;
            },
            Some(e) => {
                let key = string_of_range(chars, pos + 1, e);
                proof {
                    lemma_subkeys_advance(chars@, pos as int, e as int, string_seq_views(keys@));
                    lemma_string_seq_views_push(keys@, key);
                }
                keys.push(key);
                pos = e + 1;
            },
        }
    }
    proof {
        if pos < chars@.len() {
            assert(chars@.skip(pos as int)[0] == chars@[pos as int]);
        }
        lemma_subkeys_end(chars@.skip(pos as int));
        assert(string_seq_views(keys@) + Seq::<Seq<char>>::empty() =~= string_seq_views(keys@));
    }
    Some(keys)
}

/// Dictionary view of a map of values.
proof fn lemma_dict_view(m: FieldMap<ParseValue>)
    ensures
        ParseValue::Dict(m)@ == ValueView::Dict(value_pairs(m)),
{
    lemma_value_pairs(m);
}

proof fn lemma_nested_insert_step(target: ValueView, keys: Seq<Seq<char>>, value: ValueView)
    requires
        keys.len() >= 2,
    ensures
        ({
            let m = match target {
                ValueView::Dict(m) => m,
                _ => Seq::empty(),
            };
            let child = match lookup(m, keys[0]) {
                Some(c) => c,
                None => ValueView::Dict(Seq::empty()),
            };
            nested_insert(target, keys, value) == ValueView::Dict(
                store(m, keys[0], nested_insert(child, keys.skip(1), value)),
            )
        }),
{
}

/// Replaces the value at position `i` of `m` by storing `value` at the path
/// `keys[k..]` inside it.
fn descend(m: &mut FieldMap<ParseValue>, i: usize, keys: &Vec<String>, k: usize, value: ParseValue)
    requires
        i < old(m).entries@.len(),
        k <= keys@.len(),
    ensures
        value_pairs(*final(m)) == value_pairs(*old(m)).update(
            i as int,
            (
                value_pairs(*old(m))[i as int].0,
                nested_insert(
                    value_pairs(*old(m))[i as int].1,
                    string_seq_views(keys@).skip(k as int),
                    value@,
                ),
            ),
        ),
    decreases keys@.len() - k + 1, 0nat,
{
    let ghost mv = value_pairs(*m);
    let (key, child) = m.entries.remove(i);
    let new_child = nested_insert_exec(child, keys, k, value);
    m.entries.insert(i, (key, new_child));
    proof {
        assert(value_pairs(*m) =~= mv.update(
            i as int,
            (mv[i as int].0, new_child@),
        ));
    }
}

/// Stores `value` at the path `keys[k..]` inside `target`.
#[verifier::rlimit(30)]
fn nested_insert_exec(target: ParseValue, keys: &Vec<String>, k: usize, value: ParseValue) -> (r:
    ParseValue)
    requires
        k <= keys@.len(),
    ensures
        r@ == nested_insert(target@, string_seq_views(keys@).skip(k as int), value@),
    decreases keys@.len() - k, 1nat,
{
    let ghost kv = string_seq_views(keys@).skip(k as int);
    if k == keys.len() {
        return value;
    }
    proof {
        assert(kv[0] == keys@[k as int]@);
    }
    let mut m = match target {
        ParseValue::Dict(m) => m,
        _ => FieldMap::new(),
    };
    proof {
        lemma_value_pairs(m);
        if !(target is Dict) {
            assert(value_pairs(m) =~= Seq::<(Seq<char>, ValueView)>::empty());
        }
    }
    let ghost mv = value_pairs(m);
    if k + 1 == keys.len() {
        insert_value(&mut m, keys[k].clone(), value);
        proof {
            lemma_dict_view(m);
        }
        return ParseValue::Dict(m);
    }
    proof {
        assert(kv.skip(1) =~= string_seq_views(keys@).skip(k + 1));
    }
    proof {
        lemma_nested_insert_step(target@, kv, value@);
    }
    match m.position(keys[k].as_str()) {
        Some(i) => {
            proof {
                lemma_deep_values_keys(m.pairs(), kv[0]);
                lemma_key_index_props(m.pairs(), kv[0]);
            }
            descend(&mut m, i, keys, k + 1, value);
            proof {
                lemma_dict_view(m);
            }
            ParseValue::Dict(m)
        },
        None => {
            proof {
                lemma_deep_values_keys(m.pairs(), kv[0]);
            }
            let empty: FieldMap<ParseValue> = FieldMap::new();
            proof {
                lemma_dict_view(empty);
                assert(value_pairs(empty) =~= Seq::<(Seq<char>, ValueView)>::empty());
            }
            let new_child = nested_insert_exec(ParseValue::Dict(empty), keys, k + 1, value);
            m.entries.push((keys[k].clone(), new_child));
            proof {
                lemma_dict_view(m);
                assert(value_pairs(m) =~= mv.push((kv[0], new_child@)));
            }
            ParseValue::Dict(m)
        },
    }
}

/// Stores the value of the field named `field` into `target`, expanding a
/// bracketed name into nested dictionaries.
pub fn insert_named_value(target: &mut FieldMap<ParseValue>, field: &str, value: ParseValue)
    ensures
        value_pairs(*final(target)) == insert_named(value_pairs(*old(target)), field@, value@),
{
    let cs = chars_of(field);
    let b = match find_char(&cs, '[') {
        None => {
            insert_value(target, string_of(field), value);
            return ;
        },
        Some(b) => b,
    };
    proof {
        lemma_first_index(cs@, '[');
    }
    let keys = match parse_subkeys(&cs, b) {
        None => {
            insert_value(target, string_of(field), value);
            return ;
        },
        Some(keys) => keys,
    };
    let base = string_of_range(&cs, 0, b);
    proof {
        assert(base@ =~= field@.take(b as int));
        assert(string_seq_views(keys@).skip(0) =~= string_seq_views(keys@));
        lemma_deep_values_keys(target.pairs(), base@);
        lemma_key_index_props(target.pairs(), base@);
    }
    let ghost old_pairs = value_pairs(*target);
    match target.position(base.as_str()) {
        Some(i) => {
            descend(target, i, &keys, 0, value);
        },
        None => {
            let empty: FieldMap<ParseValue> = FieldMap::new();
            proof {
                lemma_dict_view(empty);
                assert(value_pairs(empty) =~= Seq::<(Seq<char>, ValueView)>::empty());
            }
            let child = nested_insert_exec(ParseValue::Dict(empty), &keys, 0, value);
            insert_value(target, base, child);
        },
    }
}

/// The named values with bracketed names expanded, inserted in the order
/// the fields were read.
pub fn expand_named_fields(named_fields: FieldMap<ParseValue>) -> (r: FieldMap<ParseValue>)
    ensures
        value_pairs(r) == expand_named(value_pairs(named_fields)),
{
    let ghost all = value_pairs(named_fields);
    let mut rest = named_fields;
    let mut result: FieldMap<ParseValue> = FieldMap::new();
    let mut i: usize = 0;
    let n = rest.entries.len();
    proof {
        assert(value_pairs(result) =~= Seq::<(Seq<char>, ValueView)>::empty());
        assert(value_pairs(rest) =~= all.skip(0));
        assert(all.len() == rest.entries@.len());
        assert(all.take(0) =~= Seq::<(Seq<char>, ValueView)>::empty());
    }
    while i < n
        invariant
            i <= n,
            n == all.len(),
            i + rest.entries@.len() == n,
            value_pairs(rest) == all.skip(i as int),
            value_pairs(result) == expand_named(all.take(i as int)),
        decreases rest.entries@.len(),
    {
        let ghost before = value_pairs(rest);
        let (field, value) = rest.entries.remove(0);
        proof {
            assert(before.len() == rest.entries@.len() + 1);
            assert(before[0] == (field@, value@));
            assert(value_pairs(rest) =~= before.skip(1));
            assert(all.take(i + 1).drop_last() =~= all.take(i as int));
            assert(all[i as int] == before[0]);
            assert(all.skip(i + 1) =~= before.skip(1));
        }
        insert_named_value(&mut result, field.as_str(), value);
        i = i + 1;
    }
    proof {
        assert(all.take(i as int) =~= all);
    }
    result
}

} // verus!
