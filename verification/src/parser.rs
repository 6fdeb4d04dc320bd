//! Core parsing engine.
//!
//! Provides the `Parser` struct that compiles format strings and
//! matches them against input strings, extracting typed values.

use crate::compiler::{
    CompiledFormat, CompiledView, CustomTypePattern, FieldInfo, FieldView, compile_format,
    compile_format_with_custom, compiled_of, opt_view, string_views,
};
use crate::engine::{
    CompiledRegex, regex_accepts, regex_capture_names, regex_captures, regex_captures_all,
    match_end, match_start, regex_error_message, well_formed_spans,
};
use crate::nested::{expand_named, expand_named_fields};
use crate::result::{
    FieldMap, ParseResult, ParseValue, ResultView, ValueView, entries_view, get_value, insert_value,
    lemma_entries_view, lemma_value_pairs, lookup, store, value_pairs,
};
use crate::text::{
    byte_to_char_index, char_index_at, char_range_end, is_char_offset,
    char_count_fits, lemma_byte_offset_mono, push_str, slice_for_char_range, str_equal, string_of,
};
use crate::types::{conversion, try_convert_value};
use std::sync::Arc;
use crate::decimals::{float_text_eq, float_text_equal};
use vstd::prelude::*;
use vstd::string::StrSliceExecFns;

verus! {

/// Whether two parsed values are equal: same kind and same content, float
/// and percent values when their texts stand for equal numbers;
/// dictionaries are equal when they hold the same keys with equal values,
/// whatever the order of their entries.
pub open spec fn values_equal(a: ValueView, b: ValueView) -> bool
    decreases a,
{
    match a {
        ValueView::Str(x) => b matches ValueView::Str(y) && x == y,
        ValueView::Int(x) => b matches ValueView::Int(y) && x == y,
        ValueView::Float(x) => b matches ValueView::Float(y) && float_text_equal(x, y),
        ValueView::Decimal(x) => b matches ValueView::Decimal(y) && x == y,
        ValueView::Percent(x) => b matches ValueView::Percent(y) && float_text_equal(x, y),
        ValueView::DateTime(r, f) => b matches ValueView::DateTime(r2, f2) && r == r2 && f == f2,
        ValueView::Dict(x) => match b {
            ValueView::Dict(y) => x.len() == y.len() && forall|i: int|
                0 <= i < x.len() ==> match lookup(y, #[trigger] x[i].0) {
                    Some(w) => values_equal(x[i].1, w),
                    None => false,
                },
            _ => false,
        },
    }
}

/// Compares two parsed values (see `values_equal`).
pub fn parse_values_equal(left: &ParseValue, right: &ParseValue) -> (r: bool)
    ensures
        r == values_equal(left@, right@),
    decreases left@, 1nat,
{
    match (left, right) {
        (ParseValue::Str(a), ParseValue::Str(b)) => crate::text::str_equal(a.as_str(), b.as_str()),
        (ParseValue::Int(a), ParseValue::Int(b)) => *a == *b,
        (ParseValue::Float(a), ParseValue::Float(b)) => float_text_eq(a.as_str(), b.as_str()),
        (ParseValue::Decimal(a), ParseValue::Decimal(b)) => crate::text::str_equal(a.as_str(), b.as_str()),
        (ParseValue::Percent(a), ParseValue::Percent(b)) => float_text_eq(a.as_str(), b.as_str()),
        (
            ParseValue::DateTime { raw: a, format: af },
            ParseValue::DateTime { raw: b, format: bf },
        ) => crate::text::str_equal(a.as_str(), b.as_str()) && crate::text::str_equal(af.as_str(), bf.as_str()),
        (ParseValue::Dict(a), ParseValue::Dict(b)) => dicts_equal(a, b, left),
        _ => false,
    }
}

/// Compares two dictionaries entry by entry (`whole` is the value holding
/// `a`, which bounds the recursion).
fn dicts_equal(a: &FieldMap<ParseValue>, b: &FieldMap<ParseValue>, whole: &ParseValue) -> (r: bool)
    requires
        *whole == ParseValue::Dict(*a),
    ensures
        r == values_equal(whole@, ParseValue::Dict(*b)@),
    decreases whole@, 0nat,
{
    proof {
        lemma_entries_view(a.entries@);
        lemma_entries_view(b.entries@);
        crate::result::lemma_value_pairs(*b);
    }
    let ghost x = entries_view(a.entries@);
    let ghost y = entries_view(b.entries@);
    if a.entries.len() != b.entries.len() {
        return false;
    }
    let mut i: usize = 0;
    while i < a.entries.len()
        invariant
            i <= a.entries@.len(),
            *whole == ParseValue::Dict(*a),
            x == entries_view(a.entries@),
            y == entries_view(b.entries@),
            y == value_pairs(*b),
            x.len() == a.entries@.len(),
            forall|j: int|
                0 <= j < i ==> match lookup(y, #[trigger] x[j].0) {
                    Some(w) => values_equal(x[j].1, w),
                    None => false,
                },
        decreases a.entries.len() - i,
    {
        let key = &a.entries[i].0;
        let value = &a.entries[i].1;
        proof {
            lemma_entries_view(a.entries@);
            assert(x[i as int] == (key@, value@));
        }
        match crate::result::get_value(b, key.as_str()) {
            None => {
                proof {
                    assert(whole@ == ValueView::Dict(x));
                    assert(ParseValue::Dict(*b)@ == ValueView::Dict(y));
                    assert(lookup(y, x[i as int].0) is None);
                }
                return false;
            },
            Some(w) => {
                proof {
                    let d = whole@;
                    assert(d == ValueView::Dict(x));
                    assert(d->Dict_0 == x);
                    assert(decreases_to!(d => d->Dict_0));
                    assert(decreases_to!(x => x[i as int]));
                    assert(decreases_to!(x[i as int] => x[i as int].1));
                    assert(decreases_to!(whole@ => value@));
                }
                if !parse_values_equal(value, w) {
                    return false;
                }
            },
        }
        i = i + 1;
    }
    true
}

/// Index of the first capture group called `name`.
pub open spec fn name_index(names: Seq<Option<Seq<char>>>, name: Seq<char>) -> Option<int> {
    if exists|i: int| 0 <= i < names.len() && #[trigger] names[i] == Some(name) {
        Some(
            choose|i: int|
                0 <= i < names.len() && #[trigger] names[i] == Some(name) && forall|j: int|
                    0 <= j < i ==> #[trigger] names[j] != Some(name),
        )
    } else {
        None
    }
}

proof fn lemma_name_index_first(names: Seq<Option<Seq<char>>>, name: Seq<char>, i: int)
    requires
        0 <= i < names.len(),
        names[i] == Some(name),
        forall|j: int| 0 <= j < i ==> #[trigger] names[j] != Some(name),
    ensures
        name_index(names, name) == Some(i),
{
    let c = choose|c: int|
        0 <= c < names.len() && #[trigger] names[c] == Some(name) && forall|j: int|
            0 <= j < c ==> #[trigger] names[j] != Some(name);
    assert(0 <= i < names.len() && #[trigger] names[i] == Some(name) && forall|j: int|
        0 <= j < i ==> #[trigger] names[j] != Some(name));
    if c < i {
        assert(names[c] != Some(name));
    } else if c > i {
        assert(names[i] != Some(name));
    }
}

/// The names of capture groups, as character sequences.
pub open spec fn names_view(names: Seq<Option<String>>) -> Seq<Option<Seq<char>>> {
    names.map_values(|o: Option<String>| opt_view(o))
}

/// Position of the first group called `name` among `names`.
fn find_group(names: &Vec<Option<String>>, name: &str) -> (r: Option<usize>)
    ensures
        match r {
            Some(i) => name_index(names_view(names@), name@) == Some(i as int),
            None => name_index(names_view(names@), name@) is None,
        },
{
    let ghost nv = names_view(names@);
    let mut i: usize = 0;
    while i < names.len()
        invariant
            i <= names@.len(),
            nv == names_view(names@),
            forall|j: int| 0 <= j < i ==> #[trigger] nv[j] != Some(name@),
        decreases names.len() - i,
    {
        let hit = match &names[i] {
            Some(n) => str_equal(n.as_str(), name),
            None => false,
        };
        proof {
            assert(nv[i as int] == opt_view(names@[i as int]));
        }
        if hit {
            proof {
                lemma_name_index_first(nv, name@, i as int);
            }
            return Some(i);
        }
        i = i + 1;
    }
    proof {
        if exists|j: int| 0 <= j < nv.len() && #[trigger] nv[j] == Some(name@) {
            let j = choose|j: int| 0 <= j < nv.len() && #[trigger] nv[j] == Some(name@);
            assert(nv[j] != Some(name@));
        }
    }
    None
}

/// What the regex engine reported for one match: the byte spans of the
/// capture groups within `haystack`, the names of the groups, and the
/// character position at which `haystack` starts in the whole input.
pub struct MatchView {
    pub names: Seq<Option<Seq<char>>>,
    pub caps: Seq<Option<(usize, usize)>>,
    pub haystack: Seq<char>,
    pub pos: int,
}

/// The capture group of field `f`: the group named after it for a named
/// field, the recorded group of its index for a positional one.
pub open spec fn field_group(c: CompiledView, f: FieldView, names: Seq<Option<Seq<char>>>) -> Option<int> {
    if f.is_named {
        name_index(
            names,
            match f.group_name {
                Some(g) => g,
                None => f.name,
            },
        )
    } else {
        let k = match f.index {
            Some(k) => k as int,
            None => 0,
        };
        if k < c.fixed_group_indices.len() {
            Some(c.fixed_group_indices[k] as int)
        } else {
            None
        }
    }
}

/// The text field `f` captured and its span, in characters of the whole
/// input; `None` when its group took no part in the match.
pub open spec fn field_hit(c: CompiledView, f: FieldView, m: MatchView) -> Option<(Seq<char>, (usize, usize))> {
    match field_group(c, f, m.names) {
        Some(g) => if 0 <= g < m.caps.len() {
            match m.caps[g] {
                Some(sp) => {
                    let a = char_index_at(m.haystack, sp.0 as int);
                    let b = char_index_at(m.haystack, sp.1 as int);
                    Some((m.haystack.subrange(a, b), ((m.pos + a) as usize, (m.pos + b) as usize)))
                },
                None => None,
            }
        } else {
            None
        },
        None => None,
    }
}

/// The value of field `f` for the captured text: user-defined types keep
/// the text, the others convert it, keeping the text where conversion
/// fails.
pub open spec fn field_value(f: FieldView, text: Seq<char>) -> ValueView {
    if f.custom_type is Some {
        ValueView::Str(text)
    } else {
        match conversion(text, f.spec) {
            Some(Ok(v)) => v,
            _ => ValueView::Str(text),
        }
    }
}

/// The values and spans gathered from the fields read so far; named values
/// still under their flat names.
pub struct Gathered {
    pub fixed: Seq<ValueView>,
    pub fixed_spans: Seq<(usize, usize)>,
    pub flat: Seq<(Seq<char>, ValueView)>,
    pub named_spans: Seq<(Seq<char>, (usize, usize))>,
}

/// Where reading the fields of a match stands.
pub enum Progress {
    Going(Gathered),
    /// A repeated field was captured before the field it repeats.
    Unmatched,
    /// A repeated field captured a value unequal to the first one.
    Conflict(Seq<char>),
}

pub open spec fn conflict_message(name: Seq<char>) -> Seq<char> {
    "RepeatedNameError: field '"@ + name + "' matched conflicting values"@
}

/// Reads one field: a repeated field must equal the value already read
/// under its name, a named field is stored under its name, a positional
/// field is appended.
pub open spec fn gather_step(g: Gathered, f: FieldView, hit: Option<(Seq<char>, (usize, usize))>) -> Progress {
    match hit {
        None => Progress::Going(g),
        Some((text, span)) => {
            let v = field_value(f, text);
            match f.repeated_of {
                Some(rn) => match lookup(g.flat, rn) {
                    Some(existing) => if values_equal(existing, v) {
                        Progress::Going(g)
                    } else {
                        Progress::Conflict(conflict_message(rn))
                    },
                    None => Progress::Unmatched,
                },
                None => if f.is_named {
                    Progress::Going(
                        Gathered {
                            flat: store(g.flat, f.name, v),
                            named_spans: store(g.named_spans, f.name, span),
                            ..g
                        },
                    )
                } else {
                    Progress::Going(
                        Gathered { fixed: g.fixed.push(v), fixed_spans: g.fixed_spans.push(span), ..g },
                    )
                },
            }
        },
    }
}

pub open spec fn nothing_gathered() -> Gathered {
    Gathered { fixed: Seq::empty(), fixed_spans: Seq::empty(), flat: Seq::empty(), named_spans: Seq::empty() }
}

/// The outcome of reading the first `k` fields of `c` from match `m`.
pub open spec fn gather(c: CompiledView, m: MatchView, k: int) -> Progress
    decreases k,
{
    if k <= 0 {
        Progress::Going(nothing_gathered())
    } else {
        match gather(c, m, k - 1) {
            Progress::Going(g) => gather_step(g, c.fields[k - 1], field_hit(c, c.fields[k - 1], m)),
            other => other,
        }
    }
}

/// Once reading stops, it stays stopped.
proof fn lemma_gather_stops(c: CompiledView, m: MatchView, k: int, n: int)
    requires
        0 <= k <= n,
        !(gather(c, m, k) is Going),
    ensures
        gather(c, m, n) == gather(c, m, k),
    decreases n - k,
{
    if k < n {
        lemma_gather_stops(c, m, k, n - 1);
    }
}

/// What a match yields.
pub enum Evaluation {
    Matched(ResultView),
    Unmatched,
    Conflict(Seq<char>),
}

/// The result of a match: every field read, then the named values
/// expanded under their bracketed names.
pub open spec fn evaluation(c: CompiledView, m: MatchView) -> Evaluation {
    match gather(c, m, c.fields.len() as int) {
        Progress::Going(g) => Evaluation::Matched(
            ResultView {
                fixed: g.fixed,
                named: expand_named(g.flat),
                fixed_spans: g.fixed_spans,
                named_spans: g.named_spans,
            },
        ),
        Progress::Unmatched => Evaluation::Unmatched,
        Progress::Conflict(msg) => Evaluation::Conflict(msg),
    }
}

/// Field `j` of `c` is a repeated field whose value in match `m` is not
/// equal to the value first read under its name, and `msg` reports it.
pub open spec fn conflict_at(c: CompiledView, m: MatchView, j: int, msg: Seq<char>) -> bool {
    &&& 0 <= j < c.fields.len()
    &&& gather(c, m, j) matches Progress::Going(g)
    &&& c.fields[j].repeated_of matches Some(rn)
    &&& field_hit(c, c.fields[j], m) matches Some(hit)
    &&& lookup(g.flat, rn) matches Some(existing)
    &&& !values_equal(existing, field_value(c.fields[j], hit.0))
    &&& msg == conflict_message(rn)
}

proof fn lemma_gather_conflict(c: CompiledView, m: MatchView, k: int)
    requires
        0 <= k <= c.fields.len(),
    ensures
        gather(c, m, k) matches Progress::Conflict(msg) ==> exists|j: int|
            0 <= j < k && #[trigger] conflict_at(c, m, j, msg),
    decreases k,
{
    if k > 0 {
        lemma_gather_conflict(c, m, k - 1);
        if let Progress::Conflict(msg) = gather(c, m, k) {
            if gather(c, m, k - 1) is Going {
                assert(conflict_at(c, m, k - 1, msg));
            }
        }
    }
}

/// Reading a match fails with an error only at a repeated field whose
/// value is not equal to the one first read under its name, and the error
/// says so: it starts with `RepeatedNameError:`.
pub proof fn law_conflict_only_from_repeated_field(c: CompiledView, m: MatchView)
    ensures
        evaluation(c, m) matches Evaluation::Conflict(msg) ==> {
            &&& exists|j: int| #[trigger] conflict_at(c, m, j, msg)
            &&& "RepeatedNameError:"@.is_prefix_of(msg)
        },
{
    lemma_gather_conflict(c, m, c.fields.len() as int);
    if let Evaluation::Conflict(msg) = evaluation(c, m) {
        let j = choose|j: int| 0 <= j < c.fields.len() && #[trigger] conflict_at(c, m, j, msg);
        lemma_conflict_message_prefix(c.fields[j].repeated_of->0);
    }
}

proof fn lemma_conflict_message_prefix(rn: Seq<char>)
    ensures
        "RepeatedNameError:"@.is_prefix_of(conflict_message(rn)),
{
    let msg = conflict_message(rn);
    reveal_strlit("RepeatedNameError:");
    reveal_strlit("RepeatedNameError: field '");
    assert("RepeatedNameError: field '"@.len() == 26);
    assert(msg.subrange(0, 18) =~= "RepeatedNameError:"@);
}

/// A character boundary lying before another has the smaller index.
proof fn lemma_char_index_order(s: Seq<char>, b1: int, b2: int)
    requires
        is_char_offset(s, b1),
        is_char_offset(s, b2),
        b1 <= b2,
    ensures
        0 <= char_index_at(s, b1) <= char_index_at(s, b2) <= s.len(),
{
    let k1 = char_index_at(s, b1);
    let k2 = char_index_at(s, b2);
    if k2 < k1 {
        lemma_byte_offset_mono(s, k2, k1);
    }
}

/// The value of field `f` for the text `text`.
fn field_value_of(f: &FieldInfo, text: &str) -> (v: ParseValue)
    ensures
        v@ == field_value(f@, text@),
{
    if f.custom_type.is_some() {
        return ParseValue::Str(string_of(text));
    }
    match try_convert_value(text, &f.spec) {
        Some(Ok(v)) => v,
        _ => ParseValue::Str(string_of(text)),
    }
}

/// The text and span field `f` captured in a match.
fn field_hit_of(
    compiled: &CompiledFormat,
    f: &FieldInfo,
    caps: &Vec<Option<(usize, usize)>>,
    names: &Vec<Option<String>>,
    haystack: &str,
    pos: usize,
) -> (r: Option<(String, (usize, usize))>)
    requires
        well_formed_spans(haystack@, caps@),
        pos + haystack@.len() <= usize::MAX,
    ensures
        match r {
            Some((t, sp)) => field_hit(
                compiled@,
                f@,
                MatchView { names: names_view(names@), caps: caps@, haystack: haystack@, pos: pos as int },
            ) == Some((t@, sp)),
            None => field_hit(
                compiled@,
                f@,
                MatchView { names: names_view(names@), caps: caps@, haystack: haystack@, pos: pos as int },
            ) is None,
        },
{
    let group = if f.is_named {
        let gn = match &f.group_name {
            Some(g) => g.as_str(),
            None => f.name.as_str(),
        };
        find_group(names, gn)
    } else {
        let k = match f.index {
            Some(k) => k,
            None => 0,
        };
        if k < compiled.fixed_group_indices.len() {
            Some(compiled.fixed_group_indices[k])
        } else {
            None
        }
    };
    let g = match group {
        Some(g) => g,
        None => {
            return None;
        },
    };
    if g >= caps.len() {
        return None;
    }
    let (s, e) = match caps[g] {
        Some(sp) => sp,
        None => {
            return None;
        },
    };
    proof {
        assert(caps@[g as int] matches Some(sp) ==> sp.0 <= sp.1 && is_char_offset(haystack@, sp.0 as int)
            && is_char_offset(haystack@, sp.1 as int));
        lemma_char_index_order(haystack@, s as int, e as int);
    }
    let a = byte_to_char_index(haystack, s);
    let b = byte_to_char_index(haystack, e);
    let text = string_of(haystack.substring_char(a, b));
    Some((text, (pos + a, pos + b)))
}

/// Start of a fresh result vector of fixed values.
pub open spec fn value_views(s: Seq<ParseValue>) -> Seq<ValueView> {
    s.map_values(|v: ParseValue| v@)
}

/// Reads the fields of `compiled` from one match: `captures` holds the
/// byte span of each capture group within `haystack` (group 0 being the
/// whole match), `group_names` the name of each group, and `pos` the
/// character position at which `haystack` starts in the input, by which
/// every span is reported. `Ok(None)` when a repeated field was captured
/// before the field it repeats, `Err` when it captured a different value.
pub fn evaluate_match(
    compiled: &CompiledFormat,
    captures: &Vec<Option<(usize, usize)>>,
    group_names: &Vec<Option<String>>,
    haystack: &str,
    pos: usize,
) -> (r: Result<Option<ParseResult>, String>)
    requires
        well_formed_spans(haystack@, captures@),
        pos + haystack@.len() <= usize::MAX,
    ensures
        ({
            let m = MatchView {
                names: names_view(group_names@),
                caps: captures@,
                haystack: haystack@,
                pos: pos as int,
            };
            match r {
                Ok(Some(res)) => evaluation(compiled@, m) == Evaluation::Matched(res@),
                Ok(None) => evaluation(compiled@, m) == Evaluation::Unmatched,
                Err(msg) => evaluation(compiled@, m) == Evaluation::Conflict(msg@),
            }
        }),
{
    let ghost c = compiled@;
    let ghost m = MatchView {
        names: names_view(group_names@),
        caps: captures@,
        haystack: haystack@,
        pos: pos as int,
    };
    let mut fixed: Vec<ParseValue> = Vec::new();
    let mut fixed_spans: Vec<(usize, usize)> = Vec::new();
    let mut flat: FieldMap<ParseValue> = FieldMap::new();
    let mut named_spans: FieldMap<(usize, usize)> = FieldMap::new();
    let mut i: usize = 0;
    proof {
        assert(value_views(fixed@) =~= Seq::<ValueView>::empty());
        assert(value_pairs(flat) =~= Seq::<(Seq<char>, ValueView)>::empty());
        assert(named_spans.pairs() =~= Seq::<(Seq<char>, (usize, usize))>::empty());
    }
    while i < compiled.fields.len()
        invariant
            i <= compiled.fields@.len(),
            c == compiled@,
            c.fields.len() == compiled.fields@.len(),
            m == (MatchView {
                names: names_view(group_names@),
                caps: captures@,
                haystack: haystack@,
                pos: pos as int,
            }),
            well_formed_spans(haystack@, captures@),
            pos + haystack@.len() <= usize::MAX,
            gather(c, m, i as int) == Progress::Going(
                Gathered {
                    fixed: value_views(fixed@),
                    fixed_spans: fixed_spans@,
                    flat: value_pairs(flat),
                    named_spans: named_spans.pairs(),
                },
            ),
        decreases compiled.fields.len() - i,
    {
        let f = &compiled.fields[i];
        let ghost g = Gathered {
            fixed: value_views(fixed@),
            fixed_spans: fixed_spans@,
            flat: value_pairs(flat),
            named_spans: named_spans.pairs(),
        };
        proof {
            assert(c.fields[i as int] == f@);
        }
        match field_hit_of(compiled, f, captures, group_names, haystack, pos) {
            None => {},
            Some((text, span)) => {
                let v = field_value_of(f, text.as_str());
                match &f.repeated_of {
                    Some(rn) => {
                        match get_value(&flat, rn.as_str()) {
                            Some(existing) => {
                                if !parse_values_equal(existing, &v) {
                                    let mut msg = string_of("RepeatedNameError: field '");
                                    push_str(&mut msg, rn.as_str());
                                    push_str(&mut msg, "' matched conflicting values");
                                    proof {
                                        reveal_strlit("RepeatedNameError: field '");
                                        reveal_strlit("' matched conflicting values");
                                        assert(gather(c, m, i + 1) == Progress::Conflict(msg@));
                                        lemma_gather_stops(c, m, i + 1, c.fields.len() as int);
                                    }
                                    return Err(msg);
                                }
                            },
                            None => {
                                proof {
                                    assert(gather(c, m, i + 1) == Progress::Unmatched);
                                    lemma_gather_stops(c, m, i + 1, c.fields.len() as int);
                                }
                                return Ok(None);
                            },
                        }
                    },
                    None => {
                        if f.is_named {
                            insert_value(&mut flat, f.name.clone(), v);
                            named_spans.insert(f.name.clone(), span);
                        } else {
                            fixed.push(v);
                            fixed_spans.push(span);
                            proof {
                                assert(value_views(fixed@) =~= g.fixed.push(v@));
                            }
                        }
                    },
                }
            },
        }
        i = i + 1;
    }
    let named = expand_named_fields(flat);
    let res = ParseResult { fixed, named, fixed_spans, named_spans };
    proof {
        lemma_value_pairs(named);
        assert(res@.fixed =~= value_views(res.fixed@));
    }
    Ok(Some(res))
}

/// The pattern anchored at both ends of the haystack, for exact matches.
pub open spec fn anchored(pattern: Seq<char>) -> Seq<char> {
    "\\A"@ + pattern + "\\z"@
}

/// Why a parser could not be built.
pub enum ParserError {
    /// The format string was refused, with this message.
    Compile(Seq<char>),
    /// The regex engine refused this anchored pattern.
    MatchRegex(Seq<char>),
    /// The regex engine refused this pattern.
    SearchRegex(Seq<char>),
}

/// The parser built from `format`, or why none can be.
pub open spec fn parser_of(
    format: Seq<char>,
    case_sensitive: bool,
    custom: Seq<(Seq<char>, CustomTypePattern)>,
) -> Result<ParserView, ParserError> {
    match compiled_of(format, case_sensitive, custom) {
        Err(m) => Err(ParserError::Compile(m)),
        Ok(c) => if !regex_accepts(anchored(c.pattern)) {
            Err(ParserError::MatchRegex(anchored(c.pattern)))
        } else if !regex_accepts(c.pattern) {
            Err(ParserError::SearchRegex(c.pattern))
        } else {
            Ok(ParserView { format, compiled: c })
        },
    }
}

/// `msg` reports `e`: the compiler's own message, or the refused pattern
/// followed by the regex engine's explanation.
pub open spec fn error_describes(msg: Seq<char>, e: ParserError) -> bool {
    match e {
        ParserError::Compile(m) => msg == m,
        ParserError::MatchRegex(p) => ("Failed to compile match regex '"@ + p + "': "@).is_prefix_of(msg),
        ParserError::SearchRegex(p) => ("Failed to compile search regex '"@ + p + "': "@).is_prefix_of(
            msg,
        ),
    }
}

/// The contract of building a parser: `Ok` exactly when `parser_of` gives
/// one, which is then the parser returned.
pub open spec fn built_as(
    r: Result<Parser, String>,
    format: Seq<char>,
    case_sensitive: bool,
    custom: Seq<(Seq<char>, CustomTypePattern)>,
) -> bool {
    match r {
        Ok(p) => parser_of(format, case_sensitive, custom) == Ok::<ParserView, ParserError>(p@),
        Err(msg) => match parser_of(format, case_sensitive, custom) {
            Err(e) => error_describes(msg@, e),
            Ok(_) => false,
        },
    }
}

/// A compiled parser that can be reused for multiple parse operations.
///
/// It holds the compiled format, the regex for exact matches (the pattern
/// anchored at both ends) and the regex for searches (the pattern alone).
pub struct Parser {
    format: String,
    compiled: CompiledFormat,
    match_re: CompiledRegex,
    search_re: CompiledRegex,
    match_names: Vec<Option<String>>,
    search_names: Vec<Option<String>>,
}

/// The mathematical counterpart of `Parser`.
pub struct ParserView {
    pub format: Seq<char>,
    pub compiled: CompiledView,
}

impl View for Parser {
    type V = ParserView;

    closed spec fn view(&self) -> ParserView {
        ParserView { format: self.format@, compiled: self.compiled@ }
    }
}

/// What an exact match of the whole input yields.
pub open spec fn parse_outcome(p: ParserView, input: Seq<char>) -> Evaluation {
    let pat = anchored(p.compiled.pattern);
    match regex_captures(pat, input) {
        None => Evaluation::Unmatched,
        Some(caps) => evaluation(
            p.compiled,
            MatchView { names: regex_capture_names(pat), caps, haystack: input, pos: 0 },
        ),
    }
}

/// What the first match within characters `pos..endpos` of the input
/// yields.
pub open spec fn search_outcome(p: ParserView, input: Seq<char>, pos: usize, endpos: Option<usize>) -> Evaluation {
    let e = char_range_end(input.len(), endpos);
    if pos > e {
        Evaluation::Unmatched
    } else {
        let hay = input.subrange(pos as int, e as int);
        match regex_captures(p.compiled.pattern, hay) {
            None => Evaluation::Unmatched,
            Some(caps) => evaluation(
                p.compiled,
                MatchView {
                    names: regex_capture_names(p.compiled.pattern),
                    caps,
                    haystack: hay,
                    pos: pos as int,
                },
            ),
        }
    }
}

/// The results of the first `k` of the matches `all`, those that yield
/// one, in order.
pub open spec fn matched_results(
    c: CompiledView,
    names: Seq<Option<Seq<char>>>,
    all: Seq<Seq<Option<(usize, usize)>>>,
    hay: Seq<char>,
    pos: int,
    k: int,
) -> Seq<ResultView>
    decreases k,
{
    if k <= 0 {
        Seq::empty()
    } else {
        let prev = matched_results(c, names, all, hay, pos, k - 1);
        match evaluation(c, MatchView { names, caps: all[k - 1], haystack: hay, pos }) {
            Evaluation::Matched(r) => prev.push(r),
            _ => prev,
        }
    }
}

/// What every match within characters `pos..endpos` of the input yields.
pub open spec fn findall_outcome(p: ParserView, input: Seq<char>, pos: usize, endpos: Option<usize>) -> Seq<
    ResultView,
> {
    let e = char_range_end(input.len(), endpos);
    if pos > e {
        Seq::empty()
    } else {
        let hay = input.subrange(pos as int, e as int);
        let all = regex_captures_all(p.compiled.pattern, hay);
        matched_results(
            p.compiled,
            regex_capture_names(p.compiled.pattern),
            all,
            hay,
            pos as int,
            all.len() as int,
        )
    }
}

pub open spec fn result_views(s: Seq<ParseResult>) -> Seq<ResultView> {
    s.map_values(|r: ParseResult| r@)
}

/// The result of an evaluation, `None` unless it matched.
fn matched(r: Result<Option<ParseResult>, String>) -> (o: Option<ParseResult>)
    ensures
        match o {
            Some(res) => r == Ok::<Option<ParseResult>, String>(Some(res)),
            None => !(r matches Ok(Some(_))),
        },
{
    match r {
        Ok(Some(res)) => Some(res),
        _ => None,
    }
}

impl Parser {
    #[verifier::type_invariant]
    closed spec fn consistent(self) -> bool {
        &&& self.match_re@ == anchored(self.compiled.pattern@)
        &&& self.search_re@ == self.compiled.pattern@
        &&& names_view(self.match_names@) == regex_capture_names(anchored(self.compiled.pattern@))
        &&& names_view(self.search_names@) == regex_capture_names(self.compiled.pattern@)
    }

    /// Create a new Parser from a format string.
    ///
    /// Compiles the format string into regex patterns and prepares
    /// the parser for matching operations.
    pub fn new(format: &str, case_sensitive: bool) -> (r: Result<Parser, String>)
        ensures
            built_as(r, format@, case_sensitive, Seq::empty()),
    {
        match compile_format(format, case_sensitive) {
            Ok(compiled) => Self::from_compiled(format, compiled, Ghost(case_sensitive), Ghost(Seq::empty())),
            Err(m) => Err(m),
        }
    }

    /// Create a new Parser whose fields may use the type names registered
    /// in `custom_types`.
    pub fn new_with_custom(format: &str, case_sensitive: bool, custom_types: &FieldMap<CustomTypePattern>) -> (r: Result<
        Parser,
        String,
    >)
        ensures
            built_as(r, format@, case_sensitive, custom_types.pairs()),
    {
        match compile_format_with_custom(format, case_sensitive, custom_types) {
            Ok(compiled) => Self::from_compiled(
                format,
                compiled,
                Ghost(case_sensitive),
                Ghost(custom_types.pairs()),
            ),
            Err(m) => Err(m),
        }
    }

    fn from_compiled(
        format: &str,
        compiled: CompiledFormat,
        Ghost(case_sensitive): Ghost<bool>,
        Ghost(custom): Ghost<Seq<(Seq<char>, CustomTypePattern)>>,
    ) -> (r: Result<Parser, String>)
        requires
            compiled_of(format@, case_sensitive, custom) == Ok::<CompiledView, Seq<char>>(compiled@),
        ensures
            built_as(r, format@, case_sensitive, custom),
    {
        let mut match_pattern = string_of("\\A");
        push_str(&mut match_pattern, compiled.pattern.as_str());
        push_str(&mut match_pattern, "\\z");
        proof {
            reveal_strlit("\\A");
            reveal_strlit("\\z");
            assert(match_pattern@ == anchored(compiled.pattern@));
        }
        let match_re = match CompiledRegex::compile(match_pattern.as_str()) {
            Ok(re) => re,
            Err(e) => {
                let mut msg = string_of("Failed to compile match regex '");
                push_str(&mut msg, match_pattern.as_str());
                push_str(&mut msg, "': ");
                let ghost head = msg@;
                push_str(&mut msg, regex_error_message(&e).as_str());
                proof {
                    reveal_strlit("Failed to compile match regex '");
                    reveal_strlit("': ");
                    assert(msg@.take(head.len() as int) =~= head);
                }
                return Err(msg);
            },
        };
        let search_re = match CompiledRegex::compile(compiled.pattern.as_str()) {
            Ok(re) => re,
            Err(e) => {
                let mut msg = string_of("Failed to compile search regex '");
                push_str(&mut msg, compiled.pattern.as_str());
                push_str(&mut msg, "': ");
                let ghost head = msg@;
                push_str(&mut msg, regex_error_message(&e).as_str());
                proof {
                    reveal_strlit("Failed to compile search regex '");
                    reveal_strlit("': ");
                    assert(msg@.take(head.len() as int) =~= head);
                }
                return Err(msg);
            },
        };
        let match_names = match_re.capture_names();
        let search_names = search_re.capture_names();
        proof {
            assert(names_view(match_names@) =~= regex_capture_names(match_re@));
            assert(names_view(search_names@) =~= regex_capture_names(search_re@));
        }
        Ok(Parser { format: string_of(format), compiled, match_re, search_re, match_names, search_names })
    }

    /// Get the original format string.
    pub fn format_string(&self) -> (r: &str)
        ensures
            r@ == self@.format,
    {
        self.format.as_str()
    }

    /// Get the compiled regex pattern string.
    pub fn pattern(&self) -> (r: &str)
        ensures
            r@ == self@.compiled.pattern,
    {
        self.compiled.pattern.as_str()
    }

    /// Get the list of named field names.
    pub fn named_fields(&self) -> (r: &[String])
        ensures
            string_views(r@) == self@.compiled.named_fields,
    {
        self.compiled.named_fields.as_slice()
    }

    /// Get the list of fixed (positional) field indices.
    pub fn fixed_fields(&self) -> (r: &[usize])
        ensures
            r@ == self@.compiled.fixed_fields,
    {
        self.compiled.fixed_fields.as_slice()
    }

    /// Get the compiled fields, in the order they appear.
    pub fn fields(&self) -> (r: &[FieldInfo])
        ensures
            crate::compiler::field_views(r@) == self@.compiled.fields,
    {
        self.compiled.fields.as_slice()
    }

    /// Parse a string for an exact match against the format.
    ///
    /// The entire string must match the format pattern.
    /// Returns None if the string does not match.
    pub fn parse(&self, input: &str) -> (r: Option<ParseResult>)
        ensures
            match r {
                Some(res) => parse_outcome(self@, input@) == Evaluation::Matched(res@),
                None => !(parse_outcome(self@, input@) is Matched),
            },
    {
        matched(self.parse_with_error(input))
    }

    /// Like `parse`, but a repeated field that captured a value different
    /// from the first is reported as an error.
    pub fn parse_with_error(&self, input: &str) -> (r: Result<Option<ParseResult>, String>)
        ensures
            match r {
                Ok(Some(res)) => parse_outcome(self@, input@) == Evaluation::Matched(res@),
                Ok(None) => parse_outcome(self@, input@) == Evaluation::Unmatched,
                Err(msg) => parse_outcome(self@, input@) == Evaluation::Conflict(msg@),
            },
    {
        proof {
            use_type_invariant(self);
        }
        char_count_fits(input);
        match self.match_re.captures(input) {
            None => Ok(None),
            Some(caps) => evaluate_match(&self.compiled, &caps, &self.match_names, input, 0),
        }
    }

    /// Search for the format pattern anywhere in characters `pos..endpos`
    /// of the string (to its end when `endpos` is absent or beyond it).
    pub fn search(&self, input: &str, pos: usize, endpos: Option<usize>) -> (r: Option<ParseResult>)
        ensures
            match r {
                Some(res) => search_outcome(self@, input@, pos, endpos) == Evaluation::Matched(res@),
                None => !(search_outcome(self@, input@, pos, endpos) is Matched),
            },
    {
        proof {
            use_type_invariant(self);
        }
        let (sub, _offset) = match slice_for_char_range(input, pos, endpos) {
            Some(found) => found,
            None => {
                return None;
            },
        };
        char_count_fits(input);
        match self.search_re.captures(sub) {
            None => None,
            Some(caps) => matched(evaluate_match(&self.compiled, &caps, &self.search_names, sub, pos)),
        }
    }

    /// Find all matches of the format pattern within characters
    /// `pos..endpos` of the string, in order; matches whose repeated fields
    /// disagree are left out. What `search` finds in the same range comes
    /// first.
    pub fn findall(&self, input: &str, pos: usize, endpos: Option<usize>) -> (r: Vec<ParseResult>)
        ensures
            result_views(r@) == findall_outcome(self@, input@, pos, endpos),
            ({
                let e = char_range_end(input@.len(), endpos);
                let hay = input@.subrange(pos as int, e as int);
                pos <= e ==> ordered_matches(hay, regex_captures_all(self@.compiled.pattern, hay))
            }),
            search_outcome(self@, input@, pos, endpos) matches Evaluation::Matched(res) ==> result_views(
                r@,
            ).len() > 0 && result_views(r@)[0] == res,
    {
        proof {
            use_type_invariant(self);
        }
        let (sub, _offset) = match slice_for_char_range(input, pos, endpos) {
            Some(found) => found,
            None => {
                let empty: Vec<ParseResult> = Vec::new();
                proof {
                    assert(result_views(empty@) =~= Seq::<ResultView>::empty());
                }
                return empty;
            },
        };
        char_count_fits(input);
        let all = self.search_re.captures_all(sub);
        let ghost c = self.compiled@;
        let ghost names = regex_capture_names(self.compiled.pattern@);
        let ghost alls = regex_captures_all(self.compiled.pattern@, sub@);
        proof {
            assert forall|i: int| 0 <= i && i + 1 < alls.len() implies match_end(#[trigger] alls[i])
                <= match_start(alls[i + 1]) by {
                assert(all@[i]@ == alls[i]);
                assert(all@[i + 1]@ == alls[i + 1]);
            }
            assert forall|i: int| 0 <= i < alls.len() implies well_formed_spans(sub@, #[trigger] alls[i]) by {
                assert(all@[i]@ == alls[i]);
            }
        }
        proof {
            if let Evaluation::Matched(res) = search_outcome(self@, input@, pos, endpos) {
                assert(alls.len() > 0 && alls[0] == all@[0]@);
                lemma_first_result(c, names, alls, sub@, pos as int, alls.len() as int, res);
            }
        }
        let mut results: Vec<ParseResult> = Vec::new();
        let mut i: usize = 0;
        proof {
            assert(result_views(results@) =~= Seq::<ResultView>::empty());
        }
        while i < all.len()
            invariant
                i <= all@.len(),
                all@.len() == alls.len(),
                forall|j: int|
                    0 <= j < all@.len() ==> #[trigger] all@[j]@ == alls[j] && well_formed_spans(
                        sub@,
                        all@[j]@,
                    ),
                c == self.compiled@,
                names == names_view(self.search_names@),
                pos + sub@.len() <= usize::MAX,
                result_views(results@) == matched_results(c, names, alls, sub@, pos as int, i as int),
            decreases all.len() - i,
        {
            let ghost before = results@;
            let r = evaluate_match(&self.compiled, &all[i], &self.search_names, sub, pos);
            proof {
                assert(all@[i as int]@ == alls[i as int]);
            }
            match r {
                Ok(Some(res)) => {
                    results.push(res);
                    proof {
                        assert(result_views(results@) =~= result_views(before).push(res@));
                    }
                },
                _ => {},
            }
            i = i + 1;
        }
        results
    }
}

/// Where the first of the matches `all` yields `res`, `res` comes first
/// among their results.
proof fn lemma_first_result(
    c: CompiledView,
    names: Seq<Option<Seq<char>>>,
    all: Seq<Seq<Option<(usize, usize)>>>,
    hay: Seq<char>,
    pos: int,
    k: int,
    res: ResultView,
)
    requires
        1 <= k <= all.len(),
        evaluation(c, MatchView { names, caps: all[0], haystack: hay, pos }) == Evaluation::Matched(res),
    ensures
        matched_results(c, names, all, hay, pos, k).len() > 0,
        matched_results(c, names, all, hay, pos, k)[0] == res,
    decreases k,
{
    reveal_with_fuel(matched_results, 2);
    if k > 1 {
        lemma_first_result(c, names, all, hay, pos, k - 1, res);
    }
}

/// `parse_with_error` fails only where the whole input matches and a
/// repeated field captured a value not equal to the first one under its
/// name; its message then starts with `RepeatedNameError:`. Where the input
/// does not match, there is no error.
pub proof fn law_parse_error_only_from_repeated_field(p: ParserView, input: Seq<char>)
    ensures
        parse_outcome(p, input) matches Evaluation::Conflict(msg) ==> {
            let pat = anchored(p.compiled.pattern);
            &&& regex_captures(pat, input) is Some
            &&& exists|j: int|
                #[trigger] conflict_at(
                    p.compiled,
                    MatchView {
                        names: regex_capture_names(pat),
                        caps: regex_captures(pat, input)->0,
                        haystack: input,
                        pos: 0,
                    },
                    j,
                    msg,
                )
            &&& "RepeatedNameError:"@.is_prefix_of(msg)
        },
        regex_captures(anchored(p.compiled.pattern), input) is None ==> parse_outcome(p, input)
            == Evaluation::Unmatched,
{
    let pat = anchored(p.compiled.pattern);
    if let Some(caps) = regex_captures(pat, input) {
        law_conflict_only_from_repeated_field(
            p.compiled,
            MatchView { names: regex_capture_names(pat), caps, haystack: input, pos: 0 },
        );
    }
}

/// Maximum number of cached parsers to prevent unbounded memory growth.
pub const MAX_CACHE_SIZE: usize = 128;

/// `Arc::clone`: another handle to the same parser.
#[verifier::external_body]
fn share(p: &Arc<Parser>) -> (r: Arc<Parser>)
    ensures
        r == *p,
{
    Arc::clone(p)
}

/// Parsers already built, keyed by format string within each case mode.
pub struct ParserCache {
    insensitive: FieldMap<Arc<Parser>>,
    sensitive: FieldMap<Arc<Parser>>,
}

/// Every parser in `m` is the one its format string builds.
pub open spec fn faithful(m: Seq<(Seq<char>, Arc<Parser>)>, case_sensitive: bool) -> bool {
    forall|i: int|
        0 <= i < m.len() ==> parser_of((#[trigger] m[i]).0, case_sensitive, Seq::empty()) == Ok::<
            ParserView,
            ParserError,
        >(m[i].1@)
}

impl ParserCache {
    #[verifier::type_invariant]
    closed spec fn well_formed(self) -> bool {
        &&& faithful(self.insensitive.pairs(), false)
        &&& faithful(self.sensitive.pairs(), true)
        &&& self.insensitive.entries@.len() + self.sensitive.entries@.len() <= MAX_CACHE_SIZE
    }

    /// The number of parsers held.
    pub closed spec fn size(self) -> nat {
        self.insensitive.entries@.len() + self.sensitive.entries@.len()
    }

    /// Whether a parser for `format` in this case mode is held.
    pub closed spec fn holds(self, format: Seq<char>, case_sensitive: bool) -> bool {
        if case_sensitive {
            lookup(self.sensitive.pairs(), format) is Some
        } else {
            lookup(self.insensitive.pairs(), format) is Some
        }
    }

    /// An empty cache.
    pub fn new() -> (c: ParserCache)
        ensures
            c.size() == 0,
    {
        let c = ParserCache { insensitive: FieldMap::new(), sensitive: FieldMap::new() };
        proof {
            assert(c.insensitive.pairs() =~= Seq::<(Seq<char>, Arc<Parser>)>::empty());
            assert(c.sensitive.pairs() =~= Seq::<(Seq<char>, Arc<Parser>)>::empty());
        }
        c
    }

    fn clear_all(&mut self)
        ensures
            final(self).size() == 0,
    {
        proof {
            use_type_invariant(&*self);
        }
        let empty: FieldMap<Arc<Parser>> = FieldMap::new();
        proof {
            assert(empty.pairs() =~= Seq::<(Seq<char>, Arc<Parser>)>::empty());
        }
        self.insensitive = empty;
        let empty: FieldMap<Arc<Parser>> = FieldMap::new();
        proof {
            assert(empty.pairs() =~= Seq::<(Seq<char>, Arc<Parser>)>::empty());
        }
        self.sensitive = empty;
    }

    /// Empties the cache once it holds `MAX_CACHE_SIZE` parsers, making
    /// room for one more.
    fn clear_if_full(&mut self)
        ensures
            final(self).size() < MAX_CACHE_SIZE,
            old(self).size() < MAX_CACHE_SIZE ==> *final(self) == *old(self),
            old(self).size() >= MAX_CACHE_SIZE ==> final(self).size() == 0,
    {
        proof {
            use_type_invariant(&*self);
        }
        if self.insensitive.len() + self.sensitive.len() >= MAX_CACHE_SIZE {
            self.clear_all();
        }
    }
}

/// Empties the parser cache.
pub fn clear_cache(cache: &mut ParserCache)
    ensures
        final(cache).size() == 0,
        forall|f: Seq<char>, cs: bool| !final(cache).holds(f, cs),
{
    cache.clear_all();
    proof {
        assert forall|f: Seq<char>, cs: bool| !cache.holds(f, cs) by {
            crate::result::lemma_key_index_props(cache.sensitive.pairs(), f);
            crate::result::lemma_key_index_props(cache.insensitive.pairs(), f);
        }
    }
}

/// The parser for `format` in this case mode: the one held in the cache,
/// or a new one, which is then held (the cache emptied first when full).
/// `None` when the format cannot be compiled. Whether or not it came from
/// the cache, the parser is the one `Parser::new` builds.
pub fn cached_parser(cache: &mut ParserCache, format: &str, case_sensitive: bool) -> (r: Option<Arc<Parser>>)
    ensures
        match r {
            Some(p) => parser_of(format@, case_sensitive, Seq::empty()) == Ok::<ParserView, ParserError>(
                p@,
            ),
            None => parser_of(format@, case_sensitive, Seq::empty()) is Err,
        },
        r is Some ==> final(cache).holds(format@, case_sensitive),
        old(cache).holds(format@, case_sensitive) ==> *final(cache) == *old(cache),
        final(cache).size() <= MAX_CACHE_SIZE,
{
    proof {
        use_type_invariant(&*cache);
    }
    let found = if case_sensitive {
        cache.sensitive.position(format)
    } else {
        cache.insensitive.position(format)
    };
    match found {
        Some(i) => {
            let p = if case_sensitive {
                share(&cache.sensitive.entries[i].1)
            } else {
                share(&cache.insensitive.entries[i].1)
            };
            proof {
                crate::result::lemma_key_index_props(cache.sensitive.pairs(), format@);
                crate::result::lemma_key_index_props(cache.insensitive.pairs(), format@);
                if case_sensitive {
                    assert(cache.sensitive.pairs()[i as int].0 == format@);
                } else {
                    assert(cache.insensitive.pairs()[i as int].0 == format@);
                }
            }
            return Some(p);
        },
        None => {
            proof {
                crate::result::lemma_key_index_props(cache.sensitive.pairs(), format@);
                crate::result::lemma_key_index_props(cache.insensitive.pairs(), format@);
            }
        },
    }
    let parser = match Parser::new(format, case_sensitive) {
        Ok(p) => Arc::new(p),
        Err(_) => {
            return None;
        },
    };
    cache.clear_if_full();
    proof {
        use_type_invariant(&*cache);
    }
    let kept = share(&parser);
    if case_sensitive {
        let mut m: FieldMap<Arc<Parser>> = FieldMap::new();
        std::mem::swap(&mut m, &mut cache.sensitive);
        let ghost before = m.pairs();
        m.insert(string_of(format), kept);
        proof {
            crate::result::lemma_key_index_props(before, format@);
            crate::result::lemma_key_index_props(m.pairs(), format@);
            match crate::result::key_index(before, format@) {
                Some(k) => assert(m.pairs()[k].0 == format@),
                None => assert(m.pairs()[before.len() as int].0 == format@),
            }
        }
        cache.sensitive = m;
    } else {
        let mut m: FieldMap<Arc<Parser>> = FieldMap::new();
        std::mem::swap(&mut m, &mut cache.insensitive);
        let ghost before = m.pairs();
        m.insert(string_of(format), kept);
        proof {
            crate::result::lemma_key_index_props(before, format@);
            crate::result::lemma_key_index_props(m.pairs(), format@);
            match crate::result::key_index(before, format@) {
                Some(k) => assert(m.pairs()[k].0 == format@),
                None => assert(m.pairs()[before.len() as int].0 == format@),
            }
        }
        cache.insensitive = m;
    }
    proof {
        use_type_invariant(&*cache);
    }
    Some(parser)
}

/// Convenience function: parse a string with a format pattern.
///
/// This is `Parser::new(format, case_sensitive)` followed by `parse`;
/// `None` also when the format cannot be compiled.
pub fn parse(format: &str, input: &str, case_sensitive: bool) -> (r: Option<ParseResult>)
    ensures
        match parser_of(format@, case_sensitive, Seq::empty()) {
            Ok(pv) => match r {
                Some(res) => parse_outcome(pv, input@) == Evaluation::Matched(res@),
                None => !(parse_outcome(pv, input@) is Matched),
            },
            Err(_) => r is None,
        },
{
    match Parser::new(format, case_sensitive) {
        Ok(p) => p.parse(input),
        Err(_) => None,
    }
}

/// Convenience function: search for a format pattern in characters
/// `pos..endpos` of a string.
pub fn search(format: &str, input: &str, pos: usize, endpos: Option<usize>, case_sensitive: bool) -> (r:
    Option<ParseResult>)
    ensures
        match parser_of(format@, case_sensitive, Seq::empty()) {
            Ok(pv) => match r {
                Some(res) => search_outcome(pv, input@, pos, endpos) == Evaluation::Matched(res@),
                None => !(search_outcome(pv, input@, pos, endpos) is Matched),
            },
            Err(_) => r is None,
        },
{
    match Parser::new(format, case_sensitive) {
        Ok(p) => p.search(input, pos, endpos),
        Err(_) => None,
    }
}

/// Convenience function: find all matches of a format pattern in
/// characters `pos..endpos` of a string.
pub fn findall(format: &str, input: &str, pos: usize, endpos: Option<usize>, case_sensitive: bool) -> (r:
    Vec<ParseResult>)
    ensures
        match parser_of(format@, case_sensitive, Seq::empty()) {
            Ok(pv) => result_views(r@) == findall_outcome(pv, input@, pos, endpos) && (search_outcome(
                pv,
                input@,
                pos,
                endpos,
            ) matches Evaluation::Matched(res) ==> result_views(r@).len() > 0 && result_views(r@)[0]
                == res),
            Err(_) => r@.len() == 0,
        },
{
    match Parser::new(format, case_sensitive) {
        Ok(p) => p.findall(input, pos, endpos),
        Err(_) => Vec::new(),
    }
}


/// `sp` is a span from `lo` to `hi` or inside it.
pub open spec fn span_inside(sp: (usize, usize), lo: int, hi: int) -> bool {
    lo <= sp.0 <= sp.1 <= hi
}

/// Each positional value has its span, and every span lies inside
/// `lo..hi`.
pub open spec fn spans_inside(g: Gathered, lo: int, hi: int) -> bool {
    &&& g.fixed.len() == g.fixed_spans.len()
    &&& forall|i: int| 0 <= i < g.fixed_spans.len() ==> span_inside(#[trigger] g.fixed_spans[i], lo, hi)
    &&& forall|i: int| 0 <= i < g.named_spans.len() ==> span_inside((#[trigger] g.named_spans[i]).1, lo, hi)
}

/// The characters the whole match covers, counted in the whole input.
pub open spec fn match_chars(m: MatchView) -> (int, int) {
    (
        m.pos + char_index_at(m.haystack, match_start(m.caps)),
        m.pos + char_index_at(m.haystack, match_end(m.caps)),
    )
}

/// The whole match lies within the searched text.
proof fn lemma_match_chars(m: MatchView)
    requires
        well_formed_spans(m.haystack, m.caps),
    ensures
        m.pos <= match_chars(m).0 <= match_chars(m).1 <= m.pos + m.haystack.len(),
{
    let sp = m.caps[0]->0;
    lemma_char_index_order(m.haystack, sp.0 as int, sp.1 as int);
}

proof fn lemma_hit_inside(c: CompiledView, f: FieldView, m: MatchView)
    requires
        well_formed_spans(m.haystack, m.caps),
        0 <= m.pos,
        m.pos + m.haystack.len() <= usize::MAX,
    ensures
        field_hit(c, f, m) matches Some((t, sp)) ==> span_inside(sp, match_chars(m).0, match_chars(m).1),
{
    match field_group(c, f, m.names) {
        Some(g) => if 0 <= g < m.caps.len() {
            match m.caps[g] {
                Some(sp) => {
                    let whole = m.caps[0]->0;
                    assert(m.caps[0] matches Some(w) ==> w.0 <= w.1 && is_char_offset(m.haystack, w.0 as int));
                    lemma_char_index_order(m.haystack, whole.0 as int, sp.0 as int);
                    lemma_char_index_order(m.haystack, sp.0 as int, sp.1 as int);
                    lemma_char_index_order(m.haystack, sp.1 as int, whole.1 as int);
                },
                None => {},
            }
        },
        None => {},
    }
}

proof fn lemma_store_inside(
    s: Seq<(Seq<char>, (usize, usize))>,
    k: Seq<char>,
    sp: (usize, usize),
    lo: int,
    hi: int,
)
    requires
        forall|i: int| 0 <= i < s.len() ==> span_inside((#[trigger] s[i]).1, lo, hi),
        span_inside(sp, lo, hi),
    ensures
        forall|i: int| 0 <= i < store(s, k, sp).len() ==> span_inside((#[trigger] store(s, k, sp)[i]).1, lo, hi),
{
    crate::result::lemma_key_index_props(s, k);
}

proof fn lemma_gather_inside(c: CompiledView, m: MatchView, k: int)
    requires
        well_formed_spans(m.haystack, m.caps),
        0 <= m.pos,
        m.pos + m.haystack.len() <= usize::MAX,
        0 <= k <= c.fields.len(),
    ensures
        gather(c, m, k) matches Progress::Going(g) ==> spans_inside(g, match_chars(m).0, match_chars(m).1),
    decreases k,
{
    if k > 0 {
        lemma_gather_inside(c, m, k - 1);
        let f = c.fields[k - 1];
        lemma_hit_inside(c, f, m);
        match gather(c, m, k - 1) {
            Progress::Going(g) => {
                match field_hit(c, f, m) {
                    Some((t, sp)) => {
                        lemma_store_inside(g.named_spans, f.name, sp, match_chars(m).0, match_chars(m).1);
                    },
                    None => {},
                }
            },
            _ => {},
        }
    }
}

/// Every span of a result, positional ones first.
pub open spec fn span_list(r: ResultView) -> Seq<(usize, usize)> {
    r.fixed_spans + r.named_spans.map_values(|e: (Seq<char>, (usize, usize))| e.1)
}

/// Every span of `r` lies inside `lo..hi`.
pub open spec fn spans_within(r: ResultView, lo: int, hi: int) -> bool {
    forall|i: int| 0 <= i < span_list(r).len() ==> span_inside(#[trigger] span_list(r)[i], lo, hi)
}

proof fn lemma_result_within(c: CompiledView, m: MatchView)
    requires
        well_formed_spans(m.haystack, m.caps),
        0 <= m.pos,
        m.pos + m.haystack.len() <= usize::MAX,
    ensures
        evaluation(c, m) matches Evaluation::Matched(r) ==> r.fixed.len() == r.fixed_spans.len()
            && spans_within(r, match_chars(m).0, match_chars(m).1),
{
    lemma_gather_inside(c, m, c.fields.len() as int);
    if evaluation(c, m) is Matched {
        let r = evaluation(c, m)->Matched_0;
        let l = span_list(r);
        assert forall|i: int| 0 <= i < l.len() implies span_inside(#[trigger] l[i], match_chars(m).0, match_chars(m).1) by {
            if i >= r.fixed_spans.len() {
                assert(l[i] == r.named_spans[i - r.fixed_spans.len()].1);
            } else {
                assert(l[i] == r.fixed_spans[i]);
            }
        }
    }
}

/// A match yields one span per positional value, and every span, of a
/// positional or a named field, lies within the whole match, and so
/// within the text that was searched, counted in characters of the whole
/// input.
pub proof fn law_spans_within_match(c: CompiledView, m: MatchView)
    requires
        well_formed_spans(m.haystack, m.caps),
        0 <= m.pos,
        m.pos + m.haystack.len() <= usize::MAX,
    ensures
        evaluation(c, m) matches Evaluation::Matched(r) ==> {
            &&& r.fixed.len() == r.fixed_spans.len()
            &&& spans_within(r, match_chars(m).0, match_chars(m).1)
            &&& spans_within(r, m.pos, m.pos + m.haystack.len())
        },
{
    lemma_result_within(c, m);
    lemma_match_chars(m);
}

/// Successive matches as `captures_all` reports them: each well formed,
/// each ending before the next begins.
pub open spec fn ordered_matches(hay: Seq<char>, all: Seq<Seq<Option<(usize, usize)>>>) -> bool {
    &&& forall|i: int| 0 <= i < all.len() ==> well_formed_spans(hay, #[trigger] all[i])
    &&& forall|i: int| 0 <= i && i + 1 < all.len() ==> match_end(#[trigger] all[i]) <= match_start(all[i + 1])
}

/// The positions, among `all[..k]`, of the matches that yield a result.
pub open spec fn matched_positions(
    c: CompiledView,
    names: Seq<Option<Seq<char>>>,
    all: Seq<Seq<Option<(usize, usize)>>>,
    hay: Seq<char>,
    pos: int,
    k: int,
) -> Seq<int>
    decreases k,
{
    if k <= 0 {
        Seq::empty()
    } else {
        let prev = matched_positions(c, names, all, hay, pos, k - 1);
        match evaluation(c, MatchView { names, caps: all[k - 1], haystack: hay, pos }) {
            Evaluation::Matched(_) => prev.push(k - 1),
            _ => prev,
        }
    }
}

proof fn lemma_matched_positions(
    c: CompiledView,
    names: Seq<Option<Seq<char>>>,
    all: Seq<Seq<Option<(usize, usize)>>>,
    hay: Seq<char>,
    pos: int,
    k: int,
)
    requires
        0 <= k <= all.len(),
    ensures
        ({
            let idx = matched_positions(c, names, all, hay, pos, k);
            let rs = matched_results(c, names, all, hay, pos, k);
            &&& idx.len() == rs.len()
            &&& forall|x: int| 0 <= x < idx.len() ==> 0 <= #[trigger] idx[x] < k
            &&& forall|x: int, y: int| 0 <= x < y < idx.len() ==> #[trigger] idx[x] < #[trigger] idx[y]
            &&& forall|x: int|
                0 <= x < idx.len() ==> evaluation(
                    c,
                    MatchView { names, caps: all[#[trigger] idx[x]], haystack: hay, pos },
                ) == Evaluation::Matched(rs[x])
        }),
    decreases k,
{
    if k > 0 {
        lemma_matched_positions(c, names, all, hay, pos, k - 1);
    }
}

/// A match that comes earlier ends, in characters, before a later one
/// starts.
proof fn lemma_matches_ordered(hay: Seq<char>, all: Seq<Seq<Option<(usize, usize)>>>, i: int, j: int)
    requires
        ordered_matches(hay, all),
        0 <= i < j < all.len(),
    ensures
        match_end(all[i]) <= match_start(all[j]),
    decreases j - i,
{
    if i + 1 < j {
        lemma_matches_ordered(hay, all, i + 1, j);
        assert(well_formed_spans(hay, all[i + 1]));
        assert(all[i + 1][0] matches Some(sp) ==> sp.0 <= sp.1);
    } else {
        assert(match_end(all[i]) <= match_start(all[i + 1]));
    }
}

/// All spans of `a` end no later than any span of `b` starts.
pub open spec fn spans_before(a: ResultView, b: ResultView) -> bool {
    forall|i: int, j: int|
        0 <= i < span_list(a).len() && 0 <= j < span_list(b).len() ==> (#[trigger] span_list(a)[i]).1
            <= (#[trigger] span_list(b)[j]).0
}

/// `findall` yields its results in the order of the text: every span of
/// an earlier result ends no later than any span of a later one starts.
pub proof fn law_findall_in_order(
    c: CompiledView,
    names: Seq<Option<Seq<char>>>,
    all: Seq<Seq<Option<(usize, usize)>>>,
    hay: Seq<char>,
    pos: int,
)
    requires
        ordered_matches(hay, all),
        0 <= pos,
        pos + hay.len() <= usize::MAX,
    ensures
        ({
            let rs = matched_results(c, names, all, hay, pos, all.len() as int);
            forall|x: int, y: int| 0 <= x < y < rs.len() ==> spans_before(#[trigger] rs[x], #[trigger] rs[y])
        }),
{
    let n = all.len() as int;
    let rs = matched_results(c, names, all, hay, pos, n);
    let idx = matched_positions(c, names, all, hay, pos, n);
    lemma_matched_positions(c, names, all, hay, pos, n);
    assert forall|x: int, y: int| 0 <= x < y < rs.len() implies spans_before(#[trigger] rs[x], #[trigger] rs[y]) by {
        let i = idx[x];
        let j = idx[y];
        let mi = MatchView { names, caps: all[i], haystack: hay, pos };
        let mj = MatchView { names, caps: all[j], haystack: hay, pos };
        assert(well_formed_spans(hay, all[i]));
        assert(well_formed_spans(hay, all[j]));
        lemma_result_within(c, mi);
        lemma_result_within(c, mj);
        lemma_matches_ordered(hay, all, i, j);
        assert(all[i][0] matches Some(sp) ==> is_char_offset(hay, sp.1 as int));
        assert(all[j][0] matches Some(sp) ==> is_char_offset(hay, sp.0 as int));
        lemma_char_index_order(hay, match_end(all[i]), match_start(all[j]));
        assert forall|a: int, b: int|
            0 <= a < span_list(rs[x]).len() && 0 <= b < span_list(rs[y]).len() implies (#[trigger] span_list(
            rs[x],
        )[a]).1 <= (#[trigger] span_list(rs[y])[b]).0 by {
            assert(span_inside(span_list(rs[x])[a], match_chars(mi).0, match_chars(mi).1));
            assert(span_inside(span_list(rs[y])[b], match_chars(mj).0, match_chars(mj).1));
        }
    }
}

} // verus!
