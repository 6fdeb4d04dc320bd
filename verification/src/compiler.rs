//! Format string compiler.
//!
//! Compiles Python-style format strings (e.g., "Hello {name:d}!")
//! into regular expressions for matching against input strings.
//! This is the core of the library: it turns the
//! format mini-language into regex capture groups.

use crate::numbers::{is_ascii_digit, scan_digits, usize_from_digits};
use crate::result::{FieldMap, get_str, insert_str, key_index, lemma_key_index_props, lookup, store, str_pairs};
use crate::text::{alphabetic, char_is_alphabetic, find_char, first_index, lemma_first_index, lemma_len_le_byte_len, str_equal, chars_of, push_char, push_str, string_of, string_of_range};
use crate::types::{FormatType, TypeView, type_is_numeric, type_named, type_pattern};
use vstd::prelude::*;

verus! {

/// Characters that have special meaning in regex and need escaping.
pub open spec fn is_regex_special(c: char) -> bool {
    c == '.' || c == '^' || c == '$' || c == '*' || c == '+' || c == '?' || c == '(' || c == ')'
        || c == '[' || c == ']' || c == '{' || c == '}' || c == '|' || c == '\\'
}

/// `s` with a backslash in front of every regex special character.
pub open spec fn escaped(s: Seq<char>) -> Seq<char>
    decreases s.len(),
{
    if s.len() == 0 {
        Seq::empty()
    } else if is_regex_special(s[0]) {
        seq!['\\', s[0]] + escaped(s.skip(1))
    } else {
        seq![s[0]] + escaped(s.skip(1))
    }
}

/// Escaping writes a backslash before each of the regex metacharacters
/// `. ^ $ * + ? ( ) [ ] { } | \` and keeps every other character as it is,
/// so that the regex matches the text literally.
pub proof fn law_escape_char(c: char)
    ensures
        escaped(seq![c]) == if c == '.' || c == '^' || c == '$' || c == '*' || c == '+' || c == '?'
            || c == '(' || c == ')' || c == '[' || c == ']' || c == '{' || c == '}' || c == '|' || c
            == '\\' {
            seq!['\\', c]
        } else {
            seq![c]
        },
{
    assert(seq![c][0] == c);
    assert(seq![c].skip(1) =~= Seq::<char>::empty());
    assert(escaped(Seq::<char>::empty()) == Seq::<char>::empty());
    assert(seq!['\\', c] + Seq::<char>::empty() =~= seq!['\\', c]);
    assert(seq![c] + Seq::<char>::empty() =~= seq![c]);
}

/// Escaping text is escaping its pieces one after the other.
pub proof fn law_escape_concat(a: Seq<char>, b: Seq<char>)
    ensures
        escaped(a + b) == escaped(a) + escaped(b),
    decreases a.len(),
{
    if a.len() == 0 {
        assert(a + b =~= b);
        assert(Seq::<char>::empty() + escaped(b) =~= escaped(b));
    } else {
        assert((a + b)[0] == a[0]);
        assert((a + b).skip(1) =~= a.skip(1) + b);
        law_escape_concat(a.skip(1), b);
        if is_regex_special(a[0]) {
            assert(seq!['\\', a[0]] + (escaped(a.skip(1)) + escaped(b)) =~= seq!['\\', a[0]] + escaped(
                a.skip(1),
            ) + escaped(b));
        } else {
            assert(seq![a[0]] + (escaped(a.skip(1)) + escaped(b)) =~= seq![a[0]] + escaped(a.skip(1))
                + escaped(b));
        }
    }
}

/// The padding regexes around a field's group: what goes before it and
/// what goes after it (see `padding_before`, `padding_after`).
fn padding_of(spec: &FormatSpec) -> (r: (String, String))
    ensures
        r.0@ == padding_before(spec@),
        r.1@ == padding_after(spec@),
{
    let c = match spec.fill {
        Some(c) => c,
        None => ' ',
    };
    let mut f = String::new();
    push_char(&mut f, c);
    proof {
        assert(f@ =~= seq![fill_char(spec@)]);
    }
    let mut run = escape_regex(f.as_str());
    push_str(&mut run, "*");
    let (lead, trail) = match spec.align {
        Some('>') => (true, false),
        Some('<') => (false, true),
        Some('^') => (true, true),
        _ => (false, false),
    };
    let before = if lead {
        run.clone()
    } else {
        String::new()
    };
    let after = if trail {
        run
    } else {
        String::new()
    };
    (before, after)
}

/// Escape a string for use in a regex pattern.
///
/// All regex special characters are prefixed with a backslash.
pub fn escape_regex(s: &str) -> (r: String)
    ensures
        r@ == escaped(s@),
{
    let chars = chars_of(s);
    let mut result = String::new();
    let mut i: usize = 0;
    assert(s@.skip(0) =~= s@);
    assert(result@ + escaped(s@) =~= escaped(s@));
    while i < chars.len()
        invariant
            chars@ == s@,
            i <= chars.len(),
            result@ + escaped(s@.skip(i as int)) == escaped(s@),
        decreases chars.len() - i,
    {
        let ch = chars[i];
        let ghost rest = s@.skip(i as int);
        proof {
            assert(rest[0] == ch);
            assert(rest.skip(1) =~= s@.skip(i + 1));
        }
        if is_special_char(ch) {
            proof {
                assert(result@.push('\\').push(ch) + escaped(s@.skip(i + 1)) =~= result@ + (seq![
                    '\\',
                    ch,
                ] + escaped(rest.skip(1))));
            }
            push_char(&mut result, '\\');
        } else {
            proof {
                assert(result@.push(ch) + escaped(s@.skip(i + 1)) =~= result@ + (seq![ch]
                    + escaped(rest.skip(1))));
            }
        }
        push_char(&mut result, ch);
        i = i + 1;
    }
    proof {
        assert(s@.skip(i as int) =~= Seq::<char>::empty());
        assert(result@ + Seq::<char>::empty() =~= result@);
    }
    result
}

fn is_special_char(c: char) -> (r: bool)
    ensures
        r == is_regex_special(c),
{
    c == '.' || c == '^' || c == '$' || c == '*' || c == '+' || c == '?' || c == '(' || c == ')'
        || c == '[' || c == ']' || c == '{' || c == '}' || c == '|' || c == '\\'
}

/// Alignment specifiers.
pub open spec fn is_align(c: char) -> bool {
    c == '<' || c == '>' || c == '^' || c == '='
}

/// Check if a character is an alignment specifier.
pub fn is_align_char(c: char) -> (r: bool)
    ensures
        r == is_align(c),
{
    c == '<' || c == '>' || c == '^' || c == '='
}

/// A pattern registered for a user-defined type name.
#[derive(Debug, Clone)]
pub struct CustomTypePattern {
    /// The regex the field's text must match.
    pub pattern: String,
    /// The number of capture groups inside `pattern`.
    pub regex_group_count: usize,
}

/// A parsed format specification from a format field.
///
/// Represents the components of a format spec like `{name:<10.2f}`:
/// - fill: padding character (default space)
/// - align: alignment direction (<, >, ^, =)
/// - sign: sign display mode (+, -, space)
/// - zero_pad: whether 0-padding is enabled
/// - width: minimum field width
/// - grouping: thousands grouping character (_, ,)
/// - precision: decimal precision
/// - format_type: the type specifier
/// - format_string: the specification as written
/// - type_token: the type specifier as written
#[derive(Debug, Clone)]
pub struct FormatSpec {
    pub fill: Option<char>,
    pub align: Option<char>,
    pub sign: Option<char>,
    pub zero_pad: bool,
    pub width: Option<usize>,
    pub grouping: Option<char>,
    pub precision: Option<usize>,
    pub format_type: FormatType,
    pub format_string: String,
    pub type_token: String,
}

/// The mathematical counterpart of `FormatSpec`.
#[verifier::ext_equal]
pub struct FormatSpecView {
    pub fill: Option<char>,
    pub align: Option<char>,
    pub sign: Option<char>,
    pub zero_pad: bool,
    pub width: Option<usize>,
    pub grouping: Option<char>,
    pub precision: Option<usize>,
    pub format_type: TypeView,
    pub format_string: Seq<char>,
    pub type_token: Seq<char>,
}

impl View for FormatSpec {
    type V = FormatSpecView;

    open spec fn view(&self) -> FormatSpecView {
        FormatSpecView {
            fill: self.fill,
            align: self.align,
            sign: self.sign,
            zero_pad: self.zero_pad,
            width: self.width,
            grouping: self.grouping,
            precision: self.precision,
            format_type: self.format_type@,
            format_string: self.format_string@,
            type_token: self.type_token@,
        }
    }
}

/// The specification of a field written without one.
pub open spec fn default_spec() -> FormatSpecView {
    FormatSpecView {
        fill: None,
        align: None,
        sign: None,
        zero_pad: false,
        width: None,
        grouping: None,
        precision: None,
        format_type: TypeView::Default,
        format_string: Seq::empty(),
        type_token: Seq::empty(),
    }
}

impl Default for FormatSpec {
    fn default() -> (r: Self)
        ensures
            r@ == default_spec(),
    {
        FormatSpec {
            fill: None,
            align: None,
            sign: None,
            zero_pad: false,
            width: None,
            grouping: None,
            precision: None,
            format_type: FormatType::Default,
            format_string: String::new(),
            type_token: String::new(),
        }
    }
}

impl FormatSpec {
    /// A copy of this specification.
    pub fn duplicate(&self) -> (r: FormatSpec)
        ensures
            r@ == self@,
    {
        FormatSpec {
            fill: self.fill,
            align: self.align,
            sign: self.sign,
            zero_pad: self.zero_pad,
            width: self.width,
            grouping: self.grouping,
            precision: self.precision,
            format_type: self.format_type.duplicate(),
            format_string: self.format_string.clone(),
            type_token: self.type_token.clone(),
        }
    }
}

/// Where each part of a format specification lies, following
/// `[[fill]align][sign][0][width][grouping][.precision][type]`.
pub struct SpecLayout {
    pub fill: Option<char>,
    pub align: Option<char>,
    pub sign: Option<char>,
    pub zero_pad: bool,
    pub width_from: int,
    pub width_to: int,
    pub grouping: Option<char>,
    pub has_dot: bool,
    pub precision_from: int,
    pub precision_to: int,
    pub type_from: int,
}

/// End of the run of ASCII digits that starts at `p`.
pub open spec fn digit_run_end(t: Seq<char>, p: int) -> int
    decreases t.len() - p,
{
    if 0 <= p < t.len() && is_ascii_digit(t[p]) {
        digit_run_end(t, p + 1)
    } else {
        p
    }
}

pub proof fn lemma_digit_run(t: Seq<char>, p: int)
    requires
        0 <= p <= t.len(),
    ensures
        p <= digit_run_end(t, p) <= t.len(),
        forall|i: int| p <= i < digit_run_end(t, p) ==> is_ascii_digit(#[trigger] t[i]),
        digit_run_end(t, p) < t.len() ==> !is_ascii_digit(t[digit_run_end(t, p)]),
    decreases t.len() - p,
{
    if p < t.len() && is_ascii_digit(t[p]) {
        lemma_digit_run(t, p + 1);
    }
}

pub open spec fn spec_layout(t: Seq<char>) -> SpecLayout {
    let n = t.len() as int;
    let (fill, align, p0): (Option<char>, Option<char>, int) = if n >= 2 && is_align(t[1]) {
        (Some(t[0]), Some(t[1]), 2)
    } else if n >= 1 && is_align(t[0]) {
        (None, Some(t[0]), 1)
    } else {
        (None, None, 0)
    };
    let (sign, p1): (Option<char>, int) = if p0 < n && (t[p0] == '+' || t[p0] == '-' || t[p0]
        == ' ') {
        (Some(t[p0]), p0 + 1)
    } else {
        (None, p0)
    };
    let (zero_pad, p2): (bool, int) = if p1 < n && t[p1] == '0' {
        (true, p1 + 1)
    } else {
        (false, p1)
    };
    let p3 = digit_run_end(t, p2);
    let (grouping, p4): (Option<char>, int) = if p3 < n && (t[p3] == ',' || t[p3] == '_') {
        (Some(t[p3]), p3 + 1)
    } else {
        (None, p3)
    };
    let has_dot = p4 < n && t[p4] == '.';
    let p5 = if has_dot {
        digit_run_end(t, p4 + 1)
    } else {
        p4
    };
    SpecLayout {
        fill,
        align,
        sign,
        zero_pad,
        width_from: p2,
        width_to: p3,
        grouping,
        has_dot,
        precision_from: if has_dot {
            p4 + 1
        } else {
            p4
        },
        precision_to: p5,
        type_from: p5,
    }
}

/// Reads an optional number written in `t[from..to]`: `None` when the range
/// is empty, `Some(Err(()))` when the number exceeds `usize::MAX`.
pub open spec fn optional_number(t: Seq<char>, from: int, to: int) -> Option<Result<usize, ()>> {
    if to <= from {
        None
    } else {
        match scan_digits(t.subrange(from, to), 10, 0, usize::MAX as nat) {
            Ok(v) => Some(Ok(v as usize)),
            Err(_) => Some(Err(())),
        }
    }
}

/// How the type part of a specification is resolved: user-defined names
/// first, then built-in type names, then anything holding a `%` as a
/// datetime format.
pub open spec fn resolve_type(ts: Seq<char>, custom: Seq<(Seq<char>, CustomTypePattern)>) -> Option<
    TypeView,
> {
    if lookup(custom, ts) is Some {
        Some(TypeView::Default)
    } else {
        match type_named(ts) {
            Some(ty) => Some(ty),
            None => if ts.contains('%') {
                Some(TypeView::CustomDateTime(ts))
            } else {
                None
            },
        }
    }
}

/// The result of parsing the specification `t`.
pub open spec fn format_spec_of(t: Seq<char>, custom: Seq<(Seq<char>, CustomTypePattern)>) -> Result<
    FormatSpecView,
    Seq<char>,
> {
    let l = spec_layout(t);
    let width = optional_number(t, l.width_from, l.width_to);
    let precision = optional_number(t, l.precision_from, l.precision_to);
    let ts = t.subrange(l.type_from, t.len() as int);
    if width == Some(Err::<usize, ()>(())) {
        Err("Invalid width: "@ + t.subrange(l.width_from, l.width_to))
    } else if precision == Some(Err::<usize, ()>(())) {
        Err("Invalid precision: "@ + t.subrange(l.precision_from, l.precision_to))
    } else {
        match resolve_type(ts, custom) {
            None => Err("Unknown format type: '"@ + ts + "'"@),
            Some(ty) => Ok(
                FormatSpecView {
                    fill: l.fill,
                    align: l.align,
                    sign: l.sign,
                    zero_pad: l.zero_pad,
                    width: match width {
                        Some(Ok(w)) => Some(w),
                        _ => None,
                    },
                    grouping: l.grouping,
                    precision: match precision {
                        Some(Ok(p)) => Some(p),
                        _ => None,
                    },
                    format_type: ty,
                    format_string: t,
                    type_token: ts,
                },
            ),
        }
    }
}

/// End of the run of ASCII digits of `chars` that starts at `p`.
fn digit_run(chars: &Vec<char>, p: usize) -> (e: usize)
    requires
        p <= chars@.len(),
    ensures
        e == digit_run_end(chars@, p as int),
{
    let mut e = p;
    while e < chars.len() && '0' <= chars[e] && chars[e] <= '9'
        invariant
            p <= e <= chars@.len(),
            digit_run_end(chars@, p as int) == digit_run_end(chars@, e as int),
        decreases chars.len() - e,
    {
        e = e + 1;
    }
    e
}

/// Reads the optional number written in `chars[from..to]`.
fn read_number(chars: &Vec<char>, from: usize, to: usize) -> (r: Option<Result<usize, ()>>)
    requires
        from <= to <= chars@.len(),
        forall|i: int| from <= i < to ==> is_ascii_digit(#[trigger] chars@[i]),
    ensures
        r == optional_number(chars@, from as int, to as int),
{
    if to <= from {
        return None;
    }
    match usize_from_digits(chars, from, to) {
        Some(v) => Some(Ok(v)),
        None => Some(Err(())),
    }
}

fn message_with(prefix: &str, chars: &Vec<char>, from: usize, to: usize) -> (m: String)
    requires
        from <= to <= chars@.len(),
    ensures
        m@ == prefix@ + chars@.subrange(from as int, to as int),
{
    let mut m = string_of(prefix);
    let part = string_of_range(chars, from, to);
    push_str(&mut m, part.as_str());
    m
}

/// Parse a format specification string into a FormatSpec.
///
/// The format spec follows Python's format mini-language:
/// `[[fill]align][sign][#][0][width][grouping_option][.precision][type]`
///
/// Examples:
/// - `"d"` → type=Decimal
/// - `"<10s"` → align=<, width=10, type=NonWhitespace
/// - `".2f"` → precision=2, type=Float
pub fn parse_format_spec(spec: &str) -> (r: Result<FormatSpec, String>)
    ensures
        match r {
            Ok(s) => format_spec_of(spec@, Seq::empty()) == Ok::<FormatSpecView, Seq<char>>(s@),
            Err(m) => format_spec_of(spec@, Seq::empty()) == Err::<FormatSpecView, Seq<char>>(m@),
        },
{
    let custom: FieldMap<CustomTypePattern> = FieldMap::new();
    proof {
        assert(custom.pairs() =~= Seq::<(Seq<char>, CustomTypePattern)>::empty());
    }
    parse_format_spec_with_custom(spec, &custom)
}

/// Parse a format specification, resolving type names registered in
/// `custom` before the built-in ones.
pub fn parse_format_spec_with_custom(spec: &str, custom: &FieldMap<CustomTypePattern>) -> (r: Result<
    FormatSpec,
    String,
>)
    ensures
        match r {
            Ok(s) => format_spec_of(spec@, custom.pairs()) == Ok::<FormatSpecView, Seq<char>>(s@),
            Err(m) => format_spec_of(spec@, custom.pairs()) == Err::<FormatSpecView, Seq<char>>(
                m@,
            ),
        },
{
    let chars = chars_of(spec);
    let ghost t = spec@;
    let ghost l = spec_layout(t);
    let len = chars.len();
    let mut fill: Option<char> = None;
    let mut align: Option<char> = None;
    let mut pos: usize = 0;

    // Check for fill and align
    if len >= 2 && is_align_char(chars[1]) {
        fill = Some(chars[0]);
        align = Some(chars[1]);
        pos = 2;
    } else if len >= 1 && is_align_char(chars[0]) {
        align = Some(chars[0]);
        pos = 1;
    }
    // Check for sign: +, -, space

    let mut sign: Option<char> = None;
    if pos < len && (chars[pos] == '+' || chars[pos] == '-' || chars[pos] == ' ') {
        sign = Some(chars[pos]);
        pos = pos + 1;
    }
    // Check for zero-pad

    let mut zero_pad = false;
    if pos < len && chars[pos] == '0' {
        zero_pad = true;
        pos = pos + 1;
    }
    // Check for width (digits)

    let width_start = pos;
    pos = digit_run(&chars, pos);
    proof {
        lemma_digit_run(t, width_start as int);
    }
    let width = read_number(&chars, width_start, pos);
    if let Some(Err(_)) = width {
        return Err(message_with("Invalid width: ", &chars, width_start, pos));
    }
    // Check for grouping option (, or _)

    let mut grouping: Option<char> = None;
    if pos < len && (chars[pos] == ',' || chars[pos] == '_') {
        grouping = Some(chars[pos]);
        pos = pos + 1;
    }
    // Check for precision (.digits)

    let mut prec_start = pos;
    if pos < len && chars[pos] == '.' {
        pos = pos + 1;
        prec_start = pos;
        pos = digit_run(&chars, pos);
        proof {
            lemma_digit_run(t, prec_start as int);
        }
    }
    let precision = read_number(&chars, prec_start, pos);
    if let Some(Err(_)) = precision {
        return Err(message_with("Invalid precision: ", &chars, prec_start, pos));
    }
    assert(l.type_from == pos);
    // Remaining characters form the type specifier

    let type_str = string_of_range(&chars, pos, len);
    let format_type = match resolve_type_exec(type_str.as_str(), custom) {
        Some(ft) => ft,
        None => {
            let mut m = string_of("Unknown format type: '");
            push_str(&mut m, type_str.as_str());
            push_str(&mut m, "'");
            return Err(m);
        },
    };
    Ok(
        FormatSpec {
            fill,
            align,
            sign,
            zero_pad,
            width: match width {
                Some(Ok(w)) => Some(w),
                _ => None,
            },
            grouping,
            precision: match precision {
                Some(Ok(p)) => Some(p),
                _ => None,
            },
            format_type,
            format_string: string_of(spec),
            type_token: type_str,
        },
    )
}

/// Whether `s` holds the character `c`.
pub fn contains_char(s: &str, c: char) -> (r: bool)
    ensures
        r == s@.contains(c),
{
    let chars = chars_of(s);
    let mut i: usize = 0;
    while i < chars.len()
        invariant
            chars@ == s@,
            i <= chars.len(),
            forall|j: int| 0 <= j < i ==> chars@[j] != c,
        decreases chars.len() - i,
    {
        if chars[i] == c {
            assert(s@[i as int] == c);
            return true;
        }
        i = i + 1;
    }
    false
}

fn resolve_type_exec(ts: &str, custom: &FieldMap<CustomTypePattern>) -> (r: Option<FormatType>)
    ensures
        match r {
            Some(t) => resolve_type(ts@, custom.pairs()) == Some(t@),
            None => resolve_type(ts@, custom.pairs()) is None,
        },
{
    if custom.contains_key(ts) {
        return Some(FormatType::Default);
    }
    match FormatType::from_str(ts) {
        Some(t) => Some(t),
        None => {
            if contains_char(ts, '%') {
                Some(FormatType::CustomDateTime(string_of(ts)))
            } else {
                None
            }
        },
    }
}


/// Parts of a split format string.
#[derive(Debug)]
pub enum FormatPart {
    Literal(String),
    EscapedOpen,
    EscapedClose,
    Field(String),
}

/// The mathematical counterpart of `FormatPart`.
pub enum PartView {
    Literal(Seq<char>),
    EscapedOpen,
    EscapedClose,
    Field(Seq<char>),
}

impl View for FormatPart {
    type V = PartView;

    open spec fn view(&self) -> PartView {
        match self {
            FormatPart::Literal(s) => PartView::Literal(s@),
            FormatPart::EscapedOpen => PartView::EscapedOpen,
            FormatPart::EscapedClose => PartView::EscapedClose,
            FormatPart::Field(s) => PartView::Field(s@),
        }
    }
}

/// Reads the body of a field that starts at `j`, at brace depth `depth`:
/// the field's text, the position after it, and whether a closing brace
/// ended it (rather than the end of the text).
pub open spec fn field_scan(c: Seq<char>, j: int, depth: nat) -> (Seq<char>, int, bool)
    decreases c.len() - j,
{
    if j < 0 || j >= c.len() {
        (Seq::empty(), c.len() as int, false)
    } else if c[j] == '{' {
        let r = field_scan(c, j + 1, depth + 1);
        (seq!['{'] + r.0, r.1, r.2)
    } else if c[j] == '}' {
        if depth <= 1 {
            (Seq::empty(), j + 1, true)
        } else {
            let r = field_scan(c, j + 1, (depth - 1) as nat);
            (seq!['}'] + r.0, r.1, r.2)
        }
    } else {
        let r = field_scan(c, j + 1, depth);
        (seq![c[j]] + r.0, r.1, r.2)
    }
}

pub proof fn lemma_field_scan(c: Seq<char>, j: int, depth: nat)
    requires
        0 <= j <= c.len(),
    ensures
        j <= field_scan(c, j, depth).1 <= c.len(),
        j < c.len() ==> j < field_scan(c, j, depth).1,
        field_scan(c, j, depth).0 + (if field_scan(c, j, depth).2 {
            seq!['}']
        } else {
            Seq::empty()
        }) == c.subrange(j, field_scan(c, j, depth).1),
        !field_scan(c, j, depth).2 ==> field_scan(c, j, depth).1 == c.len(),
    decreases c.len() - j,
{
    if j < c.len() {
        let r = field_scan(c, j, depth);
        if c[j] == '{' {
            lemma_field_scan(c, j + 1, depth + 1);
            let q = field_scan(c, j + 1, depth + 1);
            assert(c.subrange(j, q.1) =~= seq!['{'] + c.subrange(j + 1, q.1));
            assert(r.0 + (if r.2 { seq!['}'] } else { Seq::empty() }) =~= seq!['{'] + (q.0 + (if q.2 {
                seq!['}']
            } else {
                Seq::empty()
            })));
        } else if c[j] == '}' {
            if depth <= 1 {
                assert(c.subrange(j, j + 1) =~= seq!['}']);
                assert(r.0 + seq!['}'] =~= seq!['}']);
            } else {
                lemma_field_scan(c, j + 1, (depth - 1) as nat);
                let q = field_scan(c, j + 1, (depth - 1) as nat);
                assert(c.subrange(j, q.1) =~= seq!['}'] + c.subrange(j + 1, q.1));
                assert(r.0 + (if r.2 { seq!['}'] } else { Seq::empty() }) =~= seq!['}'] + (q.0 + (
                if q.2 {
                    seq!['}']
                } else {
                    Seq::empty()
                })));
            }
        } else {
            lemma_field_scan(c, j + 1, depth);
            let q = field_scan(c, j + 1, depth);
            assert(c.subrange(j, q.1) =~= seq![c[j]] + c.subrange(j + 1, q.1));
            assert(r.0 + (if r.2 { seq!['}'] } else { Seq::empty() }) =~= seq![c[j]] + (q.0 + (if q.2 {
                seq!['}']
            } else {
                Seq::empty()
            })));
        }
    } else {
        assert(c.subrange(j, c.len() as int) =~= Seq::<char>::empty());
    }
}

/// The pending literal text as a part, when there is any.
pub open spec fn flush(cur: Seq<char>) -> Seq<PartView> {
    if cur.len() == 0 {
        Seq::empty()
    } else {
        seq![PartView::Literal(cur)]
    }
}

/// The parts of the format text `c` from position `i` on, with `cur` the
/// literal text read just before `i`.
pub open spec fn split_from(c: Seq<char>, i: int, cur: Seq<char>) -> Seq<PartView>
    decreases c.len() - i,
{
    if i < 0 || i >= c.len() {
        flush(cur)
    } else if c[i] == '{' {
        if i + 1 < c.len() && c[i + 1] == '{' {
            flush(cur) + seq![PartView::EscapedOpen] + split_from(c, i + 2, Seq::empty())
        } else {
            proof {
                lemma_field_scan(c, i + 1, 1);
            }
            let r = field_scan(c, i + 1, 1);
            flush(cur) + seq![PartView::Field(r.0)] + split_from(c, r.1, Seq::empty())
        }
    } else if c[i] == '}' {
        if i + 1 < c.len() && c[i + 1] == '}' {
            flush(cur) + seq![PartView::EscapedClose] + split_from(c, i + 2, Seq::empty())
        } else {
            split_from(c, i + 1, cur.push('}'))
        }
    } else {
        split_from(c, i + 1, cur.push(c[i]))
    }
}

/// The parts of a format string: literal text, escaped braces `{{` and
/// `}}`, and the text of each `{...}` field (nested braces included).
pub open spec fn split_parts(format: Seq<char>) -> Seq<PartView> {
    split_from(format, 0, Seq::empty())
}

/// The text each part stands for in a format string.
pub open spec fn part_text(p: PartView) -> Seq<char> {
    match p {
        PartView::Literal(s) => s,
        PartView::EscapedOpen => "{{"@,
        PartView::EscapedClose => "}}"@,
        PartView::Field(f) => seq!['{'] + f + seq!['}'],
    }
}

/// Writes parts back as format text.
pub open spec fn render(parts: Seq<PartView>) -> Seq<char>
    decreases parts.len(),
{
    if parts.len() == 0 {
        Seq::empty()
    } else {
        render(parts.drop_last()) + part_text(parts.last())
    }
}

pub proof fn lemma_render_concat(a: Seq<PartView>, b: Seq<PartView>)
    ensures
        render(a + b) == render(a) + render(b),
    decreases b.len(),
{
    if b.len() == 0 {
        assert(a + b =~= a);
    } else {
        assert((a + b).drop_last() =~= a + b.drop_last());
        lemma_render_concat(a, b.drop_last());
    }
}

proof fn lemma_render_flush(cur: Seq<char>)
    ensures
        render(flush(cur)) == cur,
{
    if cur.len() > 0 {
        lemma_render_single(PartView::Literal(cur));
    } else {
        assert(render(flush(cur)) == Seq::<char>::empty());
    }
}

proof fn lemma_render_single(p: PartView)
    ensures
        render(seq![p]) == part_text(p),
{
    assert(seq![p].drop_last() =~= Seq::<PartView>::empty());
    assert(seq![p].last() == p);
    assert(render(Seq::<PartView>::empty()) == Seq::<char>::empty());
    assert(Seq::<char>::empty() + part_text(p) =~= part_text(p));
}

/// Whether the format text `c`, read from `i` on, leaves a field open at
/// its end (a `{` that no matching `}` closes).
pub open spec fn ends_inside_field(c: Seq<char>, i: int) -> bool
    decreases c.len() - i,
{
    if i < 0 || i >= c.len() {
        false
    } else if c[i] == '{' {
        if i + 1 < c.len() && c[i + 1] == '{' {
            ends_inside_field(c, i + 2)
        } else {
            proof {
                lemma_field_scan(c, i + 1, 1);
            }
            let r = field_scan(c, i + 1, 1);
            if r.2 {
                ends_inside_field(c, r.1)
            } else {
                true
            }
        }
    } else if c[i] == '}' && i + 1 < c.len() && c[i + 1] == '}' {
        ends_inside_field(c, i + 2)
    } else {
        ends_inside_field(c, i + 1)
    }
}

/// The `}` that writing the parts back adds to a field left open.
pub open spec fn closing(open_at_end: bool) -> Seq<char> {
    if open_at_end {
        seq!['}']
    } else {
        Seq::empty()
    }
}

#[verifier::rlimit(80)]
#[verifier::spinoff_prover]
proof fn lemma_render_split_from(c: Seq<char>, i: int, cur: Seq<char>)
    requires
        0 <= i <= c.len(),
    ensures
        render(split_from(c, i, cur)) == cur + c.skip(i) + closing(ends_inside_field(c, i)),
    decreases c.len() - i,
{
    lemma_render_flush(cur);
    if i >= c.len() {
        assert(c.skip(i) =~= Seq::<char>::empty());
        assert(cur + c.skip(i) + Seq::<char>::empty() =~= cur);
    } else if c[i] == '{' {
        if i + 1 < c.len() && c[i + 1] == '{' {
            lemma_render_split_from(c, i + 2, Seq::empty());
            let rest = split_from(c, i + 2, Seq::empty());
            let x = closing(ends_inside_field(c, i + 2));
            lemma_render_concat(flush(cur) + seq![PartView::EscapedOpen], rest);
            lemma_render_concat(flush(cur), seq![PartView::EscapedOpen]);
            lemma_render_single(PartView::EscapedOpen);
            assert("{{"@ =~= seq!['{', '{']) by {
                reveal_strlit("{{");
            }
            assert(c.skip(i) =~= seq!['{', '{'] + c.skip(i + 2));
            assert(Seq::<char>::empty() + c.skip(i + 2) + x =~= c.skip(i + 2) + x);
            assert(cur + seq!['{', '{'] + (c.skip(i + 2) + x) =~= cur + c.skip(i) + x);
        } else {
            lemma_field_scan(c, i + 1, 1);
            let r = field_scan(c, i + 1, 1);
            lemma_render_split_from(c, r.1, Seq::empty());
            let rest = split_from(c, r.1, Seq::empty());
            let x = closing(ends_inside_field(c, r.1));
            lemma_render_concat(flush(cur) + seq![PartView::Field(r.0)], rest);
            lemma_render_concat(flush(cur), seq![PartView::Field(r.0)]);
            lemma_render_single(PartView::Field(r.0));
            assert(c.skip(i) =~= seq!['{'] + c.subrange(i + 1, r.1) + c.skip(r.1));
            assert(Seq::<char>::empty() + c.skip(r.1) + x =~= c.skip(r.1) + x);
            if r.2 {
                assert(cur + (seq!['{'] + r.0 + seq!['}']) + (c.skip(r.1) + x) =~= cur + c.skip(i)
                    + x);
            } else {
                assert(c.skip(r.1) =~= Seq::<char>::empty());
                assert(x =~= Seq::<char>::empty());
                assert(cur + (seq!['{'] + r.0 + seq!['}']) + (c.skip(r.1) + x) =~= cur + c.skip(i)
                    + seq!['}']);
            }
        }
    } else if c[i] == '}' && i + 1 < c.len() && c[i + 1] == '}' {
        lemma_render_split_from(c, i + 2, Seq::empty());
        let rest = split_from(c, i + 2, Seq::empty());
        let x = closing(ends_inside_field(c, i + 2));
        lemma_render_concat(flush(cur) + seq![PartView::EscapedClose], rest);
        lemma_render_concat(flush(cur), seq![PartView::EscapedClose]);
        lemma_render_single(PartView::EscapedClose);
        assert("}}"@ =~= seq!['}', '}']) by {
            reveal_strlit("}}");
        }
        assert(c.skip(i) =~= seq!['}', '}'] + c.skip(i + 2));
        assert(Seq::<char>::empty() + c.skip(i + 2) + x =~= c.skip(i + 2) + x);
        assert(cur + seq!['}', '}'] + (c.skip(i + 2) + x) =~= cur + c.skip(i) + x);
    } else {
        lemma_render_split_from(c, i + 1, cur.push(c[i]));
        let x = closing(ends_inside_field(c, i + 1));
        assert(cur.push(c[i]) + c.skip(i + 1) + x =~= cur + c.skip(i) + x);
    }
}

/// Writing the parts of a format string back gives the format string
/// exactly, unless a field is left open at the end of the text: that one
/// comes back closed.
pub proof fn law_split_render(format: Seq<char>)
    ensures
        render(split_parts(format)) == if ends_inside_field(format, 0) {
            format + seq!['}']
        } else {
            format
        },
{
    lemma_render_split_from(format, 0, Seq::empty());
    assert(format.skip(0) =~= format);
    assert(Seq::<char>::empty() + format + Seq::<char>::empty() =~= format);
    assert(Seq::<char>::empty() + format + seq!['}'] =~= format + seq!['}']);
}

/// A literal part with no text.
pub open spec fn empty_literal(p: PartView) -> bool {
    p matches PartView::Literal(s) && s.len() == 0
}

/// Parts `k` and `k + 1` are both literal text.
pub open spec fn adjacent_literals(parts: Seq<PartView>, k: int) -> bool {
    parts[k] is Literal && parts[k + 1] is Literal
}

/// No literal part is empty and no two literal parts follow each other.
pub open spec fn tidy(parts: Seq<PartView>) -> bool {
    &&& forall|k: int| 0 <= k < parts.len() ==> !empty_literal(#[trigger] parts[k])
    &&& forall|k: int| 0 <= k && k + 1 < parts.len() ==> !#[trigger] adjacent_literals(parts, k)
}

proof fn lemma_tidy_join(cur: Seq<char>, x: PartView, rest: Seq<PartView>)
    requires
        !(x is Literal),
        tidy(rest),
    ensures
        tidy(flush(cur) + seq![x] + rest),
{
    let a = flush(cur);
    let p = a + seq![x] + rest;
    let m = a.len() + 1;
    assert forall|k: int| 0 <= k < p.len() implies !empty_literal(#[trigger] p[k]) by {
        if k < a.len() {
            assert(p[k] == PartView::Literal(cur));
        } else if k == a.len() {
            assert(p[k] == x);
        } else {
            assert(p[k] == rest[k - m]);
        }
    }
    assert forall|k: int| 0 <= k && k + 1 < p.len() implies !#[trigger] adjacent_literals(p, k) by {
        if k < a.len() {
            assert(p[k + 1] == x);
        } else if k == a.len() {
            assert(p[k] == x);
        } else {
            assert(p[k] == rest[k - m]);
            assert(p[k + 1] == rest[k + 1 - m]);
            assert(!adjacent_literals(rest, k - m));
        }
    }
}

proof fn lemma_split_from_tidy(c: Seq<char>, i: int, cur: Seq<char>)
    requires
        0 <= i <= c.len(),
    ensures
        tidy(split_from(c, i, cur)),
    decreases c.len() - i,
{
    if i >= c.len() {
        assert(forall|k: int| 0 <= k < flush(cur).len() ==> flush(cur)[k] == PartView::Literal(cur));
    } else if c[i] == '{' {
        if i + 1 < c.len() && c[i + 1] == '{' {
            lemma_split_from_tidy(c, i + 2, Seq::empty());
            lemma_tidy_join(cur, PartView::EscapedOpen, split_from(c, i + 2, Seq::empty()));
        } else {
            lemma_field_scan(c, i + 1, 1);
            let r = field_scan(c, i + 1, 1);
            lemma_split_from_tidy(c, r.1, Seq::empty());
            lemma_tidy_join(cur, PartView::Field(r.0), split_from(c, r.1, Seq::empty()));
        }
    } else if c[i] == '}' && i + 1 < c.len() && c[i + 1] == '}' {
        lemma_split_from_tidy(c, i + 2, Seq::empty());
        lemma_tidy_join(cur, PartView::EscapedClose, split_from(c, i + 2, Seq::empty()));
    } else {
        lemma_split_from_tidy(c, i + 1, cur.push(c[i]));
    }
}

/// The parts of a format string hold no empty literal text, and literal
/// text between two other parts comes as one part.
pub proof fn law_split_tidy(format: Seq<char>)
    ensures
        tidy(split_parts(format)),
{
    lemma_split_from_tidy(format, 0, Seq::empty());
}

/// A compiled field from the format string.
///
/// Each `{...}` in the format string becomes a FieldInfo after compilation.
#[derive(Debug)]
pub struct FieldInfo {
    /// The field name (empty string for anonymous/positional fields).
    pub name: String,
    /// Whether this is a named field (vs positional).
    pub is_named: bool,
    /// The positional index for anonymous fields.
    pub index: Option<usize>,
    /// The parsed format specification.
    pub spec: FormatSpec,
    /// The format type for this field.
    pub format_type: FormatType,
    /// The regex group name of a named field.
    pub group_name: Option<String>,
    /// For a later occurrence of a named field, the name it repeats.
    pub repeated_of: Option<String>,
    /// The user-defined type name, when the field's type is one.
    pub custom_type: Option<String>,
}

pub open spec fn opt_view(o: Option<String>) -> Option<Seq<char>> {
    match o {
        Some(s) => Some(s@),
        None => None,
    }
}

/// The mathematical counterpart of `FieldInfo`.
#[verifier::ext_equal]
pub struct FieldView {
    pub name: Seq<char>,
    pub is_named: bool,
    pub index: Option<usize>,
    pub spec: FormatSpecView,
    pub format_type: TypeView,
    pub group_name: Option<Seq<char>>,
    pub repeated_of: Option<Seq<char>>,
    pub custom_type: Option<Seq<char>>,
}

impl View for FieldInfo {
    type V = FieldView;

    open spec fn view(&self) -> FieldView {
        FieldView {
            name: self.name@,
            is_named: self.is_named,
            index: self.index,
            spec: self.spec@,
            format_type: self.format_type@,
            group_name: opt_view(self.group_name),
            repeated_of: opt_view(self.repeated_of),
            custom_type: opt_view(self.custom_type),
        }
    }
}

pub open spec fn field_views(s: Seq<FieldInfo>) -> Seq<FieldView> {
    s.map_values(|f: FieldInfo| f@)
}

pub open spec fn string_views(s: Seq<String>) -> Seq<Seq<char>> {
    s.map_values(|f: String| f@)
}

/// Result of compiling a format string.
///
/// Contains the generated regex pattern, field metadata, and
/// mappings needed for result extraction after matching.
#[derive(Debug)]
pub struct CompiledFormat {
    /// The compiled regex pattern string.
    pub pattern: String,
    /// Ordered list of field information.
    pub fields: Vec<FieldInfo>,
    /// Map from regex group name to field name.
    pub group_to_field: FieldMap<String>,
    /// Map from field name to regex group name.
    pub field_to_group: FieldMap<String>,
    /// Names of named fields, in order.
    pub named_fields: Vec<String>,
    /// Indices of positional (fixed) fields.
    pub fixed_fields: Vec<usize>,
    /// Total number of capture groups in the pattern.
    pub group_count: usize,
    /// The capture group of each positional field.
    pub fixed_group_indices: Vec<usize>,
}

/// The state of a compilation: everything gathered from the parts read so
/// far.
#[verifier::ext_equal]
pub struct CompilerState {
    pub pattern: Seq<char>,
    pub group_index: nat,
    pub fields: Seq<FieldView>,
    pub group_to_field: Seq<(Seq<char>, Seq<char>)>,
    pub field_to_group: Seq<(Seq<char>, Seq<char>)>,
    pub named_fields: Seq<Seq<char>>,
    pub fixed_fields: Seq<usize>,
    pub fixed_group_indices: Seq<usize>,
    pub used_group_names: Seq<(Seq<char>, Seq<char>)>,
    pub name_types: Seq<(Seq<char>, Seq<char>)>,
}

pub open spec fn initial_state(case_sensitive: bool) -> CompilerState {
    CompilerState {
        pattern: if case_sensitive {
            Seq::empty()
        } else {
            "(?i)"@
        },
        group_index: 0,
        fields: Seq::empty(),
        group_to_field: Seq::empty(),
        field_to_group: Seq::empty(),
        named_fields: Seq::empty(),
        fixed_fields: Seq::empty(),
        fixed_group_indices: Seq::empty(),
        used_group_names: Seq::empty(),
        name_types: Seq::empty(),
    }
}

/// A field name with the characters that regex group names cannot hold
/// (`.`, `[`, `]`, `-`) replaced by underscores.
pub open spec fn group_base(name: Seq<char>) -> Seq<char> {
    name.map_values(
        |c: char|
            if c == '.' || c == '[' || c == ']' || c == '-' {
                '_'
            } else {
                c
            },
    )
}

pub open spec fn max_key_len(s: Seq<(Seq<char>, Seq<char>)>) -> nat
    decreases s.len(),
{
    if s.len() == 0 {
        0
    } else {
        let m = max_key_len(s.drop_last());
        if s.last().0.len() > m {
            s.last().0.len()
        } else {
            m
        }
    }
}

pub proof fn lemma_max_key_len(s: Seq<(Seq<char>, Seq<char>)>, j: int)
    requires
        0 <= j < s.len(),
    ensures
        s[j].0.len() <= max_key_len(s),
    decreases s.len(),
{
    if j < s.len() - 1 {
        lemma_max_key_len(s.drop_last(), j);
    }
}

pub proof fn lemma_stored_key_len(s: Seq<(Seq<char>, Seq<char>)>, k: Seq<char>)
    requires
        lookup(s, k) is Some,
    ensures
        k.len() <= max_key_len(s),
{
    lemma_key_index_props(s, k);
    lemma_max_key_len(s, key_index(s, k)->0);
}

/// The regex group name given to a named field: `g`, with underscores
/// appended while it is already used by another field (or at all, for a
/// repeated field).
pub open spec fn pad_group_name(
    used: Seq<(Seq<char>, Seq<char>)>,
    g: Seq<char>,
    name: Seq<char>,
    repeat: bool,
) -> Seq<char>
    decreases max_key_len(used) + 1 - g.len(),
{
    match lookup(used, g) {
        Some(owner) => if repeat || owner != name {
            proof {
                lemma_stored_key_len(used, g);
            }
            pad_group_name(used, g.push('_'), name, repeat)
        } else {
            g
        },
        None => g,
    }
}

/// `g` holds none of the characters that regex group names cannot hold.
pub open spec fn group_safe(g: Seq<char>) -> bool {
    forall|i: int| 0 <= i < g.len() ==> {
        let c = #[trigger] g[i];
        c != '.' && c != '[' && c != ']' && c != '-'
    }
}

proof fn lemma_pad_group_name(
    used: Seq<(Seq<char>, Seq<char>)>,
    g: Seq<char>,
    name: Seq<char>,
    repeat: bool,
)
    ensures
        group_safe(g) ==> group_safe(pad_group_name(used, g, name, repeat)),
        match lookup(used, pad_group_name(used, g, name, repeat)) {
            Some(owner) => !repeat && owner == name,
            None => true,
        },
    decreases max_key_len(used) + 1 - g.len(),
{
    if let Some(owner) = lookup(used, g) {
        if repeat || owner != name {
            lemma_stored_key_len(used, g);
            lemma_pad_group_name(used, g.push('_'), name, repeat);
            if group_safe(g) {
                assert forall|i: int| 0 <= i < g.push('_').len() implies {
                    let c = #[trigger] g.push('_')[i];
                    c != '.' && c != '[' && c != ']' && c != '-'
                } by {
                    if i < g.len() {
                        assert(g.push('_')[i] == g[i]);
                    }
                }
            }
        }
    }
}

/// The regex group name given to a named field holds none of `.`, `[`,
/// `]`, `-`, and no other field name owns it: it is either unused so far,
/// or, for the first occurrence of a field name, that same name's own.
pub proof fn law_group_name_fresh(
    used: Seq<(Seq<char>, Seq<char>)>,
    name: Seq<char>,
    repeat: bool,
)
    ensures
        group_safe(pad_group_name(used, group_base(name), name, repeat)),
        match lookup(used, pad_group_name(used, group_base(name), name, repeat)) {
            Some(owner) => !repeat && owner == name,
            None => true,
        },
{
    lemma_pad_group_name(used, group_base(name), name, repeat);
}

pub open spec fn repeated_name_message(name: Seq<char>, new_type: Seq<char>, prev_type: Seq<char>) -> Seq<char> {
    "RepeatedNameError: field type '"@ + new_type + "' for field '"@ + name
        + "' does not match previous seen type '"@ + prev_type + "'"@
}

/// The name part of a field's text (before the first `:`).
pub open spec fn field_name_part(f: Seq<char>) -> Seq<char> {
    match first_index(f, ':') {
        Some(k) => f.take(k),
        None => f,
    }
}

/// The specification part of a field's text (after the first `:`).
pub open spec fn field_spec_part(f: Seq<char>) -> Seq<char> {
    match first_index(f, ':') {
        Some(k) => f.skip(k + 1),
        None => Seq::empty(),
    }
}

/// Fields whose name starts with a letter or an underscore are named; the
/// others are positional.
pub open spec fn names_field(name: Seq<char>) -> bool {
    name.len() > 0 && (alphabetic(name[0]) || name[0] == '_')
}

/// The regex a field matches and the number of groups inside it: a
/// user-defined type's own pattern, or the pattern of its built-in type,
/// where a numeric type may be preceded by a sign (`-`, `+` or a space).
pub open spec fn field_pattern(sp: FormatSpecView, custom: Seq<(Seq<char>, CustomTypePattern)>) -> (
    Seq<char>,
    nat,
) {
    match lookup(custom, sp.type_token) {
        Some(c) => (c.pattern@, c.regex_group_count as nat),
        None => if type_is_numeric(sp.format_type) {
            ("[-+ ]?"@ + type_pattern(sp.format_type).0, type_pattern(sp.format_type).1)
        } else {
            type_pattern(sp.format_type)
        },
    }
}

pub open spec fn custom_type_of(sp: FormatSpecView, custom: Seq<(Seq<char>, CustomTypePattern)>) -> Option<
    Seq<char>,
> {
    match lookup(custom, sp.type_token) {
        Some(_) => Some(sp.type_token),
        None => None,
    }
}

/// The character a field is padded with: its fill, a space when none is
/// given.
pub open spec fn fill_char(sp: FormatSpecView) -> char {
    match sp.fill {
        Some(c) => c,
        None => ' ',
    }
}

/// Any run of the fill character, as a regex.
pub open spec fn fill_run(sp: FormatSpecView) -> Seq<char> {
    escaped(seq![fill_char(sp)]) + "*"@
}

/// The padding matched before a field's group: a right-aligned or centred
/// field may be preceded by fill characters.
pub open spec fn padding_before(sp: FormatSpecView) -> Seq<char> {
    if sp.align == Some('>') || sp.align == Some('^') {
        fill_run(sp)
    } else {
        Seq::empty()
    }
}

/// The padding matched after a field's group: a left-aligned or centred
/// field may be followed by fill characters.
pub open spec fn padding_after(sp: FormatSpecView) -> Seq<char> {
    if sp.align == Some('<') || sp.align == Some('^') {
        fill_run(sp)
    } else {
        Seq::empty()
    }
}

/// Adds a named field.
pub open spec fn add_named(
    st: CompilerState,
    name: Seq<char>,
    sp: FormatSpecView,
    custom: Seq<(Seq<char>, CustomTypePattern)>,
) -> Result<CompilerState, Seq<char>> {
    let (tp, extra) = field_pattern(sp, custom);
    let next_index = st.group_index + 1 + extra;
    let prev = lookup(st.name_types, name);
    if prev is Some && prev->0 != sp.type_token {
        Err(repeated_name_message(name, sp.type_token, prev->0))
    } else if next_index > usize::MAX {
        Err("too many capture groups"@)
    } else {
        let repeat = prev is Some;
        let gn = pad_group_name(st.used_group_names, group_base(name), name, repeat);
        let field = FieldView {
            name,
            is_named: true,
            index: None,
            spec: sp,
            format_type: sp.format_type,
            group_name: Some(gn),
            repeated_of: if repeat {
                Some(name)
            } else {
                None
            },
            custom_type: custom_type_of(sp, custom),
        };
        Ok(
            CompilerState {
                pattern: st.pattern + padding_before(sp) + "(?P<"@ + gn + ">"@ + tp + ")"@
                    + padding_after(sp),
                group_index: next_index,
                fields: st.fields.push(field),
                group_to_field: store(st.group_to_field, gn, name),
                field_to_group: if repeat {
                    st.field_to_group
                } else {
                    store(st.field_to_group, name, gn)
                },
                named_fields: if repeat {
                    st.named_fields
                } else {
                    st.named_fields.push(name)
                },
                fixed_fields: st.fixed_fields,
                fixed_group_indices: st.fixed_group_indices,
                used_group_names: store(st.used_group_names, gn, name),
                name_types: if repeat {
                    st.name_types
                } else {
                    store(st.name_types, name, sp.type_token)
                },
            },
        )
    }
}

/// Adds a positional field.
pub open spec fn add_positional(
    st: CompilerState,
    name: Seq<char>,
    sp: FormatSpecView,
    custom: Seq<(Seq<char>, CustomTypePattern)>,
) -> Result<CompilerState, Seq<char>> {
    let (tp, extra) = field_pattern(sp, custom);
    let next_index = st.group_index + 1 + extra;
    if next_index > usize::MAX {
        Err("too many capture groups"@)
    } else {
        let index = st.fixed_fields.len() as usize;
        let field = FieldView {
            name,
            is_named: false,
            index: Some(index),
            spec: sp,
            format_type: sp.format_type,
            group_name: None,
            repeated_of: None,
            custom_type: custom_type_of(sp, custom),
        };
        Ok(
            CompilerState {
                pattern: st.pattern + padding_before(sp) + "("@ + tp + ")"@ + padding_after(sp),
                group_index: next_index,
                fields: st.fields.push(field),
                fixed_fields: st.fixed_fields.push(index),
                fixed_group_indices: st.fixed_group_indices.push((st.group_index + 1) as usize),
                ..st
            },
        )
    }
}

/// Adds the field written as `f` to the compilation.
pub open spec fn handle_field(
    st: CompilerState,
    f: Seq<char>,
    custom: Seq<(Seq<char>, CustomTypePattern)>,
) -> Result<CompilerState, Seq<char>> {
    let name = field_name_part(f);
    match format_spec_of(field_spec_part(f), custom) {
        Err(m) => Err(m),
        Ok(sp) => if names_field(name) {
            add_named(st, name, sp, custom)
        } else {
            add_positional(st, name, sp, custom)
        },
    }
}

/// Compiles the parts from index `i` on, starting from state `st`.
pub open spec fn compile_from(
    parts: Seq<PartView>,
    i: int,
    st: CompilerState,
    custom: Seq<(Seq<char>, CustomTypePattern)>,
) -> Result<CompilerState, Seq<char>>
    decreases parts.len() - i,
{
    if i < 0 || i >= parts.len() {
        Ok(st)
    } else {
        match parts[i] {
            PartView::Literal(t) => compile_from(
                parts,
                i + 1,
                CompilerState { pattern: st.pattern + escaped(t), ..st },
                custom,
            ),
            PartView::EscapedOpen => compile_from(
                parts,
                i + 1,
                CompilerState { pattern: st.pattern + "\\{"@, ..st },
                custom,
            ),
            PartView::EscapedClose => compile_from(
                parts,
                i + 1,
                CompilerState { pattern: st.pattern + "\\}"@, ..st },
                custom,
            ),
            PartView::Field(f) => match handle_field(st, f, custom) {
                Ok(s2) => compile_from(parts, i + 1, s2, custom),
                Err(m) => Err(m),
            },
        }
    }
}

/// The mathematical counterpart of `CompiledFormat`.
#[verifier::ext_equal]
pub struct CompiledView {
    pub pattern: Seq<char>,
    pub fields: Seq<FieldView>,
    pub group_to_field: Seq<(Seq<char>, Seq<char>)>,
    pub field_to_group: Seq<(Seq<char>, Seq<char>)>,
    pub named_fields: Seq<Seq<char>>,
    pub fixed_fields: Seq<usize>,
    pub group_count: nat,
    pub fixed_group_indices: Seq<usize>,
}

impl View for CompiledFormat {
    type V = CompiledView;

    open spec fn view(&self) -> CompiledView {
        CompiledView {
            pattern: self.pattern@,
            fields: field_views(self.fields@),
            group_to_field: str_pairs(self.group_to_field),
            field_to_group: str_pairs(self.field_to_group),
            named_fields: string_views(self.named_fields@),
            fixed_fields: self.fixed_fields@,
            group_count: self.group_count as nat,
            fixed_group_indices: self.fixed_group_indices@,
        }
    }
}

/// The compilation of `format`: the regex pattern (case-insensitive unless
/// asked otherwise) and what is known of every field.
pub open spec fn compiled_of(
    format: Seq<char>,
    case_sensitive: bool,
    custom: Seq<(Seq<char>, CustomTypePattern)>,
) -> Result<CompiledView, Seq<char>> {
    match compile_from(split_parts(format), 0, initial_state(case_sensitive), custom) {
        Ok(st) => Ok(
            CompiledView {
                pattern: st.pattern,
                fields: st.fields,
                group_to_field: st.group_to_field,
                field_to_group: st.field_to_group,
                named_fields: st.named_fields,
                fixed_fields: st.fixed_fields,
                group_count: st.group_index,
                fixed_group_indices: st.fixed_group_indices,
            },
        ),
        Err(m) => Err(m),
    }
}

/// The number of fields among the parts from index `i` on.
pub open spec fn field_parts(parts: Seq<PartView>, i: int) -> nat
    decreases parts.len() - i,
{
    if i < 0 || i >= parts.len() {
        0
    } else {
        (if parts[i] is Field {
            1nat
        } else {
            0nat
        }) + field_parts(parts, i + 1)
    }
}

/// How positional fields sit in a compilation state: field `k` is numbered
/// `k`, and their capture groups are numbered in increasing order among
/// the groups made so far.
pub open spec fn positional_layout(
    fixed_fields: Seq<usize>,
    fixed_group_indices: Seq<usize>,
    group_count: nat,
) -> bool {
    &&& fixed_fields.len() == fixed_group_indices.len()
    &&& forall|k: int| 0 <= k < fixed_fields.len() ==> #[trigger] fixed_fields[k] == k
    &&& forall|k: int|
        0 <= k < fixed_group_indices.len() ==> 1 <= #[trigger] fixed_group_indices[k] <= group_count
    &&& forall|k: int, l: int|
        0 <= k < l < fixed_group_indices.len() ==> #[trigger] fixed_group_indices[k]
            < #[trigger] fixed_group_indices[l]
}

spec fn layout_state(st: CompilerState) -> bool {
    &&& positional_layout(st.fixed_fields, st.fixed_group_indices, st.group_index)
    &&& st.fixed_fields.len() <= st.group_index <= usize::MAX
}

proof fn lemma_handle_field_layout(
    st: CompilerState,
    f: Seq<char>,
    custom: Seq<(Seq<char>, CustomTypePattern)>,
)
    requires
        layout_state(st),
    ensures
        handle_field(st, f, custom) matches Ok(s2) ==> layout_state(s2) && s2.fields.len()
            == st.fields.len() + 1,
{
    if let Ok(s2) = handle_field(st, f, custom) {
        let name = field_name_part(f);
        let sp = format_spec_of(field_spec_part(f), custom)->Ok_0;
        if !names_field(name) {
            let n = st.fixed_fields.len();
            assert(s2.fixed_fields =~= st.fixed_fields.push(n as usize));
            assert(s2.fixed_group_indices =~= st.fixed_group_indices.push((st.group_index + 1) as usize));
            let fg = s2.fixed_group_indices;
            assert forall|k: int, l: int| 0 <= k < l < fg.len() implies #[trigger] fg[k] < #[trigger] fg[l] by {
                if l == fg.len() - 1 {
                    assert(fg[k] == st.fixed_group_indices[k]);
                } else {
                    assert(fg[k] == st.fixed_group_indices[k]);
                    assert(fg[l] == st.fixed_group_indices[l]);
                }
            }
            assert forall|k: int| 0 <= k < s2.fixed_fields.len() implies #[trigger] s2.fixed_fields[k] == k by {
                if k < n {
                    assert(s2.fixed_fields[k] == st.fixed_fields[k]);
                }
            }
            assert forall|k: int| 0 <= k < fg.len() implies 1 <= #[trigger] fg[k] <= s2.group_index by {
                if k < n {
                    assert(fg[k] == st.fixed_group_indices[k]);
                }
            }
        }
    }
}

proof fn lemma_compile_layout(
    parts: Seq<PartView>,
    i: int,
    st: CompilerState,
    custom: Seq<(Seq<char>, CustomTypePattern)>,
)
    requires
        layout_state(st),
    ensures
        compile_from(parts, i, st, custom) matches Ok(s2) ==> layout_state(s2) && s2.fields.len()
            == st.fields.len() + field_parts(parts, i),
    decreases parts.len() - i,
{
    if 0 <= i < parts.len() {
        match parts[i] {
            PartView::Literal(t) => {
                lemma_compile_layout(parts, i + 1, CompilerState { pattern: st.pattern + escaped(t), ..st }, custom);
            },
            PartView::EscapedOpen => {
                lemma_compile_layout(parts, i + 1, CompilerState { pattern: st.pattern + "\\{"@, ..st }, custom);
            },
            PartView::EscapedClose => {
                lemma_compile_layout(parts, i + 1, CompilerState { pattern: st.pattern + "\\}"@, ..st }, custom);
            },
            PartView::Field(f) => {
                lemma_handle_field_layout(st, f, custom);
                if let Ok(s2) = handle_field(st, f, custom) {
                    lemma_compile_layout(parts, i + 1, s2, custom);
                }
            },
        }
    }
}

/// A compiled format has one field per `{...}` of the format; its
/// positional fields are numbered `0, 1, ...` in order, and each reads its
/// own capture group, the groups numbered in increasing order among all the
/// pattern's groups.
pub proof fn law_compiled_layout(
    format: Seq<char>,
    case_sensitive: bool,
    custom: Seq<(Seq<char>, CustomTypePattern)>,
)
    ensures
        compiled_of(format, case_sensitive, custom) matches Ok(cv) ==> {
            &&& cv.fields.len() == field_parts(split_parts(format), 0)
            &&& positional_layout(cv.fixed_fields, cv.fixed_group_indices, cv.group_count)
        },
{
    let st = initial_state(case_sensitive);
    assert(layout_state(st));
    lemma_compile_layout(split_parts(format), 0, st, custom);
}

proof fn lemma_split_plain(c: Seq<char>, i: int, cur: Seq<char>)
    requires
        0 <= i <= c.len(),
        !c.contains('{'),
        !c.contains('}'),
    ensures
        split_from(c, i, cur) == flush(cur + c.skip(i)),
    decreases c.len() - i,
{
    if i >= c.len() {
        assert(cur + c.skip(i) =~= cur);
    } else {
        assert(c[i] != '{' && c[i] != '}') by {
            if c[i] == '{' || c[i] == '}' {
                assert(c.contains(c[i]));
            }
        }
        lemma_split_plain(c, i + 1, cur.push(c[i]));
        assert(cur.push(c[i]) + c.skip(i + 1) =~= cur + c.skip(i));
    }
}

/// A format without fields or braces compiles to its text escaped, after
/// the case flag: every character of it, regex metacharacters included, is
/// matched literally.
pub proof fn law_plain_format_pattern(
    format: Seq<char>,
    case_sensitive: bool,
    custom: Seq<(Seq<char>, CustomTypePattern)>,
)
    requires
        !format.contains('{'),
        !format.contains('}'),
    ensures
        compiled_of(format, case_sensitive, custom) matches Ok(cv) && cv.pattern == (if case_sensitive {
            Seq::empty()
        } else {
            "(?i)"@
        }) + escaped(format) && cv.fields.len() == 0,
{
    lemma_split_plain(format, 0, Seq::empty());
    assert(Seq::<char>::empty() + format.skip(0) =~= format);
    let parts = split_parts(format);
    let st = initial_state(case_sensitive);
    if format.len() == 0 {
        assert(parts.len() == 0);
        assert(st.pattern + escaped(format) =~= st.pattern);
    } else {
        assert(parts == seq![PartView::Literal(format)]);
        let st1 = CompilerState { pattern: st.pattern + escaped(format), ..st };
        assert(compile_from(parts, 1, st1, custom) == Ok::<CompilerState, Seq<char>>(st1));
    }
}

/// Internal compiler state for format string compilation.
pub struct FormatCompiler {
    case_sensitive: bool,
    pattern: String,
    group_index: usize,
    fields: Vec<FieldInfo>,
    group_to_field: FieldMap<String>,
    field_to_group: FieldMap<String>,
    named_fields: Vec<String>,
    fixed_fields: Vec<usize>,
    fixed_count: usize,
    fixed_group_indices: Vec<usize>,
    used_group_names: FieldMap<String>,
    name_types: FieldMap<String>,
}

impl View for FormatCompiler {
    type V = CompilerState;

    closed spec fn view(&self) -> CompilerState {
        CompilerState {
            pattern: self.pattern@,
            group_index: self.group_index as nat,
            fields: field_views(self.fields@),
            group_to_field: str_pairs(self.group_to_field),
            field_to_group: str_pairs(self.field_to_group),
            named_fields: string_views(self.named_fields@),
            fixed_fields: self.fixed_fields@,
            fixed_group_indices: self.fixed_group_indices@,
            used_group_names: str_pairs(self.used_group_names),
            name_types: str_pairs(self.name_types),
        }
    }
}

impl FormatCompiler {
    pub fn new(case_sensitive: bool) -> (c: FormatCompiler)
        ensures
            c@ == initial_state(case_sensitive),
            c.wf(),
            c.field_count() == 0,
            c.case_sensitive_flag() == case_sensitive,
    {
        let mut pattern = String::new();
        if !case_sensitive {
            pattern = string_of("(?i)");
        }
        let c = FormatCompiler {
            case_sensitive,
            pattern,
            group_index: 0,
            fields: Vec::new(),
            group_to_field: FieldMap::new(),
            field_to_group: FieldMap::new(),
            named_fields: Vec::new(),
            fixed_fields: Vec::new(),
            fixed_count: 0,
            fixed_group_indices: Vec::new(),
            used_group_names: FieldMap::new(),
            name_types: FieldMap::new(),
        };
        proof {
            assert(str_pairs(c.group_to_field) =~= Seq::<(Seq<char>, Seq<char>)>::empty());
            assert(str_pairs(c.field_to_group) =~= Seq::<(Seq<char>, Seq<char>)>::empty());
            assert(str_pairs(c.used_group_names) =~= Seq::<(Seq<char>, Seq<char>)>::empty());
            assert(str_pairs(c.name_types) =~= Seq::<(Seq<char>, Seq<char>)>::empty());
            assert(field_views(c.fields@) =~= Seq::<FieldView>::empty());
            assert(string_views(c.named_fields@) =~= Seq::<Seq<char>>::empty());
            assert(c@ =~= initial_state(case_sensitive));
        }
        c
    }

    pub closed spec fn wf(&self) -> bool {
        &&& self.fixed_count == self.fixed_fields@.len()
        &&& self.fixed_fields@.len() <= self.fields@.len()
    }

    pub closed spec fn field_count(&self) -> nat {
        self.fields@.len()
    }

    pub closed spec fn case_sensitive_flag(&self) -> bool {
        self.case_sensitive
    }

    /// Convert a field name to a valid regex group name.
    ///
    /// Replaces characters not valid in regex group names
    /// (dots, brackets, hyphens) with underscores, and handles
    /// name collisions by appending underscores.
    fn to_group_name(&self, field_name: &str, repeat: bool) -> (g: String)
        ensures
            g@ == pad_group_name(
                str_pairs(self.used_group_names),
                group_base(field_name@),
                field_name@,
                repeat,
            ),
    {
        let chars = chars_of(field_name);
        let mut g = String::new();
        let mut i: usize = 0;
        while i < chars.len()
            invariant
                chars@ == field_name@,
                i <= chars.len(),
                g@.len() == i,
                forall|j: int| 0 <= j < i ==> g@[j] == group_base(field_name@)[j],
            decreases chars.len() - i,
        {
            let c = chars[i];
            if c == '.' || c == '[' || c == ']' || c == '-' {
                push_char(&mut g, '_');
            } else {
                push_char(&mut g, c);
            }
            i = i + 1;
        }
        proof {
            assert(g@ =~= group_base(field_name@));
        }
        let ghost used = str_pairs(self.used_group_names);
        let ghost goal = pad_group_name(used, g@, field_name@, repeat);
        loop
            invariant
                used == str_pairs(self.used_group_names),
                goal == pad_group_name(used, group_base(field_name@), field_name@, repeat),
                pad_group_name(used, g@, field_name@, repeat) == goal,
            decreases max_key_len(used) + 1 - g@.len(),
        {
            match get_str(&self.used_group_names, g.as_str()) {
                Some(owner) => {
                    if repeat || !str_equal(owner.as_str(), field_name) {
                        proof {
                            lemma_stored_key_len(used, g@);
                        }
                        push_char(&mut g, '_');
                    } else {
                        return g;
                    }
                },
                None => {
                    return g;
                },
            }
        }
    }

    /// The regex of a field's type with its group count, and the
    /// user-defined type name when the type is one.
    fn type_regex(spec: &FormatSpec, custom: &FieldMap<CustomTypePattern>) -> (r: (
        String,
        usize,
        Option<String>,
    ))
        ensures
            r.0@ == field_pattern(spec@, custom.pairs()).0,
            r.1 == field_pattern(spec@, custom.pairs()).1,
            opt_view(r.2) == custom_type_of(spec@, custom.pairs()),
    {
        match custom.get(spec.type_token.as_str()) {
            Some(c) => (c.pattern.clone(), c.regex_group_count, Some(spec.type_token.clone())),
            None => {
                let (p, n) = spec.format_type.regex_pattern();
                if spec.format_type.is_numeric() {
                    let mut signed = string_of("[-+ ]?");
                    push_str(&mut signed, p.as_str());
                    (signed, n, None)
                } else {
                    (p, n, None)
                }
            },
        }
    }

    fn add_named(&mut self, name: String, spec: FormatSpec, custom: &FieldMap<CustomTypePattern>) -> (r:
        Result<(), String>)
        requires
            old(self).wf(),
        ensures
            match r {
                Ok(_) => {
                    &&& add_named(old(self)@, name@, spec@, custom.pairs()) == Ok::<
                        CompilerState,
                        Seq<char>,
                    >(final(self)@)
                    &&& final(self).wf()
                    &&& final(self).field_count() == old(self).field_count() + 1
                    &&& final(self).case_sensitive_flag() == old(self).case_sensitive_flag()
                },
                Err(m) => add_named(old(self)@, name@, spec@, custom.pairs()) == Err::<
                    CompilerState,
                    Seq<char>,
                >(m@),
            },
    {
        let (type_pattern, extra_groups, custom_type) = Self::type_regex(&spec, custom);
        let next = match self.group_index.checked_add(1) {
            Some(g) => g.checked_add(extra_groups),
            None => None,
        };
        let repeat = match get_str(&self.name_types, name.as_str()) {
            Some(prev) => {
                if !str_equal(prev.as_str(), spec.type_token.as_str()) {
                    let mut m = string_of("RepeatedNameError: field type '");
                    push_str(&mut m, spec.type_token.as_str());
                    push_str(&mut m, "' for field '");
                    push_str(&mut m, name.as_str());
                    push_str(&mut m, "' does not match previous seen type '");
                    push_str(&mut m, prev.as_str());
                    push_str(&mut m, "'");
                    return Err(m);
                }
                true
            },
            None => false,
        };
        let next_index = match next {
            Some(n) => n,
            None => {
                return Err(string_of("too many capture groups"));
            },
        };
        let gn = self.to_group_name(name.as_str(), repeat);
        let (before, after) = padding_of(&spec);
        push_str(&mut self.pattern, before.as_str());
        push_str(&mut self.pattern, "(?P<");
        push_str(&mut self.pattern, gn.as_str());
        push_str(&mut self.pattern, ">");
        push_str(&mut self.pattern, type_pattern.as_str());
        push_str(&mut self.pattern, ")");
        push_str(&mut self.pattern, after.as_str());
        insert_str(&mut self.group_to_field, gn.clone(), name.clone());
        if !repeat {
            insert_str(&mut self.field_to_group, name.clone(), gn.clone());
            self.named_fields.push(name.clone());
            insert_str(&mut self.name_types, name.clone(), spec.type_token.clone());
        }
        insert_str(&mut self.used_group_names, gn.clone(), name.clone());
        let repeated_of = if repeat {
            Some(name.clone())
        } else {
            None
        };
        let format_type = spec.format_type.duplicate();
        let ghost old_fields = self.fields@;
        let info = FieldInfo {
            name,
            is_named: true,
            index: None,
            spec,
            format_type,
            group_name: Some(gn),
            repeated_of,
            custom_type,
        };
        let ghost iv = info@;
        self.fields.push(info);
        self.group_index = next_index;
        proof {
            assert(field_views(self.fields@) =~= field_views(old_fields).push(iv));
            assert(string_views(self.named_fields@) =~= if repeat {
                string_views(old(self).named_fields@)
            } else {
                string_views(old(self).named_fields@).push(name@)
            });
            assert(final(self)@ =~= add_named(old(self)@, name@, spec@, custom.pairs())->Ok_0);
        }
        Ok(())
    }

    fn add_positional(
        &mut self,
        name: String,
        spec: FormatSpec,
        custom: &FieldMap<CustomTypePattern>,
    ) -> (r: Result<(), String>)
        requires
            old(self).wf(),
            old(self).field_count() < usize::MAX,
        ensures
            match r {
                Ok(_) => {
                    &&& add_positional(old(self)@, name@, spec@, custom.pairs()) == Ok::<
                        CompilerState,
                        Seq<char>,
                    >(final(self)@)
                    &&& final(self).wf()
                    &&& final(self).field_count() == old(self).field_count() + 1
                    &&& final(self).case_sensitive_flag() == old(self).case_sensitive_flag()
                },
                Err(m) => add_positional(old(self)@, name@, spec@, custom.pairs()) == Err::<
                    CompilerState,
                    Seq<char>,
                >(m@),
            },
    {
        let (type_pattern, extra_groups, custom_type) = Self::type_regex(&spec, custom);
        let next = match self.group_index.checked_add(1) {
            Some(g) => g.checked_add(extra_groups),
            None => None,
        };
        let next_index = match next {
            Some(n) => n,
            None => {
                return Err(string_of("too many capture groups"));
            },
        };
        let index = self.fixed_count;
        self.fixed_count = self.fixed_count + 1;
        self.fixed_fields.push(index);
        self.fixed_group_indices.push(self.group_index + 1);
        let (before, after) = padding_of(&spec);
        push_str(&mut self.pattern, before.as_str());
        push_str(&mut self.pattern, "(");
        push_str(&mut self.pattern, type_pattern.as_str());
        push_str(&mut self.pattern, ")");
        push_str(&mut self.pattern, after.as_str());
        let format_type = spec.format_type.duplicate();
        let ghost old_fields = self.fields@;
        let info = FieldInfo {
            name,
            is_named: false,
            index: Some(index),
            spec,
            format_type,
            group_name: None,
            repeated_of: None,
            custom_type,
        };
        let ghost iv = info@;
        self.fields.push(info);
        self.group_index = next_index;
        proof {
            assert(field_views(self.fields@) =~= field_views(old_fields).push(iv));
            assert(final(self)@ =~= add_positional(old(self)@, name@, spec@, custom.pairs())->Ok_0);
        }
        Ok(())
    }

    /// Process a single field specification and append its regex pattern.
    ///
    /// Handles both named fields (`{name:d}`) and positional fields (`{:d}` or `{}`).
    fn handle_field(&mut self, field_str: &str, custom: &FieldMap<CustomTypePattern>) -> (r: Result<
        (),
        String,
    >)
        requires
            old(self).wf(),
            old(self).field_count() < usize::MAX,
        ensures
            match r {
                Ok(_) => {
                    &&& handle_field(old(self)@, field_str@, custom.pairs())
                        == Ok::<CompilerState, Seq<char>>(final(self)@)
                    &&& final(self).wf()
                    &&& final(self).field_count() == old(self).field_count() + 1
                    &&& final(self).case_sensitive_flag() == old(self).case_sensitive_flag()
                },
                Err(m) => handle_field(old(self)@, field_str@, custom.pairs()) == Err::<
                    CompilerState,
                    Seq<char>,
                >(m@),
            },
    {
        let ghost f = field_str@;
        let chars = chars_of(field_str);
        // Split into name and format spec
        let colon = find_char(&chars, ':');
        let name: String;
        let spec_str: String;
        match colon {
            Some(k) => {
                proof {
                    lemma_first_index(f, ':');
                }
                name = string_of_range(&chars, 0, k);
                spec_str = string_of_range(&chars, k + 1, chars.len());
                proof {
                    assert(name@ =~= f.take(k as int));
                    assert(spec_str@ =~= f.skip(k + 1));
                }
            },
            None => {
                name = string_of(field_str);
                spec_str = String::new();
            },
        }
        assert(name@ == field_name_part(f));
        assert(spec_str@ == field_spec_part(f));
        // Parse the format specification
        let spec = match parse_format_spec_with_custom(spec_str.as_str(), custom) {
            Ok(s) => s,
            Err(m) => {
                return Err(m);
            },
        };
        let name_chars = chars_of(name.as_str());
        // Determine if named or positional
        let is_named = name_chars.len() > 0 && (char_is_alphabetic(name_chars[0]) || name_chars[0]
            == '_');
        assert(is_named == names_field(name@));
        if is_named {
            self.add_named(name, spec, custom)
        } else {
            self.add_positional(name, spec, custom)
        }
    }

    /// Compile the format string into regex pattern and metadata.
    #[verifier::rlimit(40)]
    pub fn compile(self, format: &str, custom: &FieldMap<CustomTypePattern>) -> (r: Result<
        CompiledFormat,
        String,
    >)
        requires
            self@ == initial_state(self.case_sensitive_flag()),
            self.wf(),
            self.field_count() == 0,
        ensures
            match r {
                Ok(c) => compiled_of(format@, self.case_sensitive_flag(), custom.pairs()) == Ok::<
                    CompiledView,
                    Seq<char>,
                >(c@),
                Err(m) => compiled_of(format@, self.case_sensitive_flag(), custom.pairs()) == Err::<
                    CompiledView,
                    Seq<char>,
                >(m@),
            },
    {
        let parts = self.split_format(format);
        let ghost pv = part_views(parts@);
        let ghost cs = self.case_sensitive_flag();
        let ghost goal = compile_from(pv, 0, initial_state(cs), custom.pairs());
        let mut st = self;
        let mut i: usize = 0;
        while i < parts.len()
            invariant
                pv == part_views(parts@),
                pv == split_parts(format@),
                goal == compile_from(pv, 0, initial_state(cs), custom.pairs()),
                cs == self.case_sensitive_flag(),
                i <= parts@.len(),
                st.wf(),
                st.field_count() <= i,
                goal == compile_from(pv, i as int, st@, custom.pairs()),
            decreases parts.len() - i,
        {
            let ghost before = st@;
            match &parts[i] {
                FormatPart::Literal(text) => {
                    let e = escape_regex(text.as_str());
                    push_str(&mut st.pattern, e.as_str());
                    proof {
                        assert(st@ =~= CompilerState { pattern: before.pattern + escaped(text@), ..before });
                    }
                },
                FormatPart::EscapedOpen => {
                    push_str(&mut st.pattern, "\\{");
                    proof {
                        assert(st@ =~= CompilerState { pattern: before.pattern + "\\{"@, ..before });
                    }
                },
                FormatPart::EscapedClose => {
                    push_str(&mut st.pattern, "\\}");
                    proof {
                        assert(st@ =~= CompilerState { pattern: before.pattern + "\\}"@, ..before });
                    }
                },
                FormatPart::Field(field_str) => {
                    proof {
                        assert(pv[i as int] == PartView::Field(field_str@));
                    }
                    match st.handle_field(field_str.as_str(), custom) {
                        Ok(_) => {},
                        Err(m) => {
                            return Err(m);
                        },
                    }
                },
            }
            i = i + 1;
        }
        let ghost last = st@;
        proof {
            assert(goal == Ok::<CompilerState, Seq<char>>(last));
        }
        let r = CompiledFormat {
            pattern: st.pattern,
            fields: st.fields,
            group_to_field: st.group_to_field,
            field_to_group: st.field_to_group,
            named_fields: st.named_fields,
            fixed_fields: st.fixed_fields,
            group_count: st.group_index,
            fixed_group_indices: st.fixed_group_indices,
        };
        proof {
            assert(r@ =~= compiled_of(format@, cs, custom.pairs())->Ok_0);
        }
        Ok(r)
    }

    /// Split format string into literal text, escaped braces, and field specs.
    pub fn split_format(&self, format: &str) -> (parts: Vec<FormatPart>)
        ensures
            part_views(parts@) == split_parts(format@),
    {
        let c = chars_of(format);
        proof {
            lemma_len_le_byte_len(format@);
        }
        let ghost whole = split_parts(format@);
        let mut parts: Vec<FormatPart> = Vec::new();
        let mut current = String::new();
        let mut i: usize = 0;
        while i < c.len()
            invariant
                c@ == format@,
                c@.len() <= isize::MAX,
                i <= c.len(),
                part_views(parts@) + split_from(c@, i as int, current@) == whole,
            decreases c.len() - i,
        {
            let ghost before = part_views(parts@);
            let ghost cur = current@;
            let ch = c[i];
            if ch == '{' {
                if i + 1 < c.len() && c[i + 1] == '{' {
                    proof {
                        assert(split_from(c@, i as int, cur) == flush(cur) + seq![
                            PartView::EscapedOpen,
                        ] + split_from(c@, i + 2, Seq::empty()));
                    }
                    push_literal(&mut parts, current);
                    current = String::new();
                    let ghost mid = parts@;
                    parts.push(FormatPart::EscapedOpen);
                    proof {
                        lemma_part_views_push(mid, FormatPart::EscapedOpen);
                        assert(part_views(parts@) + split_from(c@, i + 2, current@) =~= before + (
                        flush(cur) + seq![PartView::EscapedOpen] + split_from(
                            c@,
                            i + 2,
                            Seq::empty(),
                        )));
                    }
                    i = i + 2;
                } else {
                    proof {
                        lemma_field_scan(c@, i + 1, 1);
                        let r = field_scan(c@, i + 1, 1);
                        assert(split_from(c@, i as int, cur) == flush(cur) + seq![
                            PartView::Field(r.0),
                        ] + split_from(c@, r.1, Seq::empty()));
                    }
                    push_literal(&mut parts, current);
                    current = String::new();
                    let (field, next) = scan_field(&c, i + 1);
                    let ghost fv = field@;
                    let ghost mid = parts@;
                    let ghost fp = FormatPart::Field(field);
                    parts.push(FormatPart::Field(field));
                    proof {
                        lemma_part_views_push(mid, fp);
                        assert(part_views(parts@) + split_from(c@, next as int, current@) =~= before
                            + (flush(cur) + seq![PartView::Field(fv)] + split_from(
                            c@,
                            next as int,
                            Seq::empty(),
                        )));
                    }
                    i = next;
                }
            } else if ch == '}' && i + 1 < c.len() && c[i + 1] == '}' {
                proof {
                    assert(split_from(c@, i as int, cur) == flush(cur) + seq![
                        PartView::EscapedClose,
                    ] + split_from(c@, i + 2, Seq::empty()));
                }
                push_literal(&mut parts, current);
                current = String::new();
                let ghost mid = parts@;
                parts.push(FormatPart::EscapedClose);
                proof {
                    lemma_part_views_push(mid, FormatPart::EscapedClose);
                    assert(part_views(parts@) + split_from(c@, i + 2, current@) =~= before + (flush(
                        cur,
                    ) + seq![PartView::EscapedClose] + split_from(c@, i + 2, Seq::empty())));
                }
                i = i + 2;
            } else {
                push_char(&mut current, ch);
                i = i + 1;
            }
        }
        let ghost before = part_views(parts@);
        let ghost cur = current@;
        push_literal(&mut parts, current);
        proof {
            assert(before + flush(cur) =~= part_views(parts@));
        }
        parts
    }
}

/// Views of a sequence of parts.
pub open spec fn part_views(s: Seq<FormatPart>) -> Seq<PartView> {
    s.map_values(|p: FormatPart| p@)
}

proof fn lemma_part_views_push(s: Seq<FormatPart>, p: FormatPart)
    ensures
        part_views(s.push(p)) == part_views(s).push(p@),
{
    assert(part_views(s.push(p)) =~= part_views(s).push(p@));
}

/// Adds the pending literal text as a part when it is not empty.
fn push_literal(parts: &mut Vec<FormatPart>, current: String)
    ensures
        part_views(final(parts)@) == part_views(old(parts)@) + flush(current@),
{
    if !current.as_str().is_empty() {
        let ghost cv = current@;
        parts.push(FormatPart::Literal(current));
        proof {
            lemma_part_views_push(old(parts)@, FormatPart::Literal(current));
            assert(part_views(old(parts)@).push(PartView::Literal(cv)) =~= part_views(old(parts)@)
                + flush(cv));
        }
    } else {
        proof {
            assert(part_views(old(parts)@) + flush(current@) =~= part_views(old(parts)@));
        }
    }
}

/// Reads the text of a field whose body starts at `start`.
fn scan_field(c: &Vec<char>, start: usize) -> (r: (String, usize))
    requires
        start <= c@.len(),
        c@.len() <= isize::MAX,
    ensures
        r.0@ == field_scan(c@, start as int, 1).0,
        r.1 == field_scan(c@, start as int, 1).1,
{
    let ghost goal = field_scan(c@, start as int, 1);
    let mut field = String::new();
    let mut depth: usize = 1;
    let mut j = start;
    while j < c.len()
        invariant
            start <= j <= c@.len(),
            c@.len() <= isize::MAX,
            goal == field_scan(c@, start as int, 1),
            1 <= depth <= j - start + 1,
            field@ + field_scan(c@, j as int, depth as nat).0 == goal.0,
            field_scan(c@, j as int, depth as nat).1 == goal.1,
        decreases c.len() - j,
    {
        let fch = c[j];
        let ghost r = field_scan(c@, j as int, depth as nat);
        if fch == '{' {
            proof {
                assert(field@.push('{') + field_scan(c@, j + 1, (depth + 1) as nat).0 =~= field@
                    + r.0);
            }
            depth = depth + 1;
            push_char(&mut field, '{');
        } else if fch == '}' {
            if depth == 1 {
                proof {
                    assert(c@[j as int] == '}');
                    assert(depth as nat <= 1);
                    assert(r == (Seq::<char>::empty(), j + 1, true));
                    assert(field@ + r.0 =~= field@);
                }
                return (field, j + 1);
            }
            proof {
                assert(field@.push('}') + field_scan(c@, j + 1, (depth - 1) as nat).0 =~= field@
                    + r.0);
            }
            depth = depth - 1;
            push_char(&mut field, '}');
        } else {
            proof {
                assert(field@.push(fch) + field_scan(c@, j + 1, depth as nat).0 =~= field@ + r.0);
            }
            push_char(&mut field, fch);
        }
        j = j + 1;
    }
    proof {
        assert(field@ + Seq::<char>::empty() =~= field@);
    }
    (field, j)
}

/// Compile a format string into a regex pattern and field metadata.
///
/// This is the main entry point for the compiler. It takes a format
/// string like `"Hello {name}! You are {:d} years old."` and produces
/// a CompiledFormat containing the regex and all metadata needed for
/// parsing.
pub fn compile_format(format: &str, case_sensitive: bool) -> (r: Result<CompiledFormat, String>)
    ensures
        match r {
            Ok(c) => compiled_of(format@, case_sensitive, Seq::empty()) == Ok::<
                CompiledView,
                Seq<char>,
            >(c@),
            Err(m) => compiled_of(format@, case_sensitive, Seq::empty()) == Err::<
                CompiledView,
                Seq<char>,
            >(m@),
        },
{
    let custom: FieldMap<CustomTypePattern> = FieldMap::new();
    proof {
        assert(custom.pairs() =~= Seq::<(Seq<char>, CustomTypePattern)>::empty());
    }
    compile_format_with_custom(format, case_sensitive, &custom)
}

/// Compile a format string whose fields may use the type names registered
/// in `custom`.
pub fn compile_format_with_custom(
    format: &str,
    case_sensitive: bool,
    custom: &FieldMap<CustomTypePattern>,
) -> (r: Result<CompiledFormat, String>)
    ensures
        match r {
            Ok(c) => compiled_of(format@, case_sensitive, custom.pairs()) == Ok::<
                CompiledView,
                Seq<char>,
            >(c@),
            Err(m) => compiled_of(format@, case_sensitive, custom.pairs()) == Err::<
                CompiledView,
                Seq<char>,
            >(m@),
        },
{
    let compiler = FormatCompiler::new(case_sensitive);
    compiler.compile(format, custom)
}


/// Prefixes chain.
proof fn lemma_prefix_chain(a: Seq<char>, b: Seq<char>, c: Seq<char>)
    requires
        a.is_prefix_of(b),
        b.is_prefix_of(c),
    ensures
        a.is_prefix_of(c),
{
    assert forall|i: int| 0 <= i < a.len() implies a[i] == c.subrange(0, a.len() as int)[i] by {
        assert(a[i] == b.subrange(0, a.len() as int)[i]);
        assert(b[i] == c.subrange(0, b.len() as int)[i]);
    }
    assert(a =~= c.subrange(0, a.len() as int));
}

proof fn lemma_appended_prefix(a: Seq<char>, t: Seq<char>)
    ensures
        a.is_prefix_of(a + t),
{
    assert(a =~= (a + t).subrange(0, a.len() as int));
}

proof fn lemma_add_named_extends(
    st: CompilerState,
    name: Seq<char>,
    sp: FormatSpecView,
    custom: Seq<(Seq<char>, CustomTypePattern)>,
)
    ensures
        add_named(st, name, sp, custom) matches Ok(s2) ==> st.pattern.is_prefix_of(s2.pattern),
{
    if add_named(st, name, sp, custom) is Ok {
        let s2 = add_named(st, name, sp, custom)->Ok_0;
        let (tp, extra) = field_pattern(sp, custom);
        let prev = lookup(st.name_types, name);
        let gn = pad_group_name(st.used_group_names, group_base(name), name, prev is Some);
        let t = padding_before(sp) + "(?P<"@ + gn + ">"@ + tp + ")"@ + padding_after(sp);
        assert(s2.pattern =~= st.pattern + t);
        lemma_appended_prefix(st.pattern, t);
    }
}

proof fn lemma_add_positional_extends(
    st: CompilerState,
    name: Seq<char>,
    sp: FormatSpecView,
    custom: Seq<(Seq<char>, CustomTypePattern)>,
)
    ensures
        add_positional(st, name, sp, custom) matches Ok(s2) ==> st.pattern.is_prefix_of(s2.pattern),
{
    if add_positional(st, name, sp, custom) is Ok {
        let s2 = add_positional(st, name, sp, custom)->Ok_0;
        let (tp, extra) = field_pattern(sp, custom);
        let t = padding_before(sp) + "("@ + tp + ")"@ + padding_after(sp);
        assert(s2.pattern =~= st.pattern + t);
        lemma_appended_prefix(st.pattern, t);
    }
}

/// Adding a field only appends to the pattern.
proof fn lemma_handle_field_extends(
    st: CompilerState,
    f: Seq<char>,
    custom: Seq<(Seq<char>, CustomTypePattern)>,
)
    ensures
        handle_field(st, f, custom) matches Ok(s2) ==> st.pattern.is_prefix_of(s2.pattern),
{
    let name = field_name_part(f);
    match format_spec_of(field_spec_part(f), custom) {
        Err(_) => {},
        Ok(sp) => {
            lemma_add_named_extends(st, name, sp, custom);
            lemma_add_positional_extends(st, name, sp, custom);
        },
    }
}

/// Compiling the remaining parts only appends to the pattern.
proof fn lemma_compile_extends(
    parts: Seq<PartView>,
    i: int,
    st: CompilerState,
    custom: Seq<(Seq<char>, CustomTypePattern)>,
)
    ensures
        compile_from(parts, i, st, custom) matches Ok(s2) ==> st.pattern.is_prefix_of(s2.pattern),
    decreases parts.len() - i,
{
    if i < 0 || i >= parts.len() {
        assert(st.pattern =~= st.pattern.subrange(0, st.pattern.len() as int));
    } else {
        let next = match parts[i] {
            PartView::Literal(t) => Some(CompilerState { pattern: st.pattern + escaped(t), ..st }),
            PartView::EscapedOpen => Some(CompilerState { pattern: st.pattern + "\\{"@, ..st }),
            PartView::EscapedClose => Some(CompilerState { pattern: st.pattern + "\\}"@, ..st }),
            PartView::Field(f) => match handle_field(st, f, custom) {
                Ok(s2) => Some(s2),
                Err(_) => None,
            },
        };
        match parts[i] {
            PartView::Literal(t) => lemma_appended_prefix(st.pattern, escaped(t)),
            PartView::EscapedOpen => lemma_appended_prefix(st.pattern, "\\{"@),
            PartView::EscapedClose => lemma_appended_prefix(st.pattern, "\\}"@),
            PartView::Field(f) => lemma_handle_field_extends(st, f, custom),
        }
        match next {
            Some(n) => {
                lemma_compile_extends(parts, i + 1, n, custom);
                if compile_from(parts, i + 1, n, custom) is Ok {
                    lemma_prefix_chain(st.pattern, n.pattern, compile_from(parts, i + 1, n, custom)->Ok_0.pattern);
                }
            },
            None => {},
        }
    }
}

/// Unless asked to be case-sensitive, a format compiles to a pattern that
/// starts with the case-insensitive flag `(?i)`.
pub proof fn law_case_insensitive_flag(format: Seq<char>, custom: Seq<(Seq<char>, CustomTypePattern)>)
    requires
        compiled_of(format, false, custom) is Ok,
    ensures
        "(?i)"@.is_prefix_of(compiled_of(format, false, custom)->Ok_0.pattern),
{
    lemma_compile_extends(split_parts(format), 0, initial_state(false), custom);
}

} // verus!
