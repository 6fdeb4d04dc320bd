//! Format type specifiers: the regex each one matches and how matched text
//! is converted to a value.

use crate::compiler::{FormatSpec, FormatSpecView, escaped, is_regex_special};
use crate::numbers::{IntErrorKind, i64_limit, lemma_scan_bound, float_error_text, float_literal, int_error_text, int_from_str_radix, int_from_str_radix_exec, is_float_literal, push_int_error};
use crate::text::{byte_len, byte_offset, char_width_of, is_char_offset, lemma_byte_offset_mono, lemma_byte_offset_step, lemma_byte_offset_full, string_of_range};
use crate::result::{ParseValue, ValueView};
use crate::text::{chars_of, push_char, push_str, string_of};
use vstd::prelude::*;

verus! {

/// All supported format type specifiers.
///
/// Each variant corresponds to a Python format mini-language type character
/// or a parse-specific extension (datetime types, etc.).
#[derive(Debug, Clone, PartialEq)]
pub enum FormatType {
    /// Default: match any text, return as string.
    Default,
    /// `s` - Non-whitespace string.
    NonWhitespace,
    /// `w` - Word characters (alphanumeric + underscore).
    Word,
    /// `W` - Non-word characters.
    NonWord,
    /// `d` - Decimal integer (supports sign, base prefixes 0x/0o/0b).
    Decimal,
    /// `b` - Binary integer.
    Binary,
    /// `o` - Octal integer.
    Octal,
    /// `x` - Hexadecimal integer.
    Hex,
    /// `n` - Number with thousands separator (e.g., 1,000,000).
    NumberWithSeparator,
    /// `f` - Fixed-point float.
    Float,
    /// `F` - Fixed-point decimal.
    FloatDecimal,
    /// `e` - Scientific notation float.
    Scientific,
    /// `g` - General float (either fixed or scientific).
    GeneralFloat,
    /// `%` - Percentage (parsed as float, divided by 100).
    Percentage,
    /// `l` - Letters only [A-Za-z]+.
    Letters,
    /// `S` - Whitespace characters.
    Whitespace,
    /// `D` - Non-digit characters.
    NonDigit,
    /// `ti` - ISO 8601 datetime.
    DateTimeISO,
    /// `te` - RFC 2822 email datetime.
    DateTimeEmail,
    /// `ta` - US-style datetime (MM/DD/YYYY).
    DateTimeUS,
    /// `tg` - Generic datetime (DD/MM/YYYY).
    DateTimeGeneric,
    /// `th` - HTTP log datetime.
    DateTimeHTTP,
    /// `tc` - C standard ctime() datetime.
    DateTimeCTime,
    /// `tt` - Time only (HH:MM:SS).
    TimeOnly,
    /// `ts` - Syslog datetime (Mon DD HH:MM:SS).
    DateTimeSyslog,
    /// Custom strftime/strptime-like datetime format.
    CustomDateTime(String),
}

/// The mathematical counterpart of `FormatType`.
pub enum TypeView {
    Default,
    NonWhitespace,
    Word,
    NonWord,
    Decimal,
    Binary,
    Octal,
    Hex,
    NumberWithSeparator,
    Float,
    FloatDecimal,
    Scientific,
    GeneralFloat,
    Percentage,
    Letters,
    Whitespace,
    NonDigit,
    DateTimeISO,
    DateTimeEmail,
    DateTimeUS,
    DateTimeGeneric,
    DateTimeHTTP,
    DateTimeCTime,
    TimeOnly,
    DateTimeSyslog,
    CustomDateTime(Seq<char>),
}

impl View for FormatType {
    type V = TypeView;

    open spec fn view(&self) -> TypeView {
        match self {
            FormatType::Default => TypeView::Default,
            FormatType::NonWhitespace => TypeView::NonWhitespace,
            FormatType::Word => TypeView::Word,
            FormatType::NonWord => TypeView::NonWord,
            FormatType::Decimal => TypeView::Decimal,
            FormatType::Binary => TypeView::Binary,
            FormatType::Octal => TypeView::Octal,
            FormatType::Hex => TypeView::Hex,
            FormatType::NumberWithSeparator => TypeView::NumberWithSeparator,
            FormatType::Float => TypeView::Float,
            FormatType::FloatDecimal => TypeView::FloatDecimal,
            FormatType::Scientific => TypeView::Scientific,
            FormatType::GeneralFloat => TypeView::GeneralFloat,
            FormatType::Percentage => TypeView::Percentage,
            FormatType::Letters => TypeView::Letters,
            FormatType::Whitespace => TypeView::Whitespace,
            FormatType::NonDigit => TypeView::NonDigit,
            FormatType::DateTimeISO => TypeView::DateTimeISO,
            FormatType::DateTimeEmail => TypeView::DateTimeEmail,
            FormatType::DateTimeUS => TypeView::DateTimeUS,
            FormatType::DateTimeGeneric => TypeView::DateTimeGeneric,
            FormatType::DateTimeHTTP => TypeView::DateTimeHTTP,
            FormatType::DateTimeCTime => TypeView::DateTimeCTime,
            FormatType::TimeOnly => TypeView::TimeOnly,
            FormatType::DateTimeSyslog => TypeView::DateTimeSyslog,
            FormatType::CustomDateTime(f) => TypeView::CustomDateTime(f@),
        }
    }
}

/// The type named by a type specifier string.
pub open spec fn type_named(t: Seq<char>) -> Option<TypeView> {
    if t.len() == 0 {
        Some(TypeView::Default)
    } else if t.len() == 1 {
        let c = t[0];
        if c == 's' {
            Some(TypeView::NonWhitespace)
        } else if c == 'w' {
            Some(TypeView::Word)
        } else if c == 'W' {
            Some(TypeView::NonWord)
        } else if c == 'd' {
            Some(TypeView::Decimal)
        } else if c == 'b' {
            Some(TypeView::Binary)
        } else if c == 'o' {
            Some(TypeView::Octal)
        } else if c == 'x' {
            Some(TypeView::Hex)
        } else if c == 'n' {
            Some(TypeView::NumberWithSeparator)
        } else if c == 'f' {
            Some(TypeView::Float)
        } else if c == 'F' {
            Some(TypeView::FloatDecimal)
        } else if c == 'e' {
            Some(TypeView::Scientific)
        } else if c == 'g' {
            Some(TypeView::GeneralFloat)
        } else if c == '%' {
            Some(TypeView::Percentage)
        } else if c == 'l' {
            Some(TypeView::Letters)
        } else if c == 'S' {
            Some(TypeView::Whitespace)
        } else if c == 'D' {
            Some(TypeView::NonDigit)
        } else {
            None
        }
    } else if t.len() == 2 && t[0] == 't' {
        let c = t[1];
        if c == 'i' {
            Some(TypeView::DateTimeISO)
        } else if c == 'e' {
            Some(TypeView::DateTimeEmail)
        } else if c == 'a' {
            Some(TypeView::DateTimeUS)
        } else if c == 'g' {
            Some(TypeView::DateTimeGeneric)
        } else if c == 'h' {
            Some(TypeView::DateTimeHTTP)
        } else if c == 'c' {
            Some(TypeView::DateTimeCTime)
        } else if c == 't' {
            Some(TypeView::TimeOnly)
        } else if c == 's' {
            Some(TypeView::DateTimeSyslog)
        } else {
            None
        }
    } else {
        None
    }
}

/// The name each built-in type is written with in a format specification,
/// as the type table documents it (`d` decimal, `b` binary, `o` octal, `x`
/// hexadecimal, ...).
pub open spec fn documented_name(ty: TypeView) -> Option<Seq<char>> {
    match ty {
        TypeView::Default => Some(Seq::empty()),
        TypeView::NonWhitespace => Some(seq!['s']),
        TypeView::Word => Some(seq!['w']),
        TypeView::NonWord => Some(seq!['W']),
        TypeView::Decimal => Some(seq!['d']),
        TypeView::Binary => Some(seq!['b']),
        TypeView::Octal => Some(seq!['o']),
        TypeView::Hex => Some(seq!['x']),
        TypeView::NumberWithSeparator => Some(seq!['n']),
        TypeView::Float => Some(seq!['f']),
        TypeView::FloatDecimal => Some(seq!['F']),
        TypeView::Scientific => Some(seq!['e']),
        TypeView::GeneralFloat => Some(seq!['g']),
        TypeView::Percentage => Some(seq!['%']),
        TypeView::Letters => Some(seq!['l']),
        TypeView::Whitespace => Some(seq!['S']),
        TypeView::NonDigit => Some(seq!['D']),
        TypeView::DateTimeISO => Some(seq!['t', 'i']),
        TypeView::DateTimeEmail => Some(seq!['t', 'e']),
        TypeView::DateTimeUS => Some(seq!['t', 'a']),
        TypeView::DateTimeGeneric => Some(seq!['t', 'g']),
        TypeView::DateTimeHTTP => Some(seq!['t', 'h']),
        TypeView::DateTimeCTime => Some(seq!['t', 'c']),
        TypeView::TimeOnly => Some(seq!['t', 't']),
        TypeView::DateTimeSyslog => Some(seq!['t', 's']),
        TypeView::CustomDateTime(_) => None,
    }
}

/// A type name resolves to a type exactly when the type table gives that
/// name to that type: each name means one type and each built-in type has
/// one name (so `o` is octal and nothing else is).
pub proof fn law_type_names(t: Seq<char>, ty: TypeView)
    ensures
        type_named(t) == Some(ty) <==> documented_name(ty) == Some(t),
{
    if t.len() == 1 {
        assert(t =~= seq![t[0]]);
    } else if t.len() == 2 {
        assert(t =~= seq![t[0], t[1]]);
    } else if t.len() == 0 {
        assert(t =~= Seq::<char>::empty());
    }
}

/// The regex fragment for each `%` directive of a custom datetime format.
pub open spec fn datetime_token_pattern(c: char) -> Option<Seq<char>> {
    if c == 'a' {
        Some("(?:Sun|Mon|Tue|Wed|Thu|Fri|Sat)"@)
    } else if c == 'A' {
        Some("(?:Sunday|Monday|Tuesday|Wednesday|Thursday|Friday|Saturday)"@)
    } else if c == 'w' {
        Some("[0-6]"@)
    } else if c == 'd' {
        Some("[0-9]{1,2}"@)
    } else if c == 'b' {
        Some("(?:Jan|Feb|Mar|Apr|May|Jun|Jul|Aug|Sep|Oct|Nov|Dec)"@)
    } else if c == 'B' {
        Some(
            "(?:January|February|March|April|May|June|July|August|September|October|November|December)"@,
        )
    } else if c == 'm' {
        Some("[0-9]{1,2}"@)
    } else if c == 'y' {
        Some("[0-9]{2}"@)
    } else if c == 'Y' {
        Some("[0-9]{4}"@)
    } else if c == 'H' {
        Some("[0-9]{1,2}"@)
    } else if c == 'I' {
        Some("[0-9]{1,2}"@)
    } else if c == 'p' {
        Some("(?:AM|PM)"@)
    } else if c == 'M' {
        Some("[0-9]{2}"@)
    } else if c == 'S' {
        Some("[0-9]{2}"@)
    } else if c == 'f' {
        Some("[0-9]{1,6}"@)
    } else if c == 'z' {
        Some("[+|-][0-9]{2}(:?[0-9]{2})?(:?[0-9]{2})?"@)
    } else if c == 'j' {
        Some("[0-9]{1,3}"@)
    } else if c == 'U' {
        Some("[0-9]{1,2}"@)
    } else if c == 'W' {
        Some("[0-9]{1,2}"@)
    } else {
        None
    }
}

/// The regex matching a custom datetime format: known `%` directives become
/// their fragments, regex metacharacters are escaped, and everything else is
/// kept as is.
pub open spec fn datetime_regex(f: Seq<char>) -> Seq<char>
    decreases f.len(),
{
    if f.len() == 0 {
        Seq::empty()
    } else if f[0] == '%' && f.len() >= 2 && datetime_token_pattern(f[1]) is Some {
        datetime_token_pattern(f[1])->0 + datetime_regex(f.skip(2))
    } else if is_regex_special(f[0]) {
        seq!['\\', f[0]] + datetime_regex(f.skip(1))
    } else {
        seq![f[0]] + datetime_regex(f.skip(1))
    }
}

/// The number of capture groups a `%` directive's fragment holds: the two
/// optional parts of a `%z` offset.
pub open spec fn token_groups(c: char) -> nat {
    if c == 'z' {
        2
    } else {
        0
    }
}

/// The number of capture groups in the regex of a custom datetime format
/// (see `datetime_regex`).
pub open spec fn datetime_groups(f: Seq<char>) -> nat
    decreases f.len(),
{
    if f.len() == 0 {
        0
    } else if f[0] == '%' && f.len() >= 2 && datetime_token_pattern(f[1]) is Some {
        token_groups(f[1]) + datetime_groups(f.skip(2))
    } else {
        datetime_groups(f.skip(1))
    }
}


/// The regex each type matches, with the number of capture groups it holds.
pub open spec fn type_pattern(t: TypeView) -> (Seq<char>, nat) {
    match t {
        TypeView::Default => (".*?"@, 0),
        TypeView::NonWhitespace => (".+"@, 0),
        TypeView::Word => ("\\w+"@, 0),
        TypeView::NonWord => ("\\W+"@, 0),
        TypeView::Letters => ("[A-Za-z]+"@, 0),
        TypeView::Whitespace => ("\\S+"@, 0),
        TypeView::NonDigit => ("\\D+"@, 0),
        TypeView::Decimal => ("\\d+"@, 0),
        TypeView::Binary => ("(0[bB])?[01]+"@, 1),
        TypeView::Octal => ("(0[oO])?[0-7]+"@, 1),
        TypeView::Hex => ("(0[xX])?[0-9a-fA-F]+"@, 1),
        TypeView::NumberWithSeparator => ("\\d{1,3}([,._]\\d{3})*"@, 1),
        TypeView::Float => ("\\d*\\.\\d+"@, 0),
        TypeView::FloatDecimal => ("\\d*\\.\\d+"@, 0),
        TypeView::Scientific => ("(?:\\d*\\.\\d+[eE][-+]?\\d+|nan|NAN|inf|INF)"@, 0),
        TypeView::GeneralFloat => ("(?:\\d+(\\.\\d+)?([eE][-+]?\\d+)?|nan|NAN|inf|INF)"@, 2),
        TypeView::Percentage => ("\\d+(\\.\\d+)?%"@, 1),
        TypeView::DateTimeISO => (
            "\\d{4}-\\d\\d-\\d\\d(?:[T ]\\d\\d:\\d\\d(?::\\d\\d(?:\\.\\d+)?)?(?:\\s*(?:Z|[+-]\\d\\d:?\\d\\d))?)?"@,
            0,
        ),
        TypeView::DateTimeEmail => (
            "(?:\\w{3},?\\s+)?\\d\\d?\\s+\\w{3}\\s+\\d{4}\\s+\\d\\d:\\d\\d(?::\\d\\d)?\\s*(?:\\w+|[+-]\\d\\d:?\\d\\d)?"@,
            0,
        ),
        TypeView::DateTimeUS => (
            "(?:\\d\\d?|\\w+)[/-](?:\\d\\d?|\\w+)[/-]\\d{4}(?:\\s+\\d\\d:\\d\\d(?::\\d\\d)?\\s*(?:[AP]M)?\\s*(?:\\w+|[+-]\\d\\d?:?\\d\\d)?)?"@,
            0,
        ),
        TypeView::DateTimeGeneric => (
            "\\d\\d?[-/](?:\\d\\d?|\\w+)[-/]\\d{4}(?:\\s+\\d\\d:\\d\\d(?::\\d\\d)?\\s*(?:[AP]M)?\\s*(?:\\w+|[+-]\\d\\d?:?\\d\\d)?)?"@,
            0,
        ),
        TypeView::DateTimeHTTP => (
            "\\d\\d?/\\w+/\\d{4}:\\d\\d:\\d\\d:\\d\\d\\s*(?:\\w+|[+-]\\d\\d:?\\d\\d)?"@,
            0,
        ),
        TypeView::DateTimeCTime => ("\\w{3}\\s+\\w{3}\\s+\\d\\d?\\s+\\d\\d:\\d\\d:\\d\\d\\s+\\d{4}"@, 0),
        TypeView::TimeOnly => (
            "\\d{1,2}:\\d{1,2}(?::\\d{1,2}(?:\\.\\d+)?)?\\s*(?:[AP]M)?\\s*(?:Z|[+-]\\d\\d?:?\\d\\d)?"@,
            0,
        ),
        TypeView::DateTimeSyslog => ("\\w{3}\\s+\\d\\d?\\s+\\d\\d:\\d\\d:\\d\\d"@, 0),
        TypeView::CustomDateTime(f) => (datetime_regex(f), datetime_groups(f)),
    }
}

pub open spec fn type_is_numeric(t: TypeView) -> bool {
    match t {
        TypeView::Decimal | TypeView::Binary | TypeView::Octal | TypeView::Hex
        | TypeView::NumberWithSeparator | TypeView::Float | TypeView::FloatDecimal
        | TypeView::Scientific | TypeView::GeneralFloat | TypeView::Percentage => true,
        _ => false,
    }
}

pub open spec fn type_is_datetime(t: TypeView) -> bool {
    match t {
        TypeView::DateTimeISO | TypeView::DateTimeEmail | TypeView::DateTimeUS
        | TypeView::DateTimeGeneric | TypeView::DateTimeHTTP | TypeView::DateTimeCTime
        | TypeView::TimeOnly | TypeView::DateTimeSyslog | TypeView::CustomDateTime(_) => true,
        _ => false,
    }
}

impl FormatType {
    /// Parse a type character string into a FormatType.
    ///
    /// Returns None if the type string is not recognized.
    pub fn from_str(s: &str) -> (r: Option<FormatType>)
        ensures
            match r {
                Some(t) => type_named(s@) == Some(t@),
                None => type_named(s@) is None,
            },
    {
        let c = chars_of(s);
        if c.len() == 0 {
            return Some(FormatType::Default);
        }
        if c.len() == 1 {
            return match c[0] {
                's' => Some(FormatType::NonWhitespace),
                'w' => Some(FormatType::Word),
                'W' => Some(FormatType::NonWord),
                'd' => Some(FormatType::Decimal),
                'b' => Some(FormatType::Binary),
                'o' => Some(FormatType::Octal),
                'x' => Some(FormatType::Hex),
                'n' => Some(FormatType::NumberWithSeparator),
                'f' => Some(FormatType::Float),
                'F' => Some(FormatType::FloatDecimal),
                'e' => Some(FormatType::Scientific),
                'g' => Some(FormatType::GeneralFloat),
                '%' => Some(FormatType::Percentage),
                'l' => Some(FormatType::Letters),
                'S' => Some(FormatType::Whitespace),
                'D' => Some(FormatType::NonDigit),
                _ => None,
            };
        }
        if c.len() == 2 && c[0] == 't' {
            return match c[1] {
                'i' => Some(FormatType::DateTimeISO),
                'e' => Some(FormatType::DateTimeEmail),
                'a' => Some(FormatType::DateTimeUS),
                'g' => Some(FormatType::DateTimeGeneric),
                'h' => Some(FormatType::DateTimeHTTP),
                'c' => Some(FormatType::DateTimeCTime),
                't' => Some(FormatType::TimeOnly),
                's' => Some(FormatType::DateTimeSyslog),
                _ => None,
            };
        }
        None
    }

    /// A copy of this type.
    pub fn duplicate(&self) -> (r: FormatType)
        ensures
            r@ == self@,
    {
        match self {
            FormatType::CustomDateTime(f) => FormatType::CustomDateTime(f.clone()),
            FormatType::Default => FormatType::Default,
            FormatType::NonWhitespace => FormatType::NonWhitespace,
            FormatType::Word => FormatType::Word,
            FormatType::NonWord => FormatType::NonWord,
            FormatType::Decimal => FormatType::Decimal,
            FormatType::Binary => FormatType::Binary,
            FormatType::Octal => FormatType::Octal,
            FormatType::Hex => FormatType::Hex,
            FormatType::NumberWithSeparator => FormatType::NumberWithSeparator,
            FormatType::Float => FormatType::Float,
            FormatType::FloatDecimal => FormatType::FloatDecimal,
            FormatType::Scientific => FormatType::Scientific,
            FormatType::GeneralFloat => FormatType::GeneralFloat,
            FormatType::Percentage => FormatType::Percentage,
            FormatType::Letters => FormatType::Letters,
            FormatType::Whitespace => FormatType::Whitespace,
            FormatType::NonDigit => FormatType::NonDigit,
            FormatType::DateTimeISO => FormatType::DateTimeISO,
            FormatType::DateTimeEmail => FormatType::DateTimeEmail,
            FormatType::DateTimeUS => FormatType::DateTimeUS,
            FormatType::DateTimeGeneric => FormatType::DateTimeGeneric,
            FormatType::DateTimeHTTP => FormatType::DateTimeHTTP,
            FormatType::DateTimeCTime => FormatType::DateTimeCTime,
            FormatType::TimeOnly => FormatType::TimeOnly,
            FormatType::DateTimeSyslog => FormatType::DateTimeSyslog,
        }
    }

    /// Get the regex pattern for this format type.
    ///
    /// Returns a regex pattern string that matches valid input
    /// for this type, along with the number of capture groups
    /// in the pattern.
    pub fn regex_pattern(&self) -> (r: (String, usize))
        ensures
            r.0@ == type_pattern(self@).0,
            r.1 == type_pattern(self@).1,
    {
        match self {
            FormatType::Default => (string_of(".*?"), 0),
            FormatType::NonWhitespace => (string_of(".+"), 0),
            FormatType::Word => (string_of("\\w+"), 0),
            FormatType::NonWord => (string_of("\\W+"), 0),
            FormatType::Letters => (string_of("[A-Za-z]+"), 0),
            FormatType::Whitespace => (string_of("\\S+"), 0),
            FormatType::NonDigit => (string_of("\\D+"), 0),
            FormatType::Decimal => (string_of("\\d+"), 0),
            FormatType::Binary => (string_of("(0[bB])?[01]+"), 1),
            FormatType::Octal => (string_of("(0[oO])?[0-7]+"), 1),
            FormatType::Hex => (string_of("(0[xX])?[0-9a-fA-F]+"), 1),
            FormatType::NumberWithSeparator => (string_of("\\d{1,3}([,._]\\d{3})*"), 1),
            FormatType::Float => (string_of("\\d*\\.\\d+"), 0),
            FormatType::FloatDecimal => (string_of("\\d*\\.\\d+"), 0),
            FormatType::Scientific => (
                string_of("(?:\\d*\\.\\d+[eE][-+]?\\d+|nan|NAN|inf|INF)"),
                0,
            ),
            FormatType::GeneralFloat => (
                string_of("(?:\\d+(\\.\\d+)?([eE][-+]?\\d+)?|nan|NAN|inf|INF)"),
                2,
            ),
            FormatType::Percentage => (string_of("\\d+(\\.\\d+)?%"), 1),
            FormatType::DateTimeISO => (
                string_of(
                    "\\d{4}-\\d\\d-\\d\\d(?:[T ]\\d\\d:\\d\\d(?::\\d\\d(?:\\.\\d+)?)?(?:\\s*(?:Z|[+-]\\d\\d:?\\d\\d))?)?",
                ),
                0,
            ),
            FormatType::DateTimeEmail => (
                string_of(
                    "(?:\\w{3},?\\s+)?\\d\\d?\\s+\\w{3}\\s+\\d{4}\\s+\\d\\d:\\d\\d(?::\\d\\d)?\\s*(?:\\w+|[+-]\\d\\d:?\\d\\d)?",
                ),
                0,
            ),
            FormatType::DateTimeUS => (
                string_of(
                    "(?:\\d\\d?|\\w+)[/-](?:\\d\\d?|\\w+)[/-]\\d{4}(?:\\s+\\d\\d:\\d\\d(?::\\d\\d)?\\s*(?:[AP]M)?\\s*(?:\\w+|[+-]\\d\\d?:?\\d\\d)?)?",
                ),
                0,
            ),
            FormatType::DateTimeGeneric => (
                string_of(
                    "\\d\\d?[-/](?:\\d\\d?|\\w+)[-/]\\d{4}(?:\\s+\\d\\d:\\d\\d(?::\\d\\d)?\\s*(?:[AP]M)?\\s*(?:\\w+|[+-]\\d\\d?:?\\d\\d)?)?",
                ),
                0,
            ),
            FormatType::DateTimeHTTP => (
                string_of("\\d\\d?/\\w+/\\d{4}:\\d\\d:\\d\\d:\\d\\d\\s*(?:\\w+|[+-]\\d\\d:?\\d\\d)?"),
                0,
            ),
            FormatType::DateTimeCTime => (
                string_of("\\w{3}\\s+\\w{3}\\s+\\d\\d?\\s+\\d\\d:\\d\\d:\\d\\d\\s+\\d{4}"),
                0,
            ),
            FormatType::TimeOnly => (
                string_of(
                    "\\d{1,2}:\\d{1,2}(?::\\d{1,2}(?:\\.\\d+)?)?\\s*(?:[AP]M)?\\s*(?:Z|[+-]\\d\\d?:?\\d\\d)?",
                ),
                0,
            ),
            FormatType::DateTimeSyslog => (string_of("\\w{3}\\s+\\d\\d?\\s+\\d\\d:\\d\\d:\\d\\d"), 0),
            FormatType::CustomDateTime(format) => (
                datetime_format_to_regex(format.as_str()),
                datetime_format_groups(format.as_str()),
            ),
        }
    }

    /// Check if this type is numeric (needs sign handling).
    pub fn is_numeric(&self) -> (r: bool)
        ensures
            r == type_is_numeric(self@),
    {
        match self {
            FormatType::Decimal | FormatType::Binary | FormatType::Octal | FormatType::Hex
            | FormatType::NumberWithSeparator | FormatType::Float | FormatType::FloatDecimal
            | FormatType::Scientific | FormatType::GeneralFloat | FormatType::Percentage => true,
            _ => false,
        }
    }

    /// Check if this type is a datetime type.
    pub fn is_datetime(&self) -> (r: bool)
        ensures
            r == type_is_datetime(self@),
    {
        match self {
            FormatType::DateTimeISO | FormatType::DateTimeEmail | FormatType::DateTimeUS
            | FormatType::DateTimeGeneric | FormatType::DateTimeHTTP | FormatType::DateTimeCTime
            | FormatType::TimeOnly | FormatType::DateTimeSyslog | FormatType::CustomDateTime(_) => true,
            _ => false,
        }
    }
}

/// The regex fragment for a `%` directive of a custom datetime format.
pub fn datetime_token_regex(c: char) -> (r: Option<String>)
    ensures
        match r {
            Some(p) => datetime_token_pattern(c) == Some(p@),
            None => datetime_token_pattern(c) is None,
        },
{
    match c {
        'a' => Some(string_of("(?:Sun|Mon|Tue|Wed|Thu|Fri|Sat)")),
        'A' => Some(string_of("(?:Sunday|Monday|Tuesday|Wednesday|Thursday|Friday|Saturday)")),
        'w' => Some(string_of("[0-6]")),
        'd' => Some(string_of("[0-9]{1,2}")),
        'b' => Some(string_of("(?:Jan|Feb|Mar|Apr|May|Jun|Jul|Aug|Sep|Oct|Nov|Dec)")),
        'B' => Some(
            string_of(
                "(?:January|February|March|April|May|June|July|August|September|October|November|December)",
            ),
        ),
        'm' => Some(string_of("[0-9]{1,2}")),
        'y' => Some(string_of("[0-9]{2}")),
        'Y' => Some(string_of("[0-9]{4}")),
        'H' => Some(string_of("[0-9]{1,2}")),
        'I' => Some(string_of("[0-9]{1,2}")),
        'p' => Some(string_of("(?:AM|PM)")),
        'M' => Some(string_of("[0-9]{2}")),
        'S' => Some(string_of("[0-9]{2}")),
        'f' => Some(string_of("[0-9]{1,6}")),
        'z' => Some(string_of("[+|-][0-9]{2}(:?[0-9]{2})?(:?[0-9]{2})?")),
        'j' => Some(string_of("[0-9]{1,3}")),
        'U' => Some(string_of("[0-9]{1,2}")),
        'W' => Some(string_of("[0-9]{1,2}")),
        _ => None,
    }
}

pub fn dt_format_to_regex(format: &str) -> (r: String)
    ensures
        r@ == datetime_regex(format@),
{
    datetime_format_to_regex(format)
}

fn datetime_format_to_regex(format: &str) -> (r: String)
    ensures
        r@ == datetime_regex(format@),
{
    let chars = chars_of(format);
    let mut result = String::new();
    let mut i: usize = 0;
    assert(format@.skip(0) =~= format@);
    assert(result@ + datetime_regex(format@) =~= datetime_regex(format@));
    while i < chars.len()
        invariant
            chars@ == format@,
            i <= chars.len(),
            result@ + datetime_regex(format@.skip(i as int)) == datetime_regex(format@),
        decreases chars.len() - i,
    {
        let ghost rest = format@.skip(i as int);
        if chars[i] == '%' && i + 1 < chars.len() {
            if let Some(re) = datetime_token_regex(chars[i + 1]) {
                proof {
                    assert(rest[1] == chars@[i + 1]);
                    assert(rest.skip(2) =~= format@.skip(i + 2));
                    assert(result@ + re@ + datetime_regex(format@.skip(i + 2)) =~= result@ + (re@
                        + datetime_regex(rest.skip(2))));
                }
                push_str(&mut result, re.as_str());
                i = i + 2;
                continue;
            }
        }
        let c = chars[i];
        proof {
            assert(rest[0] == c);
            assert(rest.skip(1) =~= format@.skip(i + 1));
        }
        if c == '.' || c == '^' || c == '$' || c == '*' || c == '+' || c == '?' || c == '('
            || c == ')' || c == '[' || c == ']' || c == '{' || c == '}' || c == '|' || c
            == '\\' {
            proof {
                assert(result@.push('\\').push(c) + datetime_regex(format@.skip(i + 1)) =~= result@
                    + (seq!['\\', c] + datetime_regex(rest.skip(1))));
            }
            push_char(&mut result, '\\');
            push_char(&mut result, c);
        } else {
            proof {
                assert(result@.push(c) + datetime_regex(format@.skip(i + 1)) =~= result@ + (seq![c]
                    + datetime_regex(rest.skip(1))));
            }
            push_char(&mut result, c);
        }
        i = i + 1;
    }
    proof {
        assert(format@.skip(i as int) =~= Seq::<char>::empty());
        assert(result@ + Seq::<char>::empty() =~= result@);
    }
    result
}


/// The number of capture groups in the regex of a custom datetime format
/// (see `datetime_groups`).
fn datetime_format_groups(format: &str) -> (n: usize)
    ensures
        n == datetime_groups(format@),
{
    let chars = chars_of(format);
    let mut n: usize = 0;
    let mut i: usize = 0;
    proof {
        assert(format@.skip(0) =~= format@);
        crate::text::lemma_len_le_byte_len(format@);
    }
    while i < chars.len()
        invariant
            chars@ == format@,
            i <= chars.len(),
            chars@.len() <= usize::MAX,
            n + datetime_groups(format@.skip(i as int)) == datetime_groups(format@),
            n <= i,
        decreases chars.len() - i,
    {
        let ghost rest = format@.skip(i as int);
        proof {
            assert(rest[0] == chars@[i as int]);
        }
        if chars[i] == '%' && i + 1 < chars.len() && datetime_token_regex(chars[i + 1]).is_some() {
            proof {
                assert(rest[1] == chars@[i + 1]);
                assert(rest.skip(2) =~= format@.skip(i + 2));
            }
            if chars[i + 1] == 'z' {
                n = n + 2;
            }
            i = i + 2;
        } else {
            proof {
                assert(rest.skip(1) =~= format@.skip(i + 1));
            }
            i = i + 1;
        }
    }
    proof {
        assert(format@.skip(i as int) =~= Seq::<char>::empty());
    }
    n
}


/// `char::is_whitespace`: the characters with the Unicode `White_Space`
/// property.
pub open spec fn is_white(c: char) -> bool {
    c == ' ' || ('\x09' <= c <= '\x0d') || c == '\u{85}' || c == '\u{a0}' || c == '\u{1680}' || (
    '\u{2000}' <= c <= '\u{200a}') || c == '\u{2028}' || c == '\u{2029}' || c == '\u{202f}' || c
        == '\u{205f}' || c == '\u{3000}'
}

pub fn is_white_char(c: char) -> (r: bool)
    ensures
        r == is_white(c),
{
    c == ' ' || ('\x09' <= c && c <= '\x0d') || c == '\u{85}' || c == '\u{a0}' || c == '\u{1680}'
        || ('\u{2000}' <= c && c <= '\u{200a}') || c == '\u{2028}' || c == '\u{2029}' || c
        == '\u{202f}' || c == '\u{205f}' || c == '\u{3000}'
}

/// First index at or after `i` that does not hold whitespace.
pub open spec fn skip_white(s: Seq<char>, i: int) -> int
    decreases s.len() - i,
{
    if 0 <= i < s.len() && is_white(s[i]) {
        skip_white(s, i + 1)
    } else {
        i
    }
}

/// End of `s[from..j]` once trailing whitespace is dropped.
pub open spec fn back_white(s: Seq<char>, from: int, j: int) -> int
    decreases j - from,
{
    if from < j && is_white(s[j - 1]) {
        back_white(s, from, j - 1)
    } else {
        j
    }
}

/// `str::trim`: `s` without leading and trailing whitespace.
pub open spec fn trimmed(s: Seq<char>) -> Seq<char> {
    let a = skip_white(s, 0);
    s.subrange(a, back_white(s, a, s.len() as int))
}

pub proof fn lemma_skip_white(s: Seq<char>, i: int)
    requires
        0 <= i <= s.len(),
    ensures
        i <= skip_white(s, i) <= s.len(),
    decreases s.len() - i,
{
    if i < s.len() && is_white(s[i]) {
        lemma_skip_white(s, i + 1);
    }
}

pub proof fn lemma_back_white(s: Seq<char>, from: int, j: int)
    requires
        0 <= from <= j <= s.len(),
    ensures
        from <= back_white(s, from, j) <= j,
    decreases j - from,
{
    if from < j && is_white(s[j - 1]) {
        lemma_back_white(s, from, j - 1);
    }
}

/// The range of `chars` that `str::trim` keeps.
pub fn trim_range(chars: &Vec<char>) -> (r: (usize, usize))
    ensures
        r.0 <= r.1 <= chars@.len(),
        chars@.subrange(r.0 as int, r.1 as int) == trimmed(chars@),
{
    let mut a: usize = 0;
    while a < chars.len() && is_white_char(chars[a])
        invariant
            a <= chars@.len(),
            skip_white(chars@, 0) == skip_white(chars@, a as int),
        decreases chars.len() - a,
    {
        a = a + 1;
    }
    let mut b = chars.len();
    while b > a && is_white_char(chars[b - 1])
        invariant
            a <= b <= chars@.len(),
            a == skip_white(chars@, 0),
            back_white(chars@, a as int, chars@.len() as int) == back_white(chars@, a as int, b as int),
        decreases b - a,
    {
        b = b - 1;
    }
    (a, b)
}

/// `s` with every `c` removed.
pub open spec fn without_char(s: Seq<char>, c: char) -> Seq<char>
    decreases s.len(),
{
    if s.len() == 0 {
        Seq::empty()
    } else if s.last() == c {
        without_char(s.drop_last(), c)
    } else {
        without_char(s.drop_last(), c).push(s.last())
    }
}

fn remove_char(chars: &Vec<char>, from: usize, to: usize, c: char) -> (r: Vec<char>)
    requires
        from <= to <= chars@.len(),
    ensures
        r@ == without_char(chars@.subrange(from as int, to as int), c),
{
    let mut r: Vec<char> = Vec::new();
    let mut i = from;
    while i < to
        invariant
            from <= i <= to <= chars@.len(),
            r@ == without_char(chars@.subrange(from as int, i as int), c),
        decreases to - i,
    {
        proof {
            assert(chars@.subrange(from as int, i + 1).drop_last() =~= chars@.subrange(
                from as int,
                i as int,
            ));
        }
        if chars[i] != c {
            r.push(chars[i]);
        }
        i = i + 1;
    }
    r
}

/// `s` with its digits only.
pub open spec fn digits_only(s: Seq<char>) -> Seq<char>
    decreases s.len(),
{
    if s.len() == 0 {
        Seq::empty()
    } else if '0' <= s.last() <= '9' {
        digits_only(s.drop_last()).push(s.last())
    } else {
        digits_only(s.drop_last())
    }
}

fn keep_digits(chars: &Vec<char>, from: usize, to: usize) -> (r: Vec<char>)
    requires
        from <= to <= chars@.len(),
    ensures
        r@ == digits_only(chars@.subrange(from as int, to as int)),
        forall|j: int| 0 <= j < r@.len() ==> '0' <= #[trigger] r@[j] <= '9',
{
    let mut r: Vec<char> = Vec::new();
    let mut i = from;
    while i < to
        invariant
            from <= i <= to <= chars@.len(),
            r@ == digits_only(chars@.subrange(from as int, i as int)),
            forall|j: int| 0 <= j < r@.len() ==> '0' <= #[trigger] r@[j] <= '9',
        decreases to - i,
    {
        proof {
            assert(chars@.subrange(from as int, i + 1).drop_last() =~= chars@.subrange(
                from as int,
                i as int,
            ));
        }
        if '0' <= chars[i] && chars[i] <= '9' {
            r.push(chars[i]);
        }
        i = i + 1;
    }
    r
}

/// A leading sign: `-` negates, `+` (and `' '` where `space_sign`) is
/// dropped.
pub open spec fn sign_split(t: Seq<char>, space_sign: bool) -> (bool, Seq<char>) {
    if t.len() > 0 && t[0] == '-' {
        (true, t.skip(1))
    } else if t.len() > 0 && (t[0] == '+' || (space_sign && t[0] == ' ')) {
        (false, t.skip(1))
    } else {
        (false, t)
    }
}

/// Whether slicing the first two bytes off `n` is allowed: it has at most
/// two bytes, or byte 2 starts a character.
pub open spec fn two_byte_prefix_ok(n: Seq<char>) -> bool {
    byte_len(n) <= 2 || is_char_offset(n, 2)
}

/// The digits of a decimal field: without its grouping characters, or,
/// when it is padded after the sign (`=` alignment), without its fill.
pub open spec fn padding_removed(rest: Seq<char>, spec: FormatSpecView) -> Seq<char> {
    match spec.grouping {
        Some(g) => without_char(rest, g),
        None => if spec.align == Some('=') {
            without_char(
                rest,
                match spec.fill {
                    Some(f) => f,
                    None => '0',
                },
            )
        } else {
            rest
        },
    }
}

/// The base announced by a `0x`/`0o`/`0b` prefix of a decimal field.
pub open spec fn decimal_base(n: Seq<char>) -> nat {
    if n.len() > 2 && n[0] == '0' && (n[1] == 'x' || n[1] == 'X') {
        16
    } else if n.len() > 2 && n[0] == '0' && (n[1] == 'o' || n[1] == 'O') {
        8
    } else if n.len() > 2 && n[0] == '0' && (n[1] == 'b' || n[1] == 'B') {
        2
    } else {
        10
    }
}

/// The integer `sign * v`, where `neg` selects the sign; `None` when it
/// does not fit in an `i64`.
pub open spec fn signed(neg: bool, v: int) -> Option<i64> {
    if neg {
        if v == i64::MIN {
            None
        } else {
            Some((-v) as i64)
        }
    } else {
        Some(v as i64)
    }
}

pub open spec fn int_failure(what: Seq<char>, t: Seq<char>, k: IntErrorKind) -> Seq<char> {
    "Failed to parse "@ + what + " '"@ + t + "': "@ + int_error_text(k)
}

/// How a `d` field's text converts: `None` where the conversion would
/// overflow or slice inside a character.
pub open spec fn decimal_outcome(s: Seq<char>, spec: FormatSpecView) -> Option<Result<ValueView, Seq<char>>> {
    let t = trimmed(s);
    if t.len() == 0 {
        Some(Err("Empty string"@))
    } else {
        let (neg, rest) = sign_split(t, true);
        let n = padding_removed(rest, spec);
        if !two_byte_prefix_ok(n) {
            None
        } else {
            let base = decimal_base(n);
            let num = if base == 10 {
                n
            } else {
                n.skip(2)
            };
            match int_from_str_radix(num, base) {
                Ok(v) => match signed(neg, v) {
                    Some(x) => Some(Ok(ValueView::Int(x))),
                    None => None,
                },
                Err(k) => Some(Err(int_failure("integer"@, t, k))),
            }
        }
    }
}

/// Whether `n` starts with the prefix of base `base` (`0b`, `0o` or `0x`).
pub open spec fn has_base_prefix(n: Seq<char>, base: nat) -> bool {
    n.len() > 2 && n[0] == '0' && ((base == 2 && (n[1] == 'b' || n[1] == 'B')) || (base == 8 && (
    n[1] == 'o' || n[1] == 'O')) || (base == 16 && (n[1] == 'x' || n[1] == 'X')))
}

pub open spec fn base_text(base: nat) -> Seq<char> {
    if base == 2 {
        "2"@
    } else if base == 8 {
        "8"@
    } else {
        "16"@
    }
}

/// How a `b`, `o` or `x` field's text converts.
pub open spec fn base_outcome(s: Seq<char>, base: nat) -> Option<Result<ValueView, Seq<char>>> {
    let t = trimmed(s);
    let (neg, rest) = sign_split(t, false);
    if !two_byte_prefix_ok(rest) {
        None
    } else {
        let num = if has_base_prefix(rest, base) {
            rest.skip(2)
        } else {
            rest
        };
        match int_from_str_radix(num, base) {
            Ok(v) => match signed(neg, v) {
                Some(x) => Some(Ok(ValueView::Int(x))),
                None => None,
            },
            Err(k) => Some(
                Err("Failed to parse base-"@ + base_text(base) + " integer '"@ + t + "': "@
                    + int_error_text(k)),
            ),
        }
    }
}

/// How an `n` field's text converts: the digits, grouping characters
/// dropped.
pub open spec fn separated_outcome(s: Seq<char>) -> Result<ValueView, Seq<char>> {
    let t = trimmed(s);
    if t.len() == 0 {
        Err("Empty string"@)
    } else {
        let (neg, rest) = sign_split(t, true);
        match int_from_str_radix(digits_only(rest), 10) {
            Ok(v) => Ok(
                ValueView::Int(
                    if neg {
                        (-v) as i64
                    } else {
                        v as i64
                    },
                ),
            ),
            Err(k) => Err(int_failure("number"@, t, k)),
        }
    }
}

proof fn lemma_digits_only_digits(s: Seq<char>)
    ensures
        forall|i: int| 0 <= i < digits_only(s).len() ==> '0' <= #[trigger] digits_only(s)[i] <= '9',
    decreases s.len(),
{
    if s.len() > 0 {
        lemma_digits_only_digits(s.drop_last());
        let prev = digits_only(s.drop_last());
        if '0' <= s.last() <= '9' {
            assert forall|i: int| 0 <= i < digits_only(s).len() implies '0' <= #[trigger] digits_only(s)[i] <= '9' by {
                if i < prev.len() {
                    assert(digits_only(s)[i] == prev[i]);
                }
            }
        }
    }
}

/// Trailing whitespace is dropped the same way wherever the scan may stop,
/// once a character that is not whitespace stands in between.
proof fn lemma_back_white_from(s: Seq<char>, f1: int, f2: int, j: int)
    requires
        0 <= f1 <= f2 < j <= s.len(),
        !is_white(s[f2]),
    ensures
        back_white(s, f1, j) == back_white(s, f2, j),
        back_white(s, f2, j) > f2,
    decreases j,
{
    if is_white(s[j - 1]) {
        lemma_back_white_from(s, f1, f2, j - 1);
    }
}

/// Dropping trailing whitespace behind one more leading character.
proof fn lemma_back_white_shift(x: char, t: Seq<char>, j: int)
    requires
        0 <= j <= t.len(),
    ensures
        back_white(seq![x] + t, 1, j + 1) == back_white(t, 0, j) + 1,
    decreases j,
{
    let p = seq![x] + t;
    if j > 0 {
        assert(p[j] == t[j - 1]);
        lemma_back_white_shift(x, t, j - 1);
    }
}

/// Trimming text that starts with a sign and then a digit keeps the sign
/// in front of the trimmed rest.
proof fn lemma_trimmed_sign(x: char, t: Seq<char>)
    requires
        !is_white(x),
        t.len() > 0,
        '0' <= t[0] <= '9',
    ensures
        trimmed(seq![x] + t) == seq![x] + trimmed(t),
        trimmed(t).len() > 0,
        trimmed(t)[0] == t[0],
{
    let p = seq![x] + t;
    let n = t.len() as int;
    assert(!is_white(t[0]));
    assert(p[0] == x);
    assert(p[1] == t[0]);
    lemma_back_white_from(p, 0, 1, n + 1);
    lemma_back_white_shift(x, t, n);
    lemma_back_white_from(t, 0, 0, n);
    lemma_back_white(t, 0, n);
    assert(p.subrange(0, back_white(t, 0, n) + 1) =~= seq![x] + t.subrange(0, back_white(t, 0, n)));
}

/// The sign of an `n` field: digit-group text that reads as `v` reads as
/// `-v` behind a `-` and as `v` behind a `+`.
pub proof fn law_separated_sign(t: Seq<char>, v: i64)
    requires
        t.len() > 0,
        '0' <= t[0] <= '9',
        separated_outcome(t) == Ok::<ValueView, Seq<char>>(ValueView::Int(v)),
    ensures
        v >= 0,
        separated_outcome(seq!['-'] + t) == Ok::<ValueView, Seq<char>>(ValueView::Int((-v) as i64)),
        separated_outcome(seq!['+'] + t) == Ok::<ValueView, Seq<char>>(ValueView::Int(v)),
{
    lemma_trimmed_sign('-', t);
    lemma_trimmed_sign('+', t);
    let tt = trimmed(t);
    assert((seq!['-'] + tt).skip(1) =~= tt);
    assert((seq!['+'] + tt).skip(1) =~= tt);
    let d = digits_only(tt);
    lemma_digits_only_digits(tt);
    lemma_digits_nonnegative(d);
    if d.len() > 0 {
        assert('0' <= d[0] <= '9');
        lemma_scan_bound(d, 10, 0, i64_limit(false));
    }
}

/// `s` without its trailing `c` characters.
pub open spec fn trim_end_char(s: Seq<char>, c: char) -> Seq<char>
    decreases s.len(),
{
    if s.len() > 0 && s.last() == c {
        trim_end_char(s.drop_last(), c)
    } else {
        s
    }
}

/// The message for float-like text `t` that `str::parse::<f64>` refuses,
/// shown as `shown` and read as a `what`.
pub open spec fn float_failure(what: Seq<char>, shown: Seq<char>, t: Seq<char>) -> Seq<char> {
    "Failed to parse "@ + what + " '"@ + shown + "': "@ + float_error_text(t)
}

/// How float-like text converts: the text as written where
/// `str::parse::<f64>` accepts it, else its error.
pub open spec fn float_outcome(what: Seq<char>, s: Seq<char>) -> Result<ValueView, Seq<char>> {
    if float_literal(s) {
        Ok(ValueView::Float(s))
    } else {
        Err(float_failure(what, s, s))
    }
}

/// How a `%` field's text converts: the number before the trailing `%`
/// signs, where `str::parse::<f64>` accepts it.
pub open spec fn percent_outcome(s: Seq<char>) -> Result<ValueView, Seq<char>> {
    let n = trim_end_char(s, '%');
    if float_literal(n) {
        Ok(ValueView::Percent(n))
    } else {
        Err(float_failure("percentage"@, s, n))
    }
}

/// How matched text converts to a value under a field's specification;
/// `None` where the conversion would overflow or slice inside a character.
pub open spec fn conversion(s: Seq<char>, spec: FormatSpecView) -> Option<Result<ValueView, Seq<char>>> {
    match spec.format_type {
        TypeView::Default | TypeView::NonWhitespace | TypeView::Word | TypeView::NonWord
        | TypeView::Letters | TypeView::Whitespace | TypeView::NonDigit => Some(Ok(ValueView::Str(s))),
        TypeView::Decimal => decimal_outcome(s, spec),
        TypeView::Binary => base_outcome(s, 2),
        TypeView::Octal => base_outcome(s, 8),
        TypeView::Hex => base_outcome(s, 16),
        TypeView::NumberWithSeparator => Some(separated_outcome(s)),
        TypeView::Float => Some(float_outcome("float"@, s)),
        TypeView::Scientific => Some(float_outcome("scientific"@, s)),
        TypeView::GeneralFloat => Some(float_outcome("general float"@, s)),
        TypeView::FloatDecimal => Some(Ok(ValueView::Decimal(s))),
        TypeView::Percentage => Some(percent_outcome(s)),
        _ => Some(Ok(ValueView::DateTime(s, spec.type_token))),
    }
}

proof fn lemma_offset_at_least(s: Seq<char>, k: int)
    requires
        0 <= k <= s.len(),
    ensures
        byte_offset(s, k) >= k,
    decreases k,
{
    if k > 0 {
        lemma_offset_at_least(s, k - 1);
        lemma_byte_offset_step(s, k - 1);
    }
}

/// Whether the first two bytes of `n` can be sliced off.
fn two_byte_prefix_check(n: &Vec<char>) -> (r: bool)
    ensures
        r == two_byte_prefix_ok(n@),
{
    let ghost s = n@;
    proof {
        lemma_byte_offset_full(s);
        assert(s.take(0) =~= Seq::<char>::empty());
        assert(byte_offset(s, 0) == 0);
    }
    if n.len() == 0 {
        proof {
            assert(s =~= Seq::<char>::empty());
        }
        return true;
    }
    let w0 = char_width_of(n[0]);
    proof {
        lemma_byte_offset_step(s, 0);
    }
    if n.len() == 1 {
        proof {
            if is_char_offset(s, 2) {
                let k = choose|k: int| 0 <= k <= s.len() && byte_offset(s, k) == 2;
            }
        }
        return w0 <= 2 || w0 == 2;
    }
    let w1 = char_width_of(n[1]);
    proof {
        lemma_byte_offset_step(s, 1);
        lemma_byte_offset_mono(s, 2, s.len() as int);
        if is_char_offset(s, 2) {
            let k = choose|k: int| 0 <= k <= s.len() && byte_offset(s, k) == 2;
            lemma_offset_at_least(s, k);
            if k > 2 {
                lemma_byte_offset_mono(s, 2, k);
                lemma_offset_at_least(s, 2);
            }
        }
        if w0 == 2 {
            assert(0 <= 1 <= s.len() && byte_offset(s, 1) == 2);
        }
        if w0 == 1 && w1 == 1 {
            assert(0 <= 2 <= s.len() && byte_offset(s, 2) == 2);
        }
    }
    w0 == 2 || (w0 == 1 && w1 == 1)
}

/// The digits of `chars[start..b]` without grouping or fill (see
/// `padding_removed`).
fn strip_padding(chars: &Vec<char>, start: usize, b: usize, spec: &FormatSpec) -> (n: Vec<char>)
    requires
        start <= b <= chars@.len(),
    ensures
        n@ == padding_removed(chars@.subrange(start as int, b as int), spec@),
{
    match spec.grouping {
        Some(g) => remove_char(chars, start, b, g),
        None => if spec.align == Some('=') {
            let fill = match spec.fill {
                Some(f) => f,
                None => '0',
            };
            remove_char(chars, start, b, fill)
        } else {
            let mut v: Vec<char> = Vec::new();
            let mut i = start;
            while i < b
                invariant
                    start <= i <= b <= chars@.len(),
                    v@ == chars@.subrange(start as int, i as int),
                decreases b - i,
            {
                v.push(chars[i]);
                proof {
                    assert(v@ =~= chars@.subrange(start as int, i + 1));
                }
                i = i + 1;
            }
            v
        },
    }
}

/// The base a `0x`/`0o`/`0b` prefix announces (see `decimal_base`).
fn decimal_radix(n: &Vec<char>) -> (base: u32)
    ensures
        base == decimal_base(n@),
{
    if n.len() > 2 && n[0] == '0' && (n[1] == 'x' || n[1] == 'X') {
        16
    } else if n.len() > 2 && n[0] == '0' && (n[1] == 'o' || n[1] == 'O') {
        8
    } else if n.len() > 2 && n[0] == '0' && (n[1] == 'b' || n[1] == 'B') {
        2
    } else {
        10
    }
}

/// Parse a decimal integer string, handling sign and base prefixes.
///
/// Supports:
/// - Optional sign: +, -, space
/// - Base prefixes: 0x (hex), 0o (octal), 0b (binary)
/// - Plain decimal numbers
fn parse_decimal(chars: &Vec<char>, spec: &FormatSpec) -> (r: Option<Result<ParseValue, String>>)
    ensures
        option_result_view(r) == decimal_outcome(chars@, spec@),
{
    let ghost s = chars@;
    let (a, b) = trim_range(chars);
    let t = string_of_range(chars, a, b);
    if a == b {
        return Some(Err(string_of("Empty string")));
    }
    let neg = chars[a] == '-';
    let start = if chars[a] == '-' || chars[a] == '+' || chars[a] == ' ' {
        a + 1
    } else {
        a
    };
    proof {
        let tt = trimmed(s);
        assert(tt[0] == chars@[a as int]);
        if start == a + 1 {
            assert(tt.skip(1) =~= chars@.subrange(start as int, b as int));
        } else {
            assert(tt =~= chars@.subrange(start as int, b as int));
        }
    }
    let n = strip_padding(chars, start, b, spec);
    if !two_byte_prefix_check(&n) {
        return None;
    }
    let base = decimal_radix(&n);
    let from = if base == 10 {
        0
    } else {
        2
    };
    proof {
        if base == 10 {
            assert(n@.subrange(0, n@.len() as int) =~= n@);
        } else {
            assert(n@.subrange(2, n@.len() as int) =~= n@.skip(2));
        }
    }
    match int_from_str_radix_exec(&n, from, n.len(), base) {
        Ok(v) => {
            if neg {
                if v == i64::MIN {
                    None
                } else {
                    Some(Ok(ParseValue::Int(-v)))
                }
            } else {
                Some(Ok(ParseValue::Int(v)))
            }
        },
        Err(k) => {
            let mut m = string_of("Failed to parse integer '");
            push_str(&mut m, t.as_str());
            push_str(&mut m, "': ");
            push_int_error(&mut m, k);
            proof {
                assert(m@ =~= int_failure("integer"@, trimmed(s), k)) by {
                    reveal_strlit("Failed to parse integer '");
                    reveal_strlit("Failed to parse ");
                    reveal_strlit("integer");
                    reveal_strlit(" '");
                };
            }
            Some(Err(m))
        },
    }
}

pub open spec fn option_result_view(r: Option<Result<ParseValue, String>>) -> Option<Result<ValueView, Seq<char>>> {
    match r {
        Some(Ok(v)) => Some(Ok(v@)),
        Some(Err(m)) => Some(Err(m@)),
        None => None,
    }
}

/// Copies `chars[from..to]`.
fn copy_range(chars: &Vec<char>, from: usize, to: usize) -> (v: Vec<char>)
    requires
        from <= to <= chars@.len(),
    ensures
        v@ == chars@.subrange(from as int, to as int),
{
    let mut v: Vec<char> = Vec::new();
    let mut i = from;
    while i < to
        invariant
            from <= i <= to <= chars@.len(),
            v@ == chars@.subrange(from as int, i as int),
        decreases to - i,
    {
        v.push(chars[i]);
        proof {
            assert(v@ =~= chars@.subrange(from as int, i + 1));
        }
        i = i + 1;
    }
    v
}

/// Parse an integer with explicit base, stripping base prefix if present.
fn parse_int_base(chars: &Vec<char>, base: u32) -> (r: Option<Result<ParseValue, String>>)
    requires
        base == 2 || base == 8 || base == 16,
    ensures
        option_result_view(r) == base_outcome(chars@, base as nat),
{
    let ghost s = chars@;
    let (a, b) = trim_range(chars);
    let t = string_of_range(chars, a, b);
    let ghost tt = trimmed(s);
    let neg = a < b && chars[a] == '-';
    let start = if a < b && (chars[a] == '-' || chars[a] == '+') {
        a + 1
    } else {
        a
    };
    proof {
        if a < b {
            assert(tt[0] == chars@[a as int]);
        }
        if start == a + 1 {
            assert(tt.skip(1) =~= chars@.subrange(start as int, b as int));
        } else {
            assert(tt =~= chars@.subrange(start as int, b as int));
        }
    }
    let rest = copy_range(chars, start, b);
    if !two_byte_prefix_check(&rest) {
        return None;
    }
    let prefixed = rest.len() > 2 && rest[0] == '0' && ((base == 2 && (rest[1] == 'b' || rest[1]
        == 'B')) || (base == 8 && (rest[1] == 'o' || rest[1] == 'O')) || (base == 16 && (rest[1]
        == 'x' || rest[1] == 'X')));
    let from = if prefixed {
        2
    } else {
        0
    };
    proof {
        if prefixed {
            assert(rest@.subrange(2, rest@.len() as int) =~= rest@.skip(2));
        } else {
            assert(rest@.subrange(0, rest@.len() as int) =~= rest@);
        }
    }
    match int_from_str_radix_exec(&rest, from, rest.len(), base) {
        Ok(v) => {
            if neg {
                if v == i64::MIN {
                    None
                } else {
                    Some(Ok(ParseValue::Int(-v)))
                }
            } else {
                Some(Ok(ParseValue::Int(v)))
            }
        },
        Err(k) => {
            let mut m = string_of("Failed to parse base-");
            if base == 2 {
                push_str(&mut m, "2");
            } else if base == 8 {
                push_str(&mut m, "8");
            } else {
                push_str(&mut m, "16");
            }
            push_str(&mut m, " integer '");
            push_str(&mut m, t.as_str());
            push_str(&mut m, "': ");
            push_int_error(&mut m, k);
            Some(Err(m))
        },
    }
}

/// Parse a number with thousands separators (commas, dots, underscores).
fn parse_number_with_sep(chars: &Vec<char>) -> (r: Result<ParseValue, String>)
    ensures
        match r {
            Ok(v) => separated_outcome(chars@) == Ok::<ValueView, Seq<char>>(v@),
            Err(m) => separated_outcome(chars@) == Err::<ValueView, Seq<char>>(m@),
        },
{
    let ghost s = chars@;
    let (a, b) = trim_range(chars);
    let t = string_of_range(chars, a, b);
    let ghost tt = trimmed(s);
    if a == b {
        return Err(string_of("Empty string"));
    }
    let neg = chars[a] == '-';
    let start = if chars[a] == '-' || chars[a] == '+' || chars[a] == ' ' {
        a + 1
    } else {
        a
    };
    proof {
        assert(tt[0] == chars@[a as int]);
        if start == a + 1 {
            assert(tt.skip(1) =~= chars@.subrange(start as int, b as int));
        } else {
            assert(tt =~= chars@.subrange(start as int, b as int));
        }
    }
    let cleaned = keep_digits(chars, start, b);
    proof {
        assert(cleaned@.subrange(0, cleaned@.len() as int) =~= cleaned@);
        lemma_digits_nonnegative(cleaned@);
    }
    match int_from_str_radix_exec(&cleaned, 0, cleaned.len(), 10) {
        Ok(value) => {
            if neg {
                Ok(ParseValue::Int(-value))
            } else {
                Ok(ParseValue::Int(value))
            }
        },
        Err(k) => {
            let mut m = string_of("Failed to parse number '");
            push_str(&mut m, t.as_str());
            push_str(&mut m, "': ");
            push_int_error(&mut m, k);
            proof {
                assert(m@ =~= int_failure("number"@, trimmed(s), k)) by {
                    reveal_strlit("Failed to parse number '");
                    reveal_strlit("Failed to parse ");
                    reveal_strlit("number");
                    reveal_strlit(" '");
                };
            }
            Err(m)
        },
    }
}

/// Text made of digits only reads as a number that is not negative.
proof fn lemma_digits_nonnegative(d: Seq<char>)
    requires
        forall|i: int| 0 <= i < d.len() ==> '0' <= #[trigger] d[i] <= '9',
    ensures
        int_from_str_radix(d, 10) matches Ok(v) ==> 0 <= v,
{
    if d.len() > 0 {
        assert('0' <= d[0] <= '9');
    }
}

/// The characters of `s` without its trailing `c` characters.
fn trim_end_matching(chars: &Vec<char>, c: char) -> (r: String)
    ensures
        r@ == trim_end_char(chars@, c),
{
    let mut b = chars.len();
    proof {
        assert(chars@.take(b as int) =~= chars@);
    }
    while b > 0 && chars[b - 1] == c
        invariant
            b <= chars@.len(),
            trim_end_char(chars@, c) == trim_end_char(chars@.take(b as int), c),
        decreases b,
    {
        proof {
            assert(chars@.take(b as int).drop_last() =~= chars@.take(b - 1));
        }
        b = b - 1;
    }
    proof {
        assert(chars@.take(b as int) =~= chars@.subrange(0, b as int));
    }
    string_of_range(chars, 0, b)
}

/// The message for float-like text `t` that `str::parse::<f64>` refuses.
fn float_failure_message(what: &str, shown: &str, t: &Vec<char>) -> (m: String)
    ensures
        m@ == float_failure(what@, shown@, t@),
{
    let mut m = string_of("Failed to parse ");
    push_str(&mut m, what);
    push_str(&mut m, " '");
    push_str(&mut m, shown);
    push_str(&mut m, "': ");
    if t.len() == 0 {
        push_str(&mut m, "cannot parse float from empty string");
    } else {
        push_str(&mut m, "invalid float literal");
    }
    proof {
        assert(m@ =~= float_failure(what@, shown@, t@));
    }
    m
}

/// Converts float-like text, read as a `what`: see `float_outcome`.
fn float_value(s: &str, chars: &Vec<char>, what: &str) -> (r: Result<ParseValue, String>)
    requires
        chars@ == s@,
    ensures
        match r {
            Ok(v) => float_outcome(what@, s@) == Ok::<ValueView, Seq<char>>(v@),
            Err(m) => float_outcome(what@, s@) == Err::<ValueView, Seq<char>>(m@),
        },
{
    if is_float_literal(chars) {
        Ok(ParseValue::Float(string_of(s)))
    } else {
        Err(float_failure_message(what, s, chars))
    }
}

/// Converts a `%` field's text: see `percent_outcome`.
fn percent_value(s: &str, chars: &Vec<char>) -> (r: Result<ParseValue, String>)
    requires
        chars@ == s@,
    ensures
        match r {
            Ok(v) => percent_outcome(s@) == Ok::<ValueView, Seq<char>>(v@),
            Err(m) => percent_outcome(s@) == Err::<ValueView, Seq<char>>(m@),
        },
{
    let n = trim_end_matching(chars, '%');
    let nc = chars_of(n.as_str());
    if is_float_literal(&nc) {
        Ok(ParseValue::Percent(n))
    } else {
        Err(float_failure_message("percentage", s, &nc))
    }
}

/// Whether `conversion` gives an outcome for this text and specification
/// (the integer conversions neither overflow nor slice inside a character).
pub open spec fn convertible(s: Seq<char>, spec: FormatSpecView) -> bool {
    conversion(s, spec) is Some
}

/// Converts matched text to a value according to the field's
/// specification; `None` where `convertible` fails.
pub fn try_convert_value(s: &str, spec: &FormatSpec) -> (r: Option<Result<ParseValue, String>>)
    ensures
        option_result_view(r) == conversion(s@, spec@),
{
    let chars = chars_of(s);
    match &spec.format_type {
        FormatType::Default | FormatType::NonWhitespace | FormatType::Word | FormatType::NonWord
        | FormatType::Letters | FormatType::Whitespace | FormatType::NonDigit => Some(
            Ok(ParseValue::Str(string_of(s))),
        ),
        FormatType::Decimal => parse_decimal(&chars, spec),
        FormatType::Binary => parse_int_base(&chars, 2),
        FormatType::Octal => parse_int_base(&chars, 8),
        FormatType::Hex => parse_int_base(&chars, 16),
        FormatType::NumberWithSeparator => Some(parse_number_with_sep(&chars)),
        FormatType::Float => Some(float_value(s, &chars, "float")),
        FormatType::Scientific => Some(float_value(s, &chars, "scientific")),
        FormatType::GeneralFloat => Some(float_value(s, &chars, "general float")),
        FormatType::FloatDecimal => Some(Ok(ParseValue::Decimal(string_of(s)))),
        FormatType::Percentage => Some(percent_value(s, &chars)),
        _ => Some(
            Ok(ParseValue::DateTime { raw: string_of(s), format: spec.type_token.clone() }),
        ),
    }
}

/// Convert a matched string to a ParseValue according to the FormatType.
///
/// This performs the actual type conversion after a successful regex match.
/// For datetime types, the raw string and format are preserved for
/// conversion by the caller.
pub fn convert_value(s: &str, spec: &FormatSpec) -> (r: Result<ParseValue, String>)
    requires
        convertible(s@, spec@),
    ensures
        conversion(s@, spec@) == Some(
            match r {
                Ok(v) => Ok::<ValueView, Seq<char>>(v@),
                Err(m) => Err::<ValueView, Seq<char>>(m@),
            },
        ),
{
    match try_convert_value(s, spec) {
        Some(r) => r,
        None => Err(String::new()),
    }
}


/// Outside its `%` directives, a custom datetime format is matched
/// literally: each regex metacharacter `. ^ $ * + ? ( ) [ ] { } | \\` gets a
/// backslash before it, every other character stays as it is.
pub proof fn law_datetime_literal_char(c: char)
    requires
        c != '%',
    ensures
        datetime_regex(seq![c]) == if c == '.' || c == '^' || c == '$' || c == '*' || c == '+' || c
            == '?' || c == '(' || c == ')' || c == '[' || c == ']' || c == '{' || c == '}' || c == '|'
            || c == '\\' {
            seq!['\\', c]
        } else {
            seq![c]
        },
{
    assert(seq![c][0] == c);
    assert(seq![c].skip(1) =~= Seq::<char>::empty());
    assert(datetime_regex(Seq::<char>::empty()) == Seq::<char>::empty());
    assert(seq!['\\', c] + Seq::<char>::empty() =~= seq!['\\', c]);
    assert(seq![c] + Seq::<char>::empty() =~= seq![c]);
}

/// A `%` that no known directive letter follows (or that ends the format)
/// is kept as a literal `%` in the regex, and the rest of the format is
/// read on from the next character.
pub proof fn law_unknown_directive_kept(t: Seq<char>)
    requires
        t.len() == 0 || datetime_token_pattern(t[0]) is None,
    ensures
        datetime_regex(seq!['%'] + t) == seq!['%'] + datetime_regex(t),
{
    let f = seq!['%'] + t;
    assert(f[0] == '%');
    assert(f.len() >= 2 ==> f[1] == t[0]);
    assert(f.skip(1) =~= t);
}

/// A custom datetime format without `%` directives is matched literally:
/// its regex is the format with regex metacharacters escaped, as
/// `escape_regex` writes it.
pub proof fn law_plain_datetime_format(f: Seq<char>)
    requires
        !f.contains('%'),
    ensures
        datetime_regex(f) == escaped(f),
    decreases f.len(),
{
    if f.len() > 0 {
        assert(f[0] != '%');
        assert(!f.skip(1).contains('%')) by {
            if f.skip(1).contains('%') {
                let i = choose|i: int| 0 <= i < f.skip(1).len() && f.skip(1)[i] == '%';
                assert(f[i + 1] == '%');
            }
        }
        law_plain_datetime_format(f.skip(1));
    }
}

} // verus!
