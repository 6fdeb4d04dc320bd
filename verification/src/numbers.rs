//! Reading integers written in digits.

use crate::compiler::{digit_run_end, lemma_digit_run};
use crate::text::{push_str, string_of};
use vstd::prelude::*;

verus! {

pub open spec fn is_ascii_digit(c: char) -> bool {
    '0' <= c <= '9'
}

/// The value of `c` as a digit in base `radix` (digits `0-9`, then letters
/// of either case), if it is one.
pub open spec fn digit_value(c: char, radix: nat) -> Option<nat> {
    let v: int = if '0' <= c <= '9' {
        c as int - '0' as int
    } else if 'a' <= c <= 'z' {
        c as int - 'a' as int + 10
    } else if 'A' <= c <= 'Z' {
        c as int - 'A' as int + 10
    } else {
        36
    };
    if v < radix {
        Some(v as nat)
    } else {
        None
    }
}

/// Why reading digits stopped.
#[derive(Debug, Clone, Copy, PartialEq, Eq)]
pub enum ScanStop {
    /// A character that is not a digit of the base.
    Invalid,
    /// The value exceeded the limit.
    Overflow,
}

/// Reads the digits `d` from left to right in base `radix`, starting from
/// `acc`; stops at the first character that is not a digit or as soon as the
/// value exceeds `limit`.
pub open spec fn scan_digits(d: Seq<char>, radix: nat, acc: nat, limit: nat) -> Result<nat, ScanStop>
    decreases d.len(),
{
    if d.len() == 0 {
        Ok(acc)
    } else {
        match digit_value(d[0], radix) {
            None => Err(ScanStop::Invalid),
            Some(v) => {
                let a = acc * radix + v;
                if a > limit {
                    Err(ScanStop::Overflow)
                } else {
                    scan_digits(d.skip(1), radix, a, limit)
                }
            },
        }
    }
}

/// The kinds of failure of `i64::from_str_radix`.
#[derive(Debug, Clone, Copy, PartialEq, Eq)]
pub enum IntErrorKind {
    Empty,
    InvalidDigit,
    PosOverflow,
    NegOverflow,
}

/// The text `i64::from_str_radix` gives each failure.
pub open spec fn int_error_text(k: IntErrorKind) -> Seq<char> {
    match k {
        IntErrorKind::Empty => "cannot parse integer from empty string"@,
        IntErrorKind::InvalidDigit => "invalid digit found in string"@,
        IntErrorKind::PosOverflow => "number too large to fit in target type"@,
        IntErrorKind::NegOverflow => "number too small to fit in target type"@,
    }
}

pub open spec fn i64_limit(neg: bool) -> nat {
    if neg {
        0x8000_0000_0000_0000
    } else {
        0x7fff_ffff_ffff_ffff
    }
}

/// An optional `+` or `-` followed by at least one digit of the base, whose
/// value fits in an `i64`.
pub open spec fn int_from_str_radix(t: Seq<char>, radix: nat) -> Result<int, IntErrorKind> {
    if t.len() == 0 {
        Err(IntErrorKind::Empty)
    } else if (t[0] == '+' || t[0] == '-') && t.len() == 1 {
        Err(IntErrorKind::InvalidDigit)
    } else {
        let neg = t[0] == '-';
        let d = if t[0] == '+' || t[0] == '-' {
            t.skip(1)
        } else {
            t
        };
        match scan_digits(d, radix, 0, i64_limit(neg)) {
            Ok(v) => Ok(
                if neg {
                    -v
                } else {
                    v as int
                },
            ),
            Err(ScanStop::Invalid) => Err(IntErrorKind::InvalidDigit),
            Err(ScanStop::Overflow) => Err(
                if neg {
                    IntErrorKind::NegOverflow
                } else {
                    IntErrorKind::PosOverflow
                },
            ),
        }
    }
}

pub fn digit_value_of(c: char, radix: u32) -> (r: Option<u32>)
    requires
        radix <= 36,
    ensures
        match r {
            Some(v) => digit_value(c, radix as nat) == Some(v as nat),
            None => digit_value(c, radix as nat) is None,
        },
{
    let v: u32 = if '0' <= c && c <= '9' {
        (c as u32) - ('0' as u32)
    } else if 'a' <= c && c <= 'z' {
        (c as u32) - ('a' as u32) + 10
    } else if 'A' <= c && c <= 'Z' {
        (c as u32) - ('A' as u32) + 10
    } else {
        36
    };
    if v < radix {
        Some(v)
    } else {
        None
    }
}

/// Reads `d[from..to]` as digits of base `radix`; see `scan_digits`.
pub fn scan_digits_exec(d: &Vec<char>, from: usize, to: usize, radix: u32, limit: u64) -> (r: Result<
    u64,
    ScanStop,
>)
    requires
        from <= to <= d@.len(),
        2 <= radix <= 36,
    ensures
        match r {
            Ok(v) => scan_digits(d@.subrange(from as int, to as int), radix as nat, 0, limit as nat)
                == Ok::<nat, ScanStop>(v as nat),
            Err(e) => scan_digits(d@.subrange(from as int, to as int), radix as nat, 0, limit as nat)
                == Err::<nat, ScanStop>(e),
        },
{
    let ghost whole = d@.subrange(from as int, to as int);
    let mut acc: u64 = 0;
    let mut i = from;
    while i < to
        invariant
            from <= i <= to <= d@.len(),
            2 <= radix <= 36,
            acc <= limit,
            whole == d@.subrange(from as int, to as int),
            scan_digits(whole, radix as nat, 0, limit as nat) == scan_digits(
                d@.subrange(i as int, to as int),
                radix as nat,
                acc as nat,
                limit as nat,
            ),
        decreases to - i,
    {
        let ghost rest = d@.subrange(i as int, to as int);
        proof {
            assert(rest[0] == d@[i as int]);
            assert(rest.skip(1) =~= d@.subrange(i + 1, to as int));
        }
        match digit_value_of(d[i], radix) {
            None => {
                return Err(ScanStop::Invalid);
            },
            Some(v) => {
                proof {
                    assert((acc as int) * (radix as int) <= 0xffff_ffff_ffff_ffffint * 36)
                        by (nonlinear_arith)
                        requires
                            acc <= 0xffff_ffff_ffff_ffffu64,
                            radix <= 36,
                    ;
                }
                let a: u128 = (acc as u128) * (radix as u128) + (v as u128);
                if a > limit as u128 {
                    return Err(ScanStop::Overflow);
                }
                acc = a as u64;
            },
        }
        i = i + 1;
    }
    proof {
        assert(d@.subrange(i as int, to as int) =~= Seq::<char>::empty());
    }
    Ok(acc)
}

/// A completed scan never exceeds its limit.
pub proof fn lemma_scan_bound(d: Seq<char>, radix: nat, acc: nat, limit: nat)
    requires
        acc <= limit,
    ensures
        scan_digits(d, radix, acc, limit) matches Ok(v) ==> v <= limit,
    decreases d.len(),
{
    if d.len() > 0 {
        if let Some(x) = digit_value(d[0], radix) {
            let a = acc * radix + x;
            if a <= limit {
                lemma_scan_bound(d.skip(1), radix, a, limit);
            }
        }
    }
}

/// `i64::from_str_radix` on `t[from..to]`.
pub fn int_from_str_radix_exec(t: &Vec<char>, from: usize, to: usize, radix: u32) -> (r: Result<
    i64,
    IntErrorKind,
>)
    requires
        from <= to <= t@.len(),
        2 <= radix <= 36,
    ensures
        match r {
            Ok(v) => int_from_str_radix(t@.subrange(from as int, to as int), radix as nat) == Ok::<
                int,
                IntErrorKind,
            >(v as int),
            Err(e) => int_from_str_radix(t@.subrange(from as int, to as int), radix as nat) == Err::<
                int,
                IntErrorKind,
            >(e),
        },
{
    let ghost s = t@.subrange(from as int, to as int);
    if from == to {
        return Err(IntErrorKind::Empty);
    }
    let first = t[from];
    proof {
        assert(s[0] == first);
    }
    if (first == '+' || first == '-') && to - from == 1 {
        return Err(IntErrorKind::InvalidDigit);
    }
    let neg = first == '-';
    let start = if first == '+' || first == '-' {
        from + 1
    } else {
        from
    };
    proof {
        if first == '+' || first == '-' {
            assert(s.skip(1) =~= t@.subrange(start as int, to as int));
        } else {
            assert(s =~= t@.subrange(start as int, to as int));
        }
    }
    let limit: u64 = if neg {
        0x8000_0000_0000_0000
    } else {
        0x7fff_ffff_ffff_ffff
    };
    proof {
        lemma_scan_bound(t@.subrange(start as int, to as int), radix as nat, 0, limit as nat);
    }
    match scan_digits_exec(t, start, to, radix, limit) {
        Ok(v) => {
            if neg {
                if v == 0x8000_0000_0000_0000u64 {
                    Ok(i64::MIN)
                } else {
                    Ok(-(v as i64))
                }
            } else {
                Ok(v as i64)
            }
        },
        Err(ScanStop::Invalid) => Err(IntErrorKind::InvalidDigit),
        Err(ScanStop::Overflow) => Err(
            if neg {
                IntErrorKind::NegOverflow
            } else {
                IntErrorKind::PosOverflow
            },
        ),
    }
}

/// A decimal number of at most `usize::MAX` written in `t[from..to]`, whose
/// characters are all digits.
pub fn usize_from_digits(t: &Vec<char>, from: usize, to: usize) -> (r: Option<usize>)
    requires
        from <= to <= t@.len(),
        forall|i: int| from <= i < to ==> is_ascii_digit(#[trigger] t@[i]),
    ensures
        match r {
            Some(v) => scan_digits(t@.subrange(from as int, to as int), 10, 0, usize::MAX as nat)
                == Ok::<nat, ScanStop>(v as nat),
            None => scan_digits(t@.subrange(from as int, to as int), 10, 0, usize::MAX as nat)
                == Err::<nat, ScanStop>(ScanStop::Overflow),
        },
{
    proof {
        lemma_scan_bound(t@.subrange(from as int, to as int), 10, 0, usize::MAX as nat);
    }
    match scan_digits_exec(t, from, to, 10, usize::MAX as u64) {
        Ok(v) => Some(v as usize),
        Err(e) => {
            proof {
                lemma_digits_never_invalid(t@.subrange(from as int, to as int), 0, usize::MAX as nat);
            }
            None
        },
    }
}

pub proof fn lemma_digits_never_invalid(d: Seq<char>, acc: nat, limit: nat)
    requires
        forall|i: int| 0 <= i < d.len() ==> is_ascii_digit(#[trigger] d[i]),
    ensures
        scan_digits(d, 10, acc, limit) != Err::<nat, ScanStop>(ScanStop::Invalid),
    decreases d.len(),
{
    if d.len() > 0 {
        let v = digit_value(d[0], 10);
        assert(is_ascii_digit(d[0]));
        if let Some(x) = v {
            let a = acc * 10 + x;
            if a <= limit {
                assert forall|i: int| 0 <= i < d.skip(1).len() implies is_ascii_digit(
                    #[trigger] d.skip(1)[i],
                ) by {
                    assert(d.skip(1)[i] == d[i + 1]);
                }
                lemma_digits_never_invalid(d.skip(1), a, limit);
            }
        }
    }
}

/// The message of a failed `i64::from_str_radix`.
pub fn int_error_message(k: IntErrorKind) -> (s: String)
    ensures
        s@ == int_error_text(k),
{
    match k {
        IntErrorKind::Empty => string_of("cannot parse integer from empty string"),
        IntErrorKind::InvalidDigit => string_of("invalid digit found in string"),
        IntErrorKind::PosOverflow => string_of("number too large to fit in target type"),
        IntErrorKind::NegOverflow => string_of("number too small to fit in target type"),
    }
}

/// Appends the message of a failed `i64::from_str_radix`.
pub fn push_int_error(s: &mut String, k: IntErrorKind)
    ensures
        final(s)@ == old(s)@ + int_error_text(k),
{
    let m = int_error_message(k);
    push_str(s, m.as_str());
}


/// `s` spells the lower-case word `w`, each letter in either case.
pub open spec fn spells(s: Seq<char>, w: Seq<char>) -> bool {
    s.len() == w.len() && forall|i: int|
        0 <= i < s.len() ==> s[i] == w[i] || (#[trigger] s[i] as u32) + 32 == (w[i] as u32)
}

/// A decimal number: digits with an optional `.` and fraction (at least
/// one digit in all), then an optional exponent `e`/`E`, optional sign and
/// digits.
pub open spec fn decimal_number(s: Seq<char>) -> bool {
    let a = digit_run_end(s, 0);
    let dot = a < s.len() && s[a] == '.';
    let b = if dot {
        digit_run_end(s, a + 1)
    } else {
        a
    };
    let mantissa = a > 0 || (dot && b > a + 1);
    if b == s.len() {
        mantissa
    } else if s[b] == 'e' || s[b] == 'E' {
        let f = if b + 1 < s.len() && (s[b + 1] == '+' || s[b + 1] == '-') {
            b + 2
        } else {
            b + 1
        };
        mantissa && digit_run_end(s, f) > f && digit_run_end(s, f) == s.len()
    } else {
        false
    }
}

/// The text `str::parse::<f64>` accepts: an optional sign, then `inf`,
/// `infinity`, `nan` (in either case) or a decimal number.
pub open spec fn float_literal(t: Seq<char>) -> bool {
    let s = if t.len() > 0 && (t[0] == '+' || t[0] == '-') {
        t.skip(1)
    } else {
        t
    };
    spells(s, "inf"@) || spells(s, "infinity"@) || spells(s, "nan"@) || decimal_number(s)
}

/// The message of `str::parse::<f64>`'s error for text it refuses.
pub open spec fn float_error_text(t: Seq<char>) -> Seq<char> {
    if t.len() == 0 {
        "cannot parse float from empty string"@
    } else {
        "invalid float literal"@
    }
}

/// The end of the run of ASCII digits of `t` that starts at `p`.
pub(crate) fn digit_run(t: &Vec<char>, p: usize) -> (r: usize)
    requires
        p <= t@.len(),
    ensures
        r == digit_run_end(t@, p as int),
        p <= r <= t@.len(),
{
    let mut i = p;
    while i < t.len() && '0' <= t[i] && t[i] <= '9'
        invariant
            p <= i <= t@.len(),
            digit_run_end(t@, p as int) == digit_run_end(t@, i as int),
        decreases t.len() - i,
    {
        i = i + 1;
    }
    i
}

/// Whether `t[from..]` spells the lower-case word `w`.
pub(crate) fn spells_at(t: &Vec<char>, from: usize, w: &str) -> (r: bool)
    requires
        from <= t@.len(),
    ensures
        r == spells(t@.skip(from as int), w@),
{
    let wc = crate::text::chars_of(w);
    let n = t.len();
    if n - from != wc.len() {
        return false;
    }
    let mut i: usize = 0;
    while i < wc.len()
        invariant
            wc@ == w@,
            n == t@.len(),
            from + wc@.len() == n,
            i <= wc@.len(),
            forall|j: int| 0 <= j < i ==> #[trigger] t@.skip(from as int)[j] == wc@[j] || (t@.skip(from as int)[j] as u32) + 32 == (wc@[j] as u32),
        decreases wc.len() - i,
    {
        let c = t[from + i];
        let l = wc[i];
        proof {
            assert(t@.skip(from as int)[i as int] == c);
        }
        if !(c == l || ((l as u32) >= 32 && (c as u32) == (l as u32) - 32)) {
            return false;
        }
        i = i + 1;
    }
    true
}

/// Whether `t[from..]` is a decimal number (see `decimal_number`).
fn decimal_number_at(t: &Vec<char>, from: usize) -> (r: bool)
    requires
        from <= t@.len(),
    ensures
        r == decimal_number(t@.skip(from as int)),
{
    let ghost s = t@.skip(from as int);
    let n = t.len();
    proof {
        lemma_digit_run_shift(t@, from as int, 0);
    }
    let a = digit_run(t, from);
    let dot = a < n && t[a] == '.';
    let b = if dot {
        proof {
            lemma_digit_run_shift(t@, from as int, a - from + 1);
        }
        digit_run(t, a + 1)
    } else {
        a
    };
    let mantissa = a > from || (dot && b > a + 1);
    proof {
        if a < n {
            assert(s[a - from] == t@[a as int]);
        }
        if b < n {
            assert(s[b - from] == t@[b as int]);
        }
        if b + 1 < n {
            assert(s[b - from + 1] == t@[b + 1]);
        }
    }
    if b == n {
        return mantissa;
    }
    if t[b] == 'e' || t[b] == 'E' {
        let f = if b + 1 < n && (t[b + 1] == '+' || t[b + 1] == '-') {
            b + 2
        } else {
            b + 1
        };
        proof {
            lemma_digit_run_shift(t@, from as int, f - from);
        }
        let g = digit_run(t, f);
        mantissa && g > f && g == n
    } else {
        false
    }
}

/// Digit runs of a suffix are those of the whole text, shifted.
proof fn lemma_digit_run_shift(t: Seq<char>, from: int, p: int)
    requires
        0 <= from <= t.len(),
        0 <= p <= t.len() - from,
    ensures
        digit_run_end(t.skip(from), p) == digit_run_end(t, from + p) - from,
    decreases t.len() - from - p,
{
    if p < t.len() - from {
        assert(t.skip(from)[p] == t[from + p]);
        lemma_digit_run_shift(t, from, p + 1);
    }
}

/// Whether `str::parse::<f64>` accepts the text `t` (see
/// `float_literal`).
pub fn is_float_literal(t: &Vec<char>) -> (r: bool)
    ensures
        r == float_literal(t@),
{
    let from: usize = if t.len() > 0 && (t[0] == '+' || t[0] == '-') {
        1
    } else {
        0
    };
    proof {
        assert(t@.skip(0) =~= t@);
    }
    spells_at(t, from, "inf") || spells_at(t, from, "infinity") || spells_at(t, from, "nan")
        || decimal_number_at(t, from)
}

} // verus!
