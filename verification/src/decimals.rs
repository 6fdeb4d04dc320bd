//! The numbers that decimal float text stands for, compared exactly.

use crate::compiler::{digit_run_end, lemma_digit_run};
use crate::numbers::{decimal_number, digit_run, float_literal, is_ascii_digit, is_float_literal, spells, spells_at};
use crate::text::{chars_of, str_equal};
use vstd::prelude::*;

verus! {

/// The number written by the ASCII digits `d`.
pub open spec fn digits_nat(d: Seq<char>) -> int
    decreases d.len(),
{
    if d.len() == 0 {
        0
    } else {
        digits_nat(d.drop_last()) * 10 + (d.last() as int - '0' as int)
    }
}

/// Every character of `d` is an ASCII digit.
pub open spec fn all_digits(d: Seq<char>) -> bool {
    forall|i: int| 0 <= i < d.len() ==> is_ascii_digit(#[trigger] d[i])
}

/// Digit `k` of `d` written right-aligned in `n` places (zeros in front).
pub open spec fn padded_digit(d: Seq<char>, n: int, k: int) -> int {
    let off = n - d.len();
    if k < off {
        0
    } else {
        d[k - off] as int - '0' as int
    }
}

/// The number written by the first `k` of the `n` places of `d`
/// right-aligned.
pub open spec fn padded_value(d: Seq<char>, n: int, k: int) -> int
    decreases k,
{
    if k <= 0 {
        0
    } else {
        padded_value(d, n, k - 1) * 10 + padded_digit(d, n, k - 1)
    }
}

proof fn lemma_padding_zero(d: Seq<char>, n: int, k: int)
    requires
        k <= n - d.len(),
    ensures
        padded_value(d, n, k) == 0,
    decreases k,
{
    if k > 0 {
        lemma_padding_zero(d, n, k - 1);
    }
}

proof fn lemma_padded_prefix(d: Seq<char>, n: int, k: int)
    requires
        d.len() <= n,
        n - d.len() <= k <= n,
    ensures
        padded_value(d, n, k) == digits_nat(d.take(k - (n - d.len()))),
    decreases k,
{
    let off = n - d.len();
    if k == off {
        lemma_padding_zero(d, n, k);
        assert(d.take(0) =~= Seq::<char>::empty());
    } else {
        lemma_padded_prefix(d, n, k - 1);
        let j = k - 1 - off;
        assert(d.take(j + 1).drop_last() =~= d.take(j));
        assert(d.take(j + 1).last() == d[j]);
    }
}

/// The whole of `d`, right-aligned in `n` places, is its number.
proof fn lemma_padded_whole(d: Seq<char>, n: int)
    requires
        d.len() <= n,
    ensures
        padded_value(d, n, n) == digits_nat(d),
{
    lemma_padded_prefix(d, n, n);
    assert(d.take(d.len() as int) =~= d);
}

/// A difference of digit numbers that has grown past `bound` keeps
/// growing as further digits come.
proof fn lemma_difference_grows(x: Seq<char>, y: Seq<char>, n: int, k: int, bound: int)
    requires
        all_digits(x),
        all_digits(y),
        x.len() <= n,
        y.len() <= n,
        0 <= k <= n,
        bound >= 1,
        padded_value(x, n, k) - padded_value(y, n, k) > bound || padded_value(x, n, k) - padded_value(
            y,
            n,
            k,
        ) < -bound,
    ensures
        padded_value(x, n, n) - padded_value(y, n, n) > bound || padded_value(x, n, n) - padded_value(
            y,
            n,
            n,
        ) < -bound,
    decreases n - k,
{
    if k < n {
        let ox = n - x.len();
        let oy = n - y.len();
        if k >= ox {
            assert(is_ascii_digit(x[k - ox]));
        }
        if k >= oy {
            assert(is_ascii_digit(y[k - oy]));
        }
        lemma_difference_grows(x, y, n, k + 1, bound);
    }
}

/// The largest difference `digits_difference` reports.
pub open spec fn difference_bound() -> int {
    1_000_000_000_000_000_000_000_000_000_000
}

/// `digits_nat(x) - digits_nat(y)` where that lies within
/// `difference_bound()` either way; `None` where it lies beyond.
pub fn digits_difference(x: &Vec<char>, y: &Vec<char>) -> (r: Option<i128>)
    requires
        all_digits(x@),
        all_digits(y@),
    ensures
        match r {
            Some(d) => d == digits_nat(x@) - digits_nat(y@) && -difference_bound() <= d
                <= difference_bound(),
            None => digits_nat(x@) - digits_nat(y@) > difference_bound() || digits_nat(x@)
                - digits_nat(y@) < -difference_bound(),
        },
{
    let n: usize = if x.len() >= y.len() {
        x.len()
    } else {
        y.len()
    };
    let ox = n - x.len();
    let oy = n - y.len();
    let bound: i128 = 1_000_000_000_000_000_000_000_000_000_000;
    let mut d: i128 = 0;
    let mut k: usize = 0;
    while k < n
        invariant
            n == if x@.len() >= y@.len() {
                x@.len()
            } else {
                y@.len()
            },
            ox == n - x@.len(),
            oy == n - y@.len(),
            bound == difference_bound(),
            all_digits(x@),
            all_digits(y@),
            k <= n,
            d == padded_value(x@, n as int, k as int) - padded_value(y@, n as int, k as int),
            -bound <= d <= bound,
        decreases n - k,
    {
        let dx: i128 = if k < ox {
            0
        } else {
            proof {
                assert(is_ascii_digit(x@[k - ox]));
            }
            (x[k - ox] as u32 - '0' as u32) as i128
        };
        let dy: i128 = if k < oy {
            0
        } else {
            proof {
                assert(is_ascii_digit(y@[k - oy]));
            }
            (y[k - oy] as u32 - '0' as u32) as i128
        };
        d = d * 10 + dx - dy;
        k = k + 1;
        if d > bound || d < -bound {
            proof {
                lemma_difference_grows(x@, y@, n as int, k as int, bound as int);
                lemma_padded_whole(x@, n as int);
                lemma_padded_whole(y@, n as int);
            }
            return None;
        }
    }
    proof {
        lemma_padded_whole(x@, n as int);
        lemma_padded_whole(y@, n as int);
    }
    Some(d)
}


/// The text after an optional leading sign.
pub open spec fn unsigned_part(t: Seq<char>) -> Seq<char> {
    if t.len() > 0 && (t[0] == '+' || t[0] == '-') {
        t.skip(1)
    } else {
        t
    }
}

/// Where the integer digits of a decimal number end.
pub open spec fn int_end(s: Seq<char>) -> int {
    digit_run_end(s, 0)
}

/// A decimal number has a `.` after its integer digits.
pub open spec fn has_dot(s: Seq<char>) -> bool {
    int_end(s) < s.len() && s[int_end(s)] == '.'
}

/// Where the mantissa (integer and fraction digits) of a decimal number
/// ends.
pub open spec fn frac_end(s: Seq<char>) -> int {
    if has_dot(s) {
        digit_run_end(s, int_end(s) + 1)
    } else {
        int_end(s)
    }
}

/// The digits of the mantissa, the `.` left out.
pub open spec fn mantissa_digits(s: Seq<char>) -> Seq<char> {
    s.subrange(0, int_end(s)) + if has_dot(s) {
        s.subrange(int_end(s) + 1, frac_end(s))
    } else {
        Seq::empty()
    }
}

/// The number of fraction digits.
pub open spec fn fraction_len(s: Seq<char>) -> int {
    if has_dot(s) {
        frac_end(s) - int_end(s) - 1
    } else {
        0
    }
}

/// Where the digits of the exponent start.
pub open spec fn exp_start(s: Seq<char>) -> int {
    let b = frac_end(s);
    if b + 1 < s.len() && (s[b + 1] == '+' || s[b + 1] == '-') {
        b + 2
    } else {
        b + 1
    }
}

/// The digits of the exponent (none when there is no exponent).
pub open spec fn exp_digits(s: Seq<char>) -> Seq<char> {
    if frac_end(s) < s.len() {
        s.subrange(exp_start(s), s.len() as int)
    } else {
        Seq::empty()
    }
}

/// The exponent is written with a `-`.
pub open spec fn exp_negative(s: Seq<char>) -> bool {
    frac_end(s) + 1 < s.len() && s[frac_end(s) + 1] == '-'
}

/// The exponent of a decimal number.
pub open spec fn exp_value(s: Seq<char>) -> int {
    if exp_negative(s) {
        -digits_nat(exp_digits(s))
    } else {
        digits_nat(exp_digits(s))
    }
}

/// The number of `0`s that `d` starts with.
pub open spec fn leading_zeros(d: Seq<char>) -> nat
    decreases d.len(),
{
    if d.len() > 0 && d[0] == '0' {
        1 + leading_zeros(d.skip(1))
    } else {
        0
    }
}

/// The number of `0`s that `d` ends with.
pub open spec fn trailing_zeros(d: Seq<char>) -> nat
    decreases d.len(),
{
    if d.len() > 0 && d.last() == '0' {
        1 + trailing_zeros(d.drop_last())
    } else {
        0
    }
}

/// The significant digits of `d`: without its leading and trailing `0`s
/// (none at all for a zero).
pub open spec fn significant(d: Seq<char>) -> Seq<char> {
    if leading_zeros(d) >= d.len() {
        Seq::empty()
    } else {
        d.subrange(leading_zeros(d) as int, d.len() - trailing_zeros(d))
    }
}

/// What `str::parse::<f64>` reads float text as, before rounding: not a
/// number, an infinity (negative or not), or a finite decimal given by its
/// sign, its significant digits and the power of ten of the last of them.
pub enum DecimalValue {
    NotANumber,
    Infinite(bool),
    Finite(bool, Seq<char>, int),
}

/// The value of float text (see `DecimalValue`).
pub open spec fn decimal_value(t: Seq<char>) -> DecimalValue {
    let neg = t.len() > 0 && t[0] == '-';
    let s = unsigned_part(t);
    if spells(s, "nan"@) {
        DecimalValue::NotANumber
    } else if spells(s, "inf"@) || spells(s, "infinity"@) {
        DecimalValue::Infinite(neg)
    } else {
        let m = mantissa_digits(s);
        DecimalValue::Finite(
            neg,
            significant(m),
            exp_value(s) - fraction_len(s) + trailing_zeros(m),
        )
    }
}

/// Two values are the same number: zeros whatever their signs, infinities
/// of one sign, finite numbers of one sign with the same significant digits
/// at the same place; not a number is no number's equal, not even its own.
pub open spec fn same_number(a: DecimalValue, b: DecimalValue) -> bool {
    match (a, b) {
        (DecimalValue::Finite(n1, d1, p1), DecimalValue::Finite(n2, d2, p2)) => (d1.len() == 0
            && d2.len() == 0) || (n1 == n2 && d1 == d2 && p1 == p2),
        (DecimalValue::Infinite(n1), DecimalValue::Infinite(n2)) => n1 == n2,
        _ => false,
    }
}

/// Whether two float texts stand for equal numbers; texts that are no
/// float literal are compared as text.
pub open spec fn float_text_equal(a: Seq<char>, b: Seq<char>) -> bool {
    if float_literal(a) && float_literal(b) {
        same_number(decimal_value(a), decimal_value(b))
    } else {
        a == b
    }
}

/// Appends `t[from..to]` to `v`.
fn append_range(v: &mut Vec<char>, t: &Vec<char>, from: usize, to: usize)
    requires
        from <= to <= t@.len(),
    ensures
        final(v)@ == old(v)@ + t@.subrange(from as int, to as int),
{
    let mut i = from;
    while i < to
        invariant
            from <= i <= to <= t@.len(),
            v@ == old(v)@ + t@.subrange(from as int, i as int),
        decreases to - i,
    {
        v.push(t[i]);
        proof {
            assert(t@.subrange(from as int, i + 1) =~= t@.subrange(from as int, i as int).push(t@[i as int]));
        }
        i = i + 1;
    }
}

/// The number of `0`s that `m` starts with.
fn count_leading_zeros(m: &Vec<char>) -> (r: usize)
    ensures
        r == leading_zeros(m@),
        r <= m@.len(),
        forall|k: int| 0 <= k < r ==> m@[k] == '0',
        r < m@.len() ==> m@[r as int] != '0',
{
    let mut i: usize = 0;
    proof {
        assert(m@.skip(0) =~= m@);
    }
    while i < m.len() && m[i] == '0'
        invariant
            i <= m@.len(),
            leading_zeros(m@) == i + leading_zeros(m@.skip(i as int)),
            forall|k: int| 0 <= k < i ==> m@[k] == '0',
        decreases m.len() - i,
    {
        proof {
            assert(m@.skip(i as int)[0] == m@[i as int]);
            assert(m@.skip(i as int).skip(1) =~= m@.skip(i + 1));
        }
        i = i + 1;
    }
    proof {
        if i < m.len() {
            assert(m@.skip(i as int)[0] == m@[i as int]);
        } else {
            assert(m@.skip(i as int).len() == 0);
        }
    }
    i
}

/// The number of `0`s that `m` ends with, given the count `lz` of those it
/// starts with.
fn count_trailing_zeros(m: &Vec<char>, lz: usize) -> (r: usize)
    requires
        lz <= m@.len(),
        forall|k: int| 0 <= k < lz ==> m@[k] == '0',
        lz < m@.len() ==> m@[lz as int] != '0',
    ensures
        r == trailing_zeros(m@),
        lz == m@.len() ==> r == m@.len(),
        lz < m@.len() ==> lz + r < m@.len(),
{
    let mut j: usize = m.len();
    proof {
        assert(m@.take(m@.len() as int) =~= m@);
    }
    while j > 0 && m[j - 1] == '0'
        invariant
            j <= m@.len(),
            lz <= m@.len(),
            forall|k: int| 0 <= k < lz ==> m@[k] == '0',
            lz < m@.len() ==> m@[lz as int] != '0' && lz < j,
            trailing_zeros(m@) == (m@.len() - j) + trailing_zeros(m@.take(j as int)),
        decreases j,
    {
        proof {
            assert(m@.take(j as int).last() == m@[j - 1]);
            assert(m@.take(j as int).drop_last() =~= m@.take(j - 1));
        }
        j = j - 1;
    }
    proof {
        if j > 0 {
            assert(m@.take(j as int).last() == m@[j - 1]);
        } else {
            assert(m@.take(0).len() == 0);
        }
        if lz == m@.len() && j > 0 {
            assert(m@[j - 1] == '0');
        }
    }
    m.len() - j
}

/// What `read_decimal` finds in a decimal number.
pub struct DecimalParts {
    pub mantissa: Vec<char>,
    pub leading: usize,
    pub trailing: usize,
    pub fraction: usize,
    pub exp_negative: bool,
    pub exponent: Vec<char>,
}

/// Splits the decimal number `u` into its mantissa digits (with their
/// leading and trailing zero counts), fraction length and exponent.
fn read_decimal(u: &Vec<char>) -> (r: DecimalParts)
    requires
        decimal_number(u@),
    ensures
        r.mantissa@ == mantissa_digits(u@),
        r.leading == leading_zeros(r.mantissa@),
        r.leading <= r.mantissa@.len(),
        r.trailing == trailing_zeros(r.mantissa@),
        r.leading == r.mantissa@.len() ==> r.trailing == r.mantissa@.len(),
        r.leading < r.mantissa@.len() ==> r.leading + r.trailing < r.mantissa@.len(),
        r.fraction == fraction_len(u@),
        r.exp_negative == exp_negative(u@),
        r.exponent@ == exp_digits(u@),
        all_digits(r.exponent@),
{
    let ghost s = u@;
    let n = u.len();
    proof {
        lemma_digit_run(s, 0);
    }
    let a = digit_run(u, 0);
    let dot = a < n && u[a] == '.';
    let b = if dot {
        proof {
            lemma_digit_run(s, a + 1);
        }
        digit_run(u, a + 1)
    } else {
        a
    };
    let mut mantissa: Vec<char> = Vec::new();
    append_range(&mut mantissa, u, 0, a);
    if dot {
        append_range(&mut mantissa, u, a + 1, b);
    }
    proof {
        assert(mantissa@ =~= mantissa_digits(s));
    }
    let fraction = if dot {
        b - a - 1
    } else {
        0
    };
    let mut exponent: Vec<char> = Vec::new();
    let mut exp_neg = false;
    if b < n {
        let f = if b + 1 < n && (u[b + 1] == '+' || u[b + 1] == '-') {
            b + 2
        } else {
            b + 1
        };
        exp_neg = b + 1 < n && u[b + 1] == '-';
        proof {
            lemma_digit_run(s, f as int);
        }
        append_range(&mut exponent, u, f, n);
        proof {
            assert(exponent@ =~= exp_digits(s));
            assert forall|i: int| 0 <= i < exponent@.len() implies is_ascii_digit(#[trigger] exponent@[i]) by {
                assert(exponent@[i] == s[f + i]);
            }
        }
    } else {
        proof {
            assert(exponent@ =~= exp_digits(s));
        }
    }
    let leading = count_leading_zeros(&mantissa);
    let trailing = count_trailing_zeros(&mantissa, leading);
    DecimalParts { mantissa, leading, trailing, fraction, exp_negative: exp_neg, exponent }
}

proof fn lemma_digits_nat_nonneg(d: Seq<char>)
    requires
        all_digits(d),
    ensures
        digits_nat(d) >= 0,
    decreases d.len(),
{
    if d.len() > 0 {
        assert(is_ascii_digit(d[d.len() - 1]));
        assert(d.drop_last().len() < d.len());
        assert forall|i: int| 0 <= i < d.drop_last().len() implies is_ascii_digit(#[trigger] d.drop_last()[i]) by {
            assert(d.drop_last()[i] == d[i]);
        }
        lemma_digits_nat_nonneg(d.drop_last());
    }
}

/// The signed number written by the digits `e`, negated when `neg`.
pub open spec fn signed_nat(neg: bool, e: Seq<char>) -> int {
    if neg {
        -digits_nat(e)
    } else {
        digits_nat(e)
    }
}

/// Whether `±e1 + off1 == ±e2 + off2`, the exponents written in digits of
/// any length.
fn same_power(n1: bool, e1: &Vec<char>, off1: i128, n2: bool, e2: &Vec<char>, off2: i128) -> (r: bool)
    requires
        all_digits(e1@),
        all_digits(e2@),
        -0x1_0000_0000_0000_0000 <= off1 <= 0x1_0000_0000_0000_0000,
        -0x1_0000_0000_0000_0000 <= off2 <= 0x1_0000_0000_0000_0000,
    ensures
        r == (signed_nat(n1, e1@) + off1 == signed_nat(n2, e2@) + off2),
{
    let empty: Vec<char> = Vec::new();
    proof {
        lemma_digits_nat_nonneg(e1@);
        lemma_digits_nat_nonneg(e2@);
        assert(digits_nat(empty@) == 0);
    }
    if n1 == n2 {
        match digits_difference(e1, e2) {
            Some(d) => if n1 {
                d == off1 - off2
            } else {
                d == off2 - off1
            },
            None => false,
        }
    } else {
        let v1 = digits_difference(e1, &empty);
        let v2 = digits_difference(e2, &empty);
        match (v1, v2) {
            (Some(x), Some(y)) => if n1 {
                x + y == off1 - off2
            } else {
                x + y == off2 - off1
            },
            _ => false,
        }
    }
}

/// Whether `x[xl..xh]` and `y[yl..yh]` hold the same characters.
fn same_slice(x: &Vec<char>, xl: usize, xh: usize, y: &Vec<char>, yl: usize, yh: usize) -> (r: bool)
    requires
        xl <= xh <= x@.len(),
        yl <= yh <= y@.len(),
    ensures
        r == (x@.subrange(xl as int, xh as int) == y@.subrange(yl as int, yh as int)),
{
    if xh - xl != yh - yl {
        proof {
            assert(x@.subrange(xl as int, xh as int).len() != y@.subrange(yl as int, yh as int).len());
        }
        return false;
    }
    let mut i: usize = 0;
    while i < xh - xl
        invariant
            xl <= xh <= x@.len(),
            yl <= yh <= y@.len(),
            xh - xl == yh - yl,
            i <= xh - xl,
            forall|k: int| 0 <= k < i ==> #[trigger] x@.subrange(xl as int, xh as int)[k] == y@.subrange(yl as int, yh as int)[k],
        decreases xh - xl - i,
    {
        if x[xl + i] != y[yl + i] {
            proof {
                assert(x@.subrange(xl as int, xh as int)[i as int] != y@.subrange(yl as int, yh as int)[i as int]);
            }
            return false;
        }
        i = i + 1;
    }
    proof {
        assert(x@.subrange(xl as int, xh as int) =~= y@.subrange(yl as int, yh as int));
    }
    true
}

/// How float text begins: its sign, where its unsigned part starts, and
/// whether that part spells `nan` (kind 0), an infinity (kind 1) or is a
/// decimal number (kind 2).
struct FloatHead {
    neg: bool,
    from: usize,
    kind: u8,
}

fn float_head(t: &Vec<char>) -> (r: FloatHead)
    requires
        float_literal(t@),
    ensures
        r.from <= t@.len(),
        t@.skip(r.from as int) == unsigned_part(t@),
        r.neg == (t@.len() > 0 && t@[0] == '-'),
        r.kind == 0 <==> spells(unsigned_part(t@), "nan"@),
        r.kind == 1 <==> !spells(unsigned_part(t@), "nan"@) && (spells(unsigned_part(t@), "inf"@) || spells(
            unsigned_part(t@),
            "infinity"@,
        )),
        r.kind == 2 <==> !spells(unsigned_part(t@), "nan"@) && !spells(unsigned_part(t@), "inf"@)
            && !spells(unsigned_part(t@), "infinity"@) && decimal_number(unsigned_part(t@)),
{
    let from: usize = if t.len() > 0 && (t[0] == '+' || t[0] == '-') {
        1
    } else {
        0
    };
    proof {
        assert(t@.skip(0) =~= t@);
    }
    let neg = t.len() > 0 && t[0] == '-';
    let kind: u8 = if spells_at(t, from, "nan") {
        0
    } else if spells_at(t, from, "inf") || spells_at(t, from, "infinity") {
        1
    } else {
        2
    };
    FloatHead { neg, from, kind }
}

/// The characters of `t` from `from` on.
fn suffix_of(t: &Vec<char>, from: usize) -> (r: Vec<char>)
    requires
        from <= t@.len(),
    ensures
        r@ == t@.skip(from as int),
{
    let mut r: Vec<char> = Vec::new();
    append_range(&mut r, t, from, t.len());
    proof {
        assert(r@ =~= t@.skip(from as int));
    }
    r
}

/// Whether two float texts stand for equal numbers (see
/// `float_text_equal`).
pub fn float_text_eq(a: &str, b: &str) -> (r: bool)
    ensures
        r == float_text_equal(a@, b@),
{
    let ac = chars_of(a);
    let bc = chars_of(b);
    if !(is_float_literal(&ac) && is_float_literal(&bc)) {
        return str_equal(a, b);
    }
    let ha = float_head(&ac);
    let hb = float_head(&bc);
    if ha.kind == 0 || hb.kind == 0 {
        return false;
    }
    if ha.kind == 1 || hb.kind == 1 {
        return ha.kind == hb.kind && ha.neg == hb.neg;
    }
    let ua = suffix_of(&ac, ha.from);
    let ub = suffix_of(&bc, hb.from);
    let da = read_decimal(&ua);
    let db = read_decimal(&ub);
    let za = da.leading == da.mantissa.len();
    let zb = db.leading == db.mantissa.len();
    let ghost va = decimal_value(a@);
    let ghost vb = decimal_value(b@);
    proof {
        assert(va == DecimalValue::Finite(
            ha.neg,
            significant(da.mantissa@),
            signed_nat(da.exp_negative, da.exponent@) - da.fraction + da.trailing,
        ));
        assert(vb == DecimalValue::Finite(
            hb.neg,
            significant(db.mantissa@),
            signed_nat(db.exp_negative, db.exponent@) - db.fraction + db.trailing,
        ));
        assert(za <==> significant(da.mantissa@).len() == 0);
        assert(zb <==> significant(db.mantissa@).len() == 0);
    }
    if za || zb {
        return za && zb;
    }
    if ha.neg != hb.neg {
        return false;
    }
    if !same_slice(
        &da.mantissa,
        da.leading,
        da.mantissa.len() - da.trailing,
        &db.mantissa,
        db.leading,
        db.mantissa.len() - db.trailing,
    ) {
        return false;
    }
    let off_a: i128 = da.trailing as i128 - da.fraction as i128;
    let off_b: i128 = db.trailing as i128 - db.fraction as i128;
    same_power(da.exp_negative, &da.exponent, off_a, db.exp_negative, &db.exponent, off_b)
}

} // verus!
