//! Reading datetime text: the normalisations applied to matched text and
//! the `strptime` attempts that turn it into a date, a time or a datetime.
//! The attempts themselves are made by the caller, which holds the
//! datetime library.

use crate::numbers::is_ascii_digit;
use crate::text::{
    byte_len, byte_to_char_index, char_index_at, char_width_of, chars_of, find_char, find_char_from,
    first_index, is_char_offset, lemma_first_index, push_char, str_byte_len, str_equal, string_of,
    string_of_range,
};
use vstd::string::StrSliceExecFns;
use vstd::prelude::*;

verus! {

pub open spec fn is_sign(c: char) -> bool {
    c == '+' || c == '-'
}

/// Index of the last `+` or `-` of `s`.
pub open spec fn last_sign(s: Seq<char>) -> Option<int> {
    if exists|i: int| 0 <= i < s.len() && is_sign(#[trigger] s[i]) {
        Some(
            choose|i: int|
                0 <= i < s.len() && is_sign(#[trigger] s[i]) && forall|j: int|
                    i < j < s.len() ==> !is_sign(#[trigger] s[j]),
        )
    } else {
        None
    }
}

proof fn lemma_last_sign_at(s: Seq<char>, i: int)
    requires
        0 <= i < s.len(),
        is_sign(s[i]),
        forall|j: int| i < j < s.len() ==> !is_sign(#[trigger] s[j]),
    ensures
        last_sign(s) == Some(i),
{
    let c = choose|c: int|
        0 <= c < s.len() && is_sign(#[trigger] s[c]) && forall|j: int|
            c < j < s.len() ==> !is_sign(#[trigger] s[j]);
    assert(0 <= i < s.len() && is_sign(#[trigger] s[i]) && forall|j: int|
        i < j < s.len() ==> !is_sign(#[trigger] s[j]));
    if c < i {
        assert(!is_sign(s[i]));
    } else if c > i {
        assert(!is_sign(s[c]));
    }
}

proof fn lemma_last_exists(s: Seq<char>, w: int)
    requires
        0 <= w < s.len(),
        is_sign(s[w]),
    ensures
        exists|i: int|
            0 <= i < s.len() && is_sign(#[trigger] s[i]) && forall|j: int|
                i < j < s.len() ==> !is_sign(#[trigger] s[j]),
    decreases s.len() - w,
{
    if exists|j: int| w < j < s.len() && is_sign(#[trigger] s[j]) {
        let j = choose|j: int| w < j < s.len() && is_sign(#[trigger] s[j]);
        lemma_last_exists(s, j);
    } else {
        assert(0 <= w < s.len() && is_sign(#[trigger] s[w]) && forall|j: int|
            w < j < s.len() ==> !is_sign(#[trigger] s[j]));
    }
}

proof fn lemma_last_sign(s: Seq<char>)
    ensures
        match last_sign(s) {
            Some(i) => 0 <= i < s.len() && is_sign(s[i]) && forall|j: int|
                i < j < s.len() ==> !is_sign(#[trigger] s[j]),
            None => forall|j: int| 0 <= j < s.len() ==> !is_sign(#[trigger] s[j]),
        },
{
    if exists|i: int| 0 <= i < s.len() && is_sign(#[trigger] s[i]) {
        let w = choose|i: int| 0 <= i < s.len() && is_sign(#[trigger] s[i]);
        lemma_last_exists(s, w);
    }
}

/// Index of the first `+` or `-` of `s`.
pub open spec fn first_sign(s: Seq<char>) -> Option<int> {
    if exists|i: int| 0 <= i < s.len() && is_sign(#[trigger] s[i]) {
        Some(
            choose|i: int|
                0 <= i < s.len() && is_sign(#[trigger] s[i]) && forall|j: int|
                    0 <= j < i ==> !is_sign(#[trigger] s[j]),
        )
    } else {
        None
    }
}

proof fn lemma_first_sign_at(s: Seq<char>, i: int)
    requires
        0 <= i < s.len(),
        is_sign(s[i]),
        forall|j: int| 0 <= j < i ==> !is_sign(#[trigger] s[j]),
    ensures
        first_sign(s) == Some(i),
{
    let c = choose|c: int|
        0 <= c < s.len() && is_sign(#[trigger] s[c]) && forall|j: int|
            0 <= j < c ==> !is_sign(#[trigger] s[j]);
    assert(0 <= i < s.len() && is_sign(#[trigger] s[i]) && forall|j: int|
        0 <= j < i ==> !is_sign(#[trigger] s[j]));
    if c < i {
        assert(!is_sign(s[c]));
    } else if c > i {
        assert(!is_sign(s[i]));
    }
}

/// `raw` with a one-digit hour in its trailing UTC offset written with two
/// digits: `+1:00` becomes `+01:00` and `-530` becomes `-0530`. The offset
/// is what follows the last sign; other text is returned as it is.
pub open spec fn short_offset_normalized(raw: Seq<char>) -> Seq<char> {
    match last_sign(raw) {
        None => raw,
        Some(p) => match first_index(raw.skip(p + 1), ':') {
            Some(c) => offset_with_colon(raw, p, c),
            None => offset_without_colon(raw, p),
        },
    }
}

/// The offset after the sign at `p` is `hours:minutes`, the colon at
/// index `c` after the sign: one byte of hours and two of minutes get a
/// leading zero.
pub open spec fn offset_with_colon(raw: Seq<char>, p: int, c: int) -> Seq<char> {
    let suffix = raw.skip(p + 1);
    let hours = suffix.take(c);
    let minutes = suffix.skip(c + 1);
    if byte_len(hours) == 1 && byte_len(minutes) == 2 {
        raw.take(p) + seq![raw[p], '0'] + hours + seq![':'] + minutes
    } else {
        raw
    }
}

/// The offset after the sign at `p` has no colon: three digits get a
/// leading zero.
pub open spec fn offset_without_colon(raw: Seq<char>, p: int) -> Seq<char> {
    let suffix = raw.skip(p + 1);
    if suffix.len() == 3 && forall|i: int| 0 <= i < 3 ==> is_ascii_digit(#[trigger] suffix[i]) {
        raw.take(p) + seq![raw[p], '0'] + suffix
    } else {
        raw
    }
}

/// Position of the last `+` or `-` among `cs`.
fn find_last_sign(cs: &Vec<char>) -> (r: Option<usize>)
    ensures
        match r {
            Some(i) => i < cs@.len() && last_sign(cs@) == Some(i as int),
            None => last_sign(cs@) is None,
        },
{
    let mut i = cs.len();
    while i > 0
        invariant
            i <= cs@.len(),
            forall|j: int| i <= j < cs@.len() ==> !is_sign(#[trigger] cs@[j]),
        decreases i,
    {
        let c = cs[i - 1];
        if c == '+' || c == '-' {
            proof {
                lemma_last_sign_at(cs@, i - 1);
            }
            return Some(i - 1);
        }
        i = i - 1;
    }
    None
}

/// Number of bytes of the UTF-8 encoding of `cs[from..to]`.
fn range_byte_len(cs: &Vec<char>, from: usize, to: usize) -> (n: usize)
    requires
        from <= to <= cs@.len(),
        byte_len(cs@) <= isize::MAX,
    ensures
        n == byte_len(cs@.subrange(from as int, to as int)),
{
    let mut n: usize = 0;
    let mut i = from;
    while i < to
        invariant
            from <= i <= to <= cs@.len(),
            byte_len(cs@) <= isize::MAX,
            n == byte_len(cs@.subrange(from as int, i as int)),
        decreases to - i,
    {
        proof {
            assert(cs@.subrange(from as int, i + 1).drop_last() =~= cs@.subrange(from as int, i as int));
            lemma_byte_len_range_bound(cs@, from as int, i + 1);
        }
        n = n + char_width_of(cs[i]);
        i = i + 1;
    }
    n
}

/// A part of a sequence is no longer in bytes than the whole.
proof fn lemma_byte_len_range_bound(s: Seq<char>, from: int, to: int)
    requires
        0 <= from <= to <= s.len(),
    ensures
        byte_len(s.subrange(from, to)) <= byte_len(s),
{
    crate::text::lemma_byte_len_concat(s.take(from), s.subrange(from, to));
    crate::text::lemma_byte_len_concat(s.take(to), s.skip(to));
    assert(s.take(from) + s.subrange(from, to) =~= s.take(to));
    assert(s.take(to) + s.skip(to) =~= s);
}

/// Appends `cs[from..to]` to `s`.
fn push_range(s: &mut String, cs: &Vec<char>, from: usize, to: usize)
    requires
        from <= to <= cs@.len(),
    ensures
        final(s)@ == old(s)@ + cs@.subrange(from as int, to as int),
{
    let mut i = from;
    while i < to
        invariant
            from <= i <= to <= cs@.len(),
            s@ == old(s)@ + cs@.subrange(from as int, i as int),
        decreases to - i,
    {
        push_char(s, cs[i]);
        proof {
            assert(cs@.subrange(from as int, i + 1) =~= cs@.subrange(from as int, i as int).push(
                cs@[i as int],
            ));
        }
        i = i + 1;
    }
}

fn colon_offset(raw: &str, cs: &Vec<char>, p: usize, c: usize) -> (r: String)
    requires
        cs@ == raw@,
        byte_len(cs@) <= isize::MAX,
        p < c < cs@.len(),
        cs@[c as int] == ':',
    ensures
        r@ == offset_with_colon(raw@, p as int, c - p - 1),
{
    let n = cs.len();
    let ghost suffix = cs@.skip(p + 1);
    let hours_len = range_byte_len(cs, p + 1, c);
    let minutes_len = range_byte_len(cs, c + 1, n);
    proof {
        assert(suffix.take(c - p - 1) =~= cs@.subrange(p + 1, c as int));
        assert(suffix.skip(c - p - 1 + 1) =~= cs@.subrange(c + 1, n as int));
    }
    if hours_len == 1 && minutes_len == 2 {
        let mut out = string_of_range(cs, 0, p);
        push_char(&mut out, cs[p]);
        push_char(&mut out, '0');
        push_range(&mut out, cs, p + 1, c);
        push_char(&mut out, ':');
        push_range(&mut out, cs, c + 1, n);
        proof {
            assert(out@ =~= raw@.take(p as int) + seq![raw@[p as int], '0'] + suffix.take(c - p - 1)
                + seq![':'] + suffix.skip(c - p - 1 + 1));
        }
        out
    } else {
        string_of(raw)
    }
}

fn plain_offset(raw: &str, cs: &Vec<char>, p: usize) -> (r: String)
    requires
        cs@ == raw@,
        p < cs@.len(),
    ensures
        r@ == offset_without_colon(raw@, p as int),
{
    let n = cs.len();
    let ghost suffix = cs@.skip(p + 1);
    if n - (p + 1) == 3 && is_digit(cs[p + 1]) && is_digit(cs[p + 2]) && is_digit(cs[p + 3]) {
        let mut out = string_of_range(cs, 0, p);
        push_char(&mut out, cs[p]);
        push_char(&mut out, '0');
        push_range(&mut out, cs, p + 1, n);
        proof {
            assert(suffix =~= cs@.subrange(p + 1, n as int));
            assert(out@ =~= raw@.take(p as int) + seq![raw@[p as int], '0'] + suffix);
        }
        out
    } else {
        proof {
            if suffix.len() == 3 {
                assert(suffix[0] == cs@[p + 1]);
                assert(suffix[1] == cs@[p + 2]);
                assert(suffix[2] == cs@[p + 3]);
            }
        }
        string_of(raw)
    }
}

/// Writes a one-digit hour of the trailing UTC offset of `raw` with two
/// digits (see `short_offset_normalized`).
pub fn normalize_short_tz_offset(raw: &str) -> (r: String)
    ensures
        r@ == short_offset_normalized(raw@),
{
    let cs = chars_of(raw);
    let p = match find_last_sign(&cs) {
        None => {
            return string_of(raw);
        },
        Some(p) => p,
    };
    let n = cs.len();
    proof {
        lemma_first_index(cs@.skip(p + 1), ':');
    }
    match find_char_from(&cs, p + 1, ':') {
        Some(c) => {
            proof {
                assert(cs@.skip(p + 1)[c - p - 1] == cs@[c as int]);
            }
            colon_offset(raw, &cs, p, c)
        },
        None => plain_offset(raw, &cs, p),
    }
}

/// The fraction digits and the timezone that follow the `.` of a time:
/// a trailing `Z`, or everything from the first sign on.
pub open spec fn fraction_and_tz(suffix: Seq<char>) -> (Seq<char>, Seq<char>) {
    if suffix.len() > 0 && suffix.last() == 'Z' {
        (suffix.drop_last(), seq!['Z'])
    } else {
        match first_sign(suffix) {
            Some(i) => (suffix.take(i), suffix.skip(i)),
            None => (suffix, Seq::empty()),
        }
    }
}

/// The first six bytes of the fraction (all of it when shorter).
pub open spec fn first_six_bytes(f: Seq<char>) -> Seq<char> {
    if byte_len(f) <= 6 {
        f
    } else {
        f.take(char_index_at(f, 6))
    }
}

/// `t` padded with zeros on the right to six characters.
pub open spec fn padded_six(t: Seq<char>) -> Seq<char> {
    if t.len() >= 6 {
        t
    } else {
        t + Seq::new((6 - t.len()) as nat, |i: int| '0')
    }
}

/// The text with the fraction of its seconds written with exactly six
/// digits (cut after six bytes or padded with zeros); `None` without a `.`.
pub open spec fn fraction_normalized(raw: Seq<char>) -> Option<Seq<char>> {
    match first_index(raw, '.') {
        None => None,
        Some(d) => {
            let (f, tz) = fraction_and_tz(raw.skip(d + 1));
            Some(raw.take(d) + seq!['.'] + padded_six(first_six_bytes(f)) + tz)
        },
    }
}

/// The fraction can be cut after six bytes without splitting a character.
pub open spec fn fraction_cuttable(raw: Seq<char>) -> bool {
    match first_index(raw, '.') {
        None => true,
        Some(d) => {
            let f = fraction_and_tz(raw.skip(d + 1)).0;
            byte_len(f) <= 6 || is_char_offset(f, 6)
        },
    }
}

/// Where the fraction after the `.` at `start - 1` ends: before a trailing
/// `Z`, at the first sign, or at the end.
fn fraction_end(cs: &Vec<char>, start: usize) -> (e: usize)
    requires
        start <= cs@.len(),
    ensures
        start <= e <= cs@.len(),
        fraction_and_tz(cs@.skip(start as int)) == (
            cs@.subrange(start as int, e as int),
            cs@.skip(e as int),
        ),
{
    let n = cs.len();
    let ghost suffix = cs@.skip(start as int);
    if n > start && cs[n - 1] == 'Z' {
        proof {
            assert(suffix.last() == cs@[n - 1]);
            assert(suffix.drop_last() =~= cs@.subrange(start as int, n - 1));
            assert(cs@.skip(n - 1) =~= seq!['Z']);
        }
        return n - 1;
    }
    let mut i = start;
    while i < n
        invariant
            start <= i <= n,
            n == cs@.len(),
            suffix == cs@.skip(start as int),
            !(n > start && cs@[n - 1] == 'Z'),
            forall|j: int| 0 <= j < i - start ==> !is_sign(#[trigger] suffix[j]),
        decreases n - i,
    {
        if cs[i] == '+' || cs[i] == '-' {
            proof {
                assert(suffix[i - start] == cs@[i as int]);
                lemma_first_sign_at(suffix, i - start);
                assert(suffix.take(i - start) =~= cs@.subrange(start as int, i as int));
                assert(suffix.skip(i - start) =~= cs@.skip(i as int));
                if suffix.len() > 0 {
                    assert(suffix.last() == cs@[n - 1]);
                }
            }
            return i;
        }
        proof {
            assert(suffix[i - start] == cs@[i as int]);
        }
        i = i + 1;
    }
    proof {
        if exists|j: int| 0 <= j < suffix.len() && is_sign(#[trigger] suffix[j]) {
            let j = choose|j: int| 0 <= j < suffix.len() && is_sign(#[trigger] suffix[j]);
            assert(!is_sign(suffix[j]));
        }
        assert(suffix =~= cs@.subrange(start as int, n as int));
        assert(cs@.skip(n as int) =~= Seq::<char>::empty());
        if suffix.len() > 0 {
            assert(suffix.last() == cs@[n - 1]);
        }
    }
    n
}

/// The first six bytes of `f` (see `first_six_bytes`).
fn cut_six(f: &str) -> (r: &str)
    requires
        byte_len(f@) <= 6 || is_char_offset(f@, 6),
    ensures
        r@ == first_six_bytes(f@),
{
    if str_byte_len(f) <= 6 {
        let k = f.unicode_len();
        proof {
            assert(f@.subrange(0, k as int) =~= f@);
        }
        f.substring_char(0, k)
    } else {
        let k = byte_to_char_index(f, 6);
        proof {
            assert(f@.subrange(0, k as int) =~= f@.take(k as int));
        }
        f.substring_char(0, k)
    }
}

/// Appends `t` padded with zeros to six characters.
fn push_padded_six(out: &mut String, t: &str)
    ensures
        final(out)@ == old(out)@ + padded_six(t@),
{
    crate::text::push_str(out, t);
    let k = t.unicode_len();
    let mut w = k;
    while w < 6
        invariant
            k == t@.len(),
            k <= w <= 6 || (k > 6 && w == k),
            out@ == old(out)@ + t@ + Seq::new((w - k) as nat, |i: int| '0'),
        decreases 6 - w,
    {
        push_char(out, '0');
        proof {
            assert(Seq::new((w + 1 - k) as nat, |i: int| '0') =~= Seq::new((w - k) as nat, |i: int| '0').push(
                '0',
            ));
        }
        w = w + 1;
    }
    proof {
        if t@.len() >= 6 {
            assert(Seq::new((w - k) as nat, |i: int| '0') =~= Seq::<char>::empty());
            assert(t@ + Seq::<char>::empty() =~= t@);
        }
    }
}

/// Writes the fraction of the seconds in `raw` with exactly six digits
/// (see `fraction_normalized`).
pub fn normalize_fractional_seconds(raw: &str) -> (r: Option<String>)
    requires
        fraction_cuttable(raw@),
    ensures
        match r {
            Some(t) => fraction_normalized(raw@) == Some(t@),
            None => fraction_normalized(raw@) is None,
        },
{
    let cs = chars_of(raw);
    let d = match find_char(&cs, '.') {
        None => {
            return None;
        },
        Some(d) => d,
    };
    proof {
        lemma_first_index(cs@, '.');
    }
    let e = fraction_end(&cs, d + 1);
    let fraction = string_of_range(&cs, d + 1, e);
    let cut = cut_six(fraction.as_str());
    let mut out = string_of_range(&cs, 0, d);
    push_char(&mut out, '.');
    push_padded_six(&mut out, cut);
    push_range(&mut out, &cs, e, cs.len());
    proof {
        assert(cs@.subrange(e as int, cs@.len() as int) =~= cs@.skip(e as int));
        assert(out@ =~= raw@.take(d as int) + seq!['.'] + padded_six(first_six_bytes(fraction@))
            + cs@.skip(e as int));
    }
    Some(out)
}

fn is_digit(c: char) -> (r: bool)
    ensures
        r == is_ascii_digit(c),
{
    '0' <= c && c <= '9'
}


/// ISO 8601 text as `strptime` reads it: a trailing `Z` written as
/// `+00:00`, `T` as a space, and no space before a `+`.
pub open spec fn iso_normalized(raw: Seq<char>) -> Seq<char> {
    without_space_before_plus(t_as_space(zulu_expanded(raw)))
}

pub open spec fn zulu_expanded(raw: Seq<char>) -> Seq<char> {
    if raw.len() > 0 && raw.last() == 'Z' {
        raw.drop_last() + "+00:00"@
    } else {
        raw
    }
}

pub open spec fn t_as_space(s: Seq<char>) -> Seq<char> {
    s.map_values(
        |c: char|
            if c == 'T' {
                ' '
            } else {
                c
            },
    )
}

/// `s` with each space that comes right before a `+` removed (the
/// occurrences of ` +` taken from left to right).
pub open spec fn without_space_before_plus(s: Seq<char>) -> Seq<char>
    decreases s.len(),
{
    if s.len() == 0 {
        s
    } else if s.len() >= 2 && s[0] == ' ' && s[1] == '+' {
        seq!['+'] + without_space_before_plus(s.skip(2))
    } else {
        seq![s[0]] + without_space_before_plus(s.skip(1))
    }
}

/// Writes ISO 8601 text as `strptime` reads it (see `iso_normalized`).
pub fn normalize_iso(raw: &str) -> (r: String)
    ensures
        r@ == iso_normalized(raw@),
{
    let cs = chars_of(raw);
    let n = cs.len();
    let mut expanded: Vec<char> = Vec::new();
    let ends_z = n > 0 && cs[n - 1] == 'Z';
    let keep = if ends_z {
        n - 1
    } else {
        n
    };
    let mut i: usize = 0;
    while i < keep
        invariant
            keep <= n == cs@.len(),
            i <= keep,
            expanded@ == t_as_space(cs@.take(i as int)),
        decreases keep - i,
    {
        let c = cs[i];
        expanded.push(
            if c == 'T' {
                ' '
            } else {
                c
            },
        );
        proof {
            assert(t_as_space(cs@.take(i + 1)) =~= t_as_space(cs@.take(i as int)).push(
                if cs@[i as int] == 'T' {
                    ' '
                } else {
                    cs@[i as int]
                },
            ));
        }
        i = i + 1;
    }
    if ends_z {
        expanded.push('+');
        expanded.push('0');
        expanded.push('0');
        expanded.push(':');
        expanded.push('0');
        expanded.push('0');
    }
    proof {
        reveal_strlit("+00:00");
        if ends_z {
            assert(cs@.take(keep as int) =~= raw@.drop_last());
            assert(expanded@ =~= t_as_space(zulu_expanded(raw@)));
        } else {
            assert(cs@.take(keep as int) =~= raw@);
        }
        assert(expanded@ =~= t_as_space(zulu_expanded(raw@)));
    }
    let ghost e = expanded@;
    let mut out = String::new();
    let mut j: usize = 0;
    let m = expanded.len();
    proof {
        assert(e.skip(0) =~= e);
    }
    while j < m
        invariant
            m == e.len(),
            e == expanded@,
            j <= m,
            out@ + without_space_before_plus(e.skip(j as int)) == without_space_before_plus(e),
        decreases m - j,
    {
        let ghost rest = e.skip(j as int);
        if j + 1 < m && expanded[j] == ' ' && expanded[j + 1] == '+' {
            push_char(&mut out, '+');
            proof {
                assert(rest.skip(2) =~= e.skip(j + 2));
            }
            j = j + 2;
        } else {
            push_char(&mut out, expanded[j]);
            proof {
                assert(rest.skip(1) =~= e.skip(j + 1));
            }
            j = j + 1;
        }
    }
    proof {
        assert(e.skip(m as int) =~= Seq::<char>::empty());
        assert(out@ + Seq::<char>::empty() =~= out@);
    }
    out
}

/// The formats tried on ISO 8601 text, in order.
pub open spec fn iso_direct_formats() -> Seq<Seq<char>> {
    seq![
        "%Y-%m-%dT%H:%M:%S.%f%z"@,
        "%Y-%m-%dT%H:%M:%S%z"@,
        "%Y-%m-%d %H:%M:%S.%f%z"@,
        "%Y-%m-%d %H:%M:%S%z"@,
        "%Y-%m-%dT%H:%M:%S.%f"@,
        "%Y-%m-%dT%H:%M:%S"@,
        "%Y-%m-%d %H:%M:%S.%f"@,
        "%Y-%m-%d %H:%M:%S"@,
        "%Y-%m-%dT%H:%M%z"@,
        "%Y-%m-%d %H:%M%z"@,
        "%Y-%m-%dT%H:%M"@,
        "%Y-%m-%d %H:%M"@,
        "%Y-%m-%d"@,
    ]
}

/// The formats tried on ISO 8601 text whose fraction was rewritten.
pub open spec fn iso_fraction_formats() -> Seq<Seq<char>> {
    seq![
        "%Y-%m-%dT%H:%M:%S.%f%z"@,
        "%Y-%m-%d %H:%M:%S.%f%z"@,
        "%Y-%m-%dT%H:%M:%S.%f"@,
        "%Y-%m-%d %H:%M:%S.%f"@,
    ]
}

/// The formats of RFC 2822 (e-mail) dates.
pub open spec fn email_formats() -> Seq<Seq<char>> {
    seq![
        "%a, %d %b %Y %H:%M:%S %z"@,
        "%d %b %Y %H:%M:%S %z"@,
    ]
}

/// The formats of American dates (month first).
pub open spec fn american_formats() -> Seq<Seq<char>> {
    seq![
        "%B-%d-%Y %I:%M:%S %p %z"@,
        "%m-%d-%Y %I:%M:%S %p %z"@,
        "%b-%d-%Y %I:%M:%S %p %z"@,
        "%B/%d/%Y %I:%M:%S %p %z"@,
        "%m/%d/%Y %I:%M:%S %p %z"@,
        "%b/%d/%Y %I:%M:%S %p %z"@,
        "%B/%d/%Y %H:%M:%S %p %z"@,
        "%m/%d/%Y %H:%M:%S %p %z"@,
        "%b/%d/%Y %H:%M:%S %p %z"@,
        "%B-%d-%Y %H:%M:%S %z"@,
        "%m-%d-%Y %H:%M:%S %z"@,
        "%b-%d-%Y %H:%M:%S %z"@,
        "%B/%d/%Y %H:%M:%S %z"@,
        "%m/%d/%Y %H:%M:%S %z"@,
        "%b/%d/%Y %H:%M:%S %z"@,
        "%B-%d-%Y %I:%M %p %z"@,
        "%m-%d-%Y %I:%M %p %z"@,
        "%b-%d-%Y %I:%M %p %z"@,
        "%B/%d/%Y %I:%M %p %z"@,
        "%m/%d/%Y %I:%M %p %z"@,
        "%b/%d/%Y %I:%M %p %z"@,
        "%B-%d-%Y %H:%M %z"@,
        "%m-%d-%Y %H:%M %z"@,
        "%b-%d-%Y %H:%M %z"@,
        "%B/%d/%Y %H:%M %z"@,
        "%m/%d/%Y %H:%M %z"@,
        "%b/%d/%Y %H:%M %z"@,
        "%B-%d-%Y %I:%M:%S %p"@,
        "%m-%d-%Y %I:%M:%S %p"@,
        "%b-%d-%Y %I:%M:%S %p"@,
        "%B/%d/%Y %I:%M:%S %p"@,
        "%m/%d/%Y %I:%M:%S %p"@,
        "%b/%d/Y %I:%M:%S %p"@,
        "%B-%d-%Y %H:%M:%S"@,
        "%m-%d-%Y %H:%M:%S"@,
        "%b-%d-%Y %H:%M:%S"@,
        "%B/%d/%Y %H:%M:%S"@,
        "%m/%d/%Y %H:%M:%S"@,
        "%b/%d/%Y %H:%M:%S"@,
        "%B-%d-%Y %I:%M %p"@,
        "%m-%d-%Y %I:%M %p"@,
        "%b-%d-%Y %I:%M %p"@,
        "%B/%d/%Y %I:%M %p"@,
        "%m/%d/%Y %I:%M %p"@,
        "%b/%d/%Y %I:%M %p"@,
        "%B/%d/%Y %H:%M"@,
        "%m/%d/%Y %H:%M"@,
        "%b/%d/%Y %H:%M"@,
        "%B-%d-%Y"@,
        "%m-%d-%Y"@,
        "%b-%d-%Y"@,
        "%B/%d/%Y"@,
        "%m/%d/%Y"@,
        "%b/%d/%Y"@,
    ]
}

/// `f` reads the month (`%m`, `%b` or `%B`) before the day (`%d`).
pub open spec fn month_before_day(f: Seq<char>) -> bool {
    exists|i: int, j: int|
        0 <= i && i + 1 < j && j + 1 < f.len() && f[i] == '%' && (#[trigger] f[i + 1] == 'm' || f[i + 1]
            == 'b' || f[i + 1] == 'B') && f[j] == '%' && #[trigger] f[j + 1] == 'd'
}

proof fn lemma_month_first_shape(f: Seq<char>)
    requires
        f.len() >= 5,
        f[0] == '%',
        f[1] == 'm' || f[1] == 'b' || f[1] == 'B',
        f[3] == '%',
        f[4] == 'd',
    ensures
        month_before_day(f),
{
    assert(f[0int + 1] == f[1] && f[3int + 1] == 'd');
}

/// Every format tried for a US-style (`ta`) date reads the month before
/// the day.
#[verifier::rlimit(60)]
pub proof fn law_us_dates_month_first()
    ensures
        forall|k: int| 0 <= k < american_formats().len() ==> month_before_day(#[trigger] american_formats()[k]),
{
    let fs = american_formats();
    reveal_strlit("%B-%d-%Y %I:%M:%S %p %z");
    lemma_month_first_shape(fs[0]);
    reveal_strlit("%m-%d-%Y %I:%M:%S %p %z");
    lemma_month_first_shape(fs[1]);
    reveal_strlit("%b-%d-%Y %I:%M:%S %p %z");
    lemma_month_first_shape(fs[2]);
    reveal_strlit("%B/%d/%Y %I:%M:%S %p %z");
    lemma_month_first_shape(fs[3]);
    reveal_strlit("%m/%d/%Y %I:%M:%S %p %z");
    lemma_month_first_shape(fs[4]);
    reveal_strlit("%b/%d/%Y %I:%M:%S %p %z");
    lemma_month_first_shape(fs[5]);
    reveal_strlit("%B/%d/%Y %H:%M:%S %p %z");
    lemma_month_first_shape(fs[6]);
    reveal_strlit("%m/%d/%Y %H:%M:%S %p %z");
    lemma_month_first_shape(fs[7]);
    reveal_strlit("%b/%d/%Y %H:%M:%S %p %z");
    lemma_month_first_shape(fs[8]);
    reveal_strlit("%B-%d-%Y %H:%M:%S %z");
    lemma_month_first_shape(fs[9]);
    reveal_strlit("%m-%d-%Y %H:%M:%S %z");
    lemma_month_first_shape(fs[10]);
    reveal_strlit("%b-%d-%Y %H:%M:%S %z");
    lemma_month_first_shape(fs[11]);
    reveal_strlit("%B/%d/%Y %H:%M:%S %z");
    lemma_month_first_shape(fs[12]);
    reveal_strlit("%m/%d/%Y %H:%M:%S %z");
    lemma_month_first_shape(fs[13]);
    reveal_strlit("%b/%d/%Y %H:%M:%S %z");
    lemma_month_first_shape(fs[14]);
    reveal_strlit("%B-%d-%Y %I:%M %p %z");
    lemma_month_first_shape(fs[15]);
    reveal_strlit("%m-%d-%Y %I:%M %p %z");
    lemma_month_first_shape(fs[16]);
    reveal_strlit("%b-%d-%Y %I:%M %p %z");
    lemma_month_first_shape(fs[17]);
    reveal_strlit("%B/%d/%Y %I:%M %p %z");
    lemma_month_first_shape(fs[18]);
    reveal_strlit("%m/%d/%Y %I:%M %p %z");
    lemma_month_first_shape(fs[19]);
    reveal_strlit("%b/%d/%Y %I:%M %p %z");
    lemma_month_first_shape(fs[20]);
    reveal_strlit("%B-%d-%Y %H:%M %z");
    lemma_month_first_shape(fs[21]);
    reveal_strlit("%m-%d-%Y %H:%M %z");
    lemma_month_first_shape(fs[22]);
    reveal_strlit("%b-%d-%Y %H:%M %z");
    lemma_month_first_shape(fs[23]);
    reveal_strlit("%B/%d/%Y %H:%M %z");
    lemma_month_first_shape(fs[24]);
    reveal_strlit("%m/%d/%Y %H:%M %z");
    lemma_month_first_shape(fs[25]);
    reveal_strlit("%b/%d/%Y %H:%M %z");
    lemma_month_first_shape(fs[26]);
    reveal_strlit("%B-%d-%Y %I:%M:%S %p");
    lemma_month_first_shape(fs[27]);
    reveal_strlit("%m-%d-%Y %I:%M:%S %p");
    lemma_month_first_shape(fs[28]);
    reveal_strlit("%b-%d-%Y %I:%M:%S %p");
    lemma_month_first_shape(fs[29]);
    reveal_strlit("%B/%d/%Y %I:%M:%S %p");
    lemma_month_first_shape(fs[30]);
    reveal_strlit("%m/%d/%Y %I:%M:%S %p");
    lemma_month_first_shape(fs[31]);
    reveal_strlit("%b/%d/Y %I:%M:%S %p");
    lemma_month_first_shape(fs[32]);
    reveal_strlit("%B-%d-%Y %H:%M:%S");
    lemma_month_first_shape(fs[33]);
    reveal_strlit("%m-%d-%Y %H:%M:%S");
    lemma_month_first_shape(fs[34]);
    reveal_strlit("%b-%d-%Y %H:%M:%S");
    lemma_month_first_shape(fs[35]);
    reveal_strlit("%B/%d/%Y %H:%M:%S");
    lemma_month_first_shape(fs[36]);
    reveal_strlit("%m/%d/%Y %H:%M:%S");
    lemma_month_first_shape(fs[37]);
    reveal_strlit("%b/%d/%Y %H:%M:%S");
    lemma_month_first_shape(fs[38]);
    reveal_strlit("%B-%d-%Y %I:%M %p");
    lemma_month_first_shape(fs[39]);
    reveal_strlit("%m-%d-%Y %I:%M %p");
    lemma_month_first_shape(fs[40]);
    reveal_strlit("%b-%d-%Y %I:%M %p");
    lemma_month_first_shape(fs[41]);
    reveal_strlit("%B/%d/%Y %I:%M %p");
    lemma_month_first_shape(fs[42]);
    reveal_strlit("%m/%d/%Y %I:%M %p");
    lemma_month_first_shape(fs[43]);
    reveal_strlit("%b/%d/%Y %I:%M %p");
    lemma_month_first_shape(fs[44]);
    reveal_strlit("%B/%d/%Y %H:%M");
    lemma_month_first_shape(fs[45]);
    reveal_strlit("%m/%d/%Y %H:%M");
    lemma_month_first_shape(fs[46]);
    reveal_strlit("%b/%d/%Y %H:%M");
    lemma_month_first_shape(fs[47]);
    reveal_strlit("%B-%d-%Y");
    lemma_month_first_shape(fs[48]);
    reveal_strlit("%m-%d-%Y");
    lemma_month_first_shape(fs[49]);
    reveal_strlit("%b-%d-%Y");
    lemma_month_first_shape(fs[50]);
    reveal_strlit("%B/%d/%Y");
    lemma_month_first_shape(fs[51]);
    reveal_strlit("%m/%d/%Y");
    lemma_month_first_shape(fs[52]);
    reveal_strlit("%b/%d/%Y");
    lemma_month_first_shape(fs[53]);
    assert(fs.len() == 54);
    assert forall|k: int| 0 <= k < fs.len() implies month_before_day(#[trigger] fs[k]) by {
        if k == 0 {}
        if k == 1 {}
        if k == 2 {}
        if k == 3 {}
        if k == 4 {}
        if k == 5 {}
        if k == 6 {}
        if k == 7 {}
        if k == 8 {}
        if k == 9 {}
        if k == 10 {}
        if k == 11 {}
        if k == 12 {}
        if k == 13 {}
        if k == 14 {}
        if k == 15 {}
        if k == 16 {}
        if k == 17 {}
        if k == 18 {}
        if k == 19 {}
        if k == 20 {}
        if k == 21 {}
        if k == 22 {}
        if k == 23 {}
        if k == 24 {}
        if k == 25 {}
        if k == 26 {}
        if k == 27 {}
        if k == 28 {}
        if k == 29 {}
        if k == 30 {}
        if k == 31 {}
        if k == 32 {}
        if k == 33 {}
        if k == 34 {}
        if k == 35 {}
        if k == 36 {}
        if k == 37 {}
        if k == 38 {}
        if k == 39 {}
        if k == 40 {}
        if k == 41 {}
        if k == 42 {}
        if k == 43 {}
        if k == 44 {}
        if k == 45 {}
        if k == 46 {}
        if k == 47 {}
        if k == 48 {}
        if k == 49 {}
        if k == 50 {}
        if k == 51 {}
        if k == 52 {}
        if k == 53 {}
    }
}

/// The formats of general dates (day first).
pub open spec fn general_formats() -> Seq<Seq<char>> {
    seq![
        "%d/%B/%Y %I:%M:%S %p %z"@,
        "%d/%b/%Y %I:%M:%S %p %z"@,
        "%d/%m/%Y %I:%M:%S %p %z"@,
        "%d/%B/%Y %H:%M:%S %z"@,
        "%d/%b/%Y %H:%M:%S %z"@,
        "%d/%m/%Y %H:%M:%S %z"@,
        "%d/%B/%Y %H:%M:%S"@,
        "%d/%b/%Y %H:%M:%S"@,
        "%d/%m/%Y %H:%M:%S"@,
        "%d/%B/%Y %I:%M %p"@,
        "%d/%b/%Y %I:%M %p"@,
        "%d/%m/%Y %I:%M %p"@,
        "%d/%B/%Y %H:%M"@,
        "%d/%b/%Y %H:%M"@,
        "%d/%m/%Y %H:%M"@,
        "%m/%d/%Y %H:%M"@,
        "%d/%B/%Y"@,
        "%d/%b/%Y"@,
        "%d/%m/%Y"@,
    ]
}

/// The formats of day-first dates with `-` or `/`, tried after the general ones.
pub open spec fn global_formats() -> Seq<Seq<char>> {
    seq![
        "%d-%B-%Y %I:%M:%S %p %z"@,
        "%d-%b-%Y %I:%M:%S %p %z"@,
        "%d-%m-%Y %I:%M:%S %p %z"@,
        "%d-%B-%Y %H:%M:%S %z"@,
        "%d-%b-%Y %H:%M:%S %z"@,
        "%d-%m-%Y %H:%M:%S %z"@,
        "%d-%B-%Y %I:%M %p"@,
        "%d-%b-%Y %I:%M %p"@,
        "%d-%m-%Y %I:%M %p"@,
        "%d-%B-%Y %H:%M"@,
        "%d-%b-%Y %H:%M"@,
        "%d-%m-%Y %H:%M"@,
        "%d-%B-%Y"@,
        "%d-%b-%Y"@,
        "%d-%m-%Y"@,
        "%d/%B/%Y %I:%M:%S %p %z"@,
        "%d/%b/%Y %I:%M:%S %p %z"@,
        "%d/%m/%Y %I:%M:%S %p %z"@,
        "%d/%B/%Y %H:%M:%S %z"@,
        "%d/%b/%Y %H:%M:%S %z"@,
        "%d/%m/%Y %H:%M:%S %z"@,
        "%d/%B/%Y %I:%M %p"@,
        "%d/%b/%Y %I:%M %p"@,
        "%d/%m/%Y %I:%M %p"@,
        "%d/%B/%Y %H:%M"@,
        "%d/%b/%Y %H:%M"@,
        "%d/%m/%Y %H:%M"@,
        "%d/%B/%Y"@,
        "%d/%b/%Y"@,
        "%d/%m/%Y"@,
    ]
}

/// The formats of times of day.
pub open spec fn time_formats() -> Seq<Seq<char>> {
    seq![
        "%I:%M:%S.%f %p %z"@,
        "%I:%M:%S %p %z"@,
        "%I:%M:%S.%f %p"@,
        "%I:%M:%S %p"@,
        "%H:%M:%S.%f %p %z"@,
        "%H:%M:%S %p %z"@,
        "%H:%M:%S.%f %p"@,
        "%H:%M:%S %p"@,
        "%H:%M:%S.%f %z"@,
        "%H:%M:%S %z"@,
        "%H:%M:%S.%f"@,
        "%H:%M:%S"@,
        "%I:%M %p %z"@,
        "%I:%M %p"@,
        "%H:%M %p %z"@,
        "%H:%M %p"@,
        "%H:%M %z"@,
        "%H:%M"@,
    ]
}

fn iso_direct_formats_table() -> (r: Vec<&'static str>)
    ensures
        str_views(r@) == iso_direct_formats(),
{
    let r = vec![
        "%Y-%m-%dT%H:%M:%S.%f%z",
        "%Y-%m-%dT%H:%M:%S%z",
        "%Y-%m-%d %H:%M:%S.%f%z",
        "%Y-%m-%d %H:%M:%S%z",
        "%Y-%m-%dT%H:%M:%S.%f",
        "%Y-%m-%dT%H:%M:%S",
        "%Y-%m-%d %H:%M:%S.%f",
        "%Y-%m-%d %H:%M:%S",
        "%Y-%m-%dT%H:%M%z",
        "%Y-%m-%d %H:%M%z",
        "%Y-%m-%dT%H:%M",
        "%Y-%m-%d %H:%M",
        "%Y-%m-%d",
    ];
    proof {
        assert(str_views(r@) =~= iso_direct_formats());
    }
    r
}

fn iso_fraction_formats_table() -> (r: Vec<&'static str>)
    ensures
        str_views(r@) == iso_fraction_formats(),
{
    let r = vec![
        "%Y-%m-%dT%H:%M:%S.%f%z",
        "%Y-%m-%d %H:%M:%S.%f%z",
        "%Y-%m-%dT%H:%M:%S.%f",
        "%Y-%m-%d %H:%M:%S.%f",
    ];
    proof {
        assert(str_views(r@) =~= iso_fraction_formats());
    }
    r
}

fn email_formats_table() -> (r: Vec<&'static str>)
    ensures
        str_views(r@) == email_formats(),
{
    let r = vec![
        "%a, %d %b %Y %H:%M:%S %z",
        "%d %b %Y %H:%M:%S %z",
    ];
    proof {
        assert(str_views(r@) =~= email_formats());
    }
    r
}

fn american_formats_table() -> (r: Vec<&'static str>)
    ensures
        str_views(r@) == american_formats(),
{
    let r = vec![
        "%B-%d-%Y %I:%M:%S %p %z",
        "%m-%d-%Y %I:%M:%S %p %z",
        "%b-%d-%Y %I:%M:%S %p %z",
        "%B/%d/%Y %I:%M:%S %p %z",
        "%m/%d/%Y %I:%M:%S %p %z",
        "%b/%d/%Y %I:%M:%S %p %z",
        "%B/%d/%Y %H:%M:%S %p %z",
        "%m/%d/%Y %H:%M:%S %p %z",
        "%b/%d/%Y %H:%M:%S %p %z",
        "%B-%d-%Y %H:%M:%S %z",
        "%m-%d-%Y %H:%M:%S %z",
        "%b-%d-%Y %H:%M:%S %z",
        "%B/%d/%Y %H:%M:%S %z",
        "%m/%d/%Y %H:%M:%S %z",
        "%b/%d/%Y %H:%M:%S %z",
        "%B-%d-%Y %I:%M %p %z",
        "%m-%d-%Y %I:%M %p %z",
        "%b-%d-%Y %I:%M %p %z",
        "%B/%d/%Y %I:%M %p %z",
        "%m/%d/%Y %I:%M %p %z",
        "%b/%d/%Y %I:%M %p %z",
        "%B-%d-%Y %H:%M %z",
        "%m-%d-%Y %H:%M %z",
        "%b-%d-%Y %H:%M %z",
        "%B/%d/%Y %H:%M %z",
        "%m/%d/%Y %H:%M %z",
        "%b/%d/%Y %H:%M %z",
        "%B-%d-%Y %I:%M:%S %p",
        "%m-%d-%Y %I:%M:%S %p",
        "%b-%d-%Y %I:%M:%S %p",
        "%B/%d/%Y %I:%M:%S %p",
        "%m/%d/%Y %I:%M:%S %p",
        "%b/%d/Y %I:%M:%S %p",
        "%B-%d-%Y %H:%M:%S",
        "%m-%d-%Y %H:%M:%S",
        "%b-%d-%Y %H:%M:%S",
        "%B/%d/%Y %H:%M:%S",
        "%m/%d/%Y %H:%M:%S",
        "%b/%d/%Y %H:%M:%S",
        "%B-%d-%Y %I:%M %p",
        "%m-%d-%Y %I:%M %p",
        "%b-%d-%Y %I:%M %p",
        "%B/%d/%Y %I:%M %p",
        "%m/%d/%Y %I:%M %p",
        "%b/%d/%Y %I:%M %p",
        "%B/%d/%Y %H:%M",
        "%m/%d/%Y %H:%M",
        "%b/%d/%Y %H:%M",
        "%B-%d-%Y",
        "%m-%d-%Y",
        "%b-%d-%Y",
        "%B/%d/%Y",
        "%m/%d/%Y",
        "%b/%d/%Y",
    ];
    proof {
        assert(str_views(r@) =~= american_formats());
    }
    r
}

fn general_formats_table() -> (r: Vec<&'static str>)
    ensures
        str_views(r@) == general_formats(),
{
    let r = vec![
        "%d/%B/%Y %I:%M:%S %p %z",
        "%d/%b/%Y %I:%M:%S %p %z",
        "%d/%m/%Y %I:%M:%S %p %z",
        "%d/%B/%Y %H:%M:%S %z",
        "%d/%b/%Y %H:%M:%S %z",
        "%d/%m/%Y %H:%M:%S %z",
        "%d/%B/%Y %H:%M:%S",
        "%d/%b/%Y %H:%M:%S",
        "%d/%m/%Y %H:%M:%S",
        "%d/%B/%Y %I:%M %p",
        "%d/%b/%Y %I:%M %p",
        "%d/%m/%Y %I:%M %p",
        "%d/%B/%Y %H:%M",
        "%d/%b/%Y %H:%M",
        "%d/%m/%Y %H:%M",
        "%m/%d/%Y %H:%M",
        "%d/%B/%Y",
        "%d/%b/%Y",
        "%d/%m/%Y",
    ];
    proof {
        assert(str_views(r@) =~= general_formats());
    }
    r
}

fn global_formats_table() -> (r: Vec<&'static str>)
    ensures
        str_views(r@) == global_formats(),
{
    let r = vec![
        "%d-%B-%Y %I:%M:%S %p %z",
        "%d-%b-%Y %I:%M:%S %p %z",
        "%d-%m-%Y %I:%M:%S %p %z",
        "%d-%B-%Y %H:%M:%S %z",
        "%d-%b-%Y %H:%M:%S %z",
        "%d-%m-%Y %H:%M:%S %z",
        "%d-%B-%Y %I:%M %p",
        "%d-%b-%Y %I:%M %p",
        "%d-%m-%Y %I:%M %p",
        "%d-%B-%Y %H:%M",
        "%d-%b-%Y %H:%M",
        "%d-%m-%Y %H:%M",
        "%d-%B-%Y",
        "%d-%b-%Y",
        "%d-%m-%Y",
        "%d/%B/%Y %I:%M:%S %p %z",
        "%d/%b/%Y %I:%M:%S %p %z",
        "%d/%m/%Y %I:%M:%S %p %z",
        "%d/%B/%Y %H:%M:%S %z",
        "%d/%b/%Y %H:%M:%S %z",
        "%d/%m/%Y %H:%M:%S %z",
        "%d/%B/%Y %I:%M %p",
        "%d/%b/%Y %I:%M %p",
        "%d/%m/%Y %I:%M %p",
        "%d/%B/%Y %H:%M",
        "%d/%b/%Y %H:%M",
        "%d/%m/%Y %H:%M",
        "%d/%B/%Y",
        "%d/%b/%Y",
        "%d/%m/%Y",
    ];
    proof {
        assert(str_views(r@) =~= global_formats());
    }
    r
}

fn time_formats_table() -> (r: Vec<&'static str>)
    ensures
        str_views(r@) == time_formats(),
{
    let r = vec![
        "%I:%M:%S.%f %p %z",
        "%I:%M:%S %p %z",
        "%I:%M:%S.%f %p",
        "%I:%M:%S %p",
        "%H:%M:%S.%f %p %z",
        "%H:%M:%S %p %z",
        "%H:%M:%S.%f %p",
        "%H:%M:%S %p",
        "%H:%M:%S.%f %z",
        "%H:%M:%S %z",
        "%H:%M:%S.%f",
        "%H:%M:%S",
        "%I:%M %p %z",
        "%I:%M %p",
        "%H:%M %p %z",
        "%H:%M %p",
        "%H:%M %z",
        "%H:%M",
    ];
    proof {
        assert(str_views(r@) =~= time_formats());
    }
    r
}

/// What to keep of a value `strptime` produced.
#[derive(Debug, Clone, Copy)]
pub enum Finish {
    /// The datetime itself.
    Whole,
    /// Its date.
    Date,
    /// Its time of day.
    Time,
    /// Its time of day with its timezone.
    TimeWithZone,
}

/// Which result a plan takes once its attempts have run.
#[derive(Debug, Clone, Copy, PartialEq, Eq, Structural)]
pub enum PlanChoice {
    /// The attempt at this index, the first that succeeded.
    Attempt(usize),
    /// No attempt succeeded: the result of the required reading.
    Required,
    /// Nothing can be read: the format is not supported.
    Unsupported,
}

/// The index of the first `true` among `s[i..]`.
pub open spec fn first_succeeded(s: Seq<bool>, i: int) -> Option<int>
    decreases s.len() - i,
{
    if i < 0 || i >= s.len() {
        None
    } else if s[i] {
        Some(i)
    } else {
        first_succeeded(s, i + 1)
    }
}

/// The result a plan takes: the first attempt that succeeded, else the
/// required reading where there is one.
pub open spec fn plan_choice(succeeded: Seq<bool>, has_required: bool) -> PlanChoice {
    match first_succeeded(succeeded, 0) {
        Some(i) => PlanChoice::Attempt(i as usize),
        None => if has_required {
            PlanChoice::Required
        } else {
            PlanChoice::Unsupported
        },
    }
}

/// Chooses the result of a plan from which of its attempts succeeded
/// (`succeeded[i]` for attempt `i`) and whether it has a required reading.
pub fn choose_result(succeeded: &Vec<bool>, has_required: bool) -> (r: PlanChoice)
    ensures
        r == plan_choice(succeeded@, has_required),
{
    let mut i: usize = 0;
    while i < succeeded.len()
        invariant
            i <= succeeded@.len(),
            first_succeeded(succeeded@, 0) == first_succeeded(succeeded@, i as int),
        decreases succeeded.len() - i,
    {
        if succeeded[i] {
            return PlanChoice::Attempt(i);
        }
        i = i + 1;
    }
    if has_required {
        PlanChoice::Required
    } else {
        PlanChoice::Unsupported
    }
}

/// One `strptime` call to make: read `text` with `format`.
#[derive(Debug)]
pub struct Attempt {
    pub text: String,
    pub format: String,
    pub finish: Finish,
}

pub struct AttemptView {
    pub text: Seq<char>,
    pub format: Seq<char>,
    pub finish: Finish,
}

impl View for Attempt {
    type V = AttemptView;

    open spec fn view(&self) -> AttemptView {
        AttemptView { text: self.text@, format: self.format@, finish: self.finish }
    }
}

/// How to turn datetime text into a value: if `required` is set, it must
/// parse, or there is no value; then the first of `attempts` that parses
/// gives the value (the one of `required` when none does); its year is
/// replaced by the current year when `replace_year` is set; and `finish`
/// says what is kept of it. With nothing that parses, the text stays as
/// it is.
#[derive(Debug)]
pub struct DateTimePlan {
    pub required: Option<Attempt>,
    pub attempts: Vec<Attempt>,
    pub replace_year: bool,
}

pub struct PlanView {
    pub required: Option<AttemptView>,
    pub attempts: Seq<AttemptView>,
    pub replace_year: bool,
}

pub open spec fn attempt_views(s: Seq<Attempt>) -> Seq<AttemptView> {
    s.map_values(|a: Attempt| a@)
}

impl View for DateTimePlan {
    type V = PlanView;

    open spec fn view(&self) -> PlanView {
        PlanView {
            required: match self.required {
                Some(a) => Some(a@),
                None => None,
            },
            attempts: attempt_views(self.attempts@),
            replace_year: self.replace_year,
        }
    }
}

pub open spec fn str_views(s: Seq<&str>) -> Seq<Seq<char>> {
    s.map_values(|f: &str| f@)
}

/// `s` holds `%` followed by `c`.
pub open spec fn has_token(s: Seq<char>, c: char) -> bool {
    exists|i: int| 0 <= i && i + 1 < s.len() && s[i] == '%' && #[trigger] s[i + 1] == c
}

/// For times of day, what is kept depends on whether the format reads a
/// timezone.
pub open spec fn finish_for(format: Seq<char>, by_zone: bool) -> Finish {
    if !by_zone {
        Finish::Whole
    } else if has_token(format, 'z') {
        Finish::TimeWithZone
    } else {
        Finish::Time
    }
}

/// Reading `text` with each of `formats`, in order.
pub open spec fn attempts_of(text: Seq<char>, formats: Seq<Seq<char>>, by_zone: bool) -> Seq<AttemptView> {
    formats.map_values(
        |f: Seq<char>| AttemptView { text, format: f, finish: finish_for(f, by_zone) },
    )
}

pub open spec fn first_success(attempts: Seq<AttemptView>) -> PlanView {
    PlanView { required: None, attempts, replace_year: false }
}

/// A user format reads a date when it holds one of the date directives.
pub open spec fn reads_date(f: Seq<char>) -> bool {
    has_token(f, 'a') || has_token(f, 'A') || has_token(f, 'w') || has_token(f, 'd') || has_token(
        f,
        'b',
    ) || has_token(f, 'B') || has_token(f, 'm') || has_token(f, 'y') || has_token(f, 'Y')
        || has_token(f, 'j') || has_token(f, 'U') || has_token(f, 'W')
}

/// A user format reads a time when it holds one of the time directives.
pub open spec fn reads_time(f: Seq<char>) -> bool {
    has_token(f, 'H') || has_token(f, 'I') || has_token(f, 'p') || has_token(f, 'M') || has_token(
        f,
        'S',
    ) || has_token(f, 'f') || has_token(f, 'z')
}

/// What is kept of a value read with a user format: the date alone, the
/// time alone, or the whole datetime.
pub open spec fn custom_finish(f: Seq<char>) -> Finish {
    if reads_date(f) && reads_time(f) {
        Finish::Whole
    } else if reads_date(f) {
        Finish::Date
    } else if reads_time(f) {
        Finish::Time
    } else {
        Finish::Whole
    }
}

/// ISO 8601 text: the usual layouts, then, when the text has a fraction of
/// a second, the layouts with a fraction on the text with six digits of it.
pub open spec fn iso_attempts(raw: Seq<char>) -> Seq<AttemptView> {
    let n = iso_normalized(raw);
    attempts_of(n, iso_direct_formats(), false) + match fraction_normalized(n) {
        Some(rebuilt) => attempts_of(rebuilt, iso_fraction_formats(), false),
        None => Seq::empty(),
    }
}

/// The plan for text that matched a field whose type is `format`.
pub open spec fn datetime_plan_of(raw: Seq<char>, format: Seq<char>) -> PlanView {
    let n = short_offset_normalized(raw);
    if format == "ti"@ {
        first_success(iso_attempts(raw))
    } else if format == "te"@ {
        first_success(attempts_of(n, email_formats(), false))
    } else if format == "ta"@ {
        first_success(attempts_of(n, american_formats(), false))
    } else if format == "tg"@ {
        first_success(attempts_of(n, general_formats() + global_formats(), false))
    } else if format == "th"@ {
        first_success(attempts_of(n, seq!["%d/%b/%Y:%H:%M:%S %z"@], false))
    } else if format == "tc"@ {
        first_success(attempts_of(raw, seq!["%a %b %d %H:%M:%S %Y"@], false))
    } else if format == "ts"@ {
        PlanView {
            required: None,
            attempts: attempts_of(raw, seq!["%b %d %H:%M:%S"@], false),
            replace_year: true,
        }
    } else if format == "tt"@ {
        first_success(attempts_of(n, time_formats(), true))
    } else if format.contains('%') {
        let fin = custom_finish(format);
        PlanView {
            required: Some(AttemptView { text: raw, format, finish: fin }),
            attempts: if n != raw {
                seq![AttemptView { text: n, format, finish: fin }]
            } else {
                Seq::empty()
            },
            replace_year: !(has_token(format, 'Y') || has_token(format, 'y')),
        }
    } else {
        first_success(Seq::empty())
    }
}

/// Whether the plan for this text can be made: for ISO 8601 text, its
/// fraction must be cut after six bytes without splitting a character.
pub open spec fn plan_computable(raw: Seq<char>, format: Seq<char>) -> bool {
    format == "ti"@ ==> fraction_cuttable(iso_normalized(raw))
}

/// Whether `cs` holds `%` followed by `c`.
fn has_token_in(cs: &Vec<char>, c: char) -> (r: bool)
    ensures
        r == has_token(cs@, c),
{
    let n = cs.len();
    if n < 2 {
        return false;
    }
    let mut i: usize = 0;
    while i < n - 1
        invariant
            n == cs@.len(),
            n >= 2,
            i <= n - 1,
            forall|j: int| 0 <= j < i && j + 1 < cs@.len() ==> !(cs@[j] == '%' && #[trigger] cs@[j + 1] == c),
        decreases n - i,
    {
        if cs[i] == '%' && cs[i + 1] == c {
            return true;
        }
        i = i + 1;
    }
    proof {
        if has_token(cs@, c) {
            let j = choose|j: int| 0 <= j && j + 1 < cs@.len() && cs@[j] == '%' && #[trigger] cs@[j + 1] == c;
            assert(!(cs@[j] == '%' && cs@[j + 1] == c));
        }
    }
    false
}

/// Appends the attempts to read `text` with each of `formats`.
fn push_attempts(out: &mut Vec<Attempt>, text: &str, formats: &Vec<&'static str>, by_zone: bool)
    ensures
        attempt_views(final(out)@) == attempt_views(old(out)@) + attempts_of(
            text@,
            str_views(formats@),
            by_zone,
        ),
{
    let ghost fs = str_views(formats@);
    let ghost start = attempt_views(out@);
    let mut i: usize = 0;
    proof {
        assert(attempts_of(text@, fs.take(0), by_zone) =~= Seq::<AttemptView>::empty());
        assert(start + Seq::<AttemptView>::empty() =~= start);
    }
    while i < formats.len()
        invariant
            i <= formats@.len(),
            fs == str_views(formats@),
            attempt_views(out@) == start + attempts_of(text@, fs.take(i as int), by_zone),
        decreases formats.len() - i,
    {
        let f = formats[i];
        let finish = if by_zone {
            if has_token_in(&chars_of(f), 'z') {
                Finish::TimeWithZone
            } else {
                Finish::Time
            }
        } else {
            Finish::Whole
        };
        let ghost before = out@;
        out.push(Attempt { text: string_of(text), format: string_of(f), finish });
        proof {
            assert(fs[i as int] == f@);
            assert(attempts_of(text@, fs.take(i + 1), by_zone) =~= attempts_of(
                text@,
                fs.take(i as int),
                by_zone,
            ).push(AttemptView { text: text@, format: f@, finish: finish_for(f@, by_zone) }));
            assert(attempt_views(out@) =~= attempt_views(before).push(
                AttemptView { text: text@, format: f@, finish },
            ));
        }
        i = i + 1;
    }
    proof {
        assert(fs.take(i as int) =~= fs);
    }
}

/// Whether the plan for this text can be made (see `plan_computable`).
pub fn plan_is_computable(raw: &str, format: &str) -> (r: bool)
    ensures
        r == plan_computable(raw@, format@),
{
    if !crate::text::str_equal(format, "ti") {
        return true;
    }
    let n = normalize_iso(raw);
    fraction_is_cuttable(n.as_str())
}

/// Whether the fraction of `raw` can be cut after six bytes (see
/// `fraction_cuttable`).
pub fn fraction_is_cuttable(raw: &str) -> (r: bool)
    ensures
        r == fraction_cuttable(raw@),
{
    let cs = chars_of(raw);
    let d = match find_char(&cs, '.') {
        None => {
            return true;
        },
        Some(d) => d,
    };
    proof {
        lemma_first_index(cs@, '.');
    }
    let e = fraction_end(&cs, d + 1);
    let fraction = string_of_range(&cs, d + 1, e);
    if str_byte_len(fraction.as_str()) <= 6 {
        return true;
    }
    offset_is_boundary(fraction.as_str(), 6)
}

/// Whether byte offset `b` of `s` lies between two characters.
fn offset_is_boundary(s: &str, b: usize) -> (r: bool)
    ensures
        r == is_char_offset(s@, b as int),
{
    let cs = chars_of(s);
    let mut k: usize = 0;
    let mut off: usize = 0;
    while k < cs.len() && off < b
        invariant
            cs@ == s@,
            k <= cs@.len(),
            off == crate::text::byte_offset(s@, k as int),
            byte_len(s@) <= isize::MAX,
            forall|j: int| 0 <= j < k ==> crate::text::byte_offset(s@, j) < b,
        decreases cs.len() - k,
    {
        proof {
            crate::text::lemma_byte_offset_step(s@, k as int);
            crate::text::lemma_byte_offset_mono(s@, k + 1, s@.len() as int);
            crate::text::lemma_byte_offset_full(s@);
        }
        off = off + char_width_of(cs[k]);
        k = k + 1;
    }
    proof {
        if off == b {
            assert(0 <= k <= s@.len() && crate::text::byte_offset(s@, k as int) == b);
        } else if is_char_offset(s@, b as int) {
            let j = choose|j: int| 0 <= j <= s@.len() && crate::text::byte_offset(s@, j) == b;
            if j < k {
            } else if j > k {
                crate::text::lemma_byte_offset_mono(s@, k as int, j);
                if k < cs@.len() {
                } else {
                }
            }
        }
    }
    off == b
}


/// Makes the plan that turns text matched by a field of datetime type
/// `format` into a value (see `datetime_plan_of`).
pub fn datetime_plan(raw: &str, format: &str) -> (r: DateTimePlan)
    requires
        plan_computable(raw@, format@),
    ensures
        r@ == datetime_plan_of(raw@, format@),
{
    let mut attempts: Vec<Attempt> = Vec::new();
    proof {
        assert(attempt_views(attempts@) =~= Seq::<AttemptView>::empty());
    }
    if str_equal(format, "ti") {
        let n = normalize_iso(raw);
        push_attempts(&mut attempts, n.as_str(), &iso_direct_formats_table(), false);
        match normalize_fractional_seconds(n.as_str()) {
            Some(rebuilt) => {
                push_attempts(&mut attempts, rebuilt.as_str(), &iso_fraction_formats_table(), false);
            },
            None => {},
        }
        proof {
            assert(attempt_views(attempts@) =~= iso_attempts(raw@));
        }
        return DateTimePlan { required: None, attempts, replace_year: false };
    }
    let n = normalize_short_tz_offset(raw);
    let ghost empty = Seq::<AttemptView>::empty();
    if str_equal(format, "te") {
        push_attempts(&mut attempts, n.as_str(), &email_formats_table(), false);
    } else if str_equal(format, "ta") {
        push_attempts(&mut attempts, n.as_str(), &american_formats_table(), false);
    } else if str_equal(format, "tg") {
        push_attempts(&mut attempts, n.as_str(), &general_formats_table(), false);
        push_attempts(&mut attempts, n.as_str(), &global_formats_table(), false);
        proof {
            assert(empty + attempts_of(n@, general_formats(), false) + attempts_of(n@, global_formats(), false)
                =~= empty + attempts_of(n@, general_formats() + global_formats(), false));
        }
    } else if str_equal(format, "th") {
        let formats = vec!["%d/%b/%Y:%H:%M:%S %z"];
        proof {
            assert(str_views(formats@) =~= seq!["%d/%b/%Y:%H:%M:%S %z"@]);
        }
        push_attempts(&mut attempts, n.as_str(), &formats, false);
    } else if str_equal(format, "tc") {
        let formats = vec!["%a %b %d %H:%M:%S %Y"];
        proof {
            assert(str_views(formats@) =~= seq!["%a %b %d %H:%M:%S %Y"@]);
        }
        push_attempts(&mut attempts, raw, &formats, false);
    } else if str_equal(format, "ts") {
        let formats = vec!["%b %d %H:%M:%S"];
        proof {
            assert(str_views(formats@) =~= seq!["%b %d %H:%M:%S"@]);
        }
        push_attempts(&mut attempts, raw, &formats, false);
        proof {
            assert(attempt_views(attempts@) =~= attempts_of(raw@, seq!["%b %d %H:%M:%S"@], false));
        }
        return DateTimePlan { required: None, attempts, replace_year: true };
    } else if str_equal(format, "tt") {
        push_attempts(&mut attempts, n.as_str(), &time_formats_table(), true);
    } else if crate::compiler::contains_char(format, '%') {
        let fcs = chars_of(format);
        let finish = custom_finish_of(&fcs);
        let ghost fin = finish;
        if !str_equal(n.as_str(), raw) {
            let ghost nv = n@;
            attempts.push(Attempt { text: n, format: string_of(format), finish });
            proof {
                assert(attempt_views(attempts@) =~= seq![AttemptView { text: nv, format: format@, finish: fin }]);
            }
        }
        let has_year = has_token_in(&fcs, 'Y') || has_token_in(&fcs, 'y');
        return DateTimePlan {
            required: Some(Attempt { text: string_of(raw), format: string_of(format), finish }),
            attempts,
            replace_year: !has_year,
        };
    }
    proof {
        let v = attempt_views(attempts@);
        assert(v =~= v.subrange(0, v.len() as int));
        assert(empty + v.skip(0) =~= v);
    }
    DateTimePlan { required: None, attempts, replace_year: false }
}

/// What is kept of a value read with the user format `fcs` (see
/// `custom_finish`).
fn custom_finish_of(fcs: &Vec<char>) -> (r: Finish)
    ensures
        r == custom_finish(fcs@),
{
    let date = has_token_in(fcs, 'a') || has_token_in(fcs, 'A') || has_token_in(fcs, 'w')
        || has_token_in(fcs, 'd') || has_token_in(fcs, 'b') || has_token_in(fcs, 'B')
        || has_token_in(fcs, 'm') || has_token_in(fcs, 'y') || has_token_in(fcs, 'Y')
        || has_token_in(fcs, 'j') || has_token_in(fcs, 'U') || has_token_in(fcs, 'W');
    let time = has_token_in(fcs, 'H') || has_token_in(fcs, 'I') || has_token_in(fcs, 'p')
        || has_token_in(fcs, 'M') || has_token_in(fcs, 'S') || has_token_in(fcs, 'f')
        || has_token_in(fcs, 'z');
    if date && time {
        Finish::Whole
    } else if date {
        Finish::Date
    } else if time {
        Finish::Time
    } else {
        Finish::Whole
    }
}


/// A sequence of one byte is one ASCII character.
proof fn lemma_one_byte(s: Seq<char>)
    requires
        byte_len(s) == 1,
    ensures
        s.len() == 1,
{
    crate::text::lemma_len_le_byte_len(s);
    if s.len() == 0 {
        assert(byte_len(s) == 0);
    }
    assert(s.drop_last().len() == 0 || s.len() == 1) by {
        if s.len() > 1 {
            crate::text::lemma_len_le_byte_len(s.drop_last());
        }
    }
}

/// What normalizing did to an offset written with a colon.
proof fn lemma_colon_offset_shape(raw: Seq<char>, p: int, c: int)
    requires
        0 <= p < raw.len(),
        forall|j: int| p < j < raw.len() ==> !is_sign(#[trigger] raw[j]),
        first_index(raw.skip(p + 1), ':') == Some(c),
        offset_with_colon(raw, p, c) != raw,
    ensures
        c == 1,
        p + 3 <= raw.len(),
        raw[p + 1] != ':',
        !is_sign(raw[p + 1]),
        offset_with_colon(raw, p, c) == raw.take(p) + seq![raw[p], '0', raw[p + 1], ':'] + raw.skip(p + 3),
{
    let suffix = raw.skip(p + 1);
    let hours = suffix.take(c);
    lemma_first_index(suffix, ':');
    lemma_one_byte(hours);
    assert(suffix[0] == raw[p + 1]);
    assert(hours =~= seq![raw[p + 1]]);
    assert(suffix.skip(2) =~= raw.skip(p + 3));
}

proof fn lemma_colon_offset_stable(raw: Seq<char>, p: int, c: int)
    requires
        0 <= p < raw.len(),
        is_sign(raw[p]),
        forall|j: int| p < j < raw.len() ==> !is_sign(#[trigger] raw[j]),
        first_index(raw.skip(p + 1), ':') == Some(c),
        offset_with_colon(raw, p, c) != raw,
    ensures
        short_offset_normalized(offset_with_colon(raw, p, c)) == offset_with_colon(raw, p, c),
{
    lemma_colon_offset_shape(raw, p, c);
    let h = raw[p + 1];
    let rest = raw.skip(p + 3);
    let r1 = raw.take(p) + seq![raw[p], '0', h, ':'] + rest;
    stable_after_colon(raw.take(p), raw[p], h, rest);
}

/// Text whose offset already has a two-character hour stays as it is.
#[verifier::spinoff_prover]
proof fn stable_after_colon(prefix: Seq<char>, sign: char, h: char, rest: Seq<char>)
    requires
        is_sign(sign),
        !is_sign(h),
        h != ':',
        forall|j: int| 0 <= j < rest.len() ==> !is_sign(#[trigger] rest[j]),
    ensures
        ({
            let r1 = prefix + seq![sign, '0', h, ':'] + rest;
            short_offset_normalized(r1) == r1
        }),
{
    let r1 = prefix + seq![sign, '0', h, ':'] + rest;
    let p = prefix.len() as int;
    assert forall|j: int| p < j < r1.len() implies !is_sign(#[trigger] r1[j]) by {
        if j >= p + 4 {
            assert(r1[j] == rest[j - p - 4]);
        }
    }
    lemma_last_sign_at(r1, p);
    let t = r1.skip(p + 1);
    assert(t =~= seq!['0', h, ':'] + rest);
    crate::text::lemma_first_index_at(t, ':', 2);
    assert(byte_len(t.take(2)) >= 2) by {
        let two = t.take(2);
        assert(two.drop_last() =~= seq!['0']);
        assert(seq!['0'].drop_last() =~= Seq::<char>::empty());
        assert(byte_len(Seq::<char>::empty()) == 0);
        assert(crate::text::char_width('0') == 1);
        assert(byte_len(seq!['0']) == 1);
    }
    assert(offset_with_colon(r1, p, 2) == r1);
}

proof fn lemma_plain_offset_stable(raw: Seq<char>, p: int)
    requires
        0 <= p < raw.len(),
        is_sign(raw[p]),
        forall|j: int| p < j < raw.len() ==> !is_sign(#[trigger] raw[j]),
        first_index(raw.skip(p + 1), ':') is None,
        offset_without_colon(raw, p) != raw,
    ensures
        short_offset_normalized(offset_without_colon(raw, p)) == offset_without_colon(raw, p),
{
    let suffix = raw.skip(p + 1);
    let r1 = offset_without_colon(raw, p);
    let t = r1.skip(p + 1);
    lemma_first_index(suffix, ':');
    assert(r1 =~= raw.take(p) + seq![raw[p], '0'] + suffix);
    assert(t =~= seq!['0'] + suffix);
    assert forall|j: int| p < j < r1.len() implies !is_sign(#[trigger] r1[j]) by {
        if j >= p + 2 {
            assert(r1[j] == raw[j - 1]);
        }
    }
    lemma_last_sign_at(r1, p);
    assert forall|j: int| 0 <= j < t.len() implies t[j] != ':' by {
        if j > 0 {
            assert(t[j] == suffix[j - 1]);
        }
    }
    lemma_first_index(t, ':');
    if first_index(t, ':') is Some {
        let k = first_index(t, ':')->0;
        assert(t[k] != ':');
    }
}

/// Once the hour of the offset has two digits, normalizing again changes
/// nothing: `normalize_short_tz_offset` is idempotent.
pub proof fn law_short_offset_idempotent(raw: Seq<char>)
    ensures
        short_offset_normalized(short_offset_normalized(raw)) == short_offset_normalized(raw),
{
    lemma_last_sign(raw);
    match last_sign(raw) {
        None => {},
        Some(p) => match first_index(raw.skip(p + 1), ':') {
            Some(c) => if offset_with_colon(raw, p, c) != raw {
                lemma_colon_offset_stable(raw, p, c);
            },
            None => if offset_without_colon(raw, p) != raw {
                lemma_plain_offset_stable(raw, p);
            },
        },
    }
}


/// ASCII text takes one byte per character.
proof fn lemma_ascii_bytes(s: Seq<char>)
    requires
        forall|i: int| 0 <= i < s.len() ==> (#[trigger] s[i] as u32) < 0x80,
    ensures
        byte_len(s) == s.len(),
    decreases s.len(),
{
    if s.len() > 0 {
        lemma_ascii_bytes(s.drop_last());
    }
}

/// The fraction of the seconds is written with exactly six characters
/// when it is ASCII (as the digits a datetime field matches are).
pub proof fn law_six_fraction_digits(raw: Seq<char>)
    requires
        first_index(raw, '.') is Some,
        ({
            let f = fraction_and_tz(raw.skip(first_index(raw, '.')->0 + 1)).0;
            forall|i: int| 0 <= i < f.len() ==> (#[trigger] f[i] as u32) < 0x80
        }),
    ensures
        padded_six(first_six_bytes(fraction_and_tz(raw.skip(first_index(raw, '.')->0 + 1)).0)).len()
            == 6,
{
    let f = fraction_and_tz(raw.skip(first_index(raw, '.')->0 + 1)).0;
    lemma_ascii_bytes(f);
    if f.len() > 6 {
        let six = f.take(6);
        assert forall|i: int| 0 <= i < six.len() implies (#[trigger] six[i] as u32) < 0x80 by {
            assert(six[i] == f[i]);
        }
        lemma_ascii_bytes(six);
        crate::text::lemma_char_index_at(f, 6);
    }
}

} // verus!
