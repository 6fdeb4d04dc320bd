//! Character-level helpers and the UTF-8 byte model used to relate the
//! regex engine's byte offsets to character positions.

use vstd::prelude::*;
use vstd::string::StrSliceExecFns;

verus! {

/// Number of bytes in the UTF-8 encoding of `c`.
pub open spec fn char_width(c: char) -> nat {
    let v = c as u32;
    if v < 0x80 {
        1
    } else if v < 0x800 {
        2
    } else if v < 0x10000 {
        3
    } else {
        4
    }
}

/// Number of bytes in the UTF-8 encoding of `s`.
pub open spec fn byte_len(s: Seq<char>) -> nat
    decreases s.len(),
{
    if s.len() == 0 {
        0
    } else {
        byte_len(s.drop_last()) + char_width(s.last())
    }
}

/// Byte offset at which the character with index `k` starts.
pub open spec fn byte_offset(s: Seq<char>, k: int) -> nat {
    byte_len(s.take(k))
}

/// `b` is the byte offset of a character boundary of `s`.
pub open spec fn is_char_offset(s: Seq<char>, b: int) -> bool {
    exists|k: int| 0 <= k <= s.len() && byte_offset(s, k) == b
}

/// The character index whose boundary lies at byte offset `b`.
pub open spec fn char_index_at(s: Seq<char>, b: int) -> int {
    choose|k: int| 0 <= k <= s.len() && byte_offset(s, k) == b
}

pub proof fn lemma_len_le_byte_len(s: Seq<char>)
    ensures
        s.len() <= byte_len(s),
    decreases s.len(),
{
    if s.len() > 0 {
        lemma_len_le_byte_len(s.drop_last());
    }
}

pub proof fn lemma_byte_offset_step(s: Seq<char>, k: int)
    requires
        0 <= k < s.len(),
    ensures
        byte_offset(s, k + 1) == byte_offset(s, k) + char_width(s[k]),
{
    assert(s.take(k + 1).drop_last() =~= s.take(k));
}

pub proof fn lemma_byte_offset_full(s: Seq<char>)
    ensures
        byte_offset(s, s.len() as int) == byte_len(s),
{
    assert(s.take(s.len() as int) =~= s);
}

pub proof fn lemma_byte_offset_mono(s: Seq<char>, j: int, k: int)
    requires
        0 <= j <= k <= s.len(),
    ensures
        byte_offset(s, j) <= byte_offset(s, k),
        j < k ==> byte_offset(s, j) < byte_offset(s, k),
    decreases k - j,
{
    if j < k {
        lemma_byte_offset_mono(s, j, k - 1);
        lemma_byte_offset_step(s, k - 1);
    }
}

/// Character boundaries are found at a unique character index.
pub proof fn lemma_char_index_at(s: Seq<char>, k: int)
    requires
        0 <= k <= s.len(),
    ensures
        is_char_offset(s, byte_offset(s, k) as int),
        char_index_at(s, byte_offset(s, k) as int) == k,
{
    let b = byte_offset(s, k) as int;
    assert(0 <= k <= s.len() && byte_offset(s, k) == b);
    let j = char_index_at(s, b);
    if j < k {
        lemma_byte_offset_mono(s, j, k);
    } else if j > k {
        lemma_byte_offset_mono(s, k, j);
    }
}

/// Byte length of a concatenation.
pub proof fn lemma_byte_len_concat(s: Seq<char>, t: Seq<char>)
    ensures
        byte_len(s + t) == byte_len(s) + byte_len(t),
    decreases t.len(),
{
    if t.len() == 0 {
        assert(s + t =~= s);
    } else {
        assert((s + t).drop_last() =~= s + t.drop_last());
        lemma_byte_len_concat(s, t.drop_last());
    }
}

pub fn char_width_of(c: char) -> (w: usize)
    ensures
        w == char_width(c),
        1 <= w <= 4,
{
    let v = c as u32;
    if v < 0x80 {
        1
    } else if v < 0x800 {
        2
    } else if v < 0x10000 {
        3
    } else {
        4
    }
}

/// `str::chars`, collected: the characters of `s` in order.
#[verifier::external_body]
pub fn chars_of(s: &str) -> (v: Vec<char>)
    ensures
        v@ == s@,
        byte_len(v@) <= isize::MAX,
{
    s.chars().collect()
}

/// `str::len`: the length of `s` in bytes, which is the size of its UTF-8
/// encoding.
#[verifier::external_body]
pub fn str_byte_len(s: &str) -> (n: usize)
    ensures
        n == byte_len(s@),
{
    s.len()
}

/// The number of characters of a string fits in `usize`: it is at most
/// the string's length in bytes.
pub fn char_count_fits(s: &str)
    ensures
        s@.len() <= usize::MAX,
{
    let _ = str_byte_len(s);
    proof {
        lemma_len_le_byte_len(s@);
    }
}

/// `String::push`: appends one character.
#[verifier::external_body]
pub fn push_char(s: &mut String, c: char)
    ensures
        final(s)@ == old(s)@.push(c),
{
    s.push(c)
}

/// `String::from` over a string slice.
pub fn string_of(s: &str) -> (r: String)
    ensures
        r@ == s@,
{
    s.to_owned()
}

/// Appends `t` to `s`.
pub fn push_str(s: &mut String, t: &str)
    ensures
        final(s)@ == old(s)@ + t@,
{
    let mut i: usize = 0;
    let cs = chars_of(t);
    while i < cs.len()
        invariant
            i <= cs.len(),
            cs@ == t@,
            s@ == old(s)@ + t@.take(i as int),
        decreases cs.len() - i,
    {
        push_char(s, cs[i]);
        assert(t@.take(i + 1) =~= t@.take(i as int).push(cs@[i as int]));
        i = i + 1;
    }
    assert(t@.take(i as int) =~= t@);
}

/// A copy of the characters `v[from..to]` as a string.
pub fn string_of_range(v: &Vec<char>, from: usize, to: usize) -> (s: String)
    requires
        from <= to <= v.len(),
    ensures
        s@ == v@.subrange(from as int, to as int),
{
    let mut s = String::new();
    let mut i = from;
    while i < to
        invariant
            from <= i <= to <= v.len(),
            s@ == v@.subrange(from as int, i as int),
        decreases to - i,
    {
        push_char(&mut s, v[i]);
        assert(v@.subrange(from as int, i + 1) =~= v@.subrange(from as int, i as int).push(
            v@[i as int],
        ));
        i = i + 1;
    }
    s
}

/// Whether two character sequences are equal.
pub fn chars_equal(a: &[char], b: &[char]) -> (r: bool)
    ensures
        r == (a@ == b@),
{
    if a.len() != b.len() {
        return false;
    }
    let mut i: usize = 0;
    while i < a.len()
        invariant
            i <= a.len() == b.len(),
            forall|j: int| 0 <= j < i ==> a@[j] == b@[j],
        decreases a.len() - i,
    {
        if a[i] != b[i] {
            return false;
        }
        i = i + 1;
    }
    assert(a@ =~= b@);
    true
}

/// Whether two strings hold the same characters.
pub fn str_equal(a: &str, b: &str) -> (r: bool)
    ensures
        r == (a@ == b@),
{
    let ca = chars_of(a);
    let cb = chars_of(b);
    chars_equal(ca.as_slice(), cb.as_slice())
}

/// Converts a byte offset in `input` into the index of the character that
/// starts there.
pub fn byte_to_char_index(input: &str, byte_index: usize) -> (k: usize)
    requires
        is_char_offset(input@, byte_index as int),
    ensures
        k <= input@.len(),
        byte_offset(input@, k as int) == byte_index,
        k == char_index_at(input@, byte_index as int),
{
    let cs = chars_of(input);
    let ghost s = input@;
    let ghost target = char_index_at(s, byte_index as int);
    proof {
        lemma_char_index_at(s, target);
    }
    let mut k: usize = 0;
    let mut b: usize = 0;
    while b < byte_index
        invariant
            cs@ == s,
            0 <= target <= s.len(),
            byte_offset(s, target) == byte_index,
            k <= target,
            b == byte_offset(s, k as int),
        decreases target - k,
    {
        proof {
            if k >= target {
                lemma_byte_offset_mono(s, target, k as int);
            }
        }
        proof {
            lemma_byte_offset_step(s, k as int);
            lemma_byte_offset_mono(s, k + 1, target);
        }
        b = b + char_width_of(cs[k]);
        k = k + 1;
    }
    proof {
        if k < target {
            lemma_byte_offset_mono(s, k as int, target);
        }
    }
    k
}

/// Byte offset of character index `k` of `input`.
pub fn char_to_byte_index(input: &str, k: usize) -> (b: usize)
    requires
        k <= input@.len(),
    ensures
        b == byte_offset(input@, k as int),
{
    let cs = chars_of(input);
    let total = str_byte_len(input);
    let ghost s = input@;
    let mut i: usize = 0;
    let mut b: usize = 0;
    while i < k
        invariant
            cs@ == s,
            k <= s.len(),
            i <= k,
            b == byte_offset(s, i as int),
            total == byte_len(s),
        decreases k - i,
    {
        proof {
            lemma_byte_offset_step(s, i as int);
            lemma_byte_offset_mono(s, i + 1, s.len() as int);
            lemma_byte_offset_full(s);
        }
        b = b + char_width_of(cs[i]);
        i = i + 1;
    }
    b
}

/// The part of `input` between character positions `pos` and `endpos`
/// (the end of the input when `endpos` is absent or beyond it), with the
/// byte offset at which it starts; `None` when `pos` lies beyond that end.
pub open spec fn char_range_end(n: nat, endpos: Option<usize>) -> nat {
    match endpos {
        Some(e) => if (e as nat) < n {
            e as nat
        } else {
            n
        },
        None => n,
    }
}

pub fn slice_for_char_range(input: &str, pos: usize, endpos: Option<usize>) -> (r: Option<
    (&str, usize),
>)
    ensures
        ({
            let n = input@.len();
            let e = char_range_end(n, endpos);
            match r {
                Some((sub, off)) => {
                    &&& pos <= e
                    &&& sub@ == input@.subrange(pos as int, e as int)
                    &&& off == byte_offset(input@, pos as int)
                },
                None => pos > e,
            }
        }),
{
    let n = input.unicode_len();
    let e: usize = match endpos {
        Some(e) => if e < n {
            e
        } else {
            n
        },
        None => n,
    };
    if pos > e {
        return None;
    }
    let start = char_to_byte_index(input, pos);
    Some((input.substring_char(pos, e), start))
}

} // verus!

verus! {

/// Whether `char::is_alphabetic` holds of `c` (the Unicode `Alphabetic`
/// property).
pub uninterp spec fn alphabetic(c: char) -> bool;

/// `char::is_alphabetic`. Among ASCII characters exactly the letters are
/// alphabetic.
#[verifier::external_body]
pub fn char_is_alphabetic(c: char) -> (r: bool)
    ensures
        r == alphabetic(c),
        (c as u32) < 128 ==> (r <==> ('a' <= c <= 'z' || 'A' <= c <= 'Z')),
{
    c.is_alphabetic()
}

/// Index of the first occurrence of `c` in `s`.
pub open spec fn first_index(s: Seq<char>, c: char) -> Option<int> {
    if s.contains(c) {
        Some(choose|i: int| 0 <= i < s.len() && s[i] == c && forall|j: int| 0 <= j < i ==> s[j] != c)
    } else {
        None
    }
}

/// Where some element satisfies `p`, there is a first one that does.
pub proof fn lemma_first_satisfying<A>(s: Seq<A>, p: spec_fn(A) -> bool, w: int)
    requires
        0 <= w < s.len(),
        p(s[w]),
    ensures
        exists|i: int|
            0 <= i < s.len() && p(#[trigger] s[i]) && forall|j: int| 0 <= j < i ==> !p(#[trigger] s[j]),
    decreases w,
{
    if exists|j: int| 0 <= j < w && p(#[trigger] s[j]) {
        let j = choose|j: int| 0 <= j < w && p(#[trigger] s[j]);
        lemma_first_satisfying(s, p, j);
    } else {
        assert(0 <= w < s.len() && p(s[w]) && forall|j: int| 0 <= j < w ==> !p(#[trigger] s[j]));
    }
}

pub proof fn lemma_first_index(s: Seq<char>, c: char)
    ensures
        match first_index(s, c) {
            Some(i) => 0 <= i < s.len() && s[i] == c && forall|j: int| 0 <= j < i ==> s[j] != c,
            None => forall|j: int| 0 <= j < s.len() ==> s[j] != c,
        },
{
    if s.contains(c) {
        let w = choose|w: int| 0 <= w < s.len() && s[w] == c;
        let p = |x: char| x == c;
        lemma_first_satisfying(s, p, w);
        let i = choose|i: int| 0 <= i < s.len() && p(#[trigger] s[i]) && forall|j: int| 0 <= j < i ==> !p(#[trigger] s[j]);
        assert(forall|j: int| 0 <= j < i ==> s[j] != c) by {
            assert(forall|j: int| 0 <= j < i ==> !p(#[trigger] s[j]));
        }
    }
}

pub proof fn lemma_first_index_at(s: Seq<char>, c: char, i: int)
    requires
        0 <= i < s.len(),
        s[i] == c,
        forall|j: int| 0 <= j < i ==> s[j] != c,
    ensures
        first_index(s, c) == Some(i),
{
    lemma_first_index(s, c);
    let k = first_index(s, c)->0;
    if k < i {
        assert(s[k] != c);
    } else if k > i {
        assert(s[i] != c);
    }
}

/// Position of the first `c` among `v`.
pub fn find_char(v: &Vec<char>, c: char) -> (r: Option<usize>)
    ensures
        match r {
            Some(i) => first_index(v@, c) == Some(i as int),
            None => first_index(v@, c) is None,
        },
{
    let mut i: usize = 0;
    while i < v.len()
        invariant
            i <= v.len(),
            forall|j: int| 0 <= j < i ==> v@[j] != c,
        decreases v.len() - i,
    {
        if v[i] == c {
            proof {
                lemma_first_index_at(v@, c, i as int);
            }
            return Some(i);
        }
        i = i + 1;
    }
    proof {
        lemma_first_index(v@, c);
        if first_index(v@, c) is Some {
            let k = first_index(v@, c)->0;
            assert(v@[k] != c);
        }
    }
    None
}

/// Index of the first `c` in `v` at or after `from`.
pub fn find_char_from(v: &Vec<char>, from: usize, c: char) -> (r: Option<usize>)
    requires
        from <= v@.len(),
    ensures
        match r {
            Some(i) => from <= i < v@.len() && first_index(v@.skip(from as int), c) == Some(
                (i - from) as int,
            ),
            None => first_index(v@.skip(from as int), c) is None,
        },
{
    let ghost s = v@.skip(from as int);
    let mut i = from;
    while i < v.len()
        invariant
            from <= i <= v@.len(),
            s == v@.skip(from as int),
            forall|j: int| 0 <= j < i - from ==> s[j] != c,
        decreases v.len() - i,
    {
        if v[i] == c {
            proof {
                lemma_first_index_at(s, c, i - from);
            }
            return Some(i);
        }
        i = i + 1;
    }
    proof {
        lemma_first_index(s, c);
        if first_index(s, c) is Some {
            let k = first_index(s, c)->0;
            assert(s[k] != c);
        }
    }
    None
}

} // verus!
