//! The bridge to the `regex` crate.
//!
//! A `CompiledRegex` is only ever built by `CompiledRegex::compile`, which
//! keeps the pattern text next to the regex compiled from it; every
//! statement below about what a match returns is about the regex compiled
//! from that kept text.

use crate::text::is_char_offset;
use vstd::prelude::*;

verus! {

#[verifier::external_type_specification]
#[verifier::external_body]
pub struct ExRegex(regex::Regex);

#[verifier::external_type_specification]
#[verifier::external_body]
pub struct ExRegexError(regex::Error);

/// Whether `regex::Regex::new` accepts `pattern` (its syntax is valid and the
/// compiled program fits the default size limit).
pub uninterp spec fn regex_accepts(pattern: Seq<char>) -> bool;

/// The byte spans of all capture groups (group 0 first) of the leftmost-first
/// match of `pattern` in `haystack`, as `regex::Regex::captures` reports them;
/// `None` when there is no match.
pub uninterp spec fn regex_captures(pattern: Seq<char>, haystack: Seq<char>) -> Option<
    Seq<Option<(usize, usize)>>,
>;

/// The capture groups of the successive non-overlapping matches of `pattern`
/// in `haystack`, as `regex::Regex::captures_iter` yields them.
pub uninterp spec fn regex_captures_all(pattern: Seq<char>, haystack: Seq<char>) -> Seq<
    Seq<Option<(usize, usize)>>,
>;

/// The names of the capture groups of `pattern`, by group index, as
/// `regex::Regex::capture_names` yields them.
pub uninterp spec fn regex_capture_names(pattern: Seq<char>) -> Seq<Option<Seq<char>>>;

/// Start of the whole match (group 0).
pub open spec fn match_start(caps: Seq<Option<(usize, usize)>>) -> int {
    let sp = caps[0]->0;
    sp.0 as int
}

/// End of the whole match (group 0).
pub open spec fn match_end(caps: Seq<Option<(usize, usize)>>) -> int {
    let sp = caps[0]->0;
    sp.1 as int
}

/// Capture spans as the `regex` crate documents them: group 0 (the whole
/// match) is always present, every span is ordered, lies on character
/// boundaries of the haystack and inside the whole match.
pub open spec fn well_formed_spans(haystack: Seq<char>, caps: Seq<Option<(usize, usize)>>) -> bool {
    &&& caps.len() > 0
    &&& caps[0] is Some
    &&& forall|i: int|
        0 <= i < caps.len() ==> (#[trigger] caps[i] matches Some(sp) ==> {
            &&& sp.0 <= sp.1
            &&& is_char_offset(haystack, sp.0 as int)
            &&& is_char_offset(haystack, sp.1 as int)
            &&& match_start(caps) <= sp.0
            &&& sp.1 <= match_end(caps)
        })
}

/// A compiled regular expression together with the pattern text it was
/// compiled from.
pub struct CompiledRegex {
    re: regex::Regex,
    source: String,
}

impl View for CompiledRegex {
    type V = Seq<char>;

    closed spec fn view(&self) -> Seq<char> {
        self.source@
    }
}

impl CompiledRegex {
    /// `regex::Regex::new`: compiles `pattern`; succeeds exactly when the
    /// pattern is accepted.
    #[verifier::external_body]
    pub fn compile(pattern: &str) -> (r: Result<CompiledRegex, regex::Error>)
        ensures
            r is Ok <==> regex_accepts(pattern@),
            r matches Ok(c) ==> c@ == pattern@,
    {
        match regex::Regex::new(pattern) {
            Ok(re) => Ok(CompiledRegex { re, source: pattern.to_string() }),
            Err(e) => Err(e),
        }
    }

    /// `regex::Regex::captures`, with each group given as its byte span.
    #[verifier::external_body]
    pub fn captures(&self, haystack: &str) -> (r: Option<Vec<Option<(usize, usize)>>>)
        ensures
            match r {
                Some(v) => regex_captures(self@, haystack@) == Some(v@) && well_formed_spans(
                    haystack@,
                    v@,
                ),
                None => regex_captures(self@, haystack@) is None,
            },
    {
        self.re.captures(haystack).map(
            |c| (0..c.len()).map(|i| c.get(i).map(|m| (m.start(), m.end()))).collect(),
        )
    }

    /// `regex::Regex::captures_iter`, collected, each group given as its byte
    /// span. The iteration starts where `captures` searches, so its first
    /// match is the one `captures` reports, and there is none exactly when
    /// `captures` finds nothing.
    #[verifier::external_body]
    pub fn captures_all(&self, haystack: &str) -> (r: Vec<Vec<Option<(usize, usize)>>>)
        ensures
            r@.len() == regex_captures_all(self@, haystack@).len(),
            forall|i: int|
                0 <= i < r@.len() ==> #[trigger] r@[i]@ == regex_captures_all(self@, haystack@)[i]
                    && well_formed_spans(haystack@, r@[i]@),
            forall|i: int|
                0 <= i && i + 1 < r@.len() ==> match_end(#[trigger] r@[i]@) <= match_start(
                    r@[i + 1]@,
                ),
            match regex_captures(self@, haystack@) {
                Some(first) => r@.len() > 0 && r@[0]@ == first,
                None => r@.len() == 0,
            },
    {
        self.re.captures_iter(haystack).map(
            |c| (0..c.len()).map(|i| c.get(i).map(|m| (m.start(), m.end()))).collect(),
        ).collect()
    }

    /// `regex::Regex::capture_names`: the name of each group by index.
    #[verifier::external_body]
    pub fn capture_names(&self) -> (r: Vec<Option<String>>)
        ensures
            r@.len() == regex_capture_names(self@).len(),
            forall|i: int|
                0 <= i < r@.len() ==> (match #[trigger] r@[i] {
                    Some(s) => regex_capture_names(self@)[i] == Some(s@),
                    None => regex_capture_names(self@)[i] is None,
                }),
    {
        self.re.capture_names().map(|n| n.map(|s| s.to_string())).collect()
    }
}

/// `Display` of `regex::Error`: the message describing why a pattern was
/// refused.
#[verifier::external_body]
pub fn regex_error_message(e: &regex::Error) -> String {
    e.to_string()
}

} // verus!
