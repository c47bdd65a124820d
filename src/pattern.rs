//! Compiled patterns over byte text, backed by the `regex` crate.

use vstd::prelude::*;

verus! {

#[verifier::external_type_specification]
#[verifier::external_body]
pub struct ExBytesRegex(regex::bytes::Regex);

#[verifier::external_type_specification]
#[verifier::external_body]
pub struct ExRegexError(regex::Error);

/// Whether the pattern text compiles.
pub uninterp spec fn pattern_is_valid(p: Seq<char>) -> bool;

/// Whether the pattern matches somewhere in the haystack.
pub uninterp spec fn pattern_matches(p: Seq<char>, hay: Seq<u8>) -> bool;

/// The byte span of the leftmost-first match of the pattern in the haystack.
pub uninterp spec fn first_match_span(p: Seq<char>, hay: Seq<u8>) -> Option<(int, int)>;

/// Relies on `regex::bytes::Regex::new`: it succeeds exactly on valid pattern text.
#[verifier::external_body]
fn compile(p: &str) -> (r: Result<regex::bytes::Regex, regex::Error>)
    ensures
        r.is_ok() == pattern_is_valid(p@),
{
    regex::bytes::Regex::new(p)
}

/// A pattern that failed to compile.
#[derive(Debug, Clone, PartialEq, Eq)]
pub struct PatternError {
    pub pattern: String,
}

/// A compiled pattern together with the text it was compiled from.
///
/// Only `Pattern::new` builds one, so `re` is always the compilation of `text`.
#[derive(Debug)]
pub struct Pattern {
    text: String,
    re: regex::bytes::Regex,
}

impl Pattern {
    /// The pattern text.
    pub closed spec fn source(&self) -> Seq<char> {
        self.text@
    }

    /// Compiles `p`; fails exactly when `p` is not a valid pattern.
    pub fn new(p: &str) -> (r: Result<Pattern, PatternError>)
        ensures
            r.is_ok() == pattern_is_valid(p@),
            r matches Ok(pat) ==> pat.source() == p@,
            r matches Err(e) ==> e.pattern@ == p@,
    {
        match compile(p) {
            Ok(re) => Ok(Pattern { text: p.to_owned(), re }),
            Err(_) => Err(PatternError { pattern: p.to_owned() }),
        }
    }

    /// Relies on `regex::bytes::Regex::is_match`: whether there is a match anywhere.
    #[verifier::external_body]
    pub(crate) fn is_match(&self, hay: &[u8]) -> (r: bool)
        ensures
            r == pattern_matches(self.source(), hay@),
    {
        self.re.is_match(hay)
    }

    /// Relies on `regex::bytes::Regex::find`: the span of the leftmost-first
    /// match, present exactly when there is a match, within the haystack.
    #[verifier::external_body]
    pub(crate) fn find(&self, hay: &[u8]) -> (r: Option<(usize, usize)>)
        ensures
            r matches Some(m) ==> first_match_span(self.source(), hay@) == Some(
                (m.0 as int, m.1 as int),
            ),
            r is None ==> first_match_span(self.source(), hay@) is None,
            r is Some == pattern_matches(self.source(), hay@),
            r matches Some(m) ==> m.0 <= m.1 <= hay@.len(),
    {
        self.re.find(hay).map(|m| (m.start(), m.end()))
    }
}

} // verus!
