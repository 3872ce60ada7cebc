//! Case-insensitive name patterns, as a study writes them. Compiling and matching are the regex
//! crate's; which patterns a study may write, and what a match decides, are this crate's.
use vstd::prelude::*;

verus! {

#[verifier::external_type_specification]
#[verifier::external_body]
pub struct ExRegex(regex::Regex);

#[verifier::external_type_specification]
#[verifier::external_body]
pub struct ExRegexError(regex::Error);

/// Whether `regex::Regex::new` accepts `pattern`: its syntax, and its default size limit.
pub uninterp spec fn regex_compiles(pattern: Seq<char>) -> bool;

/// Whether the regex compiled from `pattern` matches somewhere in `haystack`.
pub uninterp spec fn regex_matches(pattern: Seq<char>, haystack: Seq<char>) -> bool;

/// `(?i)` before a study's pattern: names are matched without regard to case.
pub open spec fn insensitive(p: Seq<char>) -> Seq<char> {
    seq!['(', '?', 'i', ')'] + p
}

/// A compiled pattern and the text it was compiled from.
pub struct Pattern {
    source: String,
    re: regex::Regex,
}

impl Pattern {
    /// The text the pattern was compiled from.
    pub closed spec fn source(&self) -> Seq<char> {
        self.source@
    }
}

/// `regex::Regex::new`: compiles `pattern`, failing exactly where the crate refuses it.
#[verifier::external_body]
fn regex_new(pattern: String) -> (r: Result<Pattern, regex::Error>)
    ensures
        r is Ok <==> regex_compiles(pattern@),
        r matches Ok(p) ==> p.source() == pattern@,
{
    match regex::Regex::new(&pattern) {
        Ok(re) => Ok(Pattern { source: pattern, re }),
        Err(e) => Err(e),
    }
}

/// `regex::Regex::is_match`: whether the compiled pattern matches anywhere in `haystack`.
#[verifier::external_body]
fn regex_is_match(p: &Pattern, haystack: &str) -> (r: bool)
    ensures
        r == regex_matches(p.source(), haystack@),
{
    p.re.is_match(haystack)
}

impl Pattern {
    /// A study's pattern, compiled case-insensitively. `None` where the regex crate refuses it.
    pub fn case_insensitive(p: &str) -> (r: Option<Pattern>)
        ensures
            r is Some <==> regex_compiles(insensitive(p@)),
            r matches Some(c) ==> c.source() == insensitive(p@),
    {
        let mut v: Vec<char> = vec!['(', '?', 'i', ')'];
        crate::text::push_str(&mut v, p);
        let s = crate::text::string_of(&v);
        assert(s@ =~= insensitive(p@));
        match regex_new(s) {
            Ok(c) => Some(c),
            Err(_) => None,
        }
    }

    pub fn is_match(&self, haystack: &str) -> (r: bool)
        ensures
            r == regex_matches(self.source(), haystack@),
    {
        regex_is_match(self, haystack)
    }
}

} // verus!
