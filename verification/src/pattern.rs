//! Regular expressions as the `regex` crate compiles and matches them.
//!
//! A compiled expression is opaque here; what it does with a text has a name.

use crate::text::byte_len;
use vstd::prelude::*;

verus! {

#[verifier::external_type_specification]
#[verifier::external_body]
pub struct ExRegex(regex::Regex);

#[verifier::external_type_specification]
#[verifier::external_body]
pub struct ExRegexError(regex::Error);

/// What `Regex::new` makes of a pattern.
pub uninterp spec fn regex_of(pat: Seq<char>) -> Result<regex::Regex, regex::Error>;

/// How a pattern's error reads.
pub uninterp spec fn regex_error_text(e: regex::Error) -> Seq<char>;

/// Whether the expression matches anywhere in a text.
pub uninterp spec fn regex_matches(re: regex::Regex, text: Seq<char>) -> bool;

/// Where the leftmost match starts and ends, in bytes.
pub uninterp spec fn regex_first(re: regex::Regex, text: Seq<char>) -> Option<(usize, usize)>;

/// `Regex::new`: compiles a pattern with the default options. The same pattern
/// always compiles to the same expression, or fails with the same error.
#[verifier::external_body]
pub(crate) fn compile(pat: &str) -> (r: Result<regex::Regex, regex::Error>)
    ensures
        r == regex_of(pat@),
{
    regex::Regex::new(pat)
}

/// The `Display` text of a `regex::Error`.
#[verifier::external_body]
pub(crate) fn error_text(e: &regex::Error) -> (r: String)
    ensures
        r@ == regex_error_text(*e),
{
    e.to_string()
}

/// `Regex::is_match`: whether the expression matches anywhere in the text.
pub assume_specification[ regex::Regex::is_match ](re: &regex::Regex, haystack: &str) -> (r: bool)
    ensures
        r == regex_matches(*re, haystack@),
;

/// `Regex::find`: the byte range of the leftmost match, which lies within the
/// text.
#[verifier::external_body]
pub(crate) fn find_first(re: &regex::Regex, text: &str) -> (r: Option<(usize, usize)>)
    ensures
        r == regex_first(*re, text@),
        r matches Some((lo, hi)) ==> lo <= hi <= byte_len(text@),
{
    re.find(text).map(|m| (m.start(), m.end()))
}

} // verus!
