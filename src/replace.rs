use regex::Regex;
use vstd::prelude::*;

verus! {

/// The text `s` with every match of the regular expression `pattern` replaced by `rep`;
/// `s` itself when the pattern does not compile.
pub uninterp spec fn regex_replaced(pattern: Seq<char>, s: Seq<char>, rep: Seq<char>) -> Seq<char>;

/// Relies on regex's `Regex::new` and `Regex::replace_all`: every non-overlapping match of
/// the pattern, left to right, replaced by `rep` (a replacement without `$` is taken
/// literally); the text is returned unchanged when the pattern does not compile.
#[verifier::external_body]
pub(crate) fn regex_replace_all(pattern: &str, s: &str, rep: &str) -> (r: String)
    ensures
        r@ == regex_replaced(pattern@, s@, rep@),
{
    match Regex::new(pattern) {
        Ok(re) => re.replace_all(s, rep).to_string(),
        Err(_) => s.to_string(),
    }
}

} // verus!
