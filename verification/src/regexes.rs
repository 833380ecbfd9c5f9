//! Trusted boundary to the `regex` crate.
//!
//! Gitignore patterns are translated in this library to regular-expression
//! source strings; compiling and matching those strings is the `regex`
//! crate's work. Both results are deterministic in the argument strings, so
//! they are given names that the rest of the library's contracts speak of.

use vstd::prelude::*;

verus! {

/// Whether `regex::Regex::new` accepts `pattern` under its default
/// configuration.
pub uninterp spec fn regex_compiles(pattern: Seq<char>) -> bool;

/// Whether the regular expression `pattern` matches anywhere in `text`.
pub uninterp spec fn regex_matches(pattern: Seq<char>, text: Seq<char>) -> bool;

/// Relies on `regex::Regex::new`: success is a function of the pattern
/// string alone (the default size limit is fixed).
#[verifier::external_body]
pub(crate) fn regex_new_ok(pattern: &str) -> (r: bool)
    ensures
        r == regex_compiles(pattern@),
{
    regex::Regex::new(pattern).is_ok()
}

/// Relies on `regex::Regex::new` and `regex::Regex::is_match`: whether a
/// compiled pattern matches anywhere in `text` is a function of the pattern
/// and the text alone; compilation fails exactly when `new` errs.
#[verifier::external_body]
pub(crate) fn regex_try_match(pattern: &str, text: &str) -> (r: Option<bool>)
    ensures
        r is Some <==> regex_compiles(pattern@),
        r matches Some(b) ==> b == regex_matches(pattern@, text@),
{
    match regex::Regex::new(pattern) {
        Ok(re) => Some(re.is_match(text)),
        Err(_) => None,
    }
}

} // verus!
