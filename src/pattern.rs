//! The regular-expression engine that rules embed, as seen by the proofs.

use vstd::prelude::*;

verus! {

/// A compiled pattern of the `regex` crate; opaque here.
#[verifier::external_type_specification]
#[verifier::external_body]
pub struct ExRegex(regex::Regex);

/// The compiler's diagnostic for a rejected pattern; opaque here.
#[verifier::external_type_specification]
#[verifier::external_body]
pub struct ExRegexError(regex::Error);

/// Whether `regex::Regex::new` accepts the pattern text `p`.
pub uninterp spec fn regex_compiles(p: Seq<char>) -> bool;

/// The pattern text that a compiled regex was built from.
pub uninterp spec fn regex_source(r: regex::Regex) -> Seq<char>;

/// Compiles the pattern `p`.
///
/// Relies on `regex::Regex::new`: it succeeds or fails on the pattern text
/// alone, and a compiled regex keeps that text as its source.
#[verifier::external_body]
pub(crate) fn compile(p: &str) -> (r: Result<regex::Regex, regex::Error>)
    ensures
        r is Ok <==> regex_compiles(p@),
        r is Ok ==> regex_source(r->Ok_0) == p@,
{
    regex::Regex::new(p)
}

/// The pattern text that `r` was compiled from.
///
/// Relies on `regex::Regex::as_str`: it returns that text.
#[verifier::external_body]
pub(crate) fn source_text(r: &regex::Regex) -> (s: &str)
    ensures
        s@ == regex_source(*r),
{
    r.as_str()
}

} // verus!
