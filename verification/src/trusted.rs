//! The only calls into outside crates and into the parts of std that vstd
//! does not specify. Each item's contract is what the callee's source and
//! documentation plainly promise, no more.

use vstd::prelude::*;

verus! {

/// What `str::to_lowercase` returns: it depends on the characters alone.
pub uninterp spec fn lower_of(s: Seq<char>) -> Seq<char>;

/// Whether `regex::Regex::new` accepts a pattern: it depends on the pattern alone.
pub uninterp spec fn regex_compiles(p: Seq<char>) -> bool;

/// What `regex::Regex::is_match` returns for a pattern and a haystack:
/// it depends on the two strings alone.
pub uninterp spec fn regex_matches(p: Seq<char>, text: Seq<char>) -> bool;

/// Relies on `str::to_lowercase`: the result is a function of the characters
/// alone, and the empty string stays empty.
#[verifier::external_body]
pub(crate) fn lowercase(s: &str) -> (r: String)
    ensures
        r@ == lower_of(s@),
        s@.len() == 0 ==> r@.len() == 0,
{
    s.to_lowercase()
}

/// Relies on `String::from_iter` (through `Iterator::collect`): the string
/// holds exactly the characters handed to it, in order.
#[verifier::external_body]
pub(crate) fn chars_to_string(v: &Vec<char>) -> (r: String)
    ensures
        r@ == v@,
{
    v.iter().collect()
}

/// Relies on `chrono::Utc::now` and `chrono::DateTime::to_rfc3339_opts` with
/// `SecondsFormat::Nanos` and `use_z`: the current instant rendered as an
/// RFC 3339 UTC string with nanosecond precision. Nothing is promised of the
/// result: the host clock decides it, and callers validate the shape.
/// `Utc::now` itself panics on a host clock set before the Unix epoch; that
/// panic is part of this trusted call, not of the verified code around it.
#[verifier::external_body]
pub(crate) fn now_rfc3339() -> (r: String)
{
    chrono::Utc::now().to_rfc3339_opts(chrono::SecondsFormat::Nanos, true)
}

/// Relies on `regex::Regex::new` (whether a pattern compiles depends on the
/// pattern alone) and `regex::Regex::is_match` (whether a compiled pattern
/// matches depends on the pattern and the haystack alone). The two stand in
/// one body because only there can the match result be tied to the pattern
/// the regex was compiled from.
#[verifier::external_body]
pub(crate) fn regex_match(pattern: &str, text: &str) -> (r: Result<bool, String>)
    ensures
        r is Ok == regex_compiles(pattern@),
        r matches Ok(b) ==> b == regex_matches(pattern@, text@),
{
    match regex::Regex::new(pattern) {
        Ok(re) => Ok(re.is_match(text)),
        Err(e) => Err(format!("{}", e)),
    }
}

/// Relies on `rand::random`: a value drawn from the thread-local generator.
/// Nothing can be promised of a random value.
pub assume_specification<T>[ rand::random::<T> ]() -> (r: T)
    where
        rand::distributions::Standard: rand::distributions::Distribution<T>,
;

} // verus!
