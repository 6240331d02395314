//! Trusted boundary to the `url` crate, which supplies WHATWG URL parsing.
//! A module specifier is kept everywhere as its canonical string form; the
//! two functions here produce that form.
use vstd::prelude::*;

verus! {

/// The canonical serialization of `s` parsed as an absolute URL, or `None`
/// when `s` is not an absolute URL.
pub uninterp spec fn url_canon(s: Seq<char>) -> Option<Seq<char>>;

/// The canonical serialization of `rel` resolved against the absolute URL
/// `base`, or `None` when `base` does not parse or the join fails.
pub uninterp spec fn url_join_canon(base: Seq<char>, rel: Seq<char>) -> Option<Seq<char>>;

/// Relies on `url::Url::parse`: the parse outcome and the canonical
/// serialization (read back through `From<Url> for String`, which returns
/// the stored serialization) are functions of the input string alone.
#[verifier::external_body]
pub(crate) fn parse_url(s: &str) -> (r: Option<String>)
    ensures
        r is Some <==> url_canon(s@) is Some,
        r matches Some(c) ==> url_canon(s@) == Some(c@),
{
    match url::Url::parse(s) {
        Ok(u) => Some(String::from(u)),
        Err(_) => None,
    }
}

/// Relies on `url::Url::parse` and `url::Url::join`: joining `rel` against
/// the URL parsed from `base` is a function of the two strings alone, and
/// `From<Url> for String` returns the canonical serialization.
#[verifier::external_body]
pub(crate) fn join_url(base: &str, rel: &str) -> (r: Option<String>)
    ensures
        r is Some <==> url_join_canon(base@, rel@) is Some,
        r matches Some(c) ==> url_join_canon(base@, rel@) == Some(c@),
{
    match url::Url::parse(base) {
        Ok(b) => match b.join(rel) {
            Ok(u) => Some(String::from(u)),
            Err(_) => None,
        },
        Err(_) => None,
    }
}

} // verus!
