//! URL validation and path resolution, delegated to the `url` crate.
//!
//! Endpoints are kept as text; parsing is deterministic, so the parse result
//! is named at the specification level and every contract over endpoints
//! speaks of those names.

use vstd::prelude::*;

verus! {

/// The scheme of the URL that `s` parses to as an absolute URL, or `None`
/// when `s` does not parse.
pub uninterp spec fn url_scheme_of(s: Seq<char>) -> Option<Seq<char>>;

/// The serialization of the URL that `base` parses to, after its path
/// component has been replaced by `path`.
pub uninterp spec fn url_with_path(base: Seq<char>, path: Seq<char>) -> Seq<char>;

/// Relies on `url::Url::parse` and `url::Url::scheme`: whether text parses as
/// an absolute URL, and which scheme it carries, are functions of the text
/// alone.
#[verifier::external_body]
pub fn parse_scheme(s: &str) -> (r: Option<String>)
    ensures
        match r {
            Some(scheme) => url_scheme_of(s@) == Some(scheme@),
            None => url_scheme_of(s@) is None,
        },
{
    match url::Url::parse(s) {
        Ok(u) => Some(u.scheme().to_string()),
        Err(_) => None,
    }
}

/// Relies on `url::Url::parse`, `url::Url::set_path` and `url::Url::as_str`:
/// the serialization of the parsed base with its path replaced is a function
/// of the two texts alone, and replacing the path never makes a parsed URL
/// unserializable.
#[verifier::external_body]
pub fn resolve_with_path(base: &str, path: &str) -> (r: Option<String>)
    ensures
        match r {
            Some(u) => url_scheme_of(base@) is Some && u@ == url_with_path(base@, path@),
            None => url_scheme_of(base@) is None,
        },
{
    match url::Url::parse(base) {
        Ok(mut u) => {
            u.set_path(path);
            Some(u.as_str().to_string())
        },
        Err(_) => None,
    }
}

} // verus!
