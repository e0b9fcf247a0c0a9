//! The announce URL, reduced to the parts this engine reads.

use vstd::prelude::*;

verus! {

/// Scheme, host, port and path of a parsed URL, as plain values.
#[derive(Debug)]
pub struct UrlParts {
    pub scheme: String,
    pub host: Option<String>,
    pub port: Option<u16>,
    pub path: String,
}

/// What `url::Url::parse` yields on a given string: scheme, host,
/// port and path when the string parses as an absolute URL, nothing
/// otherwise.
pub uninterp spec fn url_parts_of(s: Seq<char>) -> Option<
    (Seq<char>, Option<Seq<char>>, Option<u16>, Seq<char>),
>;

/// Relies on url::Url::parse, and on Url::scheme, Url::host_str,
/// Url::port and Url::path, to split an announce URL into plain parts.
#[verifier::external_body]
pub fn parse_url(s: &str) -> (r: Option<UrlParts>)
    ensures
        (r matches Some(p) ==> (url_parts_of(s@) matches Some(t) && p.scheme@ == t.0 && (p.host
            is Some <==> t.1 is Some) && (p.host matches Some(h) ==> (t.1 matches Some(th) && h@
            == th)) && p.port == t.2 && p.path@ == t.3)),
        (r is None ==> url_parts_of(s@) is None),
{
    match url::Url::parse(s) {
        Ok(u) => Some(
            UrlParts {
                scheme: u.scheme().to_owned(),
                host: u.host_str().map(|h| h.to_owned()),
                port: u.port(),
                path: u.path().to_owned(),
            },
        ),
        Err(_) => None,
    }
}

} // verus!
