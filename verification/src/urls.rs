//! URLs.
use vstd::prelude::*;

verus! {

/// Whether a text is an absolute URL as the `url` crate parses them.
pub uninterp spec fn parses_as_url(s: Seq<char>) -> bool;

/// Parses the text with `url::Url::parse`.  Claimed: whether it parses is
/// `parses_as_url` of the text, a function of the text alone.
#[verifier::external_body]
fn url_parses(s: &str) -> (r: bool)
    ensures
        r == parses_as_url(s@),
{
    url::Url::parse(s).is_ok()
}

/// Whether a text is a URL.
pub fn is_url(s: &str) -> (r: bool)
    ensures
        r == parses_as_url(s@),
{
    url_parses(s)
}

} // verus!
