//! Trusted boundary to the `url` crate: parsing, resolving and reading
//! URLs, as functions from plain strings to plain strings. Parsing,
//! joining and the component readers are deterministic in their string
//! arguments, so each call's result carries a name the contracts can
//! speak of. A parsed `Url` value itself is opaque here.

use url::Url;
use vstd::prelude::*;

verus! {

#[verifier::external_type_specification]
#[verifier::external_body]
pub struct ExUrl(Url);

/// The canonical serialization of the string parsed as an absolute URL,
/// or nothing where it does not parse.
pub uninterp spec fn parsed_url_of(s: Seq<char>) -> Option<Seq<char>>;

/// The canonical serialization of `href` resolved against the URL
/// serialized as `base`, or nothing where resolution fails.
pub uninterp spec fn joined_url_of(base: Seq<char>, href: Seq<char>) -> Option<Seq<char>>;

/// The scheme of the URL serialized as `s`, or nothing where `s` is no
/// URL serialization.
pub uninterp spec fn scheme_of(s: Seq<char>) -> Option<Seq<char>>;

/// The host of the URL serialized as `s`, or nothing where `s` is no URL
/// serialization or the URL has no host.
pub uninterp spec fn host_of(s: Seq<char>) -> Option<Seq<char>>;

/// The path of the URL serialized as `s`, or nothing where `s` is no URL
/// serialization.
pub uninterp spec fn path_of(s: Seq<char>) -> Option<Seq<char>>;

/// The serialization of the URL serialized as `s` with its fragment
/// removed, or nothing where `s` is no URL serialization.
pub uninterp spec fn fragmentless_of(s: Seq<char>) -> Option<Seq<char>>;

/// Relies on url::Url::parse, serialized back by url::Url::as_str: the
/// canonical form of the string as an absolute URL, a function of the
/// string alone.
#[verifier::external_body]
pub(crate) fn parse_url_ser(s: &str) -> (r: Option<String>)
    ensures
        r.deep_view() == parsed_url_of(s@),
{
    Url::parse(s).ok().map(|u| u.as_str().to_string())
}

/// Relies on url::Url::join, with the base reparsed from its canonical
/// serialization (url::Url::parse) and the result serialized
/// (url::Url::as_str): a function of the two strings alone.
#[verifier::external_body]
pub(crate) fn join_url_ser(base: &str, href: &str) -> (r: Option<String>)
    ensures
        r.deep_view() == joined_url_of(base@, href@),
{
    Url::parse(base).ok().and_then(|b| b.join(href).ok()).map(|u| u.as_str().to_string())
}

/// Relies on url::Url::scheme, on the URL reparsed from its serialization
/// (url::Url::parse): a function of the string alone.
#[verifier::external_body]
pub(crate) fn scheme_of_ser(s: &str) -> (r: Option<String>)
    ensures
        r.deep_view() == scheme_of(s@),
{
    Url::parse(s).ok().map(|u| u.scheme().to_string())
}

/// Relies on url::Url::host_str, on the URL reparsed from its
/// serialization (url::Url::parse): a function of the string alone.
#[verifier::external_body]
pub(crate) fn host_of_ser(s: &str) -> (r: Option<String>)
    ensures
        r.deep_view() == host_of(s@),
{
    Url::parse(s).ok().and_then(|u| u.host_str().map(|h| h.to_string()))
}

/// Relies on url::Url::path, on the URL reparsed from its serialization
/// (url::Url::parse): a function of the string alone.
#[verifier::external_body]
pub(crate) fn path_of_ser(s: &str) -> (r: Option<String>)
    ensures
        r.deep_view() == path_of(s@),
{
    Url::parse(s).ok().map(|u| u.path().to_string())
}

/// Relies on url::Url::set_fragment(None), on the URL reparsed from its
/// serialization (url::Url::parse), serialized back by url::Url::as_str:
/// a function of the string alone.
#[verifier::external_body]
pub(crate) fn fragmentless_ser(s: &str) -> (r: Option<String>)
    ensures
        r.deep_view() == fragmentless_of(s@),
{
    Url::parse(s).ok().map(|mut u| {
        u.set_fragment(None);
        u.as_str().to_string()
    })
}

/// Relies on url::Url::parse: the parsed absolute URL, or nothing where
/// the crate reports a parse error — exactly the strings on which
/// `parsed_url_of` is something, parsing being deterministic.
#[verifier::external_body]
pub(crate) fn url_parse(s: &str) -> (r: Option<Url>)
    ensures
        r is Some <==> parsed_url_of(s@) is Some,
{
    Url::parse(s).ok()
}

} // verus!
