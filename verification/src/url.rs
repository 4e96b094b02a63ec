//! URLs, as texts.

use vstd::prelude::*;

verus! {

/// The written form of the URL that a text stands for, or what is wrong with the text.
pub uninterp spec fn url_parsed(text: Seq<char>) -> Result<Seq<char>, Seq<char>>;

/// The host of the URL that a text stands for.
pub uninterp spec fn url_host(text: Seq<char>) -> Option<Seq<char>>;

/// The written form of the URL that a reference leads to from the URL that a text stands for.
pub uninterp spec fn url_joined(text: Seq<char>, reference: Seq<char>) -> Option<Seq<char>>;

/// Reads a URL with `Url::parse` and writes it again. The result is named: the written URL, or the
/// message that the error is displayed as.
#[verifier::external_body]
pub(crate) fn parse_url(text: &str) -> (r: Result<String, String>)
    ensures
        match r {
            Ok(url) => url_parsed(text@) == Ok::<Seq<char>, Seq<char>>(url@),
            Err(message) => url_parsed(text@) == Err::<Seq<char>, Seq<char>>(message@),
        },
{
    match reqwest::Url::parse(text) {
        Ok(url) => Ok(url.to_string()),
        Err(e) => Err(e.to_string()),
    }
}

/// Reads a URL with `Url::parse` and takes its host with `Url::host_str`. The result is named.
#[verifier::external_body]
pub(crate) fn host_of_url(text: &str) -> (r: Option<String>)
    ensures
        match r {
            Some(host) => url_host(text@) == Some(host@),
            None => url_host(text@) is None,
        },
{
    Some(reqwest::Url::parse(text).ok()?.host_str()?.to_string())
}

/// Reads a URL with `Url::parse` and follows a reference from it with `Url::join`. The result is
/// named.
#[verifier::external_body]
pub(crate) fn join_url(text: &str, reference: &str) -> (r: Option<String>)
    ensures
        match r {
            Some(url) => url_joined(text@, reference@) == Some(url@),
            None => url_joined(text@, reference@) is None,
        },
{
    Some(reqwest::Url::parse(text).ok()?.join(reference).ok()?.to_string())
}

/// Why a text is not a URL.
#[derive(Debug)]
pub struct UrlError {
    pub message: String,
}

/// Reads a URL, and tells what is wrong where there is none.
pub fn deserialize_url(value: &str) -> (r: Result<String, UrlError>)
    ensures
        match url_parsed(value@) {
            Ok(url) => r is Ok && r->Ok_0@ == url,
            Err(message) => r is Err && r->Err_0.message@ == message,
        },
{
    match parse_url(value) {
        Ok(url) => Ok(url),
        Err(message) => Err(UrlError { message }),
    }
}

} // verus!
