//! URLs, and the fence around the APIs that the worker talks to.

use vstd::prelude::*;

use crate::error::ScanError;
use crate::text::{text_equal, trim_end, without_trailing};

verus! {

/// The parts of a URL that the worker reads.
#[derive(Debug, PartialEq)]
pub struct ParsedUrl {
    /// The URL in its normal form.
    pub text: String,
    pub path: String,
    pub query: Option<String>,
    pub fragment: Option<String>,
    pub username: String,
    pub password: Option<String>,
}

/// The parts of a URL as mathematical values.
pub struct UrlParts {
    pub text: Seq<char>,
    pub path: Seq<char>,
    pub query: Option<Seq<char>>,
    pub fragment: Option<Seq<char>>,
    pub username: Seq<char>,
    pub password: Option<Seq<char>>,
}

/// The view of a text that may be missing.
pub open spec fn optional_view(text: Option<String>) -> Option<Seq<char>> {
    match text {
        Some(text) => Some(text@),
        None => None,
    }
}

impl View for ParsedUrl {
    type V = UrlParts;

    open spec fn view(&self) -> UrlParts {
        UrlParts {
            text: self.text@,
            path: self.path@,
            query: optional_view(self.query),
            fragment: optional_view(self.fragment),
            username: self.username@,
            password: optional_view(self.password),
        }
    }
}

/// The parts of the URL that a text is, or what is reported of a text that is none.
pub uninterp spec fn url_parts(text: Seq<char>) -> Result<UrlParts, Seq<char>>;

/// `reqwest::Url::parse` reads a URL or fails; the parts are what its accessors give, and the
/// failure is taken as the text that it displays. Both are functions of the text.
#[verifier::external_body]
pub(crate) fn parse_url(text: &str) -> (result: Result<ParsedUrl, String>)
    ensures
        match result {
            Ok(url) => url_parts(text@) == Ok::<UrlParts, Seq<char>>(url@),
            Err(reason) => url_parts(text@) == Err::<UrlParts, Seq<char>>(reason@),
        },
{
    let url = reqwest::Url::parse(text).map_err(|error| error.to_string())?;
    Ok(ParsedUrl {
        text: url.as_str().to_owned(),
        path: url.path().to_owned(),
        query: url.query().map(str::to_owned),
        fragment: url.fragment().map(str::to_owned),
        username: url.username().to_owned(),
        password: url.password().map(str::to_owned),
    })
}

/// The origin, in ASCII, of the URL that a text is.
pub uninterp spec fn origin_text(text: Seq<char>) -> Seq<char>;

/// `reqwest::Url::origin` gives the origin of the URL that a text is, here as the text that its
/// `ascii_serialization` writes, which is a function of the text. It fails where the text is not a
/// URL, as `reqwest::Url::parse` does.
#[verifier::external_body]
fn url_origin(text: &str) -> (result: Result<String, String>)
    ensures
        match result {
            Ok(origin) => url_parts(text@) is Ok && origin@ == origin_text(text@),
            Err(reason) => url_parts(text@) == Err::<UrlParts, Seq<char>>(reason@),
        },
{
    let url = reqwest::Url::parse(text).map_err(|error| error.to_string())?;
    Ok(url.origin().ascii_serialization())
}

/// Whether a URL with an origin is that of a supported API: its origin is one of two, and it has
/// no path, query, fragment or credentials.
pub open spec fn supported_api(url: UrlParts, origin: Seq<char>) -> bool {
    &&& {
        ||| origin == "https://dragonfly-staging.vipyrsec.com"@
        ||| origin == "https://dragonfly.vipyrsec.com"@
    }
    &&& without_trailing(url.path, '/').len() == 0
    &&& url.query is None
    &&& url.fragment is None
    &&& url.username.len() == 0
    &&& url.password is None
}

/// Fails unless a URL with an origin is that of a supported API.
pub fn check_api_origin(url: &ParsedUrl, origin: &str) -> (result: Result<(), ScanError>)
    ensures
        match result {
            Ok(()) => supported_api(url@, origin@),
            Err(error) => {
                &&& !supported_api(url@, origin@)
                &&& error == ScanError::UnsupportedOrigin
            },
        },
{
    if (text_equal(origin, "https://dragonfly-staging.vipyrsec.com") || text_equal(
        origin,
        "https://dragonfly.vipyrsec.com",
    )) && trim_end(url.path.as_str(), '/').as_str().is_empty() && url.query.is_none()
        && url.fragment.is_none() && url.username.as_str().is_empty() && url.password.is_none() {
        Ok(())
    } else {
        Err(ScanError::UnsupportedOrigin)
    }
}

/// Whether a result is what validating a base URL gives.
pub open spec fn validation(base_url: Seq<char>, result: Result<(), ScanError>) -> bool {
    match url_parts(base_url) {
        Err(reason) => result matches Err(ScanError::InvalidUrl(shown)) && shown@ == reason,
        Ok(url) => if supported_api(url, origin_text(base_url)) {
            result is Ok
        } else {
            result == Err::<(), ScanError>(ScanError::UnsupportedOrigin)
        },
    }
}

/// Requires a supported API without paths, credentials or queries.
pub fn validate_api_origin(base_url: &str) -> (result: Result<(), ScanError>)
    ensures
        validation(base_url@, result),
{
    let url = match parse_url(base_url) {
        Ok(url) => url,
        Err(reason) => return Err(ScanError::InvalidUrl(reason)),
    };
    match url_origin(base_url) {
        Ok(origin) => check_api_origin(&url, origin.as_str()),
        Err(reason) => Err(ScanError::InvalidUrl(reason)),
    }
}

} // verus!
