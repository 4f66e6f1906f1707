//! The `url` crate.

use crate::text;
use vstd::prelude::*;

verus! {

/// What the library reads of a parsed URL.
pub struct UrlParts {
    /// The serialization of the URL.
    pub text: String,
    /// The scheme, in lower case.
    pub scheme: String,
    /// The host as it stands in the serialization, if the URL has one.
    pub host: Option<String>,
}

impl View for UrlParts {
    type V = (Seq<char>, Seq<char>, Option<Seq<char>>);

    open spec fn view(&self) -> Self::V {
        (self.text@, self.scheme@, text::opt(self.host))
    }
}

/// A text parsed as an absolute URL: its serialization, scheme and host, or the message of
/// the parser's error.
pub uninterp spec fn url_parse(s: Seq<char>) -> Result<
    (Seq<char>, Seq<char>, Option<Seq<char>>),
    Seq<char>,
>;

/// The path of a URL as it stands in the serialization, if the text is a URL.
pub uninterp spec fn url_path(s: Seq<char>) -> Option<Seq<char>>;

/// The serialization of a reference resolved against a base, if the base is a URL and the
/// reference resolves.
pub uninterp spec fn url_join(base: Seq<char>, reference: Seq<char>) -> Option<Seq<char>>;

/// The serialization of a URL without its fragment, if the text is a URL.
pub uninterp spec fn url_without_fragment(s: Seq<char>) -> Option<Seq<char>>;

/// `Url::parse`, with `Url::as_str`, `Url::scheme` and `Url::host_str` of what it gives and
/// the message of the error it gives: all of them depend on the text alone.
#[verifier::external_body]
pub(crate) fn parse(s: &str) -> (r: Result<UrlParts, String>)
    ensures
        match r {
            Ok(u) => url_parse(s@) == Ok::<
                (Seq<char>, Seq<char>, Option<Seq<char>>),
                Seq<char>,
            >(u@),
            Err(e) => url_parse(s@) == Err::<
                (Seq<char>, Seq<char>, Option<Seq<char>>),
                Seq<char>,
            >(e@),
        },
{
    match url::Url::parse(s) {
        Ok(u) => Ok(
            UrlParts {
                text: u.as_str().to_string(),
                scheme: u.scheme().to_string(),
                host: u.host_str().map(|h| h.to_string()),
            },
        ),
        Err(e) => Err(e.to_string()),
    }
}

/// `Url::path` of the parsed text: it depends on the text alone.
#[verifier::external_body]
pub(crate) fn path(s: &str) -> (r: Option<String>)
    ensures
        text::opt(r) == url_path(s@),
{
    url::Url::parse(s).ok().map(|u| u.path().to_string())
}

/// `Url::join` on the parsed base: the resolved URL depends on the two texts alone.
#[verifier::external_body]
pub(crate) fn join(base: &str, reference: &str) -> (r: Option<String>)
    ensures
        text::opt(r) == url_join(base@, reference@),
{
    let b = url::Url::parse(base).ok()?;
    b.join(reference).ok().map(|u| u.to_string())
}

/// `Url::set_fragment` with no fragment on the parsed text: the serialization that remains
/// depends on the text alone.
#[verifier::external_body]
pub(crate) fn without_fragment(s: &str) -> (r: Option<String>)
    ensures
        text::opt(r) == url_without_fragment(s@),
{
    let mut u = url::Url::parse(s).ok()?;
    u.set_fragment(None);
    Some(u.to_string())
}

} // verus!
