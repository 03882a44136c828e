//! Absolute URLs as plain values, and URL resolution and normalisation.
//!
//! Parsing, joining and editing URLs is the `url` crate's work; every call
//! into it stands behind one of the trusted wrappers at the bottom of this
//! file. A `WebUrl` holds, as plain strings, what the rest of the library
//! reads of a parsed URL: its serialisation (by which URLs are identified,
//! compared and hashed, as `url::Url` itself does), its host and its path.

use vstd::prelude::*;

verus! {

/// The reasons for which the `url` crate refuses to parse a URL.
#[derive(Debug, Clone, Copy, PartialEq, Eq, Structural)]
pub enum UrlParseError {
    EmptyHost,
    IdnaError,
    InvalidPort,
    InvalidIpv4Address,
    InvalidIpv6Address,
    InvalidDomainCharacter,
    RelativeUrlWithoutBase,
    RelativeUrlWithCannotBeABaseBase,
    SetHostOnCannotBeABaseUrl,
    Overflow,
    /// A reason that a later release of the `url` crate may add.
    Other,
}

/// A parsed absolute URL: its serialisation, its host (if it has one) and
/// its path.
#[derive(Debug, Clone, PartialEq, Eq, Hash)]
pub struct WebUrl {
    serialization: String,
    host: Option<String>,
    path: String,
}

/// The mathematical value of a parsed URL: serialisation, host, path.
pub type UrlView = (Seq<char>, Option<Seq<char>>, Seq<char>);

pub open spec fn opt_string_view(s: Option<String>) -> Option<Seq<char>> {
    match s {
        Some(h) => Some(h@),
        None => None,
    }
}

impl View for WebUrl {
    type V = UrlView;

    closed spec fn view(&self) -> UrlView {
        (self.serialization@, opt_string_view(self.host), self.path@)
    }
}

/// The view of the outcome of an operation that yields a URL.
pub open spec fn url_result_view(r: Result<WebUrl, UrlParseError>) -> Result<UrlView, UrlParseError> {
    match r {
        Ok(u) => Ok(u@),
        Err(e) => Err(e),
    }
}

/// What `url::Url::parse` makes of `input`.
pub uninterp spec fn spec_url_parse(input: Seq<char>) -> Result<UrlView, UrlParseError>;

/// What `url::Url::join` makes of `input` relative to the URL serialised as
/// `base`. The base is rebuilt from its serialisation with `url::Url::parse`,
/// which the `url` crate keeps equal to the URL it serialises.
pub uninterp spec fn spec_url_join(base: Seq<char>, input: Seq<char>) -> Result<UrlView, UrlParseError>;

/// What `url::Url::set_path` makes of the URL serialised as `url` with path
/// `path`, the URL being rebuilt from its serialisation with `url::Url::parse`
/// (the `url` crate keeps that parse equal to the URL it serialises).
pub uninterp spec fn spec_url_set_path(url: Seq<char>, path: Seq<char>) -> Result<UrlView, UrlParseError>;

/// What `url::Url::set_fragment(None)` makes of the URL serialised as `url`,
/// the URL being rebuilt from its serialisation with `url::Url::parse` (the
/// `url` crate keeps that parse equal to the URL it serialises).
pub uninterp spec fn spec_url_clear_fragment(url: Seq<char>) -> Result<UrlView, UrlParseError>;

/// `s` with every trailing `'/'` removed.
pub open spec fn spec_trim_trailing_slashes(s: Seq<char>) -> Seq<char>
    decreases s.len(),
{
    if s.len() > 0 && s.last() == '/' {
        spec_trim_trailing_slashes(s.drop_last())
    } else {
        s
    }
}

/// What `url::Url::set_path` needs in order not to panic, for a new path
/// taken from the URL itself: `path` is a prefix of the URL's own path, and
/// the serialisation leaves room for a few more bytes below `u32::MAX`.
///
/// The serialisation up to the end of the path is ASCII (scheme, authority
/// and path are documented as ASCII, the path as percent-encoded ASCII), so
/// its length in bytes is at most the number of characters. Parsing a prefix
/// of an already percent-encoded path encodes no character again; the parser
/// adds at most a leading `'/'`. So the new serialisation before the query
/// stays within three bytes of the old one, and both 32-bit offset
/// conversions in `set_path` succeed.
pub open spec fn set_path_fits(url: UrlView, path: Seq<char>) -> bool {
    &&& path.len() <= url.2.len()
    &&& url.2.subrange(0, path.len() as int) == path
    &&& url.0.len() + 3 <= u32::MAX
}

/// Trimming trailing slashes keeps a prefix of the string.
pub proof fn lemma_trim_is_prefix(s: Seq<char>)
    ensures
        spec_trim_trailing_slashes(s).len() <= s.len(),
        s.subrange(0, spec_trim_trailing_slashes(s).len() as int) == spec_trim_trailing_slashes(s),
    decreases s.len(),
{
    if s.len() > 0 && s.last() == '/' {
        lemma_trim_is_prefix(s.drop_last());
        let t = spec_trim_trailing_slashes(s.drop_last());
        assert(s.subrange(0, t.len() as int) =~= s.drop_last().subrange(0, t.len() as int));
    } else {
        assert(s.subrange(0, s.len() as int) =~= s);
    }
}

impl WebUrl {
    /// Parses an absolute URL.
    pub fn parse(input: &str) -> (r: Result<WebUrl, UrlParseError>)
        ensures
            url_result_view(r) == spec_url_parse(input@),
    {
        url_parse(input)
    }

    /// The serialisation of this URL.
    pub fn as_str(&self) -> (r: &str)
        ensures
            r@ == self@.0,
    {
        self.serialization.as_str()
    }

    /// The host of this URL, if it has one.
    pub fn host_str(&self) -> (r: Option<&str>)
        ensures
            r is Some <==> self@.1 is Some,
            r matches Some(h) ==> self@.1 == Some(h@),
    {
        match &self.host {
            Some(h) => Some(h.as_str()),
            None => None,
        }
    }

    /// The path of this URL.
    pub fn path(&self) -> (r: &str)
        ensures
            r@ == self@.2,
    {
        self.path.as_str()
    }

    /// A copy of this URL.
    pub fn duplicate(&self) -> (r: WebUrl)
        ensures
            r@ == self@,
    {
        let host = match &self.host {
            Some(h) => Some(h.clone()),
            None => None,
        };
        WebUrl { serialization: self.serialization.clone(), host, path: self.path.clone() }
    }

    /// The serialisation of this URL, as the string that holds it.
    pub fn serialization_string(&self) -> (r: &String)
        ensures
            r@ == self@.0,
    {
        &self.serialization
    }

    /// Whether both URLs have a host, and the same one.
    pub fn same_host(&self, other: &WebUrl) -> (r: bool)
        ensures
            r == (self@.1 is Some && self@.1 == other@.1),
    {
        match (&self.host, &other.host) {
            (Some(a), Some(b)) => *a == *b,
            _ => false,
        }
    }

    /// Whether two URLs are the same URL, that is have the same serialisation.
    pub fn same_as(&self, other: &WebUrl) -> (r: bool)
        ensures
            r == (self@.0 == other@.0),
    {
        self.serialization == other.serialization
    }
}

/// `s` with every trailing `'/'` removed.
pub fn trim_trailing_slashes(s: &str) -> (r: String)
    ensures
        r@ == spec_trim_trailing_slashes(s@),
{
    let mut end: usize = s.unicode_len();
    assert(s@.subrange(0, end as int) =~= s@);
    while end > 0 && s.get_char(end - 1) == '/'
        invariant
            end <= s@.len(),
            spec_trim_trailing_slashes(s@) == spec_trim_trailing_slashes(s@.subrange(0, end as int)),
        decreases end,
    {
        let ghost prefix = s@.subrange(0, end as int);
        assert(prefix.drop_last() =~= s@.subrange(0, end - 1));
        end = end - 1;
    }
    proof {
        let prefix = s@.subrange(0, end as int);
        assert(spec_trim_trailing_slashes(prefix) == prefix);
    }
    s.substring_char(0, end).to_string()
}

/// `url::ParseError`, which the `url` crate's parsing functions return.
#[verifier::external_type_specification]
#[verifier::external_body]
pub struct ExParseError(url::ParseError);

/// Maps an error of the `url` crate to the library's own error, variant by variant.
#[verifier::external_body]
fn from_url_error(e: url::ParseError) -> UrlParseError {
    match e {
        url::ParseError::EmptyHost => UrlParseError::EmptyHost,
        url::ParseError::IdnaError => UrlParseError::IdnaError,
        url::ParseError::InvalidPort => UrlParseError::InvalidPort,
        url::ParseError::InvalidIpv4Address => UrlParseError::InvalidIpv4Address,
        url::ParseError::InvalidIpv6Address => UrlParseError::InvalidIpv6Address,
        url::ParseError::InvalidDomainCharacter => UrlParseError::InvalidDomainCharacter,
        url::ParseError::RelativeUrlWithoutBase => UrlParseError::RelativeUrlWithoutBase,
        url::ParseError::RelativeUrlWithCannotBeABaseBase => UrlParseError::RelativeUrlWithCannotBeABaseBase,
        url::ParseError::SetHostOnCannotBeABaseUrl => UrlParseError::SetHostOnCannotBeABaseUrl,
        url::ParseError::Overflow => UrlParseError::Overflow,
        _ => UrlParseError::Other,
    }
}

/// Calls `url::Url::parse` on `input`; the result (the parsed URL's
/// serialisation, host and path, or the error) is named `spec_url_parse`.
#[verifier::external_body]
pub(crate) fn url_parse(input: &str) -> (r: Result<WebUrl, UrlParseError>)
    ensures
        url_result_view(r) == spec_url_parse(input@),
{
    match url::Url::parse(input) {
        Ok(u) => Ok(WebUrl { serialization: u.as_str().to_string(), host: u.host_str().map(|h| h.to_string()), path: u.path().to_string() }),
        Err(e) => Err(from_url_error(e)),
    }
}

/// Calls `url::Url::join` on `base` (rebuilt from its serialisation with
/// `url::Url::parse`) and `input`; the result is named `spec_url_join`.
#[verifier::external_body]
pub(crate) fn url_join(base: &WebUrl, input: &str) -> (r: Result<WebUrl, UrlParseError>)
    ensures
        url_result_view(r) == spec_url_join(base@.0, input@),
{
    match url::Url::parse(base.serialization.as_str()).and_then(|b| b.join(input)) {
        Ok(u) => Ok(WebUrl { serialization: u.as_str().to_string(), host: u.host_str().map(|h| h.to_string()), path: u.path().to_string() }),
        Err(e) => Err(from_url_error(e)),
    }
}

/// Calls `url::Url::set_path` on `url` (rebuilt from its serialisation);
/// the result is named `spec_url_set_path`. `set_path` panics when the new
/// serialisation outgrows 32-bit offsets, which `requires` rules out (see
/// `set_path_fits`). As for `url_clear_fragment`, rebuilding a URL from a
/// serialisation that the `url` crate made succeeds, so the call does not fail.
#[verifier::external_body]
pub(crate) fn url_set_path(url: &WebUrl, path: &str) -> (r: Result<WebUrl, UrlParseError>)
    requires
        set_path_fits(url@, path@),
    ensures
        r is Ok,
        url_result_view(r) == spec_url_set_path(url@.0, path@),
{
    match url::Url::parse(url.serialization.as_str()) {
        Ok(mut u) => { u.set_path(path); Ok(WebUrl { serialization: u.as_str().to_string(), host: u.host_str().map(|h| h.to_string()), path: u.path().to_string() }) },
        Err(e) => Err(from_url_error(e)),
    }
}

/// Calls `url::Url::set_fragment(None)` on `url` (rebuilt from its
/// serialisation); the result is named `spec_url_clear_fragment`. Every
/// `WebUrl` holds the serialisation of a URL that the `url` crate made, and
/// the crate keeps `Url::parse` of a serialisation it made successful (its
/// own invariant check asserts this), so the call does not fail.
#[verifier::external_body]
pub(crate) fn url_clear_fragment(url: &WebUrl) -> (r: Result<WebUrl, UrlParseError>)
    ensures
        r is Ok,
        url_result_view(r) == spec_url_clear_fragment(url@.0),
{
    match url::Url::parse(url.serialization.as_str()) {
        Ok(mut u) => { u.set_fragment(None); Ok(WebUrl { serialization: u.as_str().to_string(), host: u.host_str().map(|h| h.to_string()), path: u.path().to_string() }) },
        Err(e) => Err(from_url_error(e)),
    }
}

} // verus!
