use vstd::prelude::*;

use crate::text::same_text;

verus! {

/// The (scheme, host, port) triple that identifies a site.
#[derive(Clone, Debug)]
pub struct Origin {
    pub scheme: String,
    pub host: String,
    pub port: u16,
}

impl Origin {
    /// The origin as plain values: two origins are the same site exactly when
    /// their keys are equal.
    pub open spec fn key(&self) -> (Seq<char>, Seq<char>, u16) {
        (self.scheme@, self.host@, self.port)
    }

    /// A copy of this origin.
    pub fn duplicate(&self) -> (r: Origin)
        ensures
            r == *self,
    {
        Origin { scheme: self.scheme.clone(), host: self.host.clone(), port: self.port }
    }

    pub fn same_as(&self, other: &Origin) -> (r: bool)
        ensures
            r == (self.key() == other.key()),
    {
        self.port == other.port && same_text(self.scheme.as_str(), other.scheme.as_str())
            && same_text(self.host.as_str(), other.host.as_str())
    }
}

/// An absolute URL, held as the parts of it that the crawler reads.
///
/// `text` is the URL's serialization and the crawler's identity for it: two
/// values with the same text are the same URL. `port` is the explicit port
/// (`None` where the scheme's default is used). `origin` is `None` for a URL
/// whose origin is opaque, which is the same site as no other URL.
#[derive(Clone, Debug)]
pub struct WebUrl {
    pub text: String,
    pub scheme: String,
    pub host: Option<String>,
    pub port: Option<u16>,
    pub path: String,
    pub origin: Option<Origin>,
}

/// What the URL parser gives for `input`, taken as an absolute URL or
/// relative to the serialized base URL: the serialization of the result, or
/// `None` where `input` is not a valid URL.
pub uninterp spec fn url_parse(base: Option<Seq<char>>, input: Seq<char>) -> Option<Seq<char>>;

/// `scheme` is the scheme of the serialized URL `text`: the characters
/// before its first `:`.
pub open spec fn is_scheme_of(scheme: Seq<char>, text: Seq<char>) -> bool {
    &&& scheme.len() < text.len()
    &&& text.subrange(0, scheme.len() as int) == scheme
    &&& text[scheme.len() as int] == ':'
    &&& forall|i: int| 0 <= i < scheme.len() ==> scheme[i] != ':'
}

/// The serialized URL `text` is an http or https URL.
pub open spec fn is_web_text(text: Seq<char>) -> bool {
    "http:"@.is_prefix_of(text) || "https:"@.is_prefix_of(text)
}

/// A URL's scheme is http or https exactly when its text starts so.
pub proof fn lemma_web_scheme(scheme: Seq<char>, text: Seq<char>)
    requires
        is_scheme_of(scheme, text),
    ensures
        (scheme == "http"@ || scheme == "https"@) == is_web_text(text),
{
    reveal_strlit("http");
    reveal_strlit("https");
    reveal_strlit("http:");
    reveal_strlit("https:");
    let n = scheme.len() as int;
    if scheme == "http"@ {
        assert("http:"@ =~= text.subrange(0, 5));
    }
    if scheme == "https"@ {
        assert("https:"@ =~= text.subrange(0, 6));
    }
    if "http:"@.is_prefix_of(text) {
        assert(text.subrange(0, 5) == "http:"@);
        assert("http:"@ =~= seq!['h', 't', 't', 'p', ':']);
        assert(forall|i: int| 0 <= i < 5 ==> text[i] == #[trigger] text.subrange(0, 5)[i]);
        assert(text[0] == 'h' && text[1] == 't' && text[2] == 't' && text[3] == 'p' && text[4] == ':');
        if n < 4 {
            assert(text[n] == text.subrange(0, 5)[n]);
        } else if n > 4 {
            assert(scheme[4] == text.subrange(0, n)[4]);
        }
        assert(n == 4);
        assert(scheme =~= "http"@);
    }
    if "https:"@.is_prefix_of(text) {
        assert(text.subrange(0, 6) == "https:"@);
        assert("https:"@ =~= seq!['h', 't', 't', 'p', 's', ':']);
        assert(forall|i: int| 0 <= i < 6 ==> text[i] == #[trigger] text.subrange(0, 6)[i]);
        assert(text[0] == 'h' && text[1] == 't' && text[2] == 't' && text[3] == 'p' && text[4] == 's' && text[5] == ':');
        if n < 5 {
            assert(text[n] == text.subrange(0, 6)[n]);
        } else if n > 5 {
            assert(scheme[5] == text.subrange(0, n)[5]);
        }
        assert(n == 5);
        assert(scheme =~= "https"@);
    }
}

pub open spec fn text_of(s: Option<&String>) -> Option<Seq<char>> {
    match s {
        Some(t) => Some(t@),
        None => None,
    }
}

/// Relies on `url::ParseOptions::parse` (with the base, where one is given,
/// read back from its serialization by `url::Url::parse`): the result is a
/// function of the two texts, and its parts are read with the `url::Url`
/// accessors; the scheme is the part of the serialization before its `:`.
#[verifier::external_body]
fn parse_with_base(base: Option<&String>, input: &str) -> (r: Option<WebUrl>)
    ensures
        match r {
            Some(u) => url_parse(text_of(base), input@) == Some(u.text@) && is_scheme_of(u.scheme@, u.text@),
            None => url_parse(text_of(base), input@) is None,
        },
{
    let base = match base {
        Some(b) => url::Url::parse(b).ok(),
        None => None,
    };
    let u = url::Url::options().base_url(base.as_ref()).parse(input).ok()?;
    let origin = match u.origin() {
        url::Origin::Tuple(scheme, host, port) => Some(Origin { scheme, host: host.to_string(), port }),
        url::Origin::Opaque(_) => None,
    };
    let (text, scheme, path) = (u.as_str().to_string(), u.scheme().to_string(), u.path().to_string());
    Some(WebUrl { text, scheme, host: u.host_str().map(|h| h.to_string()), port: u.port(), path, origin })
}

impl WebUrl {
    /// A copy of this URL.
    pub fn duplicate(&self) -> (r: WebUrl)
        ensures
            r == *self,
    {
        let host = match &self.host {
            Some(h) => Some(h.clone()),
            None => None,
        };
        let origin = match &self.origin {
            Some(o) => Some(o.duplicate()),
            None => None,
        };
        WebUrl {
            text: self.text.clone(),
            scheme: self.scheme.clone(),
            host,
            port: self.port,
            path: self.path.clone(),
            origin,
        }
    }

    /// Parses an absolute URL; `None` where `input` is not one.
    pub fn parse(input: &str) -> (r: Option<WebUrl>)
        ensures
            match r {
                Some(u) => url_parse(None, input@) == Some(u.text@) && is_scheme_of(u.scheme@, u.text@),
                None => url_parse(None, input@) is None,
            },
    {
        parse_with_base(None, input)
    }

    /// Resolves `reference` against this URL, as a link found in the page at
    /// this address is resolved; `None` where it is no valid URL.
    pub fn join(&self, reference: &str) -> (r: Option<WebUrl>)
        ensures
            match r {
                Some(u) => url_parse(Some(self.text@), reference@) == Some(u.text@) && is_scheme_of(
                    u.scheme@,
                    u.text@,
                ),
                None => url_parse(Some(self.text@), reference@) is None,
            },
    {
        parse_with_base(Some(&self.text), reference)
    }

    /// Whether the two URLs belong to one site: both origins are tuples, and
    /// the tuples are equal.
    pub open spec fn same_origin_spec(&self, other: &WebUrl) -> bool {
        match (self.origin, other.origin) {
            (Some(a), Some(b)) => a.key() == b.key(),
            _ => false,
        }
    }

    pub fn same_origin(&self, other: &WebUrl) -> (r: bool)
        ensures
            r == self.same_origin_spec(other),
    {
        match (&self.origin, &other.origin) {
            (Some(a), Some(b)) => a.same_as(b),
            _ => false,
        }
    }

    /// The schemes whose pages the crawler follows.
    pub open spec fn is_web_spec(&self) -> bool {
        self.scheme@ == "http"@ || self.scheme@ == "https"@
    }

    pub fn is_web(&self) -> (r: bool)
        ensures
            r == self.is_web_spec(),
    {
        proof {
            reveal_strlit("http");
            reveal_strlit("https");
        }
        same_text(self.scheme.as_str(), "http") || same_text(self.scheme.as_str(), "https")
    }
}

} // verus!
