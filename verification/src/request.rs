use vstd::prelude::*;
use vstd::utf8::encode_utf8;
use crate::body::{BodyV, InMemoryBody};
use crate::http::{
    h_get, h_contains, sanitize_headers_spec, sanitize_headers, wf_headers, Headers, Method,
    Version, lower_chars,
};
use crate::sanitize::{is_sensitive, sanitize_jval, token_chars};
use crate::uri::{find_first, wf_uri, Uri, UriV};

verus! {

/// Mathematical model of an in-memory request.
#[verifier::ext_equal]
pub struct ReqV {
    pub method: Method,
    pub uri: UriV,
    pub version: Version,
    pub headers: Seq<(Seq<char>, Seq<char>)>,
    pub body: BodyV,
}

/// A request whose body is fully in memory, so it can be cloned for retries,
/// fingerprinted, and recorded.
#[derive(Debug)]
pub struct InMemoryRequest {
    pub method: Method,
    pub uri: Uri,
    pub version: Version,
    pub headers: Headers,
    pub body: InMemoryBody,
}

impl View for InMemoryRequest {
    type V = ReqV;

    open spec fn view(&self) -> ReqV {
        ReqV {
            method: self.method,
            uri: self.uri@,
            version: self.version,
            headers: self.headers@,
            body: self.body@,
        }
    }
}

pub open spec fn wf_req(r: ReqV) -> bool {
    wf_uri(r.uri) && wf_headers(r.headers)
}

impl Clone for InMemoryRequest {
    fn clone(&self) -> (r: Self)
        ensures
            r@ == self@,
    {
        InMemoryRequest {
            method: self.method,
            uri: self.uri.clone(),
            version: self.version,
            headers: self.headers.clone(),
            body: self.body.clone(),
        }
    }
}

/// The fingerprint equality the recorder looks requests up by: method, URI
/// (query included) and body. Headers and HTTP version are deliberately
/// excluded, so a sanitized recording still matches the live request.
pub open spec fn fingerprint_eq(a: ReqV, b: ReqV) -> bool {
    a.method == b.method && a.uri == b.uri && a.body == b.body
}

impl InMemoryRequest {
    /// Decide fingerprint equality with another request.
    pub fn fingerprint_matches(&self, other: &InMemoryRequest) -> (r: bool)
        ensures
            r == fingerprint_eq(self@, other@),
    {
        if !(self.method == other.method) {
            return false;
        }
        let ue = match (&self.uri.scheme, &other.uri.scheme) {
            (Some(a), Some(b)) => a.eq(b),
            (None, None) => true,
            _ => false,
        } && match (&self.uri.authority, &other.uri.authority) {
            (Some(a), Some(b)) => a.eq(b),
            (None, None) => true,
            _ => false,
        } && self.uri.path.eq(&other.uri.path) && match (&self.uri.query, &other.uri.query) {
            (Some(a), Some(b)) => a.eq(b),
            (None, None) => true,
            _ => false,
        };
        if !ue {
            return false;
        }
        proof {
            assert(self@.uri =~= other@.uri);
        }
        self.body.eq(&other.body)
    }
}

/// The host part of the request URI: the authority up to any `:port`.
pub open spec fn host_of(u: UriV) -> Seq<char> {
    match u.authority {
        Some(a) => match find_first(a, 4) {
            Some(i) => a.take(i),
            None => a,
        },
        None => Seq::empty(),
    }
}

/// Read-only accessors on a request, as the middlewares use them.
pub trait RequestExt {
    fn host(&self) -> String;

    fn path(&self) -> &String;

    fn url(&self) -> &Uri;

    fn header(&self, name: &str) -> Option<&String>;
}

impl RequestExt for InMemoryRequest {
    /// The host of the request URI, or empty when the URI is relative.
    fn host(&self) -> (r: String)
        ensures
            r@ == host_of(self@.uri),
    {
        match &self.uri.authority {
            Some(a) => {
                let astr = a.as_str();
                let n = astr.unicode_len();
                match crate::uri::scan(astr, 0, 4) {
                    Some(i) => {
                        proof {
                            crate::uri::lemma_find_first_is(astr@, 4, i as int);
                        }
                        crate::uri::substr(astr, 0, i)
                    },
                    None => {
                        proof {
                            crate::uri::lemma_find_first_none(astr@, 4);
                        }
                        a.clone()
                    },
                }
            },
            None => String::new(),
        }
    }

    fn path(&self) -> (r: &String)
        ensures
            r@ == self@.uri.path,
    {
        &self.uri.path
    }

    fn url(&self) -> (r: &Uri)
        ensures
            r@ == self@.uri,
    {
        &self.uri
    }

    fn header(&self, name: &str) -> (r: Option<&String>)
        ensures
            match r {
                Some(v) => h_get(self@.headers, lower_chars(name@)) == Some(v@),
                None => h_get(self@.headers, lower_chars(name@)) is None,
            },
    {
        self.headers.get(name)
    }
}

/// The sanitized form of a request: header values under sensitive names and
/// the values of sensitive JSON body keys are replaced by the token.
pub open spec fn sanitize_req(r: ReqV) -> ReqV {
    ReqV {
        method: r.method,
        uri: r.uri,
        version: r.version,
        headers: sanitize_headers_spec(r.headers),
        body: match r.body {
            BodyV::Json(v) => BodyV::Json(sanitize_jval(v)),
            b => b,
        },
    }
}

/// Replace sensitive header values and sensitive JSON body keys.
pub fn sanitize_request(r: &mut InMemoryRequest)
    ensures
        final(r)@ == sanitize_req(old(r)@),
{
    sanitize_headers(&mut r.headers);
    r.body.sanitize();
    proof {
        assert(r@ =~= sanitize_req(old(r)@));
    }
}

/// Sanitization never changes the method, the URI, or a non-JSON body, so
/// the fingerprint of such a request is untouched. For a JSON body the
/// fingerprint survives exactly when no key in the document is sensitive;
/// the premise states that the document is unchanged by sanitization.
pub proof fn lemma_fingerprint_sanitize(r: ReqV)
    requires
        r.body matches BodyV::Json(v) ==> sanitize_jval(v) == v,
    ensures
        fingerprint_eq(sanitize_req(r), r),
{
    match r.body {
        BodyV::Json(v) => {
            assert(sanitize_req(r).body == r.body);
        },
        _ => {},
    }
}

/// The fingerprint ignores headers: requests differing only in headers (and
/// HTTP version) compare equal.
pub proof fn lemma_fingerprint_ignores_headers(
    r: ReqV,
    hs: Seq<(Seq<char>, Seq<char>)>,
    version: Version,
)
    ensures
        fingerprint_eq(ReqV { headers: hs, version, ..r }, r),
{
}

/// What a header lookup sees after sanitization: the token under a sensitive
/// name, the original value otherwise.
pub proof fn lemma_h_get_sanitized(hs: Seq<(Seq<char>, Seq<char>)>, name: Seq<char>)
    ensures
        h_get(sanitize_headers_spec(hs), name) == (match h_get(hs, name) {
            Some(v) => Some(
                if is_sensitive(encode_utf8(name)) {
                    token_chars()
                } else {
                    v
                },
            ),
            None => None::<Seq<char>>,
        }),
    decreases hs.len(),
{
    if hs.len() > 0 {
        lemma_h_get_sanitized(hs.drop_first(), name);
        assert(sanitize_headers_spec(hs).drop_first() =~= sanitize_headers_spec(
            hs.drop_first(),
        ));
        assert(sanitize_headers_spec(hs).first() == (if is_sensitive(encode_utf8(hs.first().0)) {
            (hs.first().0, token_chars())
        } else {
            hs.first()
        }));
    } else {
        assert(sanitize_headers_spec(hs).len() == 0);
    }
}

/// Any sensitive header a request carries reads back as the ten-asterisk
/// token after sanitization.
pub proof fn lemma_sanitized_header_is_token(r: ReqV, name: Seq<char>)
    requires
        is_sensitive(encode_utf8(name)),
        h_contains(r.headers, name),
    ensures
        h_get(sanitize_req(r).headers, name) == Some(token_chars()),
{
    lemma_h_get_sanitized(r.headers, name);
}

} // verus!
