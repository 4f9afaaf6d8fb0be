use vstd::prelude::*;
use vstd::utf8::{decode_utf8, valid_utf8};
use crate::body::{utf8_decode, BodyV, InMemoryBody};
use crate::error::{Error, ProtocolError};
use crate::http::{
    h_get, sanitize_headers_spec, sanitize_headers, wf_headers, Headers, Version, lower_chars,
    is_client_error, is_server_error,
};
use crate::json::JsonValue;
use crate::sanitize::sanitize_jval;

verus! {

/// Mathematical model of an in-memory response.
#[verifier::ext_equal]
pub struct RespV {
    pub status: u16,
    pub version: Version,
    pub headers: Seq<(Seq<char>, Seq<char>)>,
    pub body: BodyV,
}

/// A response whose body is fully in memory.
#[derive(Debug)]
pub struct InMemoryResponse {
    pub status: u16,
    pub version: Version,
    pub headers: Headers,
    pub body: InMemoryBody,
}

impl View for InMemoryResponse {
    type V = RespV;

    open spec fn view(&self) -> RespV {
        RespV {
            status: self.status,
            version: self.version,
            headers: self.headers@,
            body: self.body@,
        }
    }
}

pub open spec fn wf_resp(r: RespV) -> bool {
    wf_headers(r.headers) && 100 <= r.status < 1000
}

impl Clone for InMemoryResponse {
    fn clone(&self) -> (r: Self)
        ensures
            r@ == self@,
    {
        InMemoryResponse {
            status: self.status,
            version: self.version,
            headers: self.headers.clone(),
            body: self.body.clone(),
        }
    }
}

/// The sanitized form of a response: sensitive header values and sensitive
/// JSON body keys replaced by the token. This is what the recorder persists.
pub open spec fn sanitize_resp(r: RespV) -> RespV {
    RespV {
        status: r.status,
        version: r.version,
        headers: sanitize_headers_spec(r.headers),
        body: match r.body {
            BodyV::Json(v) => BodyV::Json(sanitize_jval(v)),
            b => b,
        },
    }
}

pub fn sanitize_response(r: &mut InMemoryResponse)
    ensures
        final(r)@ == sanitize_resp(old(r)@),
{
    sanitize_headers(&mut r.headers);
    r.body.sanitize();
    proof {
        assert(r@ =~= sanitize_resp(old(r)@));
    }
}

/// How a raw-bytes body is promoted before a response surfaces to the user:
/// bytes that are valid UTF-8 become text, so error logs never show opaque
/// octets.
pub open spec fn promote_body(b: BodyV) -> BodyV {
    match b {
        BodyV::Bytes(bs) => if valid_utf8(bs) {
            BodyV::Text(decode_utf8(bs))
        } else {
            BodyV::Bytes(bs)
        },
        other => other,
    }
}

impl InMemoryResponse {
    pub fn new(status: u16, version: Version, headers: Headers, body: InMemoryBody) -> (r:
        InMemoryResponse)
        ensures
            r@ == (RespV { status, version, headers: headers@, body: body@ }),
    {
        InMemoryResponse { status, version, headers, body }
    }

    /// Surface a 4xx or 5xx exchange as an error, any other as itself.
    pub fn error_for_status(self) -> (r: Result<InMemoryResponse, Error<InMemoryResponse>>)
        ensures
            match r {
                Ok(res) => res@ == self@ && !is_client_error(self@.status) && !is_server_error(
                    self@.status,
                ),
                Err(e) => e matches Error::HttpError(res) && res@ == self@ && (is_client_error(
                    self@.status,
                ) || is_server_error(self@.status)),
            },
    {
        if crate::http::status_is_error(self.status) {
            Err(Error::HttpError(self))
        } else {
            Ok(self)
        }
    }

    /// The response body as text.
    pub fn text(self) -> (r: Result<String, ProtocolError>)
        ensures
            match r {
                Ok(s) => crate::body::body_text_spec(self@.body) == Some(s@),
                Err(e) => crate::body::body_text_spec(self@.body) is None && e@ is Utf8,
            },
    {
        self.body.into_text()
    }

    /// The response body as a JSON document.
    pub fn json(self) -> (r: Result<JsonValue, ProtocolError>)
        ensures
            match r {
                Ok(v) => self@.body matches BodyV::Json(jv) && v@ == jv,
                Err(e) => !(self@.body is Json) && e@ is Json,
            },
    {
        self.body.json()
    }

    /// The response body's octets.
    pub fn bytes(&self) -> (r: Vec<u8>)
        ensures
            r@ == crate::body::body_wire_bytes(self@.body),
    {
        self.body.bytes()
    }

    /// The named cookie from the `set-cookie` header, if present.
    pub fn get_cookie(&self, name: &str) -> (r: Option<String>)
        ensures
            match h_get(self@.headers, lower_chars("set-cookie"@)) {
                Some(v) => match r {
                    Some(cv) => h_get(cookies_of(v), name@) == Some(cv@),
                    None => h_get(cookies_of(v), name@) is None,
                },
                None => r is None,
            },
    {
        let header = match self.headers.get("set-cookie") {
            Some(h) => h,
            None => {
                return None;
            },
        };
        let pairs = parse_cookie_pairs(header.as_str());
        let n = pairs.len();
        let mut i: usize = 0;
        while i < n
            invariant
                i <= n,
                n == pairs@.len(),
                cookies_of(header@) == pairs@.map_values(
                    |p: (String, String)| (p.0@, p.1@),
                ),
                forall|k: int| 0 <= k < i ==> (#[trigger] pairs@[k].0@) != name@,
            decreases n - i,
        {
            if crate::sanitize::str_eq(pairs[i].0.as_str(), name) {
                proof {
                    crate::http::lemma_h_get_at(cookies_of(header@), name@, i as int);
                }
                return Some(pairs[i].1.clone());
            }
            i = i + 1;
        }
        proof {
            crate::http::lemma_h_get_none(cookies_of(header@), name@);
        }
        None
    }

    /// Promote a raw-bytes body to text when it is valid UTF-8, then surface
    /// a 4xx or 5xx status as an `HttpError` carrying the response. This is
    /// what awaiting a request builder does with the exchanged response.
    pub fn into_result(self) -> (r: Result<InMemoryResponse, Error<InMemoryResponse>>)
        ensures
            match r {
                Ok(res) => res@ == (RespV { body: promote_body(self@.body), ..self@ })
                    && !is_client_error(self@.status) && !is_server_error(self@.status),
                Err(e) => e matches Error::HttpError(res) && res@ == (RespV {
                    body: promote_body(self@.body),
                    ..self@
                }) && (is_client_error(self@.status) || is_server_error(self@.status)),
            },
    {
        let InMemoryResponse { status, version, headers, body } = self;
        let body = match body {
            InMemoryBody::Bytes(bs) => match utf8_decode(bs) {
                Ok(t) => InMemoryBody::Text(t),
                Err(bs) => InMemoryBody::Bytes(bs),
            },
            other => other,
        };
        let res = InMemoryResponse { status, version, headers, body };
        if crate::http::status_is_error(status) {
            Err(Error::HttpError(res))
        } else {
            Ok(res)
        }
    }
}

/// The cookie pairs spelled by a `set-cookie` value, in order.
pub uninterp spec fn cookies_of(s: Seq<char>) -> Seq<(Seq<char>, Seq<char>)>;

/// Relies on `cookie::Cookie::split_parse_encoded`: the cookies parsed from
/// a header value are a function of the text alone; unparsable list items
/// are skipped.
#[verifier::external_body]
fn parse_cookie_pairs(s: &str) -> (r: Vec<(String, String)>)
    ensures
        r@.map_values(|p: (String, String)| (p.0@, p.1@)) == cookies_of(s@),
{
    cookie::Cookie::split_parse_encoded(s)
        .filter_map(|c| c.ok())
        .map(|c| (c.name().to_string(), c.value().to_string()))
        .collect()
}

} // verus!
