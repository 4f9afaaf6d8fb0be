use vstd::prelude::*;
use vstd::utf8::{decode_utf8, encode_utf8, valid_utf8};
use crate::error::{PErrV, ProtocolError};
use crate::json::{jbytes, json_to_bytes, JVal, JsonValue};
use crate::sanitize::{sanitize_jval, sanitize_json};
use crate::uri::find_first;

verus! {

/// Mathematical model of an in-memory body.
#[verifier::ext_equal]
pub enum BodyV {
    Empty,
    Json(JVal),
    Bytes(Seq<u8>),
    Text(Seq<char>),
}

/// A body whose contents are fully materialized: cloneable and recordable.
/// `Bytes` and `Text` carry different intent and never compare equal, even
/// when they spell the same octets.
#[derive(Debug)]
pub enum InMemoryBody {
    Empty,
    Json(JsonValue),
    Bytes(Vec<u8>),
    Text(String),
}

impl View for InMemoryBody {
    type V = BodyV;

    open spec fn view(&self) -> BodyV {
        match self {
            InMemoryBody::Empty => BodyV::Empty,
            InMemoryBody::Json(v) => BodyV::Json(v@),
            InMemoryBody::Bytes(b) => BodyV::Bytes(b@),
            InMemoryBody::Text(t) => BodyV::Text(t@),
        }
    }
}

impl Default for InMemoryBody {
    fn default() -> (r: Self)
        ensures
            r@ == BodyV::Empty,
    {
        InMemoryBody::Empty
    }
}

impl Clone for InMemoryBody {
    fn clone(&self) -> (r: Self)
        ensures
            r@ == self@,
    {
        match self {
            InMemoryBody::Empty => InMemoryBody::Empty,
            InMemoryBody::Json(v) => InMemoryBody::Json(v.clone()),
            InMemoryBody::Bytes(b) => InMemoryBody::Bytes(b.clone()),
            InMemoryBody::Text(t) => InMemoryBody::Text(t.clone()),
        }
    }
}

fn vec_u8_eq(a: &Vec<u8>, b: &Vec<u8>) -> (r: bool)
    ensures
        r == (a@ == b@),
{
    if a.len() != b.len() {
        return false;
    }
    let n = a.len();
    let mut i: usize = 0;
    while i < n
        invariant
            i <= n,
            n == a@.len() == b@.len(),
            forall|k: int| 0 <= k < i ==> a@[k] == b@[k],
        decreases n - i,
    {
        if a[i] != b[i] {
            return false;
        }
        i = i + 1;
    }
    proof {
        assert(a@ =~= b@);
    }
    true
}

impl PartialEq for InMemoryBody {
    fn eq(&self, other: &InMemoryBody) -> (r: bool)
        ensures
            r == (self@ == other@),
    {
        match (self, other) {
            (InMemoryBody::Empty, InMemoryBody::Empty) => true,
            (InMemoryBody::Json(a), InMemoryBody::Json(b)) => a.eq(b),
            (InMemoryBody::Bytes(a), InMemoryBody::Bytes(b)) => vec_u8_eq(a, b),
            (InMemoryBody::Text(a), InMemoryBody::Text(b)) => a.eq(b),
            _ => false,
        }
    }
}

impl vstd::std_specs::cmp::PartialEqSpecImpl for InMemoryBody {
    open spec fn obeys_eq_spec() -> bool {
        true
    }

    open spec fn eq_spec(&self, other: &InMemoryBody) -> bool {
        self@ == other@
    }
}

/// The body as text, when it has one: text itself, bytes or compact JSON
/// when they decode as UTF-8, nothing for an empty body.
pub open spec fn body_text_spec(b: BodyV) -> Option<Seq<char>> {
    match b {
        BodyV::Empty => Some(Seq::empty()),
        BodyV::Text(t) => Some(t),
        BodyV::Bytes(bs) => if valid_utf8(bs) {
            Some(decode_utf8(bs))
        } else {
            None
        },
        BodyV::Json(v) => if valid_utf8(jbytes(v)) {
            Some(decode_utf8(jbytes(v)))
        } else {
            None
        },
    }
}

/// An empty body: `Empty`, or zero-length bytes or text. A JSON value, even
/// `null`, is a representable body and counts as non-empty.
pub open spec fn body_is_empty(b: BodyV) -> bool {
    match b {
        BodyV::Empty => true,
        BodyV::Bytes(s) => s.len() == 0,
        BodyV::Text(t) => t.len() == 0,
        BodyV::Json(_) => false,
    }
}

/// The octets a body contributes to the wire: text as UTF-8, JSON as its
/// compact text.
pub open spec fn body_wire_bytes(b: BodyV) -> Seq<u8> {
    match b {
        BodyV::Empty => Seq::empty(),
        BodyV::Bytes(s) => s,
        BodyV::Text(t) => encode_utf8(t),
        BodyV::Json(v) => jbytes(v),
    }
}

/// Relies on `String::from_utf8`: decodes valid UTF-8 exactly as
/// `vstd::utf8::decode_utf8` describes, and hands the bytes back unchanged
/// when they are not valid UTF-8.
#[verifier::external_body]
pub(crate) fn utf8_decode(b: Vec<u8>) -> (r: Result<String, Vec<u8>>)
    ensures
        match r {
            Ok(s) => valid_utf8(b@) && s@ == decode_utf8(b@),
            Err(v) => !valid_utf8(b@) && v@ == b@,
        },
{
    match String::from_utf8(b) {
        Ok(s) => Ok(s),
        Err(e) => Err(e.into_bytes()),
    }
}

impl InMemoryBody {
    /// True for `Empty` and for zero-length bytes or text.
    pub fn is_empty(&self) -> (r: bool)
        ensures
            r == body_is_empty(self@),
    {
        match self {
            InMemoryBody::Empty => true,
            InMemoryBody::Bytes(b) => b.len() == 0,
            InMemoryBody::Text(t) => t.as_str().is_empty(),
            InMemoryBody::Json(_) => false,
        }
    }

    /// The body's text, leaving the body in place.
    pub fn text(&self) -> (r: Result<String, ProtocolError>)
        ensures
            match r {
                Ok(s) => body_text_spec(self@) == Some(s@),
                Err(e) => body_text_spec(self@) is None && e@ == PErrV::Utf8,
            },
    {
        self.clone().into_text()
    }

    /// The body as text. Bytes must be valid UTF-8; JSON becomes its compact
    /// text.
    pub fn into_text(self) -> (r: Result<String, ProtocolError>)
        ensures
            match r {
                Ok(s) => body_text_spec(self@) == Some(s@),
                Err(e) => body_text_spec(self@) is None && e@ == PErrV::Utf8,
            },
    {
        match self {
            InMemoryBody::Empty => Ok(String::new()),
            InMemoryBody::Text(t) => Ok(t),
            InMemoryBody::Bytes(b) => match utf8_decode(b) {
                Ok(s) => Ok(s),
                Err(_) => Err(ProtocolError::Utf8Error),
            },
            InMemoryBody::Json(v) => {
                let bytes = json_to_bytes(&v);
                match utf8_decode(bytes) {
                    Ok(s) => Ok(s),
                    Err(_) => Err(ProtocolError::Utf8Error),
                }
            },
        }
    }

    /// The JSON document a body holds, for bodies already materialized as
    /// JSON.
    pub fn json(self) -> (r: Result<JsonValue, ProtocolError>)
        ensures
            match r {
                Ok(v) => self@ matches BodyV::Json(jv) && v@ == jv,
                Err(e) => !(self@ is Json) && e@ is Json,
            },
    {
        match self {
            InMemoryBody::Json(v) => Ok(v),
            _ => Err(ProtocolError::JsonError(String::from_str("not a json body"))),
        }
    }

    /// The body's octets, as sent on the wire.
    pub fn bytes(&self) -> (r: Vec<u8>)
        ensures
            r@ == body_wire_bytes(self@),
    {
        match self {
            InMemoryBody::Empty => Vec::new(),
            InMemoryBody::Bytes(b) => b.clone(),
            InMemoryBody::Text(t) => t.as_str().as_bytes_vec(),
            InMemoryBody::Json(v) => json_to_bytes(v),
        }
    }

    /// Replace the values of sensitive keys when the body is JSON.
    pub fn sanitize(&mut self)
        ensures
            final(self)@ == (match old(self)@ {
                BodyV::Json(v) => BodyV::Json(sanitize_jval(v)),
                b => b,
            }),
    {
        match self {
            InMemoryBody::Json(v) => {
                let sv = sanitize_json(v);
                *v = sv;
            },
            _ => {},
        }
    }
}

/// The content type with any parameters stripped: the text before the first
/// `;`.
pub open spec fn ct_prefix(c: Seq<char>) -> Seq<char> {
    match find_first(c, 3) {
        Some(i) => c.take(i),
        None => c,
    }
}

pub open spec fn wants_json(ct: Option<Seq<char>>) -> bool {
    match ct {
        Some(c) => ct_prefix(c) == "application/json"@,
        None => false,
    }
}

pub open spec fn wants_octets(ct: Option<Seq<char>>) -> bool {
    match ct {
        Some(c) => ct_prefix(c) == "application/octet-stream"@,
        None => false,
    }
}

/// How a payload materializes when the content type does not call for JSON:
/// `application/octet-stream` stays bytes; an empty payload is `Empty`; valid
/// UTF-8 becomes text, anything else bytes.
pub open spec fn materialize_plain_spec(bytes: Seq<u8>, ct: Option<Seq<char>>) -> BodyV {
    if wants_octets(ct) {
        BodyV::Bytes(bytes)
    } else if bytes.len() == 0 {
        BodyV::Empty
    } else if valid_utf8(bytes) {
        BodyV::Text(decode_utf8(bytes))
    } else {
        BodyV::Bytes(bytes)
    }
}

pub open spec fn opt_chars(ct: Option<&str>) -> Option<Seq<char>> {
    match ct {
        Some(c) => Some(c@),
        None => None,
    }
}

/// Whether a payload with this content type must be parsed as JSON before it
/// can materialize.
pub fn content_wants_json(ct: Option<&str>) -> (r: bool)
    ensures
        r == wants_json(opt_chars(ct)),
{
    let c = match ct {
        Some(c) => c,
        None => {
            return false;
        },
    };
    let n = c.unicode_len();
    let end = match crate::uri::scan(c, 0, 3) {
        Some(i) => {
            proof {
                crate::uri::lemma_find_first_is(c@, 3, i as int);
            }
            i
        },
        None => {
            proof {
                crate::uri::lemma_find_first_none(c@, 3);
            }
            n
        },
    };
    let prefix = crate::uri::substr(c, 0, end);
    proof {
        assert(prefix@ =~= ct_prefix(c@));
    }
    crate::sanitize::str_eq(prefix.as_str(), "application/json")
}

/// Materialize a payload whose content type does not call for JSON.
pub fn materialize_plain(bytes: Vec<u8>, ct: Option<&str>) -> (r: InMemoryBody)
    requires
        !wants_json(opt_chars(ct)),
    ensures
        r@ == materialize_plain_spec(bytes@, opt_chars(ct)),
{
    let octets = match ct {
        Some(c) => {
            let n = c.unicode_len();
            let end = match crate::uri::scan(c, 0, 3) {
                Some(i) => {
                    proof {
                        crate::uri::lemma_find_first_is(c@, 3, i as int);
                    }
                    i
                },
                None => {
                    proof {
                        crate::uri::lemma_find_first_none(c@, 3);
                    }
                    n
                },
            };
            let prefix = crate::uri::substr(c, 0, end);
            proof {
                assert(prefix@ =~= ct_prefix(c@));
            }
            crate::sanitize::str_eq(prefix.as_str(), "application/octet-stream")
        },
        None => false,
    };
    if octets {
        return InMemoryBody::Bytes(bytes);
    }
    if bytes.len() == 0 {
        return InMemoryBody::Empty;
    }
    match utf8_decode(bytes) {
        Ok(s) => InMemoryBody::Text(s),
        Err(b) => InMemoryBody::Bytes(b),
    }
}

pub open spec fn opt_jval(p: Option<JsonValue>) -> Option<JVal> {
    match p {
        Some(v) => Some(v@),
        None => None,
    }
}

/// Wrap the outcome of an outside JSON parse of an `application/json`
/// payload: a parsed document materializes as `Json`, a parse failure is a
/// JSON protocol error.
pub fn materialized_json(parsed: Option<JsonValue>) -> (r: Result<InMemoryBody, ProtocolError>)
    ensures
        match r {
            Ok(b) => parsed matches Some(v) && b@ == BodyV::Json(v@),
            Err(e) => parsed is None && e@ == PErrV::Json("invalid json payload"@),
        },
{
    match parsed {
        Some(v) => Ok(InMemoryBody::Json(v)),
        None => Err(ProtocolError::JsonError(String::from_str("invalid json payload"))),
    }
}

/// Mathematical model of a dual body.
pub enum BodyWV {
    InMem(BodyV),
    Stream(Seq<u8>),
}

/// A payload the transport yielded, read to completion but not yet
/// interpreted.
#[derive(Debug)]
pub struct StreamBody {
    pub bytes: Vec<u8>,
}

/// A body is either fully in memory — cloneable, recordable, replayable — or
/// a transport payload that is consumed once when it is materialized.
#[derive(Debug)]
pub enum Body {
    InMemory(InMemoryBody),
    Streaming(StreamBody),
}

impl View for Body {
    type V = BodyWV;

    open spec fn view(&self) -> BodyWV {
        match self {
            Body::InMemory(m) => BodyWV::InMem(m@),
            Body::Streaming(s) => BodyWV::Stream(s.bytes@),
        }
    }
}

impl Body {
    pub fn is_empty(&self) -> (r: bool)
        ensures
            r == (match self@ {
                BodyWV::InMem(m) => body_is_empty(m),
                BodyWV::Stream(s) => s.len() == 0,
            }),
    {
        match self {
            Body::InMemory(m) => m.is_empty(),
            Body::Streaming(s) => s.bytes.len() == 0,
        }
    }

    /// Read the body to completion without interpreting it: a stream becomes
    /// raw bytes, an in-memory body is returned unchanged.
    pub fn into_memory(self) -> (r: InMemoryBody)
        ensures
            r@ == (match self@ {
                BodyWV::InMem(m) => m,
                BodyWV::Stream(s) => BodyV::Bytes(s),
            }),
    {
        match self {
            Body::InMemory(m) => m,
            Body::Streaming(s) => InMemoryBody::Bytes(s.bytes),
        }
    }

    /// Materialize by content type. A body already in memory is returned
    /// unchanged, whatever the content type: materialization is idempotent.
    /// `parsed_json` is the outcome of the outside JSON parse of the payload,
    /// consulted only for a streaming `application/json` payload.
    pub fn into_content_type(self, ct: Option<&str>, parsed_json: Option<JsonValue>) -> (r:
        Result<InMemoryBody, ProtocolError>)
        ensures
            match r {
                Ok(b) => materialize_spec_of(self@, opt_chars(ct), opt_jval(parsed_json))
                    == Ok::<BodyV, PErrV>(b@),
                Err(e) => materialize_spec_of(self@, opt_chars(ct), opt_jval(parsed_json))
                    == Err::<BodyV, PErrV>(e@),
            },
    {
        let ghost sv = self@;
        match self {
            Body::InMemory(m) => {
                proof {
                    assert(sv == BodyWV::InMem(m@));
                    assert(materialize_spec_of(sv, opt_chars(ct), opt_jval(parsed_json))
                        == Ok::<BodyV, PErrV>(m@));
                }
                Ok(m)
            },
            Body::Streaming(s) => {
                let ghost pj = opt_jval(parsed_json);
                if content_wants_json(ct) {
                    let r = materialized_json(parsed_json);
                    proof {
                        assert(match r {
                            Ok(b) => materialize_spec_of(sv, opt_chars(ct), pj)
                                == Ok::<BodyV, PErrV>(b@),
                            Err(e) => materialize_spec_of(sv, opt_chars(ct), pj)
                                == Err::<BodyV, PErrV>(e@),
                        });
                    }
                    r
                } else {
                    let b = materialize_plain(s.bytes, ct);
                    proof {
                        assert(materialize_spec_of(sv, opt_chars(ct), pj)
                            == Ok::<BodyV, PErrV>(b@));
                    }
                    Ok(b)
                }
            },
        }
    }
}

impl From<InMemoryBody> for Body {
    fn from(m: InMemoryBody) -> (r: Body)
        ensures
            r@ == BodyWV::InMem(m@),
    {
        Body::InMemory(m)
    }
}

impl vstd::std_specs::convert::FromSpecImpl<InMemoryBody> for Body {
    open spec fn obeys_from_spec() -> bool {
        true
    }

    open spec fn from_spec(m: InMemoryBody) -> Body {
        Body::InMemory(m)
    }
}

/// Re-applying content-type materialization to an already materialized body
/// returns it unchanged, whatever the content type.
pub proof fn lemma_materialize_idempotent(m: BodyV, ct: Option<Seq<char>>, parsed: Option<JVal>)
    ensures
        materialize_spec_of(BodyWV::InMem(m), ct, parsed) == Ok::<BodyV, PErrV>(m),
{
}

/// What `into_content_type` computes, stated over the models.
pub open spec fn materialize_spec_of(
    b: BodyWV,
    ct: Option<Seq<char>>,
    parsed: Option<JVal>,
) -> Result<BodyV, PErrV> {
    match b {
        BodyWV::InMem(m) => Ok(m),
        BodyWV::Stream(s) => {
            if wants_json(ct) {
                match parsed {
                    Some(v) => Ok(BodyV::Json(v)),
                    None => Err(PErrV::Json("invalid json payload"@)),
                }
            } else {
                Ok(materialize_plain_spec(s, ct))
            }
        },
    }
}

} // verus!
