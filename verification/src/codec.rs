use vstd::prelude::*;
use crate::body::{body_is_empty, BodyV, InMemoryBody};
use crate::error::ProtocolError;
use crate::http::{
    lower_chars, method_chars, parse_method, parse_method_spec, sort_pairs, Headers, Method,
    Version,
};
use crate::json::{
    jview_fields, jview_seq, lemma_jview_fields, lemma_jview_seq, lemma_obj_get_at,
    lemma_obj_get_none, obj_get, obj_get_spec, JVal, JsonValue,
};
use crate::request::{fingerprint_eq, wf_req, InMemoryRequest, ReqV};
use crate::response::{InMemoryResponse, RespV};
use crate::uri::{parse_uri, parse_uri_spec, uri_chars};

verus! {

/// The JSON member a body serializes to: text as a string, bytes as an array
/// of numbers, a JSON body as the document itself, an empty body as `null`
/// (requests omit the member instead).
pub open spec fn body_jval(b: BodyV) -> JVal {
    match b {
        BodyV::Empty => JVal::Null,
        BodyV::Json(v) => v,
        BodyV::Bytes(bs) => JVal::Arr(bs.map_values(|x: u8| JVal::Num(x as int))),
        BodyV::Text(t) => JVal::Str(t),
    }
}

fn body_to_jval(b: &InMemoryBody) -> (r: JsonValue)
    ensures
        r@ == body_jval(b@),
{
    match b {
        InMemoryBody::Empty => JsonValue::Null,
        InMemoryBody::Json(v) => v.clone(),
        InMemoryBody::Text(t) => JsonValue::Str(t.clone()),
        InMemoryBody::Bytes(bs) => {
            let n = bs.len();
            let mut out: Vec<JsonValue> = Vec::new();
            let mut i: usize = 0;
            while i < n
                invariant
                    i <= n,
                    n == bs@.len(),
                    out@.len() == i,
                    forall|k: int| 0 <= k < i ==> (#[trigger] out@[k])@
                        == JVal::Num(bs@[k] as int),
                decreases n - i,
            {
                out.push(JsonValue::Num(bs[i] as i64));
                i = i + 1;
            }
            proof {
                lemma_jview_seq(out@);
                assert(jview_seq(out@) =~= bs@.map_values(|x: u8| JVal::Num(x as int)));
            }
            JsonValue::Arr(out)
        },
    }
}

/// The header member of a recorded document: names sorted, each value a JSON
/// string.
pub open spec fn headers_doc(hs: Seq<(Seq<char>, Seq<char>)>) -> Seq<(Seq<char>, JVal)> {
    sort_pairs(hs).map_values(|p: (Seq<char>, Seq<char>)| (p.0, JVal::Str(p.1)))
}

fn headers_to_doc(h: &Headers) -> (r: Vec<(String, JsonValue)>)
    ensures
        jview_fields(r@) == headers_doc(h@),
{
    let sorted = h.to_sorted();
    let n = sorted.pairs.len();
    let mut out: Vec<(String, JsonValue)> = Vec::new();
    let mut i: usize = 0;
    while i < n
        invariant
            i <= n,
            n == sorted.pairs@.len(),
            out@.len() == i,
            sorted.pairs@.map_values(|p: (String, String)| (p.0@, p.1@)) == sort_pairs(h@),
            forall|k: int| 0 <= k < i ==> (#[trigger] out@[k].0@) == sorted.pairs@[k].0@
                && out@[k].1@ == JVal::Str(sorted.pairs@[k].1@),
        decreases n - i,
    {
        let p = &sorted.pairs[i];
        out.push((p.0.clone(), JsonValue::Str(p.1.clone())));
        i = i + 1;
    }
    proof {
        lemma_jview_fields(out@);
        assert(jview_fields(out@) =~= headers_doc(h@));
    }
    out
}

/// A request as a recorded JSON document: method, absolute URL, headers
/// sorted by name, and the body member unless the body is empty.
pub open spec fn serialize_request_spec(r: ReqV) -> JVal {
    let base = seq![
        ("method"@, JVal::Str(method_chars(r.method))),
        ("url"@, JVal::Str(uri_chars(r.uri))),
        ("headers"@, JVal::Obj(headers_doc(r.headers))),
    ];
    if body_is_empty(r.body) {
        JVal::Obj(base)
    } else {
        JVal::Obj(base.push(("body"@, body_jval(r.body))))
    }
}

/// Serialize a request to its recorded document.
pub fn serialize_request(r: &InMemoryRequest) -> (d: JsonValue)
    ensures
        d@ == serialize_request_spec(r@),
{
    let mut fields: Vec<(String, JsonValue)> = Vec::new();
    fields.push(
        (String::from_str("method"), JsonValue::Str(String::from_str(r.method.as_str()))),
    );
    fields.push((String::from_str("url"), JsonValue::Str(r.uri.to_string())));
    fields.push((String::from_str("headers"), JsonValue::Obj(headers_to_doc(&r.headers))));
    if !r.body.is_empty() {
        fields.push((String::from_str("body"), body_to_jval(&r.body)));
    }
    proof {
        lemma_jview_fields(fields@);
        if body_is_empty(r@.body) {
            assert(jview_fields(fields@) =~= seq![
                ("method"@, JVal::Str(method_chars(r@.method))),
                ("url"@, JVal::Str(uri_chars(r@.uri))),
                ("headers"@, JVal::Obj(headers_doc(r@.headers))),
            ]);
        } else {
            assert(jview_fields(fields@) =~= seq![
                ("method"@, JVal::Str(method_chars(r@.method))),
                ("url"@, JVal::Str(uri_chars(r@.uri))),
                ("headers"@, JVal::Obj(headers_doc(r@.headers))),
            ].push(("body"@, body_jval(r@.body))));
        }
    }
    JsonValue::Obj(fields)
}

/// Reading the header member back: every value must be a string; names are
/// folded as header names always are.
pub open spec fn headers_from_doc(fields: Seq<(Seq<char>, JVal)>) -> Option<
    Seq<(Seq<char>, Seq<char>)>,
>
    decreases fields.len(),
{
    if fields.len() == 0 {
        Some(Seq::empty())
    } else {
        match fields.first().1 {
            JVal::Str(v) => match headers_from_doc(fields.drop_first()) {
                Some(rest) => Some(seq![(lower_chars(fields.first().0), v)] + rest),
                None => None,
            },
            _ => None,
        }
    }
}

/// When every header value is a string the member reads back.
pub proof fn lemma_headers_from_doc_strs(fields: Seq<(Seq<char>, JVal)>)
    requires
        forall|i: int| 0 <= i < fields.len() ==> (#[trigger] fields[i].1) is Str,
    ensures
        headers_from_doc(fields) is Some,
    decreases fields.len(),
{
    if fields.len() > 0 {
        assert(fields[0].1 is Str);
        assert forall|i: int| 0 <= i < fields.len() - 1 implies (#[trigger] fields.drop_first(
        )[i].1) is Str by {
            assert(fields.drop_first()[i] == fields[i + 1]);
        }
        lemma_headers_from_doc_strs(fields.drop_first());
    }
}

/// The parse of a recorded request document. The body member is tried as
/// `body` then `data`; whatever JSON value stands there reads back as a JSON
/// body, so a recorded byte or text body comes back as its JSON shape.
pub open spec fn deserialize_request_spec(d: JVal) -> Option<ReqV> {
    match d {
        JVal::Obj(fields) => {
            let m = obj_get_spec(fields, "method"@);
            let u = obj_get_spec(fields, "url"@);
            let h = obj_get_spec(fields, "headers"@);
            let b = match obj_get_spec(fields, "body"@) {
                Some(v) => Some(v),
                None => obj_get_spec(fields, "data"@),
            };
            match (m, u, h) {
                (Some(JVal::Str(ms)), Some(JVal::Str(us)), Some(JVal::Obj(hf))) => {
                    match (parse_method_spec(ms), parse_uri_spec(us), headers_from_doc(hf)) {
                        (Some(method), Some(uri), Some(headers)) => Some(
                            ReqV {
                                method,
                                uri,
                                version: Version::Http11,
                                headers,
                                body: match b {
                                    Some(v) => BodyV::Json(v),
                                    None => BodyV::Empty,
                                },
                            },
                        ),
                        _ => None,
                    }
                },
                _ => None,
            }
        },
        _ => None,
    }
}

fn read_headers_member(hf: &Vec<(String, JsonValue)>) -> (r: Result<Headers, ProtocolError>)
    ensures
        match r {
            Ok(h) => headers_from_doc(jview_fields(hf@)) == Some(h@),
            Err(e) => headers_from_doc(jview_fields(hf@)) is None && e@ is Json,
        },
{
    proof {
        lemma_jview_fields(hf@);
        assert(jview_fields(hf@).skip(0) =~= jview_fields(hf@));
        match headers_from_doc(jview_fields(hf@)) {
            Some(rest) => {
                assert(Seq::<(Seq<char>, Seq<char>)>::empty() + rest =~= rest);
            },
            None => {},
        }
    }
    let n = hf.len();
    let mut out = Headers::new();
    let mut i: usize = 0;
    while i < n
        invariant
            i <= n,
            n == hf@.len(),
            jview_fields(hf@).len() == n,
            forall|k: int| 0 <= k < n ==> #[trigger] jview_fields(hf@)[k]
                == (hf@[k].0@, hf@[k].1@),
            forall|k: int| 0 <= k < i ==> (#[trigger] jview_fields(hf@)[k].1) is Str,
            headers_from_doc(jview_fields(hf@).skip(i as int)) matches Some(rest) ==>
                headers_from_doc(jview_fields(hf@)) == Some(out@ + rest),
        decreases n - i,
    {
        let pair = &hf[i];
        match &pair.1 {
            JsonValue::Str(v) => {
                let ghost pre = out@;
                out.append_lowered(pair.0.as_str(), v.as_str());
                proof {
                    let hv = jview_fields(hf@);
                    assert(hv.skip(i as int).first() == hv[i as int]);
                    assert(hv.skip(i as int).drop_first() =~= hv.skip(i as int + 1));
                    match headers_from_doc(hv.skip(i as int + 1)) {
                        Some(rest) => {
                            assert(headers_from_doc(hv.skip(i as int)) == Some(
                                seq![(lower_chars(hv[i as int].0), hv[i as int].1->Str_0)]
                                    + rest,
                            ));
                            assert(pre + (seq![
                                (lower_chars(hv[i as int].0), hv[i as int].1->Str_0),
                            ] + rest) =~= out@ + rest);
                        },
                        None => {},
                    }
                }
                i = i + 1;
            },
            _ => {
                proof {
                    let hv = jview_fields(hf@);
                    assert(hv.skip(i as int).first() == hv[i as int]);
                    assert(headers_from_doc(hv.skip(i as int)) is None);
                    lemma_headers_none_prop(hv, i as int);
                }
                return Err(ProtocolError::JsonError(String::from_str("invalid header value")));
            },
        }
    }
    proof {
        let hv = jview_fields(hf@);
        assert(hv.skip(n as int).len() == 0);
        assert(headers_from_doc(hv.skip(n as int)) == Some(Seq::<(Seq<char>, Seq<char>)>::empty()));
        assert(out@ + Seq::<(Seq<char>, Seq<char>)>::empty() =~= out@);
    }
    Ok(out)
}

/// A failing suffix makes the whole member fail.
proof fn lemma_headers_none_prop(hv: Seq<(Seq<char>, JVal)>, i: int)
    requires
        0 <= i <= hv.len(),
        headers_from_doc(hv.skip(i)) is None,
    ensures
        headers_from_doc(hv) is None,
    decreases i,
{
    if i > 0 {
        assert(hv.skip(i - 1).first() == hv[i - 1]);
        assert(hv.skip(i - 1).drop_first() =~= hv.skip(i));
        lemma_headers_none_prop(hv, i - 1);
    } else {
        assert(hv.skip(0) =~= hv);
    }
}

/// Parse a recorded request document back into a request.
pub fn deserialize_request(d: &JsonValue) -> (r: Result<InMemoryRequest, ProtocolError>)
    ensures
        match r {
            Ok(req) => deserialize_request_spec(d@) == Some(req@),
            Err(_) => deserialize_request_spec(d@) is None,
        },
{
    let fields = match d {
        JsonValue::Obj(fields) => fields,
        _ => {
            return Err(ProtocolError::JsonError(String::from_str("recorded request not an object")));
        },
    };
    let method = match obj_get(fields, "method") {
        Some(mv) => match mv {
            JsonValue::Str(ms) => match parse_method(ms.as_str()) {
                Some(m) => m,
                None => {
                    return Err(ProtocolError::JsonError(String::from_str("invalid method")));
                },
            },
            _ => {
                return Err(ProtocolError::JsonError(String::from_str("invalid method")));
            },
        },
        None => {
            return Err(ProtocolError::JsonError(String::from_str("missing method")));
        },
    };
    let uri = match obj_get(fields, "url") {
        Some(uv) => match uv {
            JsonValue::Str(us) => match parse_uri(us.as_str()) {
                Some(u) => u,
                None => {
                    return Err(ProtocolError::JsonError(String::from_str("invalid url")));
                },
            },
            _ => {
                return Err(ProtocolError::JsonError(String::from_str("invalid url")));
            },
        },
        None => {
            return Err(ProtocolError::JsonError(String::from_str("missing url")));
        },
    };
    let headers = match obj_get(fields, "headers") {
        Some(hv) => match hv {
            JsonValue::Obj(hf) => match read_headers_member(hf) {
                Ok(h) => h,
                Err(e) => {
                    return Err(e);
                },
            },
            _ => {
                return Err(ProtocolError::JsonError(String::from_str("invalid headers")));
            },
        },
        None => {
            return Err(ProtocolError::JsonError(String::from_str("missing headers")));
        },
    };
    let body = match obj_get(fields, "body") {
        Some(bv) => InMemoryBody::Json(bv.clone()),
        None => match obj_get(fields, "data") {
            Some(bv) => InMemoryBody::Json(bv.clone()),
            None => InMemoryBody::Empty,
        },
    };
    Ok(InMemoryRequest { method, uri, version: Version::Http11, headers, body })
}

/// Serializing a request and reading the document back gives the same
/// request under fingerprint equality, for requests whose body is a JSON
/// document or empty (a byte or text body reads back as its JSON shape).
pub proof fn lemma_request_roundtrip(r: ReqV)
    requires
        wf_req(r),
        r.body is Json || r.body is Empty,
    ensures
        deserialize_request_spec(serialize_request_spec(r)) matches Some(r2)
            && fingerprint_eq(r2, r),
{
    reveal_strlit("method");
    reveal_strlit("url");
    reveal_strlit("headers");
    reveal_strlit("body");
    reveal_strlit("data");
    assert("method"@.len() == 6);
    assert("url"@.len() == 3);
    assert("headers"@.len() == 7);
    assert("body"@.len() == 4);
    assert("data"@.len() == 4);
    assert("body"@[0] == 'b' && "data"@[0] == 'd');
    let base = seq![
        ("method"@, JVal::Str(method_chars(r.method))),
        ("url"@, JVal::Str(uri_chars(r.uri))),
        ("headers"@, JVal::Obj(headers_doc(r.headers))),
    ];
    let fields = if body_is_empty(r.body) {
        base
    } else {
        base.push(("body"@, body_jval(r.body)))
    };
    assert(serialize_request_spec(r) == JVal::Obj(fields));
    assert(fields[0] == ("method"@, JVal::Str(method_chars(r.method))));
    assert(fields[1] == ("url"@, JVal::Str(uri_chars(r.uri))));
    assert(fields[2] == ("headers"@, JVal::Obj(headers_doc(r.headers))));
    lemma_obj_get_at(fields, "method"@, 0);
    lemma_obj_get_at(fields, "url"@, 1);
    lemma_obj_get_at(fields, "headers"@, 2);
    crate::http::lemma_method_roundtrip(r.method);
    crate::uri::lemma_uri_roundtrip(r.uri);
    assert forall|i: int| 0 <= i < headers_doc(r.headers).len() implies (#[trigger] headers_doc(
        r.headers,
    )[i].1) is Str by {
        assert(headers_doc(r.headers)[i] == (sort_pairs(r.headers)[i].0, JVal::Str(
            sort_pairs(r.headers)[i].1,
        )));
    }
    lemma_headers_from_doc_strs(headers_doc(r.headers));
    if body_is_empty(r.body) {
        lemma_obj_get_none(fields, "body"@);
        lemma_obj_get_none(fields, "data"@);
        assert(r.body == BodyV::Empty);
    } else {
        lemma_obj_get_at(fields, "body"@, 3);
        lemma_obj_get_none(fields, "data"@);
        assert(body_jval(r.body) == r.body->Json_0);
    }
}

/// A response as a recorded JSON document: status, sorted headers, and the
/// body member (always present; an empty body reads `null`).
pub open spec fn serialize_response_spec(r: RespV) -> JVal {
    JVal::Obj(
        seq![
            ("status"@, JVal::Num(r.status as int)),
            ("headers"@, JVal::Obj(headers_doc(r.headers))),
            ("body"@, body_jval(r.body)),
        ],
    )
}

pub fn serialize_response(r: &InMemoryResponse) -> (d: JsonValue)
    ensures
        d@ == serialize_response_spec(r@),
{
    let mut fields: Vec<(String, JsonValue)> = Vec::new();
    fields.push((String::from_str("status"), JsonValue::Num(r.status as i64)));
    fields.push((String::from_str("headers"), JsonValue::Obj(headers_to_doc(&r.headers))));
    fields.push((String::from_str("body"), body_to_jval(&r.body)));
    proof {
        lemma_jview_fields(fields@);
        assert(jview_fields(fields@) =~= seq![
            ("status"@, JVal::Num(r@.status as int)),
            ("headers"@, JVal::Obj(headers_doc(r@.headers))),
            ("body"@, body_jval(r@.body)),
        ]);
    }
    JsonValue::Obj(fields)
}

/// The parse of a recorded response document. The status must be a number in
/// the status-code range; the body member is required, and whatever stands
/// there reads back as a JSON body.
pub open spec fn deserialize_response_spec(d: JVal) -> Option<RespV> {
    match d {
        JVal::Obj(fields) => {
            let st = obj_get_spec(fields, "status"@);
            let h = obj_get_spec(fields, "headers"@);
            let b = match obj_get_spec(fields, "body"@) {
                Some(v) => Some(v),
                None => obj_get_spec(fields, "data"@),
            };
            match (st, h, b) {
                (Some(JVal::Num(code)), Some(JVal::Obj(hf)), Some(bv)) => {
                    if 100 <= code < 1000 {
                        match headers_from_doc(hf) {
                            Some(headers) => Some(
                                RespV {
                                    status: code as u16,
                                    version: Version::Http11,
                                    headers,
                                    body: BodyV::Json(bv),
                                },
                            ),
                            None => None,
                        }
                    } else {
                        None
                    }
                },
                _ => None,
            }
        },
        _ => None,
    }
}

/// Parse a recorded response document back into a response.
pub fn deserialize_response(d: &JsonValue) -> (r: Result<InMemoryResponse, ProtocolError>)
    ensures
        match r {
            Ok(res) => deserialize_response_spec(d@) == Some(res@),
            Err(_) => deserialize_response_spec(d@) is None,
        },
{
    let fields = match d {
        JsonValue::Obj(fields) => fields,
        _ => {
            return Err(
                ProtocolError::JsonError(String::from_str("recorded response not an object")),
            );
        },
    };
    let status: u16 = match obj_get(fields, "status") {
        Some(sv) => match sv {
            JsonValue::Num(code) => {
                let c = *code;
                if 100 <= c && c < 1000 {
                    c as u16
                } else {
                    return Err(ProtocolError::JsonError(String::from_str("invalid status")));
                }
            },
            _ => {
                return Err(ProtocolError::JsonError(String::from_str("invalid status")));
            },
        },
        None => {
            return Err(ProtocolError::JsonError(String::from_str("missing status")));
        },
    };
    let headers = match obj_get(fields, "headers") {
        Some(hv) => match hv {
            JsonValue::Obj(hf) => match read_headers_member(hf) {
                Ok(h) => h,
                Err(e) => {
                    return Err(e);
                },
            },
            _ => {
                return Err(ProtocolError::JsonError(String::from_str("invalid headers")));
            },
        },
        None => {
            return Err(ProtocolError::JsonError(String::from_str("missing headers")));
        },
    };
    let body = match obj_get(fields, "body") {
        Some(bv) => InMemoryBody::Json(bv.clone()),
        None => match obj_get(fields, "data") {
            Some(bv) => InMemoryBody::Json(bv.clone()),
            None => {
                return Err(ProtocolError::JsonError(String::from_str("missing body")));
            },
        },
    };
    Ok(InMemoryResponse { status, version: Version::Http11, headers, body })
}

/// A recorded exchange: the sanitized request and response, as one document.
pub open spec fn serialize_pair_spec(req: ReqV, resp: RespV) -> JVal {
    JVal::Obj(
        seq![
            ("request"@, serialize_request_spec(req)),
            ("response"@, serialize_response_spec(resp)),
        ],
    )
}

pub fn serialize_pair(req: &InMemoryRequest, resp: &InMemoryResponse) -> (d: JsonValue)
    ensures
        d@ == serialize_pair_spec(req@, resp@),
{
    let mut fields: Vec<(String, JsonValue)> = Vec::new();
    fields.push((String::from_str("request"), serialize_request(req)));
    fields.push((String::from_str("response"), serialize_response(resp)));
    proof {
        lemma_jview_fields(fields@);
        assert(jview_fields(fields@) =~= seq![
            ("request"@, serialize_request_spec(req@)),
            ("response"@, serialize_response_spec(resp@)),
        ]);
    }
    JsonValue::Obj(fields)
}

pub open spec fn deserialize_pair_spec(d: JVal) -> Option<(ReqV, RespV)> {
    match d {
        JVal::Obj(fields) => {
            match (obj_get_spec(fields, "request"@), obj_get_spec(fields, "response"@)) {
                (Some(rd), Some(pd)) => match (deserialize_request_spec(rd),
                    deserialize_response_spec(pd)) {
                    (Some(req), Some(resp)) => Some((req, resp)),
                    _ => None,
                },
                _ => None,
            }
        },
        _ => None,
    }
}

/// Parse a recording file's document into its request and response.
pub fn deserialize_pair(d: &JsonValue) -> (r: Result<
    (InMemoryRequest, InMemoryResponse),
    ProtocolError,
>)
    ensures
        match r {
            Ok(p) => deserialize_pair_spec(d@) == Some((p.0@, p.1@)),
            Err(_) => deserialize_pair_spec(d@) is None,
        },
{
    let fields = match d {
        JsonValue::Obj(fields) => fields,
        _ => {
            return Err(ProtocolError::JsonError(String::from_str("recording not an object")));
        },
    };
    let req = match obj_get(fields, "request") {
        Some(rd) => match deserialize_request(rd) {
            Ok(req) => req,
            Err(e) => {
                return Err(e);
            },
        },
        None => {
            return Err(ProtocolError::JsonError(String::from_str("missing request")));
        },
    };
    let resp = match obj_get(fields, "response") {
        Some(pd) => match deserialize_response(pd) {
            Ok(resp) => resp,
            Err(e) => {
                return Err(e);
            },
        },
        None => {
            return Err(ProtocolError::JsonError(String::from_str("missing response")));
        },
    };
    Ok((req, resp))
}

} // verus!
