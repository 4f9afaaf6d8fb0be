use vstd::prelude::*;
use crate::body::{BodyV, InMemoryBody};
use crate::http::{
    h_contains, h_get, h_set, lower_chars, pe_chars, percent_encode, dec_chars, dec_string,
    Headers, Method, Version,
};
use crate::json::{jview_fields, lemma_jview_fields, JVal, JsonValue};
use crate::middleware::Mw;
use crate::multipart::Form;
use crate::request::InMemoryRequest;
use crate::uri::{parse_uri, parse_uri_spec, Uri, UriV};

verus! {

/// Header pairs inserted in order.
pub open spec fn h_set_list(
    hs: Seq<(Seq<char>, Seq<char>)>,
    pairs: Seq<(Seq<char>, Seq<char>)>,
) -> Seq<(Seq<char>, Seq<char>)>
    decreases pairs.len(),
{
    if pairs.len() == 0 {
        hs
    } else {
        h_set_list(h_set(hs, lower_chars(pairs.first().0), pairs.first().1), pairs.drop_first())
    }
}

/// A header appended only when its name is absent: the default-setting the
/// body-builders perform.
pub open spec fn with_default(
    hs: Seq<(Seq<char>, Seq<char>)>,
    name: Seq<char>,
    value: Seq<char>,
) -> Seq<(Seq<char>, Seq<char>)> {
    if h_contains(hs, name) {
        hs
    } else {
        hs.push((name, value))
    }
}

/// The headers after a JSON body is set: `Content-Type` then `Accept`, each
/// only if absent.
pub open spec fn json_default_headers(hs: Seq<(Seq<char>, Seq<char>)>) -> Seq<
    (Seq<char>, Seq<char>),
> {
    with_default(
        with_default(hs, lower_chars("content-type"@), "application/json; charset=utf-8"@),
        lower_chars("accept"@),
        "application/json"@,
    )
}

/// The headers after a fresh form body is set.
pub open spec fn form_default_headers(hs: Seq<(Seq<char>, Seq<char>)>) -> Seq<
    (Seq<char>, Seq<char>),
> {
    with_default(
        with_default(hs, lower_chars("content-type"@), "application/x-www-form-urlencoded"@),
        lower_chars("accept"@),
        "html/text"@,
    )
}

/// An object's members set into a field list in order, overwriting on
/// collision.
pub open spec fn obj_merge_spec(
    fields: Seq<(Seq<char>, JVal)>,
    extra: Seq<(Seq<char>, JVal)>,
) -> Seq<(Seq<char>, JVal)>
    decreases extra.len(),
{
    if extra.len() == 0 {
        fields
    } else {
        obj_merge_spec(
            crate::json::obj_set_spec(fields, extra.first().0, extra.first().1),
            extra.drop_first(),
        )
    }
}

/// The query-string pairs a JSON value contributes under a key path, in
/// `application/x-www-form-urlencoded` nested-bracket form. `null` values
/// are omitted; values are percent-encoded.
pub open spec fn qs_pairs(prefix: Seq<char>, v: JVal) -> Seq<Seq<char>>
    decreases v,
{
    match v {
        JVal::Null => Seq::empty(),
        JVal::Bool(b) => seq![prefix + "="@ + (if b { "true"@ } else { "false"@ })],
        JVal::Num(i) => seq![
            prefix + "="@ + (if i < 0 { "-"@ + dec_chars((-i) as nat) } else { dec_chars(i as nat) }),
        ],
        JVal::Str(s) => seq![prefix + "="@ + pe_chars(s)],
        JVal::Arr(items) => Seq::empty(),
        JVal::Obj(fields) => qs_fields(prefix, fields),
    }
}

pub open spec fn qs_fields(prefix: Seq<char>, fields: Seq<(Seq<char>, JVal)>) -> Seq<Seq<char>>
    decreases fields,
{
    if fields.len() == 0 {
        Seq::empty()
    } else {
        let sub = if prefix.len() == 0 {
            fields.last().0
        } else {
            prefix + "["@ + fields.last().0 + "]"@
        };
        qs_fields(prefix, fields.drop_last()) + qs_pairs(sub, fields.last().1)
    }
}

/// Pair strings joined with `&`.
pub open spec fn amp_join(parts: Seq<Seq<char>>) -> Seq<char>
    decreases parts.len(),
{
    if parts.len() == 0 {
        Seq::empty()
    } else if parts.len() == 1 {
        parts.last()
    } else {
        amp_join(parts.drop_last()) + "&"@ + parts.last()
    }
}

/// The query string a JSON value encodes to.
pub open spec fn qs_encode_spec(v: JVal) -> Seq<char> {
    amp_join(qs_pairs(Seq::empty(), v))
}

fn qs_collect(prefix: &String, v: &JsonValue, out: &mut Vec<String>)
    ensures
        final(out)@.map_values(|s: String| s@) == old(out)@.map_values(|s: String| s@)
            + qs_pairs(prefix@, v@),
    decreases v,
{
    let ghost out0 = out@.map_values(|s: String| s@);
    match v {
        JsonValue::Null => {
            proof {
                assert(out@.map_values(|s: String| s@) =~= out0 + qs_pairs(prefix@, v@));
            }
        },
        JsonValue::Bool(b) => {
            let mut s = prefix.clone();
            s.append("=");
            s.append(if *b { "true" } else { "false" });
            out.push(s);
            proof {
                assert(out@.map_values(|s2: String| s2@) =~= out0 + qs_pairs(prefix@, v@));
            }
        },
        JsonValue::Num(i) => {
            let mut s = prefix.clone();
            s.append("=");
            if *i < 0 {
                s.append("-");
                let m: u64 = if *i == i64::MIN {
                    9223372036854775808u64
                } else {
                    (-*i) as u64
                };
                s.append(dec_string(m).as_str());
                proof {
                    assert(s@ =~= prefix@ + "="@ + ("-"@ + dec_chars(m as nat)));
                }
            } else {
                s.append(dec_string(*i as u64).as_str());
            }
            out.push(s);
            proof {
                assert(out@.map_values(|s2: String| s2@) =~= out0 + qs_pairs(prefix@, v@));
            }
        },
        JsonValue::Str(t) => {
            let mut s = prefix.clone();
            s.append("=");
            s.append(percent_encode(t.as_str()).as_str());
            out.push(s);
            proof {
                assert(out@.map_values(|s2: String| s2@) =~= out0 + qs_pairs(prefix@, v@));
            }
        },
        JsonValue::Arr(_) => {
            proof {
                assert(out@.map_values(|s: String| s@) =~= out0 + qs_pairs(prefix@, v@));
            }
        },
        JsonValue::Obj(fields) => {
            let n = fields.len();
            let mut i: usize = 0;
            proof {
                lemma_jview_fields(fields@);
                assert(qs_fields(prefix@, jview_fields(fields@).take(0)) =~= Seq::<Seq<char>>::empty());
                assert(out0 + Seq::<Seq<char>>::empty() =~= out0);
            }
            while i < n
                invariant
                    i <= n,
                    n == fields@.len(),
                    jview_fields(fields@).len() == n,
                    forall|k: int| 0 <= k < n ==> #[trigger] jview_fields(fields@)[k]
                        == (fields@[k].0@, fields@[k].1@),
                    out@.map_values(|s: String| s@) == out0 + qs_fields(
                        prefix@,
                        jview_fields(fields@).take(i as int),
                    ),
                decreases n - i,
            {
                let pair = &fields[i];
                let sub = if prefix.as_str().is_empty() {
                    pair.0.clone()
                } else {
                    let mut s = prefix.clone();
                    s.append("[");
                    s.append(pair.0.as_str());
                    s.append("]");
                    s
                };
                proof {
                    assert(decreases_to!(*v => v->Obj_0));
                    assert(decreases_to!(*fields => fields@));
                    assert(decreases_to!(fields@ => fields@[i as int]));
                    assert(decreases_to!(fields@[i as int] => fields@[i as int].1));
                }
                qs_collect(&sub, &pair.1, out);
                proof {
                    let fv = jview_fields(fields@);
                    assert(fv.take(i as int + 1).drop_last() =~= fv.take(i as int));
                    assert(fv.take(i as int + 1).last() == fv[i as int]);
                    assert(sub@ == (if prefix@.len() == 0 {
                        fv[i as int].0
                    } else {
                        prefix@ + "["@ + fv[i as int].0 + "]"@
                    }));
                    assert(out@.map_values(|s: String| s@) =~= out0 + qs_fields(
                        prefix@,
                        fv.take(i as int + 1),
                    ));
                }
                i = i + 1;
            }
            proof {
                assert(jview_fields(fields@).take(n as int) =~= jview_fields(fields@));
            }
        },
    }
}

/// Encode a JSON value as a nested-bracket query string.
pub fn qs_encode(v: &JsonValue) -> (r: String)
    ensures
        r@ == qs_encode_spec(v@),
{
    let mut parts: Vec<String> = Vec::new();
    let empty = String::new();
    qs_collect(&empty, v, &mut parts);
    proof {
        assert(parts@.map_values(|s: String| s@) =~= qs_pairs(Seq::empty(), v@));
    }
    let ghost pv = parts@.map_values(|s: String| s@);
    let n = parts.len();
    let mut out = String::new();
    let mut i: usize = 0;
    proof {
        assert(amp_join(pv.take(0)) =~= Seq::<char>::empty());
    }
    while i < n
        invariant
            i <= n,
            n == parts@.len(),
            pv == parts@.map_values(|s: String| s@),
            pv.len() == n,
            out@ == amp_join(pv.take(i as int)),
        decreases n - i,
    {
        if i > 0 {
            out.append("&");
        }
        out.append(parts[i].as_str());
        proof {
            assert(pv.take(i as int + 1).drop_last() =~= pv.take(i as int));
            assert(pv.take(i as int + 1).last() == pv[i as int]);
            assert(out@ =~= amp_join(pv.take(i as int + 1)));
        }
        i = i + 1;
    }
    proof {
        assert(pv.take(n as int) =~= pv);
    }
    out
}

/// Accumulates a request before it is run: method, target, headers, body,
/// and the middleware list the run will use.
#[derive(Debug)]
pub struct RequestBuilder {
    pub method: Method,
    pub uri: Uri,
    pub version: Version,
    pub headers: Headers,
    pub body: Option<InMemoryBody>,
    pub middlewares: Vec<Mw>,
}

pub open spec fn body_or_empty(b: Option<InMemoryBody>) -> BodyV {
    match b {
        Some(body) => body@,
        None => BodyV::Empty,
    }
}

impl RequestBuilder {
    /// Start a builder for a method and a parsed target.
    pub fn new(method: Method, uri: Uri) -> (r: RequestBuilder)
        ensures
            r.method == method,
            r.uri@ == uri@,
            r.version == Version::Http11,
            r.headers@ == Seq::<(Seq<char>, Seq<char>)>::empty(),
            r.body is None,
            r.middlewares@ == Seq::<Mw>::empty(),
    {
        let r = RequestBuilder {
            method,
            uri,
            version: Version::Http11,
            headers: Headers::new(),
            body: None,
            middlewares: Vec::new(),
        };
        proof {
            assert(r.middlewares@ =~= Seq::<Mw>::empty());
        }
        r
    }

    /// A `GET` builder for a URL in its textual form, which must parse.
    pub fn get(url: &str) -> (r: RequestBuilder)
        requires
            parse_uri_spec(url@) is Some,
        ensures
            r.method == Method::Get,
            parse_uri_spec(url@) == Some(r.uri@),
            r.headers@ == Seq::<(Seq<char>, Seq<char>)>::empty(),
            r.body is None,
    {
        let uri = match parse_uri(url) {
            Some(u) => u,
            None => {
                proof {
                    assert(false);
                }
                Uri { scheme: None, authority: None, path: String::new(), query: None }
            },
        };
        RequestBuilder::new(Method::Get, uri)
    }

    /// A `POST` builder for a URL in its textual form, which must parse.
    pub fn post(url: &str) -> (r: RequestBuilder)
        requires
            parse_uri_spec(url@) is Some,
        ensures
            r.method == Method::Post,
            parse_uri_spec(url@) == Some(r.uri@),
            r.headers@ == Seq::<(Seq<char>, Seq<char>)>::empty(),
            r.body is None,
    {
        let uri = match parse_uri(url) {
            Some(u) => u,
            None => {
                proof {
                    assert(false);
                }
                Uri { scheme: None, authority: None, path: String::new(), query: None }
            },
        };
        RequestBuilder::new(Method::Post, uri)
    }

    /// Replace the method.
    pub fn method(self, method: Method) -> (r: Self)
        ensures
            r == (RequestBuilder { method, ..self }),
    {
        RequestBuilder { method, ..self }
    }

    /// Set one header, replacing an existing value.
    pub fn header(self, name: &str, value: &str) -> (r: Self)
        ensures
            r.headers@ == h_set(self.headers@, lower_chars(name@), value@),
            r.method == self.method && r.uri == self.uri && r.body == self.body
                && r.middlewares == self.middlewares && r.version == self.version,
    {
        let mut b = self;
        b.headers.insert(name, value);
        b
    }

    /// Add headers in order.
    pub fn headers(self, pairs: &Vec<(String, String)>) -> (r: Self)
        ensures
            r.headers@ == h_set_list(
                self.headers@,
                pairs@.map_values(|p: (String, String)| (p.0@, p.1@)),
            ),
            r.method == self.method && r.uri == self.uri && r.body == self.body
                && r.middlewares == self.middlewares && r.version == self.version,
    {
        let ghost pv = pairs@.map_values(|p: (String, String)| (p.0@, p.1@));
        let mut b = self;
        let ghost h0 = b.headers@;
        let n = pairs.len();
        let mut i: usize = 0;
        proof {
            assert(pv.skip(0) =~= pv);
        }
        while i < n
            invariant
                i <= n,
                n == pairs@.len(),
                pv == pairs@.map_values(|p: (String, String)| (p.0@, p.1@)),
                pv.len() == n,
                b.method == self.method && b.uri == self.uri && b.body == self.body
                    && b.middlewares == self.middlewares && b.version == self.version,
                h_set_list(b.headers@, pv.skip(i as int)) == h_set_list(h0, pv),
            decreases n - i,
        {
            let ghost pre = b.headers@;
            b.headers.insert(pairs[i].0.as_str(), pairs[i].1.as_str());
            proof {
                assert(pv.skip(i as int).first() == pv[i as int]);
                assert(pv.skip(i as int).drop_first() =~= pv.skip(i as int + 1));
                assert(h_set_list(pre, pv.skip(i as int)) == h_set_list(
                    h_set(pre, lower_chars(pv[i as int].0), pv[i as int].1),
                    pv.skip(i as int + 1),
                ));
            }
            i = i + 1;
        }
        proof {
            assert(pv.skip(n as int).len() == 0);
        }
        b
    }

    /// Merge a cookie into the `Cookie` header.
    pub fn cookie(self, key: &str, value: &str) -> (r: Self)
        ensures
            r.headers@ == h_set(
                self.headers@,
                lower_chars("cookie"@),
                (match h_get(self.headers@, lower_chars("cookie"@)) {
                    Some(v) => v + "; "@ + key@ + "="@ + value@,
                    None => key@ + "="@ + value@,
                }),
            ),
            r.method == self.method && r.uri == self.uri && r.body == self.body
                && r.middlewares == self.middlewares && r.version == self.version,
    {
        let mut b = self;
        let nv = match b.headers.get("cookie") {
            Some(old_v) => {
                let mut s = old_v.clone();
                s.append("; ");
                s.append(key);
                s.append("=");
                s.append(value);
                s
            },
            None => {
                let mut s = String::from_str(key);
                s.append("=");
                s.append(value);
                s
            },
        };
        b.headers.insert("cookie", nv.as_str());
        b
    }

    /// Set `Authorization: Bearer <token>`.
    pub fn bearer_auth(self, token: &str) -> (r: Self)
        ensures
            r.headers@ == h_set(
                self.headers@,
                lower_chars("authorization"@),
                "Bearer "@ + token@,
            ),
            r.method == self.method && r.uri == self.uri && r.body == self.body
                && r.middlewares == self.middlewares && r.version == self.version,
    {
        let mut b = self;
        let mut v = String::from_str("Bearer ");
        v.append(token);
        b.headers.insert("authorization", v.as_str());
        b
    }

    /// Set `Authorization: Token <token>`.
    pub fn token_auth(self, token: &str) -> (r: Self)
        ensures
            r.headers@ == h_set(
                self.headers@,
                lower_chars("authorization"@),
                "Token "@ + token@,
            ),
            r.method == self.method && r.uri == self.uri && r.body == self.body
                && r.middlewares == self.middlewares && r.version == self.version,
    {
        let mut b = self;
        let mut v = String::from_str("Token ");
        v.append(token);
        b.headers.insert("authorization", v.as_str());
        b
    }

    /// Set `Authorization: Basic <token>`.
    pub fn basic_auth(self, token: &str) -> (r: Self)
        ensures
            r.headers@ == h_set(
                self.headers@,
                lower_chars("authorization"@),
                "Basic "@ + token@,
            ),
            r.method == self.method && r.uri == self.uri && r.body == self.body
                && r.middlewares == self.middlewares && r.version == self.version,
    {
        let mut b = self;
        let mut v = String::from_str("Basic ");
        v.append(token);
        b.headers.insert("authorization", v.as_str());
        b
    }

    /// Append one query parameter, keeping existing ones; key and value are
    /// percent-encoded.
    pub fn query(self, k: &str, v: &str) -> (r: Self)
        ensures
            r.uri@ == (UriV {
                query: Some(
                    match self.uri@.query {
                        Some(q) => q + "&"@ + pe_chars(k@) + "="@ + pe_chars(v@),
                        None => pe_chars(k@) + "="@ + pe_chars(v@),
                    },
                ),
                ..self.uri@
            }),
            r.method == self.method && r.headers == self.headers && r.body == self.body
                && r.middlewares == self.middlewares && r.version == self.version,
    {
        let mut b = self;
        let mut q = match b.uri.query {
            Some(q0) => {
                let mut s = q0;
                s.append("&");
                s
            },
            None => String::new(),
        };
        q.append(percent_encode(k).as_str());
        q.append("=");
        q.append(percent_encode(v).as_str());
        b.uri.query = Some(q);
        b
    }

    /// Replace the query with the nested-bracket encoding of a JSON value.
    pub fn set_query(self, obj: &JsonValue) -> (r: Self)
        ensures
            r.uri@ == (UriV { query: Some(qs_encode_spec(obj@)), ..self.uri@ }),
            r.method == self.method && r.headers == self.headers && r.body == self.body
                && r.middlewares == self.middlewares && r.version == self.version,
    {
        let mut b = self;
        b.uri.query = Some(qs_encode(obj));
        b
    }

    /// Set a `text/plain` body.
    pub fn text(self, body: String) -> (r: Self)
        ensures
            r.body matches Some(nb) && nb@ == BodyV::Text(body@),
            r.headers@ == (if h_contains(self.headers@, lower_chars("content-type"@)) {
                self.headers@
            } else {
                self.headers@.push((lower_chars("content-type"@), "text/plain"@))
            }),
            r.method == self.method && r.uri == self.uri && r.middlewares == self.middlewares
                && r.version == self.version,
    {
        let mut b = self;
        b.body = Some(InMemoryBody::Text(body));
        b.headers.or_insert("content-type", "text/plain");
        b
    }

    /// Set an `application/octet-stream` body.
    pub fn bytes(self, body: Vec<u8>) -> (r: Self)
        ensures
            r.body matches Some(nb) && nb@ == BodyV::Bytes(body@),
            r.headers@ == (if h_contains(self.headers@, lower_chars("content-type"@)) {
                self.headers@
            } else {
                self.headers@.push(
                    (lower_chars("content-type"@), "application/octet-stream"@),
                )
            }),
            r.method == self.method && r.uri == self.uri && r.middlewares == self.middlewares
                && r.version == self.version,
    {
        let mut b = self;
        b.body = Some(InMemoryBody::Bytes(body));
        b.headers.or_insert("content-type", "application/octet-stream");
        b
    }

    /// Overwrite the body with a JSON document; `Content-Type` and `Accept`
    /// are set only if absent.
    pub fn set_json(self, obj: &JsonValue) -> (r: Self)
        ensures
            r.body matches Some(nb) && nb@ == BodyV::Json(obj@),
            r.headers@ == json_default_headers(self.headers@),
            r.method == self.method && r.uri == self.uri && r.middlewares == self.middlewares
                && r.version == self.version,
            h_contains(r.headers@, lower_chars("content-type"@)),
            h_contains(r.headers@, lower_chars("accept"@)),
    {
        let mut b = self;
        b.body = Some(InMemoryBody::Json(obj.clone()));
        b.headers.or_insert("content-type", "application/json; charset=utf-8");
        let ghost mid = b.headers@;
        b.headers.or_insert("accept", "application/json");
        proof {
            if !h_contains(mid, lower_chars("accept"@)) {
                crate::http::lemma_h_get_push(
                    mid,
                    (lower_chars("accept"@), "application/json"@),
                    lower_chars("content-type"@),
                );
            }
        }
        b
    }

    /// Add a JSON object to the body: with no body yet this is `set_json`;
    /// onto an existing JSON object body the object's members are merged in
    /// order, overwriting on collision, and the headers are untouched.
    pub fn json(self, obj: &JsonValue) -> (r: Self)
        requires
            self.body matches Some(eb) ==> (eb@ matches BodyV::Json(jv) && jv is Obj
                && obj@ is Obj),
        ensures
            self.body is None ==> ({
                &&& r.body matches Some(nb) && nb@ == BodyV::Json(obj@)
                &&& r.headers@ == json_default_headers(self.headers@)
            }),
            self.body matches Some(eb) ==> ({
                &&& r.body matches Some(nb) && nb@ == BodyV::Json(
                    JVal::Obj(obj_merge_spec(eb@->Json_0->Obj_0, obj@->Obj_0)),
                )
                &&& r.headers == self.headers
            }),
            r.method == self.method && r.uri == self.uri && r.middlewares == self.middlewares
                && r.version == self.version,
    {
        let mut b = self;
        match b.body {
            None => {
                b.body = None;
                return b.set_json(obj);
            },
            Some(InMemoryBody::Json(JsonValue::Obj(mut fields))) => {
                let ghost fields0 = jview_fields(fields@);
                match obj {
                    JsonValue::Obj(extra) => {
                        let ghost extrav = jview_fields(extra@);
                        proof {
                            lemma_jview_fields(extra@);
                            assert(extrav.skip(0) =~= extrav);
                        }
                        let n = extra.len();
                        let mut i: usize = 0;
                        while i < n
                            invariant
                                i <= n,
                                n == extra@.len(),
                                extrav == jview_fields(extra@),
                                extrav.len() == n,
                                forall|k: int| 0 <= k < n ==> #[trigger] extrav[k]
                                    == (extra@[k].0@, extra@[k].1@),
                                obj_merge_spec(jview_fields(fields@), extrav.skip(i as int))
                                    == obj_merge_spec(fields0, extrav),
                            decreases n - i,
                        {
                            let pair = &extra[i];
                            let ghost pre = jview_fields(fields@);
                            crate::json::obj_set(&mut fields, pair.0.as_str(), pair.1.clone());
                            proof {
                                assert(extrav.skip(i as int).first() == extrav[i as int]);
                                assert(extrav.skip(i as int).drop_first() =~= extrav.skip(
                                    i as int + 1,
                                ));
                                assert(obj_merge_spec(pre, extrav.skip(i as int))
                                    == obj_merge_spec(
                                    crate::json::obj_set_spec(
                                        pre,
                                        extrav[i as int].0,
                                        extrav[i as int].1,
                                    ),
                                    extrav.skip(i as int + 1),
                                ));
                            }
                            i = i + 1;
                        }
                        proof {
                            assert(extrav.skip(n as int).len() == 0);
                        }
                    },
                    _ => {
                        proof {
                            assert(false);
                        }
                    },
                }
                b.body = Some(InMemoryBody::Json(JsonValue::Obj(fields)));
                b
            },
            Some(other) => {
                proof {
                    assert(false);
                }
                b.body = Some(other);
                b
            },
        }
    }

    /// Append a url-encoded form to the body: with no body yet the encoding
    /// becomes a fresh text body with `Content-Type` and `Accept` set only if
    /// absent; onto an existing text body it is joined with `&` and the
    /// headers are untouched.
    pub fn form(self, obj: &JsonValue) -> (r: Self)
        requires
            self.body matches Some(eb) ==> eb@ is Text,
        ensures
            r.body matches Some(nb) && nb@ == BodyV::Text(
                match body_or_empty(self.body) {
                    BodyV::Text(t) => t + "&"@ + qs_encode_spec(obj@),
                    _ => qs_encode_spec(obj@),
                },
            ),
            r.headers@ == (match self.body {
                Some(_) => self.headers@,
                None => form_default_headers(self.headers@),
            }),
            r.method == self.method && r.uri == self.uri && r.middlewares == self.middlewares
                && r.version == self.version,
    {
        let mut b = self;
        let qs = qs_encode(obj);
        match b.body {
            Some(InMemoryBody::Text(mut t)) => {
                t.append("&");
                t.append(qs.as_str());
                b.body = Some(InMemoryBody::Text(t));
            },
            _ => {
                b.body = Some(InMemoryBody::Text(qs));
                b.headers.or_insert("content-type", "application/x-www-form-urlencoded");
                b.headers.or_insert("accept", "html/text");
            },
        }
        b
    }

    /// Set a multipart body: the form's serialization, as text when it is
    /// valid UTF-8, else as bytes; the form's full content type is set only
    /// if absent.
    pub fn multipart(self, form: Form<InMemoryBody>) -> (r: Self)
        ensures
            ({
                let enc = crate::multipart::form_chunks(form.boundary@, form.parts@)
                    + crate::multipart::terminate_line(form.boundary@);
                r.body matches Some(nb) && nb@ == (if vstd::utf8::valid_utf8(enc) {
                    BodyV::Text(vstd::utf8::decode_utf8(enc))
                } else {
                    BodyV::Bytes(enc)
                })
            }),
            r.headers@ == with_default(
                self.headers@,
                lower_chars("content-type"@),
                form.content_type@ + "; boundary="@ + form.boundary@,
            ),
            r.method == self.method && r.uri == self.uri && r.middlewares == self.middlewares
                && r.version == self.version,
    {
        let mut b = self;
        let ct = form.full_content_type();
        b.headers.or_insert("content-type", ct.as_str());
        let bytes = form.to_bytes();
        match crate::body::utf8_decode(bytes) {
            Ok(t) => {
                b.body = Some(InMemoryBody::Text(t));
            },
            Err(raw) => {
                b.body = Some(InMemoryBody::Bytes(raw));
            },
        }
        b
    }

    /// Replace the content type.
    pub fn content_type(self, content_type: &str) -> (r: Self)
        ensures
            r.headers@ == h_set(self.headers@, lower_chars("content-type"@), content_type@),
            r.method == self.method && r.uri == self.uri && r.body == self.body
                && r.middlewares == self.middlewares && r.version == self.version,
    {
        let mut b = self;
        b.headers.insert("content-type", content_type);
        b
    }

    /// Set the body directly; the content type is not touched.
    pub fn body(self, body: InMemoryBody) -> (r: Self)
        ensures
            r.body == Some(body),
            r.method == self.method && r.uri == self.uri && r.headers == self.headers
                && r.middlewares == self.middlewares && r.version == self.version,
    {
        RequestBuilder { body: Some(body), ..self }
    }

    /// Replace the middleware list.
    pub fn set_middlewares(self, middlewares: Vec<Mw>) -> (r: Self)
        ensures
            r.middlewares == middlewares,
            r.method == self.method && r.uri == self.uri && r.headers == self.headers
                && r.body == self.body && r.version == self.version,
    {
        RequestBuilder { middlewares, ..self }
    }

    /// Append a middleware; later-installed ones run closer to the network.
    pub fn middleware(self, middleware: Mw) -> (r: Self)
        ensures
            r.middlewares@ == self.middlewares@.push(middleware),
            r.method == self.method && r.uri == self.uri && r.headers == self.headers
                && r.body == self.body && r.version == self.version,
    {
        let mut b = self;
        b.middlewares.push(middleware);
        b
    }

    /// The in-memory request this builder describes; no body means empty.
    pub fn build(self) -> (r: InMemoryRequest)
        ensures
            r@.method == self.method,
            r@.uri == self.uri@,
            r@.version == self.version,
            r@.headers == self.headers@,
            r@.body == body_or_empty(self.body),
    {
        InMemoryRequest {
            method: self.method,
            uri: self.uri,
            version: self.version,
            headers: self.headers,
            body: match self.body {
                Some(b) => b,
                None => InMemoryBody::Empty,
            },
        }
    }
}


/// Bulk header installation on a builder.
pub trait AddHeaders: Sized {
    fn add_headers(self, headers: &Headers) -> Self;

    fn headers_from_sorted(self, headers: crate::http::SortedHeaders) -> Self;
}

impl AddHeaders for RequestBuilder {
    /// Insert every pair of a header list.
    fn add_headers(self, headers: &Headers) -> Self {
        let mut b = self;
        let n = headers.len();
        let mut i: usize = 0;
        while i < n
            invariant
                i <= n,
                n == headers@.len(),
            decreases n - i,
        {
            let (name, value) = headers.pair(i);
            b.headers.insert(name.as_str(), value.as_str());
            i = i + 1;
        }
        b
    }

    /// Insert every pair of a sorted header list.
    fn headers_from_sorted(self, headers: crate::http::SortedHeaders) -> Self {
        let mut b = self;
        let n = headers.pairs.len();
        let mut i: usize = 0;
        while i < n
            invariant
                i <= n,
                n == headers.pairs@.len(),
            decreases n - i,
        {
            let p = &headers.pairs[i];
            b.headers.insert(p.0.as_str(), p.1.as_str());
            i = i + 1;
        }
        b
    }
}

} // verus!
