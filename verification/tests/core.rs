use httpclient::body::{materialize_plain, InMemoryBody};
use httpclient::builder::RequestBuilder;
use httpclient::client::Client;
use httpclient::codec::{deserialize_pair, serialize_pair};
use httpclient::error::{Error, ProtocolError};
use httpclient::multipart::Form;
use httpclient::oauth2::percent_decode;
use httpclient::codec::{deserialize_request, serialize_request, serialize_response};
use httpclient::http::{percent_encode, Headers, Method, Version};
use httpclient::json::{json_to_bytes, JsonValue};
use httpclient::middleware::calc_delay;
use httpclient::request::{sanitize_request, InMemoryRequest, RequestExt};
use httpclient::response::{sanitize_response, InMemoryResponse};
use httpclient::sanitize::{sanitize_json, should_sanitize};
use httpclient::uri::{fix_url, parse_uri};

fn obj(fields: Vec<(&str, JsonValue)>) -> JsonValue {
    JsonValue::Obj(fields.into_iter().map(|(k, v)| (k.to_string(), v)).collect())
}

fn s(v: &str) -> JsonValue {
    JsonValue::Str(v.to_string())
}

#[test]
fn middleware_test_relative_route() {
    let original = parse_uri("https://www.google.com/").unwrap();
    let url = fix_url(&original, "/test").unwrap();
    assert_eq!(url.to_string(), "https://www.google.com/test");
}

#[test]
fn mod_test_relative_route() {
    let original = parse_uri("https://www.google.com/").unwrap();
    let url = fix_url(&original, "/test").unwrap();
    assert_eq!(url.to_string(), "https://www.google.com/test");
}

#[test]
fn test_calc_retry() {
    let sv = "Tue, 25 Mar 2030 00:15:07 +0000";
    let res = calc_delay(sv, 0);
    assert!(res.is_some());
}

#[test]
fn test_calc_retry_seconds() {
    assert_eq!(calc_delay("1", 0), Some(1000));
    assert_eq!(calc_delay("17", 0), Some(17000));
    assert_eq!(calc_delay("not-a-date", 0), None);
}

#[test]
fn test_serialization() {
    let body = InMemoryBody::Json(obj(vec![("foo", s("bar"))]));
    let bytes = match &body {
        InMemoryBody::Json(v) => json_to_bytes(v),
        _ => unreachable!(),
    };
    assert_eq!(String::from_utf8(bytes).expect("Unable to deserialize JSON"), r#"{"foo":"bar"}"#);
}

#[test]
fn test_serialize_headers() {
    let mut headers = Headers::new();
    headers.insert("Set-Cookie", "foo=bar; Path=/");
    httpclient::http::sanitize_headers(&mut headers);
    assert_eq!(headers.get("set-cookie").unwrap(), "**********");

    let mut headers = Headers::new();
    headers.insert("Cookie", "foo=bar; Path=/");
    httpclient::http::sanitize_headers(&mut headers);
    assert_eq!(headers.get("cookie").unwrap(), "**********");
}

#[test]
fn test_serialize() {
    let mut res = InMemoryResponse {
        status: 200,
        version: Version::Http11,
        headers: Headers::new(),
        body: InMemoryBody::Json(obj(vec![("Password", s("hunter2")), ("email", s("amazing"))])),
    };
    sanitize_response(&mut res);
    let doc = serialize_response(&res);
    let serialized = String::from_utf8(json_to_bytes(&doc)).unwrap();
    assert_eq!(
        serialized,
        r#"{"status":200,"headers":{},"body":{"Password":"**********","email":"amazing"}}"#
    );
}

#[test]
fn test_request_serialization_roundtrip() {
    let data = obj(vec![("a", JsonValue::Num(1)), ("b", JsonValue::Num(2))]);
    let r1 = RequestBuilder::post("http://example.com/").set_json(&data).build();
    let doc = serialize_request(&r1);
    let r2 = deserialize_request(&doc).unwrap();
    assert!(r1.fingerprint_matches(&r2));
}

#[test]
fn test_equal() {
    let data = obj(vec![("a", JsonValue::Num(1)), ("b", JsonValue::Num(2))]);
    let original = RequestBuilder::post("https://example.com/")
        .header("content-type", "application/json")
        .header("secret", "will-get-sanitized")
        .set_json(&data)
        .build();
    let mut sanitized = original.clone();
    sanitize_request(&mut sanitized);
    assert!(
        original.fingerprint_matches(&sanitized),
        "The recorder stores sanitized requests, so these must be equal so that the sanitized request is returned on lookup."
    );
    assert_eq!(original.header("secret").unwrap(), "will-get-sanitized");
    assert_eq!(sanitized.header("secret").unwrap(), "**********");
}

#[test]
fn test_push_query() {
    let mut r1 = RequestBuilder::get("https://example.com/foo/bar");
    r1 = r1.query("a", "b");
    assert_eq!(r1.uri.to_string(), "https://example.com/foo/bar?a=b");
    r1 = r1.query("c", "d");
    assert_eq!(r1.uri.to_string(), "https://example.com/foo/bar?a=b&c=d");
}

#[test]
fn request_test_query() {
    let q = obj(vec![("a", s("b")), ("c", s("d")), ("e", JsonValue::Null)]);
    let r1 = RequestBuilder::get("http://example.com/foo/bar").set_query(&q);
    let r1 = r1.body(InMemoryBody::Empty);
    assert_eq!(r1.uri.query.as_deref(), Some("a=b&c=d"));
    assert!(r1.uri.to_string().starts_with("http://example.com/foo/bar?"));
}

#[test]
fn builder_test_query() {
    let c = Client::new();
    let qs = obj(vec![("inside", obj(vec![("a", JsonValue::Num(1))]))]);
    let r = c.get("/api").set_query(&qs).build();
    assert_eq!(r.uri.to_string(), "/api?inside[a]=1");
}

#[test]
fn test_client_request() {
    let client = Client::new();
    let _ = client.post("/foo").json(&obj(vec![("a", JsonValue::Num(1))]));
}

#[test]
fn test_extract_code() {
    let flow = httpclient::oauth2::OAuth2Flow {
        client_id: "".to_string(),
        client_secret: "".to_string(),
        init_endpoint: "".to_string(),
        exchange_endpoint: "".to_string(),
        refresh_endpoint: "".to_string(),
        redirect_uri: "".to_string(),
    };
    let url = "http://localhost:3000/?code=4%2F0AY0";
    let code = flow.extract_code(url).unwrap();
    assert_eq!(code.code, "4/0AY0");
    let url = "/foo?code=4%2F0AY0&state=123";
    let code = flow.extract_code(url).unwrap();
    assert_eq!(code.code, "4/0AY0");
    assert_eq!(code.state, Some("123".to_string()));
}

#[test]
fn test_should_sanitize() {
    assert!(should_sanitize("Authorization"));
    assert!(should_sanitize("cookie"));
    assert!(should_sanitize("Set-Cookie"));
    assert!(should_sanitize("password"));
    assert!(should_sanitize("api-key"));
    assert!(should_sanitize("X_SESSION_ID"));
    assert!(should_sanitize("token"));
    assert!(!should_sanitize("monkey"));
    assert!(!should_sanitize("content-type"));
    assert!(!should_sanitize("tokenizer"));
}

#[test]
fn test_sanitize_json() {
    let v = obj(vec![
        ("token", s("abc")),
        ("nested", obj(vec![("password", s("p")), ("name", s("n"))])),
    ]);
    let sv = sanitize_json(&v);
    match sv {
        JsonValue::Obj(fields) => {
            assert!(matches!(&fields[0].1, JsonValue::Str(t) if t == "**********"));
            match &fields[1].1 {
                JsonValue::Obj(inner) => {
                    assert!(matches!(&inner[0].1, JsonValue::Str(t) if t == "**********"));
                    assert!(matches!(&inner[1].1, JsonValue::Str(t) if t == "n"));
                },
                _ => panic!("expected object"),
            }
        },
        _ => panic!("expected object"),
    }
}

#[test]
fn test_materialize() {
    assert!(matches!(
        materialize_plain(b"hi".to_vec(), Some("text/plain")),
        InMemoryBody::Text(t) if t == "hi"
    ));
    assert!(matches!(materialize_plain(Vec::new(), Some("text/plain")), InMemoryBody::Empty));
    assert!(matches!(
        materialize_plain(vec![0xff, 0xfe], Some("text/plain")),
        InMemoryBody::Bytes(b) if b == vec![0xff, 0xfe]
    ));
    assert!(matches!(
        materialize_plain(b"ab".to_vec(), Some("application/octet-stream; x=y")),
        InMemoryBody::Bytes(b) if b == b"ab".to_vec()
    ));
}

#[test]
fn test_percent_encode() {
    assert_eq!(percent_encode("hello world"), "hello%20world");
    assert_eq!(percent_encode("a-b_c.d~e"), "a-b_c.d~e");
    assert_eq!(percent_encode("4/0AY0"), "4%2F0AY0");
}

#[test]
fn test_method_parse() {
    assert_eq!(httpclient::http::parse_method("GET"), Some(Method::Get));
    assert_eq!(httpclient::http::parse_method("POST"), Some(Method::Post));
    assert_eq!(httpclient::http::parse_method("TRACE"), None);
}

#[test]
fn test_uri_roundtrip() {
    for u in [
        "https://example.com/foo/bar?a=b",
        "https://a.test/1",
        "/just/a/path",
        "/path?q=1&r=2",
        "http://h.test:8080/p",
    ] {
        let parsed = parse_uri(u).unwrap();
        assert_eq!(parsed.to_string(), u);
    }
    assert!(parse_uri("").is_none());
    assert!(parse_uri("no-scheme-no-slash").is_none());
}

#[test]
fn test_json_numbers() {
    let v = JsonValue::Arr(vec![JsonValue::Num(0), JsonValue::Num(-17), JsonValue::Num(120)]);
    assert_eq!(String::from_utf8(json_to_bytes(&v)).unwrap(), "[0,-17,120]");
}

#[test]
fn test_cookie_builder() {
    let b = RequestBuilder::get("https://example.com/").cookie("a", "1").cookie("b", "2");
    let r = b.build();
    assert_eq!(r.header("cookie").unwrap(), "a=1; b=2");
}

#[test]
fn test_get_cookie() {
    let mut headers = Headers::new();
    headers.insert("set-cookie", "sid=abc123; Path=/; HttpOnly");
    let res = InMemoryResponse {
        status: 200,
        version: Version::Http11,
        headers,
        body: InMemoryBody::Empty,
    };
    assert_eq!(res.get_cookie("sid"), Some("abc123".to_string()));
    assert_eq!(res.get_cookie("nope"), None);
}

#[test]
fn test_host() {
    let r = RequestBuilder::get("http://h.test:8080/p").build();
    assert_eq!(r.host(), "h.test");
}

#[test]
fn test_pair_roundtrip() {
    let req = RequestBuilder::get("https://api.example.com/x?a=1").build();
    let res = InMemoryResponse {
        status: 200,
        version: Version::Http11,
        headers: Headers::new(),
        body: InMemoryBody::Json(obj(vec![("ip", s("1.2.3.4"))])),
    };
    let doc = serialize_pair(&req, &res);
    let (req2, res2) = deserialize_pair(&doc).unwrap();
    assert!(req.fingerprint_matches(&req2));
    assert_eq!(res2.status, 200);
}

#[test]
fn test_form_from_response() {
    let batch = "--b\r\ncontent-type: application/http\r\n\r\nHTTP/1.1 200 OK\r\ncontent-type: text/plain\r\n\r\nhello\r\n--b--\r\n";
    let mut headers = Headers::new();
    headers.insert("content-type", "multipart/mixed; boundary=b");
    let res = InMemoryResponse {
        status: 200,
        version: Version::Http11,
        headers,
        body: InMemoryBody::Text(batch.to_string()),
    };
    let form = Form::from_response(res).unwrap();
    assert_eq!(form.boundary, "b");
    assert_eq!(form.content_type, "multipart/mixed");
    assert_eq!(form.parts.len(), 1);
    assert_eq!(form.parts[0].headers.get("content-type").unwrap(), "application/http");
    assert_eq!(form.parts[0].body.status, 200);
    assert_eq!(
        form.parts[0].body.headers.get("content-type").unwrap(),
        "text/plain"
    );
}

#[test]
fn test_refresh_request_body() {
    let rr = httpclient::oauth2::RefreshRequest {
        client_id: "cid".to_string(),
        client_secret: "c/s".to_string(),
        grant_type: "refresh_token".to_string(),
        refresh_token: "r".to_string(),
    };
    assert_eq!(
        rr.form_body(),
        "client_id=cid&client_secret=c%2Fs&grant_type=refresh_token&refresh_token=r"
    );
}

#[test]
fn test_error_status() {
    let e: Error<InMemoryResponse> = Error::Protocol(ProtocolError::TooManyRetries);
    assert_eq!(e.status(), None);
    assert_eq!(e.into_text(), "TooManyRetries");
    let r = InMemoryResponse {
        status: 404,
        version: Version::Http11,
        headers: Headers::new(),
        body: InMemoryBody::Text("gone".to_string()),
    };
    let e: Error<InMemoryResponse> = Error::HttpError(r);
    assert_eq!(e.status(), Some(404));
    assert_eq!(e.into_text(), "gone");
}

#[test]
fn test_percent_decode() {
    assert_eq!(percent_decode("a%20b+c").unwrap(), "a b c");
    assert_eq!(percent_decode("plain").unwrap(), "plain");
    assert_eq!(percent_decode("100%").unwrap(), "100%");
}

#[test]
fn test_sanitized_value() {
    assert_eq!(httpclient::sanitized_value(), "**********");
}
