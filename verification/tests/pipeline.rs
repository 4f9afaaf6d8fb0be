use httpclient::body::InMemoryBody;
use httpclient::builder::RequestBuilder;
use httpclient::error::{IoKind, ProtocolError};
use httpclient::http::{Headers, Method, Version};
use httpclient::json::JsonValue;
use httpclient::middleware::{
    run, Follow, Mw, OAuth2, PipeState, Recorder, RecorderMode, Retry, TokenType,
};
use httpclient::client::Client;
use httpclient::multipart::{parse_headers, Form, Part};
use httpclient::request::{sanitize_request, InMemoryRequest, RequestExt};
use httpclient::response::InMemoryResponse;

fn obj(fields: Vec<(&str, JsonValue)>) -> JsonValue {
    JsonValue::Obj(fields.into_iter().map(|(k, v)| (k.to_string(), v)).collect())
}

fn resp(status: u16, headers: Vec<(&str, &str)>, body: InMemoryBody) -> InMemoryResponse {
    let mut h = Headers::new();
    for (k, v) in headers {
        h.insert(k, v);
    }
    InMemoryResponse { status, version: Version::Http11, headers: h, body }
}

fn state(script: Vec<Result<InMemoryResponse, ProtocolError>>) -> PipeState {
    PipeState::new(script, 0)
}

#[test]
fn recorder_replay() {
    // a recording exists for the fingerprint, stored with sanitized headers
    let mut recorded_req = RequestBuilder::get("https://api.example.com/x?a=1")
        .bearer_auth("secret")
        .build();
    sanitize_request(&mut recorded_req);
    assert_eq!(recorded_req.header("authorization").unwrap(), "**********");
    let recorded_resp = resp(200, vec![], InMemoryBody::Json(obj(vec![(
        "ip",
        JsonValue::Str("1.2.3.4".to_string()),
    )])));

    let mut st = state(vec![]);
    st.store.insert_loaded(recorded_req, recorded_resp);

    let mws = vec![Mw::Recorder(Recorder::new())];
    let live = RequestBuilder::get("https://api.example.com/x?a=1")
        .bearer_auth("secret")
        .build();
    let out = run(&mws, 0, live, &mut st).unwrap();
    assert_eq!(out.status, 200);
    assert!(matches!(&out.body, InMemoryBody::Json(_)));
    // the transport terminator was never invoked
    assert_eq!(st.dispatched.len(), 0);
}

#[test]
fn recorder_force_no_requests_miss() {
    let mut st = state(vec![]);
    let mws = vec![Mw::Recorder(Recorder::new().mode(RecorderMode::ForceNoRequests))];
    let req = RequestBuilder::get("https://api.example.com/none").build();
    let out = run(&mws, 0, req, &mut st);
    assert!(matches!(out, Err(ProtocolError::IoError(IoKind::NotFound, _))));
    assert_eq!(st.dispatched.len(), 0);
}

#[test]
fn recorder_records_on_miss() {
    let mut st = state(vec![Ok(resp(200, vec![("secret", "x")], InMemoryBody::Text(
        "ok".to_string(),
    )))]);
    let mws = vec![Mw::Recorder(Recorder::new())];
    let req = RequestBuilder::get("https://api.example.com/y").build();
    let out = run(&mws, 0, req, &mut st).unwrap();
    assert_eq!(out.status, 200);
    // the recording on disk is sanitized and named for the request
    assert_eq!(st.recorded.len(), 1);
    assert_eq!(st.recorded[0].0, "data/vcr/api.example.com/y/get.0000.json");
    assert_eq!(st.store.len(), 1);
}

#[test]
fn retry_with_retry_after_seconds() {
    let mut st = state(vec![
        Ok(resp(429, vec![("retry-after", "1")], InMemoryBody::Empty)),
        Ok(resp(429, vec![("retry-after", "1")], InMemoryBody::Empty)),
        Ok(resp(200, vec![], InMemoryBody::Empty)),
    ]);
    let mws = vec![Mw::Retry(Retry::new())];
    let req = RequestBuilder::get("https://r.test/").build();
    let out = run(&mws, 0, req, &mut st).unwrap();
    assert_eq!(out.status, 200);
    // the prescribed waits honor the server hint: one second each
    assert_eq!(st.sleeps, vec![1000, 1000]);
    assert_eq!(st.dispatched.len(), 3);
}

#[test]
fn retry_exhaustion() {
    let mut st = state(vec![
        Ok(resp(503, vec![], InMemoryBody::Empty)),
        Ok(resp(503, vec![], InMemoryBody::Empty)),
    ]);
    let mws = vec![Mw::Retry(Retry::new().max_retries(2))];
    let req = RequestBuilder::get("https://r.test/").build();
    let out = run(&mws, 0, req, &mut st);
    assert!(matches!(out, Err(ProtocolError::TooManyRetries)));
    assert_eq!(st.dispatched.len(), 2);
}

#[test]
fn retry_does_not_touch_other_statuses() {
    let mut st = state(vec![Ok(resp(500, vec![], InMemoryBody::Empty))]);
    let mws = vec![Mw::Retry(Retry::new())];
    let req = RequestBuilder::get("https://r.test/").build();
    let out = run(&mws, 0, req, &mut st).unwrap();
    assert_eq!(out.status, 500);
    assert_eq!(st.dispatched.len(), 1);
}

#[test]
fn follow_redirect() {
    let mut st = state(vec![
        Ok(resp(302, vec![("location", "/2")], InMemoryBody::Empty)),
        Ok(resp(200, vec![], InMemoryBody::Text("ok".to_string()))),
    ]);
    let mws = vec![Mw::Follow(Follow)];
    let req = RequestBuilder::get("https://a.test/1").build();
    let out = run(&mws, 0, req, &mut st).unwrap();
    assert_eq!(out.status, 200);
    assert!(matches!(&out.body, InMemoryBody::Text(t) if t == "ok"));
    assert_eq!(st.dispatched.len(), 2);
    assert_eq!(st.dispatched[1].uri.to_string(), "https://a.test/2");
}

#[test]
fn follow_too_many_redirects() {
    let mut script = Vec::new();
    for _ in 0..11 {
        script.push(Ok(resp(302, vec![("location", "/loop")], InMemoryBody::Empty)));
    }
    let mut st = state(script);
    let mws = vec![Mw::Follow(Follow)];
    let req = RequestBuilder::get("https://a.test/1").build();
    let out = run(&mws, 0, req, &mut st);
    assert!(matches!(out, Err(ProtocolError::TooManyRedirects)));
}

#[test]
fn follow_missing_location() {
    let mut st = state(vec![Ok(resp(302, vec![], InMemoryBody::Empty))]);
    let mws = vec![Mw::Follow(Follow)];
    let req = RequestBuilder::get("https://a.test/1").build();
    let out = run(&mws, 0, req, &mut st);
    assert!(matches!(out, Err(ProtocolError::IoError(IoKind::Other, _))));
}

fn oauth_mw() -> OAuth2 {
    OAuth2 {
        refresh_endpoint: "https://auth.test/token".to_string(),
        client_id: "cid".to_string(),
        client_secret: "cs".to_string(),
        token_type: TokenType::Bearer,
        access_token: "old".to_string(),
        refresh_token: "r".to_string(),
    }
}

#[test]
fn oauth_refresh() {
    let refresh_body = obj(vec![
        ("access_token", JsonValue::Str("new".to_string())),
        ("token_type", JsonValue::Str("Bearer".to_string())),
        ("expires_in", JsonValue::Num(3600)),
    ]);
    let mut st = state(vec![
        Ok(resp(401, vec![], InMemoryBody::Empty)),
        Ok(resp(200, vec![], InMemoryBody::Json(refresh_body))),
        Ok(resp(200, vec![], InMemoryBody::Text("ok".to_string()))),
        Ok(resp(200, vec![], InMemoryBody::Text("again".to_string()))),
    ]);
    st.token = "old".to_string();
    let mws = vec![Mw::OAuth2(oauth_mw())];

    let req = RequestBuilder::get("https://api.test/thing").build();
    let out = run(&mws, 0, req, &mut st).unwrap();
    assert_eq!(out.status, 200);
    // the first dispatch carried the old token, the replay the new one
    assert_eq!(st.dispatched[0].header("authorization").unwrap(), "Bearer old");
    assert_eq!(
        st.dispatched[1].uri.to_string(),
        "https://auth.test/token"
    );
    assert!(matches!(
        &st.dispatched[1].body,
        InMemoryBody::Text(t)
            if t == "client_id=cid&client_secret=cs&grant_type=refresh_token&refresh_token=r"
    ));
    assert_eq!(st.dispatched[2].header("authorization").unwrap(), "Bearer new");
    // the stored token was updated and the refresh was observed exactly once
    assert_eq!(st.token, "new");
    assert_eq!(st.refreshes.len(), 1);
    assert_eq!(st.refreshes[0].access_token, "new");

    // a second request immediately uses the new token with no extra refresh
    let req2 = RequestBuilder::get("https://api.test/thing").build();
    let out2 = run(&mws, 0, req2, &mut st).unwrap();
    assert_eq!(out2.status, 200);
    assert_eq!(st.dispatched[3].header("authorization").unwrap(), "Bearer new");
    assert_eq!(st.refreshes.len(), 1);
}

#[test]
fn oauth_refresh_failure_passes_through() {
    let mut st = state(vec![
        Ok(resp(401, vec![], InMemoryBody::Empty)),
        Ok(resp(500, vec![], InMemoryBody::Empty)),
    ]);
    st.token = "old".to_string();
    let mws = vec![Mw::OAuth2(oauth_mw())];
    let req = RequestBuilder::get("https://api.test/thing").build();
    let out = run(&mws, 0, req, &mut st).unwrap();
    // the failed refresh response surfaces; the original is not retried
    assert_eq!(out.status, 500);
    assert_eq!(st.dispatched.len(), 2);
    assert_eq!(st.token, "old");
}

#[test]
fn script_exhausted_is_connection_error() {
    let mut st = state(vec![]);
    let mws: Vec<Mw> = vec![];
    let req = RequestBuilder::get("https://a.test/1").build();
    let out = run(&mws, 0, req, &mut st);
    assert!(matches!(out, Err(ProtocolError::ConnectionError(_))));
}

#[test]
fn terminator_sets_content_length() {
    let mut st = state(vec![Ok(resp(200, vec![], InMemoryBody::Empty))]);
    let mws: Vec<Mw> = vec![];
    let req = RequestBuilder::post("https://a.test/x").text("hello".to_string()).build();
    run(&mws, 0, req, &mut st).unwrap();
    assert_eq!(st.dispatched[0].header("content-length").unwrap(), "5");
}

#[test]
fn passthrough_changes_nothing() {
    let mut st1 = state(vec![Ok(resp(200, vec![], InMemoryBody::Text("ok".to_string())))]);
    let mut st2 = state(vec![Ok(resp(200, vec![], InMemoryBody::Text("ok".to_string())))]);
    let with_pt = vec![Mw::Passthrough, Mw::Retry(Retry::new())];
    let without = vec![Mw::Retry(Retry::new())];
    let r1 = run(&with_pt, 0, RequestBuilder::get("https://a.test/").build(), &mut st1);
    let r2 = run(&without, 0, RequestBuilder::get("https://a.test/").build(), &mut st2);
    assert_eq!(r1.unwrap().status, r2.unwrap().status);
    assert_eq!(st1.dispatched.len(), st2.dispatched.len());
    assert_eq!(st1.sleeps, st2.sleeps);
}

#[test]
fn multipart_test_to_bytes() {
    let boundary = "zzz".to_string();
    let mut form = Form {
        content_type: "multipart/mixed".to_string(),
        boundary: boundary.clone(),
        parts: Vec::new(),
    };
    let inner = InMemoryRequest {
        method: Method::Get,
        uri: httpclient::uri::parse_uri("/farm/v1/animals/pony").unwrap(),
        version: Version::Http11,
        headers: Headers::new(),
        body: InMemoryBody::Empty,
    };
    let part = Part::request(inner);
    form.parts.push(part);

    let bytes: Vec<u8> = form.to_bytes();
    let sres = String::from_utf8(bytes).expect("Unable to convert bytes to string");
    let right = format!(
        "--{0}\r\ncontent-type: application/http\r\n\r\nGET /farm/v1/animals/pony\r\n--{0}--\r\n",
        &boundary
    );
    assert_eq!(sres, right);
}

#[test]
fn mod_test_to_bytes() {
    let boundary = "zzz".to_string();
    let mut form = Form {
        content_type: "multipart/mixed".to_string(),
        boundary: boundary.clone(),
        parts: Vec::new(),
    };
    let inner = InMemoryRequest {
        method: Method::Get,
        uri: httpclient::uri::parse_uri("/farm/v1/animals/pony").unwrap(),
        version: Version::Http11,
        headers: Headers::new(),
        body: InMemoryBody::Empty,
    };
    form.parts.push(Part::request(inner));
    let bytes: Vec<u8> = form.to_bytes();
    let sres = String::from_utf8(bytes).expect("Unable to convert bytes to string");
    let right = format!(
        "--{0}\r\ncontent-type: application/http\r\n\r\nGET /farm/v1/animals/pony\r\n--{0}--\r\n",
        &boundary
    );
    assert_eq!(sres, right);
}

#[test]
fn test_to_bytes2() {
    let mut form = Form {
        content_type: "multipart/mixed".to_string(),
        boundary: "zzz".to_string(),
        parts: Vec::new(),
    };
    let mut headers = Headers::new();
    headers.insert("Content-Disposition", "form-data; name=\"MetaData\"");
    let body = obj(vec![
        ("Content", JsonValue::Str("message".to_string())),
        ("DisputeTypeCode", JsonValue::Str("BackupRequest".to_string())),
        ("DisputeTypeDescription", JsonValue::Str("Backup Request".to_string())),
        ("Documents", JsonValue::Arr(vec![])),
        ("TransactionId", JsonValue::Num(1)),
    ]);
    form.parts.push(Part::new(headers, InMemoryBody::Json(body)));
    let bytes: Vec<u8> = form.to_bytes();
    let sres = String::from_utf8(bytes).expect("Unable to convert bytes to string");
    let right = "--zzz\r\ncontent-disposition: form-data; name=\"MetaData\"\r\n\r\n{\"Content\":\"message\",\"DisputeTypeCode\":\"BackupRequest\",\"DisputeTypeDescription\":\"Backup Request\",\"Documents\":[],\"TransactionId\":1}\r\n--zzz--\r\n";
    assert_eq!(sres, right);
}

#[test]
fn multipart_roundtrip() {
    let mut form = Form {
        content_type: "multipart/mixed".to_string(),
        boundary: "zzz".to_string(),
        parts: Vec::new(),
    };
    let inner = InMemoryRequest {
        method: Method::Get,
        uri: httpclient::uri::parse_uri("/a").unwrap(),
        version: Version::Http11,
        headers: Headers::new(),
        body: InMemoryBody::Empty,
    };
    form.parts.push(Part::request(inner));
    let text = String::from_utf8(form.to_bytes()).unwrap();
    assert_eq!(text, "--zzz\r\ncontent-type: application/http\r\n\r\nGET /a\r\n--zzz--\r\n");
    // decode the single part: its header block and its payload come back
    let segment = text.strip_prefix("--zzz\r\n").unwrap().strip_suffix("--zzz--\r\n").unwrap();
    let (headers, rest) = parse_headers(segment).unwrap();
    assert_eq!(headers.get("content-type").unwrap(), "application/http");
    // the blank separator line stays with the payload
    assert_eq!(rest, "\r\nGET /a\r\n");
    assert_eq!(&rest[2..], "GET /a\r\n");
}

#[test]
fn gen_boundary_shape() {
    let b = httpclient::multipart::gen_boundary();
    assert_eq!(b.len(), 67);
    let bytes = b.as_bytes();
    assert_eq!(bytes[16], b'-');
    assert_eq!(bytes[33], b'-');
    assert_eq!(bytes[50], b'-');
}

#[test]
fn client_execute_scripted() {
    let client = Client::new()
        .base_url("https://www.jsonip.com")
        .no_default_headers()
        .with_middleware(Mw::Recorder(Recorder::new().mode(RecorderMode::ForceNoRequests)));
    let mut recorded_req = RequestBuilder::get("https://www.jsonip.com/").build();
    sanitize_request(&mut recorded_req);
    let recorded = resp(200, vec![], InMemoryBody::Json(obj(vec![(
        "ip",
        JsonValue::Str("70.107.97.117".to_string()),
    )])));
    let mut st = state(vec![]);
    st.store.insert_loaded(recorded_req, recorded);
    let b = client.get("/");
    let out = client.execute(b, &mut st).unwrap();
    assert_eq!(out.status, 200);
}

#[test]
fn error_for_status() {
    let r = resp(404, vec![], InMemoryBody::Text("gone".to_string()));
    assert!(r.error_for_status().is_err());
    let r = resp(200, vec![], InMemoryBody::Empty);
    assert!(r.error_for_status().is_ok());
}

#[test]
fn into_result_promotes_bytes() {
    let r = resp(200, vec![], InMemoryBody::Bytes(b"plain".to_vec()));
    let out = r.into_result().unwrap();
    assert!(matches!(&out.body, InMemoryBody::Text(t) if t == "plain"));
    let r = resp(404, vec![], InMemoryBody::Bytes(b"gone".to_vec()));
    match r.into_result() {
        Err(httpclient::error::Error::HttpError(res)) => {
            assert!(matches!(&res.body, InMemoryBody::Text(t) if t == "gone"));
        },
        _ => panic!("expected an http error"),
    }
}

#[test]
fn client_absolute_url_bypasses_base() {
    let client = Client::new().base_url("https://base.test");
    let b = client.get("https://other.test/x");
    assert_eq!(b.uri.to_string(), "https://other.test/x");
    let b = client.get("/rel");
    assert_eq!(b.uri.to_string(), "https://base.test/rel");
}

#[test]
fn execute_seeds_token_from_middleware() {
    let client = Client::new().no_default_headers().with_middleware(Mw::OAuth2(oauth_mw()));
    let mut st = state(vec![Ok(resp(200, vec![], InMemoryBody::Empty))]);
    let b = client.get("https://api.test/thing");
    let out = client.execute(b, &mut st).unwrap();
    assert_eq!(out.status, 200);
    // the middleware's access token seeded the slot before the run
    assert_eq!(st.token, "old");
    assert_eq!(st.dispatched[0].header("authorization").unwrap(), "Bearer old");
}
