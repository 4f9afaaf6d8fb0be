use vstd::prelude::*;
use vstd::utf8::{decode_utf8, encode_utf8, valid_utf8};
use crate::error::{IoKind, ProtocolError};
use crate::http::{h_get, pe_chars, percent_encode};
use crate::middleware::{OAuth2, TokenType};
use crate::uri::{find_first, lemma_find_first_is, lemma_find_first_none, parse_uri,
    parse_uri_spec, scan, substr, Uri};

verus! {

/// What the user is asked on the authorization page.
#[derive(Debug)]
pub enum PromptType {
    NoPrompt,
    Consent,
    SelectAccount,
    Other(String),
}

pub open spec fn prompt_chars(p: PromptType) -> Seq<char> {
    match p {
        PromptType::NoPrompt => "none"@,
        PromptType::Consent => "consent"@,
        PromptType::SelectAccount => "select_account"@,
        PromptType::Other(s) => s@,
    }
}

impl PromptType {
    pub fn as_str(&self) -> (r: &str)
        ensures
            r@ == prompt_chars(*self),
    {
        match self {
            PromptType::NoPrompt => "none",
            PromptType::Consent => "consent",
            PromptType::SelectAccount => "select_account",
            PromptType::Other(s) => s.as_str(),
        }
    }
}

/// Whether a refresh token is asked for.
#[derive(Debug)]
pub enum AccessType {
    Offline,
    Other(String),
}

pub open spec fn access_chars(a: AccessType) -> Seq<char> {
    match a {
        AccessType::Offline => "offline"@,
        AccessType::Other(s) => s@,
    }
}

impl AccessType {
    pub fn as_str(&self) -> (r: &str)
        ensures
            r@ == access_chars(*self),
    {
        match self {
            AccessType::Offline => "offline",
            AccessType::Other(s) => s.as_str(),
        }
    }
}

/// Parameters for starting the authorization flow.
#[derive(Debug)]
pub struct Initialize {
    pub scope: String,
    pub access_type: AccessType,
    pub state: Option<String>,
    pub prompt: PromptType,
}

impl Initialize {
    pub fn no_state(scope: String, access_type: AccessType) -> (r: Initialize)
        ensures
            r.scope@ == scope@,
            r.access_type == access_type,
            r.state is None,
            r.prompt is NoPrompt,
    {
        Initialize { scope, access_type, state: None, prompt: PromptType::NoPrompt }
    }

    pub fn prompt(self, prompt: PromptType) -> (r: Initialize)
        ensures
            r.prompt == prompt,
            r.scope == self.scope && r.access_type == self.access_type && r.state == self.state,
    {
        Initialize { prompt, ..self }
    }
}

/// The parameters the authorization server sends back to the redirect URI.
#[derive(Debug)]
pub struct RedirectData {
    pub code: String,
    pub state: Option<String>,
}

/// The form exchanged for the first access token.
#[derive(Debug)]
pub struct ExchangeData {
    pub code: String,
    pub client_id: String,
    pub client_secret: String,
    pub redirect_uri: String,
    pub grant_type: String,
}

/// What the exchange endpoint answers.
#[derive(Debug)]
pub struct ExchangeResponse {
    pub access_token: String,
    pub expires_in: u64,
    pub refresh_token: Option<String>,
    pub scope: Option<String>,
    pub token_type: TokenType,
}

/// The form a refresh presents to the refresh endpoint.
#[derive(Debug)]
pub struct RefreshRequest {
    pub client_id: String,
    pub client_secret: String,
    pub grant_type: String,
    pub refresh_token: String,
}

impl RefreshRequest {
    /// The url-encoded form body this request spells.
    pub fn form_body(&self) -> (r: String)
        ensures
            r@ == "client_id="@ + pe_chars(self.client_id@) + "&client_secret="@ + pe_chars(
                self.client_secret@,
            ) + "&grant_type="@ + pe_chars(self.grant_type@) + "&refresh_token="@ + pe_chars(
                self.refresh_token@,
            ),
    {
        let mut body = String::from_str("client_id=");
        body.append(percent_encode(self.client_id.as_str()).as_str());
        body.append("&client_secret=");
        body.append(percent_encode(self.client_secret.as_str()).as_str());
        body.append("&grant_type=");
        body.append(percent_encode(self.grant_type.as_str()).as_str());
        body.append("&refresh_token=");
        body.append(percent_encode(self.refresh_token.as_str()).as_str());
        proof {
            assert(body@ =~= "client_id="@ + pe_chars(self.client_id@) + "&client_secret="@
                + pe_chars(self.client_secret@) + "&grant_type="@ + pe_chars(self.grant_type@)
                + "&refresh_token="@ + pe_chars(self.refresh_token@));
        }
        body
    }
}

/// The refresh endpoint and the credentials a refresh presents.
#[derive(Debug)]
pub struct RefreshConfig {
    pub refresh_url: String,
    pub client_id: String,
    pub client_secret: String,
}

/// What the refresh endpoint answers.
#[derive(Debug)]
pub struct RefreshResponse {
    pub access_token: String,
    pub expires_in: u64,
    pub scope: Option<String>,
    pub token_type: TokenType,
    pub refresh_token: Option<String>,
}

/// The exchange answered without a refresh token; re-authorization without
/// `prompt=consent` does that.
#[derive(Debug)]
pub struct MissingRefreshToken;

impl MissingRefreshToken {
    /// A short description, in place of a `Display` implementation.
    pub fn message(&self) -> (r: &'static str)
        ensures
            r@.len() > 0,
    {
        proof {
            reveal_strlit("the exchange response carries no refresh token");
        }
        "the exchange response carries no refresh token"
    }
}

/// The authorization-flow endpoints and client credentials.
#[derive(Debug)]
pub struct OAuth2Flow {
    pub client_id: String,
    pub client_secret: String,
    pub init_endpoint: String,
    pub exchange_endpoint: String,
    pub refresh_endpoint: String,
    pub redirect_uri: String,
}

/// The query of the authorization URL.
pub open spec fn auth_query_chars(f: OAuth2Flow, init: Initialize) -> Seq<char> {
    "client_id="@ + pe_chars(f.client_id@) + "&redirect_uri="@ + pe_chars(f.redirect_uri@)
        + "&response_type=code&scope="@ + pe_chars(init.scope@) + "&access_type="@ + pe_chars(
        access_chars(init.access_type),
    ) + (match init.state {
        Some(s) => "&state="@ + pe_chars(s@),
        None => Seq::empty(),
    }) + "&prompt="@ + pe_chars(prompt_chars(init.prompt))
}

pub open spec fn auth_url_chars(f: OAuth2Flow, init: Initialize) -> Seq<char> {
    f.init_endpoint@ + "?"@ + auth_query_chars(f, init)
}

/// Percent-decoding of query text: `%XX` becomes the named byte, `+` a
/// space, anything else itself.
pub open spec fn hex_val(b: u8) -> int {
    if 48 <= b <= 57 {
        b - 48
    } else if 97 <= b <= 102 {
        b - 87
    } else if 65 <= b <= 70 {
        b - 55
    } else {
        -1
    }
}

pub open spec fn pd_bytes(b: Seq<u8>) -> Seq<u8>
    decreases b.len(),
{
    if b.len() == 0 {
        Seq::empty()
    } else if b[0] == 37 && b.len() >= 3 && hex_val(b[1]) >= 0 && hex_val(b[2]) >= 0 {
        seq![(hex_val(b[1]) * 16 + hex_val(b[2])) as u8] + pd_bytes(b.skip(3))
    } else if b[0] == 43 {
        seq![32u8] + pd_bytes(b.skip(1))
    } else {
        seq![b[0]] + pd_bytes(b.skip(1))
    }
}

/// The decoded text of a query value, when its decoded bytes are UTF-8.
pub open spec fn pd_chars(s: Seq<char>) -> Option<Seq<char>> {
    let d = pd_bytes(encode_utf8(s));
    if valid_utf8(d) {
        Some(decode_utf8(d))
    } else {
        None
    }
}

fn hex_val_exec(b: u8) -> (r: Option<u8>)
    ensures
        match r {
            Some(v) => hex_val(b) == v as int && v < 16,
            None => hex_val(b) < 0,
        },
{
    if 48 <= b && b <= 57 {
        Some(b - 48)
    } else if 97 <= b && b <= 102 {
        Some(b - 87)
    } else if 65 <= b && b <= 70 {
        Some(b - 55)
    } else {
        None
    }
}

/// Percent-decode a query component.
pub fn percent_decode(s: &str) -> (r: Option<String>)
    ensures
        match r {
            Some(d) => pd_chars(s@) == Some(d@),
            None => pd_chars(s@) is None,
        },
{
    let sb = s.as_bytes();
    let n = sb.len();
    let mut out: Vec<u8> = Vec::new();
    let mut i: usize = 0;
    proof {
        assert(sb@.skip(0) =~= sb@);
    }
    while i < n
        invariant
            i <= n,
            n == sb@.len(),
            pd_bytes(sb@) == out@ + pd_bytes(sb@.skip(i as int)),
        decreases n - i,
    {
        let ghost rest = sb@.skip(i as int);
        let b = sb[i];
        proof {
            assert(rest[0] == sb@[i as int]);
        }
        if b == 37 && n - i > 2 {
            let h1 = hex_val_exec(sb[i + 1]);
            let h2 = hex_val_exec(sb[i + 2]);
            match (h1, h2) {
                (Some(v1), Some(v2)) => {
                    proof {
                        assert(rest[1] == sb@[i as int + 1]);
                        assert(rest[2] == sb@[i as int + 2]);
                        assert(rest.skip(3) =~= sb@.skip(i as int + 3));
                        assert(pd_bytes(rest) == seq![(hex_val(rest[1]) * 16 + hex_val(rest[2])) as u8]
                            + pd_bytes(rest.skip(3)));
                        assert(out@ + pd_bytes(rest) =~= out@.push(
                            (hex_val(rest[1]) * 16 + hex_val(rest[2])) as u8,
                        ) + pd_bytes(rest.skip(3)));
                    }
                    out.push(v1 * 16 + v2);
                    i = i + 3;
                },
                _ => {
                    proof {
                        assert(rest.skip(1) =~= sb@.skip(i as int + 1));
                        assert(out@ + pd_bytes(rest) =~= out@.push(rest[0]) + pd_bytes(
                            rest.skip(1),
                        ));
                    }
                    out.push(b);
                    i = i + 1;
                },
            }
        } else if b == 43 {
            proof {
                assert(rest.skip(1) =~= sb@.skip(i as int + 1));
                assert(out@ + pd_bytes(rest) =~= out@.push(32u8) + pd_bytes(rest.skip(1)));
            }
            out.push(32);
            i = i + 1;
        } else {
            proof {
                if b == 37 {
                    assert(rest.len() < 3 || hex_val(rest[1]) < 0 || hex_val(rest[2]) < 0);
                }
                assert(rest.skip(1) =~= sb@.skip(i as int + 1));
                assert(out@ + pd_bytes(rest) =~= out@.push(rest[0]) + pd_bytes(rest.skip(1)));
            }
            out.push(b);
            i = i + 1;
        }
    }
    proof {
        assert(sb@.skip(n as int).len() == 0);
        assert(out@ + pd_bytes(sb@.skip(n as int)) =~= out@);
    }
    match crate::body::utf8_decode(out) {
        Ok(d) => Some(d),
        Err(_) => None,
    }
}

/// The pairs of a query string: segments between `&`, each split at its
/// first `=`; a segment without `=` has an empty value.
pub open spec fn split_eq(p: Seq<char>) -> (Seq<char>, Seq<char>) {
    match find_first(p, 6) {
        Some(e) => (p.take(e), p.skip(e + 1)),
        None => (p, Seq::empty()),
    }
}

pub open spec fn query_pairs(q: Seq<char>) -> Seq<(Seq<char>, Seq<char>)>
    decreases q.len(),
{
    match find_first(q, 5) {
        Some(a) => if 0 <= a < q.len() {
            seq![split_eq(q.take(a))] + query_pairs(q.skip(a + 1))
        } else {
            seq![split_eq(q)]
        },
        None => seq![split_eq(q)],
    }
}

fn split_eq_exec(p: &str) -> (r: (String, String))
    ensures
        r.0@ == split_eq(p@).0,
        r.1@ == split_eq(p@).1,
{
    let n = p.unicode_len();
    match scan(p, 0, 6) {
        Some(e) => {
            proof {
                lemma_find_first_is(p@, 6, e as int);
            }
            (substr(p, 0, e), substr(p, e + 1, n))
        },
        None => {
            proof {
                lemma_find_first_none(p@, 6);
            }
            (String::from_str(p), String::new())
        },
    }
}

/// The pairs of a query string, decoded keys kept raw.
pub fn parse_query_pairs(q: &str) -> (r: Vec<(String, String)>)
    ensures
        r@.map_values(|p: (String, String)| (p.0@, p.1@)) == query_pairs(q@),
{
    let mut out: Vec<(String, String)> = Vec::new();
    let n = q.unicode_len();
    let mut pos: usize = 0;
    proof {
        assert(q@.skip(0) =~= q@);
    }
    loop
        invariant
            pos <= n,
            n == q@.len(),
            query_pairs(q@) == out@.map_values(|p: (String, String)| (p.0@, p.1@))
                + query_pairs(q@.skip(pos as int)),
        decreases n - pos,
    {
        let ghost rest = q@.skip(pos as int);
        match scan(q, pos, 5) {
            Some(a) => {
                proof {
                    assert forall|k: int| 0 <= k < a - pos implies !crate::uri::char_in_mode(
                        #[trigger] rest[k],
                        5,
                    ) by {
                        assert(rest[k] == q@[k + pos]);
                    }
                    assert(rest[a as int - pos as int] == q@[a as int]);
                    lemma_find_first_is(rest, 5, a as int - pos as int);
                }
                let seg = substr(q, pos, a);
                let pair = split_eq_exec(seg.as_str());
                let ghost pre = out@.map_values(|p: (String, String)| (p.0@, p.1@));
                out.push(pair);
                proof {
                    assert(seg@ =~= rest.take(a as int - pos as int));
                    assert(rest.skip(a as int - pos as int + 1) =~= q@.skip(a as int + 1));
                    assert(out@.map_values(|p: (String, String)| (p.0@, p.1@)) =~= pre
                        + seq![split_eq(rest.take(a as int - pos as int))]);
                    assert(pre + (seq![split_eq(rest.take(a as int - pos as int))]
                        + query_pairs(rest.skip(a as int - pos as int + 1))) =~= (pre + seq![
                        split_eq(rest.take(a as int - pos as int)),
                    ]) + query_pairs(rest.skip(a as int - pos as int + 1)));
                }
                pos = a + 1;
            },
            None => {
                proof {
                    assert forall|k: int| 0 <= k < rest.len() implies !crate::uri::char_in_mode(
                        #[trigger] rest[k],
                        5,
                    ) by {
                        assert(rest[k] == q@[k + pos]);
                    }
                    lemma_find_first_none(rest, 5);
                }
                let seg = substr(q, pos, n);
                let pair = split_eq_exec(seg.as_str());
                let ghost pre = out@.map_values(|p: (String, String)| (p.0@, p.1@));
                out.push(pair);
                proof {
                    assert(seg@ =~= rest);
                    assert(out@.map_values(|p: (String, String)| (p.0@, p.1@)) =~= pre + seq![
                        split_eq(rest),
                    ]);
                }
                return out;
            },
        }
    }
}

/// The decoded value under a query key: the first `key=value` pair,
/// percent-decoded.
pub open spec fn query_lookup(q: Seq<char>, key: Seq<char>) -> Option<Option<Seq<char>>> {
    match h_get(query_pairs(q), key) {
        Some(raw) => Some(pd_chars(raw)),
        None => None,
    }
}

fn query_get(q: &str, key: &str) -> (r: Option<Option<String>>)
    ensures
        match r {
            Some(Some(v)) => query_lookup(q@, key@) == Some(Some(v@)),
            Some(None) => query_lookup(q@, key@) == Some(None::<Seq<char>>),
            None => query_lookup(q@, key@) is None,
        },
{
    let pairs = parse_query_pairs(q);
    let n = pairs.len();
    let mut i: usize = 0;
    while i < n
        invariant
            i <= n,
            n == pairs@.len(),
            query_pairs(q@) == pairs@.map_values(|p: (String, String)| (p.0@, p.1@)),
            forall|k: int| 0 <= k < i ==> (#[trigger] pairs@[k].0@) != key@,
        decreases n - i,
    {
        if crate::sanitize::str_eq(pairs[i].0.as_str(), key) {
            proof {
                crate::http::lemma_h_get_at(query_pairs(q@), key@, i as int);
            }
            return match percent_decode(pairs[i].1.as_str()) {
                Some(v) => Some(Some(v)),
                None => Some(None),
            };
        }
        i = i + 1;
    }
    proof {
        crate::http::lemma_h_get_none(query_pairs(q@), key@);
    }
    None
}

impl OAuth2Flow {
    /// The URL the user is sent to: the init endpoint with the client,
    /// redirect, scope, access type, optional state and prompt in the query.
    /// The assembled URL must parse, which it does for a well-formed init
    /// endpoint.
    pub fn create_authorization_url(&self, init: Initialize) -> (r: Uri)
        requires
            parse_uri_spec(auth_url_chars(*self, init)) is Some,
        ensures
            parse_uri_spec(auth_url_chars(*self, init)) == Some(r@),
    {
        let mut url = self.init_endpoint.clone();
        url.append("?");
        url.append("client_id=");
        url.append(percent_encode(self.client_id.as_str()).as_str());
        url.append("&redirect_uri=");
        url.append(percent_encode(self.redirect_uri.as_str()).as_str());
        url.append("&response_type=code&scope=");
        url.append(percent_encode(init.scope.as_str()).as_str());
        url.append("&access_type=");
        url.append(percent_encode(init.access_type.as_str()).as_str());
        match &init.state {
            Some(s) => {
                url.append("&state=");
                url.append(percent_encode(s.as_str()).as_str());
            },
            None => {},
        }
        url.append("&prompt=");
        url.append(percent_encode(init.prompt.as_str()).as_str());
        proof {
            assert(url@ =~= auth_url_chars(*self, init));
        }
        match parse_uri(url.as_str()) {
            Some(u) => u,
            None => {
                proof {
                    assert(false);
                }
                Uri { scheme: None, authority: None, path: String::new(), query: None }
            },
        }
    }

    /// Read the code (and optional state) out of the redirect URL; the URL
    /// must carry a query with a decodable `code` pair.
    pub fn extract_code(&self, url: &str) -> (r: Result<RedirectData, ProtocolError>)
        ensures
            match r {
                Ok(rd) => parse_uri_spec(url@) matches Some(u) && u.query matches Some(q)
                    && query_lookup(q, "code"@) == Some(Some(rd.code@)) && (match rd.state {
                    Some(st) => query_lookup(q, "state"@) == Some(Some(st@)),
                    None => !(query_lookup(q, "state"@) matches Some(Some(_))),
                }),
                Err(_) => {
                    ||| parse_uri_spec(url@) is None
                    ||| (parse_uri_spec(url@) matches Some(u) && (u.query is None
                        || !(query_lookup(u.query->Some_0, "code"@) matches Some(Some(_)))))
                },
            },
    {
        let u = match parse_uri(url) {
            Some(u) => u,
            None => {
                return Err(
                    ProtocolError::IoError(IoKind::Other, String::from_str("invalid redirect url")),
                );
            },
        };
        let q = match u.query {
            Some(q) => q,
            None => {
                return Err(
                    ProtocolError::IoError(IoKind::Other, String::from_str("redirect url has no query")),
                );
            },
        };
        let code = match query_get(q.as_str(), "code") {
            Some(Some(code)) => code,
            _ => {
                return Err(
                    ProtocolError::IoError(IoKind::Other, String::from_str("missing code parameter")),
                );
            },
        };
        let state = match query_get(q.as_str(), "state") {
            Some(Some(st)) => Some(st),
            _ => None,
        };
        Ok(RedirectData { code, state })
    }

    /// The form exchanged for the first access token.
    pub fn create_exchange_data(&self, code: String) -> (r: ExchangeData)
        ensures
            r.code@ == code@,
            r.client_id@ == self.client_id@,
            r.client_secret@ == self.client_secret@,
            r.redirect_uri@ == self.redirect_uri@,
            r.grant_type@ == "authorization_code"@,
    {
        ExchangeData {
            code,
            client_id: self.client_id.clone(),
            client_secret: self.client_secret.clone(),
            redirect_uri: self.redirect_uri.clone(),
            grant_type: String::from_str("authorization_code"),
        }
    }

    /// Turn an exchange response into the authorizing middleware; fails when
    /// the response carries no refresh token.
    pub fn middleware_from_exchange(&self, exchange: ExchangeResponse) -> (r: Result<
        OAuth2,
        MissingRefreshToken,
    >)
        ensures
            match r {
                Ok(m) => exchange.refresh_token matches Some(rt) && m.refresh_token@ == rt@
                    && m.access_token@ == exchange.access_token@ && m.refresh_endpoint@
                    == self.refresh_endpoint@ && m.client_id@ == self.client_id@
                    && m.client_secret@ == self.client_secret@ && m.token_type@
                    == exchange.token_type@,
                Err(_) => exchange.refresh_token is None,
            },
    {
        let refresh_token = match exchange.refresh_token {
            Some(rt) => rt,
            None => {
                return Err(MissingRefreshToken);
            },
        };
        Ok(
            OAuth2 {
                refresh_endpoint: self.refresh_endpoint.clone(),
                client_id: self.client_id.clone(),
                client_secret: self.client_secret.clone(),
                token_type: exchange.token_type,
                access_token: exchange.access_token,
                refresh_token,
            },
        )
    }

    /// The authorizing middleware for a known bearer token pair.
    pub fn bearer_middleware(&self, access: String, refresh: String) -> (r: OAuth2)
        ensures
            r.refresh_endpoint@ == self.refresh_endpoint@,
            r.client_id@ == self.client_id@,
            r.client_secret@ == self.client_secret@,
            r.token_type@ is Bearer,
            r.access_token@ == access@,
            r.refresh_token@ == refresh@,
    {
        OAuth2 {
            refresh_endpoint: self.refresh_endpoint.clone(),
            client_id: self.client_id.clone(),
            client_secret: self.client_secret.clone(),
            token_type: TokenType::Bearer,
            access_token: access,
            refresh_token: refresh,
        }
    }
}

} // verus!
