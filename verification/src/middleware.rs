use vstd::prelude::*;
use crate::body::{body_wire_bytes, BodyV, InMemoryBody};
use crate::error::{IoKind, PErrV, ProtocolError};
use crate::http::{
    dec_chars, dec_string, h_contains, h_get, is_client_error, is_redirection, is_server_error,
    lower_chars, pe_chars, percent_encode, Headers, Method, Version,
};
use crate::json::{obj_get_spec, obj_get, JVal, JsonValue};
use crate::recorder::{store_lookup, store_record_spec, RequestRecorder, StoreV};
use crate::request::{InMemoryRequest, ReqV};
use crate::response::{InMemoryResponse, RespV};
use crate::uri::{merge_uri, parse_uri, parse_uri_spec, wf_uri, Uri, UriV};

verus! {

/// How an access token is carried: as `Authorization: Bearer <token>` or
/// under a custom header name.
#[derive(Debug)]
pub enum TokenType {
    Bearer,
    Other(String),
}

pub enum TokV {
    Bearer,
    Other(Seq<char>),
}

impl View for TokenType {
    type V = TokV;

    open spec fn view(&self) -> TokV {
        match self {
            TokenType::Bearer => TokV::Bearer,
            TokenType::Other(s) => TokV::Other(s@),
        }
    }
}

impl Clone for TokenType {
    fn clone(&self) -> (r: Self)
        ensures
            r@ == self@,
    {
        match self {
            TokenType::Bearer => TokenType::Bearer,
            TokenType::Other(s) => TokenType::Other(s.clone()),
        }
    }
}

/// The tokens handed out by a completed refresh.
#[derive(Debug)]
pub struct RefreshData {
    pub access_token: String,
    pub token_type: TokenType,
    pub expires_in: u64,
    pub refresh_token: Option<String>,
    pub scope: Option<String>,
}

#[verifier::ext_equal]
pub struct RefreshV {
    pub access_token: Seq<char>,
    pub token_type: TokV,
    pub expires_in: int,
    pub refresh_token: Option<Seq<char>>,
    pub scope: Option<Seq<char>>,
}

impl View for RefreshData {
    type V = RefreshV;

    open spec fn view(&self) -> RefreshV {
        RefreshV {
            access_token: self.access_token@,
            token_type: self.token_type@,
            expires_in: self.expires_in as int,
            refresh_token: match self.refresh_token {
                Some(ref s) => Some(s@),
                None => None,
            },
            scope: match self.scope {
                Some(ref s) => Some(s@),
                None => None,
            },
        }
    }
}

/// Retry on a classified set of statuses, with exponential back-off and
/// honoring of server retry hints.
#[derive(Debug)]
pub struct Retry {
    pub max_retries: usize,
    pub backoff_delay_ms: u64,
    pub retry_codes: Vec<u16>,
}

#[verifier::ext_equal]
pub struct RetryV {
    pub max_retries: int,
    pub backoff_delay_ms: int,
    pub retry_codes: Seq<u16>,
}

impl View for Retry {
    type V = RetryV;

    open spec fn view(&self) -> RetryV {
        RetryV {
            max_retries: self.max_retries as int,
            backoff_delay_ms: self.backoff_delay_ms as int,
            retry_codes: self.retry_codes@,
        }
    }
}

impl Retry {
    /// The default policy: three retries, a two-second base delay, and the
    /// four retryable statuses 408, 425, 429 and 503.
    pub fn new() -> (r: Retry)
        ensures
            r@.max_retries == 3,
            r@.backoff_delay_ms == 2000,
            r@.retry_codes == seq![408u16, 429u16, 425u16, 503u16],
    {
        let mut codes: Vec<u16> = Vec::new();
        codes.push(408);
        codes.push(429);
        codes.push(425);
        codes.push(503);
        proof {
            assert(codes@ =~= seq![408u16, 429u16, 425u16, 503u16]);
        }
        Retry { max_retries: 3, backoff_delay_ms: 2000, retry_codes: codes }
    }

    /// Set the back-off delay used when the server gives no hint.
    pub fn backoff_delay(self, delay_ms: u64) -> (r: Self)
        ensures
            r@ == (RetryV { backoff_delay_ms: delay_ms as int, ..self@ }),
    {
        Retry { backoff_delay_ms: delay_ms, ..self }
    }

    /// Set the maximum number of retries.
    pub fn max_retries(self, max_retries: usize) -> (r: Self)
        ensures
            r@ == (RetryV { max_retries: max_retries as int, ..self@ }),
    {
        Retry { max_retries, ..self }
    }

    /// Set the statuses that are retried.
    pub fn retry_codes(self, codes: Vec<u16>) -> (r: Self)
        ensures
            r@ == (RetryV { retry_codes: codes@, ..self@ }),
    {
        Retry { retry_codes: codes, ..self }
    }
}

/// Follow 3xx redirects, at most ten times.
#[derive(Debug, Clone, Copy)]
pub struct Follow;

/// What the recorder does on lookup hit and miss.
#[derive(Debug, Clone, Copy, PartialEq, Eq, Structural)]
pub enum RecorderMode {
    RecordOrRequest,
    IgnoreRecordings,
    ForceNoRequests,
}

impl Default for RecorderMode {
    fn default() -> (r: Self)
        ensures
            r == RecorderMode::RecordOrRequest,
    {
        RecorderMode::RecordOrRequest
    }
}

pub open spec fn mode_should_lookup(m: RecorderMode) -> bool {
    match m {
        RecorderMode::IgnoreRecordings => false,
        RecorderMode::ForceNoRequests | RecorderMode::RecordOrRequest => true,
    }
}

pub open spec fn mode_should_request(m: RecorderMode) -> bool {
    match m {
        RecorderMode::IgnoreRecordings | RecorderMode::RecordOrRequest => true,
        RecorderMode::ForceNoRequests => false,
    }
}

impl RecorderMode {
    pub fn should_lookup(self) -> (r: bool)
        ensures
            r == mode_should_lookup(self),
    {
        match self {
            RecorderMode::IgnoreRecordings => false,
            RecorderMode::ForceNoRequests | RecorderMode::RecordOrRequest => true,
        }
    }

    pub fn should_request(self) -> (r: bool)
        ensures
            r == mode_should_request(self),
    {
        match self {
            RecorderMode::IgnoreRecordings | RecorderMode::RecordOrRequest => true,
            RecorderMode::ForceNoRequests => false,
        }
    }
}

/// Serve and persist recordings of exchanges, keyed by fingerprint.
#[derive(Debug, Clone, Copy, Default)]
pub struct Recorder {
    pub mode: RecorderMode,
}

impl Recorder {
    pub fn new() -> (r: Self)
        ensures
            r.mode == RecorderMode::RecordOrRequest,
    {
        Recorder { mode: RecorderMode::RecordOrRequest }
    }

    pub fn mode(self, mode: RecorderMode) -> (r: Self)
        ensures
            r.mode == mode,
    {
        Recorder { mode }
    }

    pub fn should_lookup(self) -> (r: bool)
        ensures
            r == mode_should_lookup(self.mode),
    {
        self.mode.should_lookup()
    }

    pub fn should_request(self) -> (r: bool)
        ensures
            r == mode_should_request(self.mode),
    {
        self.mode.should_request()
    }
}

/// Authorize requests with an access token; on a 401, refresh the token
/// through the same pipeline and replay the request once.
#[derive(Debug)]
pub struct OAuth2 {
    pub refresh_endpoint: String,
    pub client_id: String,
    pub client_secret: String,
    pub token_type: TokenType,
    /// The current access token; `seed_token` (called by the client's
    /// `execute`) copies it into the pipeline state's token slot.
    pub access_token: String,
    pub refresh_token: String,
}

#[verifier::ext_equal]
pub struct OAuthV {
    pub refresh_endpoint: Seq<char>,
    pub client_id: Seq<char>,
    pub client_secret: Seq<char>,
    pub token_type: TokV,
    pub access_token: Seq<char>,
    pub refresh_token: Seq<char>,
}

impl View for OAuth2 {
    type V = OAuthV;

    open spec fn view(&self) -> OAuthV {
        OAuthV {
            refresh_endpoint: self.refresh_endpoint@,
            client_id: self.client_id@,
            client_secret: self.client_secret@,
            token_type: self.token_type@,
            access_token: self.access_token@,
            refresh_token: self.refresh_token@,
        }
    }
}

impl Clone for OAuth2 {
    fn clone(&self) -> (r: Self)
        ensures
            r@ == self@,
    {
        OAuth2 {
            refresh_endpoint: self.refresh_endpoint.clone(),
            client_id: self.client_id.clone(),
            client_secret: self.client_secret.clone(),
            token_type: self.token_type.clone(),
            access_token: self.access_token.clone(),
            refresh_token: self.refresh_token.clone(),
        }
    }
}

impl OAuth2 {
    /// The refresh request this middleware would issue, for callers that
    /// want to inspect or replay it; the refresh endpoint must parse.
    pub fn make_refresh_request(&self) -> (r: Result<InMemoryRequest, ProtocolError>)
        ensures
            match r {
                Ok(req) => parse_uri_spec(self.refresh_endpoint@) matches Some(u) && req@
                    == refresh_req_spec(self@, u),
                Err(_) => parse_uri_spec(self.refresh_endpoint@) is None,
            },
    {
        match parse_uri(self.refresh_endpoint.as_str()) {
            Some(u) => Ok(make_refresh_req(self, u)),
            None => Err(
                ProtocolError::IoError(
                    IoKind::Other,
                    String::from_str("invalid refresh endpoint"),
                ),
            ),
        }
    }
}

/// A middleware installed on the pipeline. `Passthrough` stands for a
/// middleware that only observes and hands the request on unchanged.
#[derive(Debug)]
pub enum Mw {
    Passthrough,
    Retry(Retry),
    Follow(Follow),
    Recorder(Recorder),
    OAuth2(OAuth2),
}

pub enum MwV {
    Passthrough,
    Retry(RetryV),
    Follow,
    Recorder(RecorderMode),
    OAuth2(OAuthV),
}

impl View for Mw {
    type V = MwV;

    open spec fn view(&self) -> MwV {
        match self {
            Mw::Passthrough => MwV::Passthrough,
            Mw::Retry(r) => MwV::Retry(r@),
            Mw::Follow(_) => MwV::Follow,
            Mw::Recorder(r) => MwV::Recorder(r.mode),
            Mw::OAuth2(o) => MwV::OAuth2(o@),
        }
    }
}

pub open spec fn mws_view(mws: Seq<Mw>) -> Seq<MwV> {
    mws.map_values(|m: Mw| m@)
}

/// The state a pipeline run works over: the transport script standing in for
/// the network, the recorder store, the access-token slot, the clock, and
/// the run's observable effects.
#[derive(Debug)]
pub struct PipeState {
    pub script: Vec<Result<InMemoryResponse, ProtocolError>>,
    pub store: RequestRecorder,
    pub token: String,
    pub now_unix: i64,
    pub dispatched: Vec<InMemoryRequest>,
    pub sleeps: Vec<u64>,
    pub recorded: Vec<(String, JsonValue)>,
    pub refreshes: Vec<RefreshData>,
}

pub open spec fn res_view(r: Result<InMemoryResponse, ProtocolError>) -> Result<RespV, PErrV> {
    match r {
        Ok(resp) => Ok(resp@),
        Err(e) => Err(e@),
    }
}

#[verifier::ext_equal]
pub struct StV {
    pub script: Seq<Result<RespV, PErrV>>,
    pub store: StoreV,
    pub token: Seq<char>,
    pub now: int,
    pub dispatched: Seq<ReqV>,
    pub sleeps: Seq<int>,
    pub recorded: Seq<(Seq<char>, JVal)>,
    pub refreshes: Seq<RefreshV>,
}

impl View for PipeState {
    type V = StV;

    open spec fn view(&self) -> StV {
        StV {
            script: self.script@.map_values(
                |r: Result<InMemoryResponse, ProtocolError>| res_view(r),
            ),
            store: self.store@,
            token: self.token@,
            now: self.now_unix as int,
            dispatched: self.dispatched@.map_values(|q: InMemoryRequest| q@),
            sleeps: self.sleeps@.map_values(|s: u64| s as int),
            recorded: self.recorded@.map_values(|p: (String, JsonValue)| (p.0@, p.1@)),
            refreshes: self.refreshes@.map_values(|d: RefreshData| d@),
        }
    }
}

impl PipeState {
    /// A fresh state over a transport script.
    pub fn new(script: Vec<Result<InMemoryResponse, ProtocolError>>, now_unix: i64) -> (r:
        PipeState)
        ensures
            r@.script == script@.map_values(
                |x: Result<InMemoryResponse, ProtocolError>| res_view(x),
            ),
            r@.store.entries == Seq::<(ReqV, RespV)>::empty(),
            r@.token == Seq::<char>::empty(),
            r@.now == now_unix as int,
            r@.dispatched == Seq::<ReqV>::empty(),
            r@.sleeps == Seq::<int>::empty(),
            r@.recorded == Seq::<(Seq<char>, JVal)>::empty(),
            r@.refreshes == Seq::<RefreshV>::empty(),
    {
        let r = PipeState {
            script,
            store: RequestRecorder::new(),
            token: String::new(),
            now_unix,
            dispatched: Vec::new(),
            sleeps: Vec::new(),
            recorded: Vec::new(),
            refreshes: Vec::new(),
        };
        proof {
            assert(r@.dispatched =~= Seq::<ReqV>::empty());
            assert(r@.sleeps =~= Seq::<int>::empty());
            assert(r@.recorded =~= Seq::<(Seq<char>, JVal)>::empty());
            assert(r@.refreshes =~= Seq::<RefreshV>::empty());
        }
        r
    }
}

/// The request as dispatched: `Content-Length` set from the body size when
/// absent.
pub open spec fn wire_req(req: ReqV) -> ReqV {
    if h_contains(req.headers, lower_chars("content-length"@)) {
        req
    } else {
        ReqV {
            headers: req.headers.push(
                (lower_chars("content-length"@), dec_chars(body_wire_bytes(req.body).len())),
            ),
            ..req
        }
    }
}

/// The transport terminator on a script: the wire request is recorded as a
/// dispatch and the script's next entry answers it; an exhausted script is a
/// connection failure.
pub open spec fn terminal_model(req: ReqV, st: StV) -> (Result<RespV, PErrV>, StV) {
    let w = wire_req(req);
    let st1 = StV { dispatched: st.dispatched.push(w), ..st };
    if st.script.len() == 0 {
        (Err(PErrV::Connection("script exhausted"@)), st1)
    } else {
        (st.script.first(), StV { script: st.script.drop_first(), ..st1 })
    }
}

/// Digits only.
pub open spec fn all_digits(s: Seq<char>) -> bool {
    forall|i: int| 0 <= i < s.len() ==> '0' <= #[trigger] s[i] <= '9'
}

pub open spec fn dec_value(s: Seq<char>) -> int
    decreases s.len(),
{
    if s.len() == 0 {
        0
    } else {
        dec_value(s.drop_last()) * 10 + (s.last() as int - 48)
    }
}

/// A decimal seconds count of at most ten digits: the bound is a machine
/// guard (ten digits always fit, and a longer or signed count falls through
/// to the date parse).
pub open spec fn parse_secs(s: Seq<char>) -> Option<int> {
    if 1 <= s.len() <= 10 && all_digits(s) {
        Some(dec_value(s))
    } else {
        None
    }
}

/// The instant an RFC 2822 date names, as seconds since the Unix epoch.
pub uninterp spec fn rfc2822_unix(s: Seq<char>) -> Option<int>;

/// Relies on the RFC 2822 parser of `cookie::time`: the instant a date
/// spells is a function of the text alone.
#[verifier::external_body]
fn parse_rfc2822_unix(s: &str) -> (r: Option<i64>)
    ensures
        match r {
            Some(t) => rfc2822_unix(s@) == Some(t as int),
            None => rfc2822_unix(s@) is None,
        },
{
    match cookie::time::OffsetDateTime::parse(
        s,
        &cookie::time::format_description::well_known::Rfc2822,
    ) {
        Ok(t) => Some(t.unix_timestamp()),
        Err(_) => None,
    }
}

/// The milliseconds a `Retry-After` value asks to wait: a decimal seconds
/// count (up to ten digits), or the positive span until an RFC 2822 instant.
pub open spec fn calc_delay_spec(v: Seq<char>, now: int) -> Option<int> {
    match parse_secs(v) {
        Some(secs) => Some(secs * 1000),
        None => match rfc2822_unix(v) {
            Some(t) => if t > now {
                Some(
                    if (t - now) * 1000 > u64::MAX {
                        u64::MAX as int
                    } else {
                        (t - now) * 1000
                    },
                )
            } else {
                None
            },
            None => None,
        },
    }
}

/// Powers of ten.
pub open spec fn p10(i: int) -> int
    decreases i,
{
    if i <= 0 {
        1
    } else {
        10 * p10(i - 1)
    }
}

pub(crate) proof fn lemma_p10_mono(i: int, j: int)
    requires
        i <= j,
    ensures
        p10(i) <= p10(j),
        p10(i) >= 1,
    decreases j - i,
{
    if i < j {
        lemma_p10_mono(i, j - 1);
    } else if i == j {
        lemma_p10_mono_pos(i);
    }
}

proof fn lemma_p10_mono_pos(i: int)
    ensures
        p10(i) >= 1,
    decreases (if i > 0 { i } else { 0int }),
{
    if i > 0 {
        lemma_p10_mono_pos(i - 1);
    }
}

pub(crate) proof fn lemma_dec_bound(s: Seq<char>)
    requires
        all_digits(s),
    ensures
        0 <= dec_value(s) < p10(s.len() as int),
    decreases s.len(),
{
    if s.len() > 0 {
        assert forall|k: int| 0 <= k < s.len() - 1 implies '0' <= #[trigger] s.drop_last()[k]
            <= '9' by {
            assert(s.drop_last()[k] == s[k]);
        }
        lemma_dec_bound(s.drop_last());
        assert('0' <= s.last() <= '9');
        assert(0 <= s.last() as int - 48 <= 9);
    }
}

fn parse_secs_exec(v: &str) -> (r: Option<u64>)
    ensures
        match r {
            Some(x) => parse_secs(v@) == Some(x as int),
            None => parse_secs(v@) is None,
        },
{
    let n = v.unicode_len();
    if n < 1 || n > 10 {
        return None;
    }
    let mut acc: u64 = 0;
    let mut i: usize = 0;
    while i < n
        invariant
            1 <= n <= 10,
            i <= n,
            n == v@.len(),
            all_digits(v@.take(i as int)),
            acc == dec_value(v@.take(i as int)),
        decreases n - i,
    {
        let c = v.get_char(i);
        if !('0' <= c && c <= '9') {
            proof {
                assert(!all_digits(v@));
            }
            return None;
        }
        proof {
            lemma_dec_bound(v@.take(i as int));
            lemma_p10_mono(i as int, 9);
            assert(p10(9) == 1000000000) by {
                assert(p10(0) == 1);
                assert(p10(1) == 10);
                assert(p10(2) == 100);
                assert(p10(3) == 1000);
                assert(p10(4) == 10000);
                assert(p10(5) == 100000);
                assert(p10(6) == 1000000);
                assert(p10(7) == 10000000);
                assert(p10(8) == 100000000);
                assert(p10(9) == 1000000000);
            }
            assert(acc < 1000000000);
            assert(v@.take(i as int + 1).drop_last() =~= v@.take(i as int));
            assert(v@.take(i as int + 1).last() == v@[i as int]);
            assert forall|k: int| 0 <= k < i + 1 implies '0' <= #[trigger] v@.take(
                i as int + 1,
            )[k] <= '9' by {
                if k < i as int {
                    assert(v@.take(i as int)[k] == v@.take(i as int + 1)[k]);
                }
            }
        }
        acc = acc * 10 + ((c as u32) as u64 - 48);
        i = i + 1;
    }
    proof {
        assert(v@.take(n as int) =~= v@);
    }
    Some(acc)
}

/// Decide the wait a `Retry-After` value asks for.
pub fn calc_delay(v: &str, now: i64) -> (r: Option<u64>)
    requires
        now >= 0,
    ensures
        match r {
            Some(ms) => calc_delay_spec(v@, now as int) == Some(ms as int),
            None => calc_delay_spec(v@, now as int) is None,
        },
{
    match parse_secs_exec(v) {
        Some(secs) => {
            proof {
                assert(1 <= v@.len() <= 10);
                assert(all_digits(v@));
                lemma_dec_bound(v@);
                lemma_p10_mono(v@.len() as int, 10);
                assert(p10(10) == 10000000000) by {
                    assert(p10(0) == 1);
                    assert(p10(1) == 10);
                    assert(p10(2) == 100);
                    assert(p10(3) == 1000);
                    assert(p10(4) == 10000);
                    assert(p10(5) == 100000);
                    assert(p10(6) == 1000000);
                    assert(p10(7) == 10000000);
                    assert(p10(8) == 100000000);
                    assert(p10(9) == 1000000000);
                    assert(p10(10) == 10000000000);
                }
            }
            Some(secs * 1000)
        },
        None => {
            match parse_rfc2822_unix(v) {
                Some(t) => {
                    if t > now {
                        let d = (t - now) as u64;
                        let ms = if d > u64::MAX / 1000 {
                            u64::MAX
                        } else {
                            d * 1000
                        };
                        Some(ms)
                    } else {
                        None
                    }
                },
                None => None,
            }
        },
    }
}

fn contains_u16(v: &Vec<u16>, x: u16) -> (r: bool)
    ensures
        r == v@.contains(x),
{
    let n = v.len();
    let mut i: usize = 0;
    while i < n
        invariant
            i <= n,
            n == v@.len(),
            forall|k: int| 0 <= k < i ==> v@[k] != x,
        decreases n - i,
    {
        if v[i] == x {
            return true;
        }
        i = i + 1;
    }
    false
}

pub open spec fn dbl_delay(d: int) -> int {
    if 2 * d > u64::MAX {
        u64::MAX as int
    } else {
        2 * d
    }
}

/// The authorized form of a request: the token inserted under
/// `Authorization` as a bearer credential, or under the custom header name.
pub open spec fn authorize_spec(req: ReqV, cfg: OAuthV, token: Seq<char>) -> ReqV {
    match cfg.token_type {
        TokV::Bearer => ReqV {
            headers: crate::http::h_set(
                req.headers,
                lower_chars("authorization"@),
                "Bearer "@ + token,
            ),
            ..req
        },
        TokV::Other(name) => ReqV {
            headers: crate::http::h_set(req.headers, lower_chars(name), token),
            ..req
        },
    }
}

/// The form body of a refresh request.
pub open spec fn refresh_body_chars(cfg: OAuthV) -> Seq<char> {
    "client_id="@ + pe_chars(cfg.client_id) + "&client_secret="@ + pe_chars(cfg.client_secret)
        + "&grant_type=refresh_token&refresh_token="@ + pe_chars(cfg.refresh_token)
}

/// The refresh request: `POST` to the refresh endpoint with the form body
/// `{client_id, client_secret, grant_type=refresh_token, refresh_token}`.
pub open spec fn refresh_req_spec(cfg: OAuthV, u: UriV) -> ReqV {
    ReqV {
        method: Method::Post,
        uri: u,
        version: Version::Http11,
        headers: Seq::<(Seq<char>, Seq<char>)>::empty().push(
            (lower_chars("content-type"@), "application/x-www-form-urlencoded"@),
        ).push((lower_chars("accept"@), "html/text"@)),
        body: BodyV::Text(refresh_body_chars(cfg)),
    }
}

/// An optional string member: absent or `null` reads as nothing, a string
/// as itself, anything else is a malformed response.
pub open spec fn opt_str_member(m: Option<JVal>) -> Option<Option<Seq<char>>> {
    match m {
        Some(JVal::Str(s)) => Some(Some(s)),
        Some(JVal::Null) | None => Some(None),
        _ => None,
    }
}

/// The fields a refresh response must carry; `Bearer` reads as the bearer
/// token type, any other string as a custom one; `refresh_token` and
/// `scope` are optional.
pub open spec fn refresh_parse_spec(body: BodyV) -> Option<RefreshV> {
    match body {
        BodyV::Json(JVal::Obj(fields)) => {
            let at = obj_get_spec(fields, "access_token"@);
            let tt = obj_get_spec(fields, "token_type"@);
            let exp = obj_get_spec(fields, "expires_in"@);
            let rt = opt_str_member(obj_get_spec(fields, "refresh_token"@));
            let sc = opt_str_member(obj_get_spec(fields, "scope"@));
            match (at, tt, exp, rt, sc) {
                (Some(JVal::Str(a)), Some(JVal::Str(t)), Some(JVal::Num(e)), Some(r), Some(
                    s,
                )) => {
                    if 0 <= e {
                        Some(
                            RefreshV {
                                access_token: a,
                                token_type: if t == "Bearer"@ {
                                    TokV::Bearer
                                } else {
                                    TokV::Other(t)
                                },
                                expires_in: e,
                                refresh_token: r,
                                scope: s,
                            },
                        )
                    } else {
                        None
                    }
                },
                _ => None,
            }
        },
        _ => None,
    }
}

/// What one pipeline run computes, head middleware first; past the end of
/// the list stands the transport terminator.
pub open spec fn run_model(mws: Seq<MwV>, idx: int, req: ReqV, st: StV) -> (
    Result<RespV, PErrV>,
    StV,
)
    decreases mws.len() - idx, 1int, 0int,
{
    if idx < 0 || idx >= mws.len() {
        terminal_model(req, st)
    } else {
        match mws[idx] {
            MwV::Passthrough => run_model(mws, idx + 1, req, st),
            MwV::Retry(rc) => retry_model(rc, mws, idx, req, st, 1, 100),
            MwV::Follow => {
                let (r, st1) = run_model(mws, idx + 1, req, st);
                match r {
                    Err(e) => (Err(e), st1),
                    Ok(resp) => follow_model(mws, idx, req, resp, st1, 10),
                }
            },
            MwV::Recorder(mode) => {
                let hit = if mode_should_lookup(mode) {
                    store_lookup(st.store.entries, req)
                } else {
                    None
                };
                match hit {
                    Some(resp) => (Ok(resp), st),
                    None => {
                        if !mode_should_request(mode) {
                            (Err(PErrV::Io(IoKind::NotFound, "No recording found"@)), st)
                        } else {
                            let (r, st1) = run_model(mws, idx + 1, req, st);
                            match r {
                                Err(e) => (Err(e), st1),
                                Ok(resp) => {
                                    let (store2, path, doc) = store_record_spec(
                                        st1.store,
                                        req,
                                        resp,
                                    );
                                    (
                                        Ok(resp),
                                        StV {
                                            store: store2,
                                            recorded: st1.recorded.push((path, doc)),
                                            ..st1
                                        },
                                    )
                                },
                            }
                        }
                    },
                }
            },
            MwV::OAuth2(cfg) => {
                let req1 = authorize_spec(req, cfg, st.token);
                let (r1, st1) = run_model(mws, idx + 1, req1, st);
                let is401 = r1 matches Ok(resp) && resp.status == 401;
                if !is401 {
                    (r1, st1)
                } else {
                    match parse_uri_spec(cfg.refresh_endpoint) {
                        None => (Err(PErrV::Io(IoKind::Other, "invalid refresh endpoint"@)), st1),
                        Some(u) => {
                            let rreq = refresh_req_spec(cfg, u);
                            let (r2, st2) = run_model(mws, idx + 1, rreq, st1);
                            match r2 {
                                Err(e) => (Err(e), st2),
                                Ok(resp2) => {
                                    if is_client_error(resp2.status) || is_server_error(
                                        resp2.status,
                                    ) {
                                        (Ok(resp2), st2)
                                    } else {
                                        match refresh_parse_spec(resp2.body) {
                                            None => (
                                                Err(PErrV::Json("invalid refresh response"@)),
                                                st2,
                                            ),
                                            Some(rd) => {
                                                let st3 = StV {
                                                    token: rd.access_token,
                                                    refreshes: st2.refreshes.push(rd),
                                                    ..st2
                                                };
                                                let req2 = authorize_spec(req1, cfg, st3.token);
                                                run_model(mws, idx + 1, req2, st3)
                                            },
                                        }
                                    }
                                },
                            }
                        },
                    }
                }
            },
        }
    }
}

/// One retry round: attempt `i` of at most `max_retries`, with the current
/// back-off `delay` in milliseconds.
pub open spec fn retry_model(
    rc: RetryV,
    mws: Seq<MwV>,
    idx: int,
    req: ReqV,
    st: StV,
    i: int,
    delay: int,
) -> (Result<RespV, PErrV>, StV)
    decreases mws.len() - idx, 0int, rc.max_retries + 1 - i,
{
    if i > rc.max_retries || idx < 0 || idx >= mws.len() {
        (Err(PErrV::TooManyRetries), st)
    } else {
        let (r, st1) = run_model(mws, idx + 1, req, st);
        match r {
            Err(e) => (Err(e), st1),
            Ok(resp) => {
                if !rc.retry_codes.contains(resp.status) {
                    (Ok(resp), st1)
                } else {
                    let nd = match h_get(resp.headers, lower_chars("retry-after"@)) {
                        Some(v) => match calc_delay_spec(v, st.now) {
                            Some(ms) => ms,
                            None => dbl_delay(delay),
                        },
                        None => dbl_delay(delay),
                    };
                    let st2 = StV { sleeps: st1.sleeps.push(nd), ..st1 };
                    retry_model(rc, mws, idx, req, st2, i + 1, nd)
                }
            },
        }
    }
}

/// One redirect round: `n` redirects are still allowed.
pub open spec fn follow_model(
    mws: Seq<MwV>,
    idx: int,
    req: ReqV,
    resp: RespV,
    st: StV,
    n: int,
) -> (Result<RespV, PErrV>, StV)
    decreases mws.len() - idx, 0int, n,
{
    if !is_redirection(resp.status) {
        (Ok(resp), st)
    } else if n <= 0 || idx < 0 || idx >= mws.len() {
        (Err(PErrV::TooManyRedirects), st)
    } else {
        match h_get(resp.headers, lower_chars("location"@)) {
            None => (Err(PErrV::Io(IoKind::Other, "missing location header"@)), st),
            Some(loc) => match parse_uri_spec(loc) {
                None => (Err(PErrV::Io(IoKind::Other, "invalid location header"@)), st),
                Some(p) => {
                    let req2 = ReqV { uri: merge_uri(req.uri, p), ..req };
                    let (r2, st2) = run_model(mws, idx + 1, req2, st);
                    match r2 {
                        Err(e) => (Err(e), st2),
                        Ok(resp2) => follow_model(mws, idx, req2, resp2, st2, n - 1),
                    }
                },
            },
        }
    }
}


/// The model never changes the clock.
pub proof fn lemma_model_now(mws: Seq<MwV>, idx: int, req: ReqV, st: StV)
    ensures
        run_model(mws, idx, req, st).1.now == st.now,
    decreases mws.len() - idx, 1int, 0int,
{
    if idx < 0 || idx >= mws.len() {
    } else {
        match mws[idx] {
            MwV::Passthrough => {
                lemma_model_now(mws, idx + 1, req, st);
            },
            MwV::Retry(rc) => {
                lemma_retry_now(rc, mws, idx, req, st, 1, 100);
            },
            MwV::Follow => {
                lemma_model_now(mws, idx + 1, req, st);
                let (r, st1) = run_model(mws, idx + 1, req, st);
                match r {
                    Err(_) => {},
                    Ok(resp) => {
                        lemma_follow_now(mws, idx, req, resp, st1, 10);
                    },
                }
            },
            MwV::Recorder(mode) => {
                lemma_model_now(mws, idx + 1, req, st);
            },
            MwV::OAuth2(cfg) => {
                let req1 = authorize_spec(req, cfg, st.token);
                lemma_model_now(mws, idx + 1, req1, st);
                let (r1, st1) = run_model(mws, idx + 1, req1, st);
                let is401 = r1 matches Ok(resp) && resp.status == 401;
                if is401 {
                    match parse_uri_spec(cfg.refresh_endpoint) {
                        None => {},
                        Some(u) => {
                            let rreq = refresh_req_spec(cfg, u);
                            lemma_model_now(mws, idx + 1, rreq, st1);
                            let (r2, st2) = run_model(mws, idx + 1, rreq, st1);
                            match r2 {
                                Err(_) => {},
                                Ok(resp2) => {
                                    if !(is_client_error(resp2.status) || is_server_error(
                                        resp2.status,
                                    )) {
                                        match refresh_parse_spec(resp2.body) {
                                            None => {},
                                            Some(rd) => {
                                                let st3 = StV {
                                                    token: rd.access_token,
                                                    refreshes: st2.refreshes.push(rd),
                                                    ..st2
                                                };
                                                let req2 = authorize_spec(req1, cfg, st3.token);
                                                lemma_model_now(mws, idx + 1, req2, st3);
                                            },
                                        }
                                    }
                                },
                            }
                        },
                    }
                }
            },
        }
    }
}

pub proof fn lemma_retry_now(
    rc: RetryV,
    mws: Seq<MwV>,
    idx: int,
    req: ReqV,
    st: StV,
    i: int,
    delay: int,
)
    ensures
        retry_model(rc, mws, idx, req, st, i, delay).1.now == st.now,
    decreases mws.len() - idx, 0int, rc.max_retries + 1 - i,
{
    if i > rc.max_retries || idx < 0 || idx >= mws.len() {
    } else {
        lemma_model_now(mws, idx + 1, req, st);
        let (r, st1) = run_model(mws, idx + 1, req, st);
        match r {
            Err(_) => {},
            Ok(resp) => {
                if rc.retry_codes.contains(resp.status) {
                    let nd = match h_get(resp.headers, lower_chars("retry-after"@)) {
                        Some(v) => match calc_delay_spec(v, st.now) {
                            Some(ms) => ms,
                            None => dbl_delay(delay),
                        },
                        None => dbl_delay(delay),
                    };
                    let st2 = StV { sleeps: st1.sleeps.push(nd), ..st1 };
                    lemma_retry_now(rc, mws, idx, req, st2, i + 1, nd);
                }
            },
        }
    }
}

pub proof fn lemma_follow_now(
    mws: Seq<MwV>,
    idx: int,
    req: ReqV,
    resp: RespV,
    st: StV,
    n: int,
)
    ensures
        follow_model(mws, idx, req, resp, st, n).1.now == st.now,
    decreases mws.len() - idx, 0int, n,
{
    if !is_redirection(resp.status) {
    } else if n <= 0 || idx < 0 || idx >= mws.len() {
    } else {
        match h_get(resp.headers, lower_chars("location"@)) {
            None => {},
            Some(loc) => match parse_uri_spec(loc) {
                None => {},
                Some(p) => {
                    let req2 = ReqV { uri: merge_uri(req.uri, p), ..req };
                    lemma_model_now(mws, idx + 1, req2, st);
                    let (r2, st2) = run_model(mws, idx + 1, req2, st);
                    match r2 {
                        Err(_) => {},
                        Ok(resp2) => {
                            lemma_follow_now(mws, idx, req2, resp2, st2, n - 1);
                        },
                    }
                },
            },
        }
    }
}

/// Dispatch the wire request against the script.
fn terminal(req: InMemoryRequest, st: &mut PipeState) -> (r: Result<
    InMemoryResponse,
    ProtocolError,
>)
    ensures
        ({
            let (mr, ms) = terminal_model(req@, old(st)@);
            res_view(r) == mr && final(st)@ == ms
        }),
{
    let ghost req0 = req@;
    let mut req = req;
    let body_bytes = req.body.bytes();
    let lenstr = dec_string(body_bytes.len() as u64);
    req.headers.or_insert("content-length", lenstr.as_str());
    proof {
        assert(req@ =~= wire_req(req0));
    }
    st.dispatched.push(req);
    proof {
        assert(st@.dispatched =~= old(st)@.dispatched.push(wire_req(req0)));
    }
    if st.script.len() == 0 {
        proof {
            assert(st@ =~= terminal_model(req0, old(st)@).1);
        }
        Err(ProtocolError::ConnectionError(String::from_str("script exhausted")))
    } else {
        let item = st.script.remove(0);
        proof {
            assert(st@.script =~= old(st)@.script.drop_first());
            assert(st@ =~= terminal_model(req0, old(st)@).1);
            assert(res_view(item) == old(st)@.script.first());
        }
        item
    }
}


/// Insert the access token into the request's authorization header.
fn authorize(req: &InMemoryRequest, cfg: &OAuth2, token: &String) -> (r: InMemoryRequest)
    ensures
        r@ == authorize_spec(req@, cfg@, token@),
{
    let mut r = req.clone();
    match &cfg.token_type {
        TokenType::Bearer => {
            let mut v = String::from_str("Bearer ");
            v.append(token.as_str());
            r.headers.insert("authorization", v.as_str());
        },
        TokenType::Other(name) => {
            r.headers.insert(name.as_str(), token.as_str());
        },
    }
    r
}

/// Build the refresh request for a parsed refresh endpoint.
fn make_refresh_req(cfg: &OAuth2, u: Uri) -> (r: InMemoryRequest)
    ensures
        r@ == refresh_req_spec(cfg@, u@),
{
    let mut headers = Headers::new();
    headers.or_insert("content-type", "application/x-www-form-urlencoded");
    proof {
        assert(headers@ =~= Seq::<(Seq<char>, Seq<char>)>::empty().push(
            (lower_chars("content-type"@), "application/x-www-form-urlencoded"@),
        ));
    }
    headers.or_insert("accept", "html/text");
    proof {
        let hs = Seq::<(Seq<char>, Seq<char>)>::empty().push(
            (lower_chars("content-type"@), "application/x-www-form-urlencoded"@),
        );
        reveal_strlit("content-type");
        reveal_strlit("accept");
        assert(lower_chars("content-type"@).len() == 12);
        assert(lower_chars("accept"@).len() == 6);
        if h_contains(hs, lower_chars("accept"@)) {
            assert(h_get(hs, lower_chars("accept"@)) is Some);
            assert(hs.drop_first().len() == 0);
            assert(h_get(hs.drop_first(), lower_chars("accept"@)) is None);
            assert(false);
        }
    }
    let mut body = String::from_str("client_id=");
    body.append(percent_encode(cfg.client_id.as_str()).as_str());
    body.append("&client_secret=");
    body.append(percent_encode(cfg.client_secret.as_str()).as_str());
    body.append("&grant_type=refresh_token&refresh_token=");
    body.append(percent_encode(cfg.refresh_token.as_str()).as_str());
    proof {
        assert(body@ =~= refresh_body_chars(cfg@));
    }
    InMemoryRequest {
        method: Method::Post,
        uri: u,
        version: Version::Http11,
        headers,
        body: InMemoryBody::Text(body),
    }
}

/// Read the fields of a refresh response body.
fn refresh_parse(body: &InMemoryBody) -> (r: Option<RefreshData>)
    ensures
        match r {
            Some(rd) => refresh_parse_spec(body@) == Some(rd@),
            None => refresh_parse_spec(body@) is None,
        },
{
    let fields = match body {
        InMemoryBody::Json(JsonValue::Obj(fields)) => fields,
        _ => {
            return None;
        },
    };
    let access_token = match obj_get(fields, "access_token") {
        Some(JsonValue::Str(a)) => a.clone(),
        _ => {
            return None;
        },
    };
    let token_type = match obj_get(fields, "token_type") {
        Some(JsonValue::Str(t)) => {
            if crate::sanitize::str_eq(t.as_str(), "Bearer") {
                TokenType::Bearer
            } else {
                TokenType::Other(t.clone())
            }
        },
        _ => {
            return None;
        },
    };
    let expires_in: u64 = match obj_get(fields, "expires_in") {
        Some(JsonValue::Num(e)) => {
            let ev = *e;
            if ev >= 0 {
                ev as u64
            } else {
                return None;
            }
        },
        _ => {
            return None;
        },
    };
    let refresh_token = match obj_get(fields, "refresh_token") {
        Some(JsonValue::Str(s)) => Some(s.clone()),
        Some(JsonValue::Null) => None,
        None => None,
        _ => {
            return None;
        },
    };
    let scope = match obj_get(fields, "scope") {
        Some(JsonValue::Str(s)) => Some(s.clone()),
        Some(JsonValue::Null) => None,
        None => None,
        _ => {
            return None;
        },
    };
    Some(RefreshData { access_token, token_type, expires_in, refresh_token, scope })
}


/// The token slot the pipeline starts with: the first authorizing
/// middleware's access token, or the token already in place.
pub open spec fn seed_token_spec(mws: Seq<MwV>, token: Seq<char>) -> Seq<char>
    decreases mws.len(),
{
    if mws.len() == 0 {
        token
    } else {
        match mws.first() {
            MwV::OAuth2(cfg) => cfg.access_token,
            _ => seed_token_spec(mws.drop_first(), token),
        }
    }
}

/// Seed the state's token slot from the first authorizing middleware.
pub fn seed_token(mws: &Vec<Mw>, st: &mut PipeState)
    ensures
        final(st)@ == (StV { token: seed_token_spec(mws_view(mws@), old(st)@.token), ..old(
            st,
        )@ }),
{
    let ghost m0 = mws_view(mws@);
    let n = mws.len();
    let mut i: usize = 0;
    proof {
        assert(m0.skip(0) =~= m0);
    }
    while i < n
        invariant
            i <= n,
            n == mws@.len(),
            m0 == mws_view(mws@),
            m0.len() == n,
            forall|k: int| 0 <= k < n ==> #[trigger] m0[k] == mws@[k]@,
            st == old(st),
            seed_token_spec(m0, old(st)@.token) == seed_token_spec(
                m0.skip(i as int),
                old(st)@.token,
            ),
        decreases n - i,
    {
        match &mws[i] {
            Mw::OAuth2(o) => {
                proof {
                    assert(m0.skip(i as int).first() == m0[i as int]);
                }
                st.token = o.access_token.clone();
                proof {
                    assert(st@ =~= (StV { token: seed_token_spec(m0, old(st)@.token), ..old(
                        st,
                    )@ }));
                }
                return ;
            },
            _ => {
                proof {
                    assert(m0.skip(i as int).first() == m0[i as int]);
                    assert(m0.skip(i as int).drop_first() =~= m0.skip(i as int + 1));
                }
            },
        }
        i = i + 1;
    }
    proof {
        assert(m0.skip(n as int).len() == 0);
        assert(st@ =~= (StV { token: seed_token_spec(m0, old(st)@.token), ..old(st)@ }));
    }
}

/// Run a request through the middlewares from position `idx` on, ending at
/// the transport terminator, exactly as `run_model` describes. The head of
/// the list runs farthest from the network.
pub fn run(mws: &Vec<Mw>, idx: usize, req: InMemoryRequest, st: &mut PipeState) -> (r: Result<
    InMemoryResponse,
    ProtocolError,
>)
    requires
        idx <= mws@.len(),
        wf_uri(req@.uri),
        old(st)@.now >= 0,
    ensures
        res_view(r) == run_model(mws_view(mws@), idx as int, req@, old(st)@).0,
        final(st)@ == run_model(mws_view(mws@), idx as int, req@, old(st)@).1,
    decreases mws@.len() - idx,
{
    let ghost m0 = mws_view(mws@);
    let ghost st0 = st@;
    let ghost req0 = req@;
    if idx >= mws.len() {
        return terminal(req, st);
    }
    proof {
        assert(m0[idx as int] == mws@[idx as int]@);
    }
    match &mws[idx] {
        Mw::Passthrough => run(mws, idx + 1, req, st),
        Mw::Retry(rc) => {
            let ghost rcv = rc@;
            let mut attempts: usize = 0;
            let mut delay: u64 = 100;
            loop
                invariant
                    attempts <= rc.max_retries,
                    st@.now == st0.now,
                    retry_model(rcv, m0, idx as int, req0, st0, 1, 100) == retry_model(
                        rcv,
                        m0,
                        idx as int,
                        req0,
                        st@,
                        attempts as int + 1,
                        delay as int,
                    ),
                decreases rc@.max_retries - attempts,
            {
                if attempts >= rc.max_retries {
                    proof {
                        assert(retry_model(rcv, m0, idx as int, req0, st@,
                            attempts as int + 1, delay as int) == (
                            Err::<RespV, PErrV>(PErrV::TooManyRetries),
                            st@,
                        ));
                    }
                    return Err(ProtocolError::TooManyRetries);
                }
                let ghost st_pre = st@;
                let r = run(mws, idx + 1, req.clone(), st);
                proof {
                    lemma_model_now(m0, idx as int + 1, req0, st_pre);
                }
                match r {
                    Err(e) => {
                        return Err(e);
                    },
                    Ok(resp) => {
                        if !contains_u16(&rc.retry_codes, resp.status) {
                            return Ok(resp);
                        }
                        let nd: u64 = match resp.headers.get("retry-after") {
                            Some(v) => match calc_delay(v.as_str(), st.now_unix) {
                                Some(ms2) => ms2,
                                None => if delay > u64::MAX / 2 {
                                    u64::MAX
                                } else {
                                    delay * 2
                                },
                            },
                            None => if delay > u64::MAX / 2 {
                                u64::MAX
                            } else {
                                delay * 2
                            },
                        };
                        let ghost st_run = st@;
                        st.sleeps.push(nd);
                        proof {
                            assert(st@.sleeps =~= st_run.sleeps.push(nd as int));
                            assert(st@ =~= (StV { sleeps: st_run.sleeps.push(nd as int),
                                ..st_run }));
                        }
                        delay = nd;
                        attempts = attempts + 1;
                    },
                }
            }
        },
        Mw::Follow(_) => {
            let r0 = run(mws, idx + 1, req.clone(), st);
            let mut resp = match r0 {
                Err(e) => {
                    return Err(e);
                },
                Ok(resp) => resp,
            };
            proof {
                lemma_model_now(m0, idx as int + 1, req0, st0);
            }
            let ghost st1 = st@;
            let ghost resp1 = resp@;
            let mut creq = req;
            let mut n: usize = 10;
            loop
                invariant
                    n <= 10,
                    wf_uri(creq@.uri),
                    st@.now == st0.now,
                    follow_model(m0, idx as int, req0, resp1, st1, 10) == follow_model(
                        m0,
                        idx as int,
                        creq@,
                        resp@,
                        st@,
                        n as int,
                    ),
                decreases n,
            {
                if !crate::http::status_is_redirection(resp.status) {
                    return Ok(resp);
                }
                if n == 0 {
                    return Err(ProtocolError::TooManyRedirects);
                }
                let merged = match resp.headers.get("location") {
                    Some(loc) => match crate::uri::fix_url(&creq.uri, loc.as_str()) {
                        Some(u) => u,
                        None => {
                            return Err(
                                ProtocolError::IoError(
                                    IoKind::Other,
                                    String::from_str("invalid location header"),
                                ),
                            );
                        },
                    },
                    None => {
                        return Err(
                            ProtocolError::IoError(
                                IoKind::Other,
                                String::from_str("missing location header"),
                            ),
                        );
                    },
                };
                creq.uri = merged;
                let ghost st_pre = st@;
                let r2 = run(mws, idx + 1, creq.clone(), st);
                proof {
                    lemma_model_now(m0, idx as int + 1, creq@, st_pre);
                }
                match r2 {
                    Err(e) => {
                        return Err(e);
                    },
                    Ok(resp2) => {
                        resp = resp2;
                    },
                }
                n = n - 1;
            }
        },
        Mw::Recorder(rec) => {
            let hit = if rec.mode.should_lookup() {
                st.store.get_response(&req)
            } else {
                None
            };
            match hit {
                Some(resp) => {
                    return Ok(resp);
                },
                None => {},
            }
            if !rec.mode.should_request() {
                return Err(
                    ProtocolError::IoError(
                        IoKind::NotFound,
                        String::from_str("No recording found"),
                    ),
                );
            }
            let r = run(mws, idx + 1, req.clone(), st);
            match r {
                Err(e) => Err(e),
                Ok(resp) => {
                    let ghost st_run = st@;
                    let (path, doc) = st.store.record_response(req, resp.clone());
                    st.recorded.push((path, doc));
                    proof {
                        let (store2, pathv, docv) = store_record_spec(
                            st_run.store,
                            req0,
                            resp@,
                        );
                        assert(st@.recorded =~= st_run.recorded.push((pathv, docv)));
                        assert(st@ =~= (StV {
                            store: store2,
                            recorded: st_run.recorded.push((pathv, docv)),
                            ..st_run
                        }));
                    }
                    Ok(resp)
                },
            }
        },
        Mw::OAuth2(o) => {
            let req1 = authorize(&req, o, &st.token);
            let ghost req1v = req1@;
            let r1 = run(mws, idx + 1, req1.clone(), st);
            proof {
                lemma_model_now(m0, idx as int + 1, req1v, st0);
            }
            let resp1 = match r1 {
                Err(e) => {
                    return Err(e);
                },
                Ok(resp1) => resp1,
            };
            if resp1.status != 401 {
                return Ok(resp1);
            }
            let ghost st1 = st@;
            let ru = match parse_uri(o.refresh_endpoint.as_str()) {
                Some(u) => u,
                None => {
                    return Err(
                        ProtocolError::IoError(
                            IoKind::Other,
                            String::from_str("invalid refresh endpoint"),
                        ),
                    );
                },
            };
            proof {
                crate::uri::lemma_parse_wf(o.refresh_endpoint@);
            }
            let rreq = make_refresh_req(o, ru);
            let ghost rreqv = rreq@;
            let r2 = run(mws, idx + 1, rreq, st);
            proof {
                lemma_model_now(m0, idx as int + 1, rreqv, st1);
            }
            let resp2 = match r2 {
                Err(e) => {
                    return Err(e);
                },
                Ok(resp2) => resp2,
            };
            if crate::http::status_is_error(resp2.status) {
                return Ok(resp2);
            }
            let rd = match refresh_parse(&resp2.body) {
                Some(rd) => rd,
                None => {
                    return Err(
                        ProtocolError::JsonError(String::from_str("invalid refresh response")),
                    );
                },
            };
            let ghost st2 = st@;
            st.token = rd.access_token.clone();
            st.refreshes.push(rd);
            proof {
                let rdv = refresh_parse_spec(resp2@.body)->Some_0;
                assert(st@.refreshes =~= st2.refreshes.push(rdv));
                assert(st@ =~= (StV {
                    token: rdv.access_token,
                    refreshes: st2.refreshes.push(rdv),
                    ..st2
                }));
            }
            let req2 = authorize(&req1, o, &st.token);
            run(mws, idx + 1, req2, st)
        },
    }
}


/// Position mapping after removing the middleware at `k`.
pub open spec fn pt_idx(idx: int, k: int) -> int {
    if idx <= k {
        idx
    } else {
        idx - 1
    }
}

proof fn lemma_pt_run(mws: Seq<MwV>, k: int, idx: int, req: ReqV, st: StV)
    requires
        0 <= k < mws.len(),
        mws[k] is Passthrough,
        0 <= idx <= mws.len(),
    ensures
        run_model(mws.remove(k), pt_idx(idx, k), req, st) == run_model(mws, idx, req, st),
    decreases mws.len() - idx, 1int, 0int,
{
    let m = mws.remove(k);
    let j = pt_idx(idx, k);
    if idx == mws.len() {
        assert(j >= m.len());
    } else if idx == k {
        lemma_pt_run(mws, k, idx + 1, req, st);
        assert(run_model(mws, idx, req, st) == run_model(mws, idx + 1, req, st));
        assert(pt_idx(idx + 1, k) == j);
    } else {
        assert(m[j] == mws[idx]);
        assert(pt_idx(idx + 1, k) == j + 1);
        match mws[idx] {
            MwV::Passthrough => {
                lemma_pt_run(mws, k, idx + 1, req, st);
            },
            MwV::Retry(rc) => {
                lemma_pt_retry(rc, mws, k, idx, req, st, 1, 100);
            },
            MwV::Follow => {
                lemma_pt_run(mws, k, idx + 1, req, st);
                let (r, st1) = run_model(mws, idx + 1, req, st);
                match r {
                    Err(_) => {},
                    Ok(resp) => {
                        lemma_pt_follow(mws, k, idx, req, resp, st1, 10);
                    },
                }
            },
            MwV::Recorder(mode) => {
                lemma_pt_run(mws, k, idx + 1, req, st);
            },
            MwV::OAuth2(cfg) => {
                let req1 = authorize_spec(req, cfg, st.token);
                lemma_pt_run(mws, k, idx + 1, req1, st);
                let (r1, st1) = run_model(mws, idx + 1, req1, st);
                let is401 = r1 matches Ok(resp) && resp.status == 401;
                if is401 {
                    match parse_uri_spec(cfg.refresh_endpoint) {
                        None => {},
                        Some(u) => {
                            let rreq = refresh_req_spec(cfg, u);
                            lemma_pt_run(mws, k, idx + 1, rreq, st1);
                            let (r2, st2) = run_model(mws, idx + 1, rreq, st1);
                            match r2 {
                                Err(_) => {},
                                Ok(resp2) => {
                                    if !(is_client_error(resp2.status) || is_server_error(
                                        resp2.status,
                                    )) {
                                        match refresh_parse_spec(resp2.body) {
                                            None => {},
                                            Some(rd) => {
                                                let st3 = StV {
                                                    token: rd.access_token,
                                                    refreshes: st2.refreshes.push(rd),
                                                    ..st2
                                                };
                                                let req2 = authorize_spec(req1, cfg, st3.token);
                                                lemma_pt_run(mws, k, idx + 1, req2, st3);
                                            },
                                        }
                                    }
                                },
                            }
                        },
                    }
                }
            },
        }
    }
}

proof fn lemma_pt_retry(
    rc: RetryV,
    mws: Seq<MwV>,
    k: int,
    idx: int,
    req: ReqV,
    st: StV,
    i: int,
    delay: int,
)
    requires
        0 <= k < mws.len(),
        mws[k] is Passthrough,
        0 <= idx < mws.len(),
        idx != k,
    ensures
        retry_model(rc, mws.remove(k), pt_idx(idx, k), req, st, i, delay) == retry_model(
            rc,
            mws,
            idx,
            req,
            st,
            i,
            delay,
        ),
    decreases mws.len() - idx, 0int, rc.max_retries + 1 - i,
{
    let m = mws.remove(k);
    let j = pt_idx(idx, k);
    assert(0 <= j < m.len());
    if i > rc.max_retries {
    } else {
        lemma_pt_run(mws, k, idx + 1, req, st);
        assert(pt_idx(idx + 1, k) == j + 1);
        let (r, st1) = run_model(mws, idx + 1, req, st);
        match r {
            Err(_) => {},
            Ok(resp) => {
                if rc.retry_codes.contains(resp.status) {
                    let nd = match h_get(resp.headers, lower_chars("retry-after"@)) {
                        Some(v) => match calc_delay_spec(v, st.now) {
                            Some(ms) => ms,
                            None => dbl_delay(delay),
                        },
                        None => dbl_delay(delay),
                    };
                    let st2 = StV { sleeps: st1.sleeps.push(nd), ..st1 };
                    lemma_pt_retry(rc, mws, k, idx, req, st2, i + 1, nd);
                }
            },
        }
    }
}

proof fn lemma_pt_follow(
    mws: Seq<MwV>,
    k: int,
    idx: int,
    req: ReqV,
    resp: RespV,
    st: StV,
    n: int,
)
    requires
        0 <= k < mws.len(),
        mws[k] is Passthrough,
        0 <= idx < mws.len(),
        idx != k,
    ensures
        follow_model(mws.remove(k), pt_idx(idx, k), req, resp, st, n) == follow_model(
            mws,
            idx,
            req,
            resp,
            st,
            n,
        ),
    decreases mws.len() - idx, 0int, n,
{
    let m = mws.remove(k);
    let j = pt_idx(idx, k);
    assert(0 <= j < m.len());
    if !is_redirection(resp.status) {
    } else if n <= 0 {
    } else {
        match h_get(resp.headers, lower_chars("location"@)) {
            None => {},
            Some(loc) => match parse_uri_spec(loc) {
                None => {},
                Some(p) => {
                    let req2 = ReqV { uri: merge_uri(req.uri, p), ..req };
                    lemma_pt_run(mws, k, idx + 1, req2, st);
                    assert(pt_idx(idx + 1, k) == j + 1);
                    let (r2, st2) = run_model(mws, idx + 1, req2, st);
                    match r2 {
                        Err(_) => {},
                        Ok(resp2) => {
                            lemma_pt_follow(mws, k, idx, req2, resp2, st2, n - 1);
                        },
                    }
                },
            },
        }
    }
}

/// A middleware that only hands the request on unchanged has no observable
/// effect: a pipeline with a passthrough at any position computes the same
/// outcome and the same final state as the pipeline without it.
pub proof fn lemma_passthrough_no_effect(mws: Seq<MwV>, k: int, req: ReqV, st: StV)
    requires
        0 <= k < mws.len(),
        mws[k] is Passthrough,
    ensures
        run_model(mws.remove(k), 0, req, st) == run_model(mws, 0, req, st),
{
    lemma_pt_run(mws, k, 0, req, st);
}


/// Log requests and responses; the printing itself is I/O and lives with
/// the embedding program, which formats headers through `headers_to_string`.
#[derive(Debug, Clone, Copy)]
pub struct Logger;

/// One `D name: value` line per header, each ended by a line break.
pub open spec fn log_lines(hs: Seq<(Seq<char>, Seq<char>)>, dir: Seq<char>) -> Seq<char>
    decreases hs.len(),
{
    if hs.len() == 0 {
        Seq::empty()
    } else {
        log_lines(hs.drop_last(), dir) + dir + " "@ + hs.last().0 + ": "@ + hs.last().1
            + "\n"@
    }
}

/// Format a header list for a log, one line per header.
pub fn headers_to_string(headers: &Headers, dir: &str) -> (r: String)
    ensures
        r@ == log_lines(headers@, dir@),
{
    let n = headers.len();
    let mut out = String::new();
    let mut i: usize = 0;
    proof {
        assert(headers@.take(0) =~= Seq::<(Seq<char>, Seq<char>)>::empty());
    }
    while i < n
        invariant
            i <= n,
            n == headers@.len(),
            out@ == log_lines(headers@.take(i as int), dir@),
        decreases n - i,
    {
        let (name, value) = headers.pair(i);
        out.append(dir);
        out.append(" ");
        out.append(name.as_str());
        out.append(": ");
        out.append(value.as_str());
        out.append("\n");
        proof {
            assert(headers@.take(i as int + 1).drop_last() =~= headers@.take(i as int));
            assert(headers@.take(i as int + 1).last() == headers@[i as int]);
            assert(out@ =~= log_lines(headers@.take(i as int + 1), dir@));
        }
        i = i + 1;
    }
    proof {
        assert(headers@.take(n as int) =~= headers@);
    }
    out
}

/// Bound the whole downstream exchange by a deadline; expiry is a timed-out
/// I/O error. The waiting itself is the embedding program's.
#[derive(Debug, Clone, Copy)]
pub struct TotalTimeout {
    pub timeout_ms: u64,
}

impl TotalTimeout {
    pub fn new(timeout_ms: u64) -> (r: TotalTimeout)
        ensures
            r.timeout_ms == timeout_ms,
    {
        TotalTimeout { timeout_ms }
    }
}

impl Clone for Retry {
    fn clone(&self) -> (r: Self)
        ensures
            r@ == self@,
    {
        Retry {
            max_retries: self.max_retries,
            backoff_delay_ms: self.backoff_delay_ms,
            retry_codes: self.retry_codes.clone(),
        }
    }
}

impl Clone for Mw {
    fn clone(&self) -> (r: Self)
        ensures
            r@ == self@,
    {
        match self {
            Mw::Passthrough => Mw::Passthrough,
            Mw::Retry(rc) => Mw::Retry(rc.clone()),
            Mw::Follow(_) => Mw::Follow(Follow),
            Mw::Recorder(rec) => Mw::Recorder(Recorder { mode: rec.mode }),
            Mw::OAuth2(o) => Mw::OAuth2(o.clone()),
        }
    }
}

} // verus!
