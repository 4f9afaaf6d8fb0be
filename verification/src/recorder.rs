use vstd::prelude::*;
use crate::codec::{serialize_pair, serialize_pair_spec};
use crate::json::{JVal, JsonValue};
use crate::http::{method_chars, lower_chars};
use crate::request::{fingerprint_eq, host_of, sanitize_req, sanitize_request, InMemoryRequest, ReqV, RequestExt};
use crate::response::{sanitize_resp, sanitize_response, InMemoryResponse, RespV};

verus! {

/// A recorded exchange, as read from one recording file.
#[derive(Debug)]
pub struct RequestResponsePair {
    pub request: InMemoryRequest,
    pub response: InMemoryResponse,
}

/// A recorded exchange together with the file it came from, used to order
/// recordings deterministically on load.
#[derive(Debug)]
pub struct Recording {
    pub request: InMemoryRequest,
    pub response: InMemoryResponse,
    pub filename: String,
}

/// Mathematical model of the recorder store.
#[verifier::ext_equal]
pub struct StoreV {
    pub base: Seq<char>,
    pub entries: Seq<(ReqV, RespV)>,
}

/// The index of the first recorded request that matches by fingerprint.
pub open spec fn store_find(entries: Seq<(ReqV, RespV)>, q: ReqV) -> Option<int>
    decreases entries.len(),
{
    if entries.len() == 0 {
        None
    } else if fingerprint_eq(entries.first().0, q) {
        Some(0)
    } else {
        match store_find(entries.drop_first(), q) {
            Some(i) => Some(i + 1),
            None => None,
        }
    }
}

pub proof fn lemma_store_find(entries: Seq<(ReqV, RespV)>, q: ReqV)
    ensures
        match store_find(entries, q) {
            Some(i) => 0 <= i < entries.len() && fingerprint_eq(entries[i].0, q) && forall|
                k: int,
            | 0 <= k < i ==> !fingerprint_eq((#[trigger] entries[k]).0, q),
            None => forall|k: int| 0 <= k < entries.len() ==> !fingerprint_eq(
                (#[trigger] entries[k]).0,
                q,
            ),
        },
    decreases entries.len(),
{
    if entries.len() > 0 && !fingerprint_eq(entries.first().0, q) {
        lemma_store_find(entries.drop_first(), q);
        match store_find(entries.drop_first(), q) {
            Some(i) => {
                assert(entries.drop_first()[i] == entries[i + 1]);
                assert forall|k: int| 0 <= k < i + 1 implies !fingerprint_eq(
                    (#[trigger] entries[k]).0,
                    q,
                ) by {
                    if k > 0 {
                        assert(entries.drop_first()[k - 1] == entries[k]);
                    }
                }
            },
            None => {
                assert forall|k: int| 0 <= k < entries.len() implies !fingerprint_eq(
                    (#[trigger] entries[k]).0,
                    q,
                ) by {
                    if k > 0 {
                        assert(entries.drop_first()[k - 1] == entries[k]);
                    }
                }
            },
        }
    }
}

pub proof fn lemma_store_find_is(entries: Seq<(ReqV, RespV)>, q: ReqV, i: int)
    requires
        0 <= i < entries.len(),
        fingerprint_eq(entries[i].0, q),
        forall|k: int| 0 <= k < i ==> !fingerprint_eq((#[trigger] entries[k]).0, q),
    ensures
        store_find(entries, q) == Some(i),
{
    lemma_store_find(entries, q);
    match store_find(entries, q) {
        Some(j) => {
            if j < i {
                assert(!fingerprint_eq(entries[j].0, q));
            } else if j > i {
                assert(!fingerprint_eq(entries[i].0, q));
            }
        },
        None => {
            assert(!fingerprint_eq(entries[i].0, q));
        },
    }
}

pub proof fn lemma_store_find_none(entries: Seq<(ReqV, RespV)>, q: ReqV)
    requires
        forall|k: int| 0 <= k < entries.len() ==> !fingerprint_eq((#[trigger] entries[k]).0, q),
    ensures
        store_find(entries, q) == None::<int>,
{
    lemma_store_find(entries, q);
    match store_find(entries, q) {
        Some(j) => {
            assert(!fingerprint_eq(entries[j].0, q));
        },
        None => {},
    }
}

/// What a lookup serves: the response recorded under the first matching
/// fingerprint.
pub open spec fn store_lookup(entries: Seq<(ReqV, RespV)>, q: ReqV) -> Option<RespV> {
    match store_find(entries, q) {
        Some(i) => Some(entries[i].1),
        None => None,
    }
}

pub open spec fn digit_chars(d: int) -> Seq<char> {
    if d == 0 {
        "0"@
    } else if d == 1 {
        "1"@
    } else if d == 2 {
        "2"@
    } else if d == 3 {
        "3"@
    } else if d == 4 {
        "4"@
    } else if d == 5 {
        "5"@
    } else if d == 6 {
        "6"@
    } else if d == 7 {
        "7"@
    } else if d == 8 {
        "8"@
    } else {
        "9"@
    }
}

pub(crate) fn digit_str(d: usize) -> (r: &'static str)
    requires
        d < 10,
    ensures
        r@ == digit_chars(d as int),
{
    if d == 0 {
        "0"
    } else if d == 1 {
        "1"
    } else if d == 2 {
        "2"
    } else if d == 3 {
        "3"
    } else if d == 4 {
        "4"
    } else if d == 5 {
        "5"
    } else if d == 6 {
        "6"
    } else if d == 7 {
        "7"
    } else if d == 8 {
        "8"
    } else {
        "9"
    }
}

/// A recording index as four zero-padded digits.
pub open spec fn pad4_chars(i: int) -> Seq<char> {
    digit_chars((i / 1000) % 10) + digit_chars((i / 100) % 10) + digit_chars((i / 10) % 10)
        + digit_chars(i % 10)
}

fn pad4(i: usize) -> (r: String)
    ensures
        r@ == pad4_chars(i as int),
{
    let mut out = String::new();
    out.append(digit_str((i / 1000) % 10));
    out.append(digit_str((i / 100) % 10));
    out.append(digit_str((i / 10) % 10));
    out.append(digit_str(i % 10));
    out
}

/// The file a recording is persisted at:
/// `<base>/<host>/<path-without-leading-slash>/<method-lowercase>.<4-digit-index>.json`.
pub open spec fn recording_path_chars(base: Seq<char>, q: ReqV, idx: int) -> Seq<char> {
    let p = q.uri.path;
    let trimmed = if p.len() > 0 && p[0] == '/' {
        p.skip(1)
    } else {
        p
    };
    base + "/"@ + host_of(q.uri) + "/"@ + trimmed + "/"@ + lower_chars(method_chars(q.method))
        + "."@ + pad4_chars(idx) + ".json"@
}

/// What recording an exchange does to a store: both halves sanitized, the
/// pair stored under the request's fingerprint (replacing an earlier
/// recording of the same fingerprint in place), with the file path and
/// document to persist.
pub open spec fn store_record_spec(s: StoreV, req: ReqV, resp: RespV) -> (StoreV, Seq<char>, JVal) {
    let sreq = sanitize_req(req);
    let sresp = sanitize_resp(resp);
    let idx = match store_find(s.entries, sreq) {
        Some(i) => i,
        None => s.entries.len() as int,
    };
    let entries2 = match store_find(s.entries, sreq) {
        Some(i) => s.entries.update(i, (sreq, sresp)),
        None => s.entries.push((sreq, sresp)),
    };
    (
        StoreV { base: s.base, entries: entries2 },
        recording_path_chars(s.base, req, idx),
        serialize_pair_spec(sreq, sresp),
    )
}

/// The fingerprint-keyed recording store: an insertion-ordered list of
/// sanitized exchanges under a base directory.
#[derive(Debug)]
pub struct RequestRecorder {
    base_path: String,
    entries: Vec<(InMemoryRequest, InMemoryResponse)>,
}

impl View for RequestRecorder {
    type V = StoreV;

    closed spec fn view(&self) -> StoreV {
        StoreV {
            base: self.base_path@,
            entries: self.entries@.map_values(
                |p: (InMemoryRequest, InMemoryResponse)| (p.0@, p.1@),
            ),
        }
    }
}

impl RequestRecorder {
    /// An empty store under the default base directory.
    pub fn new() -> (r: RequestRecorder)
        ensures
            r@.base == "data/vcr"@,
            r@.entries == Seq::<(ReqV, RespV)>::empty(),
    {
        let r = RequestRecorder { base_path: String::from_str("data/vcr"), entries: Vec::new() };
        proof {
            assert(r@.entries =~= Seq::<(ReqV, RespV)>::empty());
        }
        r
    }

    /// An empty store under the given base directory.
    pub fn with_base(base: String) -> (r: RequestRecorder)
        ensures
            r@.base == base@,
            r@.entries == Seq::<(ReqV, RespV)>::empty(),
    {
        let r = RequestRecorder { base_path: base, entries: Vec::new() };
        proof {
            assert(r@.entries =~= Seq::<(ReqV, RespV)>::empty());
        }
        r
    }

    pub fn len(&self) -> (r: usize)
        ensures
            r == self@.entries.len(),
    {
        self.entries.len()
    }

    /// Drop every recording.
    pub fn clear(&mut self)
        ensures
            final(self)@.base == old(self)@.base,
            final(self)@.entries == Seq::<(ReqV, RespV)>::empty(),
    {
        self.entries.clear();
        proof {
            assert(self@.entries =~= Seq::<(ReqV, RespV)>::empty());
        }
    }

    fn position(&self, request: &InMemoryRequest) -> (r: Option<usize>)
        ensures
            match r {
                Some(i) => i < self@.entries.len() && store_find(self@.entries, request@)
                    == Some(i as int),
                None => store_find(self@.entries, request@) is None,
            },
    {
        let n = self.entries.len();
        let mut i: usize = 0;
        while i < n
            invariant
                i <= n,
                n == self.entries@.len(),
                n == self@.entries.len(),
                forall|k: int| 0 <= k < n ==> #[trigger] self@.entries[k]
                    == (self.entries@[k].0@, self.entries@[k].1@),
                forall|k: int| 0 <= k < i ==> !fingerprint_eq(
                    (#[trigger] self@.entries[k]).0,
                    request@,
                ),
            decreases n - i,
        {
            if self.entries[i].0.fingerprint_matches(request) {
                proof {
                    lemma_store_find_is(self@.entries, request@, i as int);
                }
                return Some(i);
            }
            i = i + 1;
        }
        proof {
            lemma_store_find_none(self@.entries, request@);
        }
        None
    }

    /// The recorded response under this request's fingerprint, cloned out.
    pub fn get_response(&self, request: &InMemoryRequest) -> (r: Option<InMemoryResponse>)
        ensures
            match r {
                Some(resp) => store_lookup(self@.entries, request@) == Some(resp@),
                None => store_lookup(self@.entries, request@) is None,
            },
    {
        match self.position(request) {
            Some(i) => {
                let resp = self.entries[i].1.clone();
                proof {
                    assert(self@.entries[i as int] == (self.entries@[i as int].0@,
                        self.entries@[i as int].1@));
                }
                Some(resp)
            },
            None => None,
        }
    }

    /// Insert a loaded recording at the end, without sanitizing again: the
    /// pair on disk is already sanitized.
    pub fn insert_loaded(&mut self, request: InMemoryRequest, response: InMemoryResponse)
        ensures
            final(self)@.base == old(self)@.base,
            final(self)@.entries == old(self)@.entries.push((request@, response@)),
    {
        self.entries.push((request, response));
        proof {
            assert(self@.entries =~= old(self)@.entries.push((request@, response@)));
        }
    }

    /// Record an exchange: sanitize both halves, store them under the
    /// request's fingerprint (replacing an earlier recording of the same
    /// fingerprint in place), and hand back the file path and document to
    /// persist. The index in the file name is the entry's position.
    pub fn record_response(&mut self, request: InMemoryRequest, response: InMemoryResponse) -> (r:
        (String, JsonValue))
        ensures
            ({
                let (store2, path, doc) = store_record_spec(old(self)@, request@, response@);
                &&& final(self)@ == store2
                &&& r.0@ == path
                &&& r.1@ == doc
            }),
    {
        let ghost req0 = request@;
        let ghost resp0 = response@;
        let mut request = request;
        let mut response = response;
        let path_head = self.partial_filepath(&request);
        sanitize_request(&mut request);
        sanitize_response(&mut response);
        let doc = serialize_pair(&request, &response);
        let idx: usize = match self.position(&request) {
            Some(i) => {
                self.entries.set(i, (request, response));
                proof {
                    assert(self@.entries =~= old(self)@.entries.update(
                        i as int,
                        (sanitize_req(req0), sanitize_resp(resp0)),
                    ));
                }
                i
            },
            None => {
                let i = self.entries.len();
                self.entries.push((request, response));
                proof {
                    assert(self@.entries =~= old(self)@.entries.push(
                        (sanitize_req(req0), sanitize_resp(resp0)),
                    ));
                }
                i
            },
        };
        let mut path = path_head;
        path.append(".");
        path.append(pad4(idx).as_str());
        path.append(".json");
        proof {
            assert(path@ =~= recording_path_chars(old(self)@.base, req0, idx as int));
        }
        (path, doc)
    }

    /// `<base>/<host>/<path-without-leading-slash>/<method-lowercase>`.
    fn partial_filepath(&self, request: &InMemoryRequest) -> (r: String)
        ensures
            r@ == ({
                let p = request@.uri.path;
                let trimmed = if p.len() > 0 && p[0] == '/' {
                    p.skip(1)
                } else {
                    p
                };
                self@.base + "/"@ + host_of(request@.uri) + "/"@ + trimmed + "/"@ + lower_chars(
                    method_chars(request@.method),
                )
            }),
    {
        let mut out = self.base_path.clone();
        out.append("/");
        let host = request.host();
        out.append(host.as_str());
        out.append("/");
        let pstr = request.uri.path.as_str();
        let plen = pstr.unicode_len();
        if plen > 0 && pstr.get_char(0) == '/' {
            let trimmed = crate::uri::substr(pstr, 1, plen);
            proof {
                assert(trimmed@ =~= request@.uri.path.skip(1));
            }
            out.append(trimmed.as_str());
        } else {
            out.append(pstr);
        }
        out.append("/");
        let ml = crate::http::ascii_lower(request.method.as_str());
        out.append(ml.as_str());
        out
    }
}

} // verus!
