use vstd::prelude::*;
use crate::builder::{h_set_list, RequestBuilder};
use crate::error::ProtocolError;
use crate::http::Method;
use crate::middleware::{mws_view, run, run_model, res_view, seed_token, seed_token_spec, Mw, PipeState};
use crate::request::InMemoryRequest;
use crate::response::InMemoryResponse;
use crate::uri::{parse_uri, parse_uri_spec, wf_uri, Uri};

verus! {

/// The client: an optional base URL for relative paths, headers applied to
/// every request, and the middleware list a run adopts.
#[derive(Debug)]
pub struct Client {
    pub base_url: Option<String>,
    pub default_headers: Vec<(String, String)>,
    pub middlewares: Vec<Mw>,
}

/// The URL a client request resolves: an absolute target (one that parses
/// with a scheme) is used as-is; anything else is appended to the base URL.
pub open spec fn combined_url(base: Option<String>, path: Seq<char>) -> Seq<char> {
    if parse_uri_spec(path) matches Some(u) && u.scheme is Some {
        path
    } else {
        match base {
            Some(b) => b@ + path,
            None => path,
        }
    }
}

impl Client {
    /// A client with no base URL, the default user-agent header, and no
    /// middlewares.
    pub fn new() -> (r: Client)
        ensures
            r.base_url is None,
            r.default_headers@.map_values(|p: (String, String)| (p.0@, p.1@)) == seq![
                ("user-agent"@, "httpclient/0.1.0"@),
            ],
            r.middlewares@ == Seq::<Mw>::empty(),
    {
        let mut default_headers: Vec<(String, String)> = Vec::new();
        default_headers.push(
            (String::from_str("user-agent"), String::from_str("httpclient/0.1.0")),
        );
        let r = Client { base_url: None, default_headers, middlewares: Vec::new() };
        proof {
            assert(r.default_headers@.map_values(|p: (String, String)| (p.0@, p.1@)) =~= seq![
                ("user-agent"@, "httpclient/0.1.0"@),
            ]);
            assert(r.middlewares@ =~= Seq::<Mw>::empty());
        }
        r
    }

    /// Set a base URL, so requests can give relative paths.
    pub fn base_url(self, base: &str) -> (r: Client)
        ensures
            r.base_url matches Some(b) && b@ == base@,
            r.default_headers == self.default_headers,
            r.middlewares == self.middlewares,
    {
        Client { base_url: Some(String::from_str(base)), ..self }
    }

    /// Install a middleware; later-installed ones run closer to the network.
    pub fn with_middleware(self, middleware: Mw) -> (r: Client)
        ensures
            r.middlewares@ == self.middlewares@.push(middleware),
            r.base_url == self.base_url,
            r.default_headers == self.default_headers,
    {
        let mut c = self;
        c.middlewares.push(middleware);
        c
    }

    /// Install a middleware.
    pub fn middleware(self, middleware: Mw) -> (r: Client)
        ensures
            r.middlewares@ == self.middlewares@.push(middleware),
            r.base_url == self.base_url,
            r.default_headers == self.default_headers,
    {
        self.with_middleware(middleware)
    }

    /// Drop the default headers.
    pub fn no_default_headers(self) -> (r: Client)
        ensures
            r.default_headers@ == Seq::<(String, String)>::empty(),
            r.base_url == self.base_url,
            r.middlewares == self.middlewares,
    {
        let mut c = self;
        c.default_headers = Vec::new();
        proof {
            assert(c.default_headers@ =~= Seq::<(String, String)>::empty());
        }
        c
    }

    /// Add default headers, applied to every request built on this client.
    pub fn default_headers(self, headers: &Vec<(String, String)>) -> (r: Client)
        ensures
            r.default_headers@.len() == self.default_headers@.len() + headers@.len(),
            r.base_url == self.base_url,
            r.middlewares == self.middlewares,
    {
        let mut c = self;
        let n = headers.len();
        let mut i: usize = 0;
        while i < n
            invariant
                i <= n,
                n == headers@.len(),
                c.default_headers@.len() == self.default_headers@.len() + i,
                c.base_url == self.base_url,
                c.middlewares == self.middlewares,
            decreases n - i,
        {
            let p = &headers[i];
            c.default_headers.push((p.0.clone(), p.1.clone()));
            i = i + 1;
        }
        c
    }

    /// Add one default header.
    pub fn default_header(self, name: &str, value: &str) -> (r: Client)
        ensures
            r.default_headers@.len() == self.default_headers@.len() + 1,
            r.base_url == self.base_url,
            r.middlewares == self.middlewares,
    {
        let mut c = self;
        c.default_headers.push((String::from_str(name), String::from_str(value)));
        c
    }

    /// A builder for the method and target, with the default headers set and
    /// the client's middlewares adopted. The URL (after the base URL, when
    /// one is set) must parse.
    pub fn request(&self, method: Method, url_or_path: &str) -> (r: RequestBuilder)
        requires
            parse_uri_spec(combined_url(self.base_url, url_or_path@)) is Some,
        ensures
            r.method == method,
            parse_uri_spec(combined_url(self.base_url, url_or_path@)) == Some(r.uri@),
            r.headers@ == h_set_list(
                Seq::<(Seq<char>, Seq<char>)>::empty(),
                self.default_headers@.map_values(|p: (String, String)| (p.0@, p.1@)),
            ),
            r.body is None,
            mws_view(r.middlewares@) == mws_view(self.middlewares@),
    {
        let direct = parse_uri(url_or_path);
        let absolute = match &direct {
            Some(u) => u.scheme.is_some(),
            None => false,
        };
        let uri = if absolute {
            match direct {
                Some(u) => u,
                None => {
                    proof {
                        assert(false);
                    }
                    Uri { scheme: None, authority: None, path: String::new(), query: None }
                },
            }
        } else {
            let combined = match &self.base_url {
                Some(b) => {
                    let mut s = b.clone();
                    s.append(url_or_path);
                    s
                },
                None => String::from_str(url_or_path),
            };
            match parse_uri(combined.as_str()) {
                Some(u) => u,
                None => {
                    proof {
                        assert(false);
                    }
                    Uri { scheme: None, authority: None, path: String::new(), query: None }
                },
            }
        };
        let b = RequestBuilder::new(method, uri);
        let b = b.headers(&self.default_headers);
        let mut mws: Vec<Mw> = Vec::new();
        let n = self.middlewares.len();
        let mut i: usize = 0;
        while i < n
            invariant
                i <= n,
                n == self.middlewares@.len(),
                mws@.len() == i,
                forall|k: int| 0 <= k < i ==> (#[trigger] mws@[k])@ == self.middlewares@[k]@,
            decreases n - i,
        {
            mws.push(self.middlewares[i].clone());
            i = i + 1;
        }
        let b = b.set_middlewares(mws);
        proof {
            assert(mws_view(b.middlewares@) =~= mws_view(self.middlewares@));
        }
        b
    }

    pub fn get(&self, url_or_path: &str) -> (r: RequestBuilder)
        requires
            parse_uri_spec(combined_url(self.base_url, url_or_path@)) is Some,
        ensures
            r.method == Method::Get,
            parse_uri_spec(combined_url(self.base_url, url_or_path@)) == Some(r.uri@),
            mws_view(r.middlewares@) == mws_view(self.middlewares@),
    {
        self.request(Method::Get, url_or_path)
    }

    pub fn post(&self, url_or_path: &str) -> (r: RequestBuilder)
        requires
            parse_uri_spec(combined_url(self.base_url, url_or_path@)) is Some,
        ensures
            r.method == Method::Post,
            parse_uri_spec(combined_url(self.base_url, url_or_path@)) == Some(r.uri@),
            mws_view(r.middlewares@) == mws_view(self.middlewares@),
    {
        self.request(Method::Post, url_or_path)
    }

    pub fn put(&self, url_or_path: &str) -> (r: RequestBuilder)
        requires
            parse_uri_spec(combined_url(self.base_url, url_or_path@)) is Some,
        ensures
            r.method == Method::Put,
            parse_uri_spec(combined_url(self.base_url, url_or_path@)) == Some(r.uri@),
            mws_view(r.middlewares@) == mws_view(self.middlewares@),
    {
        self.request(Method::Put, url_or_path)
    }

    pub fn delete(&self, url_or_path: &str) -> (r: RequestBuilder)
        requires
            parse_uri_spec(combined_url(self.base_url, url_or_path@)) is Some,
        ensures
            r.method == Method::Delete,
            parse_uri_spec(combined_url(self.base_url, url_or_path@)) == Some(r.uri@),
            mws_view(r.middlewares@) == mws_view(self.middlewares@),
    {
        self.request(Method::Delete, url_or_path)
    }

    pub fn patch(&self, url_or_path: &str) -> (r: RequestBuilder)
        requires
            parse_uri_spec(combined_url(self.base_url, url_or_path@)) is Some,
        ensures
            r.method == Method::Patch,
            parse_uri_spec(combined_url(self.base_url, url_or_path@)) == Some(r.uri@),
            mws_view(r.middlewares@) == mws_view(self.middlewares@),
    {
        self.request(Method::Patch, url_or_path)
    }

    pub fn head(&self, url_or_path: &str) -> (r: RequestBuilder)
        requires
            parse_uri_spec(combined_url(self.base_url, url_or_path@)) is Some,
        ensures
            r.method == Method::Head,
            parse_uri_spec(combined_url(self.base_url, url_or_path@)) == Some(r.uri@),
            mws_view(r.middlewares@) == mws_view(self.middlewares@),
    {
        self.request(Method::Head, url_or_path)
    }

    /// Run a built request through its middleware list against the state's
    /// transport script; the token slot is first seeded from the first
    /// authorizing middleware.
    pub fn execute(&self, builder: RequestBuilder, st: &mut PipeState) -> (r: Result<
        InMemoryResponse,
        ProtocolError,
    >)
        requires
            wf_uri(builder.uri@),
            old(st)@.now >= 0,
        ensures
            ({
                let req = crate::request::ReqV {
                    method: builder.method,
                    uri: builder.uri@,
                    version: builder.version,
                    headers: builder.headers@,
                    body: crate::builder::body_or_empty(builder.body),
                };
                let seeded = crate::middleware::StV { token: seed_token_spec(mws_view(builder.middlewares@), old(st)@.token), ..old(st)@ };
                let (mr, ms) = run_model(mws_view(builder.middlewares@), 0, req, seeded);
                res_view(r) == mr && final(st)@ == ms
            }),
    {
        let RequestBuilder { method, uri, version, headers, body, middlewares } = builder;
        let req = InMemoryRequest {
            method,
            uri,
            version,
            headers,
            body: match body {
                Some(b) => b,
                None => crate::body::InMemoryBody::Empty,
            },
        };
        seed_token(&middlewares, st);
        run(&middlewares, 0, req, st)
    }
}

} // verus!
