use vstd::prelude::*;

verus! {

/// Mathematical model of a request URI, split into its four components.
#[verifier::ext_equal]
pub struct UriV {
    pub scheme: Option<Seq<char>>,
    pub authority: Option<Seq<char>>,
    pub path: Seq<char>,
    pub query: Option<Seq<char>>,
}

/// A request target, held as plain components. `scheme` and `authority` are
/// both present (an absolute URI) or both absent (a path-relative one).
#[derive(Debug)]
pub struct Uri {
    pub scheme: Option<String>,
    pub authority: Option<String>,
    pub path: String,
    pub query: Option<String>,
}

impl View for Uri {
    type V = UriV;

    open spec fn view(&self) -> UriV {
        UriV {
            scheme: match self.scheme {
                Some(s) => Some(s@),
                None => None,
            },
            authority: match self.authority {
                Some(a) => Some(a@),
                None => None,
            },
            path: self.path@,
            query: match self.query {
                Some(q) => Some(q@),
                None => None,
            },
        }
    }
}

pub open spec fn scheme_char_ok(c: char) -> bool {
    c != ':' && c != '/' && c != '?'
}

/// Well-formed URI components: the shape every `Uri` held by the library
/// keeps, which makes its textual form unambiguous.
pub open spec fn wf_uri(u: UriV) -> bool {
    &&& (u.scheme is Some <==> u.authority is Some)
    &&& (u.scheme matches Some(sc) ==> sc.len() > 0 && forall|i: int|
        0 <= i < sc.len() ==> scheme_char_ok(#[trigger] sc[i]))
    &&& (u.authority matches Some(a) ==> a.len() > 0 && forall|i: int|
        0 <= i < a.len() ==> #[trigger] a[i] != '/' && a[i] != '?')
    &&& (u.authority is Some ==> u.path.len() == 0 || u.path[0] == '/')
    &&& (u.authority is None ==> u.path.len() > 0 && u.path[0] == '/')
    &&& (forall|i: int| 0 <= i < u.path.len() ==> #[trigger] u.path[i] != '?')
}

/// The textual form of a URI: `scheme://authority` when present, then the
/// path, then `?query` when present.
pub open spec fn uri_chars(u: UriV) -> Seq<char> {
    (match u.scheme {
        Some(sc) => sc + "://"@,
        None => Seq::empty(),
    }) + (match u.authority {
        Some(a) => a,
        None => Seq::empty(),
    }) + u.path + (match u.query {
        Some(q) => "?"@ + q,
        None => Seq::empty(),
    })
}

/// Character classes used when scanning: mode 0 stops at `:`, `/` and `?`;
/// mode 1 at `/` and `?`; mode 2 at `?`; mode 3 at `;`; mode 4 at `:`;
/// mode 5 at `&`; mode 6 at `=`.
pub open spec fn char_in_mode(c: char, mode: int) -> bool {
    if mode == 0 {
        c == ':' || c == '/' || c == '?'
    } else if mode == 1 {
        c == '/' || c == '?'
    } else if mode == 3 {
        c == ';'
    } else if mode == 4 {
        c == ':'
    } else if mode == 5 {
        c == '&'
    } else if mode == 6 {
        c == '='
    } else if mode == 7 {
        c == ' '
    } else {
        c == '?'
    }
}

/// Index of the first character of class `mode` in `s`, if any.
pub open spec fn find_first(s: Seq<char>, mode: int) -> Option<int>
    decreases s.len(),
{
    if s.len() == 0 {
        None
    } else if char_in_mode(s[0], mode) {
        Some(0)
    } else {
        match find_first(s.drop_first(), mode) {
            Some(i) => Some(i + 1),
            None => None,
        }
    }
}

pub proof fn lemma_find_first(s: Seq<char>, mode: int)
    ensures
        match find_first(s, mode) {
            Some(i) => 0 <= i < s.len() && char_in_mode(s[i], mode) && forall|k: int|
                0 <= k < i ==> !char_in_mode(#[trigger] s[k], mode),
            None => forall|k: int| 0 <= k < s.len() ==> !char_in_mode(#[trigger] s[k], mode),
        },
    decreases s.len(),
{
    if s.len() > 0 && !char_in_mode(s[0], mode) {
        lemma_find_first(s.drop_first(), mode);
        match find_first(s.drop_first(), mode) {
            Some(i) => {
                assert forall|k: int| 0 <= k < i + 1 implies !char_in_mode(
                    #[trigger] s[k],
                    mode,
                ) by {
                    if k > 0 {
                        assert(s.drop_first()[k - 1] == s[k]);
                    }
                }
                assert(s.drop_first()[i] == s[i + 1]);
            },
            None => {
                assert forall|k: int| 0 <= k < s.len() implies !char_in_mode(
                    #[trigger] s[k],
                    mode,
                ) by {
                    if k > 0 {
                        assert(s.drop_first()[k - 1] == s[k]);
                    }
                }
            },
        }
    }
}

/// The first matching index determines `find_first`.
pub proof fn lemma_find_first_is(s: Seq<char>, mode: int, i: int)
    requires
        0 <= i < s.len(),
        char_in_mode(s[i], mode),
        forall|k: int| 0 <= k < i ==> !char_in_mode(#[trigger] s[k], mode),
    ensures
        find_first(s, mode) == Some(i),
{
    lemma_find_first(s, mode);
    match find_first(s, mode) {
        Some(j) => {
            if j < i {
                assert(!char_in_mode(s[j], mode));
            } else if j > i {
                assert(!char_in_mode(s[i], mode));
            }
        },
        None => {
            assert(!char_in_mode(s[i], mode));
        },
    }
}

pub proof fn lemma_find_first_none(s: Seq<char>, mode: int)
    requires
        forall|k: int| 0 <= k < s.len() ==> !char_in_mode(#[trigger] s[k], mode),
    ensures
        find_first(s, mode) == None::<int>,
{
    lemma_find_first(s, mode);
    match find_first(s, mode) {
        Some(j) => {
            assert(!char_in_mode(s[j], mode));
        },
        None => {},
    }
}

/// The parse of a URI string: a leading `/` gives a path-relative URI; else
/// the text up to the first `:` (which must be followed by `//`) is the
/// scheme, then the authority runs until `/` or `?`; a `?` starts the query.
pub open spec fn parse_uri_spec(s: Seq<char>) -> Option<UriV> {
    if s.len() == 0 {
        None
    } else if s[0] == '/' {
        match find_first(s, 2) {
            Some(q) => Some(
                UriV {
                    scheme: None,
                    authority: None,
                    path: s.take(q),
                    query: Some(s.skip(q + 1)),
                },
            ),
            None => Some(UriV { scheme: None, authority: None, path: s, query: None }),
        }
    } else {
        match find_first(s, 0) {
            Some(i) => {
                if s[i] == ':' && i > 0 && i + 3 <= s.len() && s[i + 1] == '/' && s[i + 2]
                    == '/' {
                    let sc = s.take(i);
                    let rest = s.skip(i + 3);
                    let e = match find_first(rest, 1) {
                        Some(e) => e,
                        None => rest.len() as int,
                    };
                    if e == 0 {
                        None
                    } else {
                        let auth = rest.take(e);
                        if e == rest.len() {
                            Some(
                                UriV {
                                    scheme: Some(sc),
                                    authority: Some(auth),
                                    path: Seq::empty(),
                                    query: None,
                                },
                            )
                        } else if rest[e] == '/' {
                            let tail = rest.skip(e);
                            match find_first(tail, 2) {
                                Some(q) => Some(
                                    UriV {
                                        scheme: Some(sc),
                                        authority: Some(auth),
                                        path: tail.take(q),
                                        query: Some(tail.skip(q + 1)),
                                    },
                                ),
                                None => Some(
                                    UriV {
                                        scheme: Some(sc),
                                        authority: Some(auth),
                                        path: tail,
                                        query: None,
                                    },
                                ),
                            }
                        } else {
                            Some(
                                UriV {
                                    scheme: Some(sc),
                                    authority: Some(auth),
                                    path: Seq::empty(),
                                    query: Some(rest.skip(e + 1)),
                                },
                            )
                        }
                    }
                } else {
                    None
                }
            },
            None => None,
        }
    }
}

/// Whatever the parser accepts is well-formed.
pub proof fn lemma_parse_wf(s: Seq<char>)
    ensures
        parse_uri_spec(s) matches Some(u) ==> wf_uri(u),
{
    if s.len() == 0 {
    } else if s[0] == '/' {
        lemma_find_first(s, 2);
        match find_first(s, 2) {
            Some(q) => {
                assert(s[0] != '?');
                assert(q > 0);
                assert(s.take(q)[0] == '/');
            },
            None => {},
        }
    } else {
        lemma_find_first(s, 0);
        match find_first(s, 0) {
            Some(i) => {
                if s[i] == ':' && i > 0 && i + 3 <= s.len() && s[i + 1] == '/' && s[i + 2]
                    == '/' {
                    let rest = s.skip(i + 3);
                    lemma_find_first(rest, 1);
                    let e = match find_first(rest, 1) {
                        Some(e) => e,
                        None => rest.len() as int,
                    };
                    if e > 0 {
                        assert forall|k: int| 0 <= k < e implies #[trigger] rest.take(e)[k]
                            != '/' && rest.take(e)[k] != '?' by {
                            assert(!char_in_mode(rest[k], 1));
                        }
                        if e < rest.len() && rest[e] == '/' {
                            let tail = rest.skip(e);
                            lemma_find_first(tail, 2);
                            match find_first(tail, 2) {
                                Some(q) => {
                                    assert(tail[0] == '/');
                                    assert(tail[0] != '?');
                                    assert(q > 0);
                                    assert(tail.take(q)[0] == '/');
                                },
                                None => {
                                    assert(tail[0] == '/');
                                },
                            }
                        }
                    }
                }
            },
            None => {},
        }
    }
}

/// Printing a well-formed URI and parsing the text gives the same URI back:
/// the textual form is unambiguous.
pub proof fn lemma_uri_roundtrip(u: UriV)
    requires
        wf_uri(u),
    ensures
        parse_uri_spec(uri_chars(u)) == Some(u),
{
    let s = uri_chars(u);
    reveal_strlit("://");
    reveal_strlit("?");
    match u.scheme {
        None => {
            let p = u.path;
            match u.query {
                None => {
                    assert(s =~= p);
                    lemma_find_first_none(s, 2);
                    assert(parse_uri_spec(s) == Some(
                        UriV { scheme: None, authority: None, path: s, query: None },
                    ));
                    assert(UriV { scheme: None, authority: None, path: s, query: None } =~= u);
                },
                Some(q) => {
                    assert(s =~= p + "?"@ + q);
                    assert(s[p.len() as int] == '?');
                    assert forall|k: int| 0 <= k < p.len() implies !char_in_mode(
                        #[trigger] s[k],
                        2,
                    ) by {
                        assert(s[k] == p[k]);
                    }
                    lemma_find_first_is(s, 2, p.len() as int);
                    assert(s.take(p.len() as int) =~= p);
                    assert(s.skip(p.len() as int + 1) =~= q);
                    assert(parse_uri_spec(s) == Some(
                        UriV {
                            scheme: None,
                            authority: None,
                            path: s.take(p.len() as int),
                            query: Some(s.skip(p.len() as int + 1)),
                        },
                    ));
                    assert(UriV {
                        scheme: None,
                        authority: None,
                        path: s.take(p.len() as int),
                        query: Some(s.skip(p.len() as int + 1)),
                    } =~= u);
                },
            }
        },
        Some(sc) => {
            let a = u.authority->Some_0;
            let p = u.path;
            let qpart = match u.query {
                Some(q) => "?"@ + q,
                None => Seq::<char>::empty(),
            };
            let li = sc.len() as int;
            assert(s =~= sc + "://"@ + a + p + qpart);
            assert(s[li] == ':');
            assert(s[li + 1] == '/');
            assert(s[li + 2] == '/');
            assert(s[0] != '/');
            assert forall|k: int| 0 <= k < li implies !char_in_mode(#[trigger] s[k], 0) by {
                assert(s[k] == sc[k]);
            }
            lemma_find_first_is(s, 0, li);
            let rest = s.skip(li + 3);
            assert(rest =~= a + p + qpart);
            let al = a.len() as int;
            assert forall|k: int| 0 <= k < al implies !char_in_mode(#[trigger] rest[k], 1) by {
                assert(rest[k] == a[k]);
            }
            assert(s.take(li) =~= sc);
            if p.len() > 0 {
                assert(rest[al] == p[0]);
                assert(p[0] == '/');
                lemma_find_first_is(rest, 1, al);
                assert(rest.take(al) =~= a);
                let tail = rest.skip(al);
                assert(tail =~= p + qpart);
                match u.query {
                    None => {
                        assert(tail =~= p);
                        lemma_find_first_none(tail, 2);
                        assert(parse_uri_spec(s) == Some(
                            UriV {
                                scheme: Some(s.take(li)),
                                authority: Some(rest.take(al)),
                                path: tail,
                                query: None,
                            },
                        ));
                        assert(UriV {
                            scheme: Some(s.take(li)),
                            authority: Some(rest.take(al)),
                            path: tail,
                            query: None,
                        } =~= u);
                    },
                    Some(q) => {
                        let pl = p.len() as int;
                        assert(tail[pl] == '?');
                        assert forall|k: int| 0 <= k < pl implies !char_in_mode(
                            #[trigger] tail[k],
                            2,
                        ) by {
                            assert(tail[k] == p[k]);
                        }
                        lemma_find_first_is(tail, 2, pl);
                        assert(tail.take(pl) =~= p);
                        assert(tail.skip(pl + 1) =~= q);
                        assert(parse_uri_spec(s) == Some(
                            UriV {
                                scheme: Some(s.take(li)),
                                authority: Some(rest.take(al)),
                                path: tail.take(pl),
                                query: Some(tail.skip(pl + 1)),
                            },
                        ));
                        assert(UriV {
                            scheme: Some(s.take(li)),
                            authority: Some(rest.take(al)),
                            path: tail.take(pl),
                            query: Some(tail.skip(pl + 1)),
                        } =~= u);
                    },
                }
            } else {
                match u.query {
                    None => {
                        assert(rest =~= a);
                        lemma_find_first_none(rest, 1);
                        assert(rest.take(al) =~= a);
                        assert(parse_uri_spec(s) == Some(
                            UriV {
                                scheme: Some(s.take(li)),
                                authority: Some(rest.take(rest.len() as int)),
                                path: Seq::empty(),
                                query: None,
                            },
                        ));
                        assert(UriV {
                            scheme: Some(s.take(li)),
                            authority: Some(rest.take(rest.len() as int)),
                            path: Seq::empty(),
                            query: None,
                        } =~= u);
                    },
                    Some(q) => {
                        assert(rest =~= a + "?"@ + q);
                        assert(rest[al] == '?');
                        lemma_find_first_is(rest, 1, al);
                        assert(rest.take(al) =~= a);
                        assert(rest.skip(al + 1) =~= q);
                        assert(parse_uri_spec(s) == Some(
                            UriV {
                                scheme: Some(s.take(li)),
                                authority: Some(rest.take(al)),
                                path: Seq::empty(),
                                query: Some(rest.skip(al + 1)),
                            },
                        ));
                        assert(UriV {
                            scheme: Some(s.take(li)),
                            authority: Some(rest.take(al)),
                            path: Seq::empty(),
                            query: Some(rest.skip(al + 1)),
                        } =~= u);
                    },
                }
            }
        },
    }
}

impl Clone for Uri {
    fn clone(&self) -> (r: Self)
        ensures
            r@ == self@,
    {
        Uri {
            scheme: match &self.scheme {
                Some(s) => Some(s.clone()),
                None => None,
            },
            authority: match &self.authority {
                Some(a) => Some(a.clone()),
                None => None,
            },
            path: self.path.clone(),
            query: match &self.query {
                Some(q) => Some(q.clone()),
                None => None,
            },
        }
    }
}

impl Uri {
    /// The textual form of this URI.
    pub fn to_string(&self) -> (r: String)
        ensures
            r@ == uri_chars(self@),
    {
        let mut out = String::new();
        match &self.scheme {
            Some(sc) => {
                out.append(sc.as_str());
                out.append("://");
            },
            None => {},
        }
        match &self.authority {
            Some(a) => {
                out.append(a.as_str());
            },
            None => {},
        }
        out.append(self.path.as_str());
        match &self.query {
            Some(q) => {
                out.append("?");
                out.append(q.as_str());
            },
            None => {},
        }
        proof {
            assert(out@ =~= uri_chars(self@));
        }
        out
    }
}

/// First character of class `mode` in `s` at or after `from`.
pub(crate) fn scan(s: &str, from: usize, mode: u8) -> (r: Option<usize>)
    requires
        from <= s@.len(),
    ensures
        match r {
            Some(i) => from <= i < s@.len() && char_in_mode(s@[i as int], mode as int)
                && forall|k: int| from <= k < i ==> !char_in_mode(#[trigger] s@[k], mode as int),
            None => forall|k: int| from <= k < s@.len() ==> !char_in_mode(
                #[trigger] s@[k],
                mode as int,
            ),
        },
{
    let n = s.unicode_len();
    let mut i: usize = from;
    while i < n
        invariant
            i <= n,
            from <= i,
            forall|k: int| from <= k < i ==> !char_in_mode(#[trigger] s@[k], mode as int),
        decreases n - i,
    {
        let c = s.get_char(i);
        let hit = if mode == 0 {
            c == ':' || c == '/' || c == '?'
        } else if mode == 1 {
            c == '/' || c == '?'
        } else if mode == 3 {
            c == ';'
        } else if mode == 4 {
            c == ':'
        } else if mode == 5 {
            c == '&'
        } else if mode == 6 {
            c == '='
        } else if mode == 7 {
            c == ' '
        } else {
            c == '?'
        };
        if hit {
            return Some(i);
        }
        i = i + 1;
    }
    None
}

pub(crate) fn substr(s: &str, from: usize, to: usize) -> (r: String)
    requires
        from <= to <= s@.len(),
    ensures
        r@ == s@.subrange(from as int, to as int),
{
    String::from_str(s.substring_char(from, to))
}

/// Parse the textual form of a URI into its components.
pub fn parse_uri(s: &str) -> (r: Option<Uri>)
    ensures
        match r {
            Some(u) => parse_uri_spec(s@) == Some(u@),
            None => parse_uri_spec(s@) is None,
        },
{
    let n = s.unicode_len();
    if n == 0 {
        return None;
    }
    if s.get_char(0) == '/' {
        match scan(s, 0, 2) {
            Some(q) => {
                proof {
                    lemma_find_first_is(s@, 2, q as int);
                }
                let path = substr(s, 0, q);
                let query = substr(s, q + 1, n);
                proof {
                    assert(path@ =~= s@.take(q as int));
                    assert(query@ =~= s@.skip(q as int + 1));
                }
                Some(Uri { scheme: None, authority: None, path, query: Some(query) })
            },
            None => {
                proof {
                    lemma_find_first_none(s@, 2);
                }
                let path = substr(s, 0, n);
                proof {
                    assert(path@ =~= s@);
                }
                Some(Uri { scheme: None, authority: None, path, query: None })
            },
        }
    } else {
        let i = match scan(s, 0, 0) {
            Some(i) => i,
            None => {
                proof {
                    lemma_find_first_none(s@, 0);
                }
                return None;
            },
        };
        proof {
            lemma_find_first_is(s@, 0, i as int);
        }
        if !(s.get_char(i) == ':') {
            return None;
        }
        if i == 0 {
            return None;
        }
        if n - i < 3 {
            return None;
        }
        if !(s.get_char(i + 1) == '/') || !(s.get_char(i + 2) == '/') {
            return None;
        }
        let ghost rest = s@.skip(i as int + 3);
        let scheme = substr(s, 0, i);
        proof {
            assert(scheme@ =~= s@.take(i as int));
        }
        let e = match scan(s, i + 3, 1) {
            Some(e_abs) => {
                proof {
                    assert forall|k: int| 0 <= k < e_abs - (i as int + 3) implies !char_in_mode(
                        #[trigger] rest[k],
                        1,
                    ) by {
                        assert(rest[k] == s@[k + (i as int + 3)]);
                    }
                    assert(rest[e_abs as int - (i as int + 3)] == s@[e_abs as int]);
                    lemma_find_first_is(rest, 1, e_abs as int - (i as int + 3));
                }
                e_abs
            },
            None => {
                proof {
                    assert forall|k: int| 0 <= k < rest.len() implies !char_in_mode(
                        #[trigger] rest[k],
                        1,
                    ) by {
                        assert(rest[k] == s@[k + (i as int + 3)]);
                    }
                    lemma_find_first_none(rest, 1);
                }
                n
            },
        };
        if e == i + 3 {
            return None;
        }
        let auth = substr(s, i + 3, e);
        proof {
            assert(auth@ =~= rest.take(e as int - (i as int + 3)));
        }
        if e == n {
            return Some(
                Uri { scheme: Some(scheme), authority: Some(auth), path: String::new(), query: None },
            );
        }
        if s.get_char(e) == '/' {
            let ghost tail = rest.skip(e as int - (i as int + 3));
            proof {
                assert(tail =~= s@.skip(e as int));
            }
            match scan(s, e, 2) {
                Some(q) => {
                    proof {
                        assert forall|k: int| 0 <= k < q - e implies !char_in_mode(
                            #[trigger] tail[k],
                            2,
                        ) by {
                            assert(tail[k] == s@[k + e as int]);
                        }
                        assert(tail[q as int - e as int] == s@[q as int]);
                        lemma_find_first_is(tail, 2, q as int - e as int);
                    }
                    let path = substr(s, e, q);
                    let query = substr(s, q + 1, n);
                    proof {
                        assert(path@ =~= tail.take(q as int - e as int));
                        assert(query@ =~= tail.skip(q as int - e as int + 1));
                    }
                    Some(Uri { scheme: Some(scheme), authority: Some(auth), path, query: Some(query) })
                },
                None => {
                    proof {
                        assert forall|k: int| 0 <= k < tail.len() implies !char_in_mode(
                            #[trigger] tail[k],
                            2,
                        ) by {
                            assert(tail[k] == s@[k + e as int]);
                        }
                        lemma_find_first_none(tail, 2);
                    }
                    let path = substr(s, e, n);
                    proof {
                        assert(path@ =~= tail);
                    }
                    Some(Uri { scheme: Some(scheme), authority: Some(auth), path, query: None })
                },
            }
        } else {
            let query = substr(s, e + 1, n);
            proof {
                assert(query@ =~= rest.skip(e as int - (i as int + 3) + 1));
            }
            Some(
                Uri {
                    scheme: Some(scheme),
                    authority: Some(auth),
                    path: String::new(),
                    query: Some(query),
                },
            )
        }
    }
}

/// The redirect target merged over the request URI: components the redirect
/// lacks are inherited from the original.
pub open spec fn merge_uri(orig: UriV, red: UriV) -> UriV {
    UriV {
        scheme: if red.scheme is Some {
            red.scheme
        } else {
            orig.scheme
        },
        authority: if red.authority is Some {
            red.authority
        } else {
            orig.authority
        },
        path: red.path,
        query: red.query,
    }
}

/// Resolve a `Location` header against the URI it redirects from. A target
/// without scheme and authority inherits them from the original.
pub fn fix_url(original: &Uri, redirect_url: &str) -> (r: Option<Uri>)
    requires
        wf_uri(original@),
    ensures
        match r {
            Some(u) => {
                &&& parse_uri_spec(redirect_url@) matches Some(p) && u@ == merge_uri(
                    original@,
                    p,
                )
                &&& wf_uri(u@)
            },
            None => parse_uri_spec(redirect_url@) is None,
        },
{
    let red = match parse_uri(redirect_url) {
        Some(red) => red,
        None => {
            return None;
        },
    };
    proof {
        lemma_parse_wf(redirect_url@);
    }
    let merged = match (red.scheme, red.authority) {
        (Some(sc), Some(a)) => Uri {
            scheme: Some(sc),
            authority: Some(a),
            path: red.path,
            query: red.query,
        },
        (_, _) => Uri {
            scheme: match &original.scheme {
                Some(sc) => Some(sc.clone()),
                None => None,
            },
            authority: match &original.authority {
                Some(a) => Some(a.clone()),
                None => None,
            },
            path: red.path,
            query: red.query,
        },
    };
    Some(merged)
}

} // verus!
