use vstd::prelude::*;
use vstd::utf8::encode_utf8;
use crate::sanitize::{is_sensitive, token_chars, should_sanitize};

verus! {

/// The request methods this library issues.
#[derive(Debug, Clone, Copy, PartialEq, Eq, Structural)]
pub enum Method {
    Get,
    Post,
    Put,
    Delete,
    Patch,
    Head,
    Options,
}

pub open spec fn method_chars(m: Method) -> Seq<char> {
    match m {
        Method::Get => "GET"@,
        Method::Post => "POST"@,
        Method::Put => "PUT"@,
        Method::Delete => "DELETE"@,
        Method::Patch => "PATCH"@,
        Method::Head => "HEAD"@,
        Method::Options => "OPTIONS"@,
    }
}

pub open spec fn parse_method_spec(s: Seq<char>) -> Option<Method> {
    if s == "GET"@ {
        Some(Method::Get)
    } else if s == "POST"@ {
        Some(Method::Post)
    } else if s == "PUT"@ {
        Some(Method::Put)
    } else if s == "DELETE"@ {
        Some(Method::Delete)
    } else if s == "PATCH"@ {
        Some(Method::Patch)
    } else if s == "HEAD"@ {
        Some(Method::Head)
    } else if s == "OPTIONS"@ {
        Some(Method::Options)
    } else {
        None
    }
}

impl Method {
    /// The method's name on the wire.
    pub fn as_str(&self) -> (r: &'static str)
        ensures
            r@ == method_chars(*self),
    {
        match self {
            Method::Get => "GET",
            Method::Post => "POST",
            Method::Put => "PUT",
            Method::Delete => "DELETE",
            Method::Patch => "PATCH",
            Method::Head => "HEAD",
            Method::Options => "OPTIONS",
        }
    }
}

/// Parsing a method name is the inverse of printing it.
pub proof fn lemma_method_roundtrip(m: Method)
    ensures
        parse_method_spec(method_chars(m)) == Some(m),
{
    reveal_strlit("GET");
    reveal_strlit("POST");
    reveal_strlit("PUT");
    reveal_strlit("DELETE");
    reveal_strlit("PATCH");
    reveal_strlit("HEAD");
    reveal_strlit("OPTIONS");
    assert("GET"@.len() == 3);
    assert("POST"@.len() == 4);
    assert("PUT"@.len() == 3);
    assert("DELETE"@.len() == 6);
    assert("PATCH"@.len() == 5);
    assert("HEAD"@.len() == 4);
    assert("OPTIONS"@.len() == 7);
    assert("PUT"@[0] == 'P' && "GET"@[0] == 'G');
    assert("HEAD"@[0] == 'H' && "POST"@[0] == 'P');
}

pub fn parse_method(s: &str) -> (r: Option<Method>)
    ensures
        r == parse_method_spec(s@),
{
    if crate::sanitize::str_eq(s, "GET") {
        Some(Method::Get)
    } else if crate::sanitize::str_eq(s, "POST") {
        Some(Method::Post)
    } else if crate::sanitize::str_eq(s, "PUT") {
        Some(Method::Put)
    } else if crate::sanitize::str_eq(s, "DELETE") {
        Some(Method::Delete)
    } else if crate::sanitize::str_eq(s, "PATCH") {
        Some(Method::Patch)
    } else if crate::sanitize::str_eq(s, "HEAD") {
        Some(Method::Head)
    } else if crate::sanitize::str_eq(s, "OPTIONS") {
        Some(Method::Options)
    } else {
        None
    }
}

/// HTTP protocol versions; the recorder's fingerprint ignores this field so
/// recordings survive a change of transport version.
#[derive(Debug, Clone, Copy, PartialEq, Eq, Structural)]
pub enum Version {
    Http09,
    Http10,
    Http11,
    H2,
    H3,
}

impl Default for Version {
    fn default() -> (r: Self)
        ensures
            r == Version::Http11,
    {
        Version::Http11
    }
}

/// Status classification, on the numeric code.
pub open spec fn is_redirection(status: u16) -> bool {
    300 <= status < 400
}

pub open spec fn is_client_error(status: u16) -> bool {
    400 <= status < 500
}

pub open spec fn is_server_error(status: u16) -> bool {
    500 <= status < 600
}

pub fn status_is_redirection(status: u16) -> (r: bool)
    ensures
        r == is_redirection(status),
{
    300 <= status && status < 400
}

pub fn status_is_error(status: u16) -> (r: bool)
    ensures
        r == (is_client_error(status) || is_server_error(status)),
{
    400 <= status && status < 600
}

/// ASCII lowercase folding of one character.
pub open spec fn lower_char(c: char) -> char {
    if 'A' <= c && c <= 'Z' {
        ((c as u8) + 32) as char
    } else {
        c
    }
}

/// ASCII lowercase folding of a character sequence.
pub open spec fn lower_chars(s: Seq<char>) -> Seq<char> {
    s.map_values(|c: char| lower_char(c))
}

/// Relies on `str::to_ascii_lowercase`: ASCII uppercase letters are mapped
/// to lowercase and every other character is kept.
#[verifier::external_body]
pub(crate) fn ascii_lower(s: &str) -> (r: String)
    ensures
        r@ == lower_chars(s@),
{
    s.to_ascii_lowercase()
}

/// A header list: insertion-ordered pairs of lowercased name and value.
/// Lookup is by exact (already lowercased) name; names are unique.
#[derive(Debug)]
pub struct Headers {
    pairs: Vec<(String, String)>,
}

impl View for Headers {
    type V = Seq<(Seq<char>, Seq<char>)>;

    closed spec fn view(&self) -> Seq<(Seq<char>, Seq<char>)> {
        self.pairs@.map_values(|p: (String, String)| (p.0@, p.1@))
    }
}

/// Names are unique and stored in folded form.
pub open spec fn wf_headers(hs: Seq<(Seq<char>, Seq<char>)>) -> bool {
    &&& (forall|i: int, j: int| 0 <= i < j < hs.len() ==> (#[trigger] hs[i].0)
        != (#[trigger] hs[j].0))
    &&& (forall|i: int| 0 <= i < hs.len() ==> lower_chars(#[trigger] hs[i].0) == hs[i].0)
}

/// The value under a name, the first match first.
pub open spec fn h_get(hs: Seq<(Seq<char>, Seq<char>)>, name: Seq<char>) -> Option<Seq<char>>
    decreases hs.len(),
{
    if hs.len() == 0 {
        None
    } else if hs.first().0 == name {
        Some(hs.first().1)
    } else {
        h_get(hs.drop_first(), name)
    }
}

pub open spec fn h_contains(hs: Seq<(Seq<char>, Seq<char>)>, name: Seq<char>) -> bool {
    h_get(hs, name) is Some
}

/// Insertion: the first pair under the name is replaced, keeping its place;
/// a fresh name is appended.
pub open spec fn h_set(
    hs: Seq<(Seq<char>, Seq<char>)>,
    name: Seq<char>,
    value: Seq<char>,
) -> Seq<(Seq<char>, Seq<char>)>
    decreases hs.len(),
{
    if hs.len() == 0 {
        seq![(name, value)]
    } else if hs.first().0 == name {
        seq![(name, value)] + hs.drop_first()
    } else {
        seq![hs.first()] + h_set(hs.drop_first(), name, value)
    }
}

pub proof fn lemma_h_get_at(hs: Seq<(Seq<char>, Seq<char>)>, name: Seq<char>, i: int)
    requires
        0 <= i < hs.len(),
        hs[i].0 == name,
        forall|k: int| 0 <= k < i ==> (#[trigger] hs[k].0) != name,
    ensures
        h_get(hs, name) == Some(hs[i].1),
    decreases hs.len(),
{
    if i > 0 {
        assert(hs.first().0 != name);
        assert(hs.drop_first()[i - 1] == hs[i]);
        assert forall|k: int| 0 <= k < i - 1 implies (#[trigger] hs.drop_first()[k].0)
            != name by {
            assert(hs.drop_first()[k] == hs[k + 1]);
        }
        lemma_h_get_at(hs.drop_first(), name, i - 1);
    }
}

pub proof fn lemma_h_get_none(hs: Seq<(Seq<char>, Seq<char>)>, name: Seq<char>)
    requires
        forall|k: int| 0 <= k < hs.len() ==> (#[trigger] hs[k].0) != name,
    ensures
        h_get(hs, name) == None::<Seq<char>>,
    decreases hs.len(),
{
    if hs.len() > 0 {
        assert forall|k: int| 0 <= k < hs.len() - 1 implies (#[trigger] hs.drop_first()[k].0)
            != name by {
            assert(hs.drop_first()[k] == hs[k + 1]);
        }
        lemma_h_get_none(hs.drop_first(), name);
    }
}

pub proof fn lemma_h_set_at(
    hs: Seq<(Seq<char>, Seq<char>)>,
    name: Seq<char>,
    value: Seq<char>,
    i: int,
)
    requires
        0 <= i < hs.len(),
        hs[i].0 == name,
        forall|k: int| 0 <= k < i ==> (#[trigger] hs[k].0) != name,
    ensures
        h_set(hs, name, value) == hs.update(i, (name, value)),
    decreases hs.len(),
{
    if i == 0 {
        assert(h_set(hs, name, value) == seq![(name, value)] + hs.drop_first());
        assert(seq![(name, value)] + hs.drop_first() =~= hs.update(0, (name, value)));
    } else {
        assert(hs.first().0 != name);
        assert(hs.drop_first()[i - 1] == hs[i]);
        assert forall|k: int| 0 <= k < i - 1 implies (#[trigger] hs.drop_first()[k].0)
            != name by {
            assert(hs.drop_first()[k] == hs[k + 1]);
        }
        lemma_h_set_at(hs.drop_first(), name, value, i - 1);
        assert(h_set(hs, name, value) == seq![hs.first()] + hs.drop_first().update(
            i - 1,
            (name, value),
        ));
        assert(seq![hs.first()] + hs.drop_first().update(i - 1, (name, value)) =~= hs.update(
            i,
            (name, value),
        ));
    }
}

pub proof fn lemma_h_set_missing(
    hs: Seq<(Seq<char>, Seq<char>)>,
    name: Seq<char>,
    value: Seq<char>,
)
    requires
        forall|k: int| 0 <= k < hs.len() ==> (#[trigger] hs[k].0) != name,
    ensures
        h_set(hs, name, value) == hs.push((name, value)),
    decreases hs.len(),
{
    if hs.len() == 0 {
        assert(h_set(hs, name, value) =~= hs.push((name, value)));
    } else {
        assert forall|k: int| 0 <= k < hs.len() - 1 implies (#[trigger] hs.drop_first()[k].0)
            != name by {
            assert(hs.drop_first()[k] == hs[k + 1]);
        }
        lemma_h_set_missing(hs.drop_first(), name, value);
        assert(seq![hs.first()] + hs.drop_first().push((name, value)) =~= hs.push(
            (name, value),
        ));
    }
}

impl Headers {
    pub fn new() -> (r: Headers)
        ensures
            r@ == Seq::<(Seq<char>, Seq<char>)>::empty(),
            wf_headers(r@),
    {
        let r = Headers { pairs: Vec::new() };
        proof {
            assert(r@ =~= Seq::<(Seq<char>, Seq<char>)>::empty());
        }
        r
    }

    pub fn len(&self) -> (r: usize)
        ensures
            r == self@.len(),
    {
        self.pairs.len()
    }

    /// The pair at a position, for iteration.
    pub fn pair(&self, i: usize) -> (r: (&String, &String))
        requires
            i < self@.len(),
        ensures
            r.0@ == self@[i as int].0,
            r.1@ == self@[i as int].1,
    {
        let p = &self.pairs[i];
        (&p.0, &p.1)
    }

    fn position(&self, lname: &str) -> (r: Option<usize>)
        ensures
            match r {
                Some(i) => i < self@.len() && self@[i as int].0 == lname@ && forall|k: int|
                    0 <= k < i ==> (#[trigger] self@[k].0) != lname@,
                None => forall|k: int| 0 <= k < self@.len() ==> (#[trigger] self@[k].0)
                    != lname@,
            },
    {
        let n = self.pairs.len();
        let mut i: usize = 0;
        while i < n
            invariant
                i <= n,
                n == self@.len(),
                forall|k: int| 0 <= k < i ==> (#[trigger] self@[k].0) != lname@,
            decreases n - i,
        {
            if crate::sanitize::str_eq(self.pairs[i].0.as_str(), lname) {
                return Some(i);
            }
            i = i + 1;
        }
        None
    }

    /// Insert a header, replacing any existing value under the same
    /// (case-folded) name.
    pub fn insert(&mut self, name: &str, value: &str)
        ensures
            final(self)@ == h_set(old(self)@, lower_chars(name@), value@),
            wf_headers(old(self)@) ==> wf_headers(final(self)@),
            h_get(final(self)@, lower_chars(name@)) == Some(value@),
    {
        let lname = ascii_lower(name);
        let ghost ln = lower_chars(name@);
        proof {
            lemma_lower_idem(name@);
        }
        match self.position(lname.as_str()) {
            Some(i) => {
                proof {
                    lemma_h_set_at(self@, ln, value@, i as int);
                }
                self.pairs.set(i, (lname, String::from_str(value)));
                proof {
                    assert(self@ =~= h_set(old(self)@, ln, value@));
                    lemma_h_get_at(self@, ln, i as int);
                }
            },
            None => {
                proof {
                    lemma_h_set_missing(self@, ln, value@);
                }
                self.pairs.push((lname, String::from_str(value)));
                proof {
                    assert(self@ =~= h_set(old(self)@, ln, value@));
                    lemma_h_get_at(self@, ln, self@.len() - 1);
                }
            },
        }
    }

    /// Insert only when the name is absent, as a default.
    pub fn or_insert(&mut self, name: &str, value: &str)
        ensures
            final(self)@ == (if h_contains(old(self)@, lower_chars(name@)) {
                old(self)@
            } else {
                old(self)@.push((lower_chars(name@), value@))
            }),
            wf_headers(old(self)@) ==> wf_headers(final(self)@),
            h_contains(final(self)@, lower_chars(name@)),
    {
        let lname = ascii_lower(name);
        let ghost ln = lower_chars(name@);
        proof {
            lemma_lower_idem(name@);
        }
        match self.position(lname.as_str()) {
            Some(i) => {
                proof {
                    lemma_h_get_at(self@, ln, i as int);
                }
            },
            None => {
                proof {
                    lemma_h_get_none(self@, ln);
                }
                self.pairs.push((lname, String::from_str(value)));
                proof {
                    assert(self@ =~= old(self)@.push((ln, value@)));
                    lemma_h_get_at(self@, ln, self@.len() - 1);
                }
            },
        }
    }

    /// The value under a (case-folded) name.
    pub fn get(&self, name: &str) -> (r: Option<&String>)
        ensures
            match r {
                Some(v) => h_get(self@, lower_chars(name@)) == Some(v@),
                None => h_get(self@, lower_chars(name@)) is None,
            },
    {
        let lname = ascii_lower(name);
        match self.position(lname.as_str()) {
            Some(i) => {
                proof {
                    lemma_h_get_at(self@, lower_chars(name@), i as int);
                }
                Some(&self.pairs[i].1)
            },
            None => {
                proof {
                    lemma_h_get_none(self@, lower_chars(name@));
                }
                None
            },
        }
    }

    /// Append a pair with the name folded, without the uniqueness upkeep:
    /// used when reading a recorded document back.
    pub(crate) fn append_lowered(&mut self, name: &str, value: &str)
        ensures
            final(self)@ == old(self)@.push((lower_chars(name@), value@)),
    {
        let lname = ascii_lower(name);
        self.pairs.push((lname, String::from_str(value)));
        proof {
            assert(self@ =~= old(self)@.push((lower_chars(name@), value@)));
        }
    }

    pub fn contains(&self, name: &str) -> (r: bool)
        ensures
            r == h_contains(self@, lower_chars(name@)),
    {
        match self.get(name) {
            Some(_) => true,
            None => false,
        }
    }
}

impl Clone for Headers {
    fn clone(&self) -> (r: Self)
        ensures
            r@ == self@,
    {
        let n = self.pairs.len();
        let mut out: Vec<(String, String)> = Vec::new();
        let mut i: usize = 0;
        while i < n
            invariant
                i <= n,
                n == self.pairs@.len(),
                out@.len() == i,
                forall|k: int| 0 <= k < i ==> (#[trigger] out@[k].0@, out@[k].1@)
                    == (self.pairs@[k].0@, self.pairs@[k].1@),
            decreases n - i,
        {
            let p = &self.pairs[i];
            out.push((p.0.clone(), p.1.clone()));
            i = i + 1;
        }
        let r = Headers { pairs: out };
        proof {
            assert(r@ =~= self@);
        }
        r
    }
}

/// The sanitized form of a header list: values under sensitive names are
/// replaced by the token, others kept.
pub open spec fn sanitize_headers_spec(
    hs: Seq<(Seq<char>, Seq<char>)>,
) -> Seq<(Seq<char>, Seq<char>)> {
    hs.map_values(
        |p: (Seq<char>, Seq<char>)|
            if is_sensitive(encode_utf8(p.0)) {
                (p.0, token_chars())
            } else {
                p
            },
    )
}

/// Replace every sensitive header value by the ten-asterisk token.
pub fn sanitize_headers(h: &mut Headers)
    ensures
        final(h)@ == sanitize_headers_spec(old(h)@),
{
    let n = h.pairs.len();
    let mut out: Vec<(String, String)> = Vec::new();
    let mut i: usize = 0;
    while i < n
        invariant
            i <= n,
            n == h.pairs@.len(),
            out@.len() == i,
            forall|k: int| 0 <= k < i ==> (#[trigger] out@[k].0@) == h.pairs@[k].0@,
            forall|k: int| 0 <= k < i ==> (#[trigger] out@[k].1@)
                == (if is_sensitive(encode_utf8(h.pairs@[k].0@)) {
                    token_chars()
                } else {
                    h.pairs@[k].1@
                }),
        decreases n - i,
    {
        let p = &h.pairs[i];
        if should_sanitize(p.0.as_str()) {
            out.push((p.0.clone(), String::from_str("**********")));
        } else {
            out.push((p.0.clone(), p.1.clone()));
        }
        i = i + 1;
    }
    let ghost old_view = h@;
    *h = Headers { pairs: out };
    proof {
        assert(h@ =~= sanitize_headers_spec(old_view));
    }
}


/// Lexicographic order on character sequences, by code point.
pub open spec fn lex_le(a: Seq<char>, b: Seq<char>) -> bool
    decreases a.len(),
{
    if a.len() == 0 {
        true
    } else if b.len() == 0 {
        false
    } else if a[0] == b[0] {
        lex_le(a.drop_first(), b.drop_first())
    } else {
        a[0] < b[0]
    }
}

/// Comparison is unchanged by dropping a common prefix.
pub proof fn lemma_lex_skip(a: Seq<char>, b: Seq<char>, i: int)
    requires
        0 <= i <= a.len(),
        i <= b.len(),
        forall|k: int| 0 <= k < i ==> a[k] == b[k],
    ensures
        lex_le(a, b) == lex_le(a.skip(i), b.skip(i)),
    decreases i,
{
    if i == 0 {
        assert(a.skip(0) =~= a);
        assert(b.skip(0) =~= b);
    } else {
        assert(a[0] == b[0]);
        if a.len() > 0 && b.len() > 0 {
            assert forall|k: int| 0 <= k < i - 1 implies a.drop_first()[k]
                == b.drop_first()[k] by {
                assert(a.drop_first()[k] == a[k + 1]);
                assert(b.drop_first()[k] == b[k + 1]);
            }
            lemma_lex_skip(a.drop_first(), b.drop_first(), i - 1);
            assert(a.drop_first().skip(i - 1) =~= a.skip(i));
            assert(b.drop_first().skip(i - 1) =~= b.skip(i));
        }
    }
}

/// Decide the lexicographic order of two strings.
pub fn str_lex_le(a: &str, b: &str) -> (r: bool)
    ensures
        r == lex_le(a@, b@),
{
    let al = a.unicode_len();
    let bl = b.unicode_len();
    let min = if al < bl {
        al
    } else {
        bl
    };
    let mut i: usize = 0;
    while i < min
        invariant
            i <= min,
            min <= al == a@.len(),
            min <= bl == b@.len(),
            forall|k: int| 0 <= k < i ==> a@[k] == b@[k],
        decreases min - i,
    {
        let ca = a.get_char(i);
        let cb = b.get_char(i);
        if ca != cb {
            proof {
                lemma_lex_skip(a@, b@, i as int);
                assert(a@.skip(i as int)[0] == a@[i as int]);
                assert(b@.skip(i as int)[0] == b@[i as int]);
            }
            return ca < cb;
        }
        i = i + 1;
    }
    proof {
        lemma_lex_skip(a@, b@, min as int);
        if al <= bl {
            assert(a@.skip(min as int).len() == 0);
        } else {
            assert(b@.skip(min as int).len() == 0);
            assert(a@.skip(min as int).len() > 0);
        }
    }
    al <= bl
}

/// A pair inserted into a name-sorted list, before the first name it is not
/// greater than.
pub open spec fn insert_pair(
    p: (Seq<char>, Seq<char>),
    s: Seq<(Seq<char>, Seq<char>)>,
) -> Seq<(Seq<char>, Seq<char>)>
    decreases s.len(),
{
    if s.len() == 0 {
        seq![p]
    } else if lex_le(p.0, s.first().0) {
        seq![p] + s
    } else {
        seq![s.first()] + insert_pair(p, s.drop_first())
    }
}

/// Header pairs sorted by name.
pub open spec fn sort_pairs(s: Seq<(Seq<char>, Seq<char>)>) -> Seq<(Seq<char>, Seq<char>)>
    decreases s.len(),
{
    if s.len() == 0 {
        s
    } else {
        insert_pair(s.first(), sort_pairs(s.drop_first()))
    }
}

pub proof fn lemma_insert_pair_at(
    p: (Seq<char>, Seq<char>),
    s: Seq<(Seq<char>, Seq<char>)>,
    j: int,
)
    requires
        0 <= j <= s.len(),
        forall|k: int| 0 <= k < j ==> !lex_le(p.0, (#[trigger] s[k]).0),
        j < s.len() ==> lex_le(p.0, s[j].0),
    ensures
        insert_pair(p, s) == s.take(j) + seq![p] + s.skip(j),
    decreases s.len(),
{
    if s.len() == 0 {
        assert(insert_pair(p, s) =~= s.take(j) + seq![p] + s.skip(j));
    } else if j == 0 {
        assert(insert_pair(p, s) =~= s.take(0) + seq![p] + s.skip(0));
    } else {
        assert(!lex_le(p.0, s[0].0));
        assert forall|k: int| 0 <= k < j - 1 implies !lex_le(
            p.0,
            (#[trigger] s.drop_first()[k]).0,
        ) by {
            assert(s.drop_first()[k] == s[k + 1]);
        }
        if j - 1 < s.drop_first().len() {
            assert(s.drop_first()[j - 1] == s[j]);
        }
        lemma_insert_pair_at(p, s.drop_first(), j - 1);
        assert(seq![s.first()] + (s.drop_first().take(j - 1) + seq![p] + s.drop_first().skip(
            j - 1,
        )) =~= s.take(j) + seq![p] + s.skip(j));
    }
}

/// The order is total: of two names, one is not after the other.
pub proof fn lemma_lex_total(a: Seq<char>, b: Seq<char>)
    ensures
        lex_le(a, b) || lex_le(b, a),
    decreases a.len(),
{
    if a.len() > 0 && b.len() > 0 && a[0] == b[0] {
        lemma_lex_total(a.drop_first(), b.drop_first());
    }
}

/// The order is transitive.
pub proof fn lemma_lex_trans(a: Seq<char>, b: Seq<char>, c: Seq<char>)
    requires
        lex_le(a, b),
        lex_le(b, c),
    ensures
        lex_le(a, c),
    decreases a.len(),
{
    if a.len() > 0 && b.len() > 0 && c.len() > 0 && a[0] == b[0] && b[0] == c[0] {
        lemma_lex_trans(a.drop_first(), b.drop_first(), c.drop_first());
    }
}

/// Pairs in name order.
pub open spec fn pairs_sorted(s: Seq<(Seq<char>, Seq<char>)>) -> bool {
    forall|i: int, j: int| 0 <= i < j < s.len() ==> lex_le(
        (#[trigger] s[i]).0,
        (#[trigger] s[j]).0,
    )
}

proof fn lemma_insert_pair_sorted(p: (Seq<char>, Seq<char>), s: Seq<(Seq<char>, Seq<char>)>)
    requires
        pairs_sorted(s),
    ensures
        pairs_sorted(insert_pair(p, s)),
        insert_pair(p, s).len() == s.len() + 1,
        forall|k: int| 0 <= k < insert_pair(p, s).len() ==> #[trigger] insert_pair(p, s)[k]
            == p || s.contains(insert_pair(p, s)[k]),
    decreases s.len(),
{
    let r = insert_pair(p, s);
    if s.len() == 0 {
        assert(r =~= seq![p]);
    } else if lex_le(p.0, s.first().0) {
        assert(r == seq![p] + s);
        assert forall|i: int, j: int| 0 <= i < j < r.len() implies lex_le(
            (#[trigger] r[i]).0,
            (#[trigger] r[j]).0,
        ) by {
            if i == 0 {
                assert(r[j] == s[j - 1]);
                if j > 1 {
                    assert(s[0] == s.first());
                    lemma_lex_trans(p.0, s[0].0, s[j - 1].0);
                }
            } else {
                assert(r[i] == s[i - 1]);
                assert(r[j] == s[j - 1]);
            }
        }
        assert forall|k: int| 0 <= k < r.len() implies #[trigger] r[k] == p || s.contains(
            r[k],
        ) by {
            if k > 0 {
                assert(r[k] == s[k - 1]);
            }
        }
    } else {
        lemma_lex_total(p.0, s.first().0);
        assert(lex_le(s.first().0, p.0));
        let tail = s.drop_first();
        assert forall|i: int, j: int| 0 <= i < j < tail.len() implies lex_le(
            (#[trigger] tail[i]).0,
            (#[trigger] tail[j]).0,
        ) by {
            assert(tail[i] == s[i + 1]);
            assert(tail[j] == s[j + 1]);
        }
        lemma_insert_pair_sorted(p, tail);
        let rt = insert_pair(p, tail);
        assert(r == seq![s.first()] + rt);
        assert forall|i: int, j: int| 0 <= i < j < r.len() implies lex_le(
            (#[trigger] r[i]).0,
            (#[trigger] r[j]).0,
        ) by {
            if i == 0 {
                assert(r[j] == rt[j - 1]);
                if rt[j - 1] == p {
                    assert(lex_le(s.first().0, p.0));
                } else {
                    assert(tail.contains(rt[j - 1]));
                    let w = choose|w: int| 0 <= w < tail.len() && tail[w] == rt[j - 1];
                    assert(tail[w] == s[w + 1]);
                    assert(s[0] == s.first());
                    assert(lex_le(s[0].0, s[w + 1].0));
                }
            } else {
                assert(r[i] == rt[i - 1]);
                assert(r[j] == rt[j - 1]);
            }
        }
        assert forall|k: int| 0 <= k < r.len() implies #[trigger] r[k] == p || s.contains(
            r[k],
        ) by {
            if k == 0 {
                assert(s[0] == s.first());
                assert(s.contains(s[0]));
            } else {
                assert(r[k] == rt[k - 1]);
                if rt[k - 1] != p {
                    assert(tail.contains(rt[k - 1]));
                    let w = choose|w: int| 0 <= w < tail.len() && tail[w] == rt[k - 1];
                    assert(tail[w] == s[w + 1]);
                    assert(s.contains(s[w + 1]));
                }
            }
        }
    }
}

/// The recorded header member really is sorted: any earlier name in
/// `sort_pairs` is not after any later one.
pub proof fn lemma_sort_pairs_sorted(s: Seq<(Seq<char>, Seq<char>)>)
    ensures
        pairs_sorted(sort_pairs(s)),
        sort_pairs(s).len() == s.len(),
    decreases s.len(),
{
    if s.len() > 0 {
        lemma_sort_pairs_sorted(s.drop_first());
        lemma_insert_pair_sorted(s.first(), sort_pairs(s.drop_first()));
    }
}

/// The serializable, name-sorted form of a header list.
#[derive(Debug)]
pub struct SortedHeaders {
    pub pairs: Vec<(String, String)>,
}

impl Headers {
    /// The headers sorted lexicographically by name, for stable
    /// serialization.
    pub fn to_sorted(&self) -> (r: SortedHeaders)
        ensures
            r.pairs@.map_values(|p: (String, String)| (p.0@, p.1@)) == sort_pairs(self@),
    {
        let n = self.pairs.len();
        let mut out: Vec<(String, String)> = Vec::new();
        let mut i: usize = n;
        while i > 0
            invariant
                i <= n,
                n == self.pairs@.len(),
                n == self@.len(),
                out@.map_values(|p: (String, String)| (p.0@, p.1@)) == sort_pairs(
                    self@.skip(i as int),
                ),
            decreases i,
        {
            i = i - 1;
            let p = &self.pairs[i];
            let ghost pv = (p.0@, p.1@);
            let ghost pre = out@.map_values(|q: (String, String)| (q.0@, q.1@));
            let m = out.len();
            let mut j: usize = 0;
            while j < m
                invariant
                    j <= m,
                    m == out@.len(),
                    pre == out@.map_values(|q: (String, String)| (q.0@, q.1@)),
                    pre.len() == m,
                    forall|k: int| 0 <= k < j ==> !lex_le(pv.0, (#[trigger] pre[k]).0),
                decreases m - j,
            {
                if str_lex_le(p.0.as_str(), out[j].0.as_str()) {
                    break;
                }
                j = j + 1;
            }
            proof {
                lemma_insert_pair_at(pv, pre, j as int);
            }
            out.insert(j, (p.0.clone(), p.1.clone()));
            proof {
                assert(self@[i as int] == pv);
                assert(self@.skip(i as int).first() == self@[i as int]);
                assert(self@.skip(i as int).drop_first() =~= self@.skip(i as int + 1));
                assert(out@.map_values(|q: (String, String)| (q.0@, q.1@)) =~= pre.take(
                    j as int,
                ) + seq![pv] + pre.skip(j as int));
                assert(out@.map_values(|q: (String, String)| (q.0@, q.1@)) == sort_pairs(
                    self@.skip(i as int),
                ));
            }
        }
        proof {
            assert(self@.skip(0) =~= self@);
        }
        SortedHeaders { pairs: out }
    }
}


/// Bytes read as characters, for ASCII data.
pub open spec fn bytes_as_chars(b: Seq<u8>) -> Seq<char> {
    b.map_values(|x: u8| x as char)
}

/// ASCII bytes are valid UTF-8 and decode to themselves.
pub proof fn lemma_ascii_bytes(b: Seq<u8>)
    requires
        forall|i: int| 0 <= i < b.len() ==> #[trigger] b[i] < 128,
    ensures
        vstd::utf8::valid_utf8(b),
        vstd::utf8::decode_utf8(b) == bytes_as_chars(b),
{
    broadcast use vstd::utf8::is_ascii_chars_encode_utf8;
    broadcast use vstd::utf8::encode_utf8_valid_utf8;
    broadcast use vstd::utf8::encode_utf8_decode_utf8;

    let chars = bytes_as_chars(b);
    assert forall|i: int| 0 <= i < chars.len() implies '\0' <= #[trigger] chars[i]
        <= '\u{7f}' by {
        assert(chars[i] == b[i] as char);
    }
    assert(vstd::utf8::is_ascii_chars(chars));
    assert forall|i: int| 0 <= i < chars.len() implies #[trigger] vstd::utf8::encode_utf8(
        chars,
    )[i] == b[i] by {
        assert(chars[i] as u8 == vstd::utf8::encode_utf8(chars)[i]);
        assert(chars[i] == b[i] as char);
    }
    assert(vstd::utf8::encode_utf8(chars) =~= b);
}

/// Build a string from ASCII bytes.
pub fn ascii_string(b: Vec<u8>) -> (r: String)
    requires
        forall|i: int| 0 <= i < b@.len() ==> #[trigger] b@[i] < 128,
    ensures
        r@ == bytes_as_chars(b@),
{
    proof {
        lemma_ascii_bytes(b@);
    }
    match crate::body::utf8_decode(b) {
        Ok(s) => s,
        Err(_) => {
            proof {
                assert(false);
            }
            String::new()
        },
    }
}

pub open spec fn hex_upper(n: u8) -> u8 {
    if n < 10 {
        (48 + n) as u8
    } else {
        (55 + n) as u8
    }
}

/// Unreserved bytes pass through percent-encoding: letters, digits, and
/// `-`, `.`, `_`, `~`.
pub open spec fn pe_unreserved(b: u8) -> bool {
    (48 <= b <= 57) || (65 <= b <= 90) || (97 <= b <= 122) || b == 45 || b == 46 || b == 95
        || b == 126
}

pub open spec fn pe_byte(b: u8) -> Seq<u8> {
    if pe_unreserved(b) {
        seq![b]
    } else {
        seq![37u8, hex_upper(b / 16), hex_upper(b % 16)]
    }
}

pub open spec fn pe_bytes(s: Seq<u8>) -> Seq<u8>
    decreases s.len(),
{
    if s.len() == 0 {
        Seq::empty()
    } else {
        pe_bytes(s.drop_last()) + pe_byte(s.last())
    }
}

/// Percent-encoding of text: each UTF-8 byte that is not unreserved becomes
/// `%` and two uppercase hex digits.
pub open spec fn pe_chars(s: Seq<char>) -> Seq<char> {
    bytes_as_chars(pe_bytes(encode_utf8(s)))
}

proof fn lemma_pe_bytes_ascii(s: Seq<u8>)
    ensures
        forall|i: int| 0 <= i < pe_bytes(s).len() ==> #[trigger] pe_bytes(s)[i] < 128,
    decreases s.len(),
{
    if s.len() > 0 {
        lemma_pe_bytes_ascii(s.drop_last());
        let pre = pe_bytes(s.drop_last());
        let tail = pe_byte(s.last());
        assert(pe_bytes(s) == pre + tail);
        assert forall|i: int| 0 <= i < pe_bytes(s).len() implies #[trigger] pe_bytes(s)[i]
            < 128 by {
            if i < pre.len() {
                assert(pe_bytes(s)[i] == pre[i]);
            } else {
                assert(pe_bytes(s)[i] == tail[i - pre.len()]);
            }
        }
    }
}

/// Percent-encode a string for use in a query.
pub fn percent_encode(s: &str) -> (r: String)
    ensures
        r@ == pe_chars(s@),
{
    let sb = s.as_bytes();
    let n = sb.len();
    let mut out: Vec<u8> = Vec::new();
    let mut i: usize = 0;
    while i < n
        invariant
            i <= n,
            n == sb@.len(),
            out@ == pe_bytes(sb@.take(i as int)),
        decreases n - i,
    {
        let b = sb[i];
        let unreserved = (48 <= b && b <= 57) || (65 <= b && b <= 90) || (97 <= b && b <= 122)
            || b == 45 || b == 46 || b == 95 || b == 126;
        if unreserved {
            out.push(b);
        } else {
            out.push(37);
            let hi = b / 16;
            let lo = b % 16;
            out.push(if hi < 10 { 48 + hi } else { 55 + hi });
            out.push(if lo < 10 { 48 + lo } else { 55 + lo });
        }
        proof {
            assert(sb@.take(i as int + 1).drop_last() =~= sb@.take(i as int));
            assert(sb@.take(i as int + 1).last() == sb@[i as int]);
            assert(out@ =~= pe_bytes(sb@.take(i as int + 1)));
        }
        i = i + 1;
    }
    proof {
        assert(sb@.take(n as int) =~= sb@);
        lemma_pe_bytes_ascii(sb@);
    }
    ascii_string(out)
}

pub open spec fn dec_chars(n: nat) -> Seq<char>
    decreases n,
{
    if n < 10 {
        crate::recorder::digit_chars(n as int)
    } else {
        dec_chars(n / 10) + crate::recorder::digit_chars((n % 10) as int)
    }
}

/// A number in decimal, as text.
pub fn dec_string(n: u64) -> (r: String)
    ensures
        r@ == dec_chars(n as nat),
    decreases n,
{
    if n < 10 {
        String::from_str(crate::recorder::digit_str((n % 10) as usize))
    } else {
        let mut s = dec_string(n / 10);
        s.append(crate::recorder::digit_str((n % 10) as usize));
        s
    }
}


/// Folding twice equals folding once.
pub proof fn lemma_lower_idem(s: Seq<char>)
    ensures
        lower_chars(lower_chars(s)) == lower_chars(s),
{
    broadcast use vstd::utf8::char_u32_cast;

    assert forall|i: int| 0 <= i < s.len() implies lower_char(
        #[trigger] lower_chars(s)[i],
    ) == lower_chars(s)[i] by {
        let c = s[i];
        assert(lower_chars(s)[i] == lower_char(c));
        if 'A' <= c && c <= 'Z' {
            let u = c as u32;
            assert(65 <= u <= 90);
            let d = ((c as u8) + 32) as char;
            assert(d as u32 == u + 32);
            assert(!('A' <= d && d <= 'Z'));
        }
    }
    assert(lower_chars(lower_chars(s)) =~= lower_chars(s));
}

/// Lookup after appending a pair: an existing name still wins; the new pair
/// answers only a name that was absent.
pub proof fn lemma_h_get_push(
    hs: Seq<(Seq<char>, Seq<char>)>,
    p: (Seq<char>, Seq<char>),
    name: Seq<char>,
)
    ensures
        h_get(hs.push(p), name) == (match h_get(hs, name) {
            Some(v) => Some(v),
            None => if p.0 == name {
                Some(p.1)
            } else {
                None
            },
        }),
    decreases hs.len(),
{
    if hs.len() == 0 {
        assert(hs.push(p).first() == p);
        assert(hs.push(p).drop_first() =~= Seq::<(Seq<char>, Seq<char>)>::empty());
    } else {
        assert(hs.push(p).first() == hs.first());
        assert(hs.push(p).drop_first() =~= hs.drop_first().push(p));
        lemma_h_get_push(hs.drop_first(), p, name);
    }
}

} // verus!
