use vstd::prelude::*;
use vstd::utf8::encode_utf8;
use crate::body::{body_wire_bytes, BodyV, InMemoryBody};
use crate::http::{h_get, lower_chars, Headers};
use crate::request::InMemoryRequest;
use crate::middleware::{all_digits, dec_value};
use crate::response::{InMemoryResponse, RespV};
use crate::uri::{scan, substr};

verus! {

/// One random 64-bit draw.
/// Relies on `rand::random`: nothing is promised of the value.
#[verifier::external_body]
fn random_u64() -> u64 {
    rand::random::<u64>()
}

pub open spec fn hex_digit_char(n: int) -> char {
    if n < 10 {
        (48 + n) as u8 as char
    } else {
        (87 + n) as u8 as char
    }
}

/// A number as exactly `k` lowercase hex digits, most significant first.
pub open spec fn hex_fixed(n: int, k: int) -> Seq<char>
    decreases k,
{
    if k <= 0 {
        Seq::empty()
    } else {
        hex_fixed(n / 16, k - 1) + seq![hex_digit_char(n % 16)]
    }
}

fn hex16(n: u64) -> (r: Vec<u8>)
    ensures
        r@.len() == 16,
        bytes_as_chars_local(r@) == hex_fixed(n as int, 16),
        forall|i: int| 0 <= i < r@.len() ==> is_hex_byte(#[trigger] r@[i]),
{
    let mut out: Vec<u8> = Vec::new();
    let mut k: usize = 16;
    let mut m: u64 = n;
    while k > 0
        invariant
            k <= 16,
            out@.len() == 16 - k,
            forall|i: int| 0 <= i < out@.len() ==> is_hex_byte(#[trigger] out@[i]),
            hex_fixed(n as int, 16) == hex_fixed(m as int, k as int) + bytes_as_chars_local(
                out@,
            ),
        decreases k,
    {
        let d = (m % 16) as u8;
        let c: u8 = if d < 10 {
            48 + d
        } else {
            87 + d
        };
        let ghost out0 = out@;
        // digits come out least significant first, so push at the front
        out.insert(0, c);
        m = m / 16;
        k = k - 1;
        proof {
            assert(out@ =~= seq![c].add(out0));
            assert(bytes_as_chars_local(out@) =~= seq![hex_digit_char((m as int * 16 + d) % 16)]
                + bytes_as_chars_local(out0));
            assert(hex_fixed(m as int * 16 + d, (k + 1) as int) == hex_fixed(m as int, k as int)
                + seq![hex_digit_char((m as int * 16 + d) % 16)]);
            assert(hex_fixed(m as int, k as int) + (seq![
                hex_digit_char((m as int * 16 + d) % 16),
            ] + bytes_as_chars_local(out0)) =~= (hex_fixed(m as int, k as int) + seq![
                hex_digit_char((m as int * 16 + d) % 16),
            ]) + bytes_as_chars_local(out0));
        }
    }
    proof {
        assert(hex_fixed(m as int, 0) =~= Seq::<char>::empty());
        assert(Seq::<char>::empty() + bytes_as_chars_local(out@) =~= bytes_as_chars_local(
            out@,
        ));
    }
    out
}

pub open spec fn bytes_as_chars_local(b: Seq<u8>) -> Seq<char> {
    crate::http::bytes_as_chars(b)
}

/// A lowercase hex digit byte: `0`-`9` or `a`-`f`.
pub open spec fn is_hex_byte(b: u8) -> bool {
    (48 <= b <= 57) || (97 <= b <= 102)
}

pub open spec fn is_hex_char(c: char) -> bool {
    ('0' <= c && c <= '9') || ('a' <= c && c <= 'f')
}

/// The shape of a generated boundary: sixty-seven characters, four groups of
/// sixteen lowercase hex digits separated by dashes.
pub open spec fn boundary_shape(s: Seq<char>) -> bool {
    &&& s.len() == 67
    &&& s[16] == '-' && s[33] == '-' && s[50] == '-'
    &&& forall|i: int| 0 <= i < 67 && i != 16 && i != 33 && i != 50 ==> is_hex_char(
        #[trigger] s[i],
    )
}

/// A fresh random boundary.
pub fn gen_boundary() -> (r: String)
    ensures
        boundary_shape(r@),
{
    let mut out: Vec<u8> = Vec::new();
    let mut parts: usize = 0;
    while parts < 4
        invariant
            parts <= 4,
            out@.len() == (if parts == 0 {
                0int
            } else {
                17 * parts - 1
            }),
            forall|i: int| 0 <= i < out@.len() ==> #[trigger] out@[i] < 128,
            forall|i: int| 0 <= i < out@.len() && i != 16 && i != 33 && i != 50 ==> is_hex_byte(
                #[trigger] out@[i],
            ),
            parts >= 2 ==> out@[16] == 45,
            parts >= 3 ==> out@[33] == 45,
            parts >= 4 ==> out@[50] == 45,
        decreases 4 - parts,
    {
        if parts > 0 {
            out.push(45);
        }
        let mut h = hex16(random_u64());
        out.append(&mut h);
        parts = parts + 1;
    }
    let r = crate::http::ascii_string(out);
    proof {
        assert(r@.len() == 67);
        assert(r@[16] == 45u8 as char);
        assert(r@[33] == 45u8 as char);
        assert(r@[50] == 45u8 as char);
        assert(45u8 as char == '-');
        assert forall|i: int| 0 <= i < 67 && i != 16 && i != 33 && i != 50 implies is_hex_char(
            #[trigger] r@[i],
        ) by {
            assert(r@[i] == out@[i] as u8 as char);
            assert(is_hex_byte(out@[i]));
        }
    }
    r
}

/// Bytes of a header block: one `Name: Value` line per header, each ended by
/// CRLF, then the empty line.
pub open spec fn headers_block(hs: Seq<(Seq<char>, Seq<char>)>) -> Seq<u8>
    decreases hs.len(),
{
    if hs.len() == 0 {
        seq![13u8, 10u8]
    } else {
        encode_utf8(hs.first().0) + seq![58u8, 32u8] + encode_utf8(hs.first().1) + seq![
            13u8,
            10u8,
        ] + headers_block(hs.drop_first())
    }
}

/// Write a header block.
pub fn write_headers(buf: &mut Vec<u8>, headers: &Headers)
    ensures
        final(buf)@ == old(buf)@ + headers_block(headers@),
{
    let n = headers.len();
    let mut i: usize = 0;
    proof {
        assert(headers@.skip(0) =~= headers@);
    }
    while i < n
        invariant
            i <= n,
            n == headers@.len(),
            old(buf)@ + headers_block(headers@) == buf@ + headers_block(
                headers@.skip(i as int),
            ),
        decreases n - i,
    {
        let (name, value) = headers.pair(i);
        let ghost pre = buf@;
        buf.append(&mut name.as_str().as_bytes_vec());
        buf.push(58);
        buf.push(32);
        buf.append(&mut value.as_str().as_bytes_vec());
        buf.push(13);
        buf.push(10);
        proof {
            let hv = headers@;
            assert(hv.skip(i as int).first() == hv[i as int]);
            assert(hv.skip(i as int).drop_first() =~= hv.skip(i as int + 1));
            assert(buf@ =~= pre + (encode_utf8(hv[i as int].0) + seq![58u8, 32u8]
                + encode_utf8(hv[i as int].1) + seq![13u8, 10u8]));
            assert(pre + (encode_utf8(hv[i as int].0) + seq![58u8, 32u8] + encode_utf8(
                hv[i as int].1,
            ) + seq![13u8, 10u8]) + headers_block(hv.skip(i as int + 1)) =~= pre
                + headers_block(hv.skip(i as int)));
        }
        i = i + 1;
    }
    buf.push(13);
    buf.push(10);
    proof {
        assert(headers@.skip(n as int).len() == 0);
        assert(buf@ =~= old(buf)@ + headers_block(headers@));
    }
}

/// `--<boundary>` and CRLF.
pub open spec fn boundary_line(b: Seq<char>) -> Seq<u8> {
    seq![45u8, 45u8] + encode_utf8(b) + seq![13u8, 10u8]
}

pub fn write_boundary(buf: &mut Vec<u8>, boundary: &str)
    ensures
        final(buf)@ == old(buf)@ + boundary_line(boundary@),
{
    buf.push(45);
    buf.push(45);
    buf.append(&mut boundary.as_bytes_vec());
    buf.push(13);
    buf.push(10);
    proof {
        assert(buf@ =~= old(buf)@ + boundary_line(boundary@));
    }
}

/// `--<boundary>--` and CRLF.
pub open spec fn terminate_line(b: Seq<char>) -> Seq<u8> {
    seq![45u8, 45u8] + encode_utf8(b) + seq![45u8, 45u8, 13u8, 10u8]
}

pub fn write_terminate(buf: &mut Vec<u8>, boundary: &str)
    ensures
        final(buf)@ == old(buf)@ + terminate_line(boundary@),
{
    buf.push(45);
    buf.push(45);
    buf.append(&mut boundary.as_bytes_vec());
    buf.push(45);
    buf.push(45);
    buf.push(13);
    buf.push(10);
    proof {
        assert(buf@ =~= old(buf)@ + terminate_line(boundary@));
    }
}

/// What a part's payload writes into a multipart body.
pub trait WriteBytes: Sized {
    spec fn wire(&self) -> Seq<u8>;

    fn write(self, buf: &mut Vec<u8>)
        ensures
            final(buf)@ == old(buf)@ + self.wire(),
    ;
}

impl WriteBytes for InMemoryBody {
    open spec fn wire(&self) -> Seq<u8> {
        body_wire_bytes(self@)
    }

    fn write(self, buf: &mut Vec<u8>) {
        let mut b = self.bytes();
        buf.append(&mut b);
    }
}

impl WriteBytes for Vec<u8> {
    open spec fn wire(&self) -> Seq<u8> {
        self@
    }

    fn write(self, buf: &mut Vec<u8>) {
        let mut b = self;
        buf.append(&mut b);
    }
}

/// A request written into a batch part: `METHOD path`, then the body after a
/// blank line when there is one.
pub open spec fn request_wire(r: crate::request::ReqV) -> Seq<u8> {
    encode_utf8(crate::http::method_chars(r.method)) + seq![32u8] + encode_utf8(r.uri.path) + (
    if crate::body::body_is_empty(r.body) {
        Seq::empty()
    } else {
        seq![13u8, 10u8] + body_wire_bytes(r.body)
    })
}

impl WriteBytes for InMemoryRequest {
    open spec fn wire(&self) -> Seq<u8> {
        request_wire(self@)
    }

    fn write(self, buf: &mut Vec<u8>) {
        buf.append(&mut self.method.as_str().as_bytes_vec());
        buf.push(32);
        buf.append(&mut self.uri.path.as_str().as_bytes_vec());
        if !self.body.is_empty() {
            buf.push(13);
            buf.push(10);
        }
        let mut b = self.body.bytes();
        buf.append(&mut b);
        proof {
            assert(buf@ =~= old(buf)@ + request_wire(self@));
        }
    }
}

/// One part of a multipart form: its headers and its payload.
#[derive(Debug)]
pub struct Part<B> {
    pub headers: Headers,
    pub body: B,
}

impl<B: WriteBytes> Part<B> {
    pub fn new(headers: Headers, body: B) -> (r: Part<B>)
        ensures
            r.headers@ == headers@,
            r.body == body,
    {
        Part { headers, body }
    }

    /// Set the `Content-ID` header.
    pub fn content_id(self, id: &str) -> (r: Part<B>)
        ensures
            r.headers@ == crate::http::h_set(self.headers@, lower_chars("Content-ID"@), id@),
            r.body == self.body,
    {
        let mut headers = self.headers;
        headers.insert("Content-ID", id);
        Part { headers, body: self.body }
    }

    /// A header's value, as text.
    pub fn header_str(&self, name: &str) -> (r: Option<&String>)
        ensures
            match r {
                Some(v) => h_get(self.headers@, lower_chars(name@)) == Some(v@),
                None => h_get(self.headers@, lower_chars(name@)) is None,
            },
    {
        self.headers.get(name)
    }

    /// Set a header.
    pub fn header(self, name: &str, value: &str) -> (r: Part<B>)
        ensures
            r.headers@ == crate::http::h_set(self.headers@, lower_chars(name@), value@),
            r.body == self.body,
    {
        let mut headers = self.headers;
        headers.insert(name, value);
        Part { headers, body: self.body }
    }
}

impl Part<InMemoryRequest> {
    /// A batch part holding a request, typed `application/http`.
    pub fn request(body: InMemoryRequest) -> (r: Part<InMemoryRequest>)
        ensures
            r.headers@ == Seq::<(Seq<char>, Seq<char>)>::empty().push(
                (lower_chars("content-type"@), "application/http"@),
            ),
            r.body == body,
    {
        let mut headers = Headers::new();
        headers.or_insert("content-type", "application/http");
        proof {
            assert(headers@ =~= Seq::<(Seq<char>, Seq<char>)>::empty().push(
                (lower_chars("content-type"@), "application/http"@),
            ));
        }
        Part { headers, body }
    }
}

impl Part<InMemoryBody> {
    /// A `text/plain` part.
    pub fn text(body: String) -> (r: Part<InMemoryBody>)
        ensures
            r.headers@ == Seq::<(Seq<char>, Seq<char>)>::empty().push(
                (lower_chars("content-type"@), "text/plain"@),
            ),
            r.body@ == BodyV::Text(body@),
    {
        let mut headers = Headers::new();
        headers.or_insert("content-type", "text/plain");
        proof {
            assert(headers@ =~= Seq::<(Seq<char>, Seq<char>)>::empty().push(
                (lower_chars("content-type"@), "text/plain"@),
            ));
        }
        Part { headers, body: InMemoryBody::Text(body) }
    }

    /// A `text/html` part.
    pub fn html(body: String) -> (r: Part<InMemoryBody>)
        ensures
            r.headers@ == Seq::<(Seq<char>, Seq<char>)>::empty().push(
                (lower_chars("content-type"@), "text/html"@),
            ),
            r.body@ == BodyV::Text(body@),
    {
        let mut headers = Headers::new();
        headers.or_insert("content-type", "text/html");
        proof {
            assert(headers@ =~= Seq::<(Seq<char>, Seq<char>)>::empty().push(
                (lower_chars("content-type"@), "text/html"@),
            ));
        }
        Part { headers, body: InMemoryBody::Text(body) }
    }
}

impl Part<InMemoryBody> {
    /// A part holding a whole nested form: typed with the form's full
    /// content type, its payload the form's serialization (as text when that
    /// is valid UTF-8, else as bytes).
    pub fn form(form: Form<InMemoryBody>) -> (r: Part<InMemoryBody>)
        ensures
            r.headers@ == Seq::<(Seq<char>, Seq<char>)>::empty().push(
                (
                    crate::http::lower_chars("content-type"@),
                    form.content_type@ + "; boundary="@ + form.boundary@,
                ),
            ),
            ({
                let enc = form_chunks(form.boundary@, form.parts@) + terminate_line(
                    form.boundary@,
                );
                r.body@ == (if vstd::utf8::valid_utf8(enc) {
                    BodyV::Text(vstd::utf8::decode_utf8(enc))
                } else {
                    BodyV::Bytes(enc)
                })
            }),
    {
        let ct = form.full_content_type();
        let mut headers = Headers::new();
        headers.insert("content-type", ct.as_str());
        proof {
            assert(headers@ =~= Seq::<(Seq<char>, Seq<char>)>::empty().push(
                (crate::http::lower_chars("content-type"@), ct@),
            ));
        }
        let bytes = form.to_bytes();
        let body = match crate::body::utf8_decode(bytes) {
            Ok(t) => InMemoryBody::Text(t),
            Err(raw) => InMemoryBody::Bytes(raw),
        };
        Part { headers, body }
    }
}

/// The bytes of one part: the boundary line, the header block, then the
/// payload followed by CRLF when the payload is not empty.
pub open spec fn part_chunk<B: WriteBytes>(b: Seq<char>, p: Part<B>) -> Seq<u8> {
    boundary_line(b) + headers_block(p.headers@) + (if p.body.wire().len() == 0 {
        Seq::empty()
    } else {
        p.body.wire() + seq![13u8, 10u8]
    })
}

pub open spec fn form_chunks<B: WriteBytes>(b: Seq<char>, parts: Seq<Part<B>>) -> Seq<u8>
    decreases parts.len(),
{
    if parts.len() == 0 {
        Seq::empty()
    } else {
        form_chunks(b, parts.drop_last()) + part_chunk(b, parts.last())
    }
}

/// A multipart form: its boundary, its content type without the boundary
/// parameter, and its parts.
#[derive(Debug)]
pub struct Form<B> {
    pub boundary: String,
    pub content_type: String,
    pub parts: Vec<Part<B>>,
}

impl<B: WriteBytes> Form<B> {
    /// A form of the given kind with a fresh random boundary.
    pub fn new(content_type: String) -> (r: Form<B>)
        ensures
            r.content_type@ == content_type@,
            boundary_shape(r.boundary@),
            r.parts@ == Seq::<Part<B>>::empty(),
    {
        let r = Form { boundary: gen_boundary(), content_type, parts: Vec::new() };
        proof {
            assert(r.parts@ =~= Seq::<Part<B>>::empty());
        }
        r
    }

    pub fn mixed() -> (r: Form<B>)
        ensures
            r.content_type@ == "multipart/mixed"@,
            boundary_shape(r.boundary@),
            r.parts@ == Seq::<Part<B>>::empty(),
    {
        Form::new(String::from_str("multipart/mixed"))
    }

    pub fn alternative() -> (r: Form<B>)
        ensures
            r.content_type@ == "multipart/alternative"@,
            boundary_shape(r.boundary@),
            r.parts@ == Seq::<Part<B>>::empty(),
    {
        Form::new(String::from_str("multipart/alternative"))
    }

    pub fn form_data() -> (r: Form<B>)
        ensures
            r.content_type@ == "multipart/form-data"@,
            boundary_shape(r.boundary@),
            r.parts@ == Seq::<Part<B>>::empty(),
    {
        Form::new(String::from_str("multipart/form-data"))
    }

    /// The content type together with its boundary parameter.
    pub fn full_content_type(&self) -> (r: String)
        ensures
            r@ == self.content_type@ + "; boundary="@ + self.boundary@,
    {
        let mut out = self.content_type.clone();
        out.append("; boundary=");
        out.append(self.boundary.as_str());
        out
    }

    /// Replace the content type.
    pub fn content_type(self, content_type: String) -> (r: Form<B>)
        ensures
            r.content_type@ == content_type@,
            r.boundary@ == self.boundary@,
            r.parts@ == self.parts@,
    {
        Form { content_type, ..self }
    }

    /// Replace the boundary.
    pub fn boundary(self, boundary: String) -> (r: Form<B>)
        ensures
            r.boundary@ == boundary@,
            r.content_type@ == self.content_type@,
            r.parts@ == self.parts@,
    {
        Form { boundary, ..self }
    }

    /// Append a part, by value.
    pub fn part(self, part: Part<B>) -> (r: Form<B>)
        ensures
            r.parts@ == self.parts@.push(part),
            r.boundary@ == self.boundary@,
            r.content_type@ == self.content_type@,
    {
        let mut f = self;
        f.parts.push(part);
        f
    }

    /// Append a part, in place.
    pub fn push(&mut self, part: Part<B>)
        ensures
            final(self).parts@ == old(self).parts@.push(part),
            final(self).boundary@ == old(self).boundary@,
            final(self).content_type@ == old(self).content_type@,
    {
        self.parts.push(part);
    }

    /// The serialized form: each part between boundary lines, closed by the
    /// terminating boundary.
    pub fn to_bytes(self) -> (r: Vec<u8>)
        ensures
            r@ == form_chunks(self.boundary@, self.parts@) + terminate_line(self.boundary@),
    {
        let Form { boundary, content_type: _, parts } = self;
        let ghost all = parts@;
        let mut buf: Vec<u8> = Vec::new();
        let mut parts = parts;
        let n = parts.len();
        let mut i: usize = 0;
        while i < n
            invariant
                i <= n,
                n == all.len(),
                parts@ == all.skip(i as int),
                buf@ == form_chunks(boundary@, all.take(i as int)),
            decreases n - i,
        {
            let part = parts.remove(0);
            proof {
                assert(all.skip(i as int)[0] == all[i as int]);
                assert(parts@ =~= all.skip(i as int + 1));
            }
            write_boundary(&mut buf, boundary.as_str());
            write_headers(&mut buf, &part.headers);
            let before = buf.len();
            part.body.write(&mut buf);
            if buf.len() > before {
                buf.push(13);
                buf.push(10);
            }
            proof {
                assert(all.take(i as int + 1).drop_last() =~= all.take(i as int));
                assert(all.take(i as int + 1).last() == all[i as int]);
                assert(buf@ =~= form_chunks(boundary@, all.take(i as int + 1)));
            }
            i = i + 1;
        }
        proof {
            assert(all.take(n as int) =~= all);
        }
        write_terminate(&mut buf, boundary.as_str());
        buf
    }
}

/// An adjacent pair `a`,`b` stands at position `i`.
pub open spec fn pair_at(s: Seq<char>, i: int, a: char, b: char) -> bool {
    0 <= i && i + 1 < s.len() && s[i] == a && s[i + 1] == b
}

/// Position of the first adjacent pair `a`,`b` in `s`.
pub open spec fn find_pair(s: Seq<char>, a: char, b: char) -> Option<int>
    decreases s.len(),
{
    if s.len() < 2 {
        None
    } else if s[0] == a && s[1] == b {
        Some(0)
    } else {
        match find_pair(s.drop_first(), a, b) {
            Some(i) => Some(i + 1),
            None => None,
        }
    }
}

pub proof fn lemma_find_pair(s: Seq<char>, a: char, b: char)
    ensures
        match find_pair(s, a, b) {
            Some(i) => pair_at(s, i, a, b) && forall|k: int| 0 <= k < i ==> !pair_at(s, k, a, b),
            None => forall|k: int| !pair_at(s, k, a, b),
        },
    decreases s.len(),
{
    if s.len() >= 2 && !(s[0] == a && s[1] == b) {
        lemma_find_pair(s.drop_first(), a, b);
        match find_pair(s.drop_first(), a, b) {
            Some(i) => {
                assert(s.drop_first()[i] == s[i + 1]);
                assert(s.drop_first()[i + 1] == s[i + 2]);
                assert forall|k: int| 0 <= k < i + 1 implies !pair_at(s, k, a, b) by {
                    if k > 0 {
                        assert(s.drop_first()[k - 1] == s[k]);
                        assert(s.drop_first()[k] == s[k + 1]);
                        assert(!pair_at(s.drop_first(), k - 1, a, b));
                    }
                }
            },
            None => {
                assert forall|k: int| !pair_at(s, k, a, b) by {
                    if k > 0 && k + 1 < s.len() {
                        assert(s.drop_first()[k - 1] == s[k]);
                        assert(s.drop_first()[k] == s[k + 1]);
                        assert(!pair_at(s.drop_first(), k - 1, a, b));
                    }
                }
            },
        }
    }
}

/// The first pair position determines `find_pair`.
pub proof fn lemma_find_pair_is(s: Seq<char>, a: char, b: char, i: int)
    requires
        pair_at(s, i, a, b),
        forall|k: int| 0 <= k < i ==> !pair_at(s, k, a, b),
    ensures
        find_pair(s, a, b) == Some(i),
{
    lemma_find_pair(s, a, b);
    match find_pair(s, a, b) {
        Some(j) => {
            if j < i {
                assert(!pair_at(s, j, a, b));
            } else if j > i {
                assert(!pair_at(s, i, a, b));
            }
        },
        None => {
            assert(!pair_at(s, i, a, b));
        },
    }
}

pub proof fn lemma_find_pair_none(s: Seq<char>, a: char, b: char)
    requires
        forall|k: int| !pair_at(s, k, a, b),
    ensures
        find_pair(s, a, b) == None::<int>,
{
    lemma_find_pair(s, a, b);
    match find_pair(s, a, b) {
        Some(j) => {
            assert(!pair_at(s, j, a, b));
        },
        None => {},
    }
}

/// The parse of a part's header block: each leading line of the form
/// `Name: Value` (ended by CRLF, the name before the first `": "`) is taken
/// as a header with the name case-folded; the first line that is not a
/// header — the blank separator included — starts the rest.
pub open spec fn parse_headers_spec(
    acc: Seq<(Seq<char>, Seq<char>)>,
    text: Seq<char>,
) -> (Seq<(Seq<char>, Seq<char>)>, Seq<char>)
    decreases text.len(),
{
    match find_pair(text, '\r', '\n') {
        None => (acc, text),
        Some(le) => {
            if 0 <= le && le + 2 <= text.len() {
                let line = text.take(le);
                match find_pair(line, ':', ' ') {
                    None => (acc, text),
                    Some(co) => {
                        let acc2 = crate::http::h_set(
                            acc,
                            lower_chars(line.take(co)),
                            line.skip(co + 2),
                        );
                        let rest = text.skip(le + 2);
                        if rest.len() == 0 {
                            (acc2, rest)
                        } else {
                            parse_headers_spec(acc2, rest)
                        }
                    },
                }
            } else {
                (acc, text)
            }
        },
    }
}

/// Split a part's text into its header lines and the rest, exactly as
/// `parse_headers_spec` describes.
#[verifier::rlimit(100)]
pub fn parse_headers(text: &str) -> (r: Option<(Headers, String)>)
    ensures
        r matches Some(p) && ({
            let (hs, rest) = parse_headers_spec(Seq::empty(), text@);
            p.0@ == hs && p.1@ == rest
        }),
{
    let mut headers = Headers::new();
    let n = text.unicode_len();
    let mut pos: usize = 0;
    proof {
        assert(text@.skip(0) =~= text@);
    }
    loop
        invariant
            pos <= n,
            n == text@.len(),
            parse_headers_spec(Seq::empty(), text@) == parse_headers_spec(
                headers@,
                text@.skip(pos as int),
            ),
        decreases n - pos,
    {
        let ghost rest = text@.skip(pos as int);
        // find the next CRLF
        let mut j: usize = pos;
        let mut line_end: Option<usize> = None;
        while j < n
            invariant
                pos <= j <= n,
                n == text@.len(),
                line_end is None,
                forall|k: int| pos <= k < j ==> !((#[trigger] text@[k]) == '\r' && k + 1 < n
                    && text@[k + 1] == '\n'),
            decreases n - j,
        {
            if text.get_char(j) == '\r' && j + 1 < n && text.get_char(j + 1) == '\n' {
                line_end = Some(j);
                break ;
            }
            j = j + 1;
        }
        let le = match line_end {
            Some(le) => le,
            None => {
                proof {
                    assert forall|k: int| !pair_at(rest, k, '\r', '\n') by {
                        if 0 <= k && k + 1 < rest.len() {
                            assert(rest[k] == text@[k + pos]);
                            assert(rest[k + 1] == text@[k + pos + 1]);
                        }
                    }
                    lemma_find_pair_none(rest, '\r', '\n');
                }
                return Some((headers, substr(text, pos, n)));
            },
        };
        proof {
            assert(rest[le - pos] == text@[le as int]);
            assert(rest[le - pos + 1] == text@[le as int + 1]);
            assert forall|k: int| 0 <= k < le - pos implies !pair_at(rest, k, '\r', '\n') by {
                assert(rest[k] == text@[k + pos]);
                assert(rest[k + 1] == text@[k + pos + 1]);
            }
            lemma_find_pair_is(rest, '\r', '\n', le - pos as int);
        }
        let ghost line = rest.take(le - pos as int);
        // find ": " inside the line
        let mut c: usize = pos;
        let mut colon: Option<usize> = None;
        while c < le
            invariant
                pos <= c <= le < n,
                n == text@.len(),
                colon is None,
                forall|k: int| pos <= k < c ==> !((#[trigger] text@[k]) == ':' && k + 1 < le
                    && text@[k + 1] == ' '),
            decreases le - c,
        {
            if text.get_char(c) == ':' && c + 1 < le && text.get_char(c + 1) == ' ' {
                colon = Some(c);
                break ;
            }
            c = c + 1;
        }
        let co = match colon {
            Some(co) => co,
            None => {
                proof {
                    assert forall|k: int| !pair_at(line, k, ':', ' ') by {
                        if 0 <= k && k + 1 < line.len() {
                            assert(line[k] == text@[k + pos]);
                            assert(line[k + 1] == text@[k + pos + 1]);
                        }
                    }
                    lemma_find_pair_none(line, ':', ' ');
                }
                return Some((headers, substr(text, pos, n)));
            },
        };
        proof {
            assert(line[co - pos] == text@[co as int]);
            assert(line[co - pos + 1] == text@[co as int + 1]);
            assert forall|k: int| 0 <= k < co - pos implies !pair_at(line, k, ':', ' ') by {
                assert(line[k] == text@[k + pos]);
                assert(line[k + 1] == text@[k + pos + 1]);
            }
            lemma_find_pair_is(line, ':', ' ', co - pos as int);
        }
        let name = substr(text, pos, co);
        let value = substr(text, co + 2, le);
        proof {
            assert(name@ =~= line.take(co - pos as int));
            assert(value@ =~= line.skip(co - pos as int + 2));
        }
        let ghost acc_pre = headers@;
        headers.insert(name.as_str(), value.as_str());
        proof {
            assert(rest.skip(le - pos as int + 2) =~= text@.skip(le as int + 2));
            assert(parse_headers_spec(acc_pre, rest) == (if text@.skip(le as int + 2).len()
                == 0 {
                (headers@, text@.skip(le as int + 2))
            } else {
                parse_headers_spec(headers@, text@.skip(le as int + 2))
            }));
        }
        pos = le + 2;
        if n - pos == 0 {
            let empty_rest = String::new();
            proof {
                assert(text@.skip(pos as int).len() == 0);
                assert(empty_rest@ =~= text@.skip(pos as int));
            }
            return Some((headers, empty_rest));
        }
    }
}

/// The character form of a header block: one `Name: Value` line per
/// header, each ended by CRLF, then the blank line. `headers_block` writes
/// exactly these characters as UTF-8.
pub open spec fn header_lines(hs: Seq<(Seq<char>, Seq<char>)>) -> Seq<char>
    decreases hs.len(),
{
    if hs.len() == 0 {
        seq!['\r', '\n']
    } else {
        hs.first().0 + seq![':', ' '] + hs.first().1 + seq!['\r', '\n'] + header_lines(
            hs.drop_first(),
        )
    }
}

/// Headers that survive the line format: no carriage return in names or
/// values, no colon in names.
pub open spec fn headers_encodable(hs: Seq<(Seq<char>, Seq<char>)>) -> bool {
    &&& (forall|i: int, q: int| 0 <= i < hs.len() && 0 <= q < hs[i].0.len() ==> (
    #[trigger] hs[i].0[q]) != '\r' && hs[i].0[q] != ':')
    &&& (forall|i: int, q: int| 0 <= i < hs.len() && 0 <= q < hs[i].1.len() ==> (
    #[trigger] hs[i].1[q]) != '\r')
}

proof fn lemma_parse_headers_inverts_gen(
    acc: Seq<(Seq<char>, Seq<char>)>,
    hs: Seq<(Seq<char>, Seq<char>)>,
    payload: Seq<char>,
)
    requires
        headers_encodable(hs),
        crate::http::wf_headers(acc + hs),
    ensures
        parse_headers_spec(acc, header_lines(hs) + payload) == (
            acc + hs,
            seq!['\r', '\n'] + payload,
        ),
    decreases hs.len(),
{
    let text = header_lines(hs) + payload;
    if hs.len() == 0 {
        assert(text =~= seq!['\r', '\n'] + payload);
        assert(pair_at(text, 0, '\r', '\n'));
        lemma_find_pair_is(text, '\r', '\n', 0);
        assert(text.take(0) =~= Seq::<char>::empty());
        lemma_find_pair_none(text.take(0), ':', ' ');
        assert(acc + hs =~= acc);
    } else {
        let n0 = hs.first().0;
        let v0 = hs.first().1;
        let line = n0 + seq![':', ' '] + v0;
        let ll = line.len() as int;
        let tail = header_lines(hs.drop_first()) + payload;
        assert(text =~= line + seq!['\r', '\n'] + tail);
        assert(text[ll] == '\r');
        assert(text[ll + 1] == '\n');
        assert forall|k: int| 0 <= k < ll implies !pair_at(text, k, '\r', '\n') by {
            assert(text[k] == line[k]);
            if k < n0.len() {
                assert(line[k] == n0[k]);
                assert(hs[0].0[k] != '\r');
            } else if k >= n0.len() + 2 {
                assert(line[k] == v0[k - n0.len() - 2]);
                assert(hs[0].1[k - n0.len() - 2] != '\r');
            }
        }
        lemma_find_pair_is(text, '\r', '\n', ll);
        assert(text.take(ll) =~= line);
        assert(pair_at(line, n0.len() as int, ':', ' '));
        assert forall|k: int| 0 <= k < n0.len() implies !pair_at(line, k, ':', ' ') by {
            assert(line[k] == n0[k]);
            assert(hs[0].0[k] != ':');
        }
        lemma_find_pair_is(line, ':', ' ', n0.len() as int);
        assert(line.take(n0.len() as int) =~= n0);
        assert(line.skip(n0.len() as int + 2) =~= v0);
        assert((acc + hs)[acc.len() as int] == hs[0]);
        assert(crate::http::lower_chars(n0) == n0);
        assert forall|k: int| 0 <= k < acc.len() implies (#[trigger] acc[k].0) != n0 by {
            assert((acc + hs)[k] == acc[k]);
        }
        crate::http::lemma_h_set_missing(acc, n0, v0);
        let acc2 = acc.push((n0, v0));
        assert(text.skip(ll + 2) =~= tail);
        assert(header_lines(hs.drop_first()).len() >= 2);
        assert(tail.len() > 0);
        assert forall|i: int, q: int| 0 <= i < hs.drop_first().len() && 0 <= q
            < hs.drop_first()[i].0.len() implies (#[trigger] hs.drop_first()[i].0[q]) != '\r'
            && hs.drop_first()[i].0[q] != ':' by {
            assert(hs.drop_first()[i] == hs[i + 1]);
        }
        assert forall|i: int, q: int| 0 <= i < hs.drop_first().len() && 0 <= q
            < hs.drop_first()[i].1.len() implies (#[trigger] hs.drop_first()[i].1[q])
            != '\r' by {
            assert(hs.drop_first()[i] == hs[i + 1]);
        }
        assert(acc2 + hs.drop_first() =~= acc + hs);
        lemma_parse_headers_inverts_gen(acc2, hs.drop_first(), payload);
        assert(parse_headers_spec(acc, text) == parse_headers_spec(acc2, tail));
    }
}

/// Decoding inverts the header encoder: parsing the characters that
/// `write_headers` spells for a well-formed header list, with anything
/// after the block, recovers the list and leaves the blank separator with
/// the payload.
pub proof fn lemma_parse_headers_inverts(hs: Seq<(Seq<char>, Seq<char>)>, payload: Seq<char>)
    requires
        headers_encodable(hs),
        crate::http::wf_headers(hs),
    ensures
        parse_headers_spec(Seq::empty(), header_lines(hs) + payload) == (
            hs,
            seq!['\r', '\n'] + payload,
        ),
{
    assert(Seq::<(Seq<char>, Seq<char>)>::empty() + hs =~= hs);
    lemma_parse_headers_inverts_gen(Seq::empty(), hs, payload);
}

/// The UTF-8 encoding distributes over concatenation.
proof fn lemma_encode_concat(a: Seq<char>, b: Seq<char>)
    ensures
        encode_utf8(a + b) == encode_utf8(a) + encode_utf8(b),
    decreases a.len(),
{
    if a.len() == 0 {
        assert(a + b =~= b);
        assert(encode_utf8(a) =~= Seq::<u8>::empty());
        assert(Seq::<u8>::empty() + encode_utf8(b) =~= encode_utf8(b));
    } else {
        assert((a + b)[0] == a[0]);
        assert((a + b).drop_first() =~= a.drop_first() + b);
        lemma_encode_concat(a.drop_first(), b);
        assert(vstd::utf8::encode_scalar(a[0] as u32) + (encode_utf8(a.drop_first())
            + encode_utf8(b)) =~= (vstd::utf8::encode_scalar(a[0] as u32) + encode_utf8(
            a.drop_first(),
        )) + encode_utf8(b));
    }
}

/// The bytes `write_headers` writes are the UTF-8 encoding of the header
/// block's character form.
pub proof fn lemma_headers_block_chars(hs: Seq<(Seq<char>, Seq<char>)>)
    ensures
        headers_block(hs) == encode_utf8(header_lines(hs)),
    decreases hs.len(),
{
    broadcast use vstd::utf8::is_ascii_chars_encode_utf8;

    assert(encode_utf8(seq!['\r', '\n']) =~= seq![13u8, 10u8]) by {
        assert(vstd::utf8::is_ascii_chars(seq!['\r', '\n']));
    }
    assert(encode_utf8(seq![':', ' ']) =~= seq![58u8, 32u8]) by {
        assert(vstd::utf8::is_ascii_chars(seq![':', ' ']));
    }
    if hs.len() == 0 {
    } else {
        lemma_headers_block_chars(hs.drop_first());
        lemma_encode_concat(hs.first().0, seq![':', ' ']);
        lemma_encode_concat(hs.first().0 + seq![':', ' '], hs.first().1);
        lemma_encode_concat(hs.first().0 + seq![':', ' '] + hs.first().1, seq!['\r', '\n']);
        lemma_encode_concat(
            hs.first().0 + seq![':', ' '] + hs.first().1 + seq!['\r', '\n'],
            header_lines(hs.drop_first()),
        );
        assert(headers_block(hs) =~= encode_utf8(header_lines(hs)));
    }
}

/// The pattern stands at position `i`.
pub open spec fn match_at(s: Seq<char>, i: int, pat: Seq<char>) -> bool {
    0 <= i && i + pat.len() <= s.len() && s.subrange(i, i + pat.len() as int) == pat
}

/// Position of the first occurrence of `pat` in `s`.
pub open spec fn find_sub_spec(s: Seq<char>, pat: Seq<char>) -> Option<int>
    decreases s.len(),
{
    if s.len() < pat.len() {
        None
    } else if s.take(pat.len() as int) == pat {
        Some(0)
    } else if s.len() == 0 {
        None
    } else {
        match find_sub_spec(s.drop_first(), pat) {
            Some(i) => Some(i + 1),
            None => None,
        }
    }
}

pub proof fn lemma_find_sub(s: Seq<char>, pat: Seq<char>)
    ensures
        match find_sub_spec(s, pat) {
            Some(i) => match_at(s, i, pat) && forall|k: int| 0 <= k < i ==> !match_at(s, k, pat),
            None => forall|k: int| !match_at(s, k, pat),
        },
    decreases s.len(),
{
    let m = pat.len() as int;
    if s.len() < pat.len() {
    } else if s.take(m) == pat {
        assert(s.subrange(0, m) =~= s.take(m));
    } else if s.len() == 0 {
        assert(s.take(m) =~= pat);
        assert(false);
    } else {
        assert(s.subrange(0, m) =~= s.take(m));
        lemma_find_sub(s.drop_first(), pat);
        match find_sub_spec(s.drop_first(), pat) {
            Some(i) => {
                assert(s.subrange(i + 1, i + 1 + m) =~= s.drop_first().subrange(i, i + m));
                assert forall|k: int| 0 <= k < i + 1 implies !match_at(s, k, pat) by {
                    if k > 0 {
                        assert(s.drop_first().subrange(k - 1, k - 1 + m) =~= s.subrange(
                            k,
                            k + m,
                        ));
                        assert(!match_at(s.drop_first(), k - 1, pat));
                    }
                }
            },
            None => {
                assert forall|k: int| !match_at(s, k, pat) by {
                    if k > 0 && k + m <= s.len() {
                        assert(s.drop_first().subrange(k - 1, k - 1 + m) =~= s.subrange(
                            k,
                            k + m,
                        ));
                        assert(!match_at(s.drop_first(), k - 1, pat));
                    }
                }
            },
        }
    }
}

/// The first occurrence determines `find_sub_spec`.
pub proof fn lemma_find_sub_is(s: Seq<char>, pat: Seq<char>, i: int)
    requires
        match_at(s, i, pat),
        forall|k: int| 0 <= k < i ==> !match_at(s, k, pat),
    ensures
        find_sub_spec(s, pat) == Some(i),
{
    lemma_find_sub(s, pat);
    match find_sub_spec(s, pat) {
        Some(j) => {
            if j < i {
                assert(!match_at(s, j, pat));
            } else if j > i {
                assert(!match_at(s, i, pat));
            }
        },
        None => {
            assert(!match_at(s, i, pat));
        },
    }
}

pub proof fn lemma_find_sub_none(s: Seq<char>, pat: Seq<char>)
    requires
        forall|k: int| !match_at(s, k, pat),
    ensures
        find_sub_spec(s, pat) == None::<int>,
{
    lemma_find_sub(s, pat);
    match find_sub_spec(s, pat) {
        Some(j) => {
            assert(!match_at(s, j, pat));
        },
        None => {},
    }
}

/// Whether `pat` stands at character position `i` of `s`.
fn match_here(s: &str, pat: &str, i: usize) -> (r: bool)
    requires
        i + pat@.len() <= s@.len(),
    ensures
        r == (s@.subrange(i as int, i as int + pat@.len() as int) == pat@),
{
    let n = s.unicode_len();
    let m = pat.unicode_len();
    let mut j: usize = 0;
    while j < m
        invariant
            j <= m,
            i + m <= n,
            n == s@.len(),
            m == pat@.len(),
            forall|q: int| 0 <= q < j ==> s@[i + q] == #[trigger] pat@[q],
        decreases m - j,
    {
        if !(s.get_char(i + j) == pat.get_char(j)) {
            proof {
                assert(s@.subrange(i as int, i as int + pat@.len() as int)[j as int]
                    == s@[i + j]);
            }
            return false;
        }
        j = j + 1;
    }
    proof {
        assert(s@.subrange(i as int, i as int + pat@.len() as int) =~= pat@);
    }
    true
}

/// First occurrence of `pat` in `s` at or after `from`, by character
/// position.
fn find_sub(s: &str, pat: &str, from: usize) -> (r: Option<usize>)
    requires
        from <= s@.len(),
    ensures
        match r {
            Some(i) => from <= i && i + pat@.len() <= s@.len() && find_sub_spec(
                s@.skip(from as int),
                pat@,
            ) == Some(i - from),
            None => find_sub_spec(s@.skip(from as int), pat@) is None,
        },
{
    let ghost rest = s@.skip(from as int);
    let n = s.unicode_len();
    let m = pat.unicode_len();
    if m > n {
        proof {
            assert forall|k: int| !match_at(rest, k, pat@) by {}
            lemma_find_sub_none(rest, pat@);
        }
        return None;
    }
    let last = n - m;
    if from > last {
        proof {
            assert forall|k: int| !match_at(rest, k, pat@) by {}
            lemma_find_sub_none(rest, pat@);
        }
        return None;
    }
    let mut i: usize = from;
    while i <= last
        invariant
            i <= last + 1,
            last == n - m,
            m == pat@.len(),
            n == s@.len(),
            m <= n,
            from <= i,
            rest == s@.skip(from as int),
            forall|k: int| 0 <= k < i - from ==> !match_at(rest, k, pat@),
        decreases last + 1 - i,
    {
        let hit = match_here(s, pat, i);
        proof {
            assert(rest.subrange(i - from, i - from + m as int) =~= s@.subrange(
                i as int,
                i as int + m as int,
            )) by {
                assert forall|q: int| 0 <= q < m implies #[trigger] rest.subrange(
                    i - from,
                    i - from + m as int,
                )[q] == s@.subrange(i as int, i as int + m as int)[q] by {
                    assert(rest[i - from + q] == s@[i + q]);
                }
            }
        }
        if hit {
            proof {
                lemma_find_sub_is(rest, pat@, i - from as int);
            }
            return Some(i);
        }
        if i == last {
            proof {
                assert forall|k: int| !match_at(rest, k, pat@) by {
                    if 0 <= k <= last - from {
                        assert(!match_at(rest, k, pat@));
                    }
                }
                lemma_find_sub_none(rest, pat@);
            }
            return None;
        }
        i = i + 1;
    }
    proof {
        assert forall|k: int| !match_at(rest, k, pat@) by {
            if 0 <= k <= last - from {
                assert(!match_at(rest, k, pat@));
            }
        }
        lemma_find_sub_none(rest, pat@);
    }
    None
}

/// The parse of a recorded sub-response: `<version> <status> <reason>` on
/// the first line — the status the three digits between the first two
/// spaces — then the header block, the remainder (the blank separator
/// included) the text body.
pub open spec fn parse_response_spec(text: Seq<char>) -> Option<RespV> {
    match find_pair(text, '\r', '\n') {
        None => None,
        Some(le) => match crate::uri::find_first(text, 7) {
            None => None,
            Some(sp1) => if sp1 < le {
                match crate::uri::find_first(text.skip(sp1 + 1), 7) {
                    None => None,
                    Some(d) => {
                        let sp2 = sp1 + 1 + d;
                        if sp2 < le {
                            let digits = text.subrange(sp1 + 1, sp2);
                            if digits.len() == 3 && all_digits(digits) && dec_value(digits)
                                >= 100 {
                                let (hs, rest) = parse_headers_spec(
                                    Seq::empty(),
                                    text.skip(le + 2),
                                );
                                Some(
                                    RespV {
                                        status: dec_value(digits) as u16,
                                        version: crate::http::Version::Http11,
                                        headers: hs,
                                        body: BodyV::Text(rest),
                                    },
                                )
                            } else {
                                None
                            }
                        } else {
                            None
                        }
                    },
                }
            } else {
                None
            },
        },
    }
}

/// Parse the text of a recorded sub-response, exactly as
/// `parse_response_spec` describes.
pub fn parse_response(text: &str) -> (r: Option<InMemoryResponse>)
    ensures
        match r {
            Some(res) => parse_response_spec(text@) == Some(res@) && 100 <= res@.status < 1000,
            None => parse_response_spec(text@) is None,
        },
{
    let n = text.unicode_len();
    // the status line runs to the first line break
    let mut j: usize = 0;
    let mut line_break: Option<usize> = None;
    while j < n
        invariant
            j <= n,
            n == text@.len(),
            line_break is None,
            forall|k: int| 0 <= k < j ==> !((#[trigger] text@[k]) == '\r' && k + 1 < n
                && text@[k + 1] == '\n'),
        decreases n - j,
    {
        if text.get_char(j) == '\r' && j + 1 < n && text.get_char(j + 1) == '\n' {
            line_break = Some(j);
            break ;
        }
        j = j + 1;
    }
    let line_end = match line_break {
        Some(le) => {
            proof {
                lemma_find_pair_is(text@, '\r', '\n', le as int);
            }
            le
        },
        None => {
            proof {
                lemma_find_pair_none(text@, '\r', '\n');
            }
            return None;
        },
    };
    let sp1 = match scan(text, 0, 7) {
        Some(i) => {
            proof {
                crate::uri::lemma_find_first_is(text@, 7, i as int);
            }
            i
        },
        None => {
            proof {
                crate::uri::lemma_find_first_none(text@, 7);
            }
            return None;
        },
    };
    if sp1 >= line_end {
        return None;
    }
    let ghost after1 = text@.skip(sp1 as int + 1);
    let sp2 = match scan(text, sp1 + 1, 7) {
        Some(i) => {
            proof {
                assert forall|k: int| 0 <= k < i - (sp1 as int + 1) implies
                    !crate::uri::char_in_mode(#[trigger] after1[k], 7) by {
                    assert(after1[k] == text@[k + sp1 + 1]);
                }
                assert(after1[i - (sp1 as int + 1)] == text@[i as int]);
                crate::uri::lemma_find_first_is(after1, 7, i - (sp1 as int + 1));
            }
            i
        },
        None => {
            proof {
                assert forall|k: int| 0 <= k < after1.len() implies !crate::uri::char_in_mode(
                    #[trigger] after1[k],
                    7,
                ) by {
                    assert(after1[k] == text@[k + sp1 + 1]);
                }
                crate::uri::lemma_find_first_none(after1, 7);
            }
            return None;
        },
    };
    if sp2 >= line_end {
        return None;
    }
    let status_text = substr(text, sp1 + 1, sp2);
    let st = status_text.as_str();
    let sl = st.unicode_len();
    proof {
        assert(st@ =~= text@.subrange(sp1 as int + 1, sp2 as int));
    }
    if sl != 3 {
        return None;
    }
    let mut status: u16 = 0;
    let mut k: usize = 0;
    while k < 3
        invariant
            k <= 3,
            sl == st@.len(),
            sl == 3,
            st@ == text@.subrange(sp1 as int + 1, sp2 as int),
            all_digits(st@.take(k as int)),
            status == dec_value(st@.take(k as int)),
            k == 0 ==> status == 0,
            k == 1 ==> status < 10,
            k == 2 ==> status < 100,
            k == 3 ==> status < 1000,
        decreases 3 - k,
    {
        let c = st.get_char(k);
        if !('0' <= c && c <= '9') {
            proof {
                assert(!all_digits(st@));
            }
            return None;
        }
        proof {
            assert(st@.take(k as int + 1).drop_last() =~= st@.take(k as int));
            assert(st@.take(k as int + 1).last() == st@[k as int]);
            assert forall|q: int| 0 <= q < k + 1 implies '0' <= #[trigger] st@.take(
                k as int + 1,
            )[q] <= '9' by {
                if q < k as int {
                    assert(st@.take(k as int)[q] == st@.take(k as int + 1)[q]);
                }
            }
        }
        status = status * 10 + ((c as u32) as u16 - 48);
        k = k + 1;
    }
    proof {
        assert(st@.take(3) =~= st@);
    }
    if status < 100 {
        return None;
    }
    let rest = substr(text, line_end + 2, n);
    proof {
        assert(rest@ =~= text@.skip(line_end as int + 2));
    }
    let (headers, body_text) = match parse_headers(rest.as_str()) {
        Some(p) => p,
        None => {
            return None;
        },
    };
    Some(
        InMemoryResponse {
            status,
            version: crate::http::Version::Http11,
            headers,
            body: InMemoryBody::Text(body_text),
        },
    )
}

/// The content type split at its first `; boundary=` parameter.
pub open spec fn split_content_type(ct: Seq<char>) -> Option<(Seq<char>, Seq<char>)> {
    match find_sub_spec(ct, "; boundary="@) {
        Some(i) => Some((ct.take(i), ct.skip(i + 11))),
        None => None,
    }
}

/// The sections between boundary markers from `pos` on, each part headers
/// and a recorded sub-response; a terminating `--` (or exhausted text) ends
/// the list.
pub open spec fn parse_parts_spec(ts: Seq<char>, marker: Seq<char>, pos: int) -> Option<
    Seq<(Seq<(Seq<char>, Seq<char>)>, RespV)>,
>
    decreases ts.len() - pos,
{
    if pos < 0 || pos > ts.len() {
        None
    } else if ts.len() - pos >= 4 && ts[pos] == '-' && ts[pos + 1] == '-' {
        Some(Seq::empty())
    } else if ts.len() - pos < 2 {
        Some(Seq::empty())
    } else {
        match find_sub_spec(ts.skip(pos + 2), marker) {
            None => None,
            Some(d) => {
                let seg_end = pos + 2 + d;
                let (hs, after) = parse_headers_spec(
                    Seq::empty(),
                    ts.subrange(pos + 2, seg_end),
                );
                if after.len() < 2 {
                    None
                } else {
                    match parse_response_spec(after.skip(2)) {
                        None => None,
                        Some(resp) => {
                            if seg_end + marker.len() <= pos || seg_end + marker.len()
                                > ts.len() {
                                None
                            } else {
                                match parse_parts_spec(ts, marker, seg_end + marker.len() as int) {
                                    None => None,
                                    Some(rest) => Some(seq![(hs, resp)] + rest),
                                }
                            }
                        },
                    }
                }
            },
        }
    }
}

/// The parse of a batch response: the boundary from the `content-type`
/// header's first `; boundary=` parameter, the body as text, and the part
/// list between `--<boundary>` markers.
pub open spec fn from_response_spec(r: RespV) -> Option<
    (Seq<char>, Seq<char>, Seq<(Seq<(Seq<char>, Seq<char>)>, RespV)>),
> {
    match h_get(r.headers, lower_chars("content-type"@)) {
        None => None,
        Some(ct) => match split_content_type(ct) {
            None => None,
            Some((ctype, b)) => match crate::body::body_text_spec(r.body) {
                None => None,
                Some(ts) => {
                    let marker = "--"@ + b;
                    match find_sub_spec(ts, marker) {
                        None => None,
                        Some(i) => match parse_parts_spec(ts, marker, i + marker.len() as int) {
                            None => None,
                            Some(parts) => Some((ctype, b, parts)),
                        },
                    }
                },
            },
        },
    }
}

impl Form<InMemoryResponse> {
    /// Read a batch response apart, exactly as `from_response_spec`
    /// describes: decoding recovers the content type, the boundary, and each
    /// encoded part's headers and sub-response.
    pub fn from_response(res: InMemoryResponse) -> (r: Option<Form<InMemoryResponse>>)
        ensures
            match r {
                Some(g) => from_response_spec(res@) == Some(
                    (
                        g.content_type@,
                        g.boundary@,
                        g.parts@.map_values(
                            |p: Part<InMemoryResponse>| (p.headers@, p.body@),
                        ),
                    ),
                ),
                None => from_response_spec(res@) is None,
            },
    {
        let ghost resv = res@;
        let ct = match res.headers.get("content-type") {
            Some(ct) => ct.clone(),
            None => {
                return None;
            },
        };
        let cts = ct.as_str();
        let ctn = cts.unicode_len();
        proof {
            reveal_strlit("; boundary=");
            assert(cts@.skip(0) =~= cts@);
        }
        let bsplit = match find_sub(cts, "; boundary=", 0) {
            Some(i) => i,
            None => {
                return None;
            },
        };
        let content_type = substr(cts, 0, bsplit);
        let boundary = substr(cts, bsplit + 11, ctn);
        proof {
            assert(content_type@ =~= ct@.take(bsplit as int));
            assert(boundary@ =~= ct@.skip(bsplit as int + 11));
        }
        let text = match res.body.into_text() {
            Ok(t) => t,
            Err(_) => {
                return None;
            },
        };
        let mut marker = String::from_str("--");
        marker.append(boundary.as_str());
        proof {
            reveal_strlit("--");
            assert(marker@ =~= "--"@ + boundary@);
        }
        let ts = text.as_str();
        let tn = ts.unicode_len();
        let mn = marker.as_str().unicode_len();
        let ghost tsv = ts@;
        let ghost mk = marker@;
        let mut parts: Vec<Part<InMemoryResponse>> = Vec::new();
        proof {
            assert(tsv.skip(0) =~= tsv);
        }
        let pos0 = match find_sub(ts, marker.as_str(), 0) {
            Some(i) => i + mn,
            None => {
                return None;
            },
        };
        let mut pos: usize = pos0;
        proof {
            match parse_parts_spec(tsv, mk, pos0 as int) {
                Some(rest) => {
                    assert(parts@.map_values(
                        |p: Part<InMemoryResponse>| (p.headers@, p.body@),
                    ) + rest =~= rest);
                },
                None => {},
            }
        }
        loop
            invariant
                pos0 <= pos <= tn,
                tn == tsv.len(),
                mn == mk.len(),
                match parse_parts_spec(tsv, mk, pos as int) {
                    Some(rest) => parse_parts_spec(tsv, mk, pos0 as int) == Some(
                        parts@.map_values(
                            |p: Part<InMemoryResponse>| (p.headers@, p.body@),
                        ) + rest,
                    ),
                    None => parse_parts_spec(tsv, mk, pos0 as int) is None,
                },
            decreases tn - pos,
        {
            let ghost partsv = parts@.map_values(
                |p: Part<InMemoryResponse>| (p.headers@, p.body@),
            );
            // a terminating marker (or exhausted text) ends the form
            let done = if tn - pos >= 4 {
                ts.get_char(pos) == '-' && ts.get_char(pos + 1) == '-'
            } else {
                false
            };
            if done || tn - pos < 2 {
                proof {
                    assert(parse_parts_spec(tsv, mk, pos as int) == Some(
                        Seq::<(Seq<(Seq<char>, Seq<char>)>, RespV)>::empty(),
                    ));
                    assert(partsv + Seq::<(Seq<(Seq<char>, Seq<char>)>, RespV)>::empty()
                        =~= partsv);
                }
                return Some(Form { boundary, content_type, parts });
            }
            let seg_start = pos + 2;
            let seg_end = match find_sub(ts, marker.as_str(), seg_start) {
                Some(e) => e,
                None => {
                    proof {
                        assert(tsv.skip(seg_start as int) =~= tsv.skip(pos as int + 2));
                    }
                    return None;
                },
            };
            proof {
                assert(tsv.skip(seg_start as int) =~= tsv.skip(pos as int + 2));
            }
            let segment = substr(ts, seg_start, seg_end);
            proof {
                assert(segment@ =~= tsv.subrange(pos as int + 2, seg_end as int));
            }
            let (headers, after) = match parse_headers(segment.as_str()) {
                Some(p) => p,
                None => {
                    return None;
                },
            };
            let afs = after.as_str();
            let afn = afs.unicode_len();
            if afn < 2 {
                return None;
            }
            let body_text = substr(afs, 2, afn);
            proof {
                assert(body_text@ =~= after@.skip(2));
            }
            let body = match parse_response(body_text.as_str()) {
                Some(b) => b,
                None => {
                    return None;
                },
            };
            let ghost hb = (headers@, body@);
            parts.push(Part { headers, body });
            proof {
                assert(parts@.map_values(
                    |p: Part<InMemoryResponse>| (p.headers@, p.body@),
                ) =~= partsv.push(hb));
            }
            if seg_end + mn <= pos {
                return None;
            }
            proof {
                match parse_parts_spec(tsv, mk, seg_end as int + mn) {
                    Some(rest2) => {
                        assert(parse_parts_spec(tsv, mk, pos as int) == Some(
                            seq![hb] + rest2,
                        ));
                        assert(partsv + (seq![hb] + rest2) =~= partsv.push(hb) + rest2);
                    },
                    None => {
                        assert(parse_parts_spec(tsv, mk, pos as int) is None);
                    },
                }
            }
            pos = seg_end + mn;
        }
    }
}

} // verus!
