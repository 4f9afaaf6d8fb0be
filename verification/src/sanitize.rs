use vstd::prelude::*;
use vstd::utf8::encode_utf8;
use crate::json::{JVal, JsonValue, jview_fields, jview_seq, lemma_jview_fields, lemma_jview_seq};

verus! {

/// The fixed token that replaces sensitive values: ten asterisks.
pub open spec fn token_chars() -> Seq<char> {
    "**********"@
}

/// ASCII lowercase folding of one byte.
pub open spec fn lower_byte(b: u8) -> u8 {
    if 65 <= b <= 90 {
        (b + 32) as u8
    } else {
        b
    }
}

pub open spec fn lower_bytes(s: Seq<u8>) -> Seq<u8> {
    s.map_values(|b: u8| lower_byte(b))
}

/// The word `w` occurs in `l` at position `i`, delimited on both sides by the
/// start or end of the key or by `-` or `_`.
pub open spec fn word_at(l: Seq<u8>, i: int, w: Seq<u8>) -> bool {
    &&& 0 <= i
    &&& i + w.len() <= l.len()
    &&& l.subrange(i, i + w.len()) == w
    &&& (i == 0 || l[i - 1] == 45 || l[i - 1] == 95)
    &&& (i + w.len() == l.len() || l[i + w.len()] == 45 || l[i + w.len()] == 95)
}

pub open spec fn sensitive_words() -> Seq<Seq<u8>> {
    seq![
        encode_utf8("secret"@),
        encode_utf8("key"@),
        encode_utf8("pkey"@),
        encode_utf8("session"@),
        encode_utf8("password"@),
        encode_utf8("token"@),
    ]
}

pub open spec fn exact_names() -> Seq<Seq<u8>> {
    seq![
        encode_utf8("authorization"@),
        encode_utf8("cookie"@),
        encode_utf8("password"@),
        encode_utf8("set-cookie"@),
    ]
}

/// A key (given as UTF-8 bytes) is sensitive when, after case folding, it is
/// one of the fixed names, or one of the sensitive words occurs in it
/// delimited by the start or end of the key or by `-` or `_`.
pub open spec fn is_sensitive(kb: Seq<u8>) -> bool {
    let l = lower_bytes(kb);
    ||| exists|j: int| 0 <= j < exact_names().len() && l == exact_names()[j]
    ||| exists|j: int, i: int| 0 <= j < sensitive_words().len()
        && #[trigger] word_at(l, i, sensitive_words()[j])
}

/// String equality at the character level.
pub fn str_eq(a: &str, b: &str) -> (r: bool)
    ensures
        r == (a@ == b@),
{
    let sa = String::from_str(a);
    let sb = String::from_str(b);
    sa.eq(&sb)
}

#[verifier::loop_isolation(false)]
fn slice_match(l: &Vec<u8>, i: usize, w: &[u8]) -> (r: bool)
    requires
        i + w@.len() <= l@.len(),
    ensures
        r == (l@.subrange(i as int, i as int + w@.len() as int) == w@),
{
    let ln = l.len();
    let n = w.len();
    let mut j: usize = 0;
    while j < n
        invariant
            j <= n,
            forall|k: int| 0 <= k < j ==> l@[i + k] == w@[k],
        decreases n - j,
    {
        if l[i + j] != w[j] {
            proof {
                assert(l@.subrange(i as int, i as int + w@.len() as int)[j as int] == l@[i + j]);
            }
            return false;
        }
        j = j + 1;
    }
    proof {
        assert(l@.subrange(i as int, i as int + w@.len() as int) =~= w@);
    }
    true
}

fn boundary_before(l: &Vec<u8>, i: usize) -> (r: bool)
    requires
        i <= l@.len(),
    ensures
        r == (i == 0 || l@[i as int - 1] == 45 || l@[i as int - 1] == 95),
{
    if i == 0 {
        true
    } else {
        let b = l[i - 1];
        b == 45 || b == 95
    }
}

fn boundary_after(l: &Vec<u8>, e: usize) -> (r: bool)
    requires
        e <= l@.len(),
    ensures
        r == (e == l@.len() || l@[e as int] == 45 || l@[e as int] == 95),
{
    if e == l.len() {
        true
    } else {
        let b = l[e];
        b == 45 || b == 95
    }
}

#[verifier::loop_isolation(false)]
fn find_word(l: &Vec<u8>, w: &[u8]) -> (r: bool)
    requires
        w@.len() >= 1,
    ensures
        r == exists|i: int| word_at(l@, i, w@),
{
    let wn = w.len();
    let ln = l.len();
    if ln < wn {
        proof {
            assert forall|i: int| !word_at(l@, i, w@) by {}
        }
        return false;
    }
    let last = ln - wn;
    let mut i: usize = 0;
    while i <= last
        invariant
            wn == w@.len(),
            ln == l@.len(),
            wn <= ln,
            last == ln - wn,
            i <= last + 1,
            forall|k: int| 0 <= k < i ==> !word_at(l@, k, w@),
        decreases last + 1 - i,
    {
        if boundary_before(l, i) && boundary_after(l, i + wn) && slice_match(l, i, w) {
            proof {
                assert(word_at(l@, i as int, w@));
            }
            return true;
        }
        proof {
            assert(!word_at(l@, i as int, w@));
        }
        i = i + 1;
    }
    proof {
        assert forall|k: int| !word_at(l@, k, w@) by {
            if 0 <= k <= last as int {
                assert(!word_at(l@, k, w@));
            }
        }
    }
    false
}

fn lower_vec(kb: &[u8]) -> (r: Vec<u8>)
    ensures
        r@ == lower_bytes(kb@),
{
    let n = kb.len();
    let mut out: Vec<u8> = Vec::new();
    let mut i: usize = 0;
    while i < n
        invariant
            n == kb@.len(),
            i <= n,
            out@.len() == i,
            forall|k: int| 0 <= k < i ==> out@[k] == lower_byte(#[trigger] kb@[k]),
        decreases n - i,
    {
        let b = kb[i];
        if 65 <= b && b <= 90 {
            out.push(b + 32);
        } else {
            out.push(b);
        }
        i = i + 1;
    }
    proof {
        assert(out@ =~= lower_bytes(kb@));
    }
    out
}

fn bytes_eq(a: &Vec<u8>, b: &[u8]) -> (r: bool)
    ensures
        r == (a@ == b@),
{
    if a.len() != b.len() {
        return false;
    }
    let n = a.len();
    let mut i: usize = 0;
    while i < n
        invariant
            i <= n,
            n == a@.len() == b@.len(),
            forall|k: int| 0 <= k < i ==> a@[k] == b@[k],
        decreases n - i,
    {
        if a[i] != b[i] {
            return false;
        }
        i = i + 1;
    }
    proof {
        assert(a@ =~= b@);
    }
    true
}

/// Decide whether a header name or JSON key is sensitive and must have its
/// value replaced before a recording is persisted.
pub fn should_sanitize(key: &str) -> (r: bool)
    ensures
        r == is_sensitive(encode_utf8(key@)),
{
    let kb = key.as_bytes();
    let l = lower_vec(kb);
    if bytes_eq(&l, "authorization".as_bytes()) {
        proof {
            assert(l@ == exact_names()[0]);
        }
        return true;
    }
    if bytes_eq(&l, "cookie".as_bytes()) {
        proof {
            assert(l@ == exact_names()[1]);
        }
        return true;
    }
    if bytes_eq(&l, "password".as_bytes()) {
        proof {
            assert(l@ == exact_names()[2]);
        }
        return true;
    }
    if bytes_eq(&l, "set-cookie".as_bytes()) {
        proof {
            assert(l@ == exact_names()[3]);
        }
        return true;
    }
    let w_secret = "secret".as_bytes();
    proof {
        reveal_strlit("secret");
    }
    if find_word(&l, w_secret) {
        proof {
            let i = choose|i: int| word_at(l@, i, w_secret@);
            assert(word_at(l@, i, sensitive_words()[0]));
        }
        return true;
    }
    let w_key = "key".as_bytes();
    proof {
        reveal_strlit("key");
    }
    if find_word(&l, w_key) {
        proof {
            let i = choose|i: int| word_at(l@, i, w_key@);
            assert(word_at(l@, i, sensitive_words()[1]));
        }
        return true;
    }
    let w_pkey = "pkey".as_bytes();
    proof {
        reveal_strlit("pkey");
    }
    if find_word(&l, w_pkey) {
        proof {
            let i = choose|i: int| word_at(l@, i, w_pkey@);
            assert(word_at(l@, i, sensitive_words()[2]));
        }
        return true;
    }
    let w_session = "session".as_bytes();
    proof {
        reveal_strlit("session");
    }
    if find_word(&l, w_session) {
        proof {
            let i = choose|i: int| word_at(l@, i, w_session@);
            assert(word_at(l@, i, sensitive_words()[3]));
        }
        return true;
    }
    let w_password = "password".as_bytes();
    proof {
        reveal_strlit("password");
    }
    if find_word(&l, w_password) {
        proof {
            let i = choose|i: int| word_at(l@, i, w_password@);
            assert(word_at(l@, i, sensitive_words()[4]));
        }
        return true;
    }
    let w_token = "token".as_bytes();
    proof {
        reveal_strlit("token");
    }
    if find_word(&l, w_token) {
        proof {
            let i = choose|i: int| word_at(l@, i, w_token@);
            assert(word_at(l@, i, sensitive_words()[5]));
        }
        return true;
    }
    proof {
        assert forall|j: int, i: int| 0 <= j < sensitive_words().len() implies
            !#[trigger] word_at(l@, i, sensitive_words()[j]) by {
            if j == 0 {
                assert(sensitive_words()[0] == w_secret@);
            } else if j == 1 {
                assert(sensitive_words()[1] == w_key@);
            } else if j == 2 {
                assert(sensitive_words()[2] == w_pkey@);
            } else if j == 3 {
                assert(sensitive_words()[3] == w_session@);
            } else if j == 4 {
                assert(sensitive_words()[4] == w_password@);
            } else {
                assert(sensitive_words()[5] == w_token@);
            }
        }
        assert forall|j: int| 0 <= j < exact_names().len() implies l@ != exact_names()[j] by {}
    }
    false
}


/// The sanitized form of a JSON document: the value under each sensitive
/// object key becomes the token string; other object members and array
/// elements are sanitized recursively; primitives are untouched.
pub open spec fn sanitize_jval(v: JVal) -> JVal
    decreases v,
{
    match v {
        JVal::Arr(items) => JVal::Arr(sanitize_list_spec(items)),
        JVal::Obj(fields) => JVal::Obj(sanitize_fields_spec(fields)),
        _ => v,
    }
}

pub open spec fn sanitize_list_spec(items: Seq<JVal>) -> Seq<JVal>
    decreases items,
{
    if items.len() == 0 {
        items
    } else {
        sanitize_list_spec(items.drop_last()).push(sanitize_jval(items.last()))
    }
}

pub open spec fn sanitize_fields_spec(fields: Seq<(Seq<char>, JVal)>) -> Seq<(Seq<char>, JVal)>
    decreases fields,
{
    if fields.len() == 0 {
        fields
    } else {
        let p = fields.last();
        let np = if is_sensitive(encode_utf8(p.0)) {
            (p.0, JVal::Str(token_chars()))
        } else {
            (p.0, sanitize_jval(p.1))
        };
        sanitize_fields_spec(fields.drop_last()).push(np)
    }
}

pub proof fn lemma_sanitize_list_elems(items: Seq<JVal>)
    ensures
        sanitize_list_spec(items).len() == items.len(),
        forall|i: int| 0 <= i < items.len() ==> #[trigger] sanitize_list_spec(items)[i]
            == sanitize_jval(items[i]),
    decreases items,
{
    if items.len() > 0 {
        lemma_sanitize_list_elems(items.drop_last());
        assert forall|i: int| 0 <= i < items.len() implies #[trigger] sanitize_list_spec(items)[i]
            == sanitize_jval(items[i]) by {
            let prefix = sanitize_list_spec(items.drop_last());
            assert(sanitize_list_spec(items) == prefix.push(sanitize_jval(items.last())));
            if i < items.len() - 1 {
                assert(prefix.push(sanitize_jval(items.last()))[i] == prefix[i]);
                assert(items.drop_last()[i] == items[i]);
            } else {
                assert(items.last() == items[i]);
            }
        }
    }
}

pub proof fn lemma_sanitize_fields_elems(fields: Seq<(Seq<char>, JVal)>)
    ensures
        sanitize_fields_spec(fields).len() == fields.len(),
        forall|i: int| 0 <= i < fields.len() ==> #[trigger] sanitize_fields_spec(fields)[i]
            == (if is_sensitive(encode_utf8(fields[i].0)) {
                (fields[i].0, JVal::Str(token_chars()))
            } else {
                (fields[i].0, sanitize_jval(fields[i].1))
            }),
    decreases fields,
{
    if fields.len() > 0 {
        lemma_sanitize_fields_elems(fields.drop_last());
        assert forall|i: int| 0 <= i < fields.len() implies #[trigger] sanitize_fields_spec(
            fields,
        )[i] == (if is_sensitive(encode_utf8(fields[i].0)) {
            (fields[i].0, JVal::Str(token_chars()))
        } else {
            (fields[i].0, sanitize_jval(fields[i].1))
        }) by {
            let p = fields.last();
            let np = if is_sensitive(encode_utf8(p.0)) {
                (p.0, JVal::Str(token_chars()))
            } else {
                (p.0, sanitize_jval(p.1))
            };
            let prefix = sanitize_fields_spec(fields.drop_last());
            assert(sanitize_fields_spec(fields) == prefix.push(np));
            if i < fields.len() - 1 {
                assert(prefix.push(np)[i] == prefix[i]);
                assert(fields.drop_last()[i] == fields[i]);
            } else {
                assert(fields.last() == fields[i]);
            }
        }
    }
}

/// Build the sanitized copy of a JSON document.
pub fn sanitize_json(v: &JsonValue) -> (r: JsonValue)
    ensures
        r@ == sanitize_jval(v@),
    decreases v,
{
    match v {
        JsonValue::Null => JsonValue::Null,
        JsonValue::Bool(b) => JsonValue::Bool(*b),
        JsonValue::Num(n) => JsonValue::Num(*n),
        JsonValue::Str(s) => JsonValue::Str(s.clone()),
        JsonValue::Arr(items) => {
            let mut out: Vec<JsonValue> = Vec::new();
            let n = items.len();
            let mut i: usize = 0;
            while i < n
                invariant
                    n == items.len(),
                    i <= n,
                    out@.len() == i,
                    forall|k: int| 0 <= k < i ==> out@[k]@
                        == sanitize_jval(#[trigger] items@[k]@),
                decreases n - i,
            {
                proof {
                    assert(decreases_to!(*v => v->Arr_0));
                    assert(decreases_to!(*items => items@));
                    assert(decreases_to!(items@ => items@[i as int]));
                }
                out.push(sanitize_json(&items[i]));
                i = i + 1;
            }
            proof {
                lemma_jview_seq(out@);
                lemma_jview_seq(items@);
                lemma_sanitize_list_elems(jview_seq(items@));
                assert(jview_seq(out@) =~= sanitize_list_spec(jview_seq(items@)));
            }
            JsonValue::Arr(out)
        },
        JsonValue::Obj(fields) => {
            let mut out: Vec<(String, JsonValue)> = Vec::new();
            let n = fields.len();
            let mut i: usize = 0;
            while i < n
                invariant
                    n == fields.len(),
                    i <= n,
                    out@.len() == i,
                    forall|k: int| 0 <= k < i ==> #[trigger] out@[k].0@ == fields@[k].0@,
                    forall|k: int| 0 <= k < i ==> #[trigger] out@[k].1@
                        == (if is_sensitive(encode_utf8(fields@[k].0@)) {
                            JVal::Str(token_chars())
                        } else {
                            sanitize_jval(fields@[k].1@)
                        }),
                decreases n - i,
            {
                proof {
                    assert(decreases_to!(*v => v->Obj_0));
                    assert(decreases_to!(*fields => fields@));
                    assert(decreases_to!(fields@ => fields@[i as int]));
                    assert(decreases_to!(fields@[i as int] => fields@[i as int].1));
                }
                let pair = &fields[i];
                if should_sanitize(pair.0.as_str()) {
                    out.push((pair.0.clone(), JsonValue::Str(String::from_str("**********"))));
                } else {
                    out.push((pair.0.clone(), sanitize_json(&pair.1)));
                }
                i = i + 1;
            }
            proof {
                lemma_jview_fields(out@);
                lemma_jview_fields(fields@);
                lemma_sanitize_fields_elems(jview_fields(fields@));
                assert(jview_fields(out@) =~= sanitize_fields_spec(jview_fields(fields@)));
            }
            JsonValue::Obj(out)
        },
    }
}

} // verus!
