use vstd::prelude::*;

verus! {

/// Mathematical model of a JSON document: the view of `JsonValue`.
#[verifier::ext_equal]
pub enum JVal {
    Null,
    Bool(bool),
    Num(int),
    Str(Seq<char>),
    Arr(Seq<JVal>),
    Obj(Seq<(Seq<char>, JVal)>),
}

/// A JSON document held as plain values, so that the rules that read and
/// rewrite documents (sanitization, recording, refresh-token parsing) can be
/// verified. Numbers are 64-bit integers: the documents this library traffics
/// in (recordings, token responses) use integral numbers.
#[derive(Debug)]
pub enum JsonValue {
    Null,
    Bool(bool),
    Num(i64),
    Str(String),
    Arr(Vec<JsonValue>),
    Obj(Vec<(String, JsonValue)>),
}

pub open spec fn jview_seq(items: Seq<JsonValue>) -> Seq<JVal>
    decreases items,
{
    if items.len() == 0 {
        Seq::empty()
    } else {
        jview_seq(items.drop_last()).push(items.last()@)
    }
}

pub open spec fn jview_fields(fields: Seq<(String, JsonValue)>) -> Seq<(Seq<char>, JVal)>
    decreases fields,
{
    if fields.len() == 0 {
        Seq::empty()
    } else {
        jview_fields(fields.drop_last()).push((fields.last().0@, fields.last().1@))
    }
}

impl View for JsonValue {
    type V = JVal;

    open spec fn view(&self) -> JVal
        decreases self,
    {
        match self {
            JsonValue::Null => JVal::Null,
            JsonValue::Bool(b) => JVal::Bool(*b),
            JsonValue::Num(n) => JVal::Num(*n as int),
            JsonValue::Str(s) => JVal::Str(s@),
            JsonValue::Arr(items) => JVal::Arr(jview_seq(items@)),
            JsonValue::Obj(fields) => JVal::Obj(jview_fields(fields@)),
        }
    }
}

/// The element views of a viewed sequence are the views of the elements.
pub proof fn lemma_jview_seq(items: Seq<JsonValue>)
    ensures
        jview_seq(items).len() == items.len(),
        forall|i: int| 0 <= i < items.len() ==> #[trigger] jview_seq(items)[i] == items[i]@,
    decreases items,
{
    if items.len() > 0 {
        lemma_jview_seq(items.drop_last());
        assert(jview_seq(items) == jview_seq(items.drop_last()).push(items.last()@));
        assert(jview_seq(items).len() == items.len());
        assert forall|i: int| 0 <= i < items.len() implies #[trigger] jview_seq(items)[i]
            == items[i]@ by {
            let prefix = jview_seq(items.drop_last());
            assert(jview_seq(items) == prefix.push(items.last()@));
            if i < items.len() - 1 {
                assert(prefix.push(items.last()@)[i] == prefix[i]);
                assert(prefix[i] == items.drop_last()[i]@);
                assert(items.drop_last()[i] == items[i]);
            } else {
                assert(prefix.push(items.last()@)[i] == items.last()@);
                assert(items.last() == items[i]);
            }
        }
    } else {
        assert(jview_seq(items).len() == 0);
    }
}

/// The field views of a viewed field list are the views of the fields.
pub proof fn lemma_jview_fields(fields: Seq<(String, JsonValue)>)
    ensures
        jview_fields(fields).len() == fields.len(),
        forall|i: int| 0 <= i < fields.len() ==> #[trigger] jview_fields(fields)[i]
            == (fields[i].0@, fields[i].1@),
    decreases fields,
{
    if fields.len() > 0 {
        lemma_jview_fields(fields.drop_last());
        assert forall|i: int| 0 <= i < fields.len() implies #[trigger] jview_fields(fields)[i]
            == (fields[i].0@, fields[i].1@) by {
            let prefix = jview_fields(fields.drop_last());
            let last = (fields.last().0@, fields.last().1@);
            assert(jview_fields(fields) == prefix.push(last));
            if i < fields.len() - 1 {
                assert(prefix.push(last)[i] == prefix[i]);
                assert(prefix[i] == (fields.drop_last()[i].0@, fields.drop_last()[i].1@));
                assert(fields.drop_last()[i] == fields[i]);
            } else {
                assert(prefix.push(last)[i] == last);
                assert(fields.last() == fields[i]);
            }
        }
    } else {
        assert(jview_fields(fields).len() == 0);
    }
}

impl Clone for JsonValue {
    #[verifier::loop_isolation(false)]
    fn clone(&self) -> (r: Self)
        ensures
            r@ == self@,
        decreases self,
    {
        match self {
            JsonValue::Null => JsonValue::Null,
            JsonValue::Bool(b) => JsonValue::Bool(*b),
            JsonValue::Num(n) => JsonValue::Num(*n),
            JsonValue::Str(s) => JsonValue::Str(s.clone()),
            JsonValue::Arr(items) => {
                let mut out: Vec<JsonValue> = Vec::new();
                let n = items.len();
                let mut i: usize = 0;
                while i < n
                    invariant
                        n == items.len(),
                        i <= n,
                        out@.len() == i,
                        forall|k: int| 0 <= k < i ==> out@[k]@ == #[trigger] items@[k]@,
                    decreases n - i,
                {
                    proof {
                        assert(decreases_to!(*self => self->Arr_0));
                        assert(decreases_to!(*items => items@));
                        assert(decreases_to!(items@ => items@[i as int]));
                    }
                    out.push(items[i].clone());
                    i = i + 1;
                }
                proof {
                    lemma_jview_seq(out@);
                    lemma_jview_seq(items@);
                    assert(jview_seq(out@) =~= jview_seq(items@));
                }
                JsonValue::Arr(out)
            },
            JsonValue::Obj(fields) => {
                let mut out: Vec<(String, JsonValue)> = Vec::new();
                let n = fields.len();
                let mut i: usize = 0;
                while i < n
                    invariant
                        n == fields.len(),
                        i <= n,
                        out@.len() == i,
                        forall|k: int| 0 <= k < i ==> (#[trigger] out@[k].0@, out@[k].1@)
                            == (fields@[k].0@, fields@[k].1@),
                    decreases n - i,
                {
                    proof {
                        assert(decreases_to!(*self => self->Obj_0));
                        assert(decreases_to!(*fields => fields@));
                        assert(decreases_to!(fields@ => fields@[i as int]));
                        assert(decreases_to!(fields@[i as int] => fields@[i as int].1));
                    }
                    let pair = &fields[i];
                    out.push((pair.0.clone(), pair.1.clone()));
                    i = i + 1;
                }
                proof {
                    lemma_jview_fields(out@);
                    lemma_jview_fields(fields@);
                    assert(jview_fields(out@) =~= jview_fields(fields@));
                }
                JsonValue::Obj(out)
            },
        }
    }
}

impl PartialEq for JsonValue {
    #[verifier::loop_isolation(false)]
    #[verifier::rlimit(50)]
    fn eq(&self, other: &JsonValue) -> (r: bool)
        ensures
            r == (self@ == other@),
        decreases self,
    {
        match (self, other) {
            (JsonValue::Null, JsonValue::Null) => true,
            (JsonValue::Bool(a), JsonValue::Bool(b)) => *a == *b,
            (JsonValue::Num(a), JsonValue::Num(b)) => *a == *b,
            (JsonValue::Str(a), JsonValue::Str(b)) => a.eq(b),
            (JsonValue::Arr(a), JsonValue::Arr(b)) => {
                proof {
                    lemma_jview_seq(a@);
                    lemma_jview_seq(b@);
                }
                if a.len() != b.len() {
                    return false;
                }
                let n = a.len();
                let mut i: usize = 0;
                let mut same = true;
                while i < n
                    invariant
                        n == a.len(),
                        n == b.len(),
                        i <= n,
                        same == (jview_seq(a@).take(i as int) =~= jview_seq(b@).take(i as int)),
                        jview_seq(a@).len() == n,
                        jview_seq(b@).len() == n,
                        forall|k: int| 0 <= k < n ==> jview_seq(a@)[k] == #[trigger] a@[k]@,
                        forall|k: int| 0 <= k < n ==> jview_seq(b@)[k] == #[trigger] b@[k]@,
                    decreases n - i,
                {
                    proof {
                        assert(decreases_to!(*self => self->Arr_0));
                        assert(decreases_to!(*a => a@));
                        assert(decreases_to!(a@ => a@[i as int]));
                    }
                    if !(a[i].eq(&b[i])) {
                        same = false;
                        proof {
                            assert(jview_seq(a@)[i as int] != jview_seq(b@)[i as int]);
                            assert(jview_seq(a@).take(i as int + 1)[i as int]
                                != jview_seq(b@).take(i as int + 1)[i as int]);
                        }
                    } else {
                        proof {
                            if same {
                                assert forall|k: int| 0 <= k < i as int + 1 implies
                                    #[trigger] jview_seq(a@).take(i as int + 1)[k]
                                        == jview_seq(b@).take(i as int + 1)[k] by {
                                    if k < i as int {
                                        assert(jview_seq(a@).take(i as int)[k]
                                            == jview_seq(b@).take(i as int)[k]);
                                    }
                                }
                                assert(jview_seq(a@).take(i as int + 1)
                                    =~= jview_seq(b@).take(i as int + 1));
                            } else {
                                let bad = choose|k: int| 0 <= k < i as int
                                    && jview_seq(a@).take(i as int)[k]
                                        != jview_seq(b@).take(i as int)[k];
                                assert(jview_seq(a@).take(i as int + 1)[bad]
                                    != jview_seq(b@).take(i as int + 1)[bad]);
                            }
                        }
                    }
                    i = i + 1;
                }
                proof {
                    assert(jview_seq(a@).take(n as int) =~= jview_seq(a@));
                    assert(jview_seq(b@).take(n as int) =~= jview_seq(b@));
                    if same {
                        assert(jview_seq(a@) =~= jview_seq(b@));
                    }
                }
                same
            },
            (JsonValue::Obj(a), JsonValue::Obj(b)) => {
                proof {
                    lemma_jview_fields(a@);
                    lemma_jview_fields(b@);
                }
                if a.len() != b.len() {
                    return false;
                }
                let n = a.len();
                let mut i: usize = 0;
                let mut same = true;
                while i < n
                    invariant
                        n == a.len(),
                        n == b.len(),
                        i <= n,
                        same == (jview_fields(a@).take(i as int)
                            =~= jview_fields(b@).take(i as int)),
                        jview_fields(a@).len() == n,
                        jview_fields(b@).len() == n,
                        forall|k: int| 0 <= k < n ==> jview_fields(a@)[k]
                            == (#[trigger] a@[k].0@, a@[k].1@),
                        forall|k: int| 0 <= k < n ==> jview_fields(b@)[k]
                            == (#[trigger] b@[k].0@, b@[k].1@),
                    decreases n - i,
                {
                    proof {
                        assert(decreases_to!(*self => self->Obj_0));
                        assert(decreases_to!(*a => a@));
                        assert(decreases_to!(a@ => a@[i as int]));
                        assert(decreases_to!(a@[i as int] => a@[i as int].1));
                    }
                    let pa = &a[i];
                    let pb = &b[i];
                    if !(pa.0.eq(&pb.0)) || !(pa.1.eq(&pb.1)) {
                        same = false;
                        proof {
                            assert(jview_fields(a@)[i as int] != jview_fields(b@)[i as int]);
                            assert(jview_fields(a@).take(i as int + 1)[i as int]
                                != jview_fields(b@).take(i as int + 1)[i as int]);
                        }
                    } else {
                        proof {
                            if same {
                                assert forall|k: int| 0 <= k < i as int + 1 implies
                                    #[trigger] jview_fields(a@).take(i as int + 1)[k]
                                        == jview_fields(b@).take(i as int + 1)[k] by {
                                    if k < i as int {
                                        assert(jview_fields(a@).take(i as int)[k]
                                            == jview_fields(b@).take(i as int)[k]);
                                    }
                                }
                                assert(jview_fields(a@).take(i as int + 1)
                                    =~= jview_fields(b@).take(i as int + 1));
                            } else {
                                let bad = choose|k: int| 0 <= k < i as int
                                    && jview_fields(a@).take(i as int)[k]
                                        != jview_fields(b@).take(i as int)[k];
                                assert(jview_fields(a@).take(i as int + 1)[bad]
                                    != jview_fields(b@).take(i as int + 1)[bad]);
                            }
                        }
                    }
                    i = i + 1;
                }
                proof {
                    assert(jview_fields(a@).take(n as int) =~= jview_fields(a@));
                    assert(jview_fields(b@).take(n as int) =~= jview_fields(b@));
                    if same {
                        assert(jview_fields(a@) =~= jview_fields(b@));
                    }
                }
                same
            },
            _ => false,
        }
    }
}

impl vstd::std_specs::cmp::PartialEqSpecImpl for JsonValue {
    open spec fn obeys_eq_spec() -> bool {
        true
    }

    open spec fn eq_spec(&self, other: &JsonValue) -> bool {
        self@ == other@
    }
}

/// Decimal digits of a non-negative number, most significant first.
pub open spec fn dec_bytes(n: nat) -> Seq<u8>
    decreases n,
{
    if n < 10 {
        seq![(48 + n) as u8]
    } else {
        dec_bytes(n / 10).push((48 + n % 10) as u8)
    }
}

/// The textual form of a JSON number.
pub open spec fn num_bytes(i: int) -> Seq<u8> {
    if i < 0 {
        seq![45u8] + dec_bytes((-i) as nat)
    } else {
        dec_bytes(i as nat)
    }
}

pub open spec fn hex_digit(n: u8) -> u8 {
    if n < 10 {
        (48 + n) as u8
    } else {
        (87 + n) as u8
    }
}

/// How one byte of a string appears inside a JSON string literal.
pub open spec fn esc_byte(b: u8) -> Seq<u8> {
    if b == 34u8 {
        seq![92u8, 34u8]
    } else if b == 92u8 {
        seq![92u8, 92u8]
    } else if b == 8 {
        seq![92u8, 98u8]
    } else if b == 9 {
        seq![92u8, 116u8]
    } else if b == 10 {
        seq![92u8, 110u8]
    } else if b == 12 {
        seq![92u8, 102u8]
    } else if b == 13 {
        seq![92u8, 114u8]
    } else if b < 32 {
        seq![92u8, 117u8, 48u8, 48u8, hex_digit(b / 16), hex_digit(b % 16)]
    } else {
        seq![b]
    }
}

pub open spec fn esc_bytes(s: Seq<u8>) -> Seq<u8>
    decreases s.len(),
{
    if s.len() == 0 {
        Seq::empty()
    } else {
        esc_bytes(s.drop_last()) + esc_byte(s.last())
    }
}

/// A JSON string literal: the escaped UTF-8 bytes between double quotes.
pub open spec fn str_lit_bytes(s: Seq<char>) -> Seq<u8> {
    seq![34u8] + esc_bytes(vstd::utf8::encode_utf8(s)) + seq![34u8]
}

/// The compact textual form of a JSON document, as this library writes it:
/// no added whitespace, object fields in their held order.
pub open spec fn jbytes(v: JVal) -> Seq<u8>
    decreases v,
{
    match v {
        JVal::Null => seq![110u8, 117u8, 108u8, 108u8],
        JVal::Bool(b) => if b {
            seq![116u8, 114u8, 117u8, 101u8]
        } else {
            seq![102u8, 97u8, 108u8, 115u8, 101u8]
        },
        JVal::Num(i) => num_bytes(i),
        JVal::Str(s) => str_lit_bytes(s),
        JVal::Arr(items) => seq![91u8] + jbytes_list(items) + seq![93u8],
        JVal::Obj(fields) => seq![123u8] + jbytes_fields(fields) + seq![125u8],
    }
}

pub open spec fn jbytes_list(items: Seq<JVal>) -> Seq<u8>
    decreases items,
{
    if items.len() == 0 {
        Seq::empty()
    } else if items.len() == 1 {
        jbytes(items.last())
    } else {
        jbytes_list(items.drop_last()) + seq![44u8] + jbytes(items.last())
    }
}

pub open spec fn jbytes_fields(fields: Seq<(Seq<char>, JVal)>) -> Seq<u8>
    decreases fields,
{
    if fields.len() == 0 {
        Seq::empty()
    } else {
        let entry = str_lit_bytes(fields.last().0) + seq![58u8] + jbytes(fields.last().1);
        if fields.len() == 1 {
            entry
        } else {
            jbytes_fields(fields.drop_last()) + seq![44u8] + entry
        }
    }
}

fn write_dec(n: u64, buf: &mut Vec<u8>)
    ensures
        final(buf)@ == old(buf)@ + dec_bytes(n as nat),
    decreases n,
{
    if n >= 10 {
        write_dec(n / 10, buf);
    }
    buf.push((48 + (n % 10) as u8) as u8);
}

fn write_str_lit(s: &str, buf: &mut Vec<u8>)
    ensures
        final(buf)@ == old(buf)@ + str_lit_bytes(s@),
{
    buf.push(34u8);
    let sb = s.as_bytes();
    let n = sb.len();
    let mut i: usize = 0;
    while i < n
        invariant
            n == sb@.len(),
            i <= n,
            buf@ == old(buf)@ + seq![34u8] + esc_bytes(sb@.take(i as int)),
        decreases n - i,
    {
        let b = sb[i];
        if b == 34u8 {
            buf.push(92u8);
            buf.push(34u8);
        } else if b == 92u8 {
            buf.push(92u8);
            buf.push(92u8);
        } else if b == 8 {
            buf.push(92u8);
            buf.push(98u8);
        } else if b == 9 {
            buf.push(92u8);
            buf.push(116u8);
        } else if b == 10 {
            buf.push(92u8);
            buf.push(110u8);
        } else if b == 12 {
            buf.push(92u8);
            buf.push(102u8);
        } else if b == 13 {
            buf.push(92u8);
            buf.push(114u8);
        } else if b < 32 {
            buf.push(92u8);
            buf.push(117u8);
            buf.push(48u8);
            buf.push(48u8);
            let hi = b / 16;
            let lo = b % 16;
            buf.push(if hi < 10 { 48 + hi } else { 87 + hi });
            buf.push(if lo < 10 { 48 + lo } else { 87 + lo });
        } else {
            buf.push(b);
        }
        proof {
            assert(sb@.take(i as int + 1).drop_last() =~= sb@.take(i as int));
            assert(sb@.take(i as int + 1).last() == sb@[i as int]);
            assert(esc_bytes(sb@.take(i as int + 1))
                == esc_bytes(sb@.take(i as int)) + esc_byte(sb@[i as int]));
            assert(buf@ == old(buf)@ + seq![34u8] + esc_bytes(sb@.take(i as int + 1)));
        }
        i = i + 1;
    }
    buf.push(34u8);
    proof {
        assert(sb@.take(n as int) =~= sb@);
        assert(buf@ =~= old(buf)@ + str_lit_bytes(s@));
    }
}

/// Append the compact JSON text of `v` to `buf`.
#[verifier::loop_isolation(false)]
#[verifier::rlimit(100)]
pub fn write_json(v: &JsonValue, buf: &mut Vec<u8>)
    ensures
        final(buf)@ == old(buf)@ + jbytes(v@),
    decreases v,
{
    match v {
        JsonValue::Null => {
            buf.push(110u8);
            buf.push(117u8);
            buf.push(108u8);
            buf.push(108u8);
            proof {
                assert(buf@ =~= old(buf)@ + jbytes(v@));
            }
        },
        JsonValue::Bool(b) => {
            if *b {
                buf.push(116u8);
                buf.push(114u8);
                buf.push(117u8);
                buf.push(101u8);
            } else {
                buf.push(102u8);
                buf.push(97u8);
                buf.push(108u8);
                buf.push(115u8);
                buf.push(101u8);
            }
            proof {
                assert(buf@ =~= old(buf)@ + jbytes(v@));
            }
        },
        JsonValue::Num(i) => {
            let m: u64 = if *i < 0 {
                buf.push(45u8);
                if *i == i64::MIN {
                    9223372036854775808u64
                } else {
                    (-*i) as u64
                }
            } else {
                *i as u64
            };
            write_dec(m, buf);
            proof {
                assert(buf@ =~= old(buf)@ + jbytes(v@));
            }
        },
        JsonValue::Str(s) => {
            write_str_lit(s.as_str(), buf);
        },
        JsonValue::Arr(items) => {
            buf.push(91u8);
            let n = items.len();
            let mut i: usize = 0;
            proof {
                lemma_jview_seq(items@);
            }
            while i < n
                invariant
                    n == items@.len(),
                    i <= n,
                    jview_seq(items@).len() == n,
                    forall|k: int| 0 <= k < n ==> #[trigger] jview_seq(items@)[k] == items@[k]@,
                    buf@ == old(buf)@ + seq![91u8] + jbytes_list(jview_seq(items@).take(i as int)),
                decreases n - i,
            {
                if i > 0 {
                    buf.push(44u8);
                }
                proof {
                    assert(decreases_to!(*v => v->Arr_0));
                    assert(decreases_to!(*items => items@));
                    assert(decreases_to!(items@ => items@[i as int]));
                }
                write_json(&items[i], buf);
                proof {
                    let views = jview_seq(items@);
                    assert(views.take(i as int + 1).drop_last() =~= views.take(i as int));
                    assert(views.take(i as int + 1).last() == views[i as int]);
                    assert(buf@ =~= old(buf)@ + seq![91u8]
                        + jbytes_list(views.take(i as int + 1)));
                }
                i = i + 1;
            }
            buf.push(93u8);
            proof {
                assert(jview_seq(items@).take(n as int) =~= jview_seq(items@));
                assert(buf@ =~= old(buf)@ + jbytes(v@));
            }
        },
        JsonValue::Obj(fields) => {
            buf.push(123u8);
            let n = fields.len();
            let mut i: usize = 0;
            proof {
                lemma_jview_fields(fields@);
            }
            while i < n
                invariant
                    n == fields@.len(),
                    i <= n,
                    jview_fields(fields@).len() == n,
                    forall|k: int| 0 <= k < n ==> #[trigger] jview_fields(fields@)[k]
                        == (fields@[k].0@, fields@[k].1@),
                    buf@ == old(buf)@ + seq![123u8]
                        + jbytes_fields(jview_fields(fields@).take(i as int)),
                decreases n - i,
            {
                if i > 0 {
                    buf.push(44u8);
                }
                let pair = &fields[i];
                write_str_lit(pair.0.as_str(), buf);
                buf.push(58u8);
                proof {
                    assert(decreases_to!(*v => v->Obj_0));
                    assert(decreases_to!(*fields => fields@));
                    assert(decreases_to!(fields@ => fields@[i as int]));
                    assert(decreases_to!(fields@[i as int] => fields@[i as int].1));
                }
                write_json(&pair.1, buf);
                proof {
                    let views = jview_fields(fields@);
                    assert(views.take(i as int + 1).drop_last() =~= views.take(i as int));
                    assert(views.take(i as int + 1).last() == views[i as int]);
                    assert(buf@ =~= old(buf)@ + seq![123u8]
                        + jbytes_fields(views.take(i as int + 1)));
                }
                i = i + 1;
            }
            buf.push(125u8);
            proof {
                assert(jview_fields(fields@).take(n as int) =~= jview_fields(fields@));
                assert(buf@ =~= old(buf)@ + jbytes(v@));
            }
        },
    }
}

/// The compact JSON text of `v`, as bytes.
pub fn json_to_bytes(v: &JsonValue) -> (r: Vec<u8>)
    ensures
        r@ == jbytes(v@),
{
    let mut buf: Vec<u8> = Vec::new();
    write_json(v, &mut buf);
    buf
}


/// The value under the first occurrence of a key in an object's fields.
pub open spec fn obj_get_spec(fields: Seq<(Seq<char>, JVal)>, key: Seq<char>) -> Option<JVal>
    decreases fields.len(),
{
    if fields.len() == 0 {
        None
    } else if fields.first().0 == key {
        Some(fields.first().1)
    } else {
        obj_get_spec(fields.drop_first(), key)
    }
}

pub proof fn lemma_obj_get_at(fields: Seq<(Seq<char>, JVal)>, key: Seq<char>, i: int)
    requires
        0 <= i < fields.len(),
        fields[i].0 == key,
        forall|k: int| 0 <= k < i ==> (#[trigger] fields[k].0) != key,
    ensures
        obj_get_spec(fields, key) == Some(fields[i].1),
    decreases fields.len(),
{
    if i > 0 {
        assert(fields.drop_first()[i - 1] == fields[i]);
        assert forall|k: int| 0 <= k < i - 1 implies (#[trigger] fields.drop_first()[k].0)
            != key by {
            assert(fields.drop_first()[k] == fields[k + 1]);
        }
        lemma_obj_get_at(fields.drop_first(), key, i - 1);
    }
}

pub proof fn lemma_obj_get_none(fields: Seq<(Seq<char>, JVal)>, key: Seq<char>)
    requires
        forall|k: int| 0 <= k < fields.len() ==> (#[trigger] fields[k].0) != key,
    ensures
        obj_get_spec(fields, key) == None::<JVal>,
    decreases fields.len(),
{
    if fields.len() > 0 {
        assert forall|k: int| 0 <= k < fields.len() - 1 implies (#[trigger] fields.drop_first(
        )[k].0) != key by {
            assert(fields.drop_first()[k] == fields[k + 1]);
        }
        lemma_obj_get_none(fields.drop_first(), key);
    }
}

/// Look a key up in an object's field list.
pub fn obj_get<'a>(fields: &'a Vec<(String, JsonValue)>, key: &str) -> (r: Option<
    &'a JsonValue,
>)
    ensures
        match r {
            Some(v) => obj_get_spec(jview_fields(fields@), key@) == Some(v@),
            None => obj_get_spec(jview_fields(fields@), key@) is None,
        },
{
    proof {
        lemma_jview_fields(fields@);
    }
    let n = fields.len();
    let mut i: usize = 0;
    while i < n
        invariant
            i <= n,
            n == fields@.len(),
            jview_fields(fields@).len() == n,
            forall|k: int| 0 <= k < n ==> #[trigger] jview_fields(fields@)[k]
                == (fields@[k].0@, fields@[k].1@),
            forall|k: int| 0 <= k < i ==> (#[trigger] jview_fields(fields@)[k].0) != key@,
        decreases n - i,
    {
        if crate::sanitize::str_eq(fields[i].0.as_str(), key) {
            proof {
                lemma_obj_get_at(jview_fields(fields@), key@, i as int);
            }
            return Some(&fields[i].1);
        }
        i = i + 1;
    }
    proof {
        lemma_obj_get_none(jview_fields(fields@), key@);
    }
    None
}

/// Setting a key in an object's fields: the first occurrence is replaced in
/// place, a fresh key is appended.
pub open spec fn obj_set_spec(
    fields: Seq<(Seq<char>, JVal)>,
    key: Seq<char>,
    v: JVal,
) -> Seq<(Seq<char>, JVal)>
    decreases fields.len(),
{
    if fields.len() == 0 {
        seq![(key, v)]
    } else if fields.first().0 == key {
        seq![(key, v)] + fields.drop_first()
    } else {
        seq![fields.first()] + obj_set_spec(fields.drop_first(), key, v)
    }
}

pub proof fn lemma_obj_set_at(fields: Seq<(Seq<char>, JVal)>, key: Seq<char>, v: JVal, i: int)
    requires
        0 <= i < fields.len(),
        fields[i].0 == key,
        forall|k: int| 0 <= k < i ==> (#[trigger] fields[k].0) != key,
    ensures
        obj_set_spec(fields, key, v) == fields.update(i, (key, v)),
    decreases fields.len(),
{
    if i == 0 {
        assert(seq![(key, v)] + fields.drop_first() =~= fields.update(0, (key, v)));
    } else {
        assert(fields.drop_first()[i - 1] == fields[i]);
        assert forall|k: int| 0 <= k < i - 1 implies (#[trigger] fields.drop_first()[k].0)
            != key by {
            assert(fields.drop_first()[k] == fields[k + 1]);
        }
        lemma_obj_set_at(fields.drop_first(), key, v, i - 1);
        assert(seq![fields.first()] + fields.drop_first().update(i - 1, (key, v))
            =~= fields.update(i, (key, v)));
    }
}

pub proof fn lemma_obj_set_missing(fields: Seq<(Seq<char>, JVal)>, key: Seq<char>, v: JVal)
    requires
        forall|k: int| 0 <= k < fields.len() ==> (#[trigger] fields[k].0) != key,
    ensures
        obj_set_spec(fields, key, v) == fields.push((key, v)),
    decreases fields.len(),
{
    if fields.len() == 0 {
        assert(obj_set_spec(fields, key, v) =~= fields.push((key, v)));
    } else {
        assert forall|k: int| 0 <= k < fields.len() - 1 implies (#[trigger] fields.drop_first(
        )[k].0) != key by {
            assert(fields.drop_first()[k] == fields[k + 1]);
        }
        lemma_obj_set_missing(fields.drop_first(), key, v);
        assert(seq![fields.first()] + fields.drop_first().push((key, v)) =~= fields.push(
            (key, v),
        ));
    }
}

/// Set a key in an object's field list.
pub fn obj_set(fields: &mut Vec<(String, JsonValue)>, key: &str, v: JsonValue)
    ensures
        jview_fields(final(fields)@) == obj_set_spec(jview_fields(old(fields)@), key@, v@),
{
    proof {
        lemma_jview_fields(fields@);
    }
    let n = fields.len();
    let mut i: usize = 0;
    while i < n
        invariant
            i <= n,
            n == fields@.len(),
            fields@ == old(fields)@,
            jview_fields(fields@).len() == n,
            forall|k: int| 0 <= k < n ==> #[trigger] jview_fields(fields@)[k]
                == (fields@[k].0@, fields@[k].1@),
            forall|k: int| 0 <= k < i ==> (#[trigger] jview_fields(fields@)[k].0) != key@,
        decreases n - i,
    {
        if crate::sanitize::str_eq(fields[i].0.as_str(), key) {
            proof {
                lemma_obj_set_at(jview_fields(fields@), key@, v@, i as int);
            }
            fields.set(i, (String::from_str(key), v));
            proof {
                lemma_jview_fields(fields@);
                lemma_jview_fields(old(fields)@);
                assert(jview_fields(fields@) =~= jview_fields(old(fields)@).update(
                    i as int,
                    (key@, v@),
                ));
            }
            return ;
        }
        i = i + 1;
    }
    proof {
        lemma_obj_get_none(jview_fields(fields@), key@);
        lemma_obj_set_missing(jview_fields(fields@), key@, v@);
    }
    fields.push((String::from_str(key), v));
    proof {
        lemma_jview_fields(fields@);
        lemma_jview_fields(old(fields)@);
        assert(jview_fields(fields@) =~= jview_fields(old(fields)@).push((key@, v@)));
    }
}

} // verus!
