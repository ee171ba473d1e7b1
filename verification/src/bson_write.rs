//! Writing a document as bytes.
//!
//! A document is framed by its own length in four bytes and a closing zero
//! byte. Between them stand its pairs, each as the number of the value's kind,
//! the key with a closing zero, and the value. An array is written as a
//! document whose keys are the positions in decimal.
use vstd::prelude::*;
use vstd::utf8::encode_utf8;
use crate::bson::{lemma_view_of_lists, models, pair_models, type_number, Bson, BsonValue};
use crate::endian::{
    decimal, le4, le8, push_decimal, push_i32_le, push_i64_le, push_len_le, push_low4,
    push_u32_le, push_u64_le, put_len_le,
};

verus! {

/// A string with a closing zero byte.
pub open spec fn cstring(s: Seq<char>) -> Seq<u8> {
    encode_utf8(s) + seq![0u8]
}

/// A string with its length in front, the closing zero byte counted.
pub open spec fn bson_string(s: Seq<char>) -> Seq<u8> {
    le4((encode_utf8(s).len() + 1) as int) + encode_utf8(s) + seq![0u8]
}

/// The pairs of a document or array between their own length, which counts
/// itself and the closing zero byte, and that byte.
pub open spec fn framed(body: Seq<u8>) -> Seq<u8> {
    le4((body.len() + 5) as int) + body + seq![0u8]
}

/// The value can be written: no code with scope occurs in it.
pub open spec fn encodable(v: Bson) -> bool
    decreases v,
{
    match v {
        Bson::JSCodeWithScope(_) => false,
        Bson::Array(items) => forall|i: int|
            0 <= i < items.len() ==> encodable(#[trigger] items[i]),
        Bson::Document(pairs) => forall|i: int|
            0 <= i < pairs.len() ==> encodable((#[trigger] pairs[i]).1),
        _ => true,
    }
}

/// A list can be written exactly if each of its values can.
pub proof fn lemma_encodable_lists(v: Bson)
    ensures
        v matches Bson::Array(items) ==> (encodable(v) <==> forall|i: int|
            0 <= i < items.len() ==> encodable(#[trigger] items[i])),
        v matches Bson::Document(pairs) ==> (encodable(v) <==> forall|i: int|
            0 <= i < pairs.len() ==> encodable((#[trigger] pairs[i]).1)),
{
    match v {
        Bson::Array(items) => {
            if encodable(v) {
                assert forall|i: int| 0 <= i < items.len() implies encodable(
                    #[trigger] items[i],
                ) by {
                    assert(v->Array_0[i] == items[i]);
                }
            } else {
                if forall|i: int| 0 <= i < items.len() ==> encodable(#[trigger] items[i]) {
                    assert forall|i: int| 0 <= i < v->Array_0.len() implies encodable(
                        #[trigger] v->Array_0[i],
                    ) by {
                        assert(encodable(items[i]));
                    }
                }
            }
        },
        Bson::Document(pairs) => {
            if encodable(v) {
                assert forall|i: int| 0 <= i < pairs.len() implies encodable(
                    (#[trigger] pairs[i]).1,
                ) by {
                    assert(v->Document_0[i] == pairs[i]);
                }
            } else {
                if forall|i: int| 0 <= i < pairs.len() ==> encodable((#[trigger] pairs[i]).1) {
                    assert forall|i: int| 0 <= i < v->Document_0.len() implies encodable(
                        (#[trigger] v->Document_0[i]).1,
                    ) by {
                        assert(encodable(pairs[i].1));
                    }
                }
            }
        },
        _ => {},
    }
}

/// The bytes of a value, without the number of its kind.
pub open spec fn encode(v: Bson) -> Seq<u8>
    decreases v,
{
    match v {
        Bson::Double(bits) => le8(bits as int),
        Bson::Int32(n) => le4(n as int),
        Bson::DateTime(n) => le8(n as int),
        Bson::TimeStamp(n) => le8(n as int),
        Bson::Int64(n) => le8(n as int),
        Bson::String(s) => bson_string(s),
        Bson::ObjectID(a) => a,
        Bson::Boolean(b) => if b {
            seq![1u8]
        } else {
            seq![0u8]
        },
        Bson::Null => Seq::empty(),
        Bson::MinKey => Seq::empty(),
        Bson::MaxKey => Seq::empty(),
        Bson::Regex(e, o) => cstring(e) + cstring(o),
        Bson::Undefined => Seq::empty(),
        Bson::JSCode(s) => bson_string(s),
        Bson::JSCodeWithScope(_) => Seq::empty(),
        Bson::Binary(subtype, b) => le4(b.len() as int) + seq![subtype] + b,
        Bson::Array(items) => framed(encode_items(items, items.len())),
        Bson::Document(pairs) => framed(encode_pairs(pairs, pairs.len())),
    }
}

/// The bytes of the first `n` values of an array, each under its position as
/// the key.
pub open spec fn encode_items(items: Seq<Bson>, n: nat) -> Seq<u8>
    decreases items, n,
{
    if n == 0 || n > items.len() {
        Seq::empty()
    } else {
        encode_items(items, (n - 1) as nat) + seq![type_number(items[n - 1])] + decimal(
            (n - 1) as nat,
        ) + seq![0u8] + encode(items[n - 1])
    }
}

/// The bytes of the first `n` pairs of a document.
pub open spec fn encode_pairs(pairs: Seq<(Seq<char>, Bson)>, n: nat) -> Seq<u8>
    decreases pairs, n,
{
    if n == 0 || n > pairs.len() {
        Seq::empty()
    } else {
        encode_pairs(pairs, (n - 1) as nat) + seq![type_number(pairs[n - 1].1)] + cstring(
            pairs[n - 1].0,
        ) + encode(pairs[n - 1].1)
    }
}

/// Calls `Vec::into_boxed_slice`, which keeps the bytes as they are.
#[verifier::external_body]
pub(crate) fn box_bytes(v: Vec<u8>) -> (b: Box<[u8]>)
    ensures
        b@ == v@,
{
    v.into_boxed_slice()
}

/// Appends bytes.
pub fn push_bytes(w: &mut Vec<u8>, b: &[u8])
    ensures
        final(w)@ == old(w)@ + b@,
{
    let mut i: usize = 0;
    while i < b.len()
        invariant
            i <= b.len(),
            w@ == old(w)@ + b@.subrange(0, i as int),
        decreases b.len() - i,
    {
        w.push(b[i]);
        i += 1;
    }
    assert(b@.subrange(0, b.len() as int) =~= b@);
}

/// Appends a string and a closing zero byte.
pub fn vec_push_c_string(v: &mut Vec<u8>, s: &str)
    ensures
        final(v)@ == old(v)@ + cstring(s@),
{
    push_bytes(v, s.as_bytes());
    v.push(0);
    assert(v@ =~= old(v)@ + cstring(s@));
}

/// Appends a string with its length in front and a closing zero byte.
pub fn vec_push_bson_string(v: &mut Vec<u8>, s: &str)
    ensures
        final(v)@ == old(v)@ + bson_string(s@),
{
    let b = s.as_bytes();
    push_low4(v, b.len() as u128 + 1);
    push_bytes(v, b);
    v.push(0);
    assert(v@ =~= old(v)@ + bson_string(s@));
}

/// Fills in the length of a document whose content and closing zero byte have
/// been written behind four bytes of room at `start`.
fn close_frame(w: &mut Vec<u8>, start: usize, Ghost(head): Ghost<Seq<u8>>, Ghost(body): Ghost<Seq<u8>>)
    requires
        start == head.len(),
        old(w)@ == head + le4(0) + body + seq![0u8],
    ensures
        final(w)@ == head + framed(body),
{
    assert(le4(0).len() == 4);
    let len = w.len() - start;
    put_len_le(w, start, len);
    assert(old(w)@.subrange(0, start as int) =~= head);
    assert(old(w)@.subrange(start + 4, old(w)@.len() as int) =~= body + seq![0u8]);
    assert(w@ =~= head + framed(body));
}

/// Appends an array: its values as the pairs of a document, each under its
/// position as the key.
fn write_items(vals: &Vec<BsonValue>, w: &mut Vec<u8>)
    requires
        forall|j: int| 0 <= j < vals@.len() ==> encodable(#[trigger] models(vals@)[j]),
    ensures
        final(w)@ == old(w)@ + framed(encode_items(models(vals@), vals@.len())),
    decreases vals,
{
    let ghost items = models(vals@);
    let start = w.len();
    // room for the length
    push_u32_le(w, 0);
    let mut i: usize = 0;
    while i < vals.len()
        invariant
            i <= vals.len(),
            items == models(vals@),
            forall|j: int| 0 <= j < items.len() ==> encodable(#[trigger] items[j]),
            start == old(w)@.len(),
            w@ == old(w)@ + le4(0) + encode_items(items, i as nat),
        decreases vals.len() - i,
    {
        let vsub = &vals[i];
        let ghost before = w@;
        assert(vsub@ == items[i as int]);
        proof {
            vstd::std_specs::vec::axiom_vec_index_decreases(*vals, i as int);
        }
        w.push(vsub.getTypeNumber_u8());
        push_decimal(w, i);
        w.push(0);
        vsub.to_bson(w);
        assert(w@ =~= before + (seq![type_number(items[i as int])] + decimal(i as nat) + seq![0u8]
            + encode(items[i as int])));
        assert(encode_items(items, (i + 1) as nat) =~= encode_items(items, i as nat) + (seq![
            type_number(items[i as int]),
        ] + decimal(i as nat) + seq![0u8] + encode(items[i as int])));
        assert(w@ =~= old(w)@ + le4(0) + encode_items(items, (i + 1) as nat));
        i += 1;
    }
    w.push(0u8);
    assert(w@ =~= old(w)@ + le4(0) + encode_items(items, vals@.len()) + seq![0u8]);
    close_frame(w, start, Ghost(old(w)@), Ghost(encode_items(items, vals@.len())));
}

/// Appends a document.
fn write_pairs(pairs: &Vec<(String, BsonValue)>, w: &mut Vec<u8>)
    requires
        forall|j: int| 0 <= j < pairs@.len() ==> encodable((#[trigger] pair_models(pairs@)[j]).1),
    ensures
        final(w)@ == old(w)@ + framed(encode_pairs(pair_models(pairs@), pairs@.len())),
    decreases pairs,
{
    let ghost pm = pair_models(pairs@);
    let start = w.len();
    // room for the length
    push_u32_le(w, 0);
    let mut i: usize = 0;
    while i < pairs.len()
        invariant
            i <= pairs.len(),
            pm == pair_models(pairs@),
            forall|j: int| 0 <= j < pm.len() ==> encodable((#[trigger] pm[j]).1),
            start == old(w)@.len(),
            w@ == old(w)@ + le4(0) + encode_pairs(pm, i as nat),
        decreases pairs.len() - i,
    {
        let ksub = &pairs[i].0;
        let vsub = &pairs[i].1;
        let ghost before = w@;
        assert(vsub@ == pm[i as int].1);
        assert(ksub@ == pm[i as int].0);
        proof {
            vstd::std_specs::vec::axiom_vec_index_decreases(*pairs, i as int);
        }
        w.push(vsub.getTypeNumber_u8());
        vec_push_c_string(w, ksub.as_str());
        vsub.to_bson(w);
        assert(w@ =~= before + (seq![type_number(pm[i as int].1)] + cstring(pm[i as int].0) + encode(
            pm[i as int].1,
        )));
        assert(encode_pairs(pm, (i + 1) as nat) =~= encode_pairs(pm, i as nat) + (seq![
            type_number(pm[i as int].1),
        ] + cstring(pm[i as int].0) + encode(pm[i as int].1)));
        assert(w@ =~= old(w)@ + le4(0) + encode_pairs(pm, (i + 1) as nat));
        i += 1;
    }
    w.push(0u8);
    assert(w@ =~= old(w)@ + le4(0) + encode_pairs(pm, pairs@.len()) + seq![0u8]);
    close_frame(w, start, Ghost(old(w)@), Ghost(encode_pairs(pm, pairs@.len())));
}

/// Whether each of the values can be written.
fn items_can_be_written(vals: &Vec<BsonValue>) -> (r: bool)
    ensures
        r == forall|j: int| 0 <= j < vals@.len() ==> encodable(#[trigger] models(vals@)[j]),
    decreases vals,
{
    let mut i: usize = 0;
    while i < vals.len()
        invariant
            i <= vals.len(),
            forall|j: int| 0 <= j < i ==> encodable(#[trigger] models(vals@)[j]),
        decreases vals.len() - i,
    {
        proof {
            vstd::std_specs::vec::axiom_vec_index_decreases(*vals, i as int);
        }
        if !vals[i].can_be_written() {
            assert(!encodable(models(vals@)[i as int]));
            return false;
        }
        i += 1;
    }
    true
}

/// Whether the value of each of the pairs can be written.
fn pairs_can_be_written(pairs: &Vec<(String, BsonValue)>) -> (r: bool)
    ensures
        r == forall|j: int| 0 <= j < pairs@.len() ==> encodable((#[trigger] pair_models(pairs@)[j]).1),
    decreases pairs,
{
    let mut i: usize = 0;
    while i < pairs.len()
        invariant
            i <= pairs.len(),
            forall|j: int| 0 <= j < i ==> encodable((#[trigger] pair_models(pairs@)[j]).1),
        decreases pairs.len() - i,
    {
        proof {
            vstd::std_specs::vec::axiom_vec_index_decreases(*pairs, i as int);
        }
        if !pairs[i].1.can_be_written() {
            assert(!encodable(pair_models(pairs@)[i as int].1));
            return false;
        }
        i += 1;
    }
    true
}

impl BsonValue {
    /// Whether the value can be written: whether no code with scope occurs in
    /// it.
    pub fn can_be_written(&self) -> (r: bool)
        ensures
            r == encodable(self@),
        decreases self,
    {
        proof {
            lemma_view_of_lists(*self);
            lemma_encodable_lists(self@);
        }
        match self {
            BsonValue::BJSCodeWithScope(_) => false,
            BsonValue::BArray(vals) => {
                assert(self@->Array_0 == models(vals@));
                items_can_be_written(vals)
            },
            BsonValue::BDocument(pairs) => {
                assert(self@->Document_0 == pair_models(pairs@));
                pairs_can_be_written(pairs)
            },
            _ => true,
        }
    }

    /// Appends the bytes of the value to `w`. An array or document is framed by
    /// its length, which is known only once its content is written: room is
    /// left for it and filled in at the end.
    pub fn to_bson(&self, w: &mut Vec<u8>)
        requires
            encodable(self@),
        ensures
            final(w)@ == old(w)@ + encode(self@),
        decreases self,
    {
        proof {
            lemma_view_of_lists(*self);
            lemma_encodable_lists(self@);
        }
        match self {
            BsonValue::BDouble(bits) => push_u64_le(w, *bits),
            BsonValue::BInt32(n) => push_i32_le(w, *n),
            BsonValue::BDateTime(n) => push_i64_le(w, *n),
            BsonValue::BTimeStamp(n) => push_i64_le(w, *n),
            BsonValue::BInt64(n) => push_i64_le(w, *n),
            BsonValue::BString(s) => vec_push_bson_string(w, s.as_str()),
            BsonValue::BObjectID(a) => push_bytes(w, a.as_slice()),
            BsonValue::BBoolean(b) => {
                if *b {
                    w.push(1u8);
                } else {
                    w.push(0u8);
                }
                assert(w@ =~= old(w)@ + encode(self@));
            },
            BsonValue::BNull => {
                assert(w@ =~= old(w)@ + encode(self@));
            },
            BsonValue::BMinKey => {
                assert(w@ =~= old(w)@ + encode(self@));
            },
            BsonValue::BMaxKey => {
                assert(w@ =~= old(w)@ + encode(self@));
            },
            BsonValue::BRegex(expr, opt) => {
                vec_push_c_string(w, expr.as_str());
                vec_push_c_string(w, opt.as_str());
                assert(w@ =~= old(w)@ + encode(self@));
            },
            BsonValue::BUndefined => {
                assert(w@ =~= old(w)@ + encode(self@));
            },
            BsonValue::BJSCode(s) => vec_push_bson_string(w, s.as_str()),
            BsonValue::BJSCodeWithScope(_) => {},
            BsonValue::BBinary(subtype, ba) => {
                push_len_le(w, ba.len());
                w.push(*subtype);
                push_bytes(w, ba);
                assert(w@ =~= old(w)@ + encode(self@));
            },
            BsonValue::BArray(vals) => {
                assert(self@->Array_0 == models(vals@));
                write_items(vals, w)
            },
            BsonValue::BDocument(pairs) => {
                assert(self@->Document_0 == pair_models(pairs@));
                write_pairs(pairs, w)
            },
        }
    }
}

} // verus!
