//! What is written is read back: the reader undoes the writer.
use vstd::prelude::*;
use vstd::utf8::{
    decode_utf8, encode_utf8, encode_utf8_decode_utf8, encode_utf8_valid_utf8, is_ascii_chars,
    is_ascii_chars_encode_utf8, valid_utf8,
};
use crate::bson::{type_number, Bson};
use crate::bson_read::{
    first_zero, lemma_first_zero_is, parse_binary, parse_boolean, parse_cstring, parse_document,
    parse_document_pairs, parse_i64, parse_js, parse_objectid, parse_pairs, parse_regex,
    parse_string, parse_value,
};
use crate::bson_write::{bson_string, cstring, encode, encode_items, encode_pairs, framed};
use crate::endian::{
    bytes4, decimal, i32_at, i64_at, le4, le8, lemma_le4_round_trip, lemma_le8_round_trip, u32_at,
    u64_at,
};

verus! {

/// No byte is zero.
pub open spec fn no_zero(b: Seq<u8>) -> bool {
    forall|i: int| 0 <= i < b.len() ==> b[i] != 0
}

/// The bytes `part` stand in `ba` from position `i` on.
pub open spec fn holds_at(ba: Seq<u8>, i: int, part: Seq<u8>) -> bool {
    0 <= i && i + part.len() <= ba.len() && ba.subrange(i, i + part.len()) == part
}

/// Where bytes stand that are made of two parts, each part stands in its place.
pub proof fn lemma_holds_at_split(ba: Seq<u8>, i: int, a: Seq<u8>, b: Seq<u8>)
    requires
        holds_at(ba, i, a + b),
    ensures
        holds_at(ba, i, a),
        holds_at(ba, i + a.len(), b),
{
    let whole = ba.subrange(i, i + (a + b).len());
    assert(ba.subrange(i, i + a.len()) =~= whole.subrange(0, a.len() as int));
    assert(whole.subrange(0, a.len() as int) =~= a);
    assert(ba.subrange(i + a.len(), i + a.len() + b.len()) =~= whole.subrange(
        a.len() as int,
        (a + b).len() as int,
    ));
    assert(whole.subrange(a.len() as int, (a + b).len() as int) =~= b);
}

/// Four bytes written for a number below 2^32 are read back as that number.
pub proof fn lemma_read_u32(ba: Seq<u8>, i: int, n: int)
    requires
        0 <= n < 4294967296,
        holds_at(ba, i, le4(n)),
    ensures
        u32_at(ba, i) == n,
{
    lemma_le4_round_trip(n as u32);
    let part = ba.subrange(i, i + 4);
    assert(part[0] == ba[i] && part[1] == ba[i + 1] && part[2] == ba[i + 2] && part[3] == ba[i
        + 3]);
}

/// Four bytes written for a number with a sign are read back as that number.
pub proof fn lemma_read_i32(ba: Seq<u8>, i: int, n: i32)
    requires
        holds_at(ba, i, le4(n as int)),
    ensures
        i32_at(ba, i) == n,
{
    let u = (n as int) % 4294967296;
    assert(le4(n as int) == le4(u));
    lemma_read_u32(ba, i, u);
}

/// Eight bytes written for a number below 2^64 are read back as that number.
pub proof fn lemma_read_u64(ba: Seq<u8>, i: int, n: int)
    requires
        0 <= n < 18446744073709551616,
        holds_at(ba, i, le8(n)),
    ensures
        u64_at(ba, i) == n,
{
    lemma_le8_round_trip(n as u64);
    let part = ba.subrange(i, i + 8);
    assert forall|j: int| 0 <= j < 8 implies part[j] == ba[i + j] by {}
    assert(part[0] == ba[i] && part[1] == ba[i + 1] && part[2] == ba[i + 2] && part[3] == ba[i
        + 3]);
    assert(part[4] == ba[i + 4] && part[5] == ba[i + 5] && part[6] == ba[i + 6] && part[7] == ba[i
        + 7]);
}

/// Eight bytes written for a number with a sign are read back as that number.
pub proof fn lemma_read_i64(ba: Seq<u8>, i: int, n: i64)
    requires
        holds_at(ba, i, le8(n as int)),
    ensures
        i64_at(ba, i) == n,
{
    let u = if n < 0 {
        n + 18446744073709551616
    } else {
        n as int
    };
    assert(u % 4294967296 == (n as int) % 4294967296);
    assert((u / 4294967296) % 4294967296 == ((n as int) / 4294967296) % 4294967296);
    assert(le8(n as int) == le8(u));
    lemma_read_u64(ba, i, u);
}

/// A string written with a closing zero is read back, if it holds no zero
/// itself.
pub proof fn lemma_read_cstring(ba: Seq<u8>, i: int, s: Seq<char>)
    requires
        no_zero(encode_utf8(s)),
        holds_at(ba, i, cstring(s)),
    ensures
        parse_cstring(ba, i) == Ok::<(Seq<char>, int), crate::bson_read::Failure>(
            (s, i + cstring(s).len()),
        ),
{
    let bytes = encode_utf8(s);
    let j = i + bytes.len();
    lemma_holds_at_split(ba, i, bytes, seq![0u8]);
    assert(ba.subrange(j, j + 1)[0] == ba[j]);
    assert forall|k: int| i <= k < j implies ba[k] != 0 by {
        assert(ba.subrange(i, i + bytes.len())[k - i] == ba[k]);
    }
    lemma_first_zero_is(ba, i, j);
    encode_utf8_valid_utf8(s);
    encode_utf8_decode_utf8(s);
}

/// A string written behind its length is read back, if its length fits in
/// four bytes.
pub proof fn lemma_read_string(ba: Seq<u8>, i: int, s: Seq<char>)
    requires
        encode_utf8(s).len() + 1 < 4294967296,
        holds_at(ba, i, bson_string(s)),
    ensures
        parse_string(ba, i) == Ok::<(Seq<char>, int), crate::bson_read::Failure>(
            (s, i + bson_string(s).len()),
        ),
{
    let bytes = encode_utf8(s);
    let n = bytes.len() + 1;
    assert(bson_string(s) =~= le4(n as int) + (bytes + seq![0u8]));
    lemma_holds_at_split(ba, i, le4(n as int), bytes + seq![0u8]);
    lemma_read_u32(ba, i, n as int);
    lemma_holds_at_split(ba, i + 4, bytes, seq![0u8]);
    assert(ba.subrange(i + 4, i + 4 + n - 1) == bytes);
    encode_utf8_valid_utf8(s);
    encode_utf8_decode_utf8(s);
}

/// The digits of a number hold no zero byte and are UTF-8.
pub proof fn lemma_decimal(n: nat)
    ensures
        decimal(n).len() > 0,
        no_zero(decimal(n)),
        forall|i: int| 0 <= i < decimal(n).len() ==> 48 <= #[trigger] decimal(n)[i] <= 57,
    decreases n,
{
    if n >= 10 {
        lemma_decimal(n / 10);
    }
}

/// The characters that the digits of a number are.
pub open spec fn decimal_chars(n: nat) -> Seq<char> {
    Seq::new(decimal(n).len(), |i: int| decimal(n)[i] as char)
}

/// The digits of a number are the bytes of their characters.
pub proof fn lemma_decimal_chars(n: nat)
    ensures
        encode_utf8(decimal_chars(n)) == decimal(n),
{
    lemma_decimal(n);
    let chars = decimal_chars(n);
    assert forall|i: int| 0 <= i < chars.len() implies '\0' <= #[trigger] chars[i] <= '\u{7f}' by {
        assert(48 <= decimal(n)[i] <= 57);
    }
    assert(is_ascii_chars(chars));
    is_ascii_chars_encode_utf8(chars);
    assert forall|i: int| 0 <= i < chars.len() implies encode_utf8(chars)[i] == decimal(n)[i] by {
        assert(48 <= decimal(n)[i] <= 57);
        assert(chars[i] as u8 == encode_utf8(chars)[i]);
    }
    assert(encode_utf8(chars) =~= decimal(n));
}

/// The value is read back as it is written: its strings are short enough
/// for their lengths to be written, its keys hold no zero, its object ids have
/// twelve bytes, and it holds no code with scope.
pub open spec fn storable(v: Bson) -> bool
    decreases v,
{
    match v {
        Bson::String(s) => encode_utf8(s).len() + 1 < 4294967296,
        Bson::JSCode(s) => encode_utf8(s).len() + 1 < 4294967296,
        Bson::ObjectID(a) => a.len() == 12,
        Bson::Regex(e, o) => no_zero(encode_utf8(e)) && no_zero(encode_utf8(o)),
        Bson::JSCodeWithScope(_) => false,
        Bson::Binary(_, b) => b.len() < 4294967296,
        Bson::Array(items) => forall|i: int|
            0 <= i < items.len() ==> storable(#[trigger] items[i]),
        Bson::Document(pairs) => forall|i: int|
            0 <= i < pairs.len() ==> no_zero(encode_utf8((#[trigger] pairs[i]).0)) && storable(
                pairs[i].1,
            ),
        _ => true,
    }
}

/// The values of an array as the pairs that they are written as: each under
/// its position.
pub open spec fn keyed(items: Seq<Bson>) -> Seq<(Seq<char>, Bson)> {
    Seq::new(items.len(), |n: int| (decimal_chars(n as nat), items[n]))
}

/// The bytes of one pair.
pub open spec fn pair_bytes(p: (Seq<char>, Bson)) -> Seq<u8> {
    seq![type_number(p.1)] + cstring(p.0) + encode(p.1)
}

/// An array is written as the document of its values under their positions.
pub proof fn lemma_items_as_pairs(items: Seq<Bson>, n: nat)
    requires
        n <= items.len(),
    ensures
        encode_items(items, n) == encode_pairs(keyed(items), n),
    decreases n,
{
    if n > 0 {
        lemma_items_as_pairs(items, (n - 1) as nat);
        lemma_decimal_chars((n - 1) as nat);
        assert(keyed(items)[n - 1] == (decimal_chars((n - 1) as nat), items[n - 1]));
        assert(encode_items(items, n) =~= encode_pairs(keyed(items), n));
    }
}

/// Where the pairs of a document stand, the first `n` of them stand, and
/// behind them the next one.
pub proof fn lemma_prefix_holds(ba: Seq<u8>, base: int, pairs: Seq<(Seq<char>, Bson)>, n: nat)
    requires
        n <= pairs.len(),
        holds_at(ba, base, encode_pairs(pairs, pairs.len())),
    ensures
        holds_at(ba, base, encode_pairs(pairs, n)),
        n < pairs.len() ==> holds_at(
            ba,
            base + encode_pairs(pairs, n).len(),
            pair_bytes(pairs[n as int]),
        ) && encode_pairs(pairs, n + 1).len() == encode_pairs(pairs, n).len() + pair_bytes(
            pairs[n as int],
        ).len(),
    decreases pairs.len() - n,
{
    if n < pairs.len() {
        lemma_prefix_holds(ba, base, pairs, n + 1);
        assert(encode_pairs(pairs, n + 1) =~= encode_pairs(pairs, n) + pair_bytes(pairs[n as int]));
        lemma_holds_at_split(ba, base, encode_pairs(pairs, n), pair_bytes(pairs[n as int]));
    }
}

/// The pairs of a document that stand in `ba` are read back from the one with
/// number `k` on.
pub proof fn lemma_read_pairs(
    ba: Seq<u8>,
    base: int,
    pairs: Seq<(Seq<char>, Bson)>,
    k: nat,
    host: Bson,
)
    requires
        forall|i: int|
            0 <= i < pairs.len() ==> no_zero(encode_utf8((#[trigger] pairs[i]).0)) && storable(
                pairs[i].1,
            ) && decreases_to!(host => pairs[i].1),
        k <= pairs.len(),
        holds_at(ba, base, encode_pairs(pairs, pairs.len()) + seq![0u8]),
    ensures
        parse_pairs(ba, base + encode_pairs(pairs, k).len()) == Ok::<
            (Seq<(Seq<char>, Bson)>, int),
            crate::bson_read::Failure,
        >((pairs.subrange(k as int, pairs.len() as int), base + encode_pairs(pairs, pairs.len()).len() + 1)),
    decreases host, 0nat, pairs.len() - k,
{
    let body = encode_pairs(pairs, pairs.len());
    let end = base + body.len() + 1;
    lemma_holds_at_split(ba, base, body, seq![0u8]);
    lemma_prefix_holds(ba, base, pairs, k);
    let pos = base + encode_pairs(pairs, k).len();
    if k == pairs.len() {
        assert(ba.subrange(pos, pos + 1)[0] == ba[pos]);
        assert(pairs.subrange(k as int, pairs.len() as int) =~= Seq::empty());
    } else {
        let p = pairs[k as int];
        let t = type_number(p.1);
        assert(pair_bytes(p) =~= seq![t] + (cstring(p.0) + encode(p.1)));
        lemma_holds_at_split(ba, pos, seq![t], cstring(p.0) + encode(p.1));
        assert(ba.subrange(pos, pos + 1)[0] == ba[pos]);
        assert(ba[pos] == t);
        lemma_holds_at_split(ba, pos + 1, cstring(p.0), encode(p.1));
        lemma_read_cstring(ba, pos + 1, p.0);
        let j = pos + 1 + cstring(p.0).len();
        lemma_read_value(ba, j, p.1);
        let next = j + encode(p.1).len();
        assert(next == base + encode_pairs(pairs, k + 1).len());
        lemma_read_pairs(ba, base, pairs, k + 1, host);
        assert(seq![p] + pairs.subrange((k + 1) as int, pairs.len() as int) =~= pairs.subrange(
            k as int,
            pairs.len() as int,
        ));
    }
}

/// A number that stands in `ba` is read back from there.
proof fn lemma_read_number(ba: Seq<u8>, i: int, v: Bson)
    requires
        v is Double || v is Int64 || v is Int32 || v is DateTime || v is TimeStamp,
        holds_at(ba, i, encode(v)),
    ensures
        parse_value(ba, i, type_number(v)) == Ok::<(Bson, int), crate::bson_read::Failure>(
            (v, i + encode(v).len()),
        ),
{
    match v {
        Bson::Double(bits) => {
            lemma_read_u64(ba, i, bits as int);
        },
        Bson::Int64(n) => {
            lemma_read_i64(ba, i, n);
        },
        Bson::Int32(n) => {
            lemma_read_i32(ba, i, n);
        },
        Bson::DateTime(n) => {
            lemma_read_i64(ba, i, n);
        },
        Bson::TimeStamp(n) => {
            lemma_read_i64(ba, i, n);
        },
        _ => {},
    }
}

/// A string, code or regular expression that stands in `ba` is read back from
/// there.
proof fn lemma_read_text(ba: Seq<u8>, i: int, v: Bson)
    requires
        v is String || v is JSCode || v is Regex,
        storable(v),
        holds_at(ba, i, encode(v)),
    ensures
        parse_value(ba, i, type_number(v)) == Ok::<(Bson, int), crate::bson_read::Failure>(
            (v, i + encode(v).len()),
        ),
{
    match v {
        Bson::String(s) => {
            lemma_read_string(ba, i, s);
        },
        Bson::JSCode(s) => {
            lemma_read_string(ba, i, s);
        },
        Bson::Regex(e, o) => {
            lemma_holds_at_split(ba, i, cstring(e), cstring(o));
            lemma_read_cstring(ba, i, e);
            lemma_read_cstring(ba, i + cstring(e).len(), o);
        },
        _ => {},
    }
}

/// Bytes, an object id or a truth value that stands in `ba` is read back from
/// there.
proof fn lemma_read_bytes(ba: Seq<u8>, i: int, v: Bson)
    requires
        v is Binary || v is ObjectID || v is Boolean,
        storable(v),
        holds_at(ba, i, encode(v)),
    ensures
        parse_value(ba, i, type_number(v)) == Ok::<(Bson, int), crate::bson_read::Failure>(
            (v, i + encode(v).len()),
        ),
{
    match v {
        Bson::Binary(subtype, b) => {
            assert(encode(v) =~= le4(b.len() as int) + (seq![subtype] + b));
            lemma_holds_at_split(ba, i, le4(b.len() as int), seq![subtype] + b);
            lemma_read_u32(ba, i, b.len() as int);
            lemma_holds_at_split(ba, i + 4, seq![subtype], b);
            assert(ba.subrange(i + 4, i + 5)[0] == ba[i + 4]);
        },
        Bson::ObjectID(a) => {},
        Bson::Boolean(b) => {
            assert(ba.subrange(i, i + 1)[0] == ba[i]);
        },
        _ => {},
    }
}

/// A value without bytes of its own is read back.
proof fn lemma_read_mark(ba: Seq<u8>, i: int, v: Bson)
    requires
        v is Undefined || v is Null || v is MinKey || v is MaxKey,
        holds_at(ba, i, encode(v)),
    ensures
        parse_value(ba, i, type_number(v)) == Ok::<(Bson, int), crate::bson_read::Failure>(
            (v, i + encode(v).len()),
        ),
{
}

/// An array that stands in `ba` is read back from there.
proof fn lemma_read_array(ba: Seq<u8>, i: int, v: Bson)
    requires
        v is Array,
        storable(v),
        holds_at(ba, i, encode(v)),
    ensures
        parse_value(ba, i, type_number(v)) == Ok::<(Bson, int), crate::bson_read::Failure>(
            (v, i + encode(v).len()),
        ),
    decreases v, 1nat, 0nat,
{
    let items = v->Array_0;
    let pairs = keyed(items);
    let body = encode_items(items, items.len());
    lemma_items_as_pairs(items, items.len());
    assert(encode(v) =~= le4((body.len() + 5) as int) + (body + seq![0u8]));
    lemma_holds_at_split(ba, i, le4((body.len() + 5) as int), body + seq![0u8]);
    assert forall|n: int| 0 <= n < pairs.len() implies no_zero(
        encode_utf8((#[trigger] pairs[n]).0),
    ) && storable(pairs[n].1) && decreases_to!(v => pairs[n].1) by {
        lemma_decimal_chars(n as nat);
        lemma_decimal(n as nat);
        assert(pairs[n].1 == items[n]);
    }
    lemma_read_pairs(ba, i + 4, pairs, 0, v);
    assert(pairs.subrange(0, pairs.len() as int) =~= pairs);
    assert(Seq::new(pairs.len(), |n: int| pairs[n].1) =~= items);
}

/// A document that stands in `ba` is read back from there.
proof fn lemma_read_document(ba: Seq<u8>, i: int, v: Bson)
    requires
        v is Document,
        storable(v),
        holds_at(ba, i, encode(v)),
    ensures
        parse_value(ba, i, type_number(v)) == Ok::<(Bson, int), crate::bson_read::Failure>(
            (v, i + encode(v).len()),
        ),
    decreases v, 1nat, 0nat,
{
    let pairs = v->Document_0;
    let body = encode_pairs(pairs, pairs.len());
    assert(encode(v) =~= le4((body.len() + 5) as int) + (body + seq![0u8]));
    lemma_holds_at_split(ba, i, le4((body.len() + 5) as int), body + seq![0u8]);
    assert forall|n: int| 0 <= n < pairs.len() implies no_zero(
        encode_utf8((#[trigger] pairs[n]).0),
    ) && storable(pairs[n].1) && decreases_to!(v => pairs[n].1) by {}
    lemma_read_pairs(ba, i + 4, pairs, 0, v);
    assert(pairs.subrange(0, pairs.len() as int) =~= pairs);
}

/// A value that stands in `ba` is read back from there.
pub proof fn lemma_read_value(ba: Seq<u8>, i: int, v: Bson)
    requires
        storable(v),
        holds_at(ba, i, encode(v)),
    ensures
        parse_value(ba, i, type_number(v)) == Ok::<(Bson, int), crate::bson_read::Failure>(
            (v, i + encode(v).len()),
        ),
    decreases v, 2nat, 0nat,
{
    if v is Array {
        lemma_read_array(ba, i, v);
    } else if v is Document {
        lemma_read_document(ba, i, v);
    } else if v is Double || v is Int64 || v is Int32 || v is DateTime || v is TimeStamp {
        lemma_read_number(ba, i, v);
    } else if v is String || v is JSCode || v is Regex {
        lemma_read_text(ba, i, v);
    } else if v is Binary || v is ObjectID || v is Boolean {
        lemma_read_bytes(ba, i, v);
    } else if v is JSCodeWithScope {
    } else {
        lemma_read_mark(ba, i, v);
    }
}

/// Writing and reading undo each other. A document that can be stored,
/// written and followed by any bytes, is read back as it was, and the reader
/// stops right behind it.
pub proof fn law_written_is_read_back(doc: Bson, rest: Seq<u8>)
    requires
        doc is Document,
        storable(doc),
    ensures
        parse_document(encode(doc) + rest, 0) == Ok::<(Bson, int), crate::bson_read::Failure>(
            (doc, encode(doc).len() as int),
        ),
{
    let ba = encode(doc) + rest;
    assert(ba.subrange(0, encode(doc).len() as int) =~= encode(doc));
    lemma_read_value(ba, 0, doc);
}

} // verus!
