//! Reading a document from bytes.
//!
//! The grammar is stated as spec functions from the bytes and a position to
//! the value read and the position behind it, or to the reason why nothing can
//! be read there. The lengths that the format carries in front of documents
//! are passed over: a document ends at its closing zero byte.
use vstd::prelude::*;
use vstd::slice::slice_subrange;
use vstd::utf8::{decode_utf8, encode_utf8, encode_utf8_decode_utf8, valid_utf8};
use crate::blob::copy_bytes;
use crate::bson_write::box_bytes;
use crate::bson::{lemma_view_of_lists, pair_models, Bson, BsonError, BsonValue};
use crate::endian::{
    i32_at, i64_at, slurp_i32_le, slurp_i64_le, slurp_u32_le, slurp_u64_le, u32_at, u64_at,
};

verus! {

/// Why bytes are no document.
pub enum Failure {
    /// The bytes end before the value does.
    Truncated,
    /// A string is no UTF-8.
    BadUtf8,
    /// The number of a kind is none that the format knows.
    BadType,
}

/// The position of the first zero byte at or behind `i`, or the length of the
/// bytes if there is none.
pub open spec fn first_zero(ba: Seq<u8>, i: int) -> int
    decreases ba.len() - i,
{
    if i < 0 || i >= ba.len() {
        ba.len() as int
    } else if ba[i] == 0 {
        i
    } else {
        first_zero(ba, i + 1)
    }
}

/// A string that ends at the next zero byte.
pub open spec fn parse_cstring(ba: Seq<u8>, i: int) -> Result<(Seq<char>, int), Failure> {
    let j = first_zero(ba, i);
    if i < 0 || j >= ba.len() {
        Err(Failure::Truncated)
    } else if !valid_utf8(ba.subrange(i, j)) {
        Err(Failure::BadUtf8)
    } else {
        Ok((decode_utf8(ba.subrange(i, j)), j + 1))
    }
}

/// A string behind its length, which counts a closing byte. That byte is
/// passed over, whatever it is.
pub open spec fn parse_string(ba: Seq<u8>, i: int) -> Result<(Seq<char>, int), Failure> {
    if i < 0 || i + 4 > ba.len() {
        Err(Failure::Truncated)
    } else {
        let len = u32_at(ba, i);
        if len < 1 || i + 4 + len > ba.len() {
            Err(Failure::Truncated)
        } else if !valid_utf8(ba.subrange(i + 4, i + 4 + len - 1)) {
            Err(Failure::BadUtf8)
        } else {
            Ok((decode_utf8(ba.subrange(i + 4, i + 4 + len - 1)), i + 4 + len))
        }
    }
}

/// Bytes behind their length and a byte for their subtype.
pub open spec fn parse_binary(ba: Seq<u8>, i: int) -> Result<(Bson, int), Failure> {
    if i < 0 || i + 5 > ba.len() {
        Err(Failure::Truncated)
    } else {
        let len = u32_at(ba, i);
        if i + 5 + len > ba.len() {
            Err(Failure::Truncated)
        } else {
            Ok((Bson::Binary(ba[i + 4], ba.subrange(i + 5, i + 5 + len)), i + 5 + len))
        }
    }
}

/// Twelve bytes.
pub open spec fn parse_objectid(ba: Seq<u8>, i: int) -> Result<(Bson, int), Failure> {
    if i < 0 || i + 12 > ba.len() {
        Err(Failure::Truncated)
    } else {
        Ok((Bson::ObjectID(ba.subrange(i, i + 12)), i + 12))
    }
}

/// One byte: zero for false, anything else for true.
pub open spec fn parse_boolean(ba: Seq<u8>, i: int) -> Result<(Bson, int), Failure> {
    if i < 0 || i + 1 > ba.len() {
        Err(Failure::Truncated)
    } else {
        Ok((Bson::Boolean(ba[i] != 0), i + 1))
    }
}

/// Two strings, each with a closing zero: the expression and its options.
pub open spec fn parse_regex(ba: Seq<u8>, i: int) -> Result<(Bson, int), Failure> {
    match parse_cstring(ba, i) {
        Err(f) => Err(f),
        Ok((expr, j)) => match parse_cstring(ba, j) {
            Err(f) => Err(f),
            Ok((options, k)) => Ok((Bson::Regex(expr, options), k)),
        },
    }
}

/// The outdated kind of reference: a string, which is dropped, and twelve
/// bytes, which are kept.
pub open spec fn parse_deprecated_12(ba: Seq<u8>, i: int) -> Result<(Bson, int), Failure> {
    match parse_string(ba, i) {
        Err(f) => Err(f),
        Ok((_, j)) => parse_objectid(ba, j),
    }
}

/// Code.
pub open spec fn parse_js(ba: Seq<u8>, i: int) -> Result<(Bson, int), Failure> {
    match parse_string(ba, i) {
        Err(f) => Err(f),
        Ok((code, j)) => Ok((Bson::JSCode(code), j)),
    }
}

/// Eight bytes as a number with a sign.
pub open spec fn parse_i64(ba: Seq<u8>, i: int) -> Result<(i64, int), Failure> {
    if i < 0 || i + 8 > ba.len() {
        Err(Failure::Truncated)
    } else {
        Ok((i64_at(ba, i) as i64, i + 8))
    }
}

/// A value of the kind that `t` names.
pub open spec fn parse_value(ba: Seq<u8>, i: int, t: u8) -> Result<(Bson, int), Failure>
    decreases ba.len() - i, 2int,
{
    if i < 0 || i > ba.len() {
        Err(Failure::Truncated)
    } else if t == 1 {
        if i + 8 > ba.len() {
            Err(Failure::Truncated)
        } else {
            Ok((Bson::Double(u64_at(ba, i) as u64), i + 8))
        }
    } else if t == 2 {
        match parse_string(ba, i) {
            Err(f) => Err(f),
            Ok((s, j)) => Ok((Bson::String(s), j)),
        }
    } else if t == 3 {
        match parse_document_pairs(ba, i) {
            Err(f) => Err(f),
            Ok((pairs, j)) => Ok((Bson::Document(pairs), j)),
        }
    } else if t == 4 {
        match parse_document_pairs(ba, i) {
            Err(f) => Err(f),
            Ok((pairs, j)) => Ok((Bson::Array(Seq::new(pairs.len(), |n: int| pairs[n].1)), j)),
        }
    } else if t == 5 {
        parse_binary(ba, i)
    } else if t == 6 {
        Ok((Bson::Undefined, i))
    } else if t == 7 {
        parse_objectid(ba, i)
    } else if t == 8 {
        parse_boolean(ba, i)
    } else if t == 9 {
        match parse_i64(ba, i) {
            Err(f) => Err(f),
            Ok((n, j)) => Ok((Bson::DateTime(n), j)),
        }
    } else if t == 10 {
        Ok((Bson::Null, i))
    } else if t == 11 {
        parse_regex(ba, i)
    } else if t == 12 {
        parse_deprecated_12(ba, i)
    } else if t == 13 {
        parse_js(ba, i)
    } else if t == 15 {
        // a length, the code, and its scope, which is read and dropped
        if i + 4 > ba.len() {
            Err(Failure::Truncated)
        } else {
            match parse_string(ba, i + 4) {
                Err(f) => Err(f),
                Ok((code, j)) => if j <= i {
                    Err(Failure::Truncated)
                } else {
                    match parse_document_pairs(ba, j) {
                        Err(f) => Err(f),
                        Ok((_, k)) => Ok((Bson::JSCodeWithScope(code), k)),
                    }
                },
            }
        }
    } else if t == 16 {
        if i + 4 > ba.len() {
            Err(Failure::Truncated)
        } else {
            Ok((Bson::Int32(i32_at(ba, i) as i32), i + 4))
        }
    } else if t == 17 {
        match parse_i64(ba, i) {
            Err(f) => Err(f),
            Ok((n, j)) => Ok((Bson::TimeStamp(n), j)),
        }
    } else if t == 18 {
        match parse_i64(ba, i) {
            Err(f) => Err(f),
            Ok((n, j)) => Ok((Bson::Int64(n), j)),
        }
    } else if t == 127 {
        Ok((Bson::MaxKey, i))
    } else if t == 255 {
        Ok((Bson::MinKey, i))
    } else {
        Err(Failure::BadType)
    }
}

/// The pairs of a document: four bytes of length, which are passed over, then
/// pairs up to the closing zero byte.
pub open spec fn parse_document_pairs(ba: Seq<u8>, i: int) -> Result<
    (Seq<(Seq<char>, Bson)>, int),
    Failure,
>
    decreases ba.len() - i, 1int,
{
    if i < 0 || i + 4 > ba.len() {
        Err(Failure::Truncated)
    } else {
        parse_pairs(ba, i + 4)
    }
}

/// Pairs up to the closing zero byte: each is the number of the value's kind,
/// the key with a closing zero, and the value.
pub open spec fn parse_pairs(ba: Seq<u8>, i: int) -> Result<(Seq<(Seq<char>, Bson)>, int), Failure>
    decreases ba.len() - i, 0int,
{
    if i < 0 || i >= ba.len() {
        Err(Failure::Truncated)
    } else if ba[i] == 0 {
        Ok((Seq::empty(), i + 1))
    } else {
        match parse_cstring(ba, i + 1) {
            Err(f) => Err(f),
            Ok((key, j)) => if j <= i {
                Err(Failure::Truncated)
            } else {
                match parse_value(ba, j, ba[i]) {
                    Err(f) => Err(f),
                    Ok((value, k)) => if k < j || k > ba.len() {
                        Err(Failure::Truncated)
                    } else {
                        match parse_pairs(ba, k) {
                            Err(f) => Err(f),
                            Ok((rest, end)) => Ok((seq![(key, value)] + rest, end)),
                        }
                    },
                }
            },
        }
    }
}

/// A document.
pub open spec fn parse_document(ba: Seq<u8>, i: int) -> Result<(Bson, int), Failure> {
    parse_value(ba, i, 3)
}

/// An array: a document whose values are kept and whose keys are dropped.
pub open spec fn parse_array(ba: Seq<u8>, i: int) -> Result<(Bson, int), Failure> {
    parse_value(ba, i, 4)
}

/// The error that reports a failure.
pub open spec fn reports(e: BsonError, f: Failure) -> bool {
    match f {
        Failure::Truncated => e matches BsonError::CorruptFile(m) && m@ == "unexpected end of BSON data"@,
        Failure::BadType => e matches BsonError::CorruptFile(m) && m@ == "invalid BSON value type"@,
        Failure::BadUtf8 => e is Utf8,
    }
}

/// What a reader returns and where it leaves the position, given what the
/// grammar says of the bytes.
pub open spec fn reads_as<T: View>(
    r: Result<T, BsonError>,
    end: usize,
    parsed: Result<(T::V, int), Failure>,
) -> bool {
    match parsed {
        Ok((v, j)) => r matches Ok(x) && x@ == v && end == j,
        Err(f) => r matches Err(e) && reports(e, f),
    }
}

/// Pairs read so far, followed by what the grammar says of the rest.
pub open spec fn extended(
    prefix: Seq<(Seq<char>, Bson)>,
    rest: Result<(Seq<(Seq<char>, Bson)>, int), Failure>,
) -> Result<(Seq<(Seq<char>, Bson)>, int), Failure> {
    match rest {
        Ok((pairs, end)) => Ok((prefix + pairs, end)),
        Err(f) => Err(f),
    }
}

/// The first zero byte at or behind `i` is at `j`, if no byte in between is
/// zero and `j` is a zero byte or the end.
pub proof fn lemma_first_zero_is(ba: Seq<u8>, i: int, j: int)
    requires
        0 <= i <= j <= ba.len(),
        forall|k: int| i <= k < j ==> ba[k] != 0,
        j == ba.len() || ba[j] == 0,
    ensures
        first_zero(ba, i) == j,
    decreases j - i,
{
    if i < j {
        lemma_first_zero_is(ba, i + 1, j);
    }
}

/// Calls `std::str::from_utf8` and copies the string it gives. The bytes are
/// accepted exactly if they are UTF-8, and the string then has those bytes.
#[verifier::external_body]
fn utf8_to_string(bytes: &[u8]) -> (r: Result<String, std::str::Utf8Error>)
    ensures
        r is Ok <==> valid_utf8(bytes@),
        r matches Ok(s) ==> encode_utf8(s@) == bytes@,
{
    match std::str::from_utf8(bytes) {
        Ok(s) => Ok(s.to_string()),
        Err(e) => Err(e),
    }
}

/// The error for bytes that end too early.
pub fn truncated() -> (e: BsonError)
    ensures
        reports(e, Failure::Truncated),
{
    BsonError::CorruptFile("unexpected end of BSON data")
}

/// The string that the bytes encode.
fn decode_string(bytes: &[u8]) -> (r: Result<String, BsonError>)
    ensures
        match r {
            Ok(s) => valid_utf8(bytes@) && s@ == decode_utf8(bytes@),
            Err(e) => !valid_utf8(bytes@) && reports(e, Failure::BadUtf8),
        },
{
    match utf8_to_string(bytes) {
        Ok(s) => {
            proof {
                encode_utf8_decode_utf8(s@);
            }
            Ok(s)
        },
        Err(e) => Err(BsonError::Utf8(e)),
    }
}

/// Reads a string that ends at the next zero byte, and moves `*i` behind that
/// byte.
pub fn slurp_cstring(ba: &[u8], i: &mut usize) -> (r: Result<String, BsonError>)
    ensures
        reads_as(r, *final(i), parse_cstring(ba@, *old(i) as int)),
        r is Ok ==> *old(i) < *final(i) <= ba@.len(),
{
    let start = *i;
    if start > ba.len() {
        return Err(truncated());
    }
    let mut j = start;
    while j < ba.len() && ba[j] != 0
        invariant
            start <= j <= ba.len(),
            forall|k: int| start <= k < j ==> ba@[k] != 0,
        decreases ba.len() - j,
    {
        j += 1;
    }
    proof {
        lemma_first_zero_is(ba@, start as int, j as int);
    }
    if j >= ba.len() {
        return Err(truncated());
    }
    match decode_string(slice_subrange(ba, start, j)) {
        Ok(s) => {
            *i = j + 1;
            Ok(s)
        },
        Err(e) => Err(e),
    }
}

/// Reads a string behind its length, and moves `*i` behind its closing byte.
pub fn slurp_bson_string(ba: &[u8], i: &mut usize) -> (r: Result<String, BsonError>)
    ensures
        reads_as(r, *final(i), parse_string(ba@, *old(i) as int)),
        r is Ok ==> *old(i) < *final(i) <= ba@.len(),
{
    if *i > ba.len() || ba.len() - *i < 4 {
        return Err(truncated());
    }
    let len = slurp_u32_le(ba, i) as usize;
    if len < 1 || ba.len() - *i < len {
        return Err(truncated());
    }
    let start = *i;
    match decode_string(slice_subrange(ba, start, start + len - 1)) {
        Ok(s) => {
            *i = start + len;
            Ok(s)
        },
        Err(e) => Err(e),
    }
}

/// Reads bytes behind their length and subtype.
fn slurp_binary(ba: &[u8], i: &mut usize) -> (r: Result<BsonValue, BsonError>)
    ensures
        reads_as(r, *final(i), parse_binary(ba@, *old(i) as int)),
        r is Ok ==> *old(i) < *final(i) <= ba@.len(),
{
    if *i > ba.len() || ba.len() - *i < 5 {
        return Err(truncated());
    }
    let len = slurp_u32_le(ba, i) as usize;
    let subtype = ba[*i];
    *i = *i + 1;
    if ba.len() - *i < len {
        return Err(truncated());
    }
    let start = *i;
    let b = copy_bytes(slice_subrange(ba, start, start + len));
    *i = start + len;
    Ok(BsonValue::BBinary(subtype, box_bytes(b)))
}

/// Reads twelve bytes.
fn slurp_objectid(ba: &[u8], i: &mut usize) -> (r: Result<BsonValue, BsonError>)
    ensures
        reads_as(r, *final(i), parse_objectid(ba@, *old(i) as int)),
        r is Ok ==> *old(i) < *final(i) <= ba@.len(),
{
    if *i > ba.len() || ba.len() - *i < 12 {
        return Err(truncated());
    }
    let at = *i;
    let b: [u8; 12] = [
        ba[at],
        ba[at + 1],
        ba[at + 2],
        ba[at + 3],
        ba[at + 4],
        ba[at + 5],
        ba[at + 6],
        ba[at + 7],
        ba[at + 8],
        ba[at + 9],
        ba[at + 10],
        ba[at + 11],
    ];
    assert(b@ =~= ba@.subrange(at as int, at + 12));
    *i = at + 12;
    Ok(BsonValue::BObjectID(b))
}

/// Reads one byte as a truth value.
fn slurp_boolean(ba: &[u8], i: &mut usize) -> (r: Result<BsonValue, BsonError>)
    ensures
        reads_as(r, *final(i), parse_boolean(ba@, *old(i) as int)),
        r is Ok ==> *old(i) < *final(i) <= ba@.len(),
{
    if *i >= ba.len() {
        return Err(truncated());
    }
    let b = ba[*i] != 0;
    *i = *i + 1;
    Ok(BsonValue::BBoolean(b))
}

/// Reads an expression and its options.
fn slurp_regex(ba: &[u8], i: &mut usize) -> (r: Result<BsonValue, BsonError>)
    ensures
        reads_as(r, *final(i), parse_regex(ba@, *old(i) as int)),
        r is Ok ==> *old(i) < *final(i) <= ba@.len(),
{
    let expr = match slurp_cstring(ba, i) {
        Ok(s) => s,
        Err(e) => {
            return Err(e);
        },
    };
    let options = match slurp_cstring(ba, i) {
        Ok(s) => s,
        Err(e) => {
            return Err(e);
        },
    };
    Ok(BsonValue::BRegex(expr, options))
}

/// Reads the outdated kind of reference: a string, which is dropped, and
/// twelve bytes.
fn slurp_deprecated_12(ba: &[u8], i: &mut usize) -> (r: Result<BsonValue, BsonError>)
    ensures
        reads_as(r, *final(i), parse_deprecated_12(ba@, *old(i) as int)),
        r is Ok ==> *old(i) < *final(i) <= ba@.len(),
{
    match slurp_bson_string(ba, i) {
        Ok(_) => slurp_objectid(ba, i),
        Err(e) => Err(e),
    }
}

/// Reads code.
fn slurp_js(ba: &[u8], i: &mut usize) -> (r: Result<BsonValue, BsonError>)
    ensures
        reads_as(r, *final(i), parse_js(ba@, *old(i) as int)),
        r is Ok ==> *old(i) < *final(i) <= ba@.len(),
{
    match slurp_bson_string(ba, i) {
        Ok(a) => Ok(BsonValue::BJSCode(a)),
        Err(e) => Err(e),
    }
}

/// Reads eight bytes as a number with a sign.
fn slurp_i64(ba: &[u8], i: &mut usize) -> (r: Result<i64, BsonError>)
    ensures
        match parse_i64(ba@, *old(i) as int) {
            Ok((n, j)) => r == Ok::<i64, BsonError>(n) && *final(i) == j,
            Err(f) => r matches Err(e) && reports(e, f),
        },
        r is Ok ==> *old(i) < *final(i) <= ba@.len(),
{
    if *i > ba.len() || ba.len() - *i < 8 {
        return Err(truncated());
    }
    Ok(slurp_i64_le(ba, i))
}

/// The values of the pairs, in order; the keys are dropped.
fn values_of(pairs: Vec<(String, BsonValue)>) -> (r: Vec<BsonValue>)
    ensures
        r@.len() == pairs@.len(),
        forall|n: int| 0 <= n < r@.len() ==> (#[trigger] r@[n])@ == pairs@[n].1@,
{
    let ghost given = pairs@;
    let mut rest = pairs;
    let mut turned: Vec<BsonValue> = Vec::new();
    // the pairs are taken from the back, so the values come out turned round
    while rest.len() > 0
        invariant
            rest@.len() + turned@.len() == given.len(),
            forall|n: int| 0 <= n < rest@.len() ==> rest@[n] == given[n],
            forall|n: int|
                0 <= n < turned@.len() ==> (#[trigger] turned@[n]) == given[given.len() - 1 - n].1,
        decreases rest@.len(),
    {
        let p = rest.pop().unwrap();
        turned.push(p.1);
    }
    let ghost mirror = turned@;
    let mut r: Vec<BsonValue> = Vec::new();
    while turned.len() > 0
        invariant
            mirror.len() == given.len(),
            turned@.len() + r@.len() == given.len(),
            forall|n: int| 0 <= n < mirror.len() ==> (#[trigger] mirror[n]) == given[given.len() - 1 - n].1,
            forall|n: int| 0 <= n < turned@.len() ==> turned@[n] == mirror[n],
            forall|n: int| 0 <= n < r@.len() ==> (#[trigger] r@[n]) == given[n].1,
        decreases turned@.len(),
    {
        let ghost last = turned@.len() - 1;
        assert(turned@[last] == mirror[last]);
        assert(mirror[last] == given[given.len() - 1 - last].1);
        let v = turned.pop().unwrap();
        r.push(v);
    }
    r
}

/// Reads a value of the kind that `valtype` names, and moves `*i` behind it.
fn slurp_bson_value(ba: &[u8], i: &mut usize, valtype: u8) -> (r: Result<BsonValue, BsonError>)
    ensures
        reads_as(r, *final(i), parse_value(ba@, *old(i) as int, valtype)),
        r is Ok ==> *old(i) <= *final(i) <= ba@.len(),
    decreases ba@.len() - *old(i), 3int,
{
    if *i > ba.len() {
        return Err(truncated());
    }
    match valtype {
        1 => {
            if ba.len() - *i < 8 {
                return Err(truncated());
            }
            Ok(BsonValue::BDouble(slurp_u64_le(ba, i)))
        },
        2 => match slurp_bson_string(ba, i) {
            Ok(s) => Ok(BsonValue::BString(s)),
            Err(e) => Err(e),
        },
        3 => slurp_document(ba, i),
        4 => slurp_array(ba, i),
        5 => slurp_binary(ba, i),
        6 => Ok(BsonValue::BUndefined),
        7 => slurp_objectid(ba, i),
        8 => slurp_boolean(ba, i),
        9 => match slurp_i64(ba, i) {
            Ok(n) => Ok(BsonValue::BDateTime(n)),
            Err(e) => Err(e),
        },
        10 => Ok(BsonValue::BNull),
        11 => slurp_regex(ba, i),
        12 => slurp_deprecated_12(ba, i),
        13 => slurp_js(ba, i),
        15 => slurp_js_with_scope(ba, i),
        16 => {
            if ba.len() - *i < 4 {
                return Err(truncated());
            }
            Ok(BsonValue::BInt32(slurp_i32_le(ba, i)))
        },
        17 => match slurp_i64(ba, i) {
            Ok(n) => Ok(BsonValue::BTimeStamp(n)),
            Err(e) => Err(e),
        },
        18 => match slurp_i64(ba, i) {
            Ok(n) => Ok(BsonValue::BInt64(n)),
            Err(e) => Err(e),
        },
        127 => Ok(BsonValue::BMaxKey),
        255 => Ok(BsonValue::BMinKey),
        _ => Err(BsonError::CorruptFile("invalid BSON value type")),
    }
}

/// Reads code with its scope: a length, the code, and the scope, which is read
/// and dropped.
fn slurp_js_with_scope(ba: &[u8], i: &mut usize) -> (r: Result<BsonValue, BsonError>)
    ensures
        reads_as(r, *final(i), parse_value(ba@, *old(i) as int, 15)),
        r is Ok ==> *old(i) <= *final(i) <= ba@.len(),
    decreases ba@.len() - *old(i), 2int,
{
    if *i > ba.len() || ba.len() - *i < 4 {
        return Err(truncated());
    }
    let _len = slurp_u32_le(ba, i);
    let a = match slurp_bson_string(ba, i) {
        Ok(a) => a,
        Err(e) => {
            return Err(e);
        },
    };
    match slurp_document(ba, i) {
        Ok(_) => Ok(BsonValue::BJSCodeWithScope(a)),
        Err(e) => Err(e),
    }
}

/// Reads the pairs of a document, and moves `*i` behind its closing zero byte.
fn slurp_document_pairs(ba: &[u8], i: &mut usize) -> (r: Result<Vec<(String, BsonValue)>, BsonError>)
    ensures
        match parse_document_pairs(ba@, *old(i) as int) {
            Ok((pairs, j)) => r matches Ok(p) && pair_models(p@) == pairs && *final(i) == j,
            Err(f) => r matches Err(e) && reports(e, f),
        },
        r is Ok ==> *old(i) < *final(i) <= ba@.len(),
    decreases ba@.len() - *old(i), 1int,
{
    if *i > ba.len() || ba.len() - *i < 4 {
        return Err(truncated());
    }
    // the length is read and not used: the document ends at its zero byte
    let _len = slurp_u32_le(ba, i);
    let ghost first = *i as int;
    let mut pairs: Vec<(String, BsonValue)> = Vec::new();
    proof {
        assert(pair_models(pairs@) =~= Seq::empty());
        assert(extended(Seq::empty(), parse_pairs(ba@, first)) == parse_pairs(ba@, first)) by {
            match parse_pairs(ba@, first) {
                Ok((rest, end)) => {
                    assert(Seq::<(Seq<char>, Bson)>::empty() + rest =~= rest);
                },
                Err(_) => {},
            }
        }
    }
    loop
        invariant
            first == *old(i) + 4,
            first <= *i <= ba@.len(),
            extended(pair_models(pairs@), parse_pairs(ba@, *i as int)) == parse_pairs(ba@, first),
        decreases ba@.len() - *i,
    {
        if *i >= ba.len() {
            return Err(truncated());
        }
        let valtype = ba[*i];
        let ghost at = *i as int;
        let ghost so_far = pair_models(pairs@);
        *i = *i + 1;
        if valtype == 0 {
            proof {
                assert(so_far + Seq::<(Seq<char>, Bson)>::empty() =~= so_far);
            }
            return Ok(pairs);
        }
        let k = match slurp_cstring(ba, i) {
            Ok(k) => k,
            Err(e) => {
                return Err(e);
            },
        };
        let ghost after_key = *i as int;
        let v = match slurp_bson_value(ba, i, valtype) {
            Ok(v) => v,
            Err(e) => {
                return Err(e);
            },
        };
        proof {
            let rest = parse_pairs(ba@, *i as int);
            assert(parse_pairs(ba@, at) == extended(seq![(k@, v@)], rest)) by {
                match rest {
                    Ok((more, end)) => {},
                    Err(_) => {},
                }
            }
            match rest {
                Ok((more, end)) => {
                    assert(so_far.push((k@, v@)) + more =~= so_far + (seq![(k@, v@)] + more));
                },
                Err(_) => {},
            }
        }
        pairs.push((k, v));
        proof {
            assert(pair_models(pairs@) =~= so_far.push((k@, v@)));
        }
    }
}

/// Reads a document, and moves `*i` behind its closing zero byte. The bytes
/// must hold a document at `*i` as the grammar describes it; where they end too
/// early, name an unknown kind of value or hold a string that is no UTF-8, the
/// error says so.
pub fn slurp_document(ba: &[u8], i: &mut usize) -> (r: Result<BsonValue, BsonError>)
    ensures
        reads_as(r, *final(i), parse_document(ba@, *old(i) as int)),
        r is Ok ==> *old(i) < *final(i) <= ba@.len(),
    decreases ba@.len() - *old(i), 2int,
{
    match slurp_document_pairs(ba, i) {
        Ok(pairs) => {
            let d = BsonValue::BDocument(pairs);
            proof {
                lemma_view_of_lists(d);
            }
            Ok(d)
        },
        Err(e) => Err(e),
    }
}

/// Reads an array: a document whose values are kept and whose keys are
/// dropped.
fn slurp_array(ba: &[u8], i: &mut usize) -> (r: Result<BsonValue, BsonError>)
    ensures
        reads_as(r, *final(i), parse_array(ba@, *old(i) as int)),
        r is Ok ==> *old(i) < *final(i) <= ba@.len(),
    decreases ba@.len() - *old(i), 2int,
{
    match slurp_document_pairs(ba, i) {
        Ok(pairs) => {
            let ghost pm = pair_models(pairs@);
            let a = BsonValue::BArray(values_of(pairs));
            proof {
                lemma_view_of_lists(a);
                assert(a@->Array_0 =~= Seq::new(pm.len(), |n: int| pm[n].1));
            }
            Ok(a)
        },
        Err(e) => Err(e),
    }
}

impl BsonValue {
    /// Reads the document that the bytes begin with.
    pub fn from_bson(w: &[u8]) -> (r: Result<BsonValue, BsonError>)
        ensures
            match parse_document(w@, 0) {
                Ok((v, _)) => r matches Ok(x) && x@ == v,
                Err(f) => r matches Err(e) && reports(e, f),
            },
    {
        let mut cur: usize = 0;
        slurp_document(w, &mut cur)
    }
}

} // verus!
