//! Documents: the value type, its mathematical model, and the reading and
//! changing of values in place.
//!
//! A double is held as the 64 bits of its IEEE 754 form, which is all that the
//! byte format needs; the few tests on doubles that the library makes are
//! stated on those bits.
use vstd::prelude::*;
use vstd::utf8::{encode_utf8, encode_utf8_decode_utf8};
use crate::double::{
    bits_are_nan, bits_are_zero, cut_to, double_as_i32, double_as_i64, is_nan, is_zero,
};
use crate::endian::{low_i32, wrap_i32};

verus! {

/// The error that std reports for bytes that are no UTF-8. Nothing is known of
/// what it holds.
#[verifier::external_type_specification]
#[verifier::external_body]
pub struct ExUtf8Error(std::str::Utf8Error);

/// What went wrong in reading or querying a document.
#[derive(Debug)]
pub enum BsonError {
    /// A query that the value cannot answer.
    Misc(&'static str),
    /// Bytes that are no document.
    CorruptFile(&'static str),
    /// A string that is no UTF-8.
    Utf8(std::str::Utf8Error),
}

/// A value of a document.
#[derive(Debug, PartialEq)]
pub enum BsonValue {
    /// A double, as its 64 bits.
    BDouble(u64),
    BString(String),
    BInt64(i64),
    BInt32(i32),
    BUndefined,
    BObjectID([u8; 12]),
    BNull,
    /// A regular expression and its options.
    BRegex(String, String),
    BJSCode(String),
    BJSCodeWithScope(String),
    /// A subtype and bytes.
    BBinary(u8, Box<[u8]>),
    BMinKey,
    BMaxKey,
    BDateTime(i64),
    BTimeStamp(i64),
    BBoolean(bool),
    BArray(Vec<BsonValue>),
    /// Pairs of key and value, in order; a key may occur more than once.
    BDocument(Vec<(String, BsonValue)>),
}

/// The mathematical model of a value.
pub enum Bson {
    Double(u64),
    String(Seq<char>),
    Int64(i64),
    Int32(i32),
    Undefined,
    ObjectID(Seq<u8>),
    Null,
    Regex(Seq<char>, Seq<char>),
    JSCode(Seq<char>),
    JSCodeWithScope(Seq<char>),
    Binary(u8, Seq<u8>),
    MinKey,
    MaxKey,
    DateTime(i64),
    TimeStamp(i64),
    Boolean(bool),
    Array(Seq<Bson>),
    Document(Seq<(Seq<char>, Bson)>),
}

/// The models of a list of values.
pub open spec fn models(v: Seq<BsonValue>) -> Seq<Bson> {
    Seq::new(v.len(), |i: int| v[i]@)
}

/// The models of a list of pairs.
pub open spec fn pair_models(p: Seq<(String, BsonValue)>) -> Seq<(Seq<char>, Bson)> {
    Seq::new(p.len(), |i: int| (p[i].0@, p[i].1@))
}

impl BsonValue {
    /// The value as a mathematical value.
    pub open spec fn model(&self) -> Bson
        decreases self,
    {
        match self {
            BsonValue::BDouble(b) => Bson::Double(*b),
            BsonValue::BString(s) => Bson::String(s@),
            BsonValue::BInt64(n) => Bson::Int64(*n),
            BsonValue::BInt32(n) => Bson::Int32(*n),
            BsonValue::BUndefined => Bson::Undefined,
            BsonValue::BObjectID(a) => Bson::ObjectID(a@),
            BsonValue::BNull => Bson::Null,
            BsonValue::BRegex(e, o) => Bson::Regex(e@, o@),
            BsonValue::BJSCode(s) => Bson::JSCode(s@),
            BsonValue::BJSCodeWithScope(s) => Bson::JSCodeWithScope(s@),
            BsonValue::BBinary(t, b) => Bson::Binary(*t, b@),
            BsonValue::BMinKey => Bson::MinKey,
            BsonValue::BMaxKey => Bson::MaxKey,
            BsonValue::BDateTime(n) => Bson::DateTime(*n),
            BsonValue::BTimeStamp(n) => Bson::TimeStamp(*n),
            BsonValue::BBoolean(b) => Bson::Boolean(*b),
            BsonValue::BArray(v) => Bson::Array(
                Seq::new(
                    v@.len(),
                    |i: int|
                        if 0 <= i < v@.len() {
                            v@[i].model()
                        } else {
                            Bson::Null
                        },
                ),
            ),
            BsonValue::BDocument(p) => Bson::Document(
                Seq::new(
                    p@.len(),
                    |i: int|
                        if 0 <= i < p@.len() {
                            (p@[i].0@, p@[i].1.model())
                        } else {
                            (Seq::empty(), Bson::Null)
                        },
                ),
            ),
        }
    }
}

impl View for BsonValue {
    type V = Bson;

    open spec fn view(&self) -> Bson {
        self.model()
    }
}

/// The model of an array is the list of the models of its values, and that of a
/// document the list of its pairs' models.
pub proof fn lemma_view_of_lists(v: BsonValue)
    ensures
        v matches BsonValue::BArray(a) ==> v@ == Bson::Array(models(a@)),
        v matches BsonValue::BDocument(p) ==> v@ == Bson::Document(pair_models(p@)),
{
    match v {
        BsonValue::BArray(a) => {
            assert(v@->Array_0 =~= models(a@));
        },
        BsonValue::BDocument(p) => {
            assert(v@->Document_0 =~= pair_models(p@));
        },
        _ => {},
    }
}

/// The position of the first pair whose key meets `f`, or the number of pairs
/// if no key does.
pub open spec fn first_where(pairs: Seq<(Seq<char>, Bson)>, f: spec_fn(Seq<char>) -> bool) -> int
    decreases pairs.len(),
{
    if pairs.len() == 0 {
        0
    } else if f(pairs[0].0) {
        0
    } else {
        1 + first_where(pairs.skip(1), f)
    }
}

/// Holds of the key `k`.
pub open spec fn is_key(k: Seq<char>) -> spec_fn(Seq<char>) -> bool {
    |x: Seq<char>| x == k
}

/// Holds of the keys that are `k` but for the case of ASCII letters.
pub open spec fn is_key_but_for_case(k: Seq<char>) -> spec_fn(Seq<char>) -> bool {
    |x: Seq<char>| same_but_for_case(x, k)
}

/// The position of the first pair with the key `k`, or the number of pairs if
/// no pair has it.
pub open spec fn find_key(pairs: Seq<(Seq<char>, Bson)>, k: Seq<char>) -> int {
    first_where(pairs, is_key(k))
}

/// Whether some pair has the key `k`.
pub open spec fn has_key(pairs: Seq<(Seq<char>, Bson)>, k: Seq<char>) -> bool {
    find_key(pairs, k) < pairs.len()
}

/// What `first_where` returns: a position whose key meets `f` while no earlier
/// key does, or the number of pairs if none does.
pub proof fn lemma_first_where(pairs: Seq<(Seq<char>, Bson)>, f: spec_fn(Seq<char>) -> bool)
    ensures
        0 <= first_where(pairs, f) <= pairs.len(),
        first_where(pairs, f) < pairs.len() ==> f(pairs[first_where(pairs, f)].0),
        forall|j: int| 0 <= j < first_where(pairs, f) ==> !f((#[trigger] pairs[j]).0),
    decreases pairs.len(),
{
    if pairs.len() > 0 && !f(pairs[0].0) {
        let rest = pairs.skip(1);
        lemma_first_where(rest, f);
        assert forall|j: int| 0 <= j < first_where(pairs, f) implies !f((#[trigger] pairs[j]).0) by {
            if j > 0 {
                assert(rest[j - 1] == pairs[j]);
            }
        }
    }
}

/// The first position whose key meets `f` is `n`, if the key there meets it
/// and no earlier key does.
pub proof fn lemma_first_where_is(
    pairs: Seq<(Seq<char>, Bson)>,
    f: spec_fn(Seq<char>) -> bool,
    n: int,
)
    requires
        0 <= n <= pairs.len(),
        n < pairs.len() ==> f(pairs[n].0),
        forall|j: int| 0 <= j < n ==> !f((#[trigger] pairs[j]).0),
    ensures
        first_where(pairs, f) == n,
{
    lemma_first_where(pairs, f);
    let m = first_where(pairs, f);
    if m < n {
        assert(!f(pairs[m].0));
    }
}

/// The lower-case form of an ASCII letter; any other byte is left as it is.
pub open spec fn fold_byte(b: u8) -> u8 {
    if 65 <= b <= 90 {
        (b + 32) as u8
    } else {
        b
    }
}

/// Two strings are the same but for the case of their ASCII letters.
pub open spec fn same_but_for_case(a: Seq<char>, b: Seq<char>) -> bool {
    encode_utf8(a).map_values(|x: u8| fold_byte(x)) == encode_utf8(b).map_values(
        |x: u8| fold_byte(x),
    )
}

/// Whether two strings are equal, found by comparing their bytes.
pub fn str_eq(a: &str, b: &str) -> (r: bool)
    ensures
        r == (a@ == b@),
{
    let x = a.as_bytes();
    let y = b.as_bytes();
    proof {
        encode_utf8_decode_utf8(a@);
        encode_utf8_decode_utf8(b@);
    }
    if x.len() != y.len() {
        return false;
    }
    let mut i: usize = 0;
    while i < x.len()
        invariant
            i <= x.len(),
            x.len() == y.len(),
            x@ == encode_utf8(a@),
            y@ == encode_utf8(b@),
            forall|j: int| 0 <= j < i ==> x@[j] == y@[j],
        decreases x.len() - i,
    {
        if x[i] != y[i] {
            return false;
        }
        i += 1;
    }
    assert(x@ =~= y@);
    true
}

/// Maps an ASCII capital to its small letter.
fn fold(b: u8) -> (r: u8)
    ensures
        r == fold_byte(b),
{
    if 65 <= b && b <= 90 {
        b + 32
    } else {
        b
    }
}

/// Whether two strings are equal but for the case of their ASCII letters.
pub fn str_eq_ignore_ascii_case(a: &str, b: &str) -> (r: bool)
    ensures
        r == same_but_for_case(a@, b@),
{
    let x = a.as_bytes();
    let y = b.as_bytes();
    let ghost fx = x@.map_values(|c: u8| fold_byte(c));
    let ghost fy = y@.map_values(|c: u8| fold_byte(c));
    if x.len() != y.len() {
        assert(fx.len() != fy.len());
        return false;
    }
    let mut i: usize = 0;
    while i < x.len()
        invariant
            i <= x.len(),
            x.len() == y.len(),
            x@ == encode_utf8(a@),
            y@ == encode_utf8(b@),
            fx == x@.map_values(|c: u8| fold_byte(c)),
            fy == y@.map_values(|c: u8| fold_byte(c)),
            forall|j: int| 0 <= j < i ==> fx[j] == fy[j],
        decreases x.len() - i,
    {
        if fold(x[i]) != fold(y[i]) {
            assert(fx[i as int] != fy[i as int]);
            return false;
        }
        i += 1;
    }
    assert(fx =~= fy);
    true
}

/// The position of the first pair with the key `s`.
pub fn slice_find(pairs: &[(String, BsonValue)], s: &str) -> (r: Option<usize>)
    ensures
        match r {
            Some(i) => i < pairs@.len() && i == find_key(pair_models(pairs@), s@),
            None => !has_key(pair_models(pairs@), s@),
        },
{
    let ghost pm = pair_models(pairs@);
    let mut i: usize = 0;
    while i < pairs.len()
        invariant
            i <= pairs.len(),
            pm == pair_models(pairs@),
            forall|j: int| 0 <= j < i ==> !is_key(s@)((#[trigger] pm[j]).0),
        decreases pairs.len() - i,
    {
        if str_eq(pairs[i].0.as_str(), s) {
            proof {
                lemma_first_where_is(pm, is_key(s@), i as int);
            }
            return Some(i);
        }
        i += 1;
    }
    proof {
        lemma_first_where_is(pm, is_key(s@), pairs.len() as int);
    }
    None
}

/// The position of the first pair whose key is `s` but for the case of ASCII
/// letters.
fn slice_find_insensitive(pairs: &[(String, BsonValue)], s: &str) -> (r: Option<usize>)
    ensures
        match r {
            Some(i) => i < pairs@.len() && i == first_where(
                pair_models(pairs@),
                is_key_but_for_case(s@),
            ),
            None => first_where(pair_models(pairs@), is_key_but_for_case(s@)) == pairs@.len(),
        },
{
    let ghost pm = pair_models(pairs@);
    let mut i: usize = 0;
    while i < pairs.len()
        invariant
            i <= pairs.len(),
            pm == pair_models(pairs@),
            forall|j: int| 0 <= j < i ==> !is_key_but_for_case(s@)((#[trigger] pm[j]).0),
        decreases pairs.len() - i,
    {
        if str_eq_ignore_ascii_case(pairs[i].0.as_str(), s) {
            proof {
                lemma_first_where_is(pm, is_key_but_for_case(s@), i as int);
            }
            return Some(i);
        }
        i += 1;
    }
    proof {
        lemma_first_where_is(pm, is_key_but_for_case(s@), pairs.len() as int);
    }
    None
}

/// The number that the byte format gives to the kind of a value.
pub open spec fn type_number(v: Bson) -> u8 {
    match v {
        Bson::Double(_) => 1,
        Bson::String(_) => 2,
        Bson::Document(_) => 3,
        Bson::Array(_) => 4,
        Bson::Binary(_, _) => 5,
        Bson::Undefined => 6,
        Bson::ObjectID(_) => 7,
        Bson::Boolean(_) => 8,
        Bson::DateTime(_) => 9,
        Bson::Null => 10,
        Bson::Regex(_, _) => 11,
        Bson::JSCode(_) => 13,
        Bson::JSCodeWithScope(_) => 15,
        Bson::Int32(_) => 16,
        Bson::TimeStamp(_) => 17,
        Bson::Int64(_) => 18,
        Bson::MinKey => 255,
        Bson::MaxKey => 127,
    }
}

/// The rank of the kind of a value when values of different kinds are
/// ordered; the three kinds of number share one rank.
pub open spec fn type_order(v: Bson) -> i32 {
    match v {
        Bson::Undefined => 0,
        Bson::Null => 5,
        Bson::Double(_) => 10,
        Bson::Int64(_) => 10,
        Bson::Int32(_) => 10,
        Bson::String(_) => 15,
        Bson::Document(_) => 20,
        Bson::Array(_) => 25,
        Bson::Binary(_, _) => 30,
        Bson::ObjectID(_) => 35,
        Bson::Boolean(_) => 40,
        Bson::DateTime(_) => 45,
        Bson::TimeStamp(_) => 47,
        Bson::Regex(_, _) => 50,
        Bson::JSCode(_) => 60,
        Bson::JSCodeWithScope(_) => 65,
        Bson::MinKey => -1i32,
        Bson::MaxKey => 127,
    }
}

/// A document is a reference to another one if its keys are `$ref` and `$id`,
/// or these and `$db`, and no others.
pub open spec fn pairs_are_dbref(pairs: Seq<(Seq<char>, Bson)>) -> bool {
    let has_ref = has_key(pairs, "$ref"@);
    let has_id = has_key(pairs, "$id"@);
    let has_db = has_key(pairs, "$db"@);
    (pairs.len() == 2 && has_ref && has_id) || (pairs.len() == 3 && has_ref && has_id && has_db)
}

/// Whether a value counts as true where a condition is wanted: all but false,
/// null, undefined and the zeros do.
pub open spec fn counts_as_true(v: Bson) -> bool {
    match v {
        Bson::Boolean(b) => b,
        Bson::Null => false,
        Bson::Undefined => false,
        Bson::Int32(n) => n != 0,
        Bson::Int64(n) => n != 0,
        Bson::Double(bits) => !is_zero(bits),
        _ => true,
    }
}

#[allow(non_snake_case)]
impl BsonValue {
    /// The value of the first pair with the key `k`, if this is a document
    /// and has such a pair.
    pub fn tryGetValueForKey(&self, k: &str) -> (r: Option<&BsonValue>)
        ensures
            match self@ {
                Bson::Document(pairs) => if has_key(pairs, k@) {
                    r matches Some(v) && v@ == pairs[find_key(pairs, k@)].1
                } else {
                    r is None
                },
                _ => r is None,
            },
    {
        proof {
            lemma_view_of_lists(*self);
        }
        match self {
            BsonValue::BDocument(pairs) => {
                match slice_find(pairs.as_slice(), k) {
                    Some(i) => Some(&pairs[i].1),
                    None => None,
                }
            },
            _ => None,
        }
    }

    /// The value of the first pair with the key `k`; an error if this is no
    /// document or has no such pair.
    pub fn getValueForKey(&self, k: &str) -> (r: Result<&BsonValue, BsonError>)
        ensures
            match self@ {
                Bson::Document(pairs) if has_key(pairs, k@) => r matches Ok(v) && v@
                    == pairs[find_key(pairs, k@)].1,
                _ => r matches Err(BsonError::Misc(m)) && m@ == "required key not found"@,
            },
    {
        match self.tryGetValueForKey(k) {
            Some(v) => Ok(v),
            None => Err(BsonError::Misc("required key not found")),
        }
    }

    /// The value of the first pair whose key is `k` but for the case of ASCII
    /// letters, if this is a document and has such a pair.
    pub fn tryGetValueForInsensitiveKey(&self, k: &str) -> (r: Option<&BsonValue>)
        ensures
            match self@ {
                Bson::Document(pairs) => {
                    let n = first_where(pairs, is_key_but_for_case(k@));
                    if n < pairs.len() {
                        r matches Some(v) && v@ == pairs[n].1
                    } else {
                        r is None
                    }
                },
                _ => r is None,
            },
    {
        proof {
            lemma_view_of_lists(*self);
        }
        match self {
            BsonValue::BDocument(pairs) => {
                match slice_find_insensitive(pairs.as_slice(), k) {
                    Some(i) => Some(&pairs[i].1),
                    None => None,
                }
            },
            _ => None,
        }
    }

    /// The value at position `ndx`, if this is an array and has one there.
    pub fn tryGetValueAtIndex(&self, ndx: usize) -> (r: Option<&BsonValue>)
        ensures
            match self@ {
                Bson::Array(items) => if ndx < items.len() {
                    r matches Some(v) && v@ == items[ndx as int]
                } else {
                    r is None
                },
                _ => r is None,
            },
    {
        proof {
            lemma_view_of_lists(*self);
        }
        match self {
            BsonValue::BArray(a) => {
                if ndx >= a.len() {
                    None
                } else {
                    Some(&a[ndx])
                }
            },
            _ => None,
        }
    }

    /// Whether this is a document with a pair whose key is `s`.
    pub fn hasValueForKey(&self, s: &str) -> (r: bool)
        ensures
            r == (self@ matches Bson::Document(pairs) && has_key(pairs, s@)),
    {
        match self.tryGetValueForKey(s) {
            Some(_) => true,
            None => false,
        }
    }

    /// The value of the first pair whose key is `k` but for the case of ASCII
    /// letters; an error if this is no document or has no such pair.
    pub fn getValueForInsensitiveKey(&self, k: &str) -> (r: Result<&BsonValue, BsonError>)
        ensures
            match self@ {
                Bson::Document(pairs) if first_where(pairs, is_key_but_for_case(k@))
                    < pairs.len() => r matches Ok(v) && v@ == pairs[first_where(
                    pairs,
                    is_key_but_for_case(k@),
                )].1,
                _ => r matches Err(BsonError::Misc(m)) && m@ == "required key not found"@,
            },
    {
        match self.tryGetValueForInsensitiveKey(k) {
            Some(v) => Ok(v),
            None => Err(BsonError::Misc("required key not found")),
        }
    }

    pub fn isNull(&self) -> (r: bool)
        ensures
            r == (self@ is Null),
    {
        match self {
            BsonValue::BNull => true,
            _ => false,
        }
    }

    pub fn isArray(&self) -> (r: bool)
        ensures
            r == (self@ is Array),
    {
        match self {
            BsonValue::BArray(_) => true,
            _ => false,
        }
    }

    pub fn isDocument(&self) -> (r: bool)
        ensures
            r == (self@ is Document),
    {
        match self {
            BsonValue::BDocument(_) => true,
            _ => false,
        }
    }

    /// Whether this is a number of any of the three kinds.
    pub fn isNumeric(&self) -> (r: bool)
        ensures
            r == (self@ is Int32 || self@ is Int64 || self@ is Double),
    {
        match self {
            BsonValue::BInt32(_) => true,
            BsonValue::BInt64(_) => true,
            BsonValue::BDouble(_) => true,
            _ => false,
        }
    }

    /// Whether this is a double that is no number.
    pub fn isNaN(&self) -> (r: bool)
        ensures
            r == (self@ matches Bson::Double(bits) && is_nan(bits)),
    {
        match self {
            BsonValue::BDouble(bits) => bits_are_nan(*bits),
            _ => false,
        }
    }

    pub fn isDate(&self) -> (r: bool)
        ensures
            r == (self@ is DateTime),
    {
        match self {
            BsonValue::BDateTime(_) => true,
            _ => false,
        }
    }

    /// Whether the pairs are those of a reference to another document.
    pub fn is_dbref(pairs: &[(String, BsonValue)]) -> (r: bool)
        ensures
            r == pairs_are_dbref(pair_models(pairs@)),
    {
        let has_ref = slice_find(pairs, "$ref").is_some();
        let has_id = slice_find(pairs, "$id").is_some();
        let has_db = slice_find(pairs, "$db").is_some();
        let len = pairs.len();
        if len == 2 && has_ref && has_id {
            true
        } else if len == 3 && has_ref && has_id && has_db {
            true
        } else {
            false
        }
    }

    pub fn getString(&self) -> (r: Result<&str, BsonError>)
        ensures
            match self@ {
                Bson::String(s) => r matches Ok(x) && x@ == s,
                _ => r matches Err(BsonError::Misc(m)) && m@ == "must be string"@,
            },
    {
        match self {
            BsonValue::BString(s) => Ok(s.as_str()),
            _ => Err(BsonError::Misc("must be string")),
        }
    }

    pub fn getArray(&self) -> (r: Result<&Vec<BsonValue>, BsonError>)
        ensures
            match self@ {
                Bson::Array(items) => r matches Ok(a) && models(a@) == items,
                _ => r matches Err(BsonError::Misc(m)) && m@ == "must be array"@,
            },
    {
        proof {
            lemma_view_of_lists(*self);
        }
        match self {
            BsonValue::BArray(a) => Ok(a),
            _ => Err(BsonError::Misc("must be array")),
        }
    }

    pub fn getDocument(&self) -> (r: Result<&Vec<(String, BsonValue)>, BsonError>)
        ensures
            match self@ {
                Bson::Document(pairs) => r matches Ok(p) && pair_models(p@) == pairs,
                _ => r matches Err(BsonError::Misc(m)) && m@ == "must be document"@,
            },
    {
        proof {
            lemma_view_of_lists(*self);
        }
        match self {
            BsonValue::BDocument(p) => Ok(p),
            _ => Err(BsonError::Misc("must be document")),
        }
    }

    pub fn getBool(&self) -> (r: Result<bool, BsonError>)
        ensures
            match self@ {
                Bson::Boolean(b) => r matches Ok(x) && x == b,
                _ => r matches Err(BsonError::Misc(m)) && m@ == "must be bool"@,
            },
    {
        match self {
            BsonValue::BBoolean(b) => Ok(*b),
            _ => Err(BsonError::Misc("must be bool")),
        }
    }

    pub fn getDate(&self) -> (r: Result<i64, BsonError>)
        ensures
            match self@ {
                Bson::DateTime(n) => r matches Ok(x) && x == n,
                _ => r matches Err(BsonError::Misc(m)) && m@ == "must be DateTime"@,
            },
    {
        match self {
            BsonValue::BDateTime(n) => Ok(*n),
            _ => Err(BsonError::Misc("must be DateTime")),
        }
    }

    pub fn getInt32(&self) -> (r: Result<i32, BsonError>)
        ensures
            match self@ {
                Bson::Int32(n) => r matches Ok(x) && x == n,
                _ => r matches Err(BsonError::Misc(m)) && m@ == "must be i32"@,
            },
    {
        match self {
            BsonValue::BInt32(n) => Ok(*n),
            _ => Err(BsonError::Misc("must be i32")),
        }
    }

    /// Whether the value counts as true where a condition is wanted.
    pub fn getAsExprBool(&self) -> (r: bool)
        ensures
            r == counts_as_true(self@),
    {
        match self {
            BsonValue::BBoolean(b) => *b,
            BsonValue::BNull => false,
            BsonValue::BUndefined => false,
            BsonValue::BInt32(n) => *n != 0,
            BsonValue::BInt64(n) => *n != 0,
            BsonValue::BDouble(bits) => !bits_are_zero(*bits),
            _ => true,
        }
    }

    /// The value as a truth value: a boolean as it is, a number by whether,
    /// cut to a whole number, it is other than zero.
    pub fn getAsBool(&self) -> (r: Result<bool, BsonError>)
        ensures
            match self@ {
                Bson::Boolean(b) => r matches Ok(x) && x == b,
                Bson::Int32(n) => r matches Ok(x) && x == (n != 0),
                Bson::Int64(n) => r matches Ok(x) && x == (n != 0),
                Bson::Double(bits) => r matches Ok(x) && x == (cut_to(
                    bits,
                    i32::MIN as int,
                    i32::MAX as int,
                ) != 0),
                _ => r matches Err(BsonError::Misc(m)) && m@ == "must be convertible to bool"@,
            },
    {
        match self {
            BsonValue::BBoolean(b) => Ok(*b),
            BsonValue::BInt32(n) => Ok(*n != 0),
            BsonValue::BInt64(n) => Ok(*n != 0),
            BsonValue::BDouble(bits) => Ok(double_as_i32(*bits) != 0),
            _ => Err(BsonError::Misc("must be convertible to bool")),
        }
    }

    /// The value as a number of 32 bits: a longer whole number is cut to its
    /// low 32 bits, a double is cut towards zero and held to the range.
    pub fn getAsInt32(&self) -> (r: Result<i32, BsonError>)
        ensures
            match self@ {
                Bson::Int32(a) => r matches Ok(x) && x == a,
                Bson::Int64(a) => r matches Ok(x) && x == wrap_i32(a as int),
                Bson::Double(bits) => r matches Ok(x) && x == cut_to(
                    bits,
                    i32::MIN as int,
                    i32::MAX as int,
                ),
                _ => r matches Err(BsonError::Misc(m)) && m@ == "must be convertible to int32"@,
            },
    {
        match self {
            BsonValue::BInt32(a) => Ok(*a),
            BsonValue::BInt64(a) => Ok(low_i32(*a)),
            BsonValue::BDouble(bits) => Ok(double_as_i32(*bits)),
            _ => Err(BsonError::Misc("must be convertible to int32")),
        }
    }

    /// The value as a number of 64 bits: a double is cut towards zero and held
    /// to the range, a date is its number.
    pub fn getAsInt64(&self) -> (r: Result<i64, BsonError>)
        ensures
            match self@ {
                Bson::Int32(a) => r matches Ok(x) && x == a,
                Bson::Int64(a) => r matches Ok(x) && x == a,
                Bson::Double(bits) => r matches Ok(x) && x == cut_to(
                    bits,
                    i64::MIN as int,
                    i64::MAX as int,
                ),
                Bson::DateTime(a) => r matches Ok(x) && x == a,
                _ => r matches Err(BsonError::Misc(m)) && m@ == "must be convertible to int64"@,
            },
    {
        match self {
            BsonValue::BInt32(a) => Ok(*a as i64),
            BsonValue::BInt64(a) => Ok(*a),
            BsonValue::BDouble(bits) => Ok(double_as_i64(*bits)),
            BsonValue::BDateTime(a) => Ok(*a),
            _ => Err(BsonError::Misc("must be convertible to int64")),
        }
    }

    /// The number that the byte format gives to the kind of this value.
    pub fn getTypeNumber_u8(&self) -> (r: u8)
        ensures
            r == type_number(self@),
    {
        match self {
            BsonValue::BDouble(_) => 1,
            BsonValue::BString(_) => 2,
            BsonValue::BDocument(_) => 3,
            BsonValue::BArray(_) => 4,
            BsonValue::BBinary(_, _) => 5,
            BsonValue::BUndefined => 6,
            BsonValue::BObjectID(_) => 7,
            BsonValue::BBoolean(_) => 8,
            BsonValue::BDateTime(_) => 9,
            BsonValue::BNull => 10,
            BsonValue::BRegex(_, _) => 11,
            BsonValue::BJSCode(_) => 13,
            BsonValue::BJSCodeWithScope(_) => 15,
            BsonValue::BInt32(_) => 16,
            BsonValue::BTimeStamp(_) => 17,
            BsonValue::BInt64(_) => 18,
            BsonValue::BMinKey => 255,
            BsonValue::BMaxKey => 127,
        }
    }

    /// The rank of the kind of this value in the order of kinds.
    pub fn getTypeOrder(&self) -> (r: i32)
        ensures
            r == type_order(self@),
    {
        match self {
            BsonValue::BUndefined => 0,
            BsonValue::BNull => 5,
            BsonValue::BDouble(_) => 10,
            BsonValue::BInt64(_) => 10,
            BsonValue::BInt32(_) => 10,
            BsonValue::BString(_) => 15,
            BsonValue::BDocument(_) => 20,
            BsonValue::BArray(_) => 25,
            BsonValue::BBinary(_, _) => 30,
            BsonValue::BObjectID(_) => 35,
            BsonValue::BBoolean(_) => 40,
            BsonValue::BDateTime(_) => 45,
            BsonValue::BTimeStamp(_) => 47,
            BsonValue::BRegex(_, _) => 50,
            BsonValue::BJSCode(_) => 60,
            BsonValue::BJSCodeWithScope(_) => 65,
            BsonValue::BMinKey => -1,
            BsonValue::BMaxKey => 127,
        }
    }

    /// Puts `v` in the place of the value at position `ndx` of an array.
    pub fn setValueAtIndex(&mut self, ndx: usize, v: BsonValue)
        requires
            old(self)@ matches Bson::Array(items) && ndx < items.len(),
            ndx <= 1500001,
        ensures
            final(self)@ == Bson::Array(old(self)@->Array_0.update(ndx as int, v@)),
    {
        proof {
            lemma_view_of_lists(*old(self));
        }
        match self {
            BsonValue::BArray(a) => {
                let ghost before = a@;
                a[ndx] = v;
                assert(models(a@) =~= models(before).update(ndx as int, v@));
            },
            _ => {},
        }
        proof {
            lemma_view_of_lists(*self);
        }
    }

    /// Takes the value at position `ndx` out of an array; the later values
    /// move down by one.
    pub fn removeValueAtIndex(&mut self, ndx: usize)
        requires
            old(self)@ matches Bson::Array(items) && ndx < items.len(),
        ensures
            final(self)@ == Bson::Array(old(self)@->Array_0.remove(ndx as int)),
    {
        proof {
            lemma_view_of_lists(*old(self));
        }
        match self {
            BsonValue::BArray(a) => {
                let ghost before = a@;
                a.remove(ndx);
                assert(models(a@) =~= models(before).remove(ndx as int));
            },
            _ => {},
        }
        proof {
            lemma_view_of_lists(*self);
        }
    }

    /// Puts null in the place of the value at position `ndx` of an array; an
    /// array that has no such position is left as it is.
    pub fn unsetValueAtIndex(&mut self, ndx: usize)
        requires
            old(self)@ is Array,
        ensures
            final(self)@ == Bson::Array(
                if ndx < old(self)@->Array_0.len() {
                    old(self)@->Array_0.update(ndx as int, Bson::Null)
                } else {
                    old(self)@->Array_0
                },
            ),
    {
        proof {
            lemma_view_of_lists(*old(self));
        }
        match self {
            BsonValue::BArray(a) => {
                let ghost before = a@;
                if ndx < a.len() {
                    a[ndx] = BsonValue::BNull;
                    assert(models(a@) =~= models(before).update(ndx as int, Bson::Null));
                }
            },
            _ => {},
        }
        proof {
            lemma_view_of_lists(*self);
        }
    }

    /// Binds `k` to `v` in a document: in the first pair with that key if
    /// there is one, else in a new pair at the end.
    pub fn setValueForKey(&mut self, k: &str, v: BsonValue)
        requires
            old(self)@ is Document,
        ensures
            final(self)@ == Bson::Document(
                if has_key(old(self)@->Document_0, k@) {
                    old(self)@->Document_0.update(
                        find_key(old(self)@->Document_0, k@),
                        (k@, v@),
                    )
                } else {
                    old(self)@->Document_0.push((k@, v@))
                },
            ),
    {
        proof {
            lemma_view_of_lists(*old(self));
        }
        match self {
            BsonValue::BDocument(pairs) => {
                let ghost before = pairs@;
                match slice_find(pairs.as_slice(), k) {
                    Some(i) => {
                        proof {
                            lemma_first_where(pair_models(before), is_key(k@));
                        }
                        pairs[i].1 = v;
                        assert(pair_models(pairs@) =~= pair_models(before).update(
                            i as int,
                            (k@, v@),
                        ));
                    },
                    None => {
                        pairs.push((k.to_owned(), v));
                        assert(pair_models(pairs@) =~= pair_models(before).push((k@, v@)));
                    },
                }
            },
            _ => {},
        }
        proof {
            lemma_view_of_lists(*self);
        }
    }

    /// Takes the first pair with the key `k` out of a document; a document
    /// that has no such pair is left as it is.
    pub fn unsetValueForKey(&mut self, k: &str)
        requires
            old(self)@ is Document,
        ensures
            final(self)@ == Bson::Document(
                if has_key(old(self)@->Document_0, k@) {
                    old(self)@->Document_0.remove(find_key(old(self)@->Document_0, k@))
                } else {
                    old(self)@->Document_0
                },
            ),
    {
        proof {
            lemma_view_of_lists(*old(self));
        }
        match self {
            BsonValue::BDocument(pairs) => {
                let ghost before = pairs@;
                match slice_find(pairs.as_slice(), k) {
                    Some(i) => {
                        pairs.remove(i);
                        assert(pair_models(pairs@) =~= pair_models(before).remove(i as int));
                    },
                    None => {},
                }
            },
            _ => {},
        }
        proof {
            lemma_view_of_lists(*self);
        }
    }

    /// Adds a pair at the end of a document, whatever keys it has already.
    pub fn add_pair(&mut self, k: &str, v: BsonValue)
        requires
            old(self)@ is Document,
        ensures
            final(self)@ == Bson::Document(old(self)@->Document_0.push((k@, v@))),
    {
        proof {
            lemma_view_of_lists(*old(self));
        }
        match self {
            BsonValue::BDocument(pairs) => {
                let ghost before = pairs@;
                pairs.push((k.to_owned(), v));
                assert(pair_models(pairs@) =~= pair_models(before).push((k@, v@)));
            },
            _ => {},
        }
        proof {
            lemma_view_of_lists(*self);
        }
    }
}

} // verus!
