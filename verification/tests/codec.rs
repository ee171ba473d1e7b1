use lsm::bson::{str_eq, str_eq_ignore_ascii_case, slice_find, BsonError, BsonValue};
use lsm::bson_read::{slurp_bson_string, slurp_cstring, slurp_document};
use lsm::bson_write::{vec_push_bson_string, vec_push_c_string};
use lsm::double::{double_as_i32, double_as_i64, double_as_usize};
use lsm::endian::{
    low_i32, push_decimal, push_i32_le, push_i64_le, push_len_le, push_u32_le, push_u64_le,
    put_len_le, slurp_i32_le, slurp_i64_le, slurp_u32_le, slurp_u64_le,
};

fn s(x: &str) -> String {
    x.to_string()
}

fn doc(pairs: Vec<(&str, BsonValue)>) -> BsonValue {
    BsonValue::BDocument(pairs.into_iter().map(|(k, v)| (s(k), v)).collect())
}

fn encode(v: &BsonValue) -> Vec<u8> {
    let mut w = Vec::new();
    v.to_bson(&mut w);
    w
}

fn hello_world() -> Vec<u8> {
    let mut b = vec![0x16, 0, 0, 0, 0x02];
    b.extend_from_slice(b"hello\0");
    b.extend_from_slice(&[6, 0, 0, 0]);
    b.extend_from_slice(b"world\0");
    b.push(0);
    b
}

#[test]
fn little_endian_numbers_are_written_lowest_byte_first() {
    let mut w = vec![9u8];
    push_u32_le(&mut w, 0x0403_0201);
    assert_eq!(w, vec![9, 1, 2, 3, 4]);

    let mut w = Vec::new();
    push_i32_le(&mut w, -2);
    assert_eq!(w, (-2i32).to_le_bytes().to_vec());

    let mut w = Vec::new();
    push_i32_le(&mut w, i32::MIN);
    assert_eq!(w, i32::MIN.to_le_bytes().to_vec());

    let mut w = Vec::new();
    push_u64_le(&mut w, 0x0807_0605_0403_0201);
    assert_eq!(w, vec![1, 2, 3, 4, 5, 6, 7, 8]);

    let mut w = Vec::new();
    push_i64_le(&mut w, -3);
    assert_eq!(w, (-3i64).to_le_bytes().to_vec());

    let mut w = Vec::new();
    push_i64_le(&mut w, i64::MIN);
    assert_eq!(w, i64::MIN.to_le_bytes().to_vec());

    let mut w = Vec::new();
    push_len_le(&mut w, 258);
    assert_eq!(w, vec![2, 1, 0, 0]);
}

#[test]
fn a_length_is_put_in_place() {
    let mut w = vec![7u8, 0, 0, 0, 0, 8];
    put_len_le(&mut w, 1, 0x0102_0304);
    assert_eq!(w, vec![7, 4, 3, 2, 1, 8]);
}

#[test]
fn decimal_digits_have_no_leading_zero() {
    for (n, text) in [(0usize, "0"), (7, "7"), (10, "10"), (909, "909"), (1500001, "1500001")] {
        let mut w = Vec::new();
        push_decimal(&mut w, n);
        assert_eq!(w, text.as_bytes().to_vec());
    }
}

#[test]
fn numbers_are_read_back_as_written() {
    let mut w = Vec::new();
    push_i32_le(&mut w, -123456);
    push_i64_le(&mut w, -1234567890123);
    push_u32_le(&mut w, 4000000000);
    push_u64_le(&mut w, u64::MAX - 5);
    let mut i = 0;
    assert_eq!(slurp_i32_le(&w, &mut i), -123456);
    assert_eq!(i, 4);
    assert_eq!(slurp_i64_le(&w, &mut i), -1234567890123);
    assert_eq!(i, 12);
    assert_eq!(slurp_u32_le(&w, &mut i), 4000000000);
    assert_eq!(slurp_u64_le(&w, &mut i), u64::MAX - 5);
    assert_eq!(i, 24);
}

#[test]
fn a_long_number_is_cut_to_its_low_bits() {
    for n in [0i64, 1, -1, 2147483647, 2147483648, -2147483648, -2147483649, i64::MAX, i64::MIN] {
        assert_eq!(low_i32(n), n as i32);
    }
}

#[test]
fn strings_are_written_with_length_and_closing_zero() {
    let mut w = Vec::new();
    vec_push_c_string(&mut w, "ab");
    assert_eq!(w, vec![b'a', b'b', 0]);
    let mut w = Vec::new();
    vec_push_bson_string(&mut w, "héllo");
    assert_eq!(w, vec![7, 0, 0, 0, b'h', 0xc3, 0xa9, b'l', b'l', b'o', 0]);
}

#[test]
fn strings_are_read() {
    let ba = b"abc\0def".to_vec();
    let mut i = 0;
    assert_eq!(slurp_cstring(&ba, &mut i).unwrap(), "abc");
    assert_eq!(i, 4);
    // no closing zero
    assert!(matches!(slurp_cstring(&ba, &mut i), Err(BsonError::CorruptFile(_))));
    let ba = vec![3u8, 0, 0, 0, b'h', b'i', 0, 9];
    let mut i = 0;
    assert_eq!(slurp_bson_string(&ba, &mut i).unwrap(), "hi");
    assert_eq!(i, 7);
    // a length of zero leaves no room for the closing byte
    let ba = vec![0u8, 0, 0, 0, 0];
    let mut i = 0;
    assert!(matches!(slurp_bson_string(&ba, &mut i), Err(BsonError::CorruptFile(_))));
    // a string that is no UTF-8
    let ba = vec![2u8, 0, 0, 0, 0xff, 0];
    let mut i = 0;
    assert!(matches!(slurp_bson_string(&ba, &mut i), Err(BsonError::Utf8(_))));
}

#[test]
fn a_document_is_written_as_the_format_says() {
    let d = doc(vec![("hello", BsonValue::BString(s("world")))]);
    assert_eq!(encode(&d), hello_world());
}

#[test]
fn an_array_is_written_with_its_positions_as_keys() {
    let d = doc(vec![("a", BsonValue::BArray(vec![BsonValue::BInt32(1), BsonValue::BInt32(2)]))]);
    let mut expected = vec![0x1b, 0, 0, 0, 0x04, b'a', 0, 0x13, 0, 0, 0];
    expected.extend_from_slice(&[0x10, b'0', 0, 1, 0, 0, 0]);
    expected.extend_from_slice(&[0x10, b'1', 0, 2, 0, 0, 0]);
    expected.extend_from_slice(&[0, 0]);
    assert_eq!(encode(&d), expected);
}

#[test]
fn each_kind_of_value_is_written() {
    assert_eq!(encode(&BsonValue::BDouble(1.5f64.to_bits())), 1.5f64.to_le_bytes().to_vec());
    assert_eq!(encode(&BsonValue::BInt32(-1)), vec![0xff; 4]);
    assert_eq!(encode(&BsonValue::BInt64(-2)), (-2i64).to_le_bytes().to_vec());
    assert_eq!(encode(&BsonValue::BDateTime(5)), 5i64.to_le_bytes().to_vec());
    assert_eq!(encode(&BsonValue::BTimeStamp(6)), 6i64.to_le_bytes().to_vec());
    assert_eq!(encode(&BsonValue::BBoolean(true)), vec![1]);
    assert_eq!(encode(&BsonValue::BBoolean(false)), vec![0]);
    assert_eq!(encode(&BsonValue::BNull), Vec::<u8>::new());
    assert_eq!(encode(&BsonValue::BUndefined), Vec::<u8>::new());
    assert_eq!(encode(&BsonValue::BMinKey), Vec::<u8>::new());
    assert_eq!(encode(&BsonValue::BMaxKey), Vec::<u8>::new());
    assert_eq!(encode(&BsonValue::BObjectID([1, 2, 3, 4, 5, 6, 7, 8, 9, 10, 11, 12])), (1..=12).collect::<Vec<u8>>());
    assert_eq!(encode(&BsonValue::BRegex(s("a+"), s("i"))), b"a+\0i\0".to_vec());
    assert_eq!(encode(&BsonValue::BJSCode(s("x"))), vec![2, 0, 0, 0, b'x', 0]);
    assert_eq!(
        encode(&BsonValue::BBinary(0x80, vec![9u8, 8, 7].into_boxed_slice())),
        vec![3, 0, 0, 0, 0x80, 9, 8, 7]
    );
    assert_eq!(encode(&doc(vec![])), vec![5, 0, 0, 0, 0]);
}

#[test]
fn to_bson_appends_to_what_is_there() {
    let mut w = vec![1u8, 2, 3];
    doc(vec![("hello", BsonValue::BString(s("world")))]).to_bson(&mut w);
    assert_eq!(&w[..3], &[1, 2, 3]);
    assert_eq!(&w[3..], &hello_world()[..]);
}

#[test]
fn a_document_is_read_as_the_format_says() {
    let d = BsonValue::from_bson(&hello_world()).unwrap();
    assert_eq!(d, doc(vec![("hello", BsonValue::BString(s("world")))]));
}

fn sample() -> BsonValue {
    doc(vec![
        ("d", BsonValue::BDouble((-2.25f64).to_bits())),
        ("s", BsonValue::BString(s("text with \0 inside"))),
        ("doc", doc(vec![("inner", BsonValue::BInt32(i32::MIN)), ("deep", doc(vec![]))])),
        ("arr", BsonValue::BArray(vec![BsonValue::BNull, BsonValue::BString(s("x")), BsonValue::BArray(vec![])])),
        ("bin", BsonValue::BBinary(5, vec![0u8, 255, 1].into_boxed_slice())),
        ("undef", BsonValue::BUndefined),
        ("oid", BsonValue::BObjectID([0, 1, 2, 3, 4, 5, 6, 7, 8, 9, 10, 11])),
        ("t", BsonValue::BBoolean(true)),
        ("f", BsonValue::BBoolean(false)),
        ("date", BsonValue::BDateTime(-1)),
        ("null", BsonValue::BNull),
        ("re", BsonValue::BRegex(s("^a.*"), s("im"))),
        ("js", BsonValue::BJSCode(s("function(){}"))),
        ("i32", BsonValue::BInt32(2147483647)),
        ("ts", BsonValue::BTimeStamp(i64::MAX)),
        ("i64", BsonValue::BInt64(i64::MIN)),
        ("max", BsonValue::BMaxKey),
        ("min", BsonValue::BMinKey),
        ("d", BsonValue::BInt32(7)),
    ])
}

#[test]
fn what_is_written_is_read_back() {
    let d = sample();
    let bytes = encode(&d);
    assert_eq!(BsonValue::from_bson(&bytes).unwrap(), d);
    let mut i = 0;
    assert_eq!(slurp_document(&bytes, &mut i).unwrap(), d);
    assert_eq!(i, bytes.len());
}

#[test]
fn the_length_in_front_of_a_document_is_passed_over() {
    let mut bytes = hello_world();
    bytes[0] = 0xff;
    bytes.extend_from_slice(&[1, 2, 3]);
    let mut i = 0;
    let d = slurp_document(&bytes, &mut i).unwrap();
    assert_eq!(d, doc(vec![("hello", BsonValue::BString(s("world")))]));
    assert_eq!(i, 22);
}

#[test]
fn code_with_scope_is_read_without_its_scope() {
    // kind 15: a length, the code, a document
    let mut bytes = vec![0u8, 0, 0, 0, 15, b'c', 0, 0, 0, 0, 0, 2, 0, 0, 0, b'x', 0];
    bytes.extend_from_slice(&hello_world());
    bytes.push(0);
    assert_eq!(BsonValue::from_bson(&bytes).unwrap(), doc(vec![("c", BsonValue::BJSCodeWithScope(s("x")))]));
}

#[test]
fn the_outdated_reference_is_read_as_its_twelve_bytes() {
    let mut bytes = vec![0u8, 0, 0, 0, 12, b'r', 0, 3, 0, 0, 0, b'n', b's', 0];
    bytes.extend_from_slice(&[1, 2, 3, 4, 5, 6, 7, 8, 9, 10, 11, 12]);
    bytes.push(0);
    assert_eq!(
        BsonValue::from_bson(&bytes).unwrap(),
        doc(vec![("r", BsonValue::BObjectID([1, 2, 3, 4, 5, 6, 7, 8, 9, 10, 11, 12]))])
    );
}

#[test]
fn bytes_that_end_too_early_are_refused() {
    let whole = encode(&sample());
    for cut in 0..whole.len() {
        let r = BsonValue::from_bson(&whole[..cut]);
        assert!(
            matches!(r, Err(BsonError::CorruptFile("unexpected end of BSON data"))),
            "cut at {}",
            cut
        );
    }
    let mut i = 99;
    assert!(matches!(slurp_document(&whole[..4], &mut i), Err(BsonError::CorruptFile(_))));
}

#[test]
fn an_unknown_kind_of_value_is_refused() {
    let bytes = vec![0u8, 0, 0, 0, 14, b'k', 0, 0];
    assert!(matches!(
        BsonValue::from_bson(&bytes),
        Err(BsonError::CorruptFile("invalid BSON value type"))
    ));
}

#[test]
fn a_key_that_is_no_utf8_is_refused() {
    let bytes = vec![0u8, 0, 0, 0, 10, 0xc3, 0x28, 0, 0];
    assert!(matches!(BsonValue::from_bson(&bytes), Err(BsonError::Utf8(_))));
}

#[test]
fn strings_are_compared() {
    assert!(str_eq("abc", "abc"));
    assert!(!str_eq("abc", "abd"));
    assert!(!str_eq("abc", "ab"));
    assert!(str_eq("", ""));
    assert!(str_eq_ignore_ascii_case("HeLLo", "hEllO"));
    assert!(str_eq_ignore_ascii_case("a[b", "A[b"));
    assert!(!str_eq_ignore_ascii_case("a[b", "a{b"));
    assert!(!str_eq_ignore_ascii_case("é", "É"));
    assert!(!str_eq_ignore_ascii_case("abc", "abcd"));
}

#[test]
fn values_are_found_by_key() {
    let d = sample();
    assert_eq!(d.getValueForKey("i32").unwrap(), &BsonValue::BInt32(2147483647));
    // the first of two pairs with the same key
    assert_eq!(d.getValueForKey("d").unwrap(), &BsonValue::BDouble((-2.25f64).to_bits()));
    assert!(matches!(d.getValueForKey("I32"), Err(BsonError::Misc("required key not found"))));
    assert!(matches!(BsonValue::BNull.getValueForKey("x"), Err(BsonError::Misc("required key not found"))));
    assert_eq!(d.tryGetValueForKey("nope"), None);
    assert!(d.hasValueForKey("oid"));
    assert!(!d.hasValueForKey("OID"));
    assert_eq!(d.tryGetValueForInsensitiveKey("OID"), d.tryGetValueForKey("oid"));
    assert_eq!(d.getValueForInsensitiveKey("NULL").unwrap(), &BsonValue::BNull);
    assert!(matches!(d.getValueForInsensitiveKey("nil"), Err(BsonError::Misc("required key not found"))));
    if let BsonValue::BDocument(pairs) = &d {
        assert_eq!(slice_find(pairs, "s"), Some(1));
        assert_eq!(slice_find(pairs, "d"), Some(0));
        assert_eq!(slice_find(pairs, "zzz"), None);
    } else {
        panic!();
    }
}

#[test]
fn values_are_found_by_position() {
    let a = BsonValue::BArray(vec![BsonValue::BInt32(1), BsonValue::BInt32(2)]);
    assert_eq!(a.tryGetValueAtIndex(1), Some(&BsonValue::BInt32(2)));
    assert_eq!(a.tryGetValueAtIndex(2), None);
    assert_eq!(BsonValue::BNull.tryGetValueAtIndex(0), None);
}

#[test]
fn kinds_are_told_apart() {
    assert!(BsonValue::BNull.isNull());
    assert!(!BsonValue::BUndefined.isNull());
    assert!(BsonValue::BArray(vec![]).isArray());
    assert!(!doc(vec![]).isArray());
    assert!(doc(vec![]).isDocument());
    assert!(BsonValue::BInt32(1).isNumeric());
    assert!(BsonValue::BInt64(1).isNumeric());
    assert!(BsonValue::BDouble(0).isNumeric());
    assert!(!BsonValue::BString(s("1")).isNumeric());
    assert!(BsonValue::BDateTime(1).isDate());
    assert!(!BsonValue::BTimeStamp(1).isDate());
    assert!(!BsonValue::BInt32(1).isNaN());
}

#[test]
fn the_numbers_and_ranks_of_the_kinds() {
    let all = vec![
        (BsonValue::BDouble(0), 1u8, 10),
        (BsonValue::BString(s("")), 2, 15),
        (doc(vec![]), 3, 20),
        (BsonValue::BArray(vec![]), 4, 25),
        (BsonValue::BBinary(0, vec![].into_boxed_slice()), 5, 30),
        (BsonValue::BUndefined, 6, 0),
        (BsonValue::BObjectID([0; 12]), 7, 35),
        (BsonValue::BBoolean(true), 8, 40),
        (BsonValue::BDateTime(0), 9, 45),
        (BsonValue::BNull, 10, 5),
        (BsonValue::BRegex(s(""), s("")), 11, 50),
        (BsonValue::BJSCode(s("")), 13, 60),
        (BsonValue::BJSCodeWithScope(s("")), 15, 65),
        (BsonValue::BInt32(0), 16, 10),
        (BsonValue::BTimeStamp(0), 17, 47),
        (BsonValue::BInt64(0), 18, 10),
        (BsonValue::BMinKey, 255, -1),
        (BsonValue::BMaxKey, 127, 127),
    ];
    for (v, number, order) in all {
        assert_eq!(v.getTypeNumber_u8(), number);
        assert_eq!(v.getTypeOrder(), order);
    }
}

#[test]
fn a_reference_has_ref_and_id_and_maybe_db() {
    fn pairs(keys: &[&str]) -> Vec<(String, BsonValue)> {
        keys.iter().map(|k| (k.to_string(), BsonValue::BNull)).collect()
    }
    assert!(BsonValue::is_dbref(&pairs(&["$ref", "$id"])));
    assert!(BsonValue::is_dbref(&pairs(&["$id", "$ref"])));
    assert!(BsonValue::is_dbref(&pairs(&["$ref", "$id", "$db"])));
    assert!(!BsonValue::is_dbref(&pairs(&["$ref", "$id", "other"])));
    assert!(!BsonValue::is_dbref(&pairs(&["$ref", "$db"])));
    assert!(!BsonValue::is_dbref(&pairs(&["$ref"])));
    assert!(!BsonValue::is_dbref(&pairs(&["$ref", "$id", "$db", "x"])));
    assert!(!BsonValue::is_dbref(&pairs(&[])));
}

#[test]
fn values_are_taken_as_their_kind() {
    assert_eq!(BsonValue::BString(s("x")).getString().unwrap(), "x");
    assert!(matches!(BsonValue::BNull.getString(), Err(BsonError::Misc("must be string"))));
    assert_eq!(BsonValue::BArray(vec![BsonValue::BNull]).getArray().unwrap(), &vec![BsonValue::BNull]);
    assert!(matches!(doc(vec![]).getArray(), Err(BsonError::Misc("must be array"))));
    assert_eq!(doc(vec![("a", BsonValue::BNull)]).getDocument().unwrap(), &vec![(s("a"), BsonValue::BNull)]);
    assert!(matches!(BsonValue::BNull.getDocument(), Err(BsonError::Misc("must be document"))));
    assert_eq!(BsonValue::BBoolean(true).getBool().unwrap(), true);
    assert!(matches!(BsonValue::BInt32(1).getBool(), Err(BsonError::Misc("must be bool"))));
    assert_eq!(BsonValue::BDateTime(9).getDate().unwrap(), 9);
    assert!(matches!(BsonValue::BInt64(9).getDate(), Err(BsonError::Misc("must be DateTime"))));
    assert_eq!(BsonValue::BInt32(-4).getInt32().unwrap(), -4);
    assert!(matches!(BsonValue::BInt64(4).getInt32(), Err(BsonError::Misc("must be i32"))));
}

fn doubles() -> Vec<f64> {
    vec![
        0.0, -0.0, 0.5, -0.5, 0.999999, 1.0, -1.0, 1.5, -1.5, 2.0, 255.9, 2147483647.0,
        2147483647.5, 2147483648.0, -2147483648.0, -2147483648.5, -2147483649.0, 4294967295.0,
        4294967296.0, 1e10, -1e10, 4503599627370495.5, 4503599627370496.0, 4503599627370497.0,
        9007199254740992.0, 9007199254740994.0, 9.2e18, 9223372036854775807.0, 9.3e18, -9.2e18,
        -9223372036854775808.0, -9.3e18, 1.8e19, 18446744073709551615.0, 2e19, 1e300, -1e300,
        f64::INFINITY, f64::NEG_INFINITY, f64::NAN, -f64::NAN, f64::MIN_POSITIVE, 5e-324,
        f64::MAX, f64::MIN, 123456789.987, -123456789.987,
    ]
}

#[test]
fn a_double_is_cut_as_a_cast_cuts_it() {
    for f in doubles() {
        let bits = f.to_bits();
        assert_eq!(double_as_i32(bits), f as i32, "{} as i32", f);
        assert_eq!(double_as_i64(bits), f as i64, "{} as i64", f);
        assert_eq!(double_as_usize(bits), f as usize, "{} as usize", f);
    }
}

#[test]
fn values_are_taken_as_numbers_and_truth() {
    for f in doubles() {
        let v = BsonValue::BDouble(f.to_bits());
        assert_eq!(v.isNaN(), f.is_nan(), "{}", f);
        assert_eq!(v.getAsExprBool(), !(f == 0.0), "{}", f);
        assert_eq!(v.getAsBool().unwrap(), (f as i32) != 0, "{}", f);
        assert_eq!(v.getAsInt32().unwrap(), f as i32);
        assert_eq!(v.getAsInt64().unwrap(), f as i64);
    }
    assert_eq!(BsonValue::BInt32(7).getAsInt32().unwrap(), 7);
    assert_eq!(BsonValue::BInt64(4294967297).getAsInt32().unwrap(), 1);
    assert_eq!(BsonValue::BInt64(-1).getAsInt32().unwrap(), -1);
    assert_eq!(BsonValue::BInt64(2147483648).getAsInt32().unwrap(), -2147483648);
    assert!(matches!(BsonValue::BNull.getAsInt32(), Err(BsonError::Misc("must be convertible to int32"))));
    assert_eq!(BsonValue::BInt32(-7).getAsInt64().unwrap(), -7);
    assert_eq!(BsonValue::BInt64(i64::MAX).getAsInt64().unwrap(), i64::MAX);
    assert_eq!(BsonValue::BDateTime(12).getAsInt64().unwrap(), 12);
    assert!(matches!(BsonValue::BTimeStamp(1).getAsInt64(), Err(BsonError::Misc("must be convertible to int64"))));
    assert_eq!(BsonValue::BBoolean(false).getAsBool().unwrap(), false);
    assert_eq!(BsonValue::BInt32(0).getAsBool().unwrap(), false);
    assert_eq!(BsonValue::BInt64(-5).getAsBool().unwrap(), true);
    assert!(matches!(BsonValue::BNull.getAsBool(), Err(BsonError::Misc("must be convertible to bool"))));
    assert!(!BsonValue::BBoolean(false).getAsExprBool());
    assert!(BsonValue::BBoolean(true).getAsExprBool());
    assert!(!BsonValue::BNull.getAsExprBool());
    assert!(!BsonValue::BUndefined.getAsExprBool());
    assert!(!BsonValue::BInt32(0).getAsExprBool());
    assert!(!BsonValue::BInt64(0).getAsExprBool());
    assert!(BsonValue::BInt64(1).getAsExprBool());
    assert!(BsonValue::BString(s("")).getAsExprBool());
}

#[test]
fn arrays_are_changed_in_place() {
    let mut a = BsonValue::BArray(vec![BsonValue::BInt32(1), BsonValue::BInt32(2), BsonValue::BInt32(3)]);
    a.setValueAtIndex(1, BsonValue::BNull);
    assert_eq!(a, BsonValue::BArray(vec![BsonValue::BInt32(1), BsonValue::BNull, BsonValue::BInt32(3)]));
    a.removeValueAtIndex(0);
    assert_eq!(a, BsonValue::BArray(vec![BsonValue::BNull, BsonValue::BInt32(3)]));
    a.unsetValueAtIndex(1);
    assert_eq!(a, BsonValue::BArray(vec![BsonValue::BNull, BsonValue::BNull]));
    a.unsetValueAtIndex(2);
    assert_eq!(a, BsonValue::BArray(vec![BsonValue::BNull, BsonValue::BNull]));
}

#[test]
fn documents_are_changed_in_place() {
    let mut d = doc(vec![("a", BsonValue::BInt32(1)), ("b", BsonValue::BInt32(2)), ("a", BsonValue::BInt32(3))]);
    d.setValueForKey("a", BsonValue::BNull);
    assert_eq!(d, doc(vec![("a", BsonValue::BNull), ("b", BsonValue::BInt32(2)), ("a", BsonValue::BInt32(3))]));
    d.setValueForKey("c", BsonValue::BInt32(4));
    assert_eq!(
        d,
        doc(vec![
            ("a", BsonValue::BNull),
            ("b", BsonValue::BInt32(2)),
            ("a", BsonValue::BInt32(3)),
            ("c", BsonValue::BInt32(4)),
        ])
    );
    d.unsetValueForKey("a");
    assert_eq!(d, doc(vec![("b", BsonValue::BInt32(2)), ("a", BsonValue::BInt32(3)), ("c", BsonValue::BInt32(4))]));
    d.unsetValueForKey("zzz");
    assert_eq!(d, doc(vec![("b", BsonValue::BInt32(2)), ("a", BsonValue::BInt32(3)), ("c", BsonValue::BInt32(4))]));
    d.add_pair("b", BsonValue::BNull);
    assert_eq!(
        d,
        doc(vec![
            ("b", BsonValue::BInt32(2)),
            ("a", BsonValue::BInt32(3)),
            ("c", BsonValue::BInt32(4)),
            ("b", BsonValue::BNull),
        ])
    );
}
