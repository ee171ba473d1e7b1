use std::sync::Arc;

use lsm::key::{compare_keys, KeyOrder};
use lsm::{Blob, LsmError, MultiCursor, SeekOp, Segment, SegmentCursor};

fn k(s: &str) -> Vec<u8> {
    s.as_bytes().to_vec()
}

fn seg(pairs: &[(&str, Option<&str>)]) -> Arc<Segment> {
    let v = pairs
        .iter()
        .map(|(key, val)| {
            (
                k(key),
                match val {
                    Some(x) => Blob::Array(k(x)),
                    None => Blob::Tombstone,
                },
            )
        })
        .collect();
    Arc::new(Segment::from_unsorted(v))
}

fn text(b: Blob) -> Option<String> {
    match b {
        Blob::Array(a) => Some(String::from_utf8(a).unwrap()),
        Blob::Tombstone => None,
        Blob::Stream(_) => panic!(),
    }
}

#[test]
fn keys_are_ordered_byte_by_byte() {
    assert_eq!(compare_keys(b"", b""), KeyOrder::Equal);
    assert_eq!(compare_keys(b"", b"a"), KeyOrder::Less);
    assert_eq!(compare_keys(b"a", b""), KeyOrder::Greater);
    assert_eq!(compare_keys(b"abc", b"abc"), KeyOrder::Equal);
    assert_eq!(compare_keys(b"abc", b"abd"), KeyOrder::Less);
    assert_eq!(compare_keys(b"abd", b"abc"), KeyOrder::Greater);
    assert_eq!(compare_keys(b"ab", b"abc"), KeyOrder::Less);
    assert_eq!(compare_keys(b"abc", b"ab"), KeyOrder::Greater);
    assert_eq!(compare_keys(b"10", b"8"), KeyOrder::Less);
    assert_eq!(compare_keys(&[0x7f], &[0x80]), KeyOrder::Less);
    assert_eq!(compare_keys(&[0xff], &[0x00, 0xff]), KeyOrder::Greater);
}

#[test]
fn a_segment_is_sorted_and_searched_by_halving() {
    let s = seg(&[("m", Some("1")), ("c", Some("2")), ("x", None), ("c", Some("3"))]);
    assert_eq!(s.len(), 3);
    assert_eq!(s.key_at(0), b"c");
    assert_eq!(s.key_at(1), b"m");
    assert_eq!(s.key_at(2), b"x");
    assert_eq!(text(s.value_at(0).duplicate()), Some("3".to_string()));
    assert!(s.value_at(2).is_tombstone());
    assert_eq!(s.lower_bound(b"a"), 0);
    assert_eq!(s.lower_bound(b"c"), 0);
    assert_eq!(s.lower_bound(b"d"), 1);
    assert_eq!(s.lower_bound(b"m"), 1);
    assert_eq!(s.lower_bound(b"x"), 2);
    assert_eq!(s.lower_bound(b"y"), 3);
    assert!(matches!(
        Segment::from_sorted(vec![(k("b"), Blob::Tombstone), (k("a"), Blob::Tombstone)]),
        Err(LsmError::ConsistencyError)
    ));
    let sorted = Segment::from_sorted(vec![(k("a"), Blob::Tombstone), (k("b"), Blob::Array(k("v")))]).unwrap();
    assert_eq!(sorted.len(), 2);
    assert_eq!(sorted.key_at(1), b"b");
}

#[test]
fn a_cursor_walks_one_segment() {
    let mut c = SegmentCursor::new(seg(&[("b", Some("2")), ("d", None), ("f", Some("6"))]));
    assert!(!c.IsValid());
    assert_eq!(c.Key(), Err(LsmError::InvalidUsage));
    c.Next();
    assert!(!c.IsValid());
    c.First();
    assert_eq!(c.Key().unwrap(), k("b"));
    assert_eq!(c.ValueLength().unwrap(), Some(1));
    c.Next();
    assert_eq!(c.Key().unwrap(), k("d"));
    assert_eq!(c.ValueLength().unwrap(), None);
    assert!(c.Value().unwrap().is_tombstone());
    c.Next();
    assert_eq!(c.Key().unwrap(), k("f"));
    c.Next();
    assert!(!c.IsValid());
    c.Prev();
    assert!(!c.IsValid());
    c.Last();
    assert_eq!(c.Key().unwrap(), k("f"));
    c.Prev();
    c.Prev();
    assert_eq!(c.Key().unwrap(), k("b"));
    c.Prev();
    assert!(!c.IsValid());
    for (target, op, lands) in [
        ("d", SeekOp::SEEK_EQ, Some("d")),
        ("c", SeekOp::SEEK_EQ, None),
        ("c", SeekOp::SEEK_LE, Some("b")),
        ("c", SeekOp::SEEK_GE, Some("d")),
        ("d", SeekOp::SEEK_LE, Some("d")),
        ("d", SeekOp::SEEK_GE, Some("d")),
        ("a", SeekOp::SEEK_LE, None),
        ("a", SeekOp::SEEK_GE, Some("b")),
        ("g", SeekOp::SEEK_GE, None),
        ("g", SeekOp::SEEK_LE, Some("f")),
    ] {
        c.Seek(&k(target), op);
        assert_eq!(c.Key().ok(), lands.map(k), "{} {:?}", target, op);
    }
    let mut empty = SegmentCursor::new(seg(&[]));
    empty.First();
    assert!(!empty.IsValid());
    empty.Last();
    assert!(!empty.IsValid());
    empty.Seek(b"a", SeekOp::SEEK_GE);
    assert!(!empty.IsValid());
}

#[test]
fn the_merged_cursor_shows_tombstones_and_the_newest_value() {
    let segs = vec![
        seg(&[("a", Some("old a")), ("c", Some("old c")), ("e", Some("old e"))]),
        seg(&[("b", Some("b")), ("c", None)]),
        seg(&[("a", Some("new a")), ("f", None)]),
    ];
    let mut m = MultiCursor::new(&segs);
    assert!(!m.IsValid());
    assert_eq!(m.Key(), Err(LsmError::InvalidUsage));
    let mut seen = Vec::new();
    m.First();
    while m.IsValid() {
        seen.push((String::from_utf8(m.Key().unwrap()).unwrap(), text(m.Value().unwrap())));
        m.Next();
    }
    let expected: Vec<(String, Option<String>)> = [
        ("a", Some("new a")),
        ("b", Some("b")),
        ("c", None),
        ("e", Some("old e")),
        ("f", None),
    ]
    .iter()
    .map(|(a, b)| (a.to_string(), b.map(|x| x.to_string())))
    .collect();
    assert_eq!(seen, expected);
    let mut back = Vec::new();
    m.Last();
    while m.IsValid() {
        back.push((String::from_utf8(m.Key().unwrap()).unwrap(), text(m.Value().unwrap())));
        m.Prev();
    }
    back.reverse();
    assert_eq!(back, expected);
    // a change of direction in the middle
    m.Seek(b"c", SeekOp::SEEK_EQ);
    assert_eq!(m.ValueLength().unwrap(), None);
    m.Next();
    assert_eq!(m.Key().unwrap(), k("e"));
    m.Prev();
    assert_eq!(m.Key().unwrap(), k("c"));
    m.Prev();
    assert_eq!(m.Key().unwrap(), k("b"));
    m.Next();
    m.Next();
    assert_eq!(m.Key().unwrap(), k("e"));
    assert_eq!(m.ValueLength().unwrap(), Some(5));
    // a newer segment without the key does not hide an older one that has it
    m.Seek(b"e", SeekOp::SEEK_EQ);
    assert_eq!(text(m.Value().unwrap()), Some("old e".to_string()));
    m.Seek(b"d", SeekOp::SEEK_EQ);
    assert!(!m.IsValid());
    m.Seek(b"d", SeekOp::SEEK_LE);
    assert_eq!(m.Key().unwrap(), k("c"));
    m.Seek(b"d", SeekOp::SEEK_GE);
    assert_eq!(m.Key().unwrap(), k("e"));
    m.Seek(b"g", SeekOp::SEEK_GE);
    assert!(!m.IsValid());
    m.Next();
    assert!(!m.IsValid());
    m.Prev();
    assert!(!m.IsValid());
}
