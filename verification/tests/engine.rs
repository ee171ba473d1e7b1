use lsm::{db, Blob, ByteStream, DbSettings, LivingCursor, LsmError, SeekOp};

fn to_utf8(s: &str) -> Vec<u8> {
    s.to_string().into_bytes()
}

fn from_utf8(a: Vec<u8>) -> String {
    String::from_utf8(a).unwrap()
}

fn insert_pair_string_string(d: &mut Vec<(Vec<u8>, Vec<u8>)>, k: &str, v: &str) {
    d.push((to_utf8(k), to_utf8(v)));
}

fn insert_pair_string_blob(d: &mut Vec<(Vec<u8>, Blob)>, k: &str, v: Blob) {
    d.push((to_utf8(k), v));
}

fn generate_numbers(cur: usize, end: usize, step: usize) -> Vec<(Vec<u8>, Blob)> {
    let mut r = Vec::new();
    let mut cur = cur;
    while cur < end {
        let k = format!("{:08}", cur).into_bytes();
        let v = format!("{}", cur * 2).into_bytes();
        r.push((k, Blob::Array(v)));
        cur = cur + step;
    }
    r
}

fn count_keys_forward(csr: &mut LivingCursor) -> usize {
    let mut r = 0;
    csr.First();
    while csr.IsValid() {
        r = r + 1;
        csr.Next();
    }
    r
}

fn count_keys_backward(csr: &mut LivingCursor) -> usize {
    let mut r = 0;
    csr.Last();
    while csr.IsValid() {
        r = r + 1;
        csr.Prev();
    }
    r
}

fn read_value(b: Blob) -> Vec<u8> {
    match b {
        Blob::Stream(mut strm) => {
            let mut a = Vec::new();
            strm.read_to_end(&mut a);
            a
        }
        Blob::Array(a) => a,
        Blob::Tombstone => panic!(),
    }
}

#[test]
fn empty_cursor() {
    let db = db::new(DbSettings::default());
    let mut csr = db.OpenCursor();
    csr.First();
    assert!(!csr.IsValid());
    csr.Last();
    assert!(!csr.IsValid());
}

#[test]
fn first_prev() {
    let mut db = db::new(DbSettings::default());
    let g = db.WriteSegmentFromSortedSequence(generate_numbers(0, 100, 1)).unwrap();
    {
        let lck = db.GetWriteLock();
        lck.commitSegments(vec![g]);
    }
    let mut csr = db.OpenCursor();
    csr.First();
    assert!(csr.IsValid());
    csr.Prev();
    assert!(!csr.IsValid());
}

#[test]
fn last_next() {
    let mut db = db::new(DbSettings::default());
    let g = db.WriteSegmentFromSortedSequence(generate_numbers(0, 100, 1)).unwrap();
    {
        let lck = db.GetWriteLock();
        lck.commitSegments(vec![g]);
    }
    let mut csr = db.OpenCursor();
    csr.Last();
    assert!(csr.IsValid());
    csr.Next();
    assert!(!csr.IsValid());
}

#[test]
fn seek() {
    let mut db = db::new(DbSettings::default());
    let g = db.WriteSegmentFromSortedSequence(generate_numbers(0, 100, 1)).unwrap();
    {
        let lck = db.GetWriteLock();
        lck.commitSegments(vec![g]);
    }
    let mut csr = db.OpenCursor();
    csr.First();
    assert!(csr.IsValid());

    let k = format!("{:08}", 42).into_bytes();
    csr.Seek(&k, SeekOp::SEEK_EQ);
    assert!(csr.IsValid());

    let k = format!("{:08}", 105).into_bytes();
    csr.Seek(&k, SeekOp::SEEK_EQ);
    assert!(!csr.IsValid());

    let k = format!("{:08}", 105).into_bytes();
    csr.Seek(&k, SeekOp::SEEK_GE);
    assert!(!csr.IsValid());

    let k = format!("{:08}", 105).into_bytes();
    csr.Seek(&k, SeekOp::SEEK_LE);
    assert!(csr.IsValid());
    assert_eq!(from_utf8(csr.Key().unwrap()), "00000099");
}

#[test]
fn lexographic() {
    let mut db = db::new(DbSettings::default());
    let mut d = Vec::new();
    insert_pair_string_string(&mut d, "8", "");
    insert_pair_string_string(&mut d, "10", "");
    insert_pair_string_string(&mut d, "20", "");
    let g = db.WriteSegment(d);
    {
        let lck = db.GetWriteLock();
        lck.commitSegments(vec![g]);
    }
    let mut csr = db.OpenCursor();
    csr.First();
    assert!(csr.IsValid());
    assert_eq!(from_utf8(csr.Key().unwrap()), "10");

    csr.Next();
    assert!(csr.IsValid());
    assert_eq!(from_utf8(csr.Key().unwrap()), "20");

    csr.Next();
    assert!(csr.IsValid());
    assert_eq!(from_utf8(csr.Key().unwrap()), "8");

    csr.Next();
    assert!(!csr.IsValid());

    // --------
    csr.Last();
    assert!(csr.IsValid());
    assert_eq!(from_utf8(csr.Key().unwrap()), "8");

    csr.Prev();
    assert!(csr.IsValid());
    assert_eq!(from_utf8(csr.Key().unwrap()), "20");

    csr.Prev();
    assert!(csr.IsValid());
    assert_eq!(from_utf8(csr.Key().unwrap()), "10");

    csr.Prev();
    assert!(!csr.IsValid());
}

fn two_ranges() -> db {
    let mut db = db::new(DbSettings::default());
    let mut t1 = Vec::new();
    for i in 0..100 {
        let sk = format!("{:03}", i);
        let sv = format!("{}", i);
        insert_pair_string_string(&mut t1, &sk, &sv);
    }
    let mut t2 = Vec::new();
    for i in 0..1000 {
        let sk = format!("{:05}", i);
        let sv = format!("{}", i);
        insert_pair_string_string(&mut t2, &sk, &sv);
    }
    let g1 = db.WriteSegment(t1);
    let g2 = db.WriteSegment(t2);
    {
        let lck = db.GetWriteLock();
        lck.commitSegments(vec![g1]);
        lck.commitSegments(vec![g2]);
    }
    db
}

#[test]
fn seek_cur() {
    let db = two_ranges();
    let mut csr = db.OpenCursor();
    csr.Seek(&to_utf8("00001"), SeekOp::SEEK_EQ);
    assert!(csr.IsValid());
}

#[test]
fn weird() {
    let db = two_ranges();
    let mut csr = db.OpenCursor();
    csr.First();
    for _ in 0..100 {
        csr.Next();
        assert!(csr.IsValid());
    }
    for _ in 0..50 {
        csr.Prev();
        assert!(csr.IsValid());
    }
    for _ in 0..100 {
        csr.Next();
        assert!(csr.IsValid());
        csr.Next();
        assert!(csr.IsValid());
        csr.Prev();
        assert!(csr.IsValid());
    }
    for _ in 0..50 {
        let k = csr.Key().unwrap();
        csr.Seek(&k, SeekOp::SEEK_EQ);
        assert!(csr.IsValid());
        csr.Next();
        assert!(csr.IsValid());
    }
    for _ in 0..50 {
        let k = csr.Key().unwrap();
        csr.Seek(&k, SeekOp::SEEK_EQ);
        assert!(csr.IsValid());
        csr.Prev();
        assert!(csr.IsValid());
    }
    for _ in 0..50 {
        let k = csr.Key().unwrap();
        csr.Seek(&k, SeekOp::SEEK_LE);
        assert!(csr.IsValid());
        csr.Prev();
        assert!(csr.IsValid());
    }
    for _ in 0..50 {
        let k = csr.Key().unwrap();
        csr.Seek(&k, SeekOp::SEEK_GE);
        assert!(csr.IsValid());
        csr.Next();
        assert!(csr.IsValid());
    }
    // whatever the mix of steps and seeks, the cursor must end here
    assert_eq!(from_utf8(csr.Key().unwrap()), "00148");
}

#[test]
fn no_le_ge_multicursor() {
    let mut db = db::new(DbSettings::default());

    let mut t1 = Vec::new();
    insert_pair_string_string(&mut t1, "c", "3");
    insert_pair_string_string(&mut t1, "g", "7");
    let g1 = db.WriteSegment(t1);
    {
        let lck = db.GetWriteLock();
        lck.commitSegments(vec![g1]);
    }

    let mut t2 = Vec::new();
    insert_pair_string_string(&mut t2, "e", "5");
    let g2 = db.WriteSegment(t2);
    {
        let lck = db.GetWriteLock();
        lck.commitSegments(vec![g2]);
    }

    let mut csr = db.OpenCursor();

    csr.Seek(&to_utf8("a"), SeekOp::SEEK_LE);
    assert!(!csr.IsValid());

    csr.Seek(&to_utf8("d"), SeekOp::SEEK_LE);
    assert!(csr.IsValid());

    csr.Seek(&to_utf8("f"), SeekOp::SEEK_GE);
    assert!(csr.IsValid());

    csr.Seek(&to_utf8("h"), SeekOp::SEEK_GE);
    assert!(!csr.IsValid());
}

#[test]
fn empty_val() {
    let mut db = db::new(DbSettings::default());

    let mut t1 = Vec::new();
    insert_pair_string_string(&mut t1, "_", "");
    let g1 = db.WriteSegment(t1);
    {
        let lck = db.GetWriteLock();
        lck.commitSegments(vec![g1]);
    }
    let mut csr = db.OpenCursor();
    csr.Seek(&to_utf8("_"), SeekOp::SEEK_EQ);
    assert!(csr.IsValid());
    assert_eq!(0, csr.ValueLength().unwrap().unwrap());
}

fn abcd() -> db {
    let mut db = db::new(DbSettings::default());
    let mut t1 = Vec::new();
    insert_pair_string_string(&mut t1, "a", "1");
    insert_pair_string_string(&mut t1, "b", "2");
    insert_pair_string_string(&mut t1, "c", "3");
    insert_pair_string_string(&mut t1, "d", "4");
    let g1 = db.WriteSegment(t1);
    {
        let lck = db.GetWriteLock();
        lck.commitSegments(vec![g1]);
    }
    db
}

fn delete(db: &mut db, k: &str) {
    let mut t2 = Vec::new();
    insert_pair_string_blob(&mut t2, k, Blob::Tombstone);
    let g2 = db.WriteSegment2(t2);
    {
        let lck = db.GetWriteLock();
        lck.commitSegments(vec![g2]);
    }
}

#[test]
fn delete_not_there() {
    let mut db = abcd();
    delete(&mut db, "e");

    let mut csr = db.OpenCursor();
    assert_eq!(4, count_keys_forward(&mut csr));
    assert_eq!(4, count_keys_backward(&mut csr));
}

#[test]
fn delete_nothing_there() {
    let mut db = db::new(DbSettings::default());
    delete(&mut db, "e");

    let mut csr = db.OpenCursor();
    assert_eq!(0, count_keys_forward(&mut csr));
    assert_eq!(0, count_keys_backward(&mut csr));
}

fn simple_tombstone_for(del: &str) {
    let mut db = abcd();
    delete(&mut db, del);

    let mut csr = db.OpenCursor();
    assert_eq!(3, count_keys_forward(&mut csr));
    assert_eq!(3, count_keys_backward(&mut csr));
}

#[test]
fn simple_tombstone() {
    simple_tombstone_for("a");
    simple_tombstone_for("b");
    simple_tombstone_for("c");
    simple_tombstone_for("d");
}

#[test]
fn many_segments() {
    let mut db = db::new(DbSettings::default());

    const NUM: usize = 5000;
    const EACH: usize = 10;

    let mut a = Vec::new();
    for i in 0..NUM {
        let g = db
            .WriteSegmentFromSortedSequence(generate_numbers(i * EACH, (i + 1) * EACH, 1))
            .unwrap();
        a.push(g);
    }
    {
        let lck = db.GetWriteLock();
        lck.commitSegments(a.clone());
    }
    let mut csr = db.OpenCursor();
    csr.Last();
    assert_eq!(from_utf8(csr.Key().unwrap()), "00049999");
}

#[test]
fn one_blob() {
    let mut db = db::new(DbSettings::default());

    const LEN: usize = 100000;

    let mut v = Vec::new();
    for i in 0..LEN {
        v.push(i as u8);
    }
    assert_eq!(LEN, v.len());
    let mut t2 = Vec::new();
    insert_pair_string_blob(&mut t2, "e", Blob::Array(v));
    let g2 = db.WriteSegment2(t2);
    {
        let lck = db.GetWriteLock();
        lck.commitSegments(vec![g2]);
    }

    let mut csr = db.OpenCursor();
    assert_eq!(1, count_keys_forward(&mut csr));
    assert_eq!(1, count_keys_backward(&mut csr));

    csr.First();
    assert!(csr.IsValid());
    assert_eq!(LEN, csr.ValueLength().unwrap().unwrap());
    let q = csr.Value().unwrap();

    match q {
        Blob::Tombstone => assert!(false),
        Blob::Array(ref a) => {
            assert_eq!(LEN, a.len());
            assert_eq!(a[257], 1u8);
        }
        Blob::Stream(mut r) => {
            let mut a = Vec::new();
            r.read_to_end(&mut a);
            assert_eq!(LEN, a.len());
        }
    }
}

#[test]
fn no_le_ge() {
    let mut db = db::new(DbSettings::default());
    let mut t1 = Vec::new();
    insert_pair_string_string(&mut t1, "c", "3");
    insert_pair_string_string(&mut t1, "g", "7");
    insert_pair_string_string(&mut t1, "e", "5");
    let g1 = db.WriteSegment(t1);
    {
        let lck = db.GetWriteLock();
        lck.commitSegments(vec![g1]);
    }
    let mut csr = db.OpenCursor();
    csr.Seek(&to_utf8("a"), SeekOp::SEEK_LE);
    assert!(!csr.IsValid());

    csr.Seek(&to_utf8("d"), SeekOp::SEEK_LE);
    assert!(csr.IsValid());

    csr.Seek(&to_utf8("f"), SeekOp::SEEK_GE);
    assert!(csr.IsValid());

    csr.Seek(&to_utf8("h"), SeekOp::SEEK_GE);
    assert!(!csr.IsValid());
}

#[test]
fn seek_ge_le_bigger() {
    let mut db = db::new(DbSettings::default());
    let mut t1 = Vec::new();
    for i in 0..10000 {
        let sk = format!("{}", i * 2);
        let sv = format!("{}", i);
        insert_pair_string_string(&mut t1, &sk, &sv);
    }
    let g = db.WriteSegment(t1);
    {
        let lck = db.GetWriteLock();
        lck.commitSegments(vec![g]);
    }
    let mut csr = db.OpenCursor();
    csr.Seek(&to_utf8("8088"), SeekOp::SEEK_EQ);
    assert!(csr.IsValid());

    csr.Seek(&to_utf8("8087"), SeekOp::SEEK_EQ);
    assert!(!csr.IsValid());

    csr.Seek(&to_utf8("8087"), SeekOp::SEEK_LE);
    assert!(csr.IsValid());
    assert_eq!("8086", from_utf8(csr.Key().unwrap()));

    csr.Seek(&to_utf8("8087"), SeekOp::SEEK_GE);
    assert!(csr.IsValid());
    assert_eq!("8088", from_utf8(csr.Key().unwrap()));
}

#[test]
fn seek_ge_le() {
    let mut db = db::new(DbSettings::default());
    let mut t1 = Vec::new();
    insert_pair_string_string(&mut t1, "a", "1");
    insert_pair_string_string(&mut t1, "c", "3");
    insert_pair_string_string(&mut t1, "e", "5");
    insert_pair_string_string(&mut t1, "g", "7");
    insert_pair_string_string(&mut t1, "i", "9");
    insert_pair_string_string(&mut t1, "k", "11");
    insert_pair_string_string(&mut t1, "m", "13");
    insert_pair_string_string(&mut t1, "o", "15");
    insert_pair_string_string(&mut t1, "q", "17");
    insert_pair_string_string(&mut t1, "s", "19");
    insert_pair_string_string(&mut t1, "u", "21");
    insert_pair_string_string(&mut t1, "w", "23");
    insert_pair_string_string(&mut t1, "y", "25");
    let g = db.WriteSegment(t1);
    {
        let lck = db.GetWriteLock();
        lck.commitSegments(vec![g]);
    }
    let mut csr = db.OpenCursor();
    assert_eq!(13, count_keys_forward(&mut csr));
    assert_eq!(13, count_keys_backward(&mut csr));

    csr.Seek(&to_utf8("n"), SeekOp::SEEK_EQ);
    assert!(!csr.IsValid());

    csr.Seek(&to_utf8("n"), SeekOp::SEEK_LE);
    assert!(csr.IsValid());
    assert_eq!("m", from_utf8(csr.Key().unwrap()));

    csr.Seek(&to_utf8("n"), SeekOp::SEEK_GE);
    assert!(csr.IsValid());
    assert_eq!("o", from_utf8(csr.Key().unwrap()));
}

#[test]
fn tombstone() {
    let mut db = abcd();
    delete(&mut db, "b");
    let mut csr = db.OpenCursor();
    csr.First();
    assert!(csr.IsValid());
    assert_eq!("a", from_utf8(csr.Key().unwrap()));
    assert_eq!("1", from_utf8(read_value(csr.Value().unwrap())));

    csr.Next();
    assert!(csr.IsValid());
    assert_eq!("c", from_utf8(csr.Key().unwrap()));
    assert_eq!("3", from_utf8(read_value(csr.Value().unwrap())));

    csr.Next();
    assert!(csr.IsValid());
    assert_eq!("d", from_utf8(csr.Key().unwrap()));
    assert_eq!("4", from_utf8(read_value(csr.Value().unwrap())));

    csr.Next();
    assert!(!csr.IsValid());

    assert_eq!(3, count_keys_forward(&mut csr));
    assert_eq!(3, count_keys_backward(&mut csr));

    csr.Seek(&to_utf8("b"), SeekOp::SEEK_EQ);
    assert!(!csr.IsValid());

    csr.Seek(&to_utf8("b"), SeekOp::SEEK_LE);
    assert!(csr.IsValid());
    assert_eq!("a", from_utf8(csr.Key().unwrap()));
    csr.Next();
    assert!(csr.IsValid());
    assert_eq!("c", from_utf8(csr.Key().unwrap()));

    csr.Seek(&to_utf8("b"), SeekOp::SEEK_GE);
    assert!(csr.IsValid());
    assert_eq!("c", from_utf8(csr.Key().unwrap()));
    csr.Prev();
    assert_eq!("a", from_utf8(csr.Key().unwrap()));
}

fn getb(db: &db) -> String {
    let mut csr = db.OpenCursor();
    csr.Seek(&to_utf8("b"), SeekOp::SEEK_EQ);
    from_utf8(read_value(csr.Value().unwrap()))
}

#[test]
fn overwrite() {
    let mut db = abcd();
    assert_eq!("2", getb(&db));
    let mut t2 = Vec::new();
    insert_pair_string_string(&mut t2, "b", "5");
    let g2 = db.WriteSegment(t2);
    {
        let lck = db.GetWriteLock();
        lck.commitSegments(vec![g2]);
    }
    assert_eq!("5", getb(&db));
}

fn many_sizes() -> Vec<(Vec<u8>, Vec<u8>)> {
    let mut t1 = Vec::new();
    for i in 200..1500 {
        let k = format!("{}", i);
        let mut v = String::new();
        for j in 0..i {
            let s = format!("{}", j);
            v.push_str(&s);
        }
        insert_pair_string_string(&mut t1, &k, &v);
    }
    t1
}

#[test]
fn blobs_of_many_sizes() {
    let settings = DbSettings { DefaultPageSize: 256, PagesPerBlock: 4, ..DbSettings::default() };
    let mut db = db::new(settings);
    let g1 = db.WriteSegment(many_sizes());
    {
        let lck = db.GetWriteLock();
        lck.commitSegments(vec![g1]);
    }
    let mut csr = db.OpenCursor();
    let t1 = many_sizes();
    for (k, v) in t1 {
        csr.Seek(&k, SeekOp::SEEK_EQ);
        assert!(csr.IsValid());
        assert_eq!(v.len(), csr.ValueLength().unwrap().unwrap());
        assert_eq!(v, read_value(csr.Value().unwrap()));
    }
}

#[test]
fn write_then_read() {
    fn write(db: &mut db) {
        let mut d = Vec::new();
        for i in 1..100 {
            let s = format!("{}", i);
            insert_pair_string_string(&mut d, &s, &s);
        }
        let g = db.WriteSegment(d);
        {
            let lck = db.GetWriteLock();
            lck.commitSegments(vec![g]);
        }
        let mut d = Vec::new();
        insert_pair_string_blob(&mut d, "73", Blob::Tombstone);
        let g = db.WriteSegment2(d);
        {
            let lck = db.GetWriteLock();
            lck.commitSegments(vec![g]);
        }
    }

    fn read(db: &db) {
        let mut csr = db.OpenCursor();
        csr.Seek(&format!("{}", 42).into_bytes(), SeekOp::SEEK_EQ);
        assert!(csr.IsValid());
        csr.Next();
        assert_eq!("43", from_utf8(csr.Key().unwrap()));
        csr.Seek(&format!("{}", 73).into_bytes(), SeekOp::SEEK_EQ);
        assert!(!csr.IsValid());
        csr.Seek(&format!("{}", 73).into_bytes(), SeekOp::SEEK_LE);
        assert!(csr.IsValid());
        assert_eq!("72", from_utf8(csr.Key().unwrap()));
        csr.Next();
        assert!(csr.IsValid());
        assert_eq!("74", from_utf8(csr.Key().unwrap()));
    }

    let mut db = db::new(DbSettings::default());
    write(&mut db);
    read(&db);
}

#[test]
fn prefix_compression() {
    let mut db = db::new(DbSettings::default());
    let mut d = Vec::new();
    for i in 1..10000 {
        let s = format!("{}", i);
        insert_pair_string_string(&mut d, &("prefix_compression".to_string() + &s), &s);
    }
    let g = db.WriteSegment(d);
    {
        let lck = db.GetWriteLock();
        lck.commitSegments(vec![g]);
    }
    let mut csr = db.OpenCursor();
    csr.First();
    assert!(csr.IsValid());
}

#[test]
fn key_of_invalid_cursor_is_an_error() {
    let db = abcd();
    let mut csr = db.OpenCursor();
    assert_eq!(csr.Key(), Err(LsmError::InvalidUsage));
    assert!(matches!(csr.Value(), Err(LsmError::InvalidUsage)));
    assert_eq!(csr.ValueLength(), Err(LsmError::InvalidUsage));
    csr.Seek(&to_utf8("zz"), SeekOp::SEEK_GE);
    assert_eq!(csr.Key(), Err(LsmError::InvalidUsage));
}

#[test]
fn a_stream_is_read_once_from_front_to_back() {
    let mut strm = ByteStream::new(vec![1, 2, 3, 4, 5]);
    assert_eq!(strm.len(), 5);
    let mut buf = vec![9u8];
    assert_eq!(strm.read(&mut buf, 2), 2);
    assert_eq!(buf, vec![9, 1, 2]);
    assert_eq!(strm.len(), 3);
    assert_eq!(strm.peek_all(), vec![3, 4, 5]);
    assert_eq!(strm.read(&mut buf, 0), 0);
    assert_eq!(strm.read_to_end(&mut buf), 3);
    assert_eq!(buf, vec![9, 1, 2, 3, 4, 5]);
    assert_eq!(strm.len(), 0);
    assert_eq!(strm.read(&mut buf, 10), 0);
    assert_eq!(strm.read_to_end(&mut buf), 0);
    assert_eq!(buf, vec![9, 1, 2, 3, 4, 5]);
}

#[test]
fn a_streamed_value_is_stored_in_full() {
    let mut db = db::new(DbSettings::default());
    let mut strm = ByteStream::new(vec![0, 10, 20, 30]);
    let mut skipped = Vec::new();
    strm.read(&mut skipped, 1);
    let mut t = Vec::new();
    insert_pair_string_blob(&mut t, "k", Blob::Stream(strm));
    insert_pair_string_blob(&mut t, "a", Blob::Stream(ByteStream::new(vec![])));
    let g = db.WriteSegment2(t);
    db.GetWriteLock().commitSegments(vec![g]);
    let mut csr = db.OpenCursor();
    csr.Seek(&to_utf8("k"), SeekOp::SEEK_EQ);
    assert_eq!(csr.ValueLength().unwrap(), Some(3));
    assert_eq!(read_value(csr.Value().unwrap()), vec![10, 20, 30]);
    assert_eq!(read_value(csr.Value().unwrap()), vec![10, 20, 30]);
    csr.First();
    assert_eq!(from_utf8(csr.Key().unwrap()), "a");
    assert_eq!(csr.ValueLength().unwrap(), Some(0));
    let held = Blob::Stream(ByteStream::new(vec![7, 8])).materialize();
    assert!(matches!(held, Blob::Array(ref a) if a == &vec![7u8, 8]));
    assert_eq!(Blob::Tombstone.len(), None);
    assert!(Blob::Tombstone.is_tombstone());
    assert!(!Blob::Array(vec![]).is_tombstone());
}

#[test]
fn sorted_input_must_increase() {
    let db = db::new(DbSettings::default());
    let pair = |k: &str| (to_utf8(k), Blob::Array(vec![]));
    assert!(db.WriteSegmentFromSortedSequence(vec![pair("a"), pair("b"), pair("c")]).is_ok());
    assert!(db.WriteSegmentFromSortedSequence(vec![]).is_ok());
    assert!(db.WriteSegmentFromSortedSequence(vec![pair("a"), pair("ab"), pair("b")]).is_ok());
    for bad in [vec![pair("b"), pair("a")], vec![pair("a"), pair("a")], vec![pair("a"), pair("c"), pair("b")], vec![pair("8"), pair("9"), pair("10")]] {
        assert!(matches!(db.WriteSegmentFromSortedSequence(bad), Err(LsmError::ConsistencyError)));
    }
}

#[test]
fn the_later_of_two_pairs_with_one_key_decides() {
    let mut db = db::new(DbSettings::default());
    let mut t = Vec::new();
    insert_pair_string_string(&mut t, "k", "first");
    insert_pair_string_string(&mut t, "j", "other");
    insert_pair_string_string(&mut t, "k", "second");
    let g = db.WriteSegment(t);
    db.GetWriteLock().commitSegments(vec![g]);
    let mut csr = db.OpenCursor();
    assert_eq!(2, count_keys_forward(&mut csr));
    csr.Seek(&to_utf8("k"), SeekOp::SEEK_EQ);
    assert_eq!("second", from_utf8(read_value(csr.Value().unwrap())));
}

#[test]
fn a_cursor_keeps_the_snapshot_it_was_opened_on() {
    let mut db = abcd();
    let mut before = db.OpenCursor();
    delete(&mut db, "b");
    let mut t = Vec::new();
    insert_pair_string_string(&mut t, "e", "5");
    let g = db.WriteSegment(t);
    // written but not committed: nobody sees it
    let mut uncommitted = db.OpenCursor();
    assert_eq!(3, count_keys_forward(&mut uncommitted));
    db.GetWriteLock().commitSegments(vec![g]);
    assert_eq!(4, count_keys_forward(&mut before));
    assert_eq!(3, count_keys_forward(&mut uncommitted));
    before.Seek(&to_utf8("b"), SeekOp::SEEK_EQ);
    assert_eq!("2", from_utf8(read_value(before.Value().unwrap())));
    let mut after = db.OpenCursor();
    assert_eq!(4, count_keys_forward(&mut after));
    after.Last();
    assert_eq!("e", from_utf8(after.Key().unwrap()));
}

#[test]
fn a_key_written_again_after_its_tombstone_is_alive_again() {
    let mut db = abcd();
    delete(&mut db, "b");
    let mut t = Vec::new();
    insert_pair_string_string(&mut t, "b", "again");
    let g = db.WriteSegment(t);
    db.GetWriteLock().commitSegments(vec![g]);
    assert_eq!("again", getb(&db));
    let mut csr = db.OpenCursor();
    assert_eq!(4, count_keys_forward(&mut csr));
    assert_eq!(4, count_keys_backward(&mut csr));
}

#[test]
fn forward_and_backward_walks_mirror_each_other() {
    let mut db = db::new(DbSettings::default());
    let mut committed = Vec::new();
    for round in 0..7usize {
        let mut t = Vec::new();
        for i in 0..40usize {
            let k = format!("{}", (i * 7 + round * 13) % 97);
            if (i + round) % 5 == 0 {
                insert_pair_string_blob(&mut t, &k, Blob::Tombstone);
            } else {
                insert_pair_string_blob(&mut t, &k, Blob::Array(format!("{}-{}", round, i).into_bytes()));
            }
        }
        committed.push(db.WriteSegment2(t));
    }
    db.GetWriteLock().commitSegments(committed);
    let mut csr = db.OpenCursor();
    let mut up = Vec::new();
    csr.First();
    while csr.IsValid() {
        up.push((csr.Key().unwrap(), read_value(csr.Value().unwrap())));
        csr.Next();
    }
    let mut down = Vec::new();
    csr.Last();
    while csr.IsValid() {
        down.push((csr.Key().unwrap(), read_value(csr.Value().unwrap())));
        csr.Prev();
    }
    assert!(up.len() > 10);
    for w in up.windows(2) {
        assert!(w[0].0 < w[1].0);
    }
    down.reverse();
    assert_eq!(up, down);
    // each key is found by seeking it, with the same value
    for (k, v) in &up {
        csr.Seek(k, SeekOp::SEEK_EQ);
        assert!(csr.IsValid());
        assert_eq!(&read_value(csr.Value().unwrap()), v);
        csr.Seek(k, SeekOp::SEEK_LE);
        assert_eq!(&csr.Key().unwrap(), k);
        csr.Seek(k, SeekOp::SEEK_GE);
        assert_eq!(&csr.Key().unwrap(), k);
    }
}

#[test]
fn segments_over_separate_keys_commit_in_any_order() {
    let seg = |db: &db, from: usize| db.WriteSegmentFromSortedSequence(generate_numbers(from, from + 100, 1)).unwrap();
    let mut one = db::new(DbSettings::default());
    let (a, b, c) = (seg(&one, 0), seg(&one, 200), seg(&one, 100));
    one.GetWriteLock().commitSegments(vec![a, b, c]);
    let mut other = db::new(DbSettings::default());
    let (a, b, c) = (seg(&other, 0), seg(&other, 200), seg(&other, 100));
    {
        let lck = other.GetWriteLock();
        lck.commitSegments(vec![c]);
        lck.commitSegments(vec![b, a]);
    }
    let mut x = one.OpenCursor();
    let mut y = other.OpenCursor();
    assert_eq!(300, count_keys_forward(&mut x));
    assert_eq!(300, count_keys_forward(&mut y));
    x.First();
    y.First();
    while x.IsValid() {
        assert_eq!(x.Key().unwrap(), y.Key().unwrap());
        assert_eq!(read_value(x.Value().unwrap()), read_value(y.Value().unwrap()));
        x.Next();
        y.Next();
    }
    assert!(!y.IsValid());
}

#[test]
fn settings_are_kept() {
    let d = DbSettings::default();
    assert_eq!(d.DefaultPageSize, 4096);
    assert_eq!(d.PagesPerBlock, 256);
    let settings = DbSettings { DefaultPageSize: 256, PagesPerBlock: 4 };
    assert_eq!(db::new(settings).get_settings(), settings);
}

#[test]
fn each_commit_makes_a_version() {
    let mut db = db::new(DbSettings::default());
    assert_eq!(db.get_version(), 0);
    let g = db.WriteSegmentFromSortedSequence(generate_numbers(0, 10, 1)).unwrap();
    assert_eq!(db.get_version(), 0);
    {
        let lck = db.GetWriteLock();
        lck.commitSegments(vec![g]);
        lck.commitSegments(vec![]);
    }
    assert_eq!(db.get_version(), 2);
}
