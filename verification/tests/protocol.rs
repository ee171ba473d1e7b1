use lsm::bson::{BsonError, BsonValue};
use lsm::server::{
    batch_size, database_of, finish, grab, insert_args, reply_err, route, Command, Outcome, Route,
    Server,
};
use lsm::wire::{
    create_reply, parse_request, slurp_header, Error, MsgGetMore, MsgKillCursors, MsgQuery, Reply,
    Request,
};

fn s(x: &str) -> String {
    x.to_string()
}

fn doc(pairs: Vec<(&str, BsonValue)>) -> BsonValue {
    BsonValue::BDocument(pairs.into_iter().map(|(k, v)| (s(k), v)).collect())
}

fn encode(v: &BsonValue) -> Vec<u8> {
    let mut w = Vec::new();
    v.to_bson(&mut w);
    w
}

fn header(request_id: i32, op: i32) -> Vec<u8> {
    let mut m = Vec::new();
    m.extend_from_slice(&0i32.to_le_bytes());
    m.extend_from_slice(&request_id.to_le_bytes());
    m.extend_from_slice(&0i32.to_le_bytes());
    m.extend_from_slice(&op.to_le_bytes());
    m
}

fn query_message(request_id: i32, name: &str, query: &BsonValue, selector: Option<&BsonValue>) -> Vec<u8> {
    let mut m = header(request_id, 2004);
    m.extend_from_slice(&4i32.to_le_bytes());
    m.extend_from_slice(name.as_bytes());
    m.push(0);
    m.extend_from_slice(&3i32.to_le_bytes());
    m.extend_from_slice(&(-1i32).to_le_bytes());
    m.extend_from_slice(&encode(query));
    if let Some(sel) = selector {
        m.extend_from_slice(&encode(sel));
    }
    m
}

fn query(request_id: i32, name: &str, q: BsonValue) -> MsgQuery {
    MsgQuery {
        q_requestID: request_id,
        q_flags: 0,
        q_fullCollectionName: s(name),
        q_numberToSkip: 0,
        q_numberToReturn: -1,
        q_query: q,
        q_returnFieldsSelector: None,
    }
}

fn ok(n: i32) -> BsonValue {
    doc(vec![("ok", BsonValue::BInt32(n))])
}

fn answer(request_id: i32, d: BsonValue) -> Reply {
    Reply {
        r_requestID: 0,
        r_responseTo: request_id,
        r_responseFlags: 0,
        r_cursorID: 0,
        r_startingFrom: 0,
        r_documents: vec![d],
    }
}

#[test]
fn the_head_of_a_message_is_four_numbers() {
    let mut m = Vec::new();
    for n in [100i32, -2, 3, 2004] {
        m.extend_from_slice(&n.to_le_bytes());
    }
    let mut i = 0;
    assert_eq!(slurp_header(&m, &mut i), (100, -2, 3, 2004));
    assert_eq!(i, 16);
}

#[test]
fn a_query_is_read() {
    let q = doc(vec![("isMaster", BsonValue::BInt32(1))]);
    let m = query_message(7, "admin.$cmd", &q, None);
    let r = parse_request(&m).unwrap();
    assert_eq!(
        r,
        Request::Query(MsgQuery {
            q_requestID: 7,
            q_flags: 4,
            q_fullCollectionName: s("admin.$cmd"),
            q_numberToSkip: 3,
            q_numberToReturn: -1,
            q_query: doc(vec![("isMaster", BsonValue::BInt32(1))]),
            q_returnFieldsSelector: None,
        })
    );
}

#[test]
fn a_query_with_a_selector_is_read() {
    let q = doc(vec![("find", BsonValue::BString(s("c")))]);
    let sel = doc(vec![("a", BsonValue::BInt32(1))]);
    let m = query_message(-9, "db.c", &q, Some(&sel));
    match parse_request(&m).unwrap() {
        Request::Query(msg) => {
            assert_eq!(msg.q_requestID, -9);
            assert_eq!(msg.q_query, q);
            assert_eq!(msg.q_returnFieldsSelector, Some(sel));
        }
        _ => panic!(),
    }
}

#[test]
fn a_request_for_more_is_read() {
    let mut m = header(11, 2005);
    m.extend_from_slice(&0i32.to_le_bytes());
    m.extend_from_slice(b"db.coll\0");
    m.extend_from_slice(&50i32.to_le_bytes());
    m.extend_from_slice(&(-77i64).to_le_bytes());
    assert_eq!(
        parse_request(&m).unwrap(),
        Request::GetMore(MsgGetMore {
            m_requestID: 11,
            m_fullCollectionName: s("db.coll"),
            m_numberToReturn: 50,
            m_cursorID: -77,
        })
    );
}

#[test]
fn a_request_to_close_cursors_is_read() {
    let mut m = header(12, 2007);
    m.extend_from_slice(&0i32.to_le_bytes());
    m.extend_from_slice(&2i32.to_le_bytes());
    m.extend_from_slice(&5i64.to_le_bytes());
    m.extend_from_slice(&i64::MIN.to_le_bytes());
    assert_eq!(
        parse_request(&m).unwrap(),
        Request::KillCursors(MsgKillCursors { k_requestID: 12, k_cursorIDs: vec![5, i64::MIN] })
    );
    // a count below zero names no cursor
    let mut m = header(12, 2007);
    m.extend_from_slice(&0i32.to_le_bytes());
    m.extend_from_slice(&(-1i32).to_le_bytes());
    assert_eq!(
        parse_request(&m).unwrap(),
        Request::KillCursors(MsgKillCursors { k_requestID: 12, k_cursorIDs: vec![] })
    );
}

#[test]
fn an_unknown_operation_is_refused() {
    let m = header(1, 2001);
    assert!(matches!(parse_request(&m), Err(Error::CorruptFile("unknown message opcode"))));
}

#[test]
fn a_message_that_ends_too_early_is_refused() {
    let q = doc(vec![("isMaster", BsonValue::BInt32(1))]);
    let whole = query_message(7, "admin.$cmd", &q, None);
    for cut in 0..whole.len() {
        if cut < 16 || cut >= 20 {
            assert!(
                matches!(
                    parse_request(&whole[..cut]),
                    Err(Error::Bson(BsonError::CorruptFile("unexpected end of BSON data")))
                ),
                "cut at {}",
                cut
            );
        }
    }
    let mut m = header(12, 2007);
    m.extend_from_slice(&0i32.to_le_bytes());
    m.extend_from_slice(&2i32.to_le_bytes());
    m.extend_from_slice(&5i64.to_le_bytes());
    assert!(matches!(parse_request(&m), Err(Error::Bson(BsonError::CorruptFile(_)))));
}

#[test]
fn a_name_that_is_no_utf8_is_refused() {
    let mut m = header(1, 2005);
    m.extend_from_slice(&0i32.to_le_bytes());
    m.extend_from_slice(&[0xff, 0]);
    m.extend_from_slice(&[0; 12]);
    assert!(matches!(parse_request(&m), Err(Error::Bson(BsonError::Utf8(_)))));
}

#[test]
fn a_reply_is_written_behind_its_length() {
    let r = create_reply(7, vec![ok(1), ok(0)], 99);
    let bytes = r.encode();
    let mut expected = Vec::new();
    expected.extend_from_slice(&0i32.to_le_bytes());
    expected.extend_from_slice(&0i32.to_le_bytes());
    expected.extend_from_slice(&7i32.to_le_bytes());
    expected.extend_from_slice(&1u32.to_le_bytes());
    expected.extend_from_slice(&0i32.to_le_bytes());
    expected.extend_from_slice(&99i64.to_le_bytes());
    expected.extend_from_slice(&0i32.to_le_bytes());
    expected.extend_from_slice(&2u32.to_le_bytes());
    expected.extend_from_slice(&encode(&ok(1)));
    expected.extend_from_slice(&encode(&ok(0)));
    let len = expected.len() as u32;
    expected[0..4].copy_from_slice(&len.to_le_bytes());
    assert_eq!(bytes.to_vec(), expected);
    assert_eq!(bytes.len(), 36 + 2 * 13);
}

#[test]
fn a_reply_without_documents_is_its_head() {
    let r = create_reply(1, vec![], 0);
    assert_eq!(r.r_responseTo, 1);
    assert_eq!(r.r_requestID, 0);
    let bytes = r.encode();
    assert_eq!(bytes.len(), 36);
    assert_eq!(&bytes[0..4], &36u32.to_le_bytes());
}

#[test]
fn a_failure_is_answered_with_ok_zero() {
    assert_eq!(reply_err(5, Error::Misc("whatever")), answer(5, ok(0)));
    assert_eq!(finish(5, Err(Error::Misc("whatever"))), answer(5, ok(0)));
    assert_eq!(finish(5, Ok(answer(6, ok(1)))), answer(6, ok(1)));
}

#[test]
fn names_are_split_at_their_dots() {
    assert_eq!(route("nodots"), Route::BadName);
    assert_eq!(route(""), Route::BadName);
    assert_eq!(route("admin.$cmd"), Route::AdminCommand);
    assert_eq!(route("admin.$cmd.more"), Route::AdminCommand);
    assert_eq!(route("admin.other"), Route::Unserved);
    assert_eq!(route("admin."), Route::Unserved);
    assert_eq!(route("db.$cmd"), Route::Command);
    assert_eq!(route("db.$cmd.sys.inprog"), Route::Unserved);
    assert_eq!(route("db.$cmd.sys.inprog.x"), Route::Command);
    assert_eq!(route("db.$cmd.sys"), Route::Command);
    assert_eq!(route(".$cmd"), Route::Command);
    assert_eq!(route("db.system.indexes"), Route::Unserved);
    assert_eq!(route("db.system.namespaces"), Route::Unserved);
    assert_eq!(route("db.coll"), Route::Unserved);
    assert_eq!(route("dé.$cmd"), Route::Command);
    assert_eq!(route("admin$cmd"), Route::BadName);
    assert_eq!(database_of("db.$cmd"), "db");
    assert_eq!(database_of("dé.x.y"), "dé");
    assert_eq!(database_of(".x"), "");
}

#[test]
fn the_server_answers_for_itself() {
    let server = Server { cursor_num: 0 };
    let q = query(3, "admin.$cmd", doc(vec![("whatsmyuri", BsonValue::BInt32(1))]));
    assert_eq!(
        server.reply_whatsmyuri(&q).unwrap(),
        answer(3, doc(vec![("you", BsonValue::BString(s("127.0.0.1:65460"))), ("ok", BsonValue::BInt32(1))]))
    );
    assert_eq!(
        server.reply_getlog(&q).unwrap(),
        answer(
            3,
            doc(vec![
                ("totalLinesWritten", BsonValue::BInt32(1)),
                ("log", BsonValue::BArray(vec![])),
                ("ok", BsonValue::BInt32(1)),
            ])
        )
    );
    assert_eq!(
        server.reply_ismaster(&q).unwrap(),
        answer(
            3,
            doc(vec![
                ("ismaster", BsonValue::BBoolean(true)),
                ("secondary", BsonValue::BBoolean(false)),
                ("maxWireVersion", BsonValue::BInt32(3)),
                ("minWireVersion", BsonValue::BInt32(2)),
                ("ok", BsonValue::BInt32(1)),
            ])
        )
    );
    let mine = doc(vec![
        ("_id", BsonValue::BInt32(0)),
        ("name", BsonValue::BString(s("whatever"))),
        ("state", BsonValue::BInt32(1)),
        ("health", BsonValue::BDouble(1.0f64.to_bits())),
        ("stateStr", BsonValue::BString(s("PRIMARY"))),
        ("uptime", BsonValue::BInt32(0)),
        ("optime", BsonValue::BTimeStamp(0)),
        ("optimeDate", BsonValue::BDateTime(0)),
        ("electionTime", BsonValue::BTimeStamp(0)),
        ("electionDate", BsonValue::BTimeStamp(0)),
        ("self", BsonValue::BBoolean(true)),
    ]);
    let status = server.reply_replsetgetstatus(&q).unwrap();
    assert_eq!(status.r_responseTo, 3);
    assert_eq!(status.r_documents.len(), 1);
    assert_eq!(status.r_documents[0].getValueForKey("mine").unwrap(), &mine);
    assert_eq!(status.r_documents[0].getValueForKey("myState").unwrap(), &BsonValue::BInt32(1));
    assert_eq!(status.r_documents[0].getValueForKey("date").unwrap(), &BsonValue::BDateTime(0));
    assert_eq!(status.r_documents[0].getValueForKey("ok").unwrap(), &BsonValue::BInt32(1));
    assert_eq!(status.r_documents[0].getDocument().unwrap().len(), 5);
}

#[test]
fn commands_to_the_server_go_by_their_first_key() {
    let server = Server { cursor_num: 0 };
    for (cmd, key) in [("whatsmyuri", "you"), ("getLog", "log"), ("replSetGetStatus", "mine"), ("isMaster", "ismaster")] {
        let q = query(1, "admin.$cmd", doc(vec![(cmd, BsonValue::BInt32(1)), ("getLog", BsonValue::BNull)]));
        let r = server.reply_admin_cmd(&q, "admin").unwrap();
        assert!(r.r_documents[0].hasValueForKey(key), "{}", cmd);
    }
    let q = query(1, "admin.$cmd", doc(vec![("ismaster", BsonValue::BInt32(1))]));
    assert!(matches!(server.reply_admin_cmd(&q, "admin"), Err(Error::Misc("unknown cmd"))));
    let q = query(1, "admin.$cmd", doc(vec![]));
    assert!(matches!(server.reply_admin_cmd(&q, "admin"), Err(Error::Misc("empty query"))));
    let q = query(1, "admin.$cmd", BsonValue::BNull);
    assert!(matches!(server.reply_admin_cmd(&q, "admin"), Err(Error::Misc("query must be a document"))));
}

#[test]
fn commands_on_a_database_go_by_their_first_key() {
    let server = Server { cursor_num: 0 };
    let q = query(1, "db.$cmd", doc(vec![("insert", BsonValue::BString(s("c")))]));
    assert_eq!(server.reply_cmd(&q, "db").unwrap(), Command::Insert);
    let q = query(1, "db.$cmd", doc(vec![("listcollections", BsonValue::BInt32(1))]));
    assert_eq!(server.reply_cmd(&q, "db").unwrap(), Command::ListCollections);
    let q = query(1, "db.$cmd", doc(vec![("drop", BsonValue::BInt32(1))]));
    assert!(matches!(server.reply_cmd(&q, "db"), Err(Error::Misc("unknown cmd"))));
    let q = query(1, "db.$cmd", doc(vec![]));
    assert!(matches!(server.reply_cmd(&q, "db"), Err(Error::Misc("empty query"))));
    let q = query(1, "db.$cmd", BsonValue::BArray(vec![]));
    assert!(matches!(server.reply_cmd(&q, "db"), Err(Error::Misc("query must be a document"))));
}

#[test]
fn a_query_is_answered_or_handed_on() {
    let server = Server { cursor_num: 0 };
    let q = query(8, "admin.$cmd", doc(vec![("isMaster", BsonValue::BInt32(1))]));
    match server.reply_2004(q) {
        Outcome::Answer(r) => {
            assert_eq!(r.r_responseTo, 8);
            assert_eq!(r.r_documents[0].getValueForKey("ismaster").unwrap(), &BsonValue::BBoolean(true));
        }
        _ => panic!(),
    }
    for (name, q) in [
        ("nodot", doc(vec![("isMaster", BsonValue::BInt32(1))])),
        ("admin.users", doc(vec![("isMaster", BsonValue::BInt32(1))])),
        ("admin.$cmd", doc(vec![("nonsense", BsonValue::BInt32(1))])),
        ("admin.$cmd", doc(vec![])),
        ("db.$cmd.sys.inprog", doc(vec![("insert", BsonValue::BInt32(1))])),
        ("db.system.indexes", doc(vec![])),
        ("db.system.namespaces", doc(vec![])),
        ("db.coll", doc(vec![])),
        ("db.$cmd", doc(vec![("drop", BsonValue::BInt32(1))])),
        ("db.$cmd", BsonValue::BNull),
    ] {
        assert_eq!(server.reply_2004(query(8, name, q)), Outcome::Answer(answer(8, ok(0))), "{}", name);
    }
    let q = doc(vec![("insert", BsonValue::BString(s("c"))), ("documents", BsonValue::BArray(vec![ok(1)]))]);
    assert_eq!(
        server.reply_2004(query(8, "mydb.$cmd", q)),
        Outcome::Run {
            command: Command::Insert,
            msg: query(
                8,
                "mydb.$cmd",
                doc(vec![("insert", BsonValue::BString(s("c"))), ("documents", BsonValue::BArray(vec![ok(1)]))])
            ),
            db: s("mydb"),
        }
    );
    match server.reply_2004(query(8, "other.$cmd", doc(vec![("listcollections", BsonValue::BInt32(1))]))) {
        Outcome::Run { command, db, .. } => {
            assert_eq!(command, Command::ListCollections);
            assert_eq!(db, "other");
        }
        _ => panic!(),
    }
}

#[test]
fn an_insert_names_its_collection_and_documents() {
    let q = doc(vec![("insert", BsonValue::BString(s("c"))), ("documents", BsonValue::BArray(vec![ok(1), ok(2)]))]);
    let (coll, docs) = insert_args(&q).unwrap();
    assert_eq!(coll, "c");
    assert_eq!(docs, &vec![ok(1), ok(2)]);
    let q = doc(vec![("documents", BsonValue::BArray(vec![]))]);
    assert!(matches!(insert_args(&q), Err(Error::Bson(BsonError::Misc("required key not found")))));
    let q = doc(vec![("insert", BsonValue::BInt32(1)), ("documents", BsonValue::BArray(vec![]))]);
    assert!(matches!(insert_args(&q), Err(Error::Bson(BsonError::Misc("must be string")))));
    let q = doc(vec![("insert", BsonValue::BString(s("c")))]);
    assert!(matches!(insert_args(&q), Err(Error::Bson(BsonError::Misc("required key not found")))));
    let q = doc(vec![("insert", BsonValue::BString(s("c"))), ("documents", BsonValue::BNull)]);
    assert!(matches!(insert_args(&q), Err(Error::Bson(BsonError::Misc("must be array")))));
    assert!(matches!(insert_args(&BsonValue::BNull), Err(Error::Bson(BsonError::Misc("required key not found")))));
}

#[test]
fn the_reply_to_an_insert_counts_and_lists_errors() {
    let server = Server { cursor_num: 0 };
    let q = query(4, "db.$cmd", doc(vec![]));
    let r = server.reply_insert(&q, &vec![None, None, None]).unwrap();
    assert_eq!(r, answer(4, doc(vec![("n", BsonValue::BInt32(3)), ("ok", BsonValue::BInt32(1))])));
    let r = server.reply_insert(&q, &vec![None, Some(s("dup")), None, Some(s("bad"))]).unwrap();
    assert_eq!(
        r,
        answer(
            4,
            doc(vec![
                ("n", BsonValue::BInt32(2)),
                (
                    "writeErrors",
                    BsonValue::BArray(vec![
                        doc(vec![("index", BsonValue::BInt32(1)), ("errmsg", BsonValue::BString(s("dup")))]),
                        doc(vec![("index", BsonValue::BInt32(3)), ("errmsg", BsonValue::BString(s("bad")))]),
                    ])
                ),
                ("ok", BsonValue::BInt32(1)),
            ])
        )
    );
    let r = server.reply_insert(&q, &vec![]).unwrap();
    assert_eq!(r, answer(4, doc(vec![("n", BsonValue::BInt32(0)), ("ok", BsonValue::BInt32(1))])));
}

#[test]
fn the_options_of_a_cursor_give_the_size_of_a_batch() {
    assert_eq!(batch_size(None, 100).unwrap(), None);
    assert_eq!(batch_size(Some(&doc(vec![])), 100).unwrap(), Some(100));
    assert_eq!(batch_size(Some(&doc(vec![("batchSize", BsonValue::BInt32(5))])), 100).unwrap(), Some(5));
    assert_eq!(batch_size(Some(&doc(vec![("batchSize", BsonValue::BInt32(0))])), 100).unwrap(), Some(0));
    assert_eq!(batch_size(Some(&doc(vec![("batchSize", BsonValue::BInt64(7000000000))])), 100).unwrap(), Some(7000000000i64 as usize));
    assert_eq!(batch_size(Some(&doc(vec![("batchSize", BsonValue::BDouble(2.9f64.to_bits()))])), 100).unwrap(), Some(2));
    assert_eq!(batch_size(Some(&doc(vec![("batchSize", BsonValue::BDouble((-0.0f64).to_bits()))])), 100).unwrap(), Some(0));
    assert_eq!(batch_size(Some(&doc(vec![("batchSize", BsonValue::BDouble(f64::NAN.to_bits()))])), 100).unwrap(), Some(0));
    assert_eq!(
        batch_size(Some(&doc(vec![("batchSize", BsonValue::BInt32(5)), ("batchSize", BsonValue::BNull)])), 100).unwrap(),
        Some(5)
    );
    for bad in [BsonValue::BInt32(-1), BsonValue::BInt64(-1), BsonValue::BDouble((-0.5f64).to_bits()), BsonValue::BDouble(f64::NEG_INFINITY.to_bits())] {
        assert!(matches!(batch_size(Some(&doc(vec![("batchSize", bad)])), 100), Err(Error::Misc("batchSize < 0"))));
    }
    assert!(matches!(
        batch_size(Some(&doc(vec![("batchSize", BsonValue::BString(s("5")))])), 100),
        Err(Error::Misc("batchSize not numeric"))
    ));
    assert!(matches!(
        batch_size(Some(&doc(vec![("batchSize", BsonValue::BInt32(5)), ("other", BsonValue::BInt32(5))])), 100),
        Err(Error::Misc("invalid cursor option"))
    ));
    assert!(matches!(batch_size(Some(&BsonValue::BInt32(5)), 100), Err(Error::Misc("invalid cursor option"))));
}

#[test]
fn the_first_documents_are_grabbed() {
    let all = vec![ok(1), ok(2), ok(3)];
    let (head, rest) = grab(all, 2);
    assert_eq!(head, vec![ok(1), ok(2)]);
    assert_eq!(rest, vec![ok(3)]);
    let (head, rest) = grab(vec![ok(1)], 5);
    assert_eq!(head, vec![ok(1)]);
    assert_eq!(rest, vec![]);
    let (head, rest) = grab(vec![ok(1)], 0);
    assert_eq!(head, vec![]);
    assert_eq!(rest, vec![ok(1)]);
}

fn result(docs: Vec<BsonValue>) -> BsonValue {
    doc(vec![("result", BsonValue::BArray(docs)), ("ok", BsonValue::BInt32(1))])
}

#[test]
fn a_batch_leaves_a_cursor_or_holds_everything() {
    let mut server = Server { cursor_num: 10 };
    // no options: everything at once
    let d = server.reply_with_cursor("ns", vec![ok(1), ok(2)], None, 100).unwrap();
    assert_eq!(d, result(vec![ok(1), ok(2)]));
    assert_eq!(server.cursor_num, 10);
    // fewer than a batch: everything, and no cursor
    let opts = doc(vec![("batchSize", BsonValue::BInt32(3))]);
    let d = server.reply_with_cursor("ns", vec![ok(1), ok(2)], Some(&opts), 100).unwrap();
    assert_eq!(d, result(vec![ok(1), ok(2)]));
    assert_eq!(server.cursor_num, 10);
    // a full batch: a cursor is left
    let opts = doc(vec![("batchSize", BsonValue::BInt32(2))]);
    let d = server.reply_with_cursor("ns", vec![ok(1), ok(2)], Some(&opts), 100).unwrap();
    assert_eq!(d, ok(1));
    assert_eq!(server.cursor_num, 11);
    // a batch of none: a cursor is left
    let opts = doc(vec![("batchSize", BsonValue::BInt32(0))]);
    let d = server.reply_with_cursor("ns", vec![], Some(&opts), 100).unwrap();
    assert_eq!(d, ok(1));
    assert_eq!(server.cursor_num, 12);
    // the size that holds where the options name none
    let d = server.reply_with_cursor("ns", vec![ok(1)], Some(&doc(vec![])), 1).unwrap();
    assert_eq!(d, ok(1));
    assert_eq!(server.cursor_num, 13);
    // options that are wrong
    let opts = doc(vec![("batchSize", BsonValue::BInt32(-2))]);
    assert!(matches!(
        server.reply_with_cursor("ns", vec![ok(1)], Some(&opts), 100),
        Err(Error::Misc("batchSize < 0"))
    ));
    assert_eq!(server.cursor_num, 13);
    assert_eq!(server.store_cursor("ns", vec![]), 14);
    assert_eq!(server.cursor_num, 14);
}

#[test]
fn the_collections_of_a_database_are_listed() {
    let mut server = Server { cursor_num: 0 };
    let all = || {
        vec![
            (s("db"), s("a"), doc(vec![("capped", BsonValue::BBoolean(true))])),
            (s("other"), s("b"), doc(vec![])),
            (s("db"), s("c"), doc(vec![])),
        ]
    };
    let q = query(6, "db.$cmd", doc(vec![("listcollections", BsonValue::BInt32(1))]));
    let r = server.reply_list_collections(&q, "db", all()).unwrap();
    assert_eq!(
        r,
        answer(
            6,
            result(vec![
                doc(vec![("name", BsonValue::BString(s("a"))), ("options", doc(vec![("capped", BsonValue::BBoolean(true))]))]),
                doc(vec![("name", BsonValue::BString(s("c"))), ("options", doc(vec![]))]),
            ])
        )
    );
    assert_eq!(server.cursor_num, 0);
    let r = server.reply_list_collections(&q, "none", all()).unwrap();
    assert_eq!(r, answer(6, result(vec![])));
    // with a cursor of two at a time, both are handed out and a cursor is left
    let q = query(
        6,
        "db.$cmd",
        doc(vec![("listcollections", BsonValue::BInt32(1)), ("cursor", doc(vec![("batchSize", BsonValue::BInt32(2))]))]),
    );
    let r = server.reply_list_collections(&q, "db", all()).unwrap();
    assert_eq!(r, answer(6, ok(1)));
    assert_eq!(server.cursor_num, 1);
    // the options of the cursor must be a document
    let q = query(6, "db.$cmd", doc(vec![("listcollections", BsonValue::BInt32(1)), ("cursor", BsonValue::BInt32(2))]));
    assert!(matches!(server.reply_list_collections(&q, "db", all()), Err(Error::Misc("invalid cursor option"))));
    assert_eq!(server.cursor_num, 1);
}
