//! What the server answers: the replies to the commands it knows, the batches
//! that a command with a cursor hands out, and the way from the name in a
//! query to the command that serves it.
//!
//! The server itself reads and writes no bytes and holds no collection. Where
//! a command needs the collections, `reply_2004` says so, whoever holds them
//! does the work, and the reply is made here from what came of it.
use vstd::prelude::*;
use vstd::slice::slice_subrange;
use vstd::utf8::{
    encode_utf8, encode_utf8_valid_utf8, is_char_boundary_iff_not_is_continuation_byte, };
use crate::bson::{
    find_key, has_key, lemma_view_of_lists, models, pair_models, str_eq, Bson, BsonError,
    BsonValue,
};
use crate::double::{cut_to, double_as_usize, is_nan, is_negative, is_zero, bits_are_nan, bits_are_zero};
use crate::endian::{low_i32_of_usize, wrap_i32};
use crate::wire::{create_reply, Error, MsgQuery, Reply};

verus! {

/// The reply answers request number `req_id` with the one document `doc` and
/// no cursor.
pub open spec fn answers_with(r: Reply, req_id: i32, doc: Bson) -> bool {
    &&& r.r_requestID == 0
    &&& r.r_responseTo == req_id
    &&& r.r_responseFlags == 0
    &&& r.r_cursorID == 0
    &&& r.r_startingFrom == 0
    &&& models(r.r_documents@) == seq![doc]
}

/// The document `{ok: n}`.
pub open spec fn ok_doc(n: i32) -> Bson {
    Bson::Document(seq![("ok"@, Bson::Int32(n))])
}

/// The answer to `whatsmyuri`.
pub open spec fn whatsmyuri_doc() -> Bson {
    Bson::Document(seq![("you"@, Bson::String("127.0.0.1:65460"@)), ("ok"@, Bson::Int32(1))])
}

/// The answer to `getLog`.
pub open spec fn getlog_doc() -> Bson {
    Bson::Document(
        seq![
            ("totalLinesWritten"@, Bson::Int32(1)),
            ("log"@, Bson::Array(Seq::empty())),
            ("ok"@, Bson::Int32(1)),
        ],
    )
}

/// The bits of the double 1.0.
pub open spec fn double_one() -> u64 {
    0x3FF0_0000_0000_0000
}

/// The member that the server reports itself to be.
pub open spec fn replset_member_doc() -> Bson {
    Bson::Document(
        seq![
            ("_id"@, Bson::Int32(0)),
            ("name"@, Bson::String("whatever"@)),
            ("state"@, Bson::Int32(1)),
            ("health"@, Bson::Double(double_one())),
            ("stateStr"@, Bson::String("PRIMARY"@)),
            ("uptime"@, Bson::Int32(0)),
            ("optime"@, Bson::TimeStamp(0)),
            ("optimeDate"@, Bson::DateTime(0)),
            ("electionTime"@, Bson::TimeStamp(0)),
            ("electionDate"@, Bson::TimeStamp(0)),
            ("self"@, Bson::Boolean(true)),
        ],
    )
}

/// The answer to `replSetGetStatus`.
pub open spec fn replsetgetstatus_doc() -> Bson {
    Bson::Document(
        seq![
            ("mine"@, replset_member_doc()),
            ("set"@, Bson::String("TODO"@)),
            ("date"@, Bson::DateTime(0)),
            ("myState"@, Bson::Int32(1)),
            ("ok"@, Bson::Int32(1)),
        ],
    )
}

/// The answer to `isMaster`.
pub open spec fn ismaster_doc() -> Bson {
    Bson::Document(
        seq![
            ("ismaster"@, Bson::Boolean(true)),
            ("secondary"@, Bson::Boolean(false)),
            ("maxWireVersion"@, Bson::Int32(3)),
            ("minWireVersion"@, Bson::Int32(2)),
            ("ok"@, Bson::Int32(1)),
        ],
    )
}

/// An empty document.
fn new_doc() -> (d: BsonValue)
    ensures
        d@ == Bson::Document(Seq::empty()),
{
    let d = BsonValue::BDocument(Vec::new());
    proof {
        lemma_view_of_lists(d);
        assert(pair_models(Seq::<(String, BsonValue)>::empty()) =~= Seq::empty());
    }
    d
}

/// An empty array.
fn new_array() -> (d: BsonValue)
    ensures
        d@ == Bson::Array(Seq::empty()),
{
    let d = BsonValue::BArray(Vec::new());
    proof {
        lemma_view_of_lists(d);
        assert(models(Seq::<BsonValue>::empty()) =~= Seq::empty());
    }
    d
}

/// A string value.
fn string_value(s: &str) -> (v: BsonValue)
    ensures
        v@ == Bson::String(s@),
{
    BsonValue::BString(s.to_owned())
}

/// The reply that answers request number `req_id` with one document.
fn reply_with_doc(req_id: i32, doc: BsonValue) -> (r: Reply)
    ensures
        answers_with(r, req_id, doc@),
{
    let mut docs: Vec<BsonValue> = Vec::new();
    docs.push(doc);
    assert(models(docs@) =~= seq![doc@]);
    create_reply(req_id, docs, 0)
}

/// The reply to a request that failed: `{ok: 0}`, whatever the error was.
pub fn reply_err(request_id: i32, err: Error) -> (r: Reply)
    ensures
        answers_with(r, request_id, ok_doc(0)),
{
    let mut doc = new_doc();
    doc.add_pair("ok", BsonValue::BInt32(0));
    assert(doc@->Document_0 =~= ok_doc(0)->Document_0);
    reply_with_doc(request_id, doc)
}

/// The server: the number of the last cursor that it handed out.
#[derive(Debug)]
pub struct Server {
    pub cursor_num: usize,
}

#[allow(non_snake_case)]
impl Server {
    /// Answers `whatsmyuri`.
    pub fn reply_whatsmyuri(&self, clientMsg: &MsgQuery) -> (r: Result<Reply, Error>)
        ensures
            r matches Ok(reply) && answers_with(reply, clientMsg.q_requestID, whatsmyuri_doc()),
    {
        let mut doc = new_doc();
        doc.add_pair("you", string_value("127.0.0.1:65460"));
        doc.add_pair("ok", BsonValue::BInt32(1));
        assert(doc@->Document_0 =~= whatsmyuri_doc()->Document_0);
        Ok(reply_with_doc(clientMsg.q_requestID, doc))
    }

    /// Answers `getLog`.
    pub fn reply_getlog(&self, clientMsg: &MsgQuery) -> (r: Result<Reply, Error>)
        ensures
            r matches Ok(reply) && answers_with(reply, clientMsg.q_requestID, getlog_doc()),
    {
        let mut doc = new_doc();
        doc.add_pair("totalLinesWritten", BsonValue::BInt32(1));
        doc.add_pair("log", new_array());
        doc.add_pair("ok", BsonValue::BInt32(1));
        assert(doc@->Document_0 =~= getlog_doc()->Document_0);
        Ok(reply_with_doc(clientMsg.q_requestID, doc))
    }

    /// Answers `replSetGetStatus`: the server is the one healthy member of
    /// its set, and its primary.
    pub fn reply_replsetgetstatus(&self, clientMsg: &MsgQuery) -> (r: Result<Reply, Error>)
        ensures
            r matches Ok(reply) && answers_with(
                reply,
                clientMsg.q_requestID,
                replsetgetstatus_doc(),
            ),
    {
        let mut mine = new_doc();
        mine.add_pair("_id", BsonValue::BInt32(0));
        mine.add_pair("name", string_value("whatever"));
        mine.add_pair("state", BsonValue::BInt32(1));
        mine.add_pair("health", BsonValue::BDouble(0x3FF0_0000_0000_0000));
        mine.add_pair("stateStr", string_value("PRIMARY"));
        mine.add_pair("uptime", BsonValue::BInt32(0));
        mine.add_pair("optime", BsonValue::BTimeStamp(0));
        mine.add_pair("optimeDate", BsonValue::BDateTime(0));
        mine.add_pair("electionTime", BsonValue::BTimeStamp(0));
        mine.add_pair("electionDate", BsonValue::BTimeStamp(0));
        mine.add_pair("self", BsonValue::BBoolean(true));
        assert(mine@->Document_0 =~= replset_member_doc()->Document_0);

        let mut doc = new_doc();
        doc.add_pair("mine", mine);
        doc.add_pair("set", string_value("TODO"));
        doc.add_pair("date", BsonValue::BDateTime(0));
        doc.add_pair("myState", BsonValue::BInt32(1));
        doc.add_pair("ok", BsonValue::BInt32(1));
        assert(doc@->Document_0 =~= replsetgetstatus_doc()->Document_0);
        Ok(reply_with_doc(clientMsg.q_requestID, doc))
    }

    /// Answers `isMaster`. The lowest wire version is 2, so that clients send
    /// write commands and not the older writes that expect no answer.
    pub fn reply_ismaster(&self, clientMsg: &MsgQuery) -> (r: Result<Reply, Error>)
        ensures
            r matches Ok(reply) && answers_with(reply, clientMsg.q_requestID, ismaster_doc()),
    {
        let mut doc = new_doc();
        doc.add_pair("ismaster", BsonValue::BBoolean(true));
        doc.add_pair("secondary", BsonValue::BBoolean(false));
        doc.add_pair("maxWireVersion", BsonValue::BInt32(3));
        doc.add_pair("minWireVersion", BsonValue::BInt32(2));
        doc.add_pair("ok", BsonValue::BInt32(1));
        assert(doc@->Document_0 =~= ismaster_doc()->Document_0);
        Ok(reply_with_doc(clientMsg.q_requestID, doc))
    }
}

/// Every key of the pairs is `k`.
pub open spec fn all_keys_are(pairs: Seq<(Seq<char>, Bson)>, k: Seq<char>) -> bool {
    forall|i: int| 0 <= i < pairs.len() ==> (#[trigger] pairs[i]).0 == k
}

/// The number as a `usize`: its low bits, as many as a `usize` has.
pub open spec fn low_usize(n: int) -> int {
    n % (usize::MAX as int + 1)
}

/// How many documents the options of a cursor ask for at a time, or what is
/// wrong with them. Without options everything is wanted at once, which
/// `None` stands for. Options must be a document with no key but `batchSize`;
/// without that key, `default_batch_size` holds; its value must be a number
/// and not below zero.
pub open spec fn batch_size_of(options: Option<Bson>, default_batch_size: usize) -> Result<
    Option<usize>,
    Seq<char>,
> {
    match options {
        None => Ok(None),
        Some(Bson::Document(pairs)) => if !all_keys_are(pairs, "batchSize"@) {
            Err("invalid cursor option"@)
        } else if pairs.len() == 0 {
            Ok(Some(default_batch_size))
        } else {
            match pairs[0].1 {
                Bson::Int32(n) => if n < 0 {
                    Err("batchSize < 0"@)
                } else {
                    Ok(Some(n as usize))
                },
                Bson::Double(bits) => if is_negative(bits) && !is_zero(bits) && !is_nan(bits) {
                    Err("batchSize < 0"@)
                } else {
                    Ok(Some(cut_to(bits, 0, usize::MAX as int) as usize))
                },
                Bson::Int64(n) => if n < 0 {
                    Err("batchSize < 0"@)
                } else {
                    Ok(Some(low_usize(n as int) as usize))
                },
                _ => Err("batchSize not numeric"@),
            }
        },
        Some(_) => Err("invalid cursor option"@),
    }
}

/// Whether a batch leaves a cursor behind: it does if a number of documents
/// was asked for and, unless that number is zero, as many were there.
pub open spec fn stores_cursor(count: nat, number_to_return: Option<usize>) -> bool {
    number_to_return matches Some(n) && (n == 0 || count >= n)
}

/// The document `{result: docs, ok: 1}`.
pub open spec fn result_doc(docs: Seq<Bson>) -> Bson {
    Bson::Document(seq![("result"@, Bson::Array(docs)), ("ok"@, Bson::Int32(1))])
}

/// What a command with a cursor answers. Where no cursor is left behind,
/// the answer holds all the documents. Where one is, the answer holds `ok`
/// alone.
pub open spec fn cursor_answer(docs: Seq<Bson>, number_to_return: Option<usize>) -> Bson {
    if stores_cursor(docs.len(), number_to_return) {
        ok_doc(1)
    } else {
        result_doc(docs)
    }
}

/// The model of the options, if there are any.
pub open spec fn option_model(o: Option<&BsonValue>) -> Option<Bson> {
    match o {
        Some(v) => Some(v@),
        None => None,
    }
}

/// Whether each key of the pairs is `k`.
fn keys_all_are(pairs: &Vec<(String, BsonValue)>, k: &str) -> (r: bool)
    ensures
        r == all_keys_are(pair_models(pairs@), k@),
{
    let mut i: usize = 0;
    while i < pairs.len()
        invariant
            i <= pairs.len(),
            forall|j: int| 0 <= j < i ==> (#[trigger] pair_models(pairs@)[j]).0 == k@,
        decreases pairs.len() - i,
    {
        if !str_eq(pairs[i].0.as_str(), k) {
            assert(pair_models(pairs@)[i as int].0 != k@);
            return false;
        }
        i += 1;
    }
    true
}

/// How many documents the options of a cursor ask for at a time.
pub fn batch_size(cursor_options: Option<&BsonValue>, default_batch_size: usize) -> (r: Result<
    Option<usize>,
    Error,
>)
    ensures
        match batch_size_of(option_model(cursor_options), default_batch_size) {
            Ok(n) => r matches Ok(x) && x == n,
            Err(msg) => r matches Err(Error::Misc(m)) && m@ == msg,
        },
{
    match cursor_options {
        Some(v) => {
            proof {
                lemma_view_of_lists(*v);
            }
            match v {
                BsonValue::BDocument(pairs) => {
                    if !keys_all_are(pairs, "batchSize") {
                        return Err(Error::Misc("invalid cursor option"));
                    }
                    if pairs.len() == 0 {
                        return Ok(Some(default_batch_size));
                    }
                    match &pairs[0].1 {
                        BsonValue::BInt32(n) => {
                            if *n < 0 {
                                return Err(Error::Misc("batchSize < 0"));
                            }
                            Ok(Some(*n as usize))
                        },
                        BsonValue::BDouble(bits) => {
                            if *bits >= 9223372036854775808 && !bits_are_zero(*bits)
                                && !bits_are_nan(*bits) {
                                return Err(Error::Misc("batchSize < 0"));
                            }
                            Ok(Some(double_as_usize(*bits)))
                        },
                        BsonValue::BInt64(n) => {
                            if *n < 0 {
                                return Err(Error::Misc("batchSize < 0"));
                            }
                            Ok(Some(((*n as u128) % (usize::MAX as u128 + 1)) as usize))
                        },
                        _ => Err(Error::Misc("batchSize not numeric")),
                    }
                },
                _ => Err(Error::Misc("invalid cursor option")),
            }
        },
        None => Ok(None),
    }
}

/// Takes the first `n` documents of a sequence, or all if there are fewer,
/// and hands back the rest beside them.
pub fn grab(seq: Vec<BsonValue>, n: usize) -> (r: (Vec<BsonValue>, Vec<BsonValue>))
    ensures
        r.0@ == seq@.subrange(0, if n < seq@.len() { n as int } else { seq@.len() as int }),
        r.1@ == seq@.subrange(
            if n < seq@.len() {
                n as int
            } else {
                seq@.len() as int
            },
            seq@.len() as int,
        ),
{
    let mut head = seq;
    let at = if n < head.len() {
        n
    } else {
        head.len()
    };
    let rest = head.split_off(at);
    (head, rest)
}

#[allow(non_snake_case)]
impl Server {
    /// Hands out the number of a new cursor over what is left of a sequence.
    /// The sequence itself is not kept.
    pub fn store_cursor(&mut self, ns: &str, seq: Vec<BsonValue>) -> (r: usize)
        requires
            old(self).cursor_num < usize::MAX,
        ensures
            r == old(self).cursor_num + 1,
            final(self).cursor_num == r,
    {
        self.cursor_num = self.cursor_num + 1;
        self.cursor_num
    }

    /// Makes the answer of a command whose result is the sequence `seq`,
    /// handed out as the options of the cursor say.
    pub fn reply_with_cursor(
        &mut self,
        ns: &str,
        seq: Vec<BsonValue>,
        cursor_options: Option<&BsonValue>,
        default_batch_size: usize,
    ) -> (r: Result<BsonValue, Error>)
        requires
            old(self).cursor_num < usize::MAX,
        ensures
            match batch_size_of(option_model(cursor_options), default_batch_size) {
                Ok(n) => {
                    &&& r matches Ok(d) && d@ == cursor_answer(models(seq@), n)
                    &&& final(self).cursor_num == old(self).cursor_num + if stores_cursor(
                        seq@.len(),
                        n,
                    ) {
                        1int
                    } else {
                        0int
                    }
                },
                Err(msg) => {
                    &&& r matches Err(Error::Misc(m)) && m@ == msg
                    &&& final(self).cursor_num == old(self).cursor_num
                },
            },
    {
        let number_to_return = match batch_size(cursor_options, default_batch_size) {
            Ok(n) => n,
            Err(e) => {
                return Err(e);
            },
        };
        let ghost all = models(seq@);
        let (docs, cursor_id) = match number_to_return {
            None => (seq, None),
            Some(0) => {
                // nothing is handed out, but the cursor stays open
                let cursor_id = self.store_cursor(ns, seq);
                (Vec::new(), Some(cursor_id))
            },
            Some(n) => {
                let (docs, rest) = grab(seq, n);
                if docs.len() == n {
                    // as many as were asked for: there may be more, so the
                    // cursor stays open
                    let cursor_id = self.store_cursor(ns, rest);
                    (docs, Some(cursor_id))
                } else {
                    // fewer than were asked for: that was all
                    assert(docs@ =~= seq@);
                    (docs, None)
                }
            },
        };
        let mut doc = new_doc();
        match cursor_id {
            Some(_) => {},
            None => {
                let a = BsonValue::BArray(docs);
                proof {
                    lemma_view_of_lists(a);
                }
                doc.add_pair("result", a);
            },
        }
        doc.add_pair("ok", BsonValue::BInt32(1));
        proof {
            if cursor_id is Some {
                assert(doc@->Document_0 =~= ok_doc(1)->Document_0);
            } else {
                assert(doc@->Document_0 =~= result_doc(all)->Document_0);
            }
        }
        Ok(doc)
    }
}

/// The positions of the dots among the first `n` bytes, in ascending order.
pub open spec fn dots_in(bytes: Seq<u8>, n: nat) -> Seq<int>
    decreases n,
{
    if n == 0 || n > bytes.len() {
        Seq::empty()
    } else if bytes[n - 1] == 46 {
        dots_in(bytes, (n - 1) as nat).push(n - 1)
    } else {
        dots_in(bytes, (n - 1) as nat)
    }
}

/// The number of parts that the dots split a name into: one more than there
/// are dots.
pub open spec fn part_count(bytes: Seq<u8>) -> nat {
    dots_in(bytes, bytes.len()).len() + 1
}

/// Part number `k` of a name: the bytes between one dot and the next, or an
/// end of the name.
pub open spec fn part(bytes: Seq<u8>, k: int) -> Seq<u8> {
    let dots = dots_in(bytes, bytes.len());
    let from = if k == 0 {
        0
    } else {
        dots[k - 1] + 1
    };
    let to = if k < dots.len() {
        dots[k]
    } else {
        bytes.len() as int
    };
    bytes.subrange(from, to)
}

/// The dots found lie in the name, in ascending order, and each is a dot.
pub proof fn lemma_dots_in(bytes: Seq<u8>, n: nat)
    requires
        n <= bytes.len(),
    ensures
        forall|k: int|
            0 <= k < dots_in(bytes, n).len() ==> 0 <= (#[trigger] dots_in(bytes, n)[k]) < n
                && bytes[dots_in(bytes, n)[k]] == 46,
        forall|j: int, k: int|
            0 <= j < k < dots_in(bytes, n).len() ==> (#[trigger] dots_in(bytes, n)[j]) < (
            #[trigger] dots_in(bytes, n)[k]),
    decreases n,
{
    if n > 0 {
        lemma_dots_in(bytes, (n - 1) as nat);
        let before = dots_in(bytes, (n - 1) as nat);
        let now = dots_in(bytes, n);
        assert forall|k: int| 0 <= k < now.len() implies 0 <= (#[trigger] now[k]) < n && bytes[now[k]]
            == 46 by {
            if k < before.len() {
                assert(now[k] == before[k]);
            }
        }
        assert forall|j: int, k: int| 0 <= j < k < now.len() implies (#[trigger] now[j]) < (
        #[trigger] now[k]) by {
            assert(now[j] == before[j]);
            if k < before.len() {
                assert(now[k] == before[k]);
            }
        }
    }
}

/// Where a query goes.
#[derive(Clone, Copy, Debug, PartialEq, Eq)]
pub enum Route {
    /// The name has no dot in it.
    BadName,
    /// A command to the server itself.
    AdminCommand,
    /// A command on a database.
    Command,
    /// Something the server does not do.
    Unserved,
}

/// The bytes of a word.
pub open spec fn word(s: Seq<char>) -> Seq<u8> {
    encode_utf8(s)
}

/// Where a query with this full collection name goes. The name is the
/// database, a dot, and the collection, which may have dots in it. Commands
/// come as queries on the collection `$cmd`.
pub open spec fn route_of(name: Seq<u8>) -> Route {
    let n = part_count(name);
    if n < 2 {
        Route::BadName
    } else if part(name, 0) == word("admin"@) {
        if part(name, 1) == word("$cmd"@) {
            Route::AdminCommand
        } else {
            Route::Unserved
        }
    } else if part(name, 1) == word("$cmd"@) {
        if n == 4 && part(name, 2) == word("sys"@) && part(name, 3) == word("inprog"@) {
            Route::Unserved
        } else {
            Route::Command
        }
    } else {
        Route::Unserved
    }
}

/// The positions of the dots in a name.
fn find_dots(bytes: &[u8]) -> (dots: Vec<usize>)
    ensures
        dots@.len() == dots_in(bytes@, bytes@.len()).len(),
        forall|k: int| 0 <= k < dots@.len() ==> (#[trigger] dots@[k]) == dots_in(
            bytes@,
            bytes@.len(),
        )[k],
{
    let mut dots: Vec<usize> = Vec::new();
    let mut i: usize = 0;
    while i < bytes.len()
        invariant
            i <= bytes.len(),
            dots@.len() == dots_in(bytes@, i as nat).len(),
            forall|k: int| 0 <= k < dots@.len() ==> (#[trigger] dots@[k]) == dots_in(
                bytes@,
                i as nat,
            )[k],
        decreases bytes.len() - i,
    {
        if bytes[i] == 46 {
            dots.push(i);
        }
        i += 1;
    }
    dots
}

/// Whether two byte strings are equal.
fn bytes_eq(a: &[u8], b: &[u8]) -> (r: bool)
    ensures
        r == (a@ == b@),
{
    if a.len() != b.len() {
        return false;
    }
    let mut i: usize = 0;
    while i < a.len()
        invariant
            i <= a.len(),
            a.len() == b.len(),
            forall|j: int| 0 <= j < i ==> a@[j] == b@[j],
        decreases a.len() - i,
    {
        if a[i] != b[i] {
            return false;
        }
        i += 1;
    }
    assert(a@ =~= b@);
    true
}

/// Whether part number `k` of a name is the word `w`.
fn part_is(bytes: &[u8], dots: &Vec<usize>, k: usize, w: &str) -> (r: bool)
    requires
        dots@.len() == dots_in(bytes@, bytes@.len()).len(),
        forall|j: int| 0 <= j < dots@.len() ==> (#[trigger] dots@[j]) == dots_in(
            bytes@,
            bytes@.len(),
        )[j],
        k <= dots@.len(),
    ensures
        r == (part(bytes@, k as int) == word(w@)),
{
    proof {
        lemma_dots_in(bytes@, bytes@.len());
    }
    let total = bytes.len();
    let from = if k == 0 {
        0
    } else {
        assert(dots@[k - 1] == dots_in(bytes@, bytes@.len())[k - 1]);
        assert(0 <= dots_in(bytes@, bytes@.len())[k - 1] < bytes@.len());
        dots[k - 1] + 1
    };
    let to = if k < dots.len() {
        assert(k > 0 ==> dots_in(bytes@, bytes@.len())[k - 1] < dots_in(bytes@, bytes@.len())[k as int]);
        dots[k]
    } else {
        total
    };
    bytes_eq(slice_subrange(bytes, from, to), w.as_bytes())
}

/// Where a query with this full collection name goes.
pub fn route(name: &str) -> (r: Route)
    ensures
        r == route_of(word(name@)),
{
    let bytes = name.as_bytes();
    let dots = find_dots(bytes);
    if dots.len() < 1 {
        Route::BadName
    } else if part_is(bytes, &dots, 0, "admin") {
        if part_is(bytes, &dots, 1, "$cmd") {
            Route::AdminCommand
        } else {
            Route::Unserved
        }
    } else if part_is(bytes, &dots, 1, "$cmd") {
        if dots.len() == 3 && part_is(bytes, &dots, 2, "sys") && part_is(
            bytes,
            &dots,
            3,
            "inprog",
        ) {
            Route::Unserved
        } else {
            Route::Command
        }
    } else {
        Route::Unserved
    }
}

/// The name of the database in a full collection name: what stands before
/// the first dot.
pub fn database_of(name: &str) -> (db: String)
    requires
        part_count(word(name@)) >= 2,
    ensures
        word(db@) == part(word(name@), 0),
{
    let bytes = name.as_bytes();
    let dots = find_dots(bytes);
    let at = dots[0];
    proof {
        lemma_dots_in(bytes@, bytes@.len());
        encode_utf8_valid_utf8(name@);
        // a dot is a character of its own, so a character begins at it
        is_char_boundary_iff_not_is_continuation_byte(bytes@, at as int);
    }
    let (db, _) = name.split_at(at);
    db.to_owned()
}

/// The command that a query names: the key of its first pair.
pub open spec fn first_key(q: Bson) -> Result<Seq<char>, Seq<char>> {
    match q {
        Bson::Document(pairs) => if pairs.len() == 0 {
            Err("empty query"@)
        } else {
            Ok(pairs[0].0)
        },
        _ => Err("query must be a document"@),
    }
}

/// What the server answers to a command to itself, if it knows the command.
pub open spec fn admin_answer(cmd: Seq<char>) -> Option<Bson> {
    if cmd == "whatsmyuri"@ {
        Some(whatsmyuri_doc())
    } else if cmd == "getLog"@ {
        Some(getlog_doc())
    } else if cmd == "replSetGetStatus"@ {
        Some(replsetgetstatus_doc())
    } else if cmd == "isMaster"@ {
        Some(ismaster_doc())
    } else {
        None
    }
}

/// A command on a database that needs the collections.
#[derive(Clone, Copy, Debug, PartialEq, Eq, Structural)]
pub enum Command {
    Insert,
    ListCollections,
}

/// The command on a database that a name stands for, if the server knows it.
pub open spec fn command_of(cmd: Seq<char>) -> Option<Command> {
    if cmd == "insert"@ {
        Some(Command::Insert)
    } else if cmd == "listcollections"@ {
        Some(Command::ListCollections)
    } else {
        None
    }
}

/// What is to be done about a query.
#[derive(Debug, PartialEq)]
pub enum Outcome {
    /// The reply is ready.
    Answer(Reply),
    /// The command needs the collections of the database `db`. Whoever holds
    /// them runs it and has the reply made from what came of it.
    Run { command: Command, msg: MsgQuery, db: String },
}

/// What `reply_2004` decides about a query with this name and this document.
pub open spec fn decides(out: Outcome, qm: MsgQuery) -> bool {
    let name = word(qm.q_fullCollectionName@);
    match route_of(name) {
        Route::BadName => out matches Outcome::Answer(r) && answers_with(
            r,
            qm.q_requestID,
            ok_doc(0),
        ),
        Route::Unserved => out matches Outcome::Answer(r) && answers_with(
            r,
            qm.q_requestID,
            ok_doc(0),
        ),
        Route::AdminCommand => out matches Outcome::Answer(r) && answers_with(
            r,
            qm.q_requestID,
            match first_key(qm.q_query@) {
                Ok(cmd) => match admin_answer(cmd) {
                    Some(doc) => doc,
                    None => ok_doc(0),
                },
                Err(_) => ok_doc(0),
            },
        ),
        Route::Command => match first_key(qm.q_query@) {
            Ok(cmd) => match command_of(cmd) {
                Some(c) => out matches Outcome::Run { command, msg, db } && command == c && msg
                    == qm && word(db@) == part(name, 0),
                None => out matches Outcome::Answer(r) && answers_with(
                    r,
                    qm.q_requestID,
                    ok_doc(0),
                ),
            },
            Err(_) => out matches Outcome::Answer(r) && answers_with(r, qm.q_requestID, ok_doc(0)),
        },
    }
}

/// The collection and the documents that an insert names, or what is wrong
/// with it.
pub open spec fn insert_args_of(q: Bson) -> Result<(Seq<char>, Seq<Bson>), Seq<char>> {
    match q {
        Bson::Document(pairs) => if !has_key(pairs, "insert"@) {
            Err("required key not found"@)
        } else {
            match pairs[find_key(pairs, "insert"@)].1 {
                Bson::String(coll) => if !has_key(pairs, "documents"@) {
                    Err("required key not found"@)
                } else {
                    match pairs[find_key(pairs, "documents"@)].1 {
                        Bson::Array(docs) => Ok((coll, docs)),
                        _ => Err("must be array"@),
                    }
                },
                _ => Err("must be string"@),
            }
        },
        _ => Err("required key not found"@),
    }
}

/// The messages of the results of an insert: none for a document that went
/// in, the error for one that did not.
pub open spec fn messages(results: Seq<Option<String>>) -> Seq<Option<Seq<char>>> {
    Seq::new(
        results.len(),
        |i: int|
            match results[i] {
                Some(s) => Some(s@),
                None => None,
            },
    )
}

/// The errors among the first `n` results, each with its position.
pub open spec fn write_errors(results: Seq<Option<Seq<char>>>, n: nat) -> Seq<Bson>
    decreases n,
{
    if n == 0 || n > results.len() {
        Seq::empty()
    } else {
        match results[n - 1] {
            Some(msg) => write_errors(results, (n - 1) as nat).push(
                Bson::Document(
                    seq![
                        ("index"@, Bson::Int32(wrap_i32(n - 1) as i32)),
                        ("errmsg"@, Bson::String(msg)),
                    ],
                ),
            ),
            None => write_errors(results, (n - 1) as nat),
        }
    }
}

/// The answer to an insert: how many documents went in, the errors of those
/// that did not if there are any, and `ok`.
pub open spec fn insert_doc(results: Seq<Option<Seq<char>>>) -> Bson {
    let errors = write_errors(results, results.len());
    let n = ("n"@, Bson::Int32(wrap_i32(results.len() - errors.len()) as i32));
    if errors.len() > 0 {
        Bson::Document(seq![n, ("writeErrors"@, Bson::Array(errors)), ("ok"@, Bson::Int32(1))])
    } else {
        Bson::Document(seq![n, ("ok"@, Bson::Int32(1))])
    }
}

/// The collections as mathematical values: database, name and options.
pub open spec fn collection_models(cols: Seq<(String, String, BsonValue)>) -> Seq<
    (Seq<char>, Seq<char>, Bson),
> {
    Seq::new(cols.len(), |i: int| (cols[i].0@, cols[i].1@, cols[i].2@))
}

/// The documents that list the collections of the database `db` among the
/// first `n` collections.
pub open spec fn listed(cols: Seq<(Seq<char>, Seq<char>, Bson)>, db: Seq<char>, n: nat) -> Seq<Bson>
    decreases n,
{
    if n == 0 || n > cols.len() {
        Seq::empty()
    } else if cols[n - 1].0 == db {
        listed(cols, db, (n - 1) as nat).push(
            Bson::Document(
                seq![("name"@, Bson::String(cols[n - 1].1)), ("options"@, cols[n - 1].2)],
            ),
        )
    } else {
        listed(cols, db, (n - 1) as nat)
    }
}

/// The options of the cursor that a query names, if it names any.
pub open spec fn cursor_options_of(q: Bson) -> Option<Bson> {
    match q {
        Bson::Document(pairs) => if has_key(pairs, "cursor"@) {
            Some(pairs[find_key(pairs, "cursor"@)].1)
        } else {
            None
        },
        _ => None,
    }
}

/// The reply that is sent: the one that was made, or `{ok: 0}` where making
/// it failed.
pub fn finish(request_id: i32, r: Result<Reply, Error>) -> (reply: Reply)
    ensures
        match r {
            Ok(x) => reply == x,
            Err(_) => answers_with(reply, request_id, ok_doc(0)),
        },
{
    match r {
        Ok(r) => r,
        Err(e) => reply_err(request_id, e),
    }
}

/// The collection and the documents that an insert names.
pub fn insert_args(q: &BsonValue) -> (r: Result<(&str, &Vec<BsonValue>), Error>)
    ensures
        match insert_args_of(q@) {
            Ok((coll, docs)) => r matches Ok((c, d)) && c@ == coll && models(d@) == docs,
            Err(msg) => r matches Err(Error::Bson(BsonError::Misc(m))) && m@ == msg,
        },
{
    let named = match q.getValueForKey("insert") {
        Ok(v) => v,
        Err(e) => {
            return Err(Error::Bson(e));
        },
    };
    let coll = match named.getString() {
        Ok(s) => s,
        Err(e) => {
            return Err(Error::Bson(e));
        },
    };
    let given = match q.getValueForKey("documents") {
        Ok(v) => v,
        Err(e) => {
            return Err(Error::Bson(e));
        },
    };
    let docs = match given.getArray() {
        Ok(a) => a,
        Err(e) => {
            return Err(Error::Bson(e));
        },
    };
    Ok((coll, docs))
}

/// The key of the first pair of a query.
fn command_name(q: &BsonValue) -> (r: Result<&str, Error>)
    ensures
        match first_key(q@) {
            Ok(cmd) => r matches Ok(c) && c@ == cmd,
            Err(msg) => r matches Err(Error::Misc(m)) && m@ == msg,
        },
{
    proof {
        lemma_view_of_lists(*q);
    }
    match q {
        BsonValue::BDocument(pairs) => {
            if pairs.len() == 0 {
                Err(Error::Misc("empty query"))
            } else {
                // the first key is taken to be the command
                Ok(pairs[0].0.as_str())
            }
        },
        _ => Err(Error::Misc("query must be a document")),
    }
}

#[allow(non_snake_case)]
impl Server {
    /// Answers a command to the server itself.
    pub fn reply_admin_cmd(&self, clientMsg: &MsgQuery, db: &str) -> (r: Result<Reply, Error>)
        ensures
            match first_key(clientMsg.q_query@) {
                Ok(cmd) => match admin_answer(cmd) {
                    Some(doc) => r matches Ok(reply) && answers_with(
                        reply,
                        clientMsg.q_requestID,
                        doc,
                    ),
                    None => r matches Err(Error::Misc(m)) && m@ == "unknown cmd"@,
                },
                Err(msg) => r matches Err(Error::Misc(m)) && m@ == msg,
            },
    {
        let cmd = match command_name(&clientMsg.q_query) {
            Ok(c) => c,
            Err(e) => {
                return Err(e);
            },
        };
        if str_eq(cmd, "whatsmyuri") {
            self.reply_whatsmyuri(clientMsg)
        } else if str_eq(cmd, "getLog") {
            self.reply_getlog(clientMsg)
        } else if str_eq(cmd, "replSetGetStatus") {
            self.reply_replsetgetstatus(clientMsg)
        } else if str_eq(cmd, "isMaster") {
            self.reply_ismaster(clientMsg)
        } else {
            Err(Error::Misc("unknown cmd"))
        }
    }

    /// Finds the command on a database that a query names.
    pub fn reply_cmd(&self, clientMsg: &MsgQuery, db: &str) -> (r: Result<Command, Error>)
        ensures
            match first_key(clientMsg.q_query@) {
                Ok(cmd) => match command_of(cmd) {
                    Some(c) => r matches Ok(x) && x == c,
                    None => r matches Err(Error::Misc(m)) && m@ == "unknown cmd"@,
                },
                Err(msg) => r matches Err(Error::Misc(m)) && m@ == msg,
            },
    {
        let cmd = match command_name(&clientMsg.q_query) {
            Ok(c) => c,
            Err(e) => {
                return Err(e);
            },
        };
        if str_eq(cmd, "insert") {
            Ok(Command::Insert)
        } else if str_eq(cmd, "listcollections") {
            Ok(Command::ListCollections)
        } else {
            Err(Error::Misc("unknown cmd"))
        }
    }

    /// Decides what is to be done about a query: answers it if the server can
    /// do so by itself, and names the command to run if the collections are
    /// needed. A query that cannot be served is answered with `{ok: 0}`.
    pub fn reply_2004(&self, qm: MsgQuery) -> (out: Outcome)
        ensures
            decides(out, qm),
    {
        let id = qm.q_requestID;
        match route(qm.q_fullCollectionName.as_str()) {
            Route::BadName => Outcome::Answer(reply_err(id, Error::Misc("bad collection name"))),
            Route::Unserved => Outcome::Answer(reply_err(id, Error::Misc("not implemented"))),
            Route::AdminCommand => {
                let db = database_of(qm.q_fullCollectionName.as_str());
                let r = self.reply_admin_cmd(&qm, db.as_str());
                Outcome::Answer(finish(id, r))
            },
            Route::Command => {
                let db = database_of(qm.q_fullCollectionName.as_str());
                match self.reply_cmd(&qm, db.as_str()) {
                    Ok(command) => Outcome::Run { command, msg: qm, db },
                    Err(e) => Outcome::Answer(reply_err(id, e)),
                }
            },
        }
    }

    /// Makes the reply to an insert from its results, one for each document:
    /// none where the document went in, the error where it did not.
    pub fn reply_insert(&self, clientMsg: &MsgQuery, results: &Vec<Option<String>>) -> (r: Result<
        Reply,
        Error,
    >)
        ensures
            r matches Ok(reply) && answers_with(
                reply,
                clientMsg.q_requestID,
                insert_doc(messages(results@)),
            ),
    {
        let ghost msgs = messages(results@);
        let mut errors: Vec<BsonValue> = Vec::new();
        let mut i: usize = 0;
        while i < results.len()
            invariant
                i <= results.len(),
                msgs == messages(results@),
                models(errors@) == write_errors(msgs, i as nat),
                errors@.len() <= i,
            decreases results.len() - i,
        {
            let ghost before = models(errors@);
            match &results[i] {
                Some(msg) => {
                    let mut err = new_doc();
                    err.add_pair("index", BsonValue::BInt32(low_i32_of_usize(i)));
                    err.add_pair("errmsg", string_value(msg.as_str()));
                    assert(err@->Document_0 =~= seq![
                        ("index"@, Bson::Int32(wrap_i32(i as int) as i32)),
                        ("errmsg"@, Bson::String(msg@)),
                    ]);
                    errors.push(err);
                    assert(models(errors@) =~= before.push(err@));
                },
                None => {},
            }
            i += 1;
        }
        let mut doc = new_doc();
        doc.add_pair("n", BsonValue::BInt32(low_i32_of_usize(results.len() - errors.len())));
        let ghost listed_errors = models(errors@);
        if errors.len() > 0 {
            let a = BsonValue::BArray(errors);
            proof {
                lemma_view_of_lists(a);
            }
            doc.add_pair("writeErrors", a);
        }
        doc.add_pair("ok", BsonValue::BInt32(1));
        assert(doc@->Document_0 =~= insert_doc(msgs)->Document_0);
        Ok(reply_with_doc(clientMsg.q_requestID, doc))
    }

    /// Makes the reply that lists the collections of the database `db`, from
    /// all the collections there are. They are handed out as the options of
    /// the cursor in the query say, a hundred at a time if they say nothing.
    pub fn reply_list_collections(
        &mut self,
        clientMsg: &MsgQuery,
        db: &str,
        collections: Vec<(String, String, BsonValue)>,
    ) -> (r: Result<Reply, Error>)
        requires
            old(self).cursor_num < usize::MAX,
        ensures
            match batch_size_of(cursor_options_of(clientMsg.q_query@), 100) {
                Ok(n) => {
                    let docs = listed(collection_models(collections@), db@, collections@.len());
                    &&& r matches Ok(reply) && answers_with(
                        reply,
                        clientMsg.q_requestID,
                        cursor_answer(docs, n),
                    )
                    &&& final(self).cursor_num == old(self).cursor_num + if stores_cursor(
                        docs.len(),
                        n,
                    ) {
                        1int
                    } else {
                        0int
                    }
                },
                Err(msg) => {
                    &&& r matches Err(Error::Misc(m)) && m@ == msg
                    &&& final(self).cursor_num == old(self).cursor_num
                },
            },
    {
        let ghost cols = collection_models(collections@);
        let ghost total = collections@.len();
        // the collections are taken from the back twice, so that they come
        // out in the order in which they came
        let mut rest = collections;
        let mut turned: Vec<(String, String, BsonValue)> = Vec::new();
        while rest.len() > 0
            invariant
                rest@.len() + turned@.len() == total,
                cols.len() == total,
                forall|n: int|
                    0 <= n < rest@.len() ==> (#[trigger] collection_models(rest@)[n]) == cols[n],
                forall|n: int|
                    0 <= n < turned@.len() ==> (#[trigger] collection_models(turned@)[n])
                        == cols[total - 1 - n],
            decreases rest@.len(),
        {
            let ghost last = rest@.len() - 1;
            assert(collection_models(rest@)[last] == cols[last]);
            let ghost before = collection_models(turned@);
            let ghost rest_before = collection_models(rest@);
            let c = rest.pop().unwrap();
            turned.push(c);
            assert forall|n: int| 0 <= n < turned@.len() implies (#[trigger] collection_models(
                turned@,
            )[n]) == cols[total - 1 - n] by {
                if n < before.len() {
                    assert(collection_models(turned@)[n] == before[n]);
                }
            }
            assert forall|n: int| 0 <= n < rest@.len() implies (#[trigger] collection_models(
                rest@,
            )[n]) == cols[n] by {
                assert(collection_models(rest@)[n] == rest_before[n]);
            }
        }
        let mut results: Vec<BsonValue> = Vec::new();
        while turned.len() > 0
            invariant
                turned@.len() <= total,
                cols.len() == total,
                forall|n: int|
                    0 <= n < turned@.len() ==> (#[trigger] collection_models(turned@)[n])
                        == cols[total - 1 - n],
                models(results@) == listed(cols, db@, (total - turned@.len()) as nat),
            decreases turned@.len(),
        {
            let ghost last = turned@.len() - 1;
            let ghost done = total - turned@.len();
            assert(collection_models(turned@)[last] == cols[done]);
            let ghost turned_before = collection_models(turned@);
            let ghost before = models(results@);
            let (c_db, c_coll, c_options) = turned.pop().unwrap();
            assert forall|n: int| 0 <= n < turned@.len() implies (#[trigger] collection_models(
                turned@,
            )[n]) == cols[total - 1 - n] by {
                assert(collection_models(turned@)[n] == turned_before[n]);
            }
            if str_eq(db, c_db.as_str()) {
                let mut doc = new_doc();
                doc.add_pair("name", BsonValue::BString(c_coll));
                doc.add_pair("options", c_options);
                assert(doc@->Document_0 =~= seq![
                    ("name"@, Bson::String(cols[done].1)),
                    ("options"@, cols[done].2),
                ]);
                results.push(doc);
                assert(models(results@) =~= before.push(doc@));
            }
        }
        let default_batch_size: usize = 100;
        let cursor_options = clientMsg.q_query.tryGetValueForKey("cursor");
        let ns = db.to_owned().concat(".$cmd.listCollections");
        match self.reply_with_cursor(ns.as_str(), results, cursor_options, default_batch_size) {
            Ok(doc) => Ok(reply_with_doc(clientMsg.q_requestID, doc)),
            Err(e) => Err(e),
        }
    }
}

} // verus!
