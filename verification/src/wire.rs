//! The messages of the wire protocol: requests read from bytes, replies
//! written as bytes.
//!
//! Every message begins with four numbers of four bytes: its length, the
//! number of the request, the number of the request it answers, and the code of
//! the operation.
use vstd::prelude::*;
use crate::bson::{models, Bson, BsonError, BsonValue};
use crate::bson_read::{
    parse_cstring, parse_document, reports, slurp_cstring, slurp_document, truncated, Failure,
};
use crate::bson_write::{box_bytes, encodable, encode};
use crate::endian::{
    i32_at, i64_at, le4, le8, push_i32_le, push_i64_le, push_len_le, push_u32_le, put_len_le,
    slurp_i32_le, slurp_i64_le,
};

verus! {

/// What went wrong in serving a request.
#[derive(Debug)]
pub enum Error {
    /// A request that cannot be served.
    Misc(&'static str),
    /// Bytes that are no message.
    CorruptFile(&'static str),
    /// A document in the message that cannot be read or queried.
    Bson(BsonError),
}

/// A reply to a request.
#[allow(non_snake_case)]
#[derive(Debug, PartialEq)]
pub struct Reply {
    pub r_requestID: i32,
    pub r_responseTo: i32,
    pub r_responseFlags: i32,
    pub r_cursorID: i64,
    pub r_startingFrom: i32,
    pub r_documents: Vec<BsonValue>,
}

/// A query, which is also how commands arrive.
#[allow(non_snake_case)]
#[derive(Debug, PartialEq)]
pub struct MsgQuery {
    pub q_requestID: i32,
    pub q_flags: i32,
    pub q_fullCollectionName: String,
    pub q_numberToSkip: i32,
    pub q_numberToReturn: i32,
    pub q_query: BsonValue,
    pub q_returnFieldsSelector: Option<BsonValue>,
}

/// A request for more of the results of a cursor.
#[allow(non_snake_case)]
#[derive(Debug, PartialEq)]
pub struct MsgGetMore {
    pub m_requestID: i32,
    pub m_fullCollectionName: String,
    pub m_numberToReturn: i32,
    pub m_cursorID: i64,
}

/// A request to close cursors.
#[allow(non_snake_case)]
#[derive(Debug, PartialEq)]
pub struct MsgKillCursors {
    pub k_requestID: i32,
    pub k_cursorIDs: Vec<i64>,
}

/// A request.
#[derive(Debug, PartialEq)]
pub enum Request {
    Query(MsgQuery),
    GetMore(MsgGetMore),
    KillCursors(MsgKillCursors),
}

/// The mathematical model of a request.
#[allow(non_snake_case)]
pub enum RequestModel {
    Query {
        requestID: i32,
        flags: i32,
        fullCollectionName: Seq<char>,
        numberToSkip: i32,
        numberToReturn: i32,
        query: Bson,
        returnFieldsSelector: Option<Bson>,
    },
    GetMore { requestID: i32, fullCollectionName: Seq<char>, numberToReturn: i32, cursorID: i64 },
    KillCursors { requestID: i32, cursorIDs: Seq<i64> },
}

impl View for Request {
    type V = RequestModel;

    open spec fn view(&self) -> RequestModel {
        match self {
            Request::Query(q) => RequestModel::Query {
                requestID: q.q_requestID,
                flags: q.q_flags,
                fullCollectionName: q.q_fullCollectionName@,
                numberToSkip: q.q_numberToSkip,
                numberToReturn: q.q_numberToReturn,
                query: q.q_query@,
                returnFieldsSelector: match q.q_returnFieldsSelector {
                    Some(d) => Some(d@),
                    None => None,
                },
            },
            Request::GetMore(m) => RequestModel::GetMore {
                requestID: m.m_requestID,
                fullCollectionName: m.m_fullCollectionName@,
                numberToReturn: m.m_numberToReturn,
                cursorID: m.m_cursorID,
            },
            Request::KillCursors(k) => RequestModel::KillCursors {
                requestID: k.k_requestID,
                cursorIDs: k.k_cursorIDs@,
            },
        }
    }
}

/// Why bytes are no request.
pub enum WireFailure {
    /// A document or string in the message cannot be read.
    Document(Failure),
    /// The code of the operation is none that the server knows.
    UnknownOpcode,
}

/// The error that reports a failure.
pub open spec fn wire_reports(e: Error, f: WireFailure) -> bool {
    match f {
        WireFailure::Document(d) => e matches Error::Bson(b) && reports(b, d),
        WireFailure::UnknownOpcode => e matches Error::CorruptFile(m) && m@
            == "unknown message opcode"@,
    }
}

/// The bytes of the first `n` documents, one behind the other.
pub open spec fn encode_documents(docs: Seq<Bson>, n: nat) -> Seq<u8>
    decreases n,
{
    if n == 0 || n > docs.len() {
        Seq::empty()
    } else {
        encode_documents(docs, (n - 1) as nat) + encode(docs[n - 1])
    }
}

/// All that a reply holds behind its length.
pub open spec fn reply_body(r: Reply) -> Seq<u8> {
    le4(r.r_requestID as int) + le4(r.r_responseTo as int) + le4(1) + le4(r.r_responseFlags as int)
        + le8(r.r_cursorID as int) + le4(r.r_startingFrom as int) + le4(r.r_documents@.len() as int)
        + encode_documents(models(r.r_documents@), r.r_documents@.len())
}

/// A reply as bytes: its length, which counts itself, and its body.
pub open spec fn reply_bytes(r: Reply) -> Seq<u8> {
    le4((reply_body(r).len() + 4) as int) + reply_body(r)
}

/// The `n` cursor numbers of eight bytes each that stand at `i`.
pub open spec fn cursor_ids_at(ba: Seq<u8>, i: int, n: nat) -> Seq<i64> {
    Seq::new(n, |k: int| i64_at(ba, i + 8 * k) as i64)
}

/// The request that the bytes of a message hold.
pub open spec fn parse_request_spec(ba: Seq<u8>) -> Result<RequestModel, WireFailure> {
    if ba.len() < 16 {
        Err(WireFailure::Document(Failure::Truncated))
    } else {
        let request_id = i32_at(ba, 4) as i32;
        let op = i32_at(ba, 12);
        if op == 2004 {
            if ba.len() < 20 {
                Err(WireFailure::Document(Failure::Truncated))
            } else {
                match parse_cstring(ba, 20) {
                    Err(f) => Err(WireFailure::Document(f)),
                    Ok((name, j)) => if j + 8 > ba.len() {
                        Err(WireFailure::Document(Failure::Truncated))
                    } else {
                        match parse_document(ba, j + 8) {
                            Err(f) => Err(WireFailure::Document(f)),
                            Ok((query, k)) => if k < ba.len() {
                                match parse_document(ba, k) {
                                    Err(f) => Err(WireFailure::Document(f)),
                                    Ok((selector, _)) => Ok(
                                        RequestModel::Query {
                                            requestID: request_id,
                                            flags: i32_at(ba, 16) as i32,
                                            fullCollectionName: name,
                                            numberToSkip: i32_at(ba, j) as i32,
                                            numberToReturn: i32_at(ba, j + 4) as i32,
                                            query: query,
                                            returnFieldsSelector: Some(selector),
                                        },
                                    ),
                                }
                            } else {
                                Ok(
                                    RequestModel::Query {
                                        requestID: request_id,
                                        flags: i32_at(ba, 16) as i32,
                                        fullCollectionName: name,
                                        numberToSkip: i32_at(ba, j) as i32,
                                        numberToReturn: i32_at(ba, j + 4) as i32,
                                        query: query,
                                        returnFieldsSelector: None,
                                    },
                                )
                            },
                        }
                    },
                }
            }
        } else if op == 2005 {
            if ba.len() < 20 {
                Err(WireFailure::Document(Failure::Truncated))
            } else {
                match parse_cstring(ba, 20) {
                    Err(f) => Err(WireFailure::Document(f)),
                    Ok((name, j)) => if j + 12 > ba.len() {
                        Err(WireFailure::Document(Failure::Truncated))
                    } else {
                        Ok(
                            RequestModel::GetMore {
                                requestID: request_id,
                                fullCollectionName: name,
                                numberToReturn: i32_at(ba, j) as i32,
                                cursorID: i64_at(ba, j + 4) as i64,
                            },
                        )
                    },
                }
            }
        } else if op == 2007 {
            if ba.len() < 24 {
                Err(WireFailure::Document(Failure::Truncated))
            } else {
                let count = i32_at(ba, 20);
                let n = if count < 0 {
                    0
                } else {
                    count
                };
                if 24 + 8 * n > ba.len() {
                    Err(WireFailure::Document(Failure::Truncated))
                } else {
                    Ok(
                        RequestModel::KillCursors {
                            requestID: request_id,
                            cursorIDs: cursor_ids_at(ba, 24, n as nat),
                        },
                    )
                }
            }
        } else {
            Err(WireFailure::UnknownOpcode)
        }
    }
}

/// Reads the four numbers at the head of a message: its length, the number of
/// the request, the number of the request it answers, and the code of the
/// operation.
pub fn slurp_header(ba: &[u8], i: &mut usize) -> (r: (i32, i32, i32, i32))
    requires
        *old(i) + 16 <= ba@.len(),
    ensures
        r.0 == i32_at(ba@, *old(i) as int),
        r.1 == i32_at(ba@, *old(i) + 4),
        r.2 == i32_at(ba@, *old(i) + 8),
        r.3 == i32_at(ba@, *old(i) + 12),
        *final(i) == *old(i) + 16,
{
    let message_length = slurp_i32_le(ba, i);
    let request_id = slurp_i32_le(ba, i);
    let response_to = slurp_i32_le(ba, i);
    let op_code = slurp_i32_le(ba, i);
    (message_length, request_id, response_to, op_code)
}

/// The error for a message that ends too early.
fn cut_short() -> (e: Error)
    ensures
        wire_reports(e, WireFailure::Document(Failure::Truncated)),
{
    Error::Bson(truncated())
}

/// Reads a request from the bytes of one message.
pub fn parse_request(ba: &[u8]) -> (r: Result<Request, Error>)
    ensures
        match parse_request_spec(ba@) {
            Ok(m) => r matches Ok(x) && x@ == m,
            Err(f) => r matches Err(e) && wire_reports(e, f),
        },
{
    if ba.len() < 16 {
        return Err(cut_short());
    }
    let mut i: usize = 0;
    let (_message_length, request_id, _response_to, op_code) = slurp_header(ba, &mut i);
    match op_code {
        2004 => {
            if ba.len() < 20 {
                return Err(cut_short());
            }
            let flags = slurp_i32_le(ba, &mut i);
            let full_collection_name = match slurp_cstring(ba, &mut i) {
                Ok(s) => s,
                Err(e) => {
                    return Err(Error::Bson(e));
                },
            };
            if ba.len() - i < 8 {
                return Err(cut_short());
            }
            let number_to_skip = slurp_i32_le(ba, &mut i);
            let number_to_return = slurp_i32_le(ba, &mut i);
            let query = match slurp_document(ba, &mut i) {
                Ok(d) => d,
                Err(e) => {
                    return Err(Error::Bson(e));
                },
            };
            let return_fields_selector = if i < ba.len() {
                match slurp_document(ba, &mut i) {
                    Ok(d) => Some(d),
                    Err(e) => {
                        return Err(Error::Bson(e));
                    },
                }
            } else {
                None
            };
            let msg = MsgQuery {
                q_requestID: request_id,
                q_flags: flags,
                q_fullCollectionName: full_collection_name,
                q_numberToSkip: number_to_skip,
                q_numberToReturn: number_to_return,
                q_query: query,
                q_returnFieldsSelector: return_fields_selector,
            };
            Ok(Request::Query(msg))
        },
        2005 => {
            if ba.len() < 20 {
                return Err(cut_short());
            }
            let _flags = slurp_i32_le(ba, &mut i);
            let full_collection_name = match slurp_cstring(ba, &mut i) {
                Ok(s) => s,
                Err(e) => {
                    return Err(Error::Bson(e));
                },
            };
            if ba.len() - i < 12 {
                return Err(cut_short());
            }
            let number_to_return = slurp_i32_le(ba, &mut i);
            let cursor_id = slurp_i64_le(ba, &mut i);
            let msg = MsgGetMore {
                m_requestID: request_id,
                m_fullCollectionName: full_collection_name,
                m_numberToReturn: number_to_return,
                m_cursorID: cursor_id,
            };
            Ok(Request::GetMore(msg))
        },
        2007 => {
            if ba.len() < 24 {
                return Err(cut_short());
            }
            let _flags = slurp_i32_le(ba, &mut i);
            let number_of_cursor_ids = slurp_i32_le(ba, &mut i);
            let n: usize = if number_of_cursor_ids < 0 {
                0
            } else {
                number_of_cursor_ids as usize
            };
            if (ba.len() - 24) / 8 < n {
                return Err(cut_short());
            }
            let mut cursor_ids: Vec<i64> = Vec::new();
            let mut k: usize = 0;
            while k < n
                invariant
                    k <= n,
                    24 + 8 * n <= ba@.len(),
                    i == 24 + 8 * k,
                    cursor_ids@ == cursor_ids_at(ba@, 24, k as nat),
                decreases n - k,
            {
                let id = slurp_i64_le(ba, &mut i);
                cursor_ids.push(id);
                assert(cursor_ids@ =~= cursor_ids_at(ba@, 24, (k + 1) as nat));
                k += 1;
            }
            let msg = MsgKillCursors { k_requestID: request_id, k_cursorIDs: cursor_ids };
            Ok(Request::KillCursors(msg))
        },
        _ => Err(Error::CorruptFile("unknown message opcode")),
    }
}

/// A reply to request number `req_id` with the documents `docs`.
pub fn create_reply(req_id: i32, docs: Vec<BsonValue>, crsr_id: i64) -> (r: Reply)
    ensures
        r.r_requestID == 0,
        r.r_responseTo == req_id,
        r.r_responseFlags == 0,
        r.r_cursorID == crsr_id,
        r.r_startingFrom == 0,
        r.r_documents == docs,
{
    Reply {
        r_requestID: 0,
        r_responseTo: req_id,
        r_responseFlags: 0,
        r_cursorID: crsr_id,
        r_startingFrom: 0,
        r_documents: docs,
    }
}

impl Reply {
    /// Every document of the reply can be written.
    pub open spec fn encodable(&self) -> bool {
        forall|j: int|
            0 <= j < self.r_documents@.len() ==> encodable(#[trigger] models(self.r_documents@)[j])
    }

    /// Whether every document of the reply can be written.
    pub fn can_be_written(&self) -> (r: bool)
        ensures
            r == self.encodable(),
    {
        let mut i: usize = 0;
        while i < self.r_documents.len()
            invariant
                i <= self.r_documents@.len(),
                forall|j: int| 0 <= j < i ==> encodable(#[trigger] models(self.r_documents@)[j]),
            decreases self.r_documents@.len() - i,
        {
            if !self.r_documents[i].can_be_written() {
                assert(!encodable(models(self.r_documents@)[i as int]));
                return false;
            }
            i += 1;
        }
        true
    }

    /// The reply as the bytes of one message.
    pub fn encode(&self) -> (b: Box<[u8]>)
        requires
            self.encodable(),
        ensures
            b@ == reply_bytes(*self),
    {
        let mut w: Vec<u8> = Vec::new();
        // room for the length
        push_u32_le(&mut w, 0);
        push_i32_le(&mut w, self.r_requestID);
        push_i32_le(&mut w, self.r_responseTo);
        push_u32_le(&mut w, 1u32);
        push_i32_le(&mut w, self.r_responseFlags);
        push_i64_le(&mut w, self.r_cursorID);
        push_i32_le(&mut w, self.r_startingFrom);
        push_len_le(&mut w, self.r_documents.len());
        let ghost docs = models(self.r_documents@);
        let ghost head = w@;
        let mut i: usize = 0;
        while i < self.r_documents.len()
            invariant
                i <= self.r_documents@.len(),
                docs == models(self.r_documents@),
                self.encodable(),
                w@ == head + encode_documents(docs, i as nat),
            decreases self.r_documents@.len() - i,
        {
            let doc = &self.r_documents[i];
            assert(doc@ == docs[i as int]);
            doc.to_bson(&mut w);
            assert(w@ =~= head + encode_documents(docs, (i + 1) as nat));
            i += 1;
        }
        let ghost filled = w@;
        assert(filled =~= le4(0) + reply_body(*self));
        assert(le4(0).len() == 4);
        let len = w.len();
        put_len_le(&mut w, 0, len);
        assert(filled.subrange(4, filled.len() as int) =~= reply_body(*self));
        assert(w@ =~= reply_bytes(*self));
        box_bytes(w)
    }
}

} // verus!
