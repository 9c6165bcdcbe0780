//! The wire-protocol client's pure logic: framing a query message, reading a
//! reply header, and splitting a reply body into its embedded documents.
//! The byte transport itself stays outside the library; it only delivers
//! bytes in order.

use vstd::prelude::*;
use vstd::string::StrSliceExecFns;
use vstd::utf8::encode_utf8;
use crate::codec::{push_le32, read_le32_at, read_le64_at};
use crate::format::{
    ErrorCode, ParserError, dec_doc, le32, le32_val, le64_val, max_len,
};
use crate::value::{Bson, SpecValue, key_ok};

verus! {

/// Operation code of a query message.
pub const OP_QUERY: i32 = 2004;

/// Operation code of a reply message.
pub const OP_REPLY: i32 = 1;

/// Size of a reply's fixed leading fields: four header words, the response
/// flags, the 8-byte cursor, the starting offset and the returned count.
pub const REPLY_HEADER_LEN: usize = 36;

/// The common message header.
pub struct MsgHeader {
    pub message_length: u32,
    pub request_id: i32,
    pub response_to: Option<i32>,
    pub op_code: i32,
}

/// A reply message: its fixed fields, then the decoded documents.
pub struct Reply {
    pub header: MsgHeader,
    pub response_flags: i32,
    pub cursor_id: i64,
    pub starting_from: i32,
    pub number_returned: i32,
    pub documents: Vec<Bson>,
}

/// What a query returns to the application.
pub struct DBResult {
    pub docs: Vec<Bson>,
}

/// The exact bytes of a query message: header (total length, request id,
/// `responseTo` zero, the query op-code), then flags, the NUL-terminated
/// collection name, the skip and return counts, and the encoded document.
pub open spec fn query_msg(
    request_id: i32,
    flags: i32,
    collection: Seq<char>,
    number_to_skip: i32,
    number_to_return: i32,
    payload: Seq<u8>,
) -> Seq<u8> {
    let total = 29 + encode_utf8(collection).len() + payload.len();
    le32(total as u32) + le32(#[verifier::truncate] (request_id as u32)) + le32(0u32) + le32(
        #[verifier::truncate] (OP_QUERY as u32),
    ) + le32(#[verifier::truncate] (flags as u32)) + encode_utf8(collection) + seq![0u8] + le32(
        #[verifier::truncate] (number_to_skip as u32),
    ) + le32(#[verifier::truncate] (number_to_return as u32)) + payload
}

/// Frames a query message around an already-encoded document, byte-exactly
/// as `query_msg` states.  The collection name must be NUL-free (it travels
/// as a cstring), and the whole message must fit the 32-bit length field.
pub fn build_query_message(
    request_id: i32,
    flags: i32,
    collection: &str,
    number_to_skip: i32,
    number_to_return: i32,
    payload: &Vec<u8>,
) -> (r: Vec<u8>)
    requires
        key_ok(collection@),
        29 + encode_utf8(collection@).len() + payload@.len() <= max_len(),
    ensures
        r@ == query_msg(
            request_id,
            flags,
            collection@,
            number_to_skip,
            number_to_return,
            payload@,
        ),
{
    let name = collection.as_bytes_vec();
    let total: u32 = (29 + name.len() + payload.len()) as u32;
    let mut out: Vec<u8> = Vec::new();
    push_le32(&mut out, total);
    push_le32(&mut out, #[verifier::truncate] (request_id as u32));
    push_le32(&mut out, 0u32);
    push_le32(&mut out, #[verifier::truncate] (OP_QUERY as u32));
    push_le32(&mut out, #[verifier::truncate] (flags as u32));
    out.extend_from_slice(name.as_slice());
    out.push(0u8);
    push_le32(&mut out, #[verifier::truncate] (number_to_skip as u32));
    push_le32(&mut out, #[verifier::truncate] (number_to_return as u32));
    out.extend_from_slice(payload.as_slice());
    proof {
        assert(out@ =~= query_msg(
            request_id,
            flags,
            collection@,
            number_to_skip,
            number_to_return,
            payload@,
        ));
    }
    out
}

/// Reads the fixed leading fields of a reply.  Succeeds exactly when at
/// least `REPLY_HEADER_LEN` bytes are present; every field is the
/// little-endian value of its fixed slot, and the document list starts
/// empty.
pub fn parse_reply_header(buf: &Vec<u8>) -> (r: Result<Reply, ParserError>)
    ensures
        r matches Ok(rep) ==> {
            &&& buf@.len() >= 36
            &&& rep.header.message_length == le32_val(buf@[0], buf@[1], buf@[2], buf@[3])
            &&& rep.header.request_id == #[verifier::truncate] (le32_val(
                buf@[4],
                buf@[5],
                buf@[6],
                buf@[7],
            ) as i32)
            &&& rep.header.response_to == Some(
                #[verifier::truncate] (le32_val(buf@[8], buf@[9], buf@[10], buf@[11]) as i32),
            )
            &&& rep.header.op_code == #[verifier::truncate] (le32_val(
                buf@[12],
                buf@[13],
                buf@[14],
                buf@[15],
            ) as i32)
            &&& rep.response_flags == #[verifier::truncate] (le32_val(
                buf@[16],
                buf@[17],
                buf@[18],
                buf@[19],
            ) as i32)
            &&& rep.cursor_id == #[verifier::truncate] (le64_val(
                buf@[20],
                buf@[21],
                buf@[22],
                buf@[23],
                buf@[24],
                buf@[25],
                buf@[26],
                buf@[27],
            ) as i64)
            &&& rep.starting_from == #[verifier::truncate] (le32_val(
                buf@[28],
                buf@[29],
                buf@[30],
                buf@[31],
            ) as i32)
            &&& rep.number_returned == #[verifier::truncate] (le32_val(
                buf@[32],
                buf@[33],
                buf@[34],
                buf@[35],
            ) as i32)
            &&& rep.documents@ == Seq::<Bson>::empty()
        },
        r is Err <==> buf@.len() < 36,
        r matches Err(e) ==> e == ParserError::TruncatedInput,
{
    if buf.len() < REPLY_HEADER_LEN {
        return Result::Err(ParserError::TruncatedInput);
    }
    let message_length = read_le32_at(buf, 0);
    let request_id = read_le32_at(buf, 4) as i32;
    let response_to = read_le32_at(buf, 8) as i32;
    let op_code = read_le32_at(buf, 12) as i32;
    let response_flags = read_le32_at(buf, 16) as i32;
    let cursor_id = read_le64_at(buf, 20) as i64;
    let starting_from = read_le32_at(buf, 28) as i32;
    let number_returned = read_le32_at(buf, 32) as i32;
    Result::Ok(
        Reply {
            header: MsgHeader {
                message_length,
                request_id,
                response_to: Some(response_to),
                op_code,
            },
            response_flags,
            cursor_id,
            starting_from,
            number_returned,
            documents: Vec::new(),
        },
    )
}

/// Parses back-to-back framed documents until the bytes are exhausted; each
/// document's extent comes from its own length prefix.
pub open spec fn dec_docs(s: Seq<u8>, pos: int) -> Result<
    Seq<Seq<(Seq<char>, SpecValue)>>,
    ParserError,
>
    decreases s.len() - pos,
{
    if pos < 0 || pos >= s.len() {
        Result::Ok(Seq::empty())
    } else {
        match dec_doc(s, pos) {
            Result::Err(e) => Result::Err(e),
            Result::Ok((es, end)) => {
                if end <= pos || end > s.len() {
                    Result::Err(ParserError::SyntaxError(ErrorCode::InvalidSyntax))
                } else {
                    match dec_docs(s, end) {
                        Result::Err(e) => Result::Err(e),
                        Result::Ok(rest) => Result::Ok(seq![es] + rest),
                    }
                }
            },
        }
    }
}

/// Splits a reply body (the bytes after the fixed header) into its decoded
/// documents.  Succeeds exactly when every embedded document parses, and
/// then returns them in order.
pub fn parse_reply_documents(body: &Vec<u8>) -> (r: Result<Vec<Bson>, ParserError>)
    ensures
        r matches Ok(docs) ==> (dec_docs(body@, 0) matches Ok(ds) && docs@.len() == ds.len()
            && (forall|j: int|
            0 <= j < ds.len() ==> #[trigger] docs@[j]@ == SpecValue::Object(ds[j]))),
        r matches Err(e) ==> dec_docs(body@, 0) == Result::<
            Seq<Seq<(Seq<char>, SpecValue)>>,
            ParserError,
        >::Err(e),
{
    let n = body.len();
    let mut docs: Vec<Bson> = Vec::new();
    let ghost mut acc = Seq::<Seq<(Seq<char>, SpecValue)>>::empty();
    let mut pos: usize = 0;
    while pos < n
        invariant
            n == body@.len(),
            pos <= n,
            docs@.len() == acc.len(),
            forall|j: int| 0 <= j < acc.len() ==> #[trigger] docs@[j]@ == SpecValue::Object(acc[j]),
            dec_docs(body@, pos as int) matches Ok(ds) ==> dec_docs(body@, 0) == Result::<
                Seq<Seq<(Seq<char>, SpecValue)>>,
                ParserError,
            >::Ok(acc + ds),
            dec_docs(body@, pos as int) matches Err(e) ==> dec_docs(body@, 0) == Result::<
                Seq<Seq<(Seq<char>, SpecValue)>>,
                ParserError,
            >::Err(e),
        decreases n - pos,
    {
        match crate::codec::parse_doc_at(body, pos) {
            Result::Err(e) => {
                return Result::Err(e);
            },
            Result::Ok((o, end)) => {
                proof {
                    let prev = acc;
                    acc = acc.push(o@);
                    if dec_docs(body@, end as int) is Ok {
                        let rest = dec_docs(body@, end as int)->Ok_0;
                        assert(dec_docs(body@, pos as int) == Result::<
                            Seq<Seq<(Seq<char>, SpecValue)>>,
                            ParserError,
                        >::Ok(seq![o@] + rest));
                        assert(dec_docs(body@, 0) == Result::<
                            Seq<Seq<(Seq<char>, SpecValue)>>,
                            ParserError,
                        >::Ok(prev + (seq![o@] + rest)));
                        assert(acc + rest =~= prev + (seq![o@] + rest));
                    } else {
                        let e = dec_docs(body@, end as int)->Err_0;
                        assert(dec_docs(body@, pos as int) == Result::<
                            Seq<Seq<(Seq<char>, SpecValue)>>,
                            ParserError,
                        >::Err(e));
                    }
                }
                docs.push(Bson::Object(o));
                pos = end;
            },
        }
    }
    proof {
        assert(pos == n);
        assert(dec_docs(body@, pos as int) == Result::<
            Seq<Seq<(Seq<char>, SpecValue)>>,
            ParserError,
        >::Ok(Seq::empty()));
        assert(acc + Seq::<Seq<(Seq<char>, SpecValue)>>::empty() =~= acc);
    }
    Result::Ok(docs)
}

} // verus!
