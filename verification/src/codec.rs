//! The binary codec: executable encoding of a document value to its exact
//! wire bytes, and decoding of wire bytes back to a value.

use vstd::prelude::*;
use vstd::slice::{slice_subrange, slice_to_vec};
use vstd::string::StrSliceExecFns;
use vstd::utf8::{encode_utf8, encode_utf8_decode_utf8, valid_utf8};
use crate::format::{
    ErrorCode, ParserError, dec_doc, dec_elems, dec_name, dec_value, enc_doc, enc_elem, enc_elems,
    enc_top, enc_value, encodable, find_nul, fits, fits_entries, le32, le32_val, le64, le64_val,
    lemma_enc_elems_snoc, lemma_enc_elems_take_len, lemma_fits_entries_index,
    lemma_utf8_with_nul, lemma_wf_entries_index, max_len, tag_of,
};
use crate::serialize::map_frame;
use crate::value::{
    Bson, Object, SpecValue, entries_sorted, insert_all, key_ok, lemma_insert_all_snoc,
    lemma_spec_insert_wf, lemma_view_entries, lemma_view_list, lex_lt, view_entries, view_list,
    view_value, wf_entries, wf_value,
};

verus! {

/// The error of the document builder (`from_vec`).
pub type BuilderError = ParserError;

/// Why a generic decode failed.
#[derive(Clone, Copy, PartialEq, Eq, Structural, Debug)]
pub enum DecoderError {
    /// The wire bytes could not be parsed.
    ParseError(ParserError),
    /// The parsed value was not of the requested kind.
    MismatchedType,
}

/// Why an encode through the generic builder framework failed.
#[derive(Clone, Copy, PartialEq, Eq, Structural, Debug)]
pub enum EncoderError {
    /// The value has no mapping in this wire format.
    UnsupportedType,
}

pub type EncodeResult = Result<Vec<u8>, EncoderError>;

pub type DecodeResult<T> = Result<T, DecoderError>;

/// Appends the four little-endian bytes of `n`.
pub fn push_le32(out: &mut Vec<u8>, n: u32)
    ensures
        final(out)@ == old(out)@ + le32(n),
{
    out.push((n & 0xFF) as u8);
    out.push(((n >> 8) & 0xFF) as u8);
    out.push(((n >> 16) & 0xFF) as u8);
    out.push(((n >> 24) & 0xFF) as u8);
    proof {
        assert(final(out)@ =~= old(out)@ + le32(n));
    }
}

/// Appends the eight little-endian bytes of `n`.
pub fn push_le64(out: &mut Vec<u8>, n: u64)
    ensures
        final(out)@ == old(out)@ + le64(n),
{
    out.push((n & 0xFF) as u8);
    out.push(((n >> 8) & 0xFF) as u8);
    out.push(((n >> 16) & 0xFF) as u8);
    out.push(((n >> 24) & 0xFF) as u8);
    out.push(((n >> 32) & 0xFF) as u8);
    out.push(((n >> 40) & 0xFF) as u8);
    out.push(((n >> 48) & 0xFF) as u8);
    out.push(((n >> 56) & 0xFF) as u8);
    proof {
        assert(final(out)@ =~= old(out)@ + le64(n));
    }
}

/// The type tag of a value.
pub fn tag_byte(v: &Bson) -> (t: u8)
    ensures
        t == tag_of(v@),
{
    match v {
        Bson::Float(_) => 0x01,
        Bson::String(_) => 0x02,
        Bson::Object(_) => 0x03,
        Bson::List(_) => 0x04,
        Bson::ObjectId(_) => 0x07,
        Bson::Boolean(_) => 0x08,
        Bson::Null => 0x0A,
        Bson::Int32(_) => 0x10,
    }
}

/// Appends the payload bytes of a value.
fn encode_value_into(v: &Bson, out: &mut Vec<u8>)
    requires
        wf_value(v@),
        fits(v@),
    ensures
        final(out)@ == old(out)@ + enc_value(v@),
    decreases v, 0int,
{
    match v {
        Bson::Float(bits) => {
            push_le64(out, *bits);
        },
        Bson::Boolean(b) => {
            out.push(if *b { 1u8 } else { 0u8 });
            proof {
                assert(final(out)@ =~= old(out)@ + enc_value(v@));
            }
        },
        Bson::Int32(x) => {
            push_le32(out, *x as u32);
        },
        Bson::Null => {
            proof {
                assert(final(out)@ =~= old(out)@ + enc_value(v@));
            }
        },
        Bson::ObjectId(id) => {
            out.extend_from_slice(id.as_slice());
            proof {
                assert(final(out)@ =~= old(out)@ + enc_value(v@));
            }
        },
        Bson::String(s) => {
            let bytes = s.as_str().as_bytes_vec();
            let n: u32 = (bytes.len() + 1) as u32;
            push_le32(out, n);
            out.extend_from_slice(bytes.as_slice());
            out.push(0u8);
            proof {
                assert(final(out)@ =~= old(out)@ + enc_value(v@));
            }
        },
        Bson::Object(o) => {
            encode_doc_into(o, out);
        },
        Bson::List(_) => {
            proof {
                assert(false);
            }
        },
    }
}

/// Appends one element: tag, NUL-terminated name, payload.
fn encode_elem_into(k: &String, v: &Bson, out: &mut Vec<u8>)
    requires
        key_ok(k@),
        wf_value(v@),
        fits(v@),
    ensures
        final(out)@ == old(out)@ + enc_elem(k@, v@),
    decreases v, 2int,
{
    let t = tag_byte(v);
    out.push(t);
    let name = k.as_str().as_bytes_vec();
    out.extend_from_slice(name.as_slice());
    out.push(0u8);
    encode_value_into(v, out);
    proof {
        assert(final(out)@ =~= old(out)@ + enc_elem(k@, v@));
    }
}

/// Appends a whole framed document: length prefix, elements in key order,
/// terminator.
fn encode_doc_into(o: &Object, out: &mut Vec<u8>)
    requires
        wf_value(SpecValue::Object(o@)),
        fits(SpecValue::Object(o@)),
    ensures
        final(out)@ == old(out)@ + enc_doc(o@),
    decreases o, 1int,
{
    proof {
        lemma_view_entries(o.entries@);
    }
    let mut body: Vec<u8> = Vec::new();
    let n = o.entries.len();
    let mut i: usize = 0;
    while i < n
        invariant
            n == o.entries.len(),
            n == o@.len(),
            i <= n,
            wf_entries(o@),
            fits_entries(o@),
            forall|j: int|
                0 <= j < o@.len() ==> #[trigger] o@[j] == (
                    o.entries@[j].0@,
                    crate::value::view_value(o.entries@[j].1),
                ),
            body@ == enc_elems(o@.take(i as int)),
        decreases n - i,
    {
        proof {
            lemma_wf_entries_index(o@, i as int);
            lemma_fits_entries_index(o@, i as int);
        }
        encode_elem_into(&o.entries[i].0, &o.entries[i].1, &mut body);
        proof {
            lemma_enc_elems_snoc(o@, i as int);
        }
        i = i + 1;
    }
    proof {
        assert(o@.take(n as int) =~= o@);
    }
    let total: u32 = (body.len() + 5) as u32;
    push_le32(out, total);
    out.append(&mut body);
    out.push(0u8);
    proof {
        assert(final(out)@ =~= old(out)@ + enc_doc(o@));
    }
}

/// Encodes a value to its exact wire bytes.  A document comes out framed with
/// its length prefix and terminator; for every encodable input the result is
/// pinned, byte for byte, by `enc_top`.
pub fn encode(object: &Bson) -> (r: Vec<u8>)
    requires
        encodable(object@),
    ensures
        r@ == enc_top(object@),
{
    let mut out: Vec<u8> = Vec::new();
    match object {
        Bson::String(s) => {
            let bytes = s.as_str().as_bytes_vec();
            out = bytes;
            out.push(0u8);
        },
        Bson::Object(o) => {
            encode_doc_into(o, &mut out);
        },
        _ => {
            encode_value_into(object, &mut out);
        },
    }
    proof {
        assert(out@ =~= enc_top(object@));
    }
    out
}

/// Whether the name can travel as a NUL-terminated string: true exactly when
/// it has no NUL character.
fn key_writable(key: &String) -> (r: bool)
    ensures
        r == key_ok(key@),
{
    let kb = key.as_str().as_bytes_vec();
    let n = kb.len();
    let mut i: usize = 0;
    while i < n
        invariant
            n == kb@.len(),
            i <= n,
            kb@ == encode_utf8(key@),
            forall|j: int| 0 <= j < i ==> kb@[j] != 0,
        decreases n - i,
    {
        if kb[i] == 0 {
            proof {
                if key_ok(key@) {
                    crate::format::lemma_utf8_no_nul(key@);
                }
            }
            return false;
        }
        i = i + 1;
    }
    proof {
        if !key_ok(key@) {
            lemma_utf8_with_nul(key@);
        }
    }
    true
}

/// The number of payload bytes the value would occupy on the wire, or `None`
/// exactly when the value is not encodable (ill-formed, a list, or over the
/// 32-bit length limits).
#[verifier::rlimit(50)]
fn check_value(v: &Bson) -> (r: Option<u64>)
    ensures
        r matches Some(sz) ==> wf_value(v@) && fits(v@) && sz == enc_value(v@).len(),
        r is None ==> !(wf_value(v@) && fits(v@)),
    decreases v, 0int,
{
    match v {
        Bson::Float(bits) => {
            proof {
                assert(v@ == SpecValue::Float(*bits));
            }
            Option::Some(8)
        },
        Bson::Boolean(b) => {
            proof {
                assert(v@ == SpecValue::Boolean(*b));
            }
            Option::Some(1)
        },
        Bson::Int32(x) => {
            proof {
                assert(v@ == SpecValue::Int32(*x));
            }
            Option::Some(4)
        },
        Bson::Null => {
            proof {
                assert(v@ == SpecValue::Null);
                assert(enc_value(v@).len() == 0);
            }
            Option::Some(0)
        },
        Bson::ObjectId(id) => {
            proof {
                assert(v@ == SpecValue::ObjectId(id@));
            }
            if id.len() == 12 {
                Option::Some(12)
            } else {
                Option::None
            }
        },
        Bson::String(s) => {
            proof {
                assert(v@ == SpecValue::String(s@));
            }
            let blen = s.as_str().as_bytes_vec().len();
            if blen > 0x7FFF_FFFE {
                Option::None
            } else {
                proof {
                    assert(enc_value(v@).len() == 4 + encode_utf8(s@).len() + 1);
                }
                Option::Some(4 + blen as u64 + 1)
            }
        },
        Bson::Object(o) => check_doc(o),
        Bson::List(_) => Option::None,
    }
}

/// The number of bytes the framed document would occupy on the wire, or
/// `None` exactly when it is not encodable.
#[verifier::rlimit(50)]
fn check_doc(o: &Object) -> (r: Option<u64>)
    ensures
        r matches Some(sz) ==> wf_value(SpecValue::Object(o@)) && fits(SpecValue::Object(o@))
            && sz == enc_doc(o@).len(),
        r is None ==> !(wf_value(SpecValue::Object(o@)) && fits(SpecValue::Object(o@))),
    decreases o, 1int,
{
    proof {
        lemma_view_entries(o.entries@);
    }
    let n = o.entries.len();
    let mut total: u64 = 5;
    let mut i: usize = 0;
    while i < n
        invariant
            n == o.entries@.len(),
            n == o@.len(),
            i <= n,
            forall|j: int|
                0 <= j < o@.len() ==> #[trigger] o@[j] == (
                    o.entries@[j].0@,
                    view_value(o.entries@[j].1),
                ),
            forall|j: int| 0 <= j < i - 1 ==> lex_lt(#[trigger] o@[j].0, o@[j + 1].0),
            forall|j: int| 0 <= j < i ==> key_ok(#[trigger] o@[j].0),
            forall|j: int| 0 <= j < i ==> wf_value(#[trigger] o@[j].1),
            forall|j: int| 0 <= j < i ==> fits(#[trigger] o@[j].1),
            total == 5 + enc_elems(o@.take(i as int)).len(),
            total <= 0x7FFF_FFFF,
        decreases n - i,
    {
        if i > 0 {
            if !crate::value::str_lt(o.entries[i - 1].0.as_str(), o.entries[i].0.as_str()) {
                proof {
                    assert(o@[i - 1].0 == o.entries@[i - 1].0@);
                    assert(o@[i as int].0 == o.entries@[i as int].0@);
                    assert(!lex_lt(o@[i - 1].0, o@[i as int].0));
                    assert(!entries_sorted(o@));
                }
                return Option::None;
            }
        }
        if !key_writable(&o.entries[i].0) {
            proof {
                if wf_entries(o@) {
                    lemma_wf_entries_index(o@, i as int);
                }
            }
            return Option::None;
        }
        let vsz = match check_value(&o.entries[i].1) {
            Option::Some(sz) => sz,
            Option::None => {
                proof {
                    if wf_entries(o@) {
                        lemma_wf_entries_index(o@, i as int);
                    }
                    if fits_entries(o@) {
                        lemma_fits_entries_index(o@, i as int);
                    }
                }
                return Option::None;
            },
        };
        let klen = o.entries[i].0.as_str().as_bytes_vec().len();
        proof {
            lemma_enc_elems_snoc(o@, i as int);
            lemma_enc_elems_take_len(o@, i + 1);
        }
        if klen > 0x7FFF_FFFF {
            proof {
                assert(enc_elem(o@[i as int].0, o@[i as int].1).len() > 0x7FFF_FFFF);
                assert(enc_elems(o@.take(i + 1)).len() > 0x7FFF_FFFF);
            }
            return Option::None;
        }
        total = total + 2 + klen as u64 + vsz;
        proof {
            assert(o@[i as int].0 == o.entries@[i as int].0@);
            assert(o@[i as int].1 == view_value(o.entries@[i as int].1));
            assert(klen == encode_utf8(o@[i as int].0).len());
            assert(vsz == enc_value(o@[i as int].1).len());
            assert(enc_elem(o@[i as int].0, o@[i as int].1).len() == 1 + encode_utf8(
                o@[i as int].0,
            ).len() + 1 + enc_value(o@[i as int].1).len());
        }
        if total > 0x7FFF_FFFF {
            proof {
                assert(enc_elems(o@).len() + 5 > 0x7FFF_FFFF);
            }
            return Option::None;
        }
        proof {
            assert(o@[i as int].0 == o.entries@[i as int].0@);
            assert(o@[i as int].1 == view_value(o.entries@[i as int].1));
            assert(key_ok(o@[i as int].0));
            assert(wf_value(o@[i as int].1));
            assert(fits(o@[i as int].1));
        }
        i = i + 1;
    }
    proof {
        assert(o@.take(n as int) =~= o@);
        crate::format::lemma_adjacent_sorted(o@);
        crate::format::lemma_wf_entries_build(o@);
        crate::format::lemma_fits_entries_build(o@);
    }
    Option::Some(total)
}

/// Whether `encode` accepts the value: it is well formed and all its length
/// fields fit.  Callers outside the proofs can test this before encoding.
pub fn is_encodable(v: &Bson) -> (r: bool)
    ensures
        r == encodable(v@),
{
    match check_value(v) {
        Option::Some(_) => true,
        Option::None => false,
    }
}

/// The concrete builder: composes each buffer bottom-up and returns it;
/// no state is carried between operations.
pub struct Encoder {}

impl Encoder {
    /// A fresh builder.
    pub fn new() -> (e: Encoder) {
        Encoder {}
    }

    /// Encodes a value through the builder framework and strips the leading
    /// type tag, leaving the top-level buffer (for a document: its framed
    /// bytes).
    pub fn buffer_encode<T: crate::serialize::Encodable<Encoder, EncoderError>>(object: &T) -> (r:
        Result<Vec<u8>, EncoderError>)
        requires
            object.enc_wf(),
        ensures
            r matches Ok(b) ==> ({
                let built = crate::serialize::built_value(object.enc_view());
                if built.len() == 0 {
                    b@ == built
                } else {
                    b@ == built.drop_first()
                }
            }),
            object.enc_supported() ==> r is Ok,
    {
        let mut e = Encoder::new();
        let mut buf = match object.encode(&mut e) {
            Result::Ok(b) => b,
            Result::Err(err) => {
                return Result::Err(err);
            },
        };
        if buf.len() > 0 {
            let _tag = buf.remove(0);
            proof {
                assert(buf@ =~= crate::serialize::built_value(object.enc_view()).drop_first());
            }
        }
        Result::Ok(buf)
    }
}

impl crate::serialize::Encoder<EncoderError> for Encoder {
    /// Buffers are composed in memory: every supported operation succeeds.
    open spec fn builds_ok() -> bool {
        true
    }

    fn build_nil(&mut self) -> (r: Result<Vec<u8>, EncoderError>) {
        let mut b: Vec<u8> = Vec::new();
        b.push(0x0Au8);
        proof {
            assert(b@ =~= crate::serialize::built_value(SpecValue::Null));
        }
        Result::Ok(b)
    }

    fn build_bool(&mut self, v: bool) -> (r: Result<Vec<u8>, EncoderError>) {
        let mut b: Vec<u8> = Vec::new();
        b.push(0x08u8);
        b.push(if v {
            1u8
        } else {
            0u8
        });
        proof {
            assert(b@ =~= crate::serialize::built_value(SpecValue::Boolean(v)));
        }
        Result::Ok(b)
    }

    fn build_f64(&mut self, bits: u64) -> (r: Result<Vec<u8>, EncoderError>) {
        let mut b: Vec<u8> = Vec::new();
        b.push(0x01u8);
        push_le64(&mut b, bits);
        proof {
            assert(b@ =~= crate::serialize::built_value(SpecValue::Float(bits)));
        }
        Result::Ok(b)
    }

    fn build_str(&mut self, v: &str) -> (r: Result<Vec<u8>, EncoderError>) {
        let mut b: Vec<u8> = Vec::new();
        b.push(0x02u8);
        let bytes = v.as_bytes_vec();
        b.extend_from_slice(bytes.as_slice());
        b.push(0u8);
        proof {
            assert(b@ =~= crate::serialize::built_value(SpecValue::String(v@)));
        }
        Result::Ok(b)
    }

    /// Sequences have no tag in this wire format: composing one fails the
    /// encode with `UnsupportedType`.
    fn build_seq(&mut self, len: usize, body: Vec<u8>) -> (r: Result<Vec<u8>, EncoderError>)
        ensures
            r is Err,
    {
        Result::Err(EncoderError::UnsupportedType)
    }

    fn build_seq_elt(&mut self, idx: usize, elt: Vec<u8>) -> (r: Result<Vec<u8>, EncoderError>)
        ensures
            r is Err,
    {
        Result::Err(EncoderError::UnsupportedType)
    }

    fn build_map(&mut self, len: usize, body: Vec<u8>) -> (r: Result<Vec<u8>, EncoderError>)
        ensures
            body@.len() + 5 > max_len() ==> r is Err,
    {
        if body.len() > 0x7FFF_FFFF - 5 {
            return Result::Err(EncoderError::UnsupportedType);
        }
        let mut b: Vec<u8> = Vec::new();
        b.push(0x03u8);
        let total: u32 = (body.len() + 5) as u32;
        push_le32(&mut b, total);
        let mut body = body;
        let ghost body0 = body@;
        b.append(&mut body);
        b.push(0u8);
        proof {
            assert(b@ =~= seq![3u8] + le32((body0.len() + 5) as u32) + body0 + seq![0u8]);
        }
        Result::Ok(b)
    }

    fn build_map_item(&mut self, idx: usize, key: Vec<u8>, val: Vec<u8>) -> (r: Result<
        Vec<u8>,
        EncoderError,
    >) {
        let mut b: Vec<u8> = Vec::new();
        b.push(val[0]);
        b.extend_from_slice(slice_subrange(key.as_slice(), 1, key.len()));
        if val[0] == 0x02 {
            let n: u32 = (val.len() - 1) as u32;
            push_le32(&mut b, n);
        }
        b.extend_from_slice(slice_subrange(val.as_slice(), 1, val.len()));
        proof {
            assert(key@.subrange(1, key@.len() as int) =~= key@.drop_first());
            assert(val@.subrange(1, val@.len() as int) =~= val@.drop_first());
            assert(b@ =~= crate::serialize::reassemble(key@, val@));
        }
        Result::Ok(b)
    }

    fn build_custom(&mut self, buf: Vec<u8>) -> (r: Result<Vec<u8>, EncoderError>) {
        Result::Ok(buf)
    }
}

/// Relies on `String::from_utf8`: it succeeds exactly on valid UTF-8 input,
/// and the returned string holds those very bytes.
#[verifier::external_body]
fn string_from_utf8(bytes: Vec<u8>) -> (r: Option<String>)
    ensures
        r matches Some(s) ==> valid_utf8(bytes@) && encode_utf8(s@) == bytes@,
        valid_utf8(bytes@) ==> r is Some,
{
    match String::from_utf8(bytes) {
        Ok(s) => Some(s),
        Err(_) => None,
    }
}

/// Reads a 32-bit little-endian integer at `pos`.
pub fn read_le32_at(buf: &Vec<u8>, pos: usize) -> (r: u32)
    requires
        pos + 4 <= buf@.len(),
    ensures
        r == le32_val(buf@[pos as int], buf@[pos + 1], buf@[pos + 2], buf@[pos + 3]),
{
    let n = buf.len();
    (buf[pos] as u32) | ((buf[pos + 1] as u32) << 8) | ((buf[pos + 2] as u32) << 16) | ((buf[pos
        + 3] as u32) << 24)
}

/// Reads a 64-bit little-endian integer at `pos`.
pub fn read_le64_at(buf: &Vec<u8>, pos: usize) -> (r: u64)
    requires
        pos + 8 <= buf@.len(),
    ensures
        r == le64_val(
            buf@[pos as int],
            buf@[pos + 1],
            buf@[pos + 2],
            buf@[pos + 3],
            buf@[pos + 4],
            buf@[pos + 5],
            buf@[pos + 6],
            buf@[pos + 7],
        ),
{
    let n = buf.len();
    (buf[pos] as u64) | ((buf[pos + 1] as u64) << 8) | ((buf[pos + 2] as u64) << 16) | ((buf[pos
        + 3] as u64) << 24) | ((buf[pos + 4] as u64) << 32) | ((buf[pos + 5] as u64) << 40) | ((
    buf[pos + 6] as u64) << 48) | ((buf[pos + 7] as u64) << 56)
}

/// Reads a NUL-terminated UTF-8 element name starting at `pos`.
fn parse_name(buf: &Vec<u8>, pos: usize) -> (r: Result<(String, usize), ParserError>)
    requires
        pos <= buf@.len(),
    ensures
        r matches Ok(p) ==> {
            &&& dec_name(buf@, pos as int) == Result::<(Seq<char>, int), ParserError>::Ok(
                (p.0@, p.1 as int),
            )
            &&& pos + 1 <= p.1 <= buf@.len()
            &&& key_ok(p.0@)
        },
        r matches Err(e) ==> dec_name(buf@, pos as int) == Result::<
            (Seq<char>, int),
            ParserError,
        >::Err(e),
{
    let n = buf.len();
    let mut t = pos;
    while t < n && buf[t] != 0
        invariant
            pos <= t <= n,
            n == buf@.len(),
            find_nul(buf@, pos as int) == find_nul(buf@, t as int),
            forall|j: int| pos <= j < t ==> buf@[j] != 0,
        decreases n - t,
    {
        t = t + 1;
    }
    if t == n {
        return Result::Err(ParserError::TruncatedInput);
    }
    proof {
        assert(find_nul(buf@, pos as int) == Option::Some(t as int));
    }
    let bytes = slice_to_vec(slice_subrange(buf.as_slice(), pos, t));
    match string_from_utf8(bytes) {
        Option::None => Result::Err(ParserError::SyntaxError(ErrorCode::InvalidSyntax)),
        Option::Some(s) => {
            proof {
                encode_utf8_decode_utf8(s@);
                assert(vstd::utf8::decode_utf8(buf@.subrange(pos as int, t as int)) == s@);
                if !key_ok(s@) {
                    lemma_utf8_with_nul(s@);
                    let j = choose|j: int|
                        0 <= j < encode_utf8(s@).len() && #[trigger] encode_utf8(s@)[j] == 0;
                    assert(buf@.subrange(pos as int, t as int)[j] == 0);
                    assert(buf@[pos + j] == 0);
                }
            }
            Result::Ok((s, t + 1))
        },
    }
}

/// Reads the payload of a value with the given tag starting at `pos`.
fn parse_value(tag: u8, buf: &Vec<u8>, pos: usize) -> (r: Result<(Bson, usize), ParserError>)
    requires
        pos <= buf@.len(),
    ensures
        r matches Ok(p) ==> {
            &&& dec_value(tag, buf@, pos as int) == Result::<(SpecValue, int), ParserError>::Ok(
                (p.0@, p.1 as int),
            )
            &&& pos <= p.1 <= buf@.len()
            &&& wf_value(p.0@)
        },
        r matches Err(e) ==> dec_value(tag, buf@, pos as int) == Result::<
            (SpecValue, int),
            ParserError,
        >::Err(e),
    decreases buf@.len() - pos, 1int,
{
    let n = buf.len();
    if tag == 0x01 {
        if n - pos < 8 {
            return Result::Err(ParserError::TruncatedInput);
        }
        let bits = read_le64_at(buf, pos);
        Result::Ok((Bson::Float(bits), pos + 8))
    } else if tag == 0x02 {
        if n - pos < 4 {
            return Result::Err(ParserError::TruncatedInput);
        }
        let len32 = read_le32_at(buf, pos);
        if len32 < 1 {
            return Result::Err(ParserError::SyntaxError(ErrorCode::InvalidSyntax));
        }
        let m = len32 as usize;
        if m > n - (pos + 4) {
            return Result::Err(ParserError::TruncatedInput);
        }
        if buf[pos + 4 + m - 1] != 0 {
            return Result::Err(ParserError::SyntaxError(ErrorCode::InvalidSyntax));
        }
        let bytes = slice_to_vec(slice_subrange(buf.as_slice(), pos + 4, pos + 4 + m - 1));
        match string_from_utf8(bytes) {
            Option::None => Result::Err(ParserError::SyntaxError(ErrorCode::InvalidSyntax)),
            Option::Some(s) => {
                proof {
                    encode_utf8_decode_utf8(s@);
                    assert(vstd::utf8::decode_utf8(
                        buf@.subrange(pos + 4, pos + 4 + m - 1),
                    ) == s@);
                }
                Result::Ok((Bson::String(s), pos + 4 + m))
            },
        }
    } else if tag == 0x03 {
        match parse_doc_at(buf, pos) {
            Result::Ok((o, end)) => Result::Ok((Bson::Object(o), end)),
            Result::Err(e) => Result::Err(e),
        }
    } else if tag == 0x07 {
        if n - pos < 12 {
            return Result::Err(ParserError::TruncatedInput);
        }
        let id = slice_to_vec(slice_subrange(buf.as_slice(), pos, pos + 12));
        Result::Ok((Bson::ObjectId(id), pos + 12))
    } else if tag == 0x08 {
        if n - pos < 1 {
            return Result::Err(ParserError::TruncatedInput);
        }
        Result::Ok((Bson::Boolean(buf[pos] != 0), pos + 1))
    } else if tag == 0x0A {
        Result::Ok((Bson::Null, pos))
    } else if tag == 0x10 {
        if n - pos < 4 {
            return Result::Err(ParserError::TruncatedInput);
        }
        let w = read_le32_at(buf, pos);
        Result::Ok((Bson::Int32(w as i32), pos + 4))
    } else {
        Result::Err(ParserError::SyntaxError(ErrorCode::UnknownTag))
    }
}

/// Reads a framed document starting at `pos`: the length prefix, elements
/// until the terminator, and a check that the declared length agrees with
/// the bytes consumed.
pub fn parse_doc_at(buf: &Vec<u8>, pos: usize) -> (r: Result<(Object, usize), ParserError>)
    requires
        pos <= buf@.len(),
    ensures
        r matches Ok(p) ==> {
            &&& dec_doc(buf@, pos as int) == Result::<
                (Seq<(Seq<char>, SpecValue)>, int),
                ParserError,
            >::Ok((p.0@, p.1 as int))
            &&& pos + 5 <= p.1 <= buf@.len()
            &&& entries_sorted(p.0@)
            &&& wf_entries(p.0@)
        },
        r matches Err(e) ==> dec_doc(buf@, pos as int) == Result::<
            (Seq<(Seq<char>, SpecValue)>, int),
            ParserError,
        >::Err(e),
    decreases buf@.len() - pos, 0int,
{
    let n = buf.len();
    if n - pos < 4 {
        return Result::Err(ParserError::TruncatedInput);
    }
    let declared = read_le32_at(buf, pos);
    let mut doc = Object::new();
    let mut cur: usize = pos + 4;
    loop
        invariant
            n == buf@.len(),
            pos + 4 <= cur <= n,
            entries_sorted(doc@),
            wf_entries(doc@),
            dec_elems(buf@, pos + 4, Seq::empty()) == dec_elems(buf@, cur as int, doc@),
            declared == le32_val(buf@[pos as int], buf@[pos + 1], buf@[pos + 2], buf@[pos + 3]),
        decreases n - cur,
    {
        if cur >= n {
            return Result::Err(ParserError::TruncatedInput);
        }
        let tag = buf[cur];
        if tag == 0 {
            let end = cur + 1;
            if end - pos != declared as usize {
                return Result::Err(ParserError::SyntaxError(ErrorCode::InvalidSyntax));
            }
            return Result::Ok((doc, end));
        }
        let (name, p1) = match parse_name(buf, cur + 1) {
            Result::Ok(p) => p,
            Result::Err(e) => {
                return Result::Err(e);
            },
        };
        let (v, p2) = match parse_value(tag, buf, p1) {
            Result::Ok(p) => p,
            Result::Err(e) => {
                return Result::Err(e);
            },
        };
        proof {
            lemma_spec_insert_wf(doc@, name@, v@);
        }
        doc.insert(name, v);
        cur = p2;
    }
}

proof fn lemma_view_list_push(s: Seq<Bson>, b: Bson)
    ensures
        view_list(s.push(b)) == view_list(s) + seq![view_value(b)],
{
    lemma_view_list(s.push(b));
    lemma_view_list(s);
    assert(view_list(s.push(b)) =~= view_list(s) + seq![view_value(b)]);
}

proof fn lemma_view_list_drop_last(s: Seq<Bson>)
    requires
        s.len() > 0,
    ensures
        view_list(s.drop_last()) == view_list(s).drop_last(),
        view_list(s).last() == view_value(s.last()),
{
    lemma_view_list(s);
    lemma_view_list(s.drop_last());
    assert(view_list(s.drop_last()) =~= view_list(s).drop_last());
}

/// The concrete reader: a stack of pending values, the next one on top.
pub struct Decoder {
    stack: Vec<Bson>,
}

impl Decoder {
    /// The values still to be read.
    pub closed spec fn stack_view(&self) -> Seq<SpecValue> {
        view_list(self.stack@)
    }

    /// A reader holding one decoded document value.
    pub fn new(bson: Bson) -> (d: Decoder)
        ensures
            d.stack_view() == seq![bson@],
    {
        let mut stack: Vec<Bson> = Vec::new();
        stack.push(bson);
        proof {
            lemma_view_list(stack@);
            assert(view_list(stack@) =~= seq![bson@]);
        }
        Decoder { stack }
    }

    /// Pops the next pending value, whatever its kind.
    pub fn pop_value(&mut self) -> (r: Result<Bson, DecoderError>)
        ensures
            r matches Ok(b) ==> old(self).stack_view().len() > 0 && b@ == old(
                self,
            ).stack_view().last() && final(self).stack_view() == old(
                self,
            ).stack_view().drop_last(),
            r is Err <==> old(self).stack_view().len() == 0,
            r is Err ==> final(self).stack_view() == old(self).stack_view(),
    {
        proof {
            if self.stack@.len() > 0 {
                lemma_view_list_drop_last(self.stack@);
            }
            lemma_view_list(self.stack@);
        }
        match self.stack.pop() {
            Option::Some(b) => Result::Ok(b),
            Option::None => Result::Err(DecoderError::MismatchedType),
        }
    }
}

impl crate::serialize::Decoder<DecoderError> for Decoder {
    open spec fn dec_stack(&self) -> Seq<SpecValue> {
        self.stack_view()
    }

    /// The stack holds decoded values: a read fails only on a missing or
    /// mismatched value.
    open spec fn reads_ok() -> bool {
        true
    }

    fn read_bool(&mut self) -> (r: Result<bool, DecoderError>)
        ensures
            r is Err <==> !(old(self).stack_view().len() > 0 && old(
                self,
            ).stack_view().last() is Boolean),
    {
        match self.pop_value() {
            Result::Ok(b) => {
                proof {
                    crate::value::lemma_view_kind(b);
                }
                match b {
                    Bson::Boolean(x) => Result::Ok(x),
                    _ => Result::Err(DecoderError::MismatchedType),
                }
            },
            Result::Err(e) => Result::Err(e),
        }
    }

    fn read_f64(&mut self) -> (r: Result<u64, DecoderError>)
        ensures
            r is Err <==> !(old(self).stack_view().len() > 0 && old(
                self,
            ).stack_view().last() is Float),
    {
        match self.pop_value() {
            Result::Ok(b) => {
                proof {
                    crate::value::lemma_view_kind(b);
                }
                match b {
                    Bson::Float(bits) => Result::Ok(bits),
                    _ => Result::Err(DecoderError::MismatchedType),
                }
            },
            Result::Err(e) => Result::Err(e),
        }
    }

    fn read_str(&mut self) -> (r: Result<String, DecoderError>)
        ensures
            r is Err <==> !(old(self).stack_view().len() > 0 && old(
                self,
            ).stack_view().last() is String),
    {
        match self.pop_value() {
            Result::Ok(b) => {
                proof {
                    crate::value::lemma_view_kind(b);
                }
                match b {
                    Bson::String(s) => Result::Ok(s),
                    _ => Result::Err(DecoderError::MismatchedType),
                }
            },
            Result::Err(e) => Result::Err(e),
        }
    }

    fn read_map(&mut self) -> (r: Result<usize, DecoderError>)
        ensures
            r is Err <==> !(old(self).stack_view().len() > 0 && old(
                self,
            ).stack_view().last() is Object),
    {
        let ghost pre = self.stack_view();
        let top = match self.pop_value() {
            Result::Ok(b) => b,
            Result::Err(e) => {
                return Result::Err(e);
            },
        };
        proof {
            crate::value::lemma_view_kind(top);
        }
        match top {
            Bson::Object(o) => {
                let ghost base = pre.drop_last();
                let mut entries = o.entries;
                let n = entries.len();
                let ghost e0 = entries@;
                let ghost es = view_entries(e0);
                proof {
                    lemma_view_entries(e0);
                    assert(entries@ =~= e0.take(entries@.len() as int));
                    assert(es.skip(e0.len() as int) =~= Seq::<(Seq<char>, SpecValue)>::empty());
                    assert(base + map_frame(es.skip(entries@.len() as int)) =~= base);
                }
                while entries.len() > 0
                    invariant
                        es.len() == e0.len(),
                        entries@.len() <= e0.len(),
                        entries@ == e0.take(entries@.len() as int),
                        view_list(self.stack@) == base + map_frame(
                            es.skip(entries@.len() as int),
                        ),
                        forall|j: int|
                            0 <= j < e0.len() ==> #[trigger] es[j] == (
                                e0[j].0@,
                                view_value(e0[j].1),
                            ),
                    decreases entries.len(),
                {
                    let ghost i = entries@.len() - 1;
                    let pair = match entries.pop() {
                        Option::Some(p) => p,
                        Option::None => {
                            proof {
                                assert(false);
                            }
                            return Result::Err(DecoderError::MismatchedType);
                        },
                    };
                    proof {
                        assert(pair == e0.take(i + 1).last());
                        assert(e0.take(i + 1).last() == e0[i]);
                        assert(entries@ =~= e0.take(i));
                        lemma_view_list_push(self.stack@, pair.1);
                    }
                    let ghost stack1 = self.stack@.push(pair.1);
                    self.stack.push(pair.1);
                    proof {
                        lemma_view_list_push(self.stack@, Bson::String(pair.0));
                    }
                    self.stack.push(Bson::String(pair.0));
                    proof {
                        assert(es.skip(i)[0] == es[i]);
                        assert(es.skip(i).drop_first() =~= es.skip(i + 1));
                        assert(map_frame(es.skip(i)) == map_frame(es.skip(i + 1)) + seq![
                            es[i].1,
                            SpecValue::String(es[i].0),
                        ]);
                        assert(es[i] == (e0[i].0@, view_value(e0[i].1)));
                        assert(view_list(self.stack@) =~= base + map_frame(es.skip(i)));
                    }
                }
                proof {
                    assert(entries@.len() == 0);
                    assert(es.skip(0) =~= es);
                    assert(pre.last() == SpecValue::Object(es));
                }
                Result::Ok(n)
            },
            other => {
                self.stack.push(other);
                Result::Err(DecoderError::MismatchedType)
            },
        }
    }
}

impl crate::serialize::Decodable<Decoder, DecoderError> for Bson {
    open spec fn dec_match(v: SpecValue, t: &Self) -> bool {
        t@ == v
    }

    /// A pending value of any kind can be taken as a `Bson`.
    open spec fn dec_accepts(v: SpecValue) -> bool {
        true
    }

    fn decode(d: &mut Decoder) -> (r: Result<Self, DecoderError>) {
        d.pop_value()
    }
}

impl crate::serialize::Decodable<Decoder, DecoderError> for Object {
    open spec fn dec_match(v: SpecValue, t: &Self) -> bool {
        match v {
            SpecValue::Object(es) => t@ == insert_all(Seq::empty(), es) && entries_sorted(t@),
            _ => false,
        }
    }

    open spec fn dec_accepts(v: SpecValue) -> bool {
        v is Object
    }

    fn decode(d: &mut Decoder) -> (r: Result<Self, DecoderError>) {
        let ghost pre = d.stack_view();
        let n = match crate::serialize::Decoder::read_map(d) {
            Result::Ok(n) => n,
            Result::Err(e) => {
                return Result::Err(e);
            },
        };
        let ghost es = pre.last()->Object_0;
        let ghost base = pre.drop_last();
        proof {
            assert(es.skip(0) =~= es);
            assert(es.take(0) =~= Seq::<(Seq<char>, SpecValue)>::empty());
        }
        let mut doc = Object::new();
        let mut i: usize = 0;
        while i < n
            invariant
                pre.len() > 0,
                pre.last() == SpecValue::Object(es),
                n == es.len(),
                i <= n,
                entries_sorted(doc@),
                doc@ == insert_all(Seq::empty(), es.take(i as int)),
                base == pre.drop_last(),
                d.stack_view() == base + map_frame(es.skip(i as int)),
            decreases n - i,
        {
            proof {
                assert(es.skip(i as int)[0] == es[i as int]);
                assert(es.skip(i as int).drop_first() =~= es.skip(i + 1));
                assert(map_frame(es.skip(i as int)) == map_frame(es.skip(i + 1)) + seq![
                    es[i as int].1,
                    SpecValue::String(es[i as int].0),
                ]);
            }
            let p = match crate::serialize::read_map_item::<Decoder, DecoderError, String, Bson>(
                d,
                i,
            ) {
                Result::Ok(p) => p,
                Result::Err(e) => {
                    return Result::Err(e);
                },
            };
            let (k, v) = p;
            proof {
                let frame_rest = base + map_frame(es.skip(i + 1));
                let old_stack = frame_rest + seq![es[i as int].1, SpecValue::String(es[i as int].0)];
                assert(old_stack.last() == SpecValue::String(es[i as int].0));
                assert(old_stack.drop_last() =~= frame_rest + seq![es[i as int].1]);
                assert((frame_rest + seq![es[i as int].1]).last() == es[i as int].1);
                assert(k@ == es[i as int].0);
                assert(v@ == es[i as int].1);
                assert((frame_rest + seq![es[i as int].1]).drop_last() =~= frame_rest);
                lemma_insert_all_snoc(Seq::empty(), es.take(i as int), k@, v@);
                assert(es.take(i as int) + seq![(k@, v@)] =~= es.take(i + 1));
            }
            doc.insert(k, v);
            i = i + 1;
        }
        proof {
            assert(es.take(n as int) =~= es);
            assert(es.skip(n as int) =~= Seq::<(Seq<char>, SpecValue)>::empty());
            assert(base + map_frame(es.skip(n as int)) =~= base);
        }
        Result::Ok(doc)
    }
}

/// Decodes wire bytes and reads the resulting document back as a `T` through
/// the reader framework.  Succeeds only if the byte-level parse succeeds;
/// each parse error comes back wrapped in `ParseError`.
pub fn decode<T: crate::serialize::Decodable<Decoder, DecoderError>>(v: Vec<u8>) -> (r:
    DecodeResult<T>)
    ensures
        r matches Ok(t) ==> (dec_doc(v@, 0) matches Ok(p) && T::dec_match(
            SpecValue::Object(p.0),
            &t,
        )),
        dec_doc(v@, 0) matches Err(e) ==> (r matches Err(e2) && e2 == DecoderError::ParseError(e)),
        (dec_doc(v@, 0) matches Ok(p) && T::dec_accepts(SpecValue::Object(p.0))) ==> r is Ok,
{
    let bson = match from_vec(v) {
        Result::Ok(b) => b,
        Result::Err(e) => {
            return Result::Err(DecoderError::ParseError(e));
        },
    };
    let mut d = Decoder::new(bson);
    T::decode(&mut d)
}

/// Decodes a byte buffer holding one framed document into a document value.
/// Succeeds exactly when the byte-level parse succeeds, and then returns the
/// parsed document; each parse error is returned unchanged.
pub fn from_vec(v: Vec<u8>) -> (r: Result<Bson, BuilderError>)
    ensures
        dec_doc(v@, 0) matches Ok(p) ==> r matches Ok(b) && b@ == SpecValue::Object(p.0)
            && wf_value(b@),
        dec_doc(v@, 0) matches Err(e) ==> r matches Err(e2) && e2 == e,
{
    match parse_doc_at(&v, 0) {
        Result::Ok((o, _end)) => Result::Ok(Bson::Object(o)),
        Result::Err(e) => Result::Err(e),
    }
}

} // verus!
