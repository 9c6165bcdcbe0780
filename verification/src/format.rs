//! The binary wire format, as mathematics: byte sequences for each value
//! kind, document framing (length prefix, elements, terminator), and the
//! facts about them that the codec's proofs rest on.

use vstd::prelude::*;
use vstd::utf8::{
    char_is_scalar, char_u32_cast, decode_utf8, encode_scalar, encode_utf8, encode_utf8_decode_utf8,
    encode_utf8_valid_utf8, has_width_1_encoding, has_width_2_encoding, has_width_3_encoding,
    valid_utf8,
};
use crate::value::{
    SpecValue, entries_sorted, key_ok, lemma_spec_insert_append, lex_lt, spec_insert, wf_entries,
    wf_value,
};

verus! {

/// What, precisely, was wrong with a malformed byte stream.
#[derive(Clone, Copy, PartialEq, Eq, Structural, Debug)]
pub enum ErrorCode {
    /// A structural fault: a bad terminator, an ill-formed name or string, a
    /// length field that disagrees with the bytes.
    InvalidSyntax,
    /// A type tag outside the supported set.
    UnknownTag,
}

/// Why a decode of wire bytes failed.
#[derive(Clone, Copy, PartialEq, Eq, Structural, Debug)]
pub enum ParserError {
    /// The bytes are malformed.
    SyntaxError(ErrorCode),
    /// The input ended before an element's reader was done.
    TruncatedInput,
}

/// Largest number of bytes a document (or a string payload) may occupy: the
/// wire carries lengths as 32-bit signed integers.
pub open spec fn max_len() -> int {
    0x7FFF_FFFF
}

/// The four bytes of a 32-bit integer, least significant first.
pub open spec fn le32(n: u32) -> Seq<u8> {
    seq![
        (n & 0xFF) as u8,
        ((n >> 8) & 0xFF) as u8,
        ((n >> 16) & 0xFF) as u8,
        ((n >> 24) & 0xFF) as u8,
    ]
}

/// The eight bytes of a 64-bit integer, least significant first.
pub open spec fn le64(n: u64) -> Seq<u8> {
    seq![
        (n & 0xFF) as u8,
        ((n >> 8) & 0xFF) as u8,
        ((n >> 16) & 0xFF) as u8,
        ((n >> 24) & 0xFF) as u8,
        ((n >> 32) & 0xFF) as u8,
        ((n >> 40) & 0xFF) as u8,
        ((n >> 48) & 0xFF) as u8,
        ((n >> 56) & 0xFF) as u8,
    ]
}

/// The 32-bit integer described by four little-endian bytes.
pub open spec fn le32_val(b0: u8, b1: u8, b2: u8, b3: u8) -> u32 {
    (b0 as u32) | ((b1 as u32) << 8) | ((b2 as u32) << 16) | ((b3 as u32) << 24)
}

/// The 64-bit integer described by eight little-endian bytes.
pub open spec fn le64_val(b0: u8, b1: u8, b2: u8, b3: u8, b4: u8, b5: u8, b6: u8, b7: u8) -> u64 {
    (b0 as u64) | ((b1 as u64) << 8) | ((b2 as u64) << 16) | ((b3 as u64) << 24) | ((b4 as u64)
        << 32) | ((b5 as u64) << 40) | ((b6 as u64) << 48) | ((b7 as u64) << 56)
}

/// Reading back the four bytes of `le32` yields the original integer.
pub proof fn lemma_le32_roundtrip(n: u32)
    by (bit_vector)
    ensures
        le32_val(
            (n & 0xFF) as u8,
            ((n >> 8) & 0xFF) as u8,
            ((n >> 16) & 0xFF) as u8,
            ((n >> 24) & 0xFF) as u8,
        ) == n,
{
}

/// Reading back the eight bytes of `le64` yields the original integer.
pub proof fn lemma_le64_roundtrip(n: u64)
    by (bit_vector)
    ensures
        le64_val(
            (n & 0xFF) as u8,
            ((n >> 8) & 0xFF) as u8,
            ((n >> 16) & 0xFF) as u8,
            ((n >> 24) & 0xFF) as u8,
            ((n >> 32) & 0xFF) as u8,
            ((n >> 40) & 0xFF) as u8,
            ((n >> 48) & 0xFF) as u8,
            ((n >> 56) & 0xFF) as u8,
        ) == n,
{
}

/// The type tag that introduces an element holding the given value.
pub open spec fn tag_of(v: SpecValue) -> u8 {
    match v {
        SpecValue::Float(_) => 0x01,
        SpecValue::String(_) => 0x02,
        SpecValue::Object(_) => 0x03,
        SpecValue::List(_) => 0x04,
        SpecValue::ObjectId(_) => 0x07,
        SpecValue::Boolean(_) => 0x08,
        SpecValue::Null => 0x0A,
        SpecValue::Int32(_) => 0x10,
    }
}

/// The payload bytes of a value: what follows the tag and the element name.
pub open spec fn enc_value(v: SpecValue) -> Seq<u8>
    decreases v, 0int,
{
    match v {
        SpecValue::Float(bits) => le64(bits),
        SpecValue::String(s) => le32((encode_utf8(s).len() + 1) as u32) + encode_utf8(s) + seq![
            0u8,
        ],
        SpecValue::Object(es) => enc_doc(es),
        SpecValue::List(_) => Seq::empty(),
        SpecValue::ObjectId(id) => id,
        SpecValue::Boolean(b) => seq![if b { 1u8 } else { 0u8 }],
        SpecValue::Null => Seq::empty(),
        SpecValue::Int32(x) => le32(x as u32),
    }
}

/// One element: type tag, NUL-terminated name, payload.
pub open spec fn enc_elem(k: Seq<char>, v: SpecValue) -> Seq<u8>
    decreases v, 1int,
{
    seq![tag_of(v)] + encode_utf8(k) + seq![0u8] + enc_value(v)
}

/// The concatenated elements of a document body, in entry order.
pub open spec fn enc_elems(es: Seq<(Seq<char>, SpecValue)>) -> Seq<u8>
    decreases es, 0int,
{
    if es.len() == 0 {
        Seq::empty()
    } else {
        enc_elem(es[0].0, es[0].1) + enc_elems(es.drop_first())
    }
}

/// A whole document: its total length (including the length field itself and
/// the trailing terminator), the elements, and the `0x00` terminator.
pub open spec fn enc_doc(es: Seq<(Seq<char>, SpecValue)>) -> Seq<u8>
    decreases es, 1int,
{
    le32((enc_elems(es).len() + 5) as u32) + enc_elems(es) + seq![0u8]
}

/// What the top-level `encode` emits for a value: documents are framed, and a
/// bare string is its raw NUL-terminated text.
pub open spec fn enc_top(v: SpecValue) -> Seq<u8> {
    match v {
        SpecValue::String(s) => encode_utf8(s) + seq![0u8],
        SpecValue::Object(es) => enc_doc(es),
        _ => enc_value(v),
    }
}

/// Every length field the encoding of this value needs fits in a 32-bit
/// signed integer.
pub open spec fn fits(v: SpecValue) -> bool
    decreases v, 0int,
{
    match v {
        SpecValue::String(s) => encode_utf8(s).len() + 1 <= max_len(),
        SpecValue::Object(es) => enc_elems(es).len() + 5 <= max_len() && fits_entries(es),
        _ => true,
    }
}

pub open spec fn fits_entries(es: Seq<(Seq<char>, SpecValue)>) -> bool
    decreases es, 1int,
{
    if es.len() == 0 {
        true
    } else {
        fits(es[0].1) && fits_entries(es.drop_first())
    }
}

/// A value the codec will encode: well-formed and within the size limits.
pub open spec fn encodable(v: SpecValue) -> bool {
    wf_value(v) && fits(v)
}

/// Index of the first `0x00` byte at or after `pos`.
pub open spec fn find_nul(s: Seq<u8>, pos: int) -> Option<int>
    decreases s.len() - pos,
{
    if pos < 0 || pos >= s.len() {
        Option::None
    } else if s[pos] == 0 {
        Option::Some(pos)
    } else {
        find_nul(s, pos + 1)
    }
}

/// Where the bytes from `a` up to `b` are nonzero and `s[b]` is zero, the
/// scan finds exactly `b`.
pub proof fn lemma_find_nul_exact(s: Seq<u8>, a: int, b: int)
    requires
        0 <= a <= b < s.len(),
        forall|j: int| a <= j < b ==> s[j] != 0,
        s[b] == 0,
    ensures
        find_nul(s, a) == Option::Some(b),
    decreases b - a,
{
    if a < b {
        lemma_find_nul_exact(s, a + 1, b);
    }
}

/// Parses a NUL-terminated UTF-8 name starting at `pos`; returns the decoded
/// characters and the position after the terminator.
pub open spec fn dec_name(s: Seq<u8>, pos: int) -> Result<(Seq<char>, int), ParserError> {
    match find_nul(s, pos) {
        Option::None => Result::Err(ParserError::TruncatedInput),
        Option::Some(t) => {
            let bytes = s.subrange(pos, t);
            if vstd::utf8::valid_utf8(bytes) {
                Result::Ok((vstd::utf8::decode_utf8(bytes), t + 1))
            } else {
                Result::Err(ParserError::SyntaxError(ErrorCode::InvalidSyntax))
            }
        },
    }
}

/// The type tags the decoder knows a reader for.
pub open spec fn known_tag(t: u8) -> bool {
    t == 0x01 || t == 0x02 || t == 0x03 || t == 0x07 || t == 0x08 || t == 0x0A || t == 0x10
}

/// Parses the payload of a value with the given tag starting at `pos`;
/// returns the value and the position after its last byte.
pub open spec fn dec_value(tag: u8, s: Seq<u8>, pos: int) -> Result<(SpecValue, int), ParserError>
    decreases s.len() - pos, 1int,
{
    if pos < 0 || pos > s.len() {
        Result::Err(ParserError::TruncatedInput)
    } else if tag == 0x01 {
        if pos + 8 <= s.len() {
            Result::Ok(
                (
                    SpecValue::Float(
                        le64_val(
                            s[pos],
                            s[pos + 1],
                            s[pos + 2],
                            s[pos + 3],
                            s[pos + 4],
                            s[pos + 5],
                            s[pos + 6],
                            s[pos + 7],
                        ),
                    ),
                    pos + 8,
                ),
            )
        } else {
            Result::Err(ParserError::TruncatedInput)
        }
    } else if tag == 0x02 {
        if pos + 4 > s.len() {
            Result::Err(ParserError::TruncatedInput)
        } else {
            let n = le32_val(s[pos], s[pos + 1], s[pos + 2], s[pos + 3]) as int;
            if n < 1 {
                Result::Err(ParserError::SyntaxError(ErrorCode::InvalidSyntax))
            } else if pos + 4 + n > s.len() {
                Result::Err(ParserError::TruncatedInput)
            } else if s[pos + 4 + n - 1] != 0 {
                Result::Err(ParserError::SyntaxError(ErrorCode::InvalidSyntax))
            } else {
                let bytes = s.subrange(pos + 4, pos + 4 + n - 1);
                if vstd::utf8::valid_utf8(bytes) {
                    Result::Ok((SpecValue::String(vstd::utf8::decode_utf8(bytes)), pos + 4 + n))
                } else {
                    Result::Err(ParserError::SyntaxError(ErrorCode::InvalidSyntax))
                }
            }
        }
    } else if tag == 0x03 {
        match dec_doc(s, pos) {
            Result::Ok((es, end)) => Result::Ok((SpecValue::Object(es), end)),
            Result::Err(e) => Result::Err(e),
        }
    } else if tag == 0x07 {
        if pos + 12 <= s.len() {
            Result::Ok((SpecValue::ObjectId(s.subrange(pos, pos + 12)), pos + 12))
        } else {
            Result::Err(ParserError::TruncatedInput)
        }
    } else if tag == 0x08 {
        if pos + 1 <= s.len() {
            Result::Ok((SpecValue::Boolean(s[pos] != 0), pos + 1))
        } else {
            Result::Err(ParserError::TruncatedInput)
        }
    } else if tag == 0x0A {
        Result::Ok((SpecValue::Null, pos))
    } else if tag == 0x10 {
        if pos + 4 <= s.len() {
            Result::Ok(
                (
                    SpecValue::Int32(le32_val(s[pos], s[pos + 1], s[pos + 2], s[pos + 3]) as i32),
                    pos + 4,
                ),
            )
        } else {
            Result::Err(ParserError::TruncatedInput)
        }
    } else {
        Result::Err(ParserError::SyntaxError(ErrorCode::UnknownTag))
    }
}

/// Parses elements until the document terminator, inserting each named value
/// into the accumulated entries; returns the entries and the position after
/// the terminator.
pub open spec fn dec_elems(s: Seq<u8>, pos: int, acc: Seq<(Seq<char>, SpecValue)>) -> Result<
    (Seq<(Seq<char>, SpecValue)>, int),
    ParserError,
>
    decreases s.len() - pos, 2int,
{
    if pos < 0 || pos >= s.len() {
        Result::Err(ParserError::TruncatedInput)
    } else if s[pos] == 0 {
        Result::Ok((acc, pos + 1))
    } else {
        let tag = s[pos];
        match dec_name(s, pos + 1) {
            Result::Err(e) => Result::Err(e),
            Result::Ok((name, p1)) => {
                if p1 <= pos + 1 || p1 > s.len() {
                    Result::Err(ParserError::SyntaxError(ErrorCode::InvalidSyntax))
                } else {
                    match dec_value(tag, s, p1) {
                        Result::Err(e) => Result::Err(e),
                        Result::Ok((v, p2)) => {
                            if p2 <= pos || p2 > s.len() {
                                Result::Err(ParserError::SyntaxError(ErrorCode::InvalidSyntax))
                            } else {
                                dec_elems(s, p2, crate::value::spec_insert(acc, name, v))
                            }
                        },
                    }
                }
            },
        }
    }
}

/// Parses a framed document starting at `pos`: the 4-byte length, the
/// elements, the terminator.  The declared length must agree with the bytes
/// consumed.
pub open spec fn dec_doc(s: Seq<u8>, pos: int) -> Result<
    (Seq<(Seq<char>, SpecValue)>, int),
    ParserError,
>
    decreases s.len() - pos, 0int,
{
    if pos < 0 || pos + 4 > s.len() {
        Result::Err(ParserError::TruncatedInput)
    } else {
        let declared = le32_val(s[pos], s[pos + 1], s[pos + 2], s[pos + 3]) as int;
        match dec_elems(s, pos + 4, Seq::empty()) {
            Result::Err(e) => Result::Err(e),
            Result::Ok((es, end)) => {
                if end - pos == declared {
                    Result::Ok((es, end))
                } else {
                    Result::Err(ParserError::SyntaxError(ErrorCode::InvalidSyntax))
                }
            },
        }
    }
}

proof fn lemma_or_nonzero(y: u8)
    by (bit_vector)
    ensures
        (0x80u8 | y) != 0,
        (0xC0u8 | y) != 0,
        (0xE0u8 | y) != 0,
        (0xF0u8 | y) != 0,
{
}

proof fn lemma_low7_nonzero(c: u32)
    by (bit_vector)
    requires
        c != 0,
        c <= 0x7F,
    ensures
        ((c & 0x7F) as u8) != 0,
{
}

/// The UTF-8 bytes of a character are all nonzero, unless the character is
/// NUL, whose encoding is the single zero byte.
proof fn lemma_encode_scalar_nul(c: char)
    ensures
        c != '\0' ==> forall|j: int|
            0 <= j < encode_scalar(c as u32).len() ==> #[trigger] encode_scalar(c as u32)[j] != 0,
        c == '\0' ==> encode_scalar(c as u32) == seq![0u8],
{
    char_is_scalar(c);
    let u = c as u32;
    assert('\0' as u32 == 0);
    if c == '\0' {
        assert(u == 0);
        assert((0u32 & 0x7F) as u8 == 0) by (bit_vector);
        assert(encode_scalar(u) =~= seq![0u8]);
    } else {
        assert(u != 0) by {
            if u == 0 {
                char_u32_cast(c, 0);
                char_u32_cast('\0', 0);
            }
        }
        if has_width_1_encoding(u) {
            lemma_low7_nonzero(u);
        } else if has_width_2_encoding(u) {
            lemma_or_nonzero((((u >> 6) & 0x1F) as u8));
            lemma_or_nonzero(((u & 0x3F) as u8));
        } else if has_width_3_encoding(u) {
            lemma_or_nonzero((((u >> 12) & 0x0F) as u8));
            lemma_or_nonzero((((u >> 6) & 0x3F) as u8));
            lemma_or_nonzero(((u & 0x3F) as u8));
        } else {
            lemma_or_nonzero((((u >> 18) & 0x7) as u8));
            lemma_or_nonzero((((u >> 12) & 0x3F) as u8));
            lemma_or_nonzero((((u >> 6) & 0x3F) as u8));
            lemma_or_nonzero(((u & 0x3F) as u8));
        }
    }
}

/// The UTF-8 bytes of a name without NUL characters contain no zero byte.
pub proof fn lemma_utf8_no_nul(k: Seq<char>)
    requires
        key_ok(k),
    ensures
        forall|j: int| 0 <= j < encode_utf8(k).len() ==> #[trigger] encode_utf8(k)[j] != 0,
    decreases k.len(),
{
    if k.len() > 0 {
        assert(k[0] != '\0');
        lemma_encode_scalar_nul(k[0]);
        assert(key_ok(k.drop_first())) by {
            assert(forall|i: int|
                0 <= i < k.drop_first().len() ==> #[trigger] k.drop_first()[i] == k[i + 1]);
        }
        lemma_utf8_no_nul(k.drop_first());
        let first = encode_scalar(k[0] as u32);
        let rest = encode_utf8(k.drop_first());
        assert(encode_utf8(k) == first + rest);
        assert forall|j: int| 0 <= j < encode_utf8(k).len() implies #[trigger] encode_utf8(k)[j]
            != 0 by {
            if j < first.len() {
                assert(encode_utf8(k)[j] == first[j]);
            } else {
                assert(encode_utf8(k)[j] == rest[j - first.len()]);
            }
        }
    }
}

/// A name with a NUL character has a zero byte in its UTF-8 encoding.
pub proof fn lemma_utf8_with_nul(k: Seq<char>)
    requires
        !key_ok(k),
    ensures
        exists|j: int| 0 <= j < encode_utf8(k).len() && #[trigger] encode_utf8(k)[j] == 0,
    decreases k.len(),
{
    let i = choose|i: int| 0 <= i < k.len() && k[i] == '\0';
    let first = encode_scalar(k[0] as u32);
    let rest = encode_utf8(k.drop_first());
    assert(encode_utf8(k) == first + rest);
    if i == 0 {
        lemma_encode_scalar_nul(k[0]);
        assert(encode_utf8(k)[0] == first[0]);
        assert(encode_utf8(k)[0] == 0);
    } else {
        assert(!key_ok(k.drop_first())) by {
            assert(k.drop_first()[i - 1] == k[i]);
        }
        lemma_utf8_with_nul(k.drop_first());
        let j = choose|j: int| 0 <= j < rest.len() && #[trigger] rest[j] == 0;
        assert(encode_utf8(k)[first.len() + j] == rest[j]);
        assert(encode_utf8(k)[first.len() + j] == 0);
    }
}

pub proof fn lemma_wf_entries_index(es: Seq<(Seq<char>, SpecValue)>, i: int)
    requires
        wf_entries(es),
        0 <= i < es.len(),
    ensures
        key_ok(es[i].0),
        wf_value(es[i].1),
    decreases es.len(),
{
    if i > 0 {
        lemma_wf_entries_index(es.drop_first(), i - 1);
        assert(es.drop_first()[i - 1] == es[i]);
    }
}

pub proof fn lemma_fits_entries_index(es: Seq<(Seq<char>, SpecValue)>, i: int)
    requires
        fits_entries(es),
        0 <= i < es.len(),
    ensures
        fits(es[i].1),
    decreases es.len(),
{
    if i > 0 {
        lemma_fits_entries_index(es.drop_first(), i - 1);
        assert(es.drop_first()[i - 1] == es[i]);
    }
}

pub proof fn lemma_enc_elems_concat(s1: Seq<(Seq<char>, SpecValue)>, s2: Seq<(Seq<char>, SpecValue)>)
    ensures
        enc_elems(s1 + s2) == enc_elems(s1) + enc_elems(s2),
    decreases s1.len(),
{
    if s1.len() == 0 {
        assert(s1 + s2 =~= s2);
        assert(enc_elems(s1) + enc_elems(s2) =~= enc_elems(s2));
    } else {
        assert((s1 + s2).drop_first() =~= s1.drop_first() + s2);
        assert((s1 + s2)[0] == s1[0]);
        lemma_enc_elems_concat(s1.drop_first(), s2);
        assert(enc_elem(s1[0].0, s1[0].1) + (enc_elems(s1.drop_first()) + enc_elems(s2)) =~= (
        enc_elem(s1[0].0, s1[0].1) + enc_elems(s1.drop_first())) + enc_elems(s2));
    }
}

/// Extending the encoded prefix by one element.
pub proof fn lemma_enc_elems_snoc(es: Seq<(Seq<char>, SpecValue)>, i: int)
    requires
        0 <= i < es.len(),
    ensures
        enc_elems(es.take(i + 1)) == enc_elems(es.take(i)) + enc_elem(es[i].0, es[i].1),
    decreases es.len(),
{
    assert(es.take(i + 1) =~= es.take(i) + seq![es[i]]);
    lemma_enc_elems_concat(es.take(i), seq![es[i]]);
    let single = seq![es[i]];
    assert(single[0] == es[i]);
    assert(single.drop_first() =~= Seq::<(Seq<char>, SpecValue)>::empty());
    assert(enc_elems(single) == enc_elem(es[i].0, es[i].1) + enc_elems(single.drop_first()));
    assert(enc_elem(es[i].0, es[i].1) + Seq::<u8>::empty() =~= enc_elem(es[i].0, es[i].1));
}

/// The encoded body never shrinks as entries are added, so every prefix obeys
/// the document size bound.
pub proof fn lemma_enc_elems_take_len(es: Seq<(Seq<char>, SpecValue)>, i: int)
    requires
        0 <= i <= es.len(),
    ensures
        enc_elems(es.take(i)).len() <= enc_elems(es).len(),
    decreases es.len() - i,
{
    if i == es.len() {
        assert(es.take(i) =~= es);
    } else {
        lemma_enc_elems_take_len(es, i + 1);
        lemma_enc_elems_snoc(es, i);
    }
}

/// Adjacent ascending keys make the whole sequence strictly sorted.
pub proof fn lemma_adjacent_sorted(es: Seq<(Seq<char>, SpecValue)>)
    requires
        forall|j: int| 0 <= j < es.len() - 1 ==> lex_lt(#[trigger] es[j].0, es[j + 1].0),
    ensures
        entries_sorted(es),
{
    assert forall|i: int, j: int| 0 <= i < j < es.len() implies #[trigger] lex_lt(
        es[i].0,
        es[j].0,
    ) by {
        lemma_adjacent_sorted_step(es, i, j);
    }
}

proof fn lemma_adjacent_sorted_step(es: Seq<(Seq<char>, SpecValue)>, i: int, j: int)
    requires
        forall|k: int| 0 <= k < es.len() - 1 ==> lex_lt(#[trigger] es[k].0, es[k + 1].0),
        0 <= i < j < es.len(),
    ensures
        lex_lt(es[i].0, es[j].0),
    decreases j - i,
{
    if j == i + 1 {
        assert(lex_lt(es[i].0, es[i + 1].0));
    } else {
        lemma_adjacent_sorted_step(es, i, j - 1);
        assert(lex_lt(es[j - 1].0, es[j].0));
        crate::value::lemma_lex_trans(es[i].0, es[j - 1].0, es[j].0);
    }
}

/// Elementwise well-formedness makes the whole sequence well formed.
pub proof fn lemma_wf_entries_build(es: Seq<(Seq<char>, SpecValue)>)
    requires
        forall|j: int| 0 <= j < es.len() ==> key_ok(#[trigger] es[j].0) && wf_value(es[j].1),
    ensures
        wf_entries(es),
    decreases es.len(),
{
    if es.len() > 0 {
        assert forall|j: int| 0 <= j < es.drop_first().len() implies key_ok(
            #[trigger] es.drop_first()[j].0,
        ) && wf_value(es.drop_first()[j].1) by {
            assert(es.drop_first()[j] == es[j + 1]);
        }
        lemma_wf_entries_build(es.drop_first());
        assert(key_ok(es[0].0) && wf_value(es[0].1));
    }
}

/// Elementwise size bounds make the whole sequence fit.
pub proof fn lemma_fits_entries_build(es: Seq<(Seq<char>, SpecValue)>)
    requires
        forall|j: int| 0 <= j < es.len() ==> fits(#[trigger] es[j].1),
    ensures
        fits_entries(es),
    decreases es.len(),
{
    if es.len() > 0 {
        assert forall|j: int| 0 <= j < es.drop_first().len() implies fits(
            #[trigger] es.drop_first()[j].1,
        ) by {
            assert(es.drop_first()[j] == es[j + 1]);
        }
        lemma_fits_entries_build(es.drop_first());
    }
}

/// Decoding the payload bytes of an encodable value, embedded anywhere in a
/// larger buffer, yields exactly that value and consumes exactly its bytes.
pub proof fn lemma_roundtrip_value(v: SpecValue, s: Seq<u8>, pos: int)
    requires
        wf_value(v),
        fits(v),
        0 <= pos,
        pos + enc_value(v).len() <= s.len(),
        s.subrange(pos, pos + enc_value(v).len()) == enc_value(v),
    ensures
        dec_value(tag_of(v), s, pos) == Result::<(SpecValue, int), ParserError>::Ok(
            (v, pos + enc_value(v).len()),
        ),
    decreases v, 0int,
{
    let e = enc_value(v);
    assert(forall|x: int| 0 <= x < e.len() ==> s[pos + x] == #[trigger] e[x]) by {
        assert forall|x: int| 0 <= x < e.len() implies s[pos + x] == #[trigger] e[x] by {
            assert(s.subrange(pos, pos + e.len())[x] == s[pos + x]);
        }
    }
    match v {
        SpecValue::Float(bits) => {
            assert(e[0] == (bits & 0xFF) as u8);
            assert(e[1] == ((bits >> 8) & 0xFF) as u8);
            assert(e[2] == ((bits >> 16) & 0xFF) as u8);
            assert(e[3] == ((bits >> 24) & 0xFF) as u8);
            assert(e[4] == ((bits >> 32) & 0xFF) as u8);
            assert(e[5] == ((bits >> 40) & 0xFF) as u8);
            assert(e[6] == ((bits >> 48) & 0xFF) as u8);
            assert(e[7] == ((bits >> 56) & 0xFF) as u8);
            lemma_le64_roundtrip(bits);
        },
        SpecValue::Boolean(_) => {
            assert(s[pos] == e[0]);
        },
        SpecValue::Int32(x) => {
            let w = #[verifier::truncate] (x as u32);
            assert(e[0] == (w & 0xFF) as u8);
            assert(e[1] == ((w >> 8) & 0xFF) as u8);
            assert(e[2] == ((w >> 16) & 0xFF) as u8);
            assert(e[3] == ((w >> 24) & 0xFF) as u8);
            lemma_le32_roundtrip(w);
            assert((w as i32) == x) by (bit_vector)
                requires
                    w == #[verifier::truncate] (x as u32),
            ;
        },
        SpecValue::Null => {
        },
        SpecValue::ObjectId(id) => {
            assert(s.subrange(pos, pos + 12) =~= id);
        },
        SpecValue::String(str_s) => {
            let u = encode_utf8(str_s);
            let m = u.len() as int;
            let w = ((m + 1) as u32);
            assert(e[0] == (w & 0xFF) as u8);
            assert(e[1] == ((w >> 8) & 0xFF) as u8);
            assert(e[2] == ((w >> 16) & 0xFF) as u8);
            assert(e[3] == ((w >> 24) & 0xFF) as u8);
            lemma_le32_roundtrip(w);
            assert(le32_val(s[pos], s[pos + 1], s[pos + 2], s[pos + 3]) as int == m + 1);
            assert(s[pos + 4 + m] == e[4 + m]);
            assert(e[4 + m] == 0);
            let bytes = s.subrange(pos + 4, pos + 4 + m);
            assert(bytes =~= u) by {
                assert forall|x: int| 0 <= x < m implies bytes[x] == u[x] by {
                    assert(bytes[x] == s[pos + 4 + x]);
                    assert(e[4 + x] == u[x]);
                }
            }
            encode_utf8_valid_utf8(str_s);
            encode_utf8_decode_utf8(str_s);
        },
        SpecValue::Object(es) => {
            lemma_roundtrip_doc(es, s, pos);
        },
        SpecValue::List(_) => {
            assert(false);
        },
    }
}

/// Decoding the elements-plus-terminator region of an encoded body extends
/// the accumulated entries by exactly those elements, in order.
pub proof fn lemma_roundtrip_elems(
    acc: Seq<(Seq<char>, SpecValue)>,
    es: Seq<(Seq<char>, SpecValue)>,
    s: Seq<u8>,
    pos: int,
)
    requires
        entries_sorted(acc + es),
        wf_entries(es),
        fits_entries(es),
        0 <= pos,
        pos + enc_elems(es).len() + 1 <= s.len(),
        s.subrange(pos, pos + enc_elems(es).len() + 1) == enc_elems(es) + seq![0u8],
    ensures
        dec_elems(s, pos, acc) == Result::<(Seq<(Seq<char>, SpecValue)>, int), ParserError>::Ok(
            (acc + es, pos + enc_elems(es).len() + 1),
        ),
    decreases es, 1int,
{
    let body = enc_elems(es);
    let region = body + seq![0u8];
    assert(forall|x: int| 0 <= x < region.len() ==> s[pos + x] == #[trigger] region[x]) by {
        assert forall|x: int| 0 <= x < region.len() implies s[pos + x] == #[trigger] region[x] by {
            assert(s.subrange(pos, pos + region.len())[x] == s[pos + x]);
        }
    }
    if es.len() == 0 {
        assert(region[0] == 0);
        assert(s[pos] == 0);
        assert(acc + es =~= acc);
    } else {
        let k0 = es[0].0;
        let v0 = es[0].1;
        let rest = es.drop_first();
        let e0 = enc_elem(k0, v0);
        let u = encode_utf8(k0);
        let ulen = u.len() as int;
        let vlen = enc_value(v0).len() as int;
        assert(body == e0 + enc_elems(rest));
        assert(e0.len() == 1 + ulen + 1 + vlen);
        assert(forall|x: int| 0 <= x < e0.len() ==> #[trigger] e0[x] == region[x]);
        assert(e0[0] == tag_of(v0));
        assert(s[pos] == tag_of(v0));
        assert(key_ok(k0) && wf_value(v0) && wf_entries(rest));
        assert(fits(v0) && fits_entries(rest));
        assert(tag_of(v0) != 0);
        // The name region: nonzero UTF-8 bytes, then the terminator.
        lemma_utf8_no_nul(k0);
        assert(forall|x: int| 0 <= x < ulen ==> s[pos + 1 + x] == #[trigger] u[x]) by {
            assert forall|x: int| 0 <= x < ulen implies s[pos + 1 + x] == #[trigger] u[x] by {
                assert(e0[1 + x] == u[x]);
                assert(region[1 + x] == e0[1 + x]);
            }
        }
        assert(e0[1 + ulen] == 0);
        assert(s[pos + 1 + ulen] == 0);
        assert forall|j: int| pos + 1 <= j < pos + 1 + ulen implies s[j] != 0 by {
            assert(s[j] == u[j - pos - 1]);
        }
        lemma_find_nul_exact(s, pos + 1, pos + 1 + ulen);
        let namebytes = s.subrange(pos + 1, pos + 1 + ulen);
        assert(namebytes =~= u);
        encode_utf8_valid_utf8(k0);
        encode_utf8_decode_utf8(k0);
        assert(dec_name(s, pos + 1) == Result::<(Seq<char>, int), ParserError>::Ok(
            (k0, pos + 2 + ulen),
        ));
        let p1 = pos + 2 + ulen;
        // The value region.
        assert(s.subrange(p1, p1 + vlen) =~= enc_value(v0)) by {
            assert forall|x: int| 0 <= x < vlen implies s.subrange(p1, p1 + vlen)[x] == enc_value(
                v0,
            )[x] by {
                assert(s.subrange(p1, p1 + vlen)[x] == s[p1 + x]);
                assert(e0[2 + ulen + x] == enc_value(v0)[x]);
                assert(region[2 + ulen + x] == e0[2 + ulen + x]);
            }
        }
        lemma_roundtrip_value(v0, s, p1);
        let p2 = p1 + vlen;
        // The insertion appends: every accumulated key is below `k0`.
        assert forall|j: int| 0 <= j < acc.len() implies lex_lt(#[trigger] acc[j].0, k0) by {
            assert((acc + es)[j] == acc[j]);
            assert((acc + es)[acc.len() as int] == es[0]);
            assert(lex_lt((acc + es)[j].0, (acc + es)[acc.len() as int].0));
        }
        lemma_spec_insert_append(acc, k0, v0);
        let acc1 = acc + seq![(k0, v0)];
        assert(acc1 + rest =~= acc + es);
        // The remaining region encodes the remaining entries.
        assert(s.subrange(p2, p2 + enc_elems(rest).len() + 1) =~= enc_elems(rest) + seq![0u8]) by {
            let tail_region = enc_elems(rest) + seq![0u8];
            assert forall|x: int| 0 <= x < tail_region.len() implies s.subrange(
                p2,
                p2 + enc_elems(rest).len() + 1,
            )[x] == tail_region[x] by {
                assert(s.subrange(p2, p2 + enc_elems(rest).len() + 1)[x] == s[p2 + x]);
                assert(region[e0.len() + x] == tail_region[x]) by {
                    if x < enc_elems(rest).len() {
                        assert(body[e0.len() + x] == enc_elems(rest)[x]);
                        assert(region[e0.len() + x] == body[e0.len() + x]);
                    } else {
                        assert(region[e0.len() + x] == 0);
                    }
                }
            }
        }
        lemma_roundtrip_elems(acc1, rest, s, p2);
        assert(dec_elems(s, p2, acc1) == Result::<
            (Seq<(Seq<char>, SpecValue)>, int),
            ParserError,
        >::Ok((acc + es, pos + enc_elems(es).len() + 1)));
    }
}

/// Decoding an encoded document, embedded anywhere in a larger buffer, yields
/// exactly its entries and consumes exactly its bytes.
pub proof fn lemma_roundtrip_doc(es: Seq<(Seq<char>, SpecValue)>, s: Seq<u8>, pos: int)
    requires
        entries_sorted(es),
        wf_entries(es),
        fits_entries(es),
        enc_elems(es).len() + 5 <= max_len(),
        0 <= pos,
        pos + enc_doc(es).len() <= s.len(),
        s.subrange(pos, pos + enc_doc(es).len()) == enc_doc(es),
    ensures
        dec_doc(s, pos) == Result::<(Seq<(Seq<char>, SpecValue)>, int), ParserError>::Ok(
            (es, pos + enc_doc(es).len()),
        ),
    decreases es, 2int,
{
    let body = enc_elems(es);
    let n = body.len() as int;
    let d = enc_doc(es);
    assert(d.len() == n + 5);
    assert(forall|x: int| 0 <= x < d.len() ==> s[pos + x] == #[trigger] d[x]) by {
        assert forall|x: int| 0 <= x < d.len() implies s[pos + x] == #[trigger] d[x] by {
            assert(s.subrange(pos, pos + d.len())[x] == s[pos + x]);
        }
    }
    let w = ((n + 5) as u32);
    assert(d[0] == (w & 0xFF) as u8);
    assert(d[1] == ((w >> 8) & 0xFF) as u8);
    assert(d[2] == ((w >> 16) & 0xFF) as u8);
    assert(d[3] == ((w >> 24) & 0xFF) as u8);
    lemma_le32_roundtrip(w);
    assert(le32_val(s[pos], s[pos + 1], s[pos + 2], s[pos + 3]) as int == n + 5);
    assert(s.subrange(pos + 4, pos + 4 + n + 1) =~= body + seq![0u8]) by {
        assert forall|x: int| 0 <= x < n + 1 implies s.subrange(pos + 4, pos + 4 + n + 1)[x] == (
        body + seq![0u8])[x] by {
            assert(s.subrange(pos + 4, pos + 4 + n + 1)[x] == s[pos + 4 + x]);
            assert(d[4 + x] == (body + seq![0u8])[x]);
        }
    }
    let empty_acc = Seq::<(Seq<char>, SpecValue)>::empty();
    assert(empty_acc + es =~= es);
    lemma_roundtrip_elems(empty_acc, es, s, pos + 4);
    assert(dec_elems(s, pos + 4, empty_acc) == Result::<
        (Seq<(Seq<char>, SpecValue)>, int),
        ParserError,
    >::Ok((es, pos + 4 + n + 1)));
}

/// THE ROUND-TRIP LAW: decoding the encoding of any well-formed document
/// gives back exactly that document.  Together with the contracts of
/// `encode` and `from_vec`, this pins `decode(encode(v)) == v` for every
/// value the format can carry.
pub proof fn lemma_round_trip(es: Seq<(Seq<char>, SpecValue)>)
    requires
        entries_sorted(es),
        wf_entries(es),
        fits_entries(es),
        enc_elems(es).len() + 5 <= max_len(),
    ensures
        dec_doc(enc_doc(es), 0) == Result::<(Seq<(Seq<char>, SpecValue)>, int), ParserError>::Ok(
            (es, enc_doc(es).len() as int),
        ),
{
    let s = enc_doc(es);
    assert(s.subrange(0, s.len() as int) =~= s);
    lemma_roundtrip_doc(es, s, 0);
}

/// BYTE EXACTNESS: building a document by inserting two distinct keys in
/// either order yields identical wire bytes, since the container itself is
/// canonical.  With `lemma_insert_comm`, output order is always ascending
/// key order, never insertion order.
pub proof fn lemma_encode_insertion_order(
    es: Seq<(Seq<char>, SpecValue)>,
    k1: Seq<char>,
    v1: SpecValue,
    k2: Seq<char>,
    v2: SpecValue,
)
    requires
        entries_sorted(es),
        k1 != k2,
    ensures
        enc_doc(spec_insert(spec_insert(es, k1, v1), k2, v2)) == enc_doc(
            spec_insert(spec_insert(es, k2, v2), k1, v1),
        ),
{
    crate::value::lemma_insert_comm(es, k1, v1, k2, v2);
}

/// The encoding is injective on well-formed documents: equal wire bytes can
/// only come from equal documents.
pub proof fn lemma_enc_doc_injective(es1: Seq<(Seq<char>, SpecValue)>, es2: Seq<(Seq<char>, SpecValue)>)
    requires
        entries_sorted(es1),
        wf_entries(es1),
        fits_entries(es1),
        enc_elems(es1).len() + 5 <= max_len(),
        entries_sorted(es2),
        wf_entries(es2),
        fits_entries(es2),
        enc_elems(es2).len() + 5 <= max_len(),
        enc_doc(es1) == enc_doc(es2),
    ensures
        es1 == es2,
{
    lemma_round_trip(es1);
    lemma_round_trip(es2);
}

} // verus!
