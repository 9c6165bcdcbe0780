//! The generic builder/reader framework: capability traits for composing
//! wire-format buffers bottom-up (`Encoder`/`Encodable`) and for reading
//! structured values back (`Decoder`/`Decodable`), with contracts that pin
//! the produced bytes to the same wire format as the direct codec.

use vstd::prelude::*;
use vstd::utf8::encode_utf8;
use crate::format::{
    enc_doc, enc_elem, enc_elems, enc_value, fits, fits_entries, le32, lemma_enc_elems_snoc,
    lemma_fits_entries_index, lemma_wf_entries_index, max_len, tag_of,
};
use crate::value::{
    Bson, Object, SpecValue, entries_sorted, key_ok, lemma_view_entries, lemma_view_list,
    view_list, wf_entries, wf_value,
};

verus! {

/// The buffer a builder produces for one value before it is spliced into an
/// element: the type tag, then the payload — except that a string's payload
/// carries no length prefix yet (`build_map_item` adds it, because only
/// there is the element layout known).
pub open spec fn built_value(v: SpecValue) -> Seq<u8>
    decreases v, 0int,
{
    match v {
        SpecValue::String(s) => seq![2u8] + encode_utf8(s) + seq![0u8],
        SpecValue::List(vs) => built_list(vs),
        _ => seq![tag_of(v)] + enc_value(v),
    }
}

/// A sequence's buffer: the element buffers, concatenated.
pub open spec fn built_list(vs: Seq<SpecValue>) -> Seq<u8>
    decreases vs, 1int,
{
    if vs.len() == 0 {
        Seq::empty()
    } else {
        built_value(vs[0]) + built_list(vs.drop_first())
    }
}

/// The element reassembly `build_map_item` performs: the value buffer's
/// leading tag moves to the front, the key buffer loses its own string
/// framing (leading tag, kept terminator), and a string value gains its
/// length field.
pub open spec fn reassemble(kbuf: Seq<u8>, vbuf: Seq<u8>) -> Seq<u8>
    recommends
        kbuf.len() >= 1,
        vbuf.len() >= 1,
{
    seq![vbuf[0]] + kbuf.drop_first() + (if vbuf[0] == 2 {
        le32((vbuf.len() - 1) as u32)
    } else {
        Seq::empty()
    }) + vbuf.drop_first()
}

/// A built buffer starts with the value's tag and is never larger than a
/// tag plus a maximal payload.
pub proof fn lemma_built_value_len(v: SpecValue)
    requires
        wf_value(v),
        fits(v),
    ensures
        1 <= built_value(v).len() <= 0x8000_0000,
        built_value(v)[0] == tag_of(v),
    decreases v,
{
    match v {
        SpecValue::String(s) => {
            assert(built_value(v).len() == 2 + encode_utf8(s).len());
        },
        SpecValue::Object(es) => {
            assert(built_value(v).len() == 1 + enc_doc(es).len());
            assert(enc_doc(es).len() == enc_elems(es).len() + 5);
        },
        SpecValue::List(_) => {
            assert(false);
        },
        _ => {
        },
    }
}

/// FRAMEWORK AND CODEC AGREE ON ELEMENTS: splicing a built key buffer and a
/// built value buffer exactly reproduces the element bytes of the direct
/// codec.
pub proof fn lemma_reassemble_elem(k: Seq<char>, v: SpecValue)
    requires
        wf_value(v),
        fits(v),
    ensures
        reassemble(seq![2u8] + encode_utf8(k) + seq![0u8], built_value(v)) == enc_elem(k, v),
{
    let kbuf = seq![2u8] + encode_utf8(k) + seq![0u8];
    let vbuf = built_value(v);
    lemma_built_value_len(v);
    assert(kbuf.drop_first() =~= encode_utf8(k) + seq![0u8]);
    match v {
        SpecValue::String(s) => {
            assert(vbuf[0] == 2);
            assert(vbuf.drop_first() =~= encode_utf8(s) + seq![0u8]);
            assert(vbuf.len() - 1 == encode_utf8(s).len() + 1);
            assert(enc_value(v) == le32((encode_utf8(s).len() + 1) as u32) + encode_utf8(s)
                + seq![0u8]);
            assert(reassemble(kbuf, vbuf) =~= enc_elem(k, v));
        },
        SpecValue::List(_) => {
            assert(false);
        },
        _ => {
            assert(vbuf[0] == tag_of(v));
            assert(tag_of(v) != 2);
            assert(vbuf.drop_first() =~= enc_value(v));
            assert(reassemble(kbuf, vbuf) =~= enc_elem(k, v));
        },
    }
}

/// FRAMEWORK AND CODEC AGREE ON DOCUMENTS: what the framework builds for a
/// document, less its leading tag, is exactly the direct codec's framed
/// document bytes.
pub proof fn lemma_built_object(es: Seq<(Seq<char>, SpecValue)>)
    ensures
        built_value(SpecValue::Object(es)).drop_first() == enc_doc(es),
{
    assert(built_value(SpecValue::Object(es)).drop_first() =~= enc_doc(es));
}

pub proof fn lemma_built_list_snoc(vs: Seq<SpecValue>, i: int)
    requires
        0 <= i < vs.len(),
    ensures
        built_list(vs.take(i + 1)) == built_list(vs.take(i)) + built_value(vs[i]),
    decreases i,
{
    if i == 0 {
        assert(vs.take(1) =~= seq![vs[0]]);
        assert(vs.take(1)[0] == vs[0]);
        assert(vs.take(1).drop_first() =~= Seq::<SpecValue>::empty());
        assert(built_list(vs.take(0)) =~= Seq::<u8>::empty());
        assert(built_list(vs.take(1)) == built_value(vs.take(1)[0]) + built_list(
            vs.take(1).drop_first(),
        ));
        assert(built_value(vs[0]) + Seq::<u8>::empty() =~= built_value(vs[0]));
        assert(built_list(vs.take(0)) + built_value(vs[0]) =~= built_value(vs[0]));
    } else {
        let tail = vs.drop_first();
        lemma_built_list_snoc(tail, i - 1);
        assert(vs.take(i + 1)[0] == vs[0]);
        assert(vs.take(i + 1).drop_first() =~= tail.take(i));
        assert(vs.take(i)[0] == vs[0]);
        assert(vs.take(i).drop_first() =~= tail.take(i - 1));
        assert(tail[i - 1] == vs[i]);
        assert(built_list(vs.take(i + 1)) == built_value(vs[0]) + built_list(tail.take(i)));
        assert(built_list(vs.take(i)) == built_value(vs[0]) + built_list(tail.take(i - 1)));
        assert(built_value(vs[0]) + (built_list(tail.take(i - 1)) + built_value(vs[i])) =~= (
        built_value(vs[0]) + built_list(tail.take(i - 1))) + built_value(vs[i]));
    }
}

/// Builder capabilities: each operation returns a self-contained buffer for
/// the value it describes, and its contract pins those bytes exactly.
/// A builder that declares `builds_ok` additionally owes success for every
/// operation but the sequence ones.
pub trait Encoder<E>: Sized {
    /// True of builders whose supported operations always return a buffer:
    /// every scalar, custom, item and (size-respecting) map build succeeds.
    /// The sequence operations are exempt — this wire format has no sequence
    /// tag.  A builder that can fail for outside reasons keeps the default
    /// and owes nothing.
    open spec fn builds_ok() -> bool {
        false
    }

    /// A null value's buffer: its tag alone.
    fn build_nil(&mut self) -> (r: Result<Vec<u8>, E>)
        ensures
            r matches Ok(b) ==> b@ == built_value(SpecValue::Null),
            Self::builds_ok() ==> r is Ok,
    ;

    /// A boolean's buffer: tag and one byte.
    fn build_bool(&mut self, v: bool) -> (r: Result<Vec<u8>, E>)
        ensures
            r matches Ok(b) ==> b@ == built_value(SpecValue::Boolean(v)),
            Self::builds_ok() ==> r is Ok,
    ;

    /// A double's buffer, given its IEEE-754 bits: tag and eight bytes.
    fn build_f64(&mut self, bits: u64) -> (r: Result<Vec<u8>, E>)
        ensures
            r matches Ok(b) ==> b@ == built_value(SpecValue::Float(bits)),
            Self::builds_ok() ==> r is Ok,
    ;

    /// A string's buffer: tag, UTF-8 text, terminator — no length yet.
    fn build_str(&mut self, v: &str) -> (r: Result<Vec<u8>, E>)
        ensures
            r matches Ok(b) ==> b@ == built_value(SpecValue::String(v@)),
            Self::builds_ok() ==> r is Ok,
    ;

    /// A sequence's buffer from its concatenated element buffers.
    fn build_seq(&mut self, len: usize, body: Vec<u8>) -> (r: Result<Vec<u8>, E>)
        ensures
            r matches Ok(b) ==> b@ == body@,
    ;

    /// One sequence element's buffer.
    fn build_seq_elt(&mut self, idx: usize, elt: Vec<u8>) -> (r: Result<Vec<u8>, E>)
        ensures
            r matches Ok(b) ==> b@ == elt@,
    ;

    /// A document's buffer from its concatenated element buffers: tag,
    /// computed length prefix, body, terminator.
    fn build_map(&mut self, len: usize, body: Vec<u8>) -> (r: Result<Vec<u8>, E>)
        ensures
            r matches Ok(b) ==> body@.len() + 5 <= max_len() && b@ == seq![3u8] + le32(
                (body@.len() + 5) as u32,
            ) + body@ + seq![0u8],
            Self::builds_ok() && body@.len() + 5 <= max_len() ==> r is Ok,
    ;

    /// One document element's buffer, respliced from the key's and the
    /// value's own buffers.
    fn build_map_item(&mut self, idx: usize, key: Vec<u8>, val: Vec<u8>) -> (r: Result<Vec<u8>, E>)
        requires
            key@.len() >= 1,
            val@.len() >= 1,
            val@.len() <= 0x8000_0000,
        ensures
            r matches Ok(b) ==> b@ == reassemble(key@, val@),
            Self::builds_ok() ==> r is Ok,
    ;

    /// A caller-composed buffer, passed through unchanged.
    fn build_custom(&mut self, buf: Vec<u8>) -> (r: Result<Vec<u8>, E>)
        ensures
            r matches Ok(b) ==> b@ == buf@,
            Self::builds_ok() ==> r is Ok,
    ;
}

/// A value that knows how to build its own buffer through any `Encoder`.
pub trait Encodable<S: Encoder<E>, E>: Sized {
    /// The inputs on which encoding is defined.
    spec fn enc_wf(&self) -> bool;

    /// The document value this encodes as.
    spec fn enc_view(&self) -> SpecValue;

    /// Whether this value uses only the operations a `builds_ok` builder
    /// owes (everything but sequences).  Impls of the library pin this down;
    /// an implementation that keeps the default claims no success.
    open spec fn enc_supported(&self) -> bool {
        false
    }

    fn encode(&self, s: &mut S) -> (r: Result<Vec<u8>, E>)
        requires
            self.enc_wf(),
        ensures
            r matches Ok(b) ==> b@ == built_value(self.enc_view()),
            S::builds_ok() && self.enc_supported() ==> r is Ok,
    ;
}

impl<S: Encoder<E>, E> Encodable<S, E> for bool {
    open spec fn enc_wf(&self) -> bool {
        true
    }

    open spec fn enc_supported(&self) -> bool {
        true
    }

    open spec fn enc_view(&self) -> SpecValue {
        SpecValue::Boolean(*self)
    }

    fn encode(&self, s: &mut S) -> (r: Result<Vec<u8>, E>) {
        s.build_bool(*self)
    }
}

impl<S: Encoder<E>, E> Encodable<S, E> for String {
    open spec fn enc_wf(&self) -> bool {
        true
    }

    open spec fn enc_supported(&self) -> bool {
        true
    }

    open spec fn enc_view(&self) -> SpecValue {
        SpecValue::String(self@)
    }

    fn encode(&self, s: &mut S) -> (r: Result<Vec<u8>, E>) {
        s.build_str(self.as_str())
    }
}

impl<'a, S: Encoder<E>, E> Encodable<S, E> for &'a str {
    open spec fn enc_wf(&self) -> bool {
        true
    }

    open spec fn enc_supported(&self) -> bool {
        true
    }

    open spec fn enc_view(&self) -> SpecValue {
        SpecValue::String(self@)
    }

    fn encode(&self, s: &mut S) -> (r: Result<Vec<u8>, E>) {
        s.build_str(*self)
    }
}

impl<S: Encoder<E>, E> Encodable<S, E> for Bson {
    open spec fn enc_wf(&self) -> bool {
        wf_value(self@) && fits(self@)
    }

    open spec fn enc_supported(&self) -> bool {
        true
    }

    open spec fn enc_view(&self) -> SpecValue {
        self@
    }

    fn encode(&self, s: &mut S) -> (r: Result<Vec<u8>, E>)
        decreases self,
    {
        match self {
            Bson::Float(bits) => s.build_f64(*bits),
            Bson::String(st) => s.build_str(st.as_str()),
            Bson::Boolean(b) => s.build_bool(*b),
            Bson::Null => s.build_nil(),
            Bson::Int32(x) => {
                let mut buf: Vec<u8> = Vec::new();
                buf.push(0x10u8);
                crate::codec::push_le32(&mut buf, *x as u32);
                proof {
                    assert(buf@ =~= built_value(self@));
                }
                s.build_custom(buf)
            },
            Bson::ObjectId(id) => {
                let mut buf: Vec<u8> = Vec::new();
                buf.push(0x07u8);
                buf.extend_from_slice(id.as_slice());
                proof {
                    assert(buf@ =~= built_value(self@));
                }
                s.build_custom(buf)
            },
            Bson::Object(o) => build_object(o, s),
            Bson::List(_) => {
                proof {
                    assert(false);
                }
                s.build_seq(0, Vec::new())
            },
        }
    }
}

/// Builds a document's buffer through the encoder capabilities: one
/// `build_str`/`encode`/`build_map_item` round per entry, then `build_map`.
fn build_object<S: Encoder<E>, E>(o: &Object, s: &mut S) -> (r: Result<Vec<u8>, E>)
    requires
        wf_value(SpecValue::Object(o@)),
        fits(SpecValue::Object(o@)),
    ensures
        r matches Ok(b) ==> b@ == built_value(SpecValue::Object(o@)),
        S::builds_ok() ==> r is Ok,
    decreases o, 1int,
{
    proof {
        lemma_view_entries(o.entries@);
    }
    let mut body: Vec<u8> = Vec::new();
    let n = o.entries.len();
    let mut i: usize = 0;
    while i < n
        invariant
            n == o.entries.len(),
            n == o@.len(),
            i <= n,
            entries_sorted(o@),
            wf_entries(o@),
            fits_entries(o@),
            enc_elems(o@).len() + 5 <= max_len(),
            forall|j: int|
                0 <= j < o@.len() ==> #[trigger] o@[j] == (
                    o.entries@[j].0@,
                    crate::value::view_value(o.entries@[j].1),
                ),
            body@ == enc_elems(o@.take(i as int)),
        decreases n - i,
    {
        proof {
            lemma_wf_entries_index(o@, i as int);
            lemma_fits_entries_index(o@, i as int);
        }
        let kb = match s.build_str(o.entries[i].0.as_str()) {
            Result::Ok(b) => b,
            Result::Err(e) => {
                return Result::Err(e);
            },
        };
        let vb = match o.entries[i].1.encode(s) {
            Result::Ok(b) => b,
            Result::Err(e) => {
                return Result::Err(e);
            },
        };
        proof {
            lemma_built_value_len(o@[i as int].1);
        }
        let mut item = match s.build_map_item(i, kb, vb) {
            Result::Ok(b) => b,
            Result::Err(e) => {
                return Result::Err(e);
            },
        };
        proof {
            lemma_reassemble_elem(o@[i as int].0, o@[i as int].1);
            lemma_enc_elems_snoc(o@, i as int);
        }
        body.append(&mut item);
        i = i + 1;
    }
    proof {
        assert(o@.take(n as int) =~= o@);
    }
    let r = s.build_map(n, body);
    proof {
        if r is Ok {
            assert(r->Ok_0@ =~= built_value(SpecValue::Object(o@)));
        }
    }
    r
}

impl<S: Encoder<E>, E> Encodable<S, E> for Object {
    open spec fn enc_wf(&self) -> bool {
        wf_value(SpecValue::Object(self@)) && fits(SpecValue::Object(self@))
    }

    open spec fn enc_supported(&self) -> bool {
        true
    }

    open spec fn enc_view(&self) -> SpecValue {
        SpecValue::Object(self@)
    }

    fn encode(&self, s: &mut S) -> (r: Result<Vec<u8>, E>) {
        build_object(self, s)
    }
}

impl<S: Encoder<E>, E> Encodable<S, E> for Vec<Bson> {
    /// A sequence needs `build_seq`, which no builder owes: no success is
    /// claimed.
    open spec fn enc_supported(&self) -> bool {
        false
    }

    open spec fn enc_wf(&self) -> bool {
        forall|j: int|
            0 <= j < self@.len() ==> wf_value(#[trigger] view_list(self@)[j]) && fits(
                view_list(self@)[j],
            )
    }

    open spec fn enc_view(&self) -> SpecValue {
        SpecValue::List(view_list(self@))
    }

    fn encode(&self, s: &mut S) -> (r: Result<Vec<u8>, E>) {
        proof {
            lemma_view_list(self@);
        }
        let mut body: Vec<u8> = Vec::new();
        let n = self.len();
        let mut i: usize = 0;
        while i < n
            invariant
                n == self@.len(),
                i <= n,
                view_list(self@).len() == self@.len(),
                forall|j: int|
                    0 <= j < self@.len() ==> wf_value(#[trigger] view_list(self@)[j]) && fits(
                        view_list(self@)[j],
                    ),
                forall|j: int|
                    0 <= j < self@.len() ==> #[trigger] view_list(self@)[j]
                        == crate::value::view_value(self@[j]),
                body@ == built_list(view_list(self@).take(i as int)),
            decreases n - i,
        {
            proof {
                assert(view_list(self@)[i as int] == crate::value::view_value(self@[i as int]));
            }
            let eb = match self[i].encode(s) {
                Result::Ok(b) => b,
                Result::Err(e) => {
                    return Result::Err(e);
                },
            };
            let mut wrapped = match s.build_seq_elt(i, eb) {
                Result::Ok(b) => b,
                Result::Err(e) => {
                    return Result::Err(e);
                },
            };
            proof {
                lemma_built_list_snoc(view_list(self@), i as int);
            }
            body.append(&mut wrapped);
            i = i + 1;
        }
        proof {
            assert(view_list(self@).take(n as int) =~= view_list(self@));
        }
        s.build_seq(n, body)
    }
}

/// FRAMEWORK AND CODEC AGREE: for every well-formed value, the buffer the
/// builder framework composes, less its leading type tag, is byte-identical
/// to what the direct codec emits at top level.  With the contracts of
/// `Encoder::buffer_encode` and `encode`, the two encoding entry points
/// produce the same bytes.
pub proof fn lemma_framework_matches_codec(v: SpecValue)
    requires
        wf_value(v),
    ensures
        built_value(v).drop_first() == crate::format::enc_top(v),
{
    match v {
        SpecValue::String(s) => {
            assert(built_value(v).drop_first() =~= encode_utf8(s) + seq![0u8]);
        },
        SpecValue::Object(es) => {
            lemma_built_object(es);
        },
        SpecValue::List(_) => {
            assert(false);
        },
        _ => {
            assert(built_value(v).drop_first() =~= enc_value(v));
        },
    }
}

/// The reading frame a document leaves on a reader's stack: for each entry,
/// its value and then its key, with the first entry's key on top, so that
/// items are read key-first in entry order.
pub open spec fn map_frame(es: Seq<(Seq<char>, SpecValue)>) -> Seq<SpecValue>
    decreases es.len(),
{
    if es.len() == 0 {
        Seq::empty()
    } else {
        map_frame(es.drop_first()) + seq![es[0].1, SpecValue::String(es[0].0)]
    }
}

/// Reader capabilities: a stack of pending values, consumed from the top.
/// Each read pops the top value when it is of the requested kind.
/// A reader that declares `reads_ok` additionally owes success whenever its
/// own pending stack holds a value of the requested kind on top.
pub trait Decoder<E>: Sized {
    /// The values still to be read, the next one last.
    spec fn dec_stack(&self) -> Seq<SpecValue>;

    /// True of readers whose reads cannot fail for outside reasons: a read
    /// succeeds exactly when the pending stack offers a matching value.  A
    /// reader that can fail otherwise keeps the default and owes nothing.
    open spec fn reads_ok() -> bool {
        false
    }

    fn read_bool(&mut self) -> (r: Result<bool, E>)
        ensures
            r matches Ok(b) ==> old(self).dec_stack().len() > 0 && old(self).dec_stack().last()
                == SpecValue::Boolean(b) && final(self).dec_stack() == old(
                self,
            ).dec_stack().drop_last(),
            Self::reads_ok() && old(self).dec_stack().len() > 0 && old(
                self,
            ).dec_stack().last() is Boolean ==> r is Ok,
    ;

    /// Reads a double, as its IEEE-754 bits.
    fn read_f64(&mut self) -> (r: Result<u64, E>)
        ensures
            r matches Ok(bits) ==> old(self).dec_stack().len() > 0 && old(self).dec_stack().last()
                == SpecValue::Float(bits) && final(self).dec_stack() == old(
                self,
            ).dec_stack().drop_last(),
            Self::reads_ok() && old(self).dec_stack().len() > 0 && old(
                self,
            ).dec_stack().last() is Float ==> r is Ok,
    ;

    fn read_str(&mut self) -> (r: Result<String, E>)
        ensures
            r matches Ok(s) ==> old(self).dec_stack().len() > 0 && old(self).dec_stack().last()
                == SpecValue::String(s@) && final(self).dec_stack() == old(
                self,
            ).dec_stack().drop_last(),
            Self::reads_ok() && old(self).dec_stack().len() > 0 && old(
                self,
            ).dec_stack().last() is String ==> r is Ok,
    ;

    /// Opens a document: pops it, pushes its reading frame, and returns the
    /// number of entries.
    fn read_map(&mut self) -> (r: Result<usize, E>)
        ensures
            r matches Ok(n) ==> ({
                &&& old(self).dec_stack().len() > 0
                &&& (old(self).dec_stack().last() matches SpecValue::Object(es) && n == es.len()
                    && final(self).dec_stack() == old(self).dec_stack().drop_last() + map_frame(es))
            }),
            Self::reads_ok() && old(self).dec_stack().len() > 0 && old(
                self,
            ).dec_stack().last() is Object ==> r is Ok,
    ;

}

/// Reads one key/value item of an opened document: the key, then the value.
pub fn read_map_item<D: Decoder<E>, E, T1: Decodable<D, E>, T2: Decodable<D, E>>(
    d: &mut D,
    idx: usize,
) -> (r: Result<(T1, T2), E>)
    ensures
        r matches Ok(p) ==> old(d).dec_stack().len() >= 2 && T1::dec_match(
            old(d).dec_stack().last(),
            &p.0,
        ) && T2::dec_match(old(d).dec_stack().drop_last().last(), &p.1)
            && final(d).dec_stack() == old(d).dec_stack().drop_last().drop_last(),
        D::reads_ok() && old(d).dec_stack().len() >= 2 && T1::dec_accepts(
            old(d).dec_stack().last(),
        ) && T2::dec_accepts(old(d).dec_stack().drop_last().last()) ==> r is Ok,
{
    let k = match T1::decode(d) {
        Result::Ok(k) => k,
        Result::Err(e) => {
            return Result::Err(e);
        },
    };
    let v = match T2::decode(d) {
        Result::Ok(v) => v,
        Result::Err(e) => {
            return Result::Err(e);
        },
    };
    Result::Ok((k, v))
}

/// A value that can be read back through any `Decoder`.
pub trait Decodable<D: Decoder<E>, E>: Sized {
    /// When the decoded result stands for the given document value.  Impls
    /// of the library pin this down; an implementation that keeps the
    /// default claims nothing about what it decodes.
    open spec fn dec_match(v: SpecValue, t: &Self) -> bool {
        true
    }

    /// The pending values this type is owed to decode successfully, through
    /// a `reads_ok` reader.  Impls of the library pin this down; an
    /// implementation that keeps the default claims no success.
    open spec fn dec_accepts(v: SpecValue) -> bool {
        false
    }

    fn decode(d: &mut D) -> (r: Result<Self, E>)
        ensures
            r matches Ok(t) ==> old(d).dec_stack().len() > 0 && Self::dec_match(
                old(d).dec_stack().last(),
                &t,
            ) && final(d).dec_stack() == old(d).dec_stack().drop_last(),
            D::reads_ok() && old(d).dec_stack().len() > 0 && Self::dec_accepts(
                old(d).dec_stack().last(),
            ) ==> r is Ok,
    ;
}

impl<D: Decoder<E>, E> Decodable<D, E> for bool {
    open spec fn dec_match(v: SpecValue, t: &Self) -> bool {
        v == SpecValue::Boolean(*t)
    }

    open spec fn dec_accepts(v: SpecValue) -> bool {
        v is Boolean
    }

    fn decode(d: &mut D) -> (r: Result<Self, E>) {
        d.read_bool()
    }
}

impl<D: Decoder<E>, E> Decodable<D, E> for String {
    open spec fn dec_match(v: SpecValue, t: &Self) -> bool {
        v == SpecValue::String(t@)
    }

    open spec fn dec_accepts(v: SpecValue) -> bool {
        v is String
    }

    fn decode(d: &mut D) -> (r: Result<Self, E>) {
        d.read_str()
    }
}

} // verus!
