//! The document value model: a tagged union of the wire format's value kinds,
//! and an ordered-by-key document container backed by a sorted vector of
//! key/value pairs.

use vstd::prelude::*;
use vstd::string::StrSliceExecFns;

verus! {

/// Mathematical model of a document value.
///
/// `Float` carries the IEEE-754 bit pattern of the double, so that the model
/// (and everything proved about it) speaks only of the exact eight bytes that
/// appear on the wire.  A `Object` document is modelled as its entry sequence
/// in ascending key order.
pub enum SpecValue {
    ObjectId(Seq<u8>),
    Float(u64),
    String(Seq<char>),
    Boolean(bool),
    Int32(i32),
    List(Seq<SpecValue>),
    Object(Seq<(Seq<char>, SpecValue)>),
    Null,
}

/// Strict lexicographic order on character sequences, comparing scalar values.
/// This is the ascending key order of a document.
pub open spec fn lex_lt(a: Seq<char>, b: Seq<char>) -> bool
    decreases a.len(),
{
    if b.len() == 0 {
        false
    } else if a.len() == 0 {
        true
    } else if (a[0] as u32) < (b[0] as u32) {
        true
    } else if (b[0] as u32) < (a[0] as u32) {
        false
    } else {
        lex_lt(a.drop_first(), b.drop_first())
    }
}

/// An element name must have no embedded NUL character: it is written as a
/// NUL-terminated string on the wire.
pub open spec fn key_ok(k: Seq<char>) -> bool {
    forall|i: int| 0 <= i < k.len() ==> k[i] != '\0'
}

/// Document entries are strictly ascending by key; in particular keys are unique.
pub open spec fn entries_sorted(es: Seq<(Seq<char>, SpecValue)>) -> bool {
    forall|i: int, j: int| 0 <= i < j < es.len() ==> #[trigger] lex_lt(es[i].0, es[j].0)
}

/// Every entry of the sequence has a writable name and a well-formed value.
pub open spec fn wf_entries(es: Seq<(Seq<char>, SpecValue)>) -> bool
    decreases es,
{
    if es.len() == 0 {
        true
    } else {
        key_ok(es[0].0) && wf_value(es[0].1) && wf_entries(es.drop_first())
    }
}

/// A value the codec can put on the wire: object references are exactly 12
/// bytes, documents are sorted with well-formed contents, and lists are not
/// representable (the wire format has no tag for them).
pub open spec fn wf_value(v: SpecValue) -> bool
    decreases v,
{
    match v {
        SpecValue::ObjectId(id) => id.len() == 12,
        SpecValue::Float(_) => true,
        SpecValue::String(_) => true,
        SpecValue::Boolean(_) => true,
        SpecValue::Int32(_) => true,
        SpecValue::List(_) => false,
        SpecValue::Object(es) => entries_sorted(es) && wf_entries(es),
        SpecValue::Null => true,
    }
}

/// A 12-byte object reference.
pub type Id = Vec<u8>;

/// An executable document value.  `Float` holds the IEEE-754 bit pattern of
/// the double (`f64::to_bits` / `f64::from_bits` at the boundary).
#[derive(Debug)]
pub enum Bson {
    ObjectId(Id),
    Float(u64),
    String(String),
    Boolean(bool),
    Int32(i32),
    List(List),
    Object(Object),
    Null,
}

/// An ordered sequence of values.
pub type List = Vec<Bson>;

/// A document: an ordered-by-key mapping from strings to values, kept as a
/// vector of pairs in strictly ascending key order.
#[derive(Debug)]
pub struct Object {
    pub entries: Vec<(String, Bson)>,
}

pub open spec fn view_list(s: Seq<Bson>) -> Seq<SpecValue>
    decreases s,
{
    if s.len() == 0 {
        Seq::empty()
    } else {
        seq![view_value(s[0])] + view_list(s.drop_first())
    }
}

pub open spec fn view_entries(s: Seq<(String, Bson)>) -> Seq<(Seq<char>, SpecValue)>
    decreases s,
{
    if s.len() == 0 {
        Seq::empty()
    } else {
        seq![(s[0].0@, view_value(s[0].1))] + view_entries(s.drop_first())
    }
}

pub open spec fn view_value(b: Bson) -> SpecValue
    decreases b,
{
    match b {
        Bson::ObjectId(id) => SpecValue::ObjectId(id@),
        Bson::Float(bits) => SpecValue::Float(bits),
        Bson::String(s) => SpecValue::String(s@),
        Bson::Boolean(x) => SpecValue::Boolean(x),
        Bson::Int32(x) => SpecValue::Int32(x),
        Bson::List(l) => SpecValue::List(view_list(l@)),
        Bson::Object(o) => SpecValue::Object(view_entries(o.entries@)),
        Bson::Null => SpecValue::Null,
    }
}

impl View for Bson {
    type V = SpecValue;

    open spec fn view(&self) -> SpecValue {
        view_value(*self)
    }
}

impl View for Object {
    type V = Seq<(Seq<char>, SpecValue)>;

    open spec fn view(&self) -> Seq<(Seq<char>, SpecValue)> {
        view_entries(self.entries@)
    }
}

pub proof fn lemma_lex_irrefl(a: Seq<char>)
    ensures
        !lex_lt(a, a),
    decreases a.len(),
{
    if a.len() > 0 {
        lemma_lex_irrefl(a.drop_first());
    }
}

/// Any two key sequences are related: below, equal, or above.
pub proof fn lemma_lex_connex(a: Seq<char>, b: Seq<char>)
    ensures
        lex_lt(a, b) || lex_lt(b, a) || a == b,
    decreases a.len(),
{
    if a.len() == 0 && b.len() == 0 {
        assert(a =~= b);
    } else if a.len() > 0 && b.len() > 0 {
        if !((a[0] as u32) < (b[0] as u32)) && !((b[0] as u32) < (a[0] as u32)) {
            assert(a[0] == b[0]) by {
                vstd::utf8::char_u32_cast(a[0], a[0] as u32);
                vstd::utf8::char_u32_cast(b[0], b[0] as u32);
            }
            lemma_lex_connex(a.drop_first(), b.drop_first());
            if a.drop_first() == b.drop_first() {
                assert(a =~= seq![a[0]] + a.drop_first());
                assert(b =~= seq![b[0]] + b.drop_first());
            }
        }
    }
}

pub proof fn lemma_lex_asym(a: Seq<char>, b: Seq<char>)
    ensures
        !(lex_lt(a, b) && lex_lt(b, a)),
    decreases a.len(),
{
    if a.len() > 0 && b.len() > 0 {
        lemma_lex_asym(a.drop_first(), b.drop_first());
    }
}

pub proof fn lemma_lex_trans(a: Seq<char>, b: Seq<char>, c: Seq<char>)
    requires
        lex_lt(a, b),
        lex_lt(b, c),
    ensures
        lex_lt(a, c),
    decreases a.len(),
{
    if a.len() > 0 && b.len() > 0 && c.len() > 0 {
        if !((a[0] as u32) < (c[0] as u32)) && !((c[0] as u32) < (a[0] as u32)) {
            lemma_lex_trans(a.drop_first(), b.drop_first(), c.drop_first());
        }
    }
}

/// Recursive worker for `str_lt`: compares the suffixes starting at
/// character position `i`.
fn str_lt_from(a: &str, b: &str, i: usize) -> (r: bool)
    requires
        i <= a@.len(),
        i <= b@.len(),
    ensures
        r == lex_lt(a@.skip(i as int), b@.skip(i as int)),
    decreases a@.len() - i,
{
    let an = a.unicode_len();
    let bn = b.unicode_len();
    if i >= bn {
        assert(b@.skip(i as int).len() == 0);
        false
    } else if i >= an {
        assert(a@.skip(i as int).len() == 0);
        assert(b@.skip(i as int).len() > 0);
        true
    } else {
        let ca = a.get_char(i);
        let cb = b.get_char(i);
        proof {
            assert(a@.skip(i as int)[0] == a@[i as int]);
            assert(b@.skip(i as int)[0] == b@[i as int]);
        }
        if (ca as u32) < (cb as u32) {
            true
        } else if (cb as u32) < (ca as u32) {
            false
        } else {
            let r = str_lt_from(a, b, i + 1);
            proof {
                assert(a@.skip(i as int).drop_first() =~= a@.skip(i + 1));
                assert(b@.skip(i as int).drop_first() =~= b@.skip(i + 1));
            }
            r
        }
    }
}

/// Decides the document key order on two strings.
pub fn str_lt(a: &str, b: &str) -> (r: bool)
    ensures
        r == lex_lt(a@, b@),
{
    let r = str_lt_from(a, b, 0);
    proof {
        assert(a@.skip(0) =~= a@);
        assert(b@.skip(0) =~= b@);
    }
    r
}

pub proof fn lemma_view_entries(s: Seq<(String, Bson)>)
    ensures
        view_entries(s).len() == s.len(),
        forall|i: int|
            0 <= i < s.len() ==> #[trigger] view_entries(s)[i] == (s[i].0@, view_value(s[i].1)),
    decreases s,
{
    if s.len() > 0 {
        lemma_view_entries(s.drop_first());
        assert forall|i: int| 0 <= i < s.len() implies #[trigger] view_entries(s)[i] == (
            s[i].0@,
            view_value(s[i].1),
        ) by {
            if i > 0 {
                assert(view_entries(s)[i] == view_entries(s.drop_first())[i - 1]);
                assert(s.drop_first()[i - 1] == s[i]);
            }
        }
    }
}

pub proof fn lemma_view_list(s: Seq<Bson>)
    ensures
        view_list(s).len() == s.len(),
        forall|i: int| 0 <= i < s.len() ==> #[trigger] view_list(s)[i] == view_value(s[i]),
    decreases s,
{
    if s.len() > 0 {
        lemma_view_list(s.drop_first());
        assert forall|i: int| 0 <= i < s.len() implies #[trigger] view_list(s)[i] == view_value(
            s[i],
        ) by {
            if i > 0 {
                assert(view_list(s)[i] == view_list(s.drop_first())[i - 1]);
                assert(s.drop_first()[i - 1] == s[i]);
            }
        }
    }
}

/// Insertion into a sorted entry sequence: keeps ascending key order and
/// overwrites the value when the key is already present.
pub open spec fn spec_insert(
    es: Seq<(Seq<char>, SpecValue)>,
    k: Seq<char>,
    v: SpecValue,
) -> Seq<(Seq<char>, SpecValue)>
    decreases es.len(),
{
    if es.len() == 0 {
        seq![(k, v)]
    } else if lex_lt(k, es[0].0) {
        seq![(k, v)] + es
    } else if k == es[0].0 {
        seq![(k, v)] + es.drop_first()
    } else {
        seq![es[0]] + spec_insert(es.drop_first(), k, v)
    }
}

/// Inserting after a run of strictly smaller keys leaves that run unchanged.
pub proof fn lemma_spec_insert_split(
    es: Seq<(Seq<char>, SpecValue)>,
    k: Seq<char>,
    v: SpecValue,
    i: int,
)
    requires
        0 <= i <= es.len(),
        forall|j: int| 0 <= j < i ==> lex_lt(#[trigger] es[j].0, k),
    ensures
        spec_insert(es, k, v) == es.take(i) + spec_insert(es.skip(i), k, v),
    decreases i,
{
    if i == 0 {
        assert(es.skip(0) =~= es);
        assert(es.take(0) + spec_insert(es.skip(0), k, v) =~= spec_insert(es, k, v));
    } else {
        assert(lex_lt(es[0].0, k));
        lemma_lex_asym(es[0].0, k);
        lemma_lex_irrefl(k);
        assert(k != es[0].0);
        let tail = es.drop_first();
        assert forall|j: int| 0 <= j < i - 1 implies lex_lt(#[trigger] tail[j].0, k) by {
            assert(tail[j] == es[j + 1]);
        }
        lemma_spec_insert_split(tail, k, v, i - 1);
        assert(es.take(i) =~= seq![es[0]] + tail.take(i - 1));
        assert(es.skip(i) =~= tail.skip(i - 1));
        assert((seq![es[0]] + tail.take(i - 1)) + spec_insert(tail.skip(i - 1), k, v) =~= seq![
            es[0],
        ] + (tail.take(i - 1) + spec_insert(tail.skip(i - 1), k, v)));
    }
}

/// A lower bound on every key also bounds the keys after an insertion of a
/// larger key.
pub proof fn lemma_spec_insert_bound(
    lo: Seq<char>,
    es: Seq<(Seq<char>, SpecValue)>,
    k: Seq<char>,
    v: SpecValue,
)
    requires
        forall|j: int| 0 <= j < es.len() ==> lex_lt(lo, #[trigger] es[j].0),
        lex_lt(lo, k),
    ensures
        forall|j: int|
            0 <= j < spec_insert(es, k, v).len() ==> lex_lt(lo, #[trigger] spec_insert(es, k, v)[j].0),
    decreases es.len(),
{
    let r = spec_insert(es, k, v);
    if es.len() == 0 {
    } else if lex_lt(k, es[0].0) {
        assert forall|j: int| 0 <= j < r.len() implies lex_lt(lo, #[trigger] r[j].0) by {
            if j > 0 {
                assert(r[j] == es[j - 1]);
            }
        }
    } else if k == es[0].0 {
        assert forall|j: int| 0 <= j < r.len() implies lex_lt(lo, #[trigger] r[j].0) by {
            if j > 0 {
                assert(r[j] == es.drop_first()[j - 1]);
                assert(es.drop_first()[j - 1] == es[j]);
            }
        }
    } else {
        let tail = es.drop_first();
        assert forall|j: int| 0 <= j < tail.len() implies lex_lt(lo, #[trigger] tail[j].0) by {
            assert(tail[j] == es[j + 1]);
        }
        lemma_spec_insert_bound(lo, tail, k, v);
        assert forall|j: int| 0 <= j < r.len() implies lex_lt(lo, #[trigger] r[j].0) by {
            if j > 0 {
                assert(r[j] == spec_insert(tail, k, v)[j - 1]);
            }
        }
    }
}

/// Insertion keeps the entries strictly sorted.
pub proof fn lemma_spec_insert_sorted(es: Seq<(Seq<char>, SpecValue)>, k: Seq<char>, v: SpecValue)
    requires
        entries_sorted(es),
    ensures
        entries_sorted(spec_insert(es, k, v)),
    decreases es.len(),
{
    let r = spec_insert(es, k, v);
    if es.len() == 0 {
    } else if lex_lt(k, es[0].0) {
        assert forall|i: int, j: int| 0 <= i < j < r.len() implies #[trigger] lex_lt(
            r[i].0,
            r[j].0,
        ) by {
            if i == 0 {
                assert(r[j] == es[j - 1]);
                if j > 1 {
                    lemma_lex_trans(k, es[0].0, es[j - 1].0);
                }
            } else {
                assert(r[i] == es[i - 1]);
                assert(r[j] == es[j - 1]);
            }
        }
    } else if k == es[0].0 {
        let tail = es.drop_first();
        assert forall|i: int, j: int| 0 <= i < j < r.len() implies #[trigger] lex_lt(
            r[i].0,
            r[j].0,
        ) by {
            if i == 0 {
                assert(r[j] == tail[j - 1]);
                assert(tail[j - 1] == es[j]);
                assert(lex_lt(es[0].0, es[j].0));
            } else {
                assert(r[i] == es[i]);
                assert(r[j] == es[j]);
            }
        }
    } else {
        let tail = es.drop_first();
        assert(forall|i: int, j: int|
            0 <= i < j < tail.len() ==> #[trigger] lex_lt(tail[i].0, tail[j].0)) by {
            assert forall|i: int, j: int| 0 <= i < j < tail.len() implies #[trigger] lex_lt(
                tail[i].0,
                tail[j].0,
            ) by {
                assert(tail[i] == es[i + 1]);
                assert(tail[j] == es[j + 1]);
            }
        }
        lemma_spec_insert_sorted(tail, k, v);
        lemma_lex_irrefl(k);
        lemma_lex_connex(k, es[0].0);
        assert(lex_lt(es[0].0, k));
        assert forall|j: int| 0 <= j < tail.len() implies lex_lt(es[0].0, #[trigger] tail[j].0) by {
            assert(tail[j] == es[j + 1]);
        }
        lemma_spec_insert_bound(es[0].0, tail, k, v);
        assert forall|i: int, j: int| 0 <= i < j < r.len() implies #[trigger] lex_lt(
            r[i].0,
            r[j].0,
        ) by {
            if i == 0 {
                assert(r[j] == spec_insert(tail, k, v)[j - 1]);
            } else {
                assert(r[i] == spec_insert(tail, k, v)[i - 1]);
                assert(r[j] == spec_insert(tail, k, v)[j - 1]);
            }
        }
    }
}

/// Inserting a key above every present key appends the pair.
pub proof fn lemma_spec_insert_append(es: Seq<(Seq<char>, SpecValue)>, k: Seq<char>, v: SpecValue)
    requires
        forall|j: int| 0 <= j < es.len() ==> lex_lt(#[trigger] es[j].0, k),
    ensures
        spec_insert(es, k, v) == es + seq![(k, v)],
{
    lemma_spec_insert_split(es, k, v, es.len() as int);
    assert(es.take(es.len() as int) =~= es);
    assert(es.skip(es.len() as int).len() == 0);
    assert(spec_insert(es.skip(es.len() as int), k, v) =~= seq![(k, v)]);
}

/// Insertion of a well-formed pair keeps the entries well formed.
pub proof fn lemma_spec_insert_wf(es: Seq<(Seq<char>, SpecValue)>, k: Seq<char>, v: SpecValue)
    requires
        wf_entries(es),
        key_ok(k),
        wf_value(v),
    ensures
        wf_entries(spec_insert(es, k, v)),
    decreases es.len(),
{
    let r = spec_insert(es, k, v);
    if es.len() == 0 {
        assert(r[0] == (k, v));
        assert(r.drop_first() =~= Seq::<(Seq<char>, SpecValue)>::empty());
        assert(wf_entries(r.drop_first()));
        assert(wf_entries(r));
    } else if lex_lt(k, es[0].0) {
        assert(r[0] == (k, v));
        assert(r.drop_first() =~= es);
        assert(wf_entries(r.drop_first()));
        assert(wf_entries(r));
    } else if k == es[0].0 {
        assert(r[0] == (k, v));
        assert(r.drop_first() =~= es.drop_first());
        assert(wf_entries(r.drop_first()));
        assert(wf_entries(r));
    } else {
        lemma_spec_insert_wf(es.drop_first(), k, v);
        assert(r.drop_first() =~= spec_insert(es.drop_first(), k, v));
        assert(r[0] == es[0]);
        assert(wf_entries(r.drop_first()));
        assert(wf_entries(r));
    }
}

/// Inserting a sequence of pairs into sorted entries, first pair first.
pub open spec fn insert_all(
    acc: Seq<(Seq<char>, SpecValue)>,
    es: Seq<(Seq<char>, SpecValue)>,
) -> Seq<(Seq<char>, SpecValue)>
    decreases es.len(),
{
    if es.len() == 0 {
        acc
    } else {
        insert_all(spec_insert(acc, es[0].0, es[0].1), es.drop_first())
    }
}

pub proof fn lemma_insert_all_snoc(
    acc: Seq<(Seq<char>, SpecValue)>,
    es: Seq<(Seq<char>, SpecValue)>,
    k: Seq<char>,
    v: SpecValue,
)
    ensures
        insert_all(acc, es + seq![(k, v)]) == spec_insert(insert_all(acc, es), k, v),
    decreases es.len(),
{
    let w = es + seq![(k, v)];
    if es.len() == 0 {
        assert(w[0] == (k, v));
        assert(w.drop_first() =~= Seq::<(Seq<char>, SpecValue)>::empty());
        assert(insert_all(acc, w) == insert_all(spec_insert(acc, k, v), w.drop_first()));
        assert(insert_all(spec_insert(acc, k, v), w.drop_first()) == spec_insert(acc, k, v));
        assert(insert_all(acc, es) == acc);
    } else {
        assert(w[0] == es[0]);
        assert(w.drop_first() =~= es.drop_first() + seq![(k, v)]);
        lemma_insert_all_snoc(spec_insert(acc, es[0].0, es[0].1), es.drop_first(), k, v);
    }
}

/// The value stored under a key, if any: the first entry with that key.
pub open spec fn spec_lookup(es: Seq<(Seq<char>, SpecValue)>, k: Seq<char>) -> Option<SpecValue>
    decreases es.len(),
{
    if es.len() == 0 {
        Option::None
    } else if es[0].0 == k {
        Option::Some(es[0].1)
    } else {
        spec_lookup(es.drop_first(), k)
    }
}

/// What insertion does to lookups: the inserted key maps to the new value,
/// every other key is untouched.
pub proof fn lemma_insert_lookup(
    es: Seq<(Seq<char>, SpecValue)>,
    k: Seq<char>,
    v: SpecValue,
    q: Seq<char>,
)
    ensures
        spec_lookup(spec_insert(es, k, v), q) == if q == k {
            Option::Some(v)
        } else {
            spec_lookup(es, q)
        },
    decreases es.len(),
{
    let r = spec_insert(es, k, v);
    if es.len() == 0 {
        assert(r[0] == (k, v));
        assert(r.drop_first() =~= Seq::<(Seq<char>, SpecValue)>::empty());
    } else if lex_lt(k, es[0].0) {
        assert(r[0] == (k, v));
        assert(r.drop_first() =~= es);
    } else if k == es[0].0 {
        assert(r[0] == (k, v));
        assert(r.drop_first() =~= es.drop_first());
    } else {
        assert(r[0] == es[0]);
        assert(r.drop_first() =~= spec_insert(es.drop_first(), k, v));
        lemma_insert_lookup(es.drop_first(), k, v, q);
    }
}

proof fn lemma_lookup_present(es: Seq<(Seq<char>, SpecValue)>, k: Seq<char>)
    requires
        spec_lookup(es, k) is Some,
    ensures
        exists|i: int| 0 <= i < es.len() && #[trigger] es[i].0 == k,
    decreases es.len(),
{
    if es.len() > 0 && es[0].0 != k {
        lemma_lookup_present(es.drop_first(), k);
        let i = choose|i: int| 0 <= i < es.drop_first().len() && #[trigger] es.drop_first()[i].0
            == k;
        assert(es[i + 1].0 == k);
    }
}

proof fn lemma_lookup_absent(es: Seq<(Seq<char>, SpecValue)>, k: Seq<char>)
    requires
        forall|i: int| 0 <= i < es.len() ==> #[trigger] es[i].0 != k,
    ensures
        spec_lookup(es, k) is None,
    decreases es.len(),
{
    if es.len() > 0 {
        assert forall|i: int| 0 <= i < es.drop_first().len() implies #[trigger] es.drop_first()[
            i].0 != k by {
            assert(es.drop_first()[i] == es[i + 1]);
        }
        lemma_lookup_absent(es.drop_first(), k);
    }
}

/// Two sorted entry sequences with the same lookups are the same sequence:
/// a document is determined by its key-to-value mapping.
pub proof fn lemma_sorted_lookup_ext(a: Seq<(Seq<char>, SpecValue)>, b: Seq<(Seq<char>, SpecValue)>)
    requires
        entries_sorted(a),
        entries_sorted(b),
        forall|k: Seq<char>| #[trigger] spec_lookup(a, k) == spec_lookup(b, k),
    ensures
        a == b,
    decreases a.len(),
{
    if a.len() == 0 {
        if b.len() > 0 {
            assert(spec_lookup(b, b[0].0) is Some);
            assert(spec_lookup(a, b[0].0) is None);
        }
        assert(a =~= b);
    } else if b.len() == 0 {
        assert(spec_lookup(a, a[0].0) is Some);
        assert(spec_lookup(b, a[0].0) is None);
    } else {
        assert(spec_lookup(a, a[0].0) == Option::Some(a[0].1));
        assert(spec_lookup(b, b[0].0) == Option::Some(b[0].1));
        assert(spec_lookup(b, a[0].0) is Some);
        lemma_lookup_present(b, a[0].0);
        let i = choose|i: int| 0 <= i < b.len() && #[trigger] b[i].0 == a[0].0;
        if i > 0 {
            assert(lex_lt(b[0].0, b[i].0));
            assert(spec_lookup(a, b[0].0) is Some);
            lemma_lookup_present(a, b[0].0);
            let j = choose|j: int| 0 <= j < a.len() && #[trigger] a[j].0 == b[0].0;
            if j > 0 {
                assert(lex_lt(a[0].0, a[j].0));
                lemma_lex_asym(a[0].0, b[0].0);
            } else {
                lemma_lex_irrefl(b[0].0);
            }
        }
        assert(b[0].0 == a[0].0);
        assert(b[0].1 == a[0].1);
        assert(a[0] == b[0]) by {
            assert(a[0] == (a[0].0, a[0].1));
            assert(b[0] == (b[0].0, b[0].1));
        }
        let ta = a.drop_first();
        let tb = b.drop_first();
        assert forall|q: Seq<char>| #[trigger] spec_lookup(ta, q) == spec_lookup(tb, q) by {
            if q == a[0].0 {
                assert forall|x: int| 0 <= x < ta.len() implies #[trigger] ta[x].0 != q by {
                    assert(ta[x] == a[x + 1]);
                    assert(lex_lt(a[0].0, a[x + 1].0));
                    lemma_lex_irrefl(q);
                }
                assert forall|x: int| 0 <= x < tb.len() implies #[trigger] tb[x].0 != q by {
                    assert(tb[x] == b[x + 1]);
                    assert(lex_lt(b[0].0, b[x + 1].0));
                    lemma_lex_irrefl(q);
                }
                lemma_lookup_absent(ta, q);
                lemma_lookup_absent(tb, q);
            } else {
                assert(spec_lookup(a, q) == spec_lookup(ta, q));
                assert(spec_lookup(b, q) == spec_lookup(tb, q));
            }
        }
        assert forall|x: int, y: int| 0 <= x < y < ta.len() implies #[trigger] lex_lt(
            ta[x].0,
            ta[y].0,
        ) by {
            assert(ta[x] == a[x + 1]);
            assert(ta[y] == a[y + 1]);
        }
        assert forall|x: int, y: int| 0 <= x < y < tb.len() implies #[trigger] lex_lt(
            tb[x].0,
            tb[y].0,
        ) by {
            assert(tb[x] == b[x + 1]);
            assert(tb[y] == b[y + 1]);
        }
        lemma_sorted_lookup_ext(ta, tb);
        assert(a.len() == b.len());
        assert forall|x: int| 0 <= x < a.len() implies a[x] == b[x] by {
            if x > 0 {
                assert(ta[x - 1] == a[x]);
                assert(tb[x - 1] == b[x]);
            }
        }
        assert(a =~= b);
    }
}

/// ORDER INDEPENDENCE: inserting two distinct keys in either order yields the
/// same document, so the encoded bytes never depend on insertion order.
pub proof fn lemma_insert_comm(
    es: Seq<(Seq<char>, SpecValue)>,
    k1: Seq<char>,
    v1: SpecValue,
    k2: Seq<char>,
    v2: SpecValue,
)
    requires
        entries_sorted(es),
        k1 != k2,
    ensures
        spec_insert(spec_insert(es, k1, v1), k2, v2) == spec_insert(spec_insert(es, k2, v2), k1, v1),
{
    let a = spec_insert(spec_insert(es, k1, v1), k2, v2);
    let b = spec_insert(spec_insert(es, k2, v2), k1, v1);
    lemma_spec_insert_sorted(es, k1, v1);
    lemma_spec_insert_sorted(spec_insert(es, k1, v1), k2, v2);
    lemma_spec_insert_sorted(es, k2, v2);
    lemma_spec_insert_sorted(spec_insert(es, k2, v2), k1, v1);
    assert forall|q: Seq<char>| #[trigger] spec_lookup(a, q) == spec_lookup(b, q) by {
        lemma_insert_lookup(spec_insert(es, k1, v1), k2, v2, q);
        lemma_insert_lookup(es, k1, v1, q);
        lemma_insert_lookup(spec_insert(es, k2, v2), k1, v1, q);
        lemma_insert_lookup(es, k2, v2, q);
    }
    lemma_sorted_lookup_ext(a, b);
}

/// Inserting the same key twice keeps only the second value: duplicate keys
/// overwrite.
pub proof fn lemma_insert_overwrite(
    es: Seq<(Seq<char>, SpecValue)>,
    k: Seq<char>,
    v1: SpecValue,
    v2: SpecValue,
)
    requires
        entries_sorted(es),
    ensures
        spec_insert(spec_insert(es, k, v1), k, v2) == spec_insert(es, k, v2),
{
    let a = spec_insert(spec_insert(es, k, v1), k, v2);
    let b = spec_insert(es, k, v2);
    lemma_spec_insert_sorted(es, k, v1);
    lemma_spec_insert_sorted(spec_insert(es, k, v1), k, v2);
    lemma_spec_insert_sorted(es, k, v2);
    assert forall|q: Seq<char>| #[trigger] spec_lookup(a, q) == spec_lookup(b, q) by {
        lemma_insert_lookup(spec_insert(es, k, v1), k, v2, q);
        lemma_insert_lookup(es, k, v1, q);
        lemma_insert_lookup(es, k, v2, q);
    }
    lemma_sorted_lookup_ext(a, b);
}

/// A structural copy of an entry vector: same keys and views, in order.
fn clone_entries(entries: &Vec<(String, Bson)>) -> (r: Vec<(String, Bson)>)
    ensures
        view_entries(r@) == view_entries(entries@),
    decreases entries, 1int,
{
    proof {
        lemma_view_entries(entries@);
    }
    let mut out: Vec<(String, Bson)> = Vec::new();
    let mut i: usize = 0;
    while i < entries.len()
        invariant
            i <= entries@.len(),
            out@.len() == i,
            forall|j: int|
                0 <= j < entries@.len() ==> #[trigger] view_entries(entries@)[j] == (
                    entries@[j].0@,
                    view_value(entries@[j].1),
                ),
            forall|j: int|
                0 <= j < i ==> #[trigger] view_entries(out@)[j] == view_entries(entries@)[j],
            view_entries(out@).len() == i,
        decreases entries@.len() - i,
    {
        let k = entries[i].0.clone();
        let v2 = clone_value(&entries[i].1);
        let ghost pre = out@;
        let ghost gk = k@;
        let ghost gv = v2@;
        proof {
            lemma_view_entries(pre);
        }
        out.push((k, v2));
        proof {
            lemma_view_entries(out@);
            assert forall|j: int| 0 <= j < i + 1 implies #[trigger] view_entries(out@)[j]
                == view_entries(entries@)[j] by {
                assert(view_entries(out@)[j] == (out@[j].0@, view_value(out@[j].1)));
                assert(view_entries(entries@)[j] == (entries@[j].0@, view_value(entries@[j].1)));
                if j < i {
                    assert(out@[j] == pre[j]);
                    assert(view_entries(pre)[j] == (pre[j].0@, view_value(pre[j].1)));
                    assert(view_entries(pre)[j] == view_entries(entries@)[j]);
                } else {
                    assert(out@[j].0@ == gk);
                    assert(view_value(out@[j].1) == gv);
                    assert(gk == entries@[j].0@);
                    assert(gv == view_value(entries@[j].1));
                }
            }
        }
        i = i + 1;
    }
    proof {
        lemma_view_entries(out@);
        assert(view_entries(out@) =~= view_entries(entries@));
    }
    out
}

/// A structural copy of a value: the copy has the same view.
pub fn clone_value(v: &Bson) -> (r: Bson)
    ensures
        r@ == v@,
    decreases v, 0int,
{
    match v {
        Bson::Float(bits) => Bson::Float(*bits),
        Bson::Boolean(b) => Bson::Boolean(*b),
        Bson::Int32(x) => Bson::Int32(*x),
        Bson::Null => Bson::Null,
        Bson::String(s) => Bson::String(s.clone()),
        Bson::ObjectId(id) => {
            let mut out: Vec<u8> = Vec::new();
            out.extend_from_slice(id.as_slice());
            proof {
                assert(out@ =~= id@);
            }
            Bson::ObjectId(out)
        },
        Bson::Object(o) => Bson::Object(o.duplicate()),
        Bson::List(l) => Bson::List(clone_list(l)),
    }
}

/// A structural copy of a list of values, element by element.
fn clone_list(l: &Vec<Bson>) -> (r: Vec<Bson>)
    ensures
        view_list(r@) == view_list(l@),
    decreases l, 1int,
{
    proof {
        lemma_view_list(l@);
    }
    let mut out: Vec<Bson> = Vec::new();
    let mut i: usize = 0;
    while i < l.len()
        invariant
            i <= l@.len(),
            out@.len() == i,
            forall|j: int|
                0 <= j < l@.len() ==> #[trigger] view_list(l@)[j] == view_value(l@[j]),
            forall|j: int| 0 <= j < i ==> #[trigger] view_list(out@)[j] == view_list(l@)[j],
            view_list(out@).len() == i,
        decreases l@.len() - i,
    {
        let e = clone_value(&l[i]);
        let ghost pre = out@;
        let ghost ge = e@;
        proof {
            lemma_view_list(pre);
        }
        out.push(e);
        proof {
            lemma_view_list(out@);
            assert forall|j: int| 0 <= j < i + 1 implies #[trigger] view_list(out@)[j]
                == view_list(l@)[j] by {
                assert(view_list(out@)[j] == view_value(out@[j]));
                assert(view_list(l@)[j] == view_value(l@[j]));
                if j < i {
                    assert(out@[j] == pre[j]);
                    assert(view_list(pre)[j] == view_value(pre[j]));
                    assert(view_list(pre)[j] == view_list(l@)[j]);
                } else {
                    assert(view_value(out@[j]) == ge);
                    assert(ge == view_value(l@[j]));
                }
            }
        }
        i = i + 1;
    }
    proof {
        lemma_view_list(out@);
        assert(view_list(out@) =~= view_list(l@));
    }
    out
}

/// A value and its view are of the same kind.
pub proof fn lemma_view_kind(v: Bson)
    ensures
        (view_value(v) is Float <==> v is Float),
        (view_value(v) is Boolean <==> v is Boolean),
        (view_value(v) is Int32 <==> v is Int32),
        (view_value(v) is Null <==> v is Null),
        (view_value(v) is String <==> v is String),
        (view_value(v) is ObjectId <==> v is ObjectId),
        (view_value(v) is List <==> v is List),
        (view_value(v) is Object <==> v is Object),
{
    match v {
        Bson::ObjectId(_) => {},
        Bson::Float(_) => {},
        Bson::String(_) => {},
        Bson::Boolean(_) => {},
        Bson::Int32(_) => {},
        Bson::List(_) => {},
        Bson::Object(_) => {},
        Bson::Null => {},
    }
}

/// Structural equality of two values, decided recursively: documents are
/// equal when they hold the same keys with recursively equal values, lists
/// when they are pairwise recursively equal.
pub fn bson_eq(a: &Bson, b: &Bson) -> (r: bool)
    ensures
        r == (a@ == b@),
    decreases a, 0int,
{
    match a {
        Bson::Float(x) => match b {
            Bson::Float(y) => *x == *y,
            _ => {
                proof {
                    lemma_view_kind(*a);
                    lemma_view_kind(*b);
                }
                false
            },
        },
        Bson::Boolean(x) => match b {
            Bson::Boolean(y) => *x == *y,
            _ => {
                proof {
                    lemma_view_kind(*a);
                    lemma_view_kind(*b);
                }
                false
            },
        },
        Bson::Int32(x) => match b {
            Bson::Int32(y) => *x == *y,
            _ => {
                proof {
                    lemma_view_kind(*a);
                    lemma_view_kind(*b);
                }
                false
            },
        },
        Bson::Null => match b {
            Bson::Null => true,
            _ => {
                proof {
                    lemma_view_kind(*a);
                    lemma_view_kind(*b);
                }
                false
            },
        },
        Bson::String(x) => match b {
            Bson::String(y) => *x == *y,
            _ => {
                proof {
                    lemma_view_kind(*a);
                    lemma_view_kind(*b);
                }
                false
            },
        },
        Bson::ObjectId(x) => match b {
            Bson::ObjectId(y) => byte_vec_eq(x, y),
            _ => {
                proof {
                    lemma_view_kind(*a);
                    lemma_view_kind(*b);
                }
                false
            },
        },
        Bson::List(x) => match b {
            Bson::List(y) => list_eq(x, y),
            _ => {
                proof {
                    lemma_view_kind(*a);
                    lemma_view_kind(*b);
                }
                false
            },
        },
        Bson::Object(x) => match b {
            Bson::Object(y) => object_eq(x, y),
            _ => {
                proof {
                    lemma_view_kind(*a);
                    lemma_view_kind(*b);
                }
                false
            },
        },
    }
}

/// Pairwise structural equality of two lists, stated over their views.
fn list_eq(x: &Vec<Bson>, y: &Vec<Bson>) -> (r: bool)
    ensures
        r == (view_list(x@) == view_list(y@)),
    decreases x, 1int,
{
    proof {
        lemma_view_list(x@);
        lemma_view_list(y@);
    }
    let n = x.len();
    if n != y.len() {
        return false;
    }
    let mut i: usize = 0;
    while i < n
        invariant
            n == x@.len(),
            n == y@.len(),
            i <= n,
            view_list(x@).len() == n,
            view_list(y@).len() == n,
            forall|j: int| 0 <= j < x@.len() ==> #[trigger] view_list(x@)[j] == view_value(x@[j]),
            forall|j: int| 0 <= j < y@.len() ==> #[trigger] view_list(y@)[j] == view_value(y@[j]),
            forall|j: int| 0 <= j < i ==> view_list(x@)[j] == #[trigger] view_list(y@)[j],
        decreases n - i,
    {
        if !bson_eq(&x[i], &y[i]) {
            proof {
                assert(view_list(x@)[i as int] != view_list(y@)[i as int]);
            }
            return false;
        }
        i = i + 1;
    }
    proof {
        assert(view_list(x@) =~= view_list(y@));
    }
    true
}

/// Structural equality of two documents: same keys in order, recursively
/// equal values.
fn object_eq(x: &Object, y: &Object) -> (r: bool)
    ensures
        r == (x@ == y@),
    decreases x, 1int,
{
    proof {
        lemma_view_entries(x.entries@);
        lemma_view_entries(y.entries@);
    }
    let n = x.entries.len();
    if n != y.entries.len() {
        return false;
    }
    let mut i: usize = 0;
    while i < n
        invariant
            n == x.entries@.len(),
            n == y.entries@.len(),
            i <= n,
            x@.len() == n,
            y@.len() == n,
            forall|j: int|
                0 <= j < x.entries@.len() ==> #[trigger] x@[j] == (
                    x.entries@[j].0@,
                    view_value(x.entries@[j].1),
                ),
            forall|j: int|
                0 <= j < y.entries@.len() ==> #[trigger] y@[j] == (
                    y.entries@[j].0@,
                    view_value(y.entries@[j].1),
                ),
            forall|j: int| 0 <= j < i ==> x@[j] == #[trigger] y@[j],
        decreases n - i,
    {
        let keys_eq = str_eq_exec(&x.entries[i].0, &y.entries[i].0);
        if !keys_eq {
            proof {
                assert(x@[i as int].0 != y@[i as int].0);
                assert(x@[i as int] != y@[i as int]);
            }
            return false;
        }
        if !bson_eq(&x.entries[i].1, &y.entries[i].1) {
            proof {
                assert(x@[i as int].1 != y@[i as int].1);
                assert(x@[i as int] != y@[i as int]);
            }
            return false;
        }
        i = i + 1;
    }
    proof {
        assert(x@ =~= y@);
    }
    true
}

/// String equality, stated over the views.
fn str_eq_exec(x: &String, y: &String) -> (r: bool)
    ensures
        r == (x@ == y@),
{
    *x == *y
}

/// Byte-vector equality, stated over the views.
fn byte_vec_eq(x: &Vec<u8>, y: &Vec<u8>) -> (r: bool)
    ensures
        r == (x@ == y@),
{
    let r = *x == *y;
    proof {
        if r {
            assert(x@ =~= y@);
        } else {
            if x@ == y@ {
                assert(x.len() == y.len());
                assert(forall|i: int| 0 <= i < x@.len() ==> x@[i] == y@[i]);
                assert(false);
            }
        }
    }
    r
}

impl PartialEq for Bson {
    /// Recursive structural equality.
    fn eq(&self, other: &Bson) -> (r: bool) {
        bson_eq(self, other)
    }
}

impl vstd::std_specs::cmp::PartialEqSpecImpl for Bson {
    open spec fn obeys_eq_spec() -> bool {
        true
    }

    open spec fn eq_spec(&self, other: &Bson) -> bool {
        self@ == other@
    }
}

impl Object {
    /// An empty document.
    pub fn new() -> (o: Object)
        ensures
            o@ == Seq::<(Seq<char>, SpecValue)>::empty(),
            entries_sorted(o@),
    {
        Object { entries: Vec::new() }
    }

    /// A structural copy of the document: the copy has the same view.
    pub fn duplicate(&self) -> (r: Object)
        ensures
            r@ == self@,
        decreases self, 2int,
    {
        Object { entries: clone_entries(&self.entries) }
    }

    /// The pair at position `i`, in ascending key order.
    pub fn pair_at(&self, i: usize) -> (p: &(String, Bson))
        requires
            i < self@.len(),
        ensures
            p.0@ == self@[i as int].0,
            p.1@ == self@[i as int].1,
    {
        proof {
            lemma_view_entries(self.entries@);
        }
        &self.entries[i]
    }

    /// The value stored under a key, if any.
    pub fn get(&self, key: &str) -> (r: Option<&Bson>)
        ensures
            r matches Some(v) ==> spec_lookup(self@, key@) == Option::Some(v@),
            r is None ==> spec_lookup(self@, key@) is None,
    {
        proof {
            lemma_view_entries(self.entries@);
            assert(self@.skip(0) =~= self@);
        }
        let n = self.entries.len();
        let mut i: usize = 0;
        while i < n
            invariant
                n == self.entries@.len(),
                n == self@.len(),
                i <= n,
                forall|j: int|
                    0 <= j < self@.len() ==> #[trigger] self@[j] == (
                        self.entries@[j].0@,
                        view_value(self.entries@[j].1),
                    ),
                spec_lookup(self@, key@) == spec_lookup(self@.skip(i as int), key@),
            decreases n - i,
        {
            let e = self.entries[i].0.as_str();
            let lt = str_lt(e, key);
            let gt = str_lt(key, e);
            proof {
                assert(self@.skip(i as int)[0] == self@[i as int]);
                assert(self@.skip(i as int).drop_first() =~= self@.skip(i + 1));
            }
            if !lt && !gt {
                proof {
                    lemma_lex_connex(self@[i as int].0, key@);
                    assert(self@[i as int].0 == key@);
                }
                return Some(&self.entries[i].1);
            }
            proof {
                lemma_lex_irrefl(key@);
                assert(self@[i as int].0 != key@);
            }
            i = i + 1;
        }
        proof {
            assert(self@.skip(n as int).len() == 0);
        }
        None
    }

    /// Number of entries.
    pub fn len(&self) -> (n: usize)
        ensures
            n == self@.len(),
    {
        proof {
            lemma_view_entries(self.entries@);
        }
        self.entries.len()
    }

    /// Inserts a key/value pair, keeping ascending key order; an existing
    /// entry with the same key is overwritten.
    pub fn insert(&mut self, key: String, value: Bson)
        requires
            entries_sorted(old(self)@),
        ensures
            final(self)@ == spec_insert(old(self)@, key@, value@),
            entries_sorted(final(self)@),
    {
        proof {
            lemma_view_entries(self.entries@);
        }
        let ghost v0 = self@;
        let ghost e0 = self.entries@;
        let mut i: usize = 0;
        while i < self.entries.len() && str_lt(self.entries[i].0.as_str(), key.as_str())
            invariant
                self.entries@ == e0,
                v0 == view_entries(e0),
                v0.len() == e0.len(),
                forall|j: int|
                    0 <= j < e0.len() ==> #[trigger] v0[j] == (e0[j].0@, view_value(e0[j].1)),
                i <= self.entries.len(),
                forall|j: int| 0 <= j < i ==> lex_lt(#[trigger] v0[j].0, key@),
            decreases self.entries.len() - i,
        {
            i = i + 1;
        }
        proof {
            lemma_spec_insert_split(v0, key@, value@, i as int);
        }
        if i < self.entries.len() && !str_lt(key.as_str(), self.entries[i].0.as_str()) {
            proof {
                lemma_lex_connex(key@, v0[i as int].0);
                assert(key@ == v0[i as int].0);
                assert(v0.skip(i as int)[0] == v0[i as int]);
                lemma_lex_irrefl(key@);
                assert(spec_insert(v0.skip(i as int), key@, value@) =~= seq![(key@, value@)]
                    + v0.skip(i as int).drop_first());
            }
            let _replaced = self.entries.remove(i);
            self.entries.insert(i, (key, value));
            proof {
                lemma_view_entries(self.entries@);
                assert forall|j: int| 0 <= j < self.entries@.len() implies view_entries(
                    self.entries@,
                )[j] == spec_insert(v0, key@, value@)[j] by {
                    if j < i {
                        assert(self.entries@[j] == e0[j]);
                        assert(spec_insert(v0, key@, value@)[j] == v0.take(i as int)[j]);
                    } else if j > i {
                        assert(self.entries@[j] == e0[j]);
                        assert(spec_insert(v0, key@, value@)[j] == v0.skip(i as int).drop_first()[
                            j - i - 1]);
                        assert(v0.skip(i as int).drop_first()[j - i - 1] == v0[j]);
                    }
                }
                assert(view_entries(self.entries@) =~= spec_insert(v0, key@, value@));
                lemma_spec_insert_sorted(v0, key@, value@);
            }
        } else {
            proof {
                if i < self.entries.len() {
                    lemma_lex_connex(key@, v0[i as int].0);
                    assert(v0.skip(i as int)[0] == v0[i as int]);
                    assert(lex_lt(key@, v0[i as int].0));
                    assert(spec_insert(v0.skip(i as int), key@, value@) =~= seq![(key@, value@)]
                        + v0.skip(i as int));
                } else {
                    assert(v0.skip(i as int).len() == 0);
                }
            }
            self.entries.insert(i, (key, value));
            proof {
                lemma_view_entries(self.entries@);
                assert forall|j: int| 0 <= j < self.entries@.len() implies view_entries(
                    self.entries@,
                )[j] == spec_insert(v0, key@, value@)[j] by {
                    if j < i {
                        assert(self.entries@[j] == e0[j]);
                        assert(spec_insert(v0, key@, value@)[j] == v0.take(i as int)[j]);
                    } else if j > i {
                        assert(self.entries@[j] == e0[j - 1]);
                        assert(spec_insert(v0, key@, value@)[j] == v0.skip(i as int)[j - i - 1]);
                        assert(v0.skip(i as int)[j - i - 1] == v0[j - 1]);
                    }
                }
                assert(view_entries(self.entries@) =~= spec_insert(v0, key@, value@));
                lemma_spec_insert_sorted(v0, key@, value@);
            }
        }
    }
}

} // verus!
