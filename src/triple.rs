//! Compact triples: a triple held as string ids and kind tags, ordered in two ways.
use vstd::prelude::*;

verus! {

/// What the object position of a compact triple holds.
#[derive(Clone, Copy, PartialEq, Eq, Debug, Structural)]
pub enum ObjectKind {
    BlankNode,
    IRI,
    Literal,
    LiteralLang,
}

/// Rank of an object kind in both index orders: blank nodes first, then IRIs,
/// then typed literals, then language-tagged literals.
pub open spec fn kind_rank(k: ObjectKind) -> int {
    match k {
        ObjectKind::BlankNode => 0,
        ObjectKind::IRI => 1,
        ObjectKind::Literal => 2,
        ObjectKind::LiteralLang => 3,
    }
}

pub fn kind_code(k: ObjectKind) -> (r: u8)
    ensures
        r as int == kind_rank(k),
{
    match k {
        ObjectKind::BlankNode => 0,
        ObjectKind::IRI => 1,
        ObjectKind::Literal => 2,
        ObjectKind::LiteralLang => 3,
    }
}

/// A triple as ids: an IRI subject, the predicate, an IRI object and a literal's
/// lexical form are ids into the primary string table; a literal's datatype or
/// language tag is an id into the secondary table; blank nodes are their own ids.
#[derive(Clone, Copy, PartialEq, Eq, Debug, Structural)]
pub struct CompactTriple {
    pub subject_is_iri: bool,
    pub subject: u32,
    pub predicate: u32,
    pub object_kind: ObjectKind,
    pub object: u32,
    pub datatype_or_lang: u32,
}

/// The two index orders.
#[derive(Clone, Copy, PartialEq, Eq, Debug, Structural)]
pub enum Order {
    /// subject, predicate, object
    SPO,
    /// object, predicate, subject
    OPS,
}

pub type Key = (int, int, int, int, int, int);

/// The fields of a triple, most significant first, for an index order.
pub open spec fn key(ord: Order, t: CompactTriple) -> Key {
    let si: int = if t.subject_is_iri { 1 } else { 0 };
    match ord {
        Order::SPO => (
            si,
            t.subject as int,
            t.predicate as int,
            kind_rank(t.object_kind),
            t.object as int,
            t.datatype_or_lang as int,
        ),
        Order::OPS => (
            kind_rank(t.object_kind),
            t.object as int,
            t.predicate as int,
            si,
            t.subject as int,
            t.datatype_or_lang as int,
        ),
    }
}

/// Lexicographic order on keys.
pub open spec fn key_lt(a: Key, b: Key) -> bool {
    a.0 < b.0 || (a.0 == b.0 && (a.1 < b.1 || (a.1 == b.1 && (a.2 < b.2 || (a.2 == b.2 && (
    a.3 < b.3 || (a.3 == b.3 && (a.4 < b.4 || (a.4 == b.4 && a.5 < b.5)))))))))
}

pub open spec fn lt(ord: Order, a: CompactTriple, b: CompactTriple) -> bool {
    key_lt(key(ord, a), key(ord, b))
}

/// The first `n` fields of the two keys agree.
pub open spec fn key_prefix_eq(n: int, a: Key, b: Key) -> bool {
    (n >= 1 ==> a.0 == b.0) && (n >= 2 ==> a.1 == b.1) && (n >= 3 ==> a.2 == b.2)
}

pub open spec fn prefix_eq(ord: Order, n: int, a: CompactTriple, b: CompactTriple) -> bool {
    key_prefix_eq(n, key(ord, a), key(ord, b))
}

/// Both orders are strict total orders on triples.
pub proof fn lemma_order(ord: Order, a: CompactTriple, b: CompactTriple, c: CompactTriple)
    ensures
        !lt(ord, a, a),
        lt(ord, a, b) ==> !lt(ord, b, a),
        lt(ord, a, b) && lt(ord, b, c) ==> lt(ord, a, c),
        a == b || lt(ord, a, b) || lt(ord, b, a),
{
    if key(ord, a) == key(ord, b) {
        assert(a == b);
    }
}

/// A run of equal prefixes is convex: what lies between two triples of one
/// prefix shares it.
pub proof fn lemma_prefix_convex(ord: Order, n: int, a: CompactTriple, b: CompactTriple, c: CompactTriple)
    requires
        1 <= n <= 3,
        !lt(ord, b, a),
        !lt(ord, c, b),
        prefix_eq(ord, n, a, c),
    ensures
        prefix_eq(ord, n, a, b),
{
}

fn key_of(ord: Order, t: &CompactTriple) -> (r: (u8, u32, u32, u8, u32, u32))
    ensures
        key(ord, *t) == (r.0 as int, r.1 as int, r.2 as int, r.3 as int, r.4 as int, r.5 as int),
{
    let si: u8 = if t.subject_is_iri { 1 } else { 0 };
    let k = kind_code(t.object_kind);
    match ord {
        Order::SPO => (si, t.subject, t.predicate, k, t.object, t.datatype_or_lang),
        Order::OPS => (k, t.object, t.predicate, si, t.subject, t.datatype_or_lang),
    }
}

/// Whether `a` comes before `b` in the index order.
pub fn less(ord: Order, a: &CompactTriple, b: &CompactTriple) -> (r: bool)
    ensures
        r == lt(ord, *a, *b),
{
    let x = key_of(ord, a);
    let y = key_of(ord, b);
    x.0 < y.0 || (x.0 == y.0 && (x.1 < y.1 || (x.1 == y.1 && (x.2 < y.2 || (x.2 == y.2 && (x.3
        < y.3 || (x.3 == y.3 && (x.4 < y.4 || (x.4 == y.4 && x.5 < y.5)))))))))
}

/// Whether the first `n` fields of `a` and `b` agree in the index order.
pub fn same_prefix(ord: Order, n: u8, a: &CompactTriple, b: &CompactTriple) -> (r: bool)
    ensures
        r == prefix_eq(ord, n as int, *a, *b),
{
    let x = key_of(ord, a);
    let y = key_of(ord, b);
    (n < 1 || x.0 == y.0) && (n < 2 || x.1 == y.1) && (n < 3 || x.2 == y.2)
}

/// The least triple whose subject is the blank node `subject`.
pub fn subject_blank_node(subject: u32) -> (r: CompactTriple)
    ensures
        r == (CompactTriple { subject_is_iri: false, subject, predicate: 0, object_kind: ObjectKind::BlankNode, object: 0, datatype_or_lang: 0 }),
{
    CompactTriple { subject_is_iri: false, subject, predicate: 0, object_kind: ObjectKind::BlankNode, object: 0, datatype_or_lang: 0 }
}

/// The least triple whose subject is the IRI of id `subject`.
pub fn subject_iri(subject: u32) -> (r: CompactTriple)
    ensures
        r == (CompactTriple { subject_is_iri: true, subject, predicate: 0, object_kind: ObjectKind::BlankNode, object: 0, datatype_or_lang: 0 }),
{
    CompactTriple { subject_is_iri: true, subject, predicate: 0, object_kind: ObjectKind::BlankNode, object: 0, datatype_or_lang: 0 }
}

/// The least triple, in OPS order, whose object is the blank node `object`.
pub fn object_blank_node(object: u32) -> (r: CompactTriple)
    ensures
        r == (CompactTriple { subject_is_iri: false, subject: 0, predicate: 0, object_kind: ObjectKind::BlankNode, object, datatype_or_lang: 0 }),
{
    CompactTriple { subject_is_iri: false, subject: 0, predicate: 0, object_kind: ObjectKind::BlankNode, object, datatype_or_lang: 0 }
}

/// The least triple, in OPS order, whose object is the IRI of id `object`.
pub fn object_iri(object: u32) -> (r: CompactTriple)
    ensures
        r == (CompactTriple { subject_is_iri: false, subject: 0, predicate: 0, object_kind: ObjectKind::IRI, object, datatype_or_lang: 0 }),
{
    CompactTriple { subject_is_iri: false, subject: 0, predicate: 0, object_kind: ObjectKind::IRI, object, datatype_or_lang: 0 }
}

/// The least triple, in OPS order, with the IRI object and the predicate given.
pub fn object_iri_predicate(object: u32, predicate: u32) -> (r: CompactTriple)
    ensures
        r == (CompactTriple { subject_is_iri: false, subject: 0, predicate, object_kind: ObjectKind::IRI, object, datatype_or_lang: 0 }),
{
    CompactTriple { subject_is_iri: false, subject: 0, predicate, object_kind: ObjectKind::IRI, object, datatype_or_lang: 0 }
}

} // verus!
