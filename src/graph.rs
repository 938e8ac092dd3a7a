//! Building a graph from triples, and the finalized graph with its indices.
use vstd::prelude::*;
use std::rc::Rc;
use crate::constants::RDF_LANG_STRING;
use crate::index::{lemma_sorted_no_duplicates, lemma_same_elements_same_len, lemma_same_elements_same_multiset, sorted, sorted_set, range, prefix_matches, least_of_prefix, lemma_filter_window, lemma_filter_congruent};
use crate::strings::{StringCollector, StringCollection, StringId, str_eq, lex_lt, lex_sorted, distinct};
use crate::terms::{BlankNode, Subject, Object, Literal, SubjectView, ObjectView, LiteralView, TripleView, subject_view, literal_view};
use crate::triple::{CompactTriple, ObjectKind, Order, prefix_eq, lemma_order, subject_blank_node, subject_iri, object_blank_node, object_iri, object_iri_predicate};

verus! {

/// `b` holds `a` as its first entries.
pub open spec fn extends(a: Seq<Seq<char>>, b: Seq<Seq<char>>) -> bool {
    a.len() <= b.len() && forall|i: int| 0 <= i < a.len() ==> b[i] == a[i]
}

pub open spec fn is_literal(k: ObjectKind) -> bool {
    k == ObjectKind::Literal || k == ObjectKind::LiteralLang
}

/// Every id of the triple points into its table; the datatype-or-language id
/// is 0 where the object is not a literal.
pub open spec fn ids_in_range(t: CompactTriple, ns: nat, nd: nat) -> bool {
    &&& (t.subject_is_iri ==> t.subject < ns)
    &&& t.predicate < ns
    &&& (t.object_kind != ObjectKind::BlankNode ==> t.object < ns)
    &&& (is_literal(t.object_kind) ==> t.datatype_or_lang < nd)
    &&& (!is_literal(t.object_kind) ==> t.datatype_or_lang == 0)
}

pub open spec fn blank_view(id: u32) -> BlankNode {
    (id as usize, 0usize)
}

pub open spec fn object_decode(k: ObjectKind, o: u32, d: u32, s: Seq<Seq<char>>, dl: Seq<Seq<char>>) -> ObjectView {
    match k {
        ObjectKind::BlankNode => ObjectView::Blank(blank_view(o)),
        ObjectKind::IRI => ObjectView::Iri(s[o as int]),
        ObjectKind::Literal => ObjectView::Literal(
            LiteralView { lexical: s[o as int], datatype: dl[d as int], language: None },
        ),
        ObjectKind::LiteralLang => ObjectView::Literal(
            LiteralView { lexical: s[o as int], datatype: RDF_LANG_STRING@, language: Some(dl[d as int]) },
        ),
    }
}

/// The triple that a compact triple stands for, given the two string tables.
pub open spec fn decode(t: CompactTriple, s: Seq<Seq<char>>, dl: Seq<Seq<char>>) -> TripleView {
    TripleView {
        subject: if t.subject_is_iri {
            SubjectView::Iri(s[t.subject as int])
        } else {
            SubjectView::Blank(blank_view(t.subject))
        },
        predicate: s[t.predicate as int],
        object: object_decode(t.object_kind, t.object, t.datatype_or_lang, s, dl),
    }
}

/// The largest blank-node id in the triple, or 0.
pub open spec fn max_blank(t: CompactTriple) -> nat {
    let s: nat = if t.subject_is_iri { 0 } else { t.subject as nat };
    let o: nat = if t.object_kind == ObjectKind::BlankNode { t.object as nat } else { 0 };
    if s > o { s } else { o }
}

proof fn lemma_decode_extends(t: CompactTriple, s1: Seq<Seq<char>>, d1: Seq<Seq<char>>, s2: Seq<Seq<char>>, d2: Seq<Seq<char>>)
    requires
        ids_in_range(t, s1.len(), d1.len()),
        extends(s1, s2),
        extends(d1, d2),
    ensures
        ids_in_range(t, s2.len(), d2.len()),
        decode(t, s2, d2) == decode(t, s1, d1),
{
}

pub open spec fn cache_ok(c: Option<(String, StringId)>, v: Seq<Seq<char>>) -> bool {
    match c {
        Some(p) => p.1.id < v.len() && v[p.1.id as int] == p.0@,
        None => true,
    }
}

/// Interns `string`, reusing the id of the previous string of the same role
/// where it is the same string.
fn check_prev(string: &str, prev: &mut Option<(String, StringId)>, string_collector: &mut StringCollector) -> (r: StringId)
    requires
        old(string_collector).wf(),
        old(string_collector)@.len() < u32::MAX,
        cache_ok(*old(prev), old(string_collector)@),
    ensures
        final(string_collector).wf(),
        final(string_collector)@ == if old(string_collector)@.contains(string@) {
            old(string_collector)@
        } else {
            old(string_collector)@.push(string@)
        },
        r.id < final(string_collector)@.len(),
        final(string_collector)@[r.id as int] == string@,
        cache_ok(*final(prev), final(string_collector)@),
        *final(prev) matches Some(p) && p.0@ == string@ && p.1 == r,
{
    let hit: Option<StringId> = match prev {
        Some(p) => if str_eq(p.0.as_str(), string) {
            Some(p.1)
        } else {
            None
        },
        None => None,
    };
    match hit {
        Some(id) => {
            assert(old(string_collector)@.contains(string@)) by {
                assert(old(string_collector)@[id.id as int] == string@);
            }
            id
        },
        None => {
            let id = string_collector.add_string(string);
            *prev = Some((string.to_owned(), id));
            id
        },
    }
}

/// The table ids of `t` renumbered: `translation` for the primary table,
/// `datatrans` for the secondary one. Blank nodes keep their ids.
pub open spec fn translated(t: CompactTriple, translation: Seq<u32>, datatrans: Seq<u32>) -> CompactTriple {
    CompactTriple {
        subject_is_iri: t.subject_is_iri,
        subject: if t.subject_is_iri { translation[t.subject as int] } else { t.subject },
        predicate: translation[t.predicate as int],
        object_kind: t.object_kind,
        object: if t.object_kind != ObjectKind::BlankNode { translation[t.object as int] } else { t.object },
        datatype_or_lang: if is_literal(t.object_kind) { datatrans[t.datatype_or_lang as int] } else { t.datatype_or_lang },
    }
}

/// Renumbers the string ids of a triple.
fn translate(t: &mut CompactTriple, translation: &Vec<u32>, datatrans: &Vec<u32>)
    requires
        ids_in_range(*old(t), translation@.len(), datatrans@.len()),
    ensures
        *final(t) == translated(*old(t), translation@, datatrans@),
{
    if t.subject_is_iri {
        t.subject = translation[t.subject as usize];
    }
    t.predicate = translation[t.predicate as usize];
    if t.object_kind != ObjectKind::BlankNode {
        t.object = translation[t.object as usize];
        if t.object_kind != ObjectKind::IRI {
            t.datatype_or_lang = datatrans[t.datatype_or_lang as usize];
        }
    }
}

/// Renumbering by maps that send each old id to the id of the same string
/// keeps what a triple stands for.
proof fn lemma_translate(t: CompactTriple, tr: Seq<u32>, dt: Seq<u32>, s1: Seq<Seq<char>>, d1: Seq<Seq<char>>, s2: Seq<Seq<char>>, d2: Seq<Seq<char>>)
    requires
        ids_in_range(t, s1.len(), d1.len()),
        tr.len() == s1.len(),
        dt.len() == d1.len(),
        forall|i: int| 0 <= i < s1.len() ==> (#[trigger] tr[i]) < s2.len() && s2[tr[i] as int] == s1[i],
        forall|i: int| 0 <= i < d1.len() ==> (#[trigger] dt[i]) < d2.len() && d2[dt[i] as int] == d1[i],
    ensures
        ids_in_range(translated(t, tr, dt), s2.len(), d2.len()),
        decode(translated(t, tr, dt), s2, d2) == decode(t, s1, d1),
        max_blank(translated(t, tr, dt)) == max_blank(t),
{
}

/// The object that names the same node as a subject.
pub open spec fn node_object(s: SubjectView) -> ObjectView {
    match s {
        SubjectView::Iri(i) => ObjectView::Iri(i),
        SubjectView::Blank(b) => ObjectView::Blank(b),
    }
}

/// Every blank node of the triple has an id below `n`.
pub open spec fn blank_ids_below(v: TripleView, n: nat) -> bool {
    &&& (v.subject matches SubjectView::Blank(b) ==> b.0 < n)
    &&& (v.object matches ObjectView::Blank(b) ==> b.0 < n)
}

/// Accepts triples with their strings, and makes a graph of them.
pub struct GraphWriter {
    string_collector: StringCollector,
    datatype_lang_collector: StringCollector,
    triples: Vec<CompactTriple>,
    prev_subject_iri: Option<(String, StringId)>,
    prev_predicate: Option<(String, StringId)>,
    prev_datatype: Option<(String, StringId)>,
    prev_lang: Option<(String, StringId)>,
    highest_blank_node: u32,
}

/// The blank node of a subject as the graph stores it.
pub open spec fn stored_subject(s: SubjectView) -> SubjectView {
    match s {
        SubjectView::Iri(iri) => SubjectView::Iri(iri),
        SubjectView::Blank(b) => SubjectView::Blank((b.0, 0usize)),
    }
}

/// The largest of `h` and the blank-node ids of the subject and the object.
pub open spec fn highest_after(h: u32, s: Subject, o: Object) -> int {
    let a: int = match s {
        Subject::BlankNode(b) => vstd::math::max(h as int, b.0 as int),
        Subject::IRI(_) => h as int,
    };
    match o {
        Object::BlankNode(b) => vstd::math::max(a, b.0 as int),
        _ => a,
    }
}

/// An object as the graph stores it: a language-tagged literal has the
/// datatype rdf:langString, whatever datatype it came with.
pub open spec fn stored_object(o: Object) -> ObjectView {
    match o {
        Object::IRI(iri) => ObjectView::Iri(iri@),
        Object::BlankNode(b) => ObjectView::Blank((b.0, 0usize)),
        Object::Literal(l) => match l.language {
            None => ObjectView::Literal(literal_view(l)),
            Some(lang) => ObjectView::Literal(
                LiteralView { lexical: l.lexical@, datatype: RDF_LANG_STRING@, language: Some(lang@) },
            ),
        },
    }
}

impl GraphWriter {
    pub closed spec fn wf(&self) -> bool {
        &&& self.string_collector.wf()
        &&& self.datatype_lang_collector.wf()
        &&& forall|i: int| 0 <= i < self.triples@.len() ==> ids_in_range(#[trigger] self.triples@[i], self.string_collector@.len(), self.datatype_lang_collector@.len())
        &&& forall|i: int| 0 <= i < self.triples@.len() ==> max_blank(#[trigger] self.triples@[i]) <= self.highest_blank_node
        &&& cache_ok(self.prev_subject_iri, self.string_collector@)
        &&& cache_ok(self.prev_predicate, self.string_collector@)
        &&& cache_ok(self.prev_datatype, self.datatype_lang_collector@)
        &&& cache_ok(self.prev_lang, self.datatype_lang_collector@)
    }

    /// The triples added so far, in order of addition.
    pub closed spec fn view(&self) -> Seq<TripleView> {
        self.triples@.map_values(|t: CompactTriple| decode(t, self.string_collector@, self.datatype_lang_collector@))
    }

    /// The number of strings interned in the primary table.
    pub closed spec fn string_count(&self) -> nat {
        self.string_collector@.len()
    }

    /// The number of datatypes and language tags interned.
    pub closed spec fn datatype_lang_count(&self) -> nat {
        self.datatype_lang_collector@.len()
    }

    /// The highest blank-node id that the writer has seen or made.
    pub closed spec fn highest(&self) -> u32 {
        self.highest_blank_node
    }

    /// There is room for one more triple: every id still fits in 32 bits.
    pub open spec fn has_room(&self) -> bool {
        self.string_count() + 3 < u32::MAX && self.datatype_lang_count() + 1 < u32::MAX
    }

    pub open spec fn grew(&self, old: &GraphWriter) -> bool {
        &&& self.wf()
        &&& self.string_count() <= old.string_count() + 3
        &&& self.datatype_lang_count() <= old.datatype_lang_count() + 1
    }

    /// An empty writer; `capacity` is a hint for the string tables.
    pub fn with_capacity(capacity: usize) -> (r: GraphWriter)
        ensures
            r.wf(),
            r@ == Seq::<TripleView>::empty(),
            r.string_count() == 0,
            r.datatype_lang_count() == 0,
            r.highest() == 0,
    {
        let r = GraphWriter {
            string_collector: StringCollector::with_capacity(capacity),
            datatype_lang_collector: StringCollector::with_capacity(capacity),
            triples: Vec::new(),
            prev_subject_iri: None,
            prev_predicate: None,
            prev_datatype: None,
            prev_lang: None,
            highest_blank_node: 0,
        };
        assert(r@ =~= Seq::<TripleView>::empty());
        r
    }

    pub fn highest_blank_node(&self) -> (r: u32)
        ensures
            r == self.highest(),
    {
        self.highest_blank_node
    }

    /// Whether one more triple fits.
    pub fn room(&self) -> (r: bool)
        requires
            self.wf(),
        ensures
            r == self.has_room(),
    {
        self.string_collector.len() < u32::MAX as usize - 3 && self.datatype_lang_collector.len() < u32::MAX as usize - 1
    }

    /// Every blank node of the triples added so far is at most `highest`.
    pub proof fn lemma_blank_ids(&self)
        requires
            self.wf(),
        ensures
            forall|i: int| 0 <= i < self@.len() ==> blank_ids_below(#[trigger] self@[i], self.highest() as nat + 1),
    {
        assert forall|i: int| 0 <= i < self@.len() implies blank_ids_below(#[trigger] self@[i], self.highest() as nat + 1) by {
            assert(max_blank(self.triples@[i]) <= self.highest_blank_node);
        }
    }

    proof fn lemma_view_extends(&self, old: &GraphWriter)
        requires
            old.wf(),
            self.triples@ == old.triples@,
            extends(old.string_collector@, self.string_collector@),
            extends(old.datatype_lang_collector@, self.datatype_lang_collector@),
        ensures
            self@ == old@,
            forall|i: int| 0 <= i < self.triples@.len() ==> ids_in_range(#[trigger] self.triples@[i], self.string_collector@.len(), self.datatype_lang_collector@.len()),
    {
        assert forall|i: int| 0 <= i < self.triples@.len() implies ids_in_range(#[trigger] self.triples@[i], self.string_collector@.len(), self.datatype_lang_collector@.len()) && decode(self.triples@[i], self.string_collector@, self.datatype_lang_collector@) == decode(old.triples@[i], old.string_collector@, old.datatype_lang_collector@) by {
            lemma_decode_extends(self.triples@[i], old.string_collector@, old.datatype_lang_collector@, self.string_collector@, self.datatype_lang_collector@);
        }
        assert(self@ =~= old@);
    }

    proof fn lemma_push(&self, old: &GraphWriter, t: CompactTriple)
        requires
            old.wf(),
            self.triples@ == old.triples@.push(t),
            extends(old.string_collector@, self.string_collector@),
            extends(old.datatype_lang_collector@, self.datatype_lang_collector@),
            ids_in_range(t, self.string_collector@.len(), self.datatype_lang_collector@.len()),
        ensures
            self@ == old@.push(decode(t, self.string_collector@, self.datatype_lang_collector@)),
            forall|i: int| 0 <= i < self.triples@.len() ==> ids_in_range(#[trigger] self.triples@[i], self.string_collector@.len(), self.datatype_lang_collector@.len()),
    {
        assert forall|i: int| 0 <= i < old.triples@.len() implies decode(self.triples@[i], self.string_collector@, self.datatype_lang_collector@) == decode(old.triples@[i], old.string_collector@, old.datatype_lang_collector@) && ids_in_range(self.triples@[i], self.string_collector@.len(), self.datatype_lang_collector@.len()) by {
            assert(self.triples@[i] == old.triples@[i]);
            lemma_decode_extends(old.triples@[i], old.string_collector@, old.datatype_lang_collector@, self.string_collector@, self.datatype_lang_collector@);
        }
        assert forall|i: int| 0 <= i < self.triples@.len() implies ids_in_range(#[trigger] self.triples@[i], self.string_collector@.len(), self.datatype_lang_collector@.len()) by {
            if i < old.triples@.len() {
                assert(self.triples@[i] == old.triples@[i]);
            }
        }
        assert(self@ =~= old@.push(decode(t, self.string_collector@, self.datatype_lang_collector@)));
    }

    fn add_s_iri(&mut self, s: &str, p: &str, ot: ObjectKind, o: u32, d: u32)
        requires
            old(self).wf(),
            old(self).string_count() + 2 < u32::MAX,
            ot != ObjectKind::BlankNode ==> o < old(self).string_count(),
            is_literal(ot) ==> d < old(self).datatype_lang_count(),
            !is_literal(ot) ==> d == 0,
            ot == ObjectKind::BlankNode ==> o <= old(self).highest(),
        ensures
            final(self).wf(),
            final(self).string_count() <= old(self).string_count() + 2,
            final(self).datatype_lang_count() == old(self).datatype_lang_count(),
            final(self).highest() == old(self).highest(),
            final(self)@ == old(self)@.push(TripleView {
                subject: SubjectView::Iri(s@),
                predicate: p@,
                object: object_decode(ot, o, d, old(self).string_collector@, old(self).datatype_lang_collector@),
            }),
    {
        let ghost old_self = *self;
        let sid = check_prev(s, &mut self.prev_subject_iri, &mut self.string_collector);
        let pid = check_prev(p, &mut self.prev_predicate, &mut self.string_collector);
        let t = CompactTriple { subject_is_iri: true, subject: sid.id, predicate: pid.id, object_kind: ot, object: o, datatype_or_lang: d };
        self.triples.push(t);
        proof {
            self.lemma_push(&old_self, t);
            assert(max_blank(t) <= self.highest_blank_node);
            assert forall|i: int| 0 <= i < self.triples@.len() implies max_blank(#[trigger] self.triples@[i]) <= self.highest_blank_node by {
                if i < old_self.triples@.len() {
                    assert(self.triples@[i] == old_self.triples@[i]);
                }
            }
        }
    }

    fn add_s_blank(&mut self, s: u32, p: &str, ot: ObjectKind, o: u32, d: u32)
        requires
            old(self).wf(),
            old(self).string_count() + 1 < u32::MAX,
            ot != ObjectKind::BlankNode ==> o < old(self).string_count(),
            is_literal(ot) ==> d < old(self).datatype_lang_count(),
            !is_literal(ot) ==> d == 0,
            ot == ObjectKind::BlankNode ==> o <= old(self).highest(),
        ensures
            final(self).wf(),
            final(self).string_count() <= old(self).string_count() + 1,
            final(self).datatype_lang_count() == old(self).datatype_lang_count(),
            final(self).highest() == if s > old(self).highest() { s } else { old(self).highest() },
            final(self)@ == old(self)@.push(TripleView {
                subject: SubjectView::Blank(blank_view(s)),
                predicate: p@,
                object: object_decode(ot, o, d, old(self).string_collector@, old(self).datatype_lang_collector@),
            }),
    {
        let ghost old_self = *self;
        if s > self.highest_blank_node {
            self.highest_blank_node = s;
        }
        let pid = check_prev(p, &mut self.prev_predicate, &mut self.string_collector);
        let t = CompactTriple { subject_is_iri: false, subject: s, predicate: pid.id, object_kind: ot, object: o, datatype_or_lang: d };
        self.triples.push(t);
        proof {
            self.lemma_push(&old_self, t);
            assert forall|i: int| 0 <= i < self.triples@.len() implies max_blank(#[trigger] self.triples@[i]) <= self.highest_blank_node by {
                if i < old_self.triples@.len() {
                    assert(self.triples@[i] == old_self.triples@[i]);
                }
            }
        }
    }

    pub fn add_iri_blank(&mut self, subject: &str, predicate: &str, object: u32)
        requires
            old(self).wf(),
            old(self).has_room(),
        ensures
            final(self).grew(old(self)),
            final(self).highest() == if object > old(self).highest() { object } else { old(self).highest() },
            final(self)@ == old(self)@.push(TripleView {
                subject: SubjectView::Iri(subject@),
                predicate: predicate@,
                object: ObjectView::Blank(blank_view(object)),
            }),
    {
        if object > self.highest_blank_node {
            self.highest_blank_node = object;
        }
        self.add_s_iri(subject, predicate, ObjectKind::BlankNode, object, 0);
    }

    pub fn add_iri_iri(&mut self, subject: &str, predicate: &str, object: &str)
        requires
            old(self).wf(),
            old(self).has_room(),
        ensures
            final(self).grew(old(self)),
            final(self).highest() == old(self).highest(),
            final(self)@ == old(self)@.push(TripleView {
                subject: SubjectView::Iri(subject@),
                predicate: predicate@,
                object: ObjectView::Iri(object@),
            }),
    {
        let o = self.string_collector.add_string(object);
        self.add_s_iri(subject, predicate, ObjectKind::IRI, o.id, 0);
    }

    pub fn add_iri_lit(&mut self, subject: &str, predicate: &str, object: &str, datatype: &str)
        requires
            old(self).wf(),
            old(self).has_room(),
        ensures
            final(self).grew(old(self)),
            final(self).highest() == old(self).highest(),
            final(self)@ == old(self)@.push(TripleView {
                subject: SubjectView::Iri(subject@),
                predicate: predicate@,
                object: ObjectView::Literal(LiteralView { lexical: object@, datatype: datatype@, language: None }),
            }),
    {
        let o = self.string_collector.add_string(object);
        let d = check_prev(datatype, &mut self.prev_datatype, &mut self.datatype_lang_collector);
        self.add_s_iri(subject, predicate, ObjectKind::Literal, o.id, d.id);
    }

    pub fn add_iri_lit_lang(&mut self, subject: &str, predicate: &str, object: &str, lang: &str)
        requires
            old(self).wf(),
            old(self).has_room(),
        ensures
            final(self).grew(old(self)),
            final(self).highest() == old(self).highest(),
            final(self)@ == old(self)@.push(TripleView {
                subject: SubjectView::Iri(subject@),
                predicate: predicate@,
                object: ObjectView::Literal(LiteralView { lexical: object@, datatype: RDF_LANG_STRING@, language: Some(lang@) }),
            }),
    {
        let o = self.string_collector.add_string(object);
        let l = check_prev(lang, &mut self.prev_lang, &mut self.datatype_lang_collector);
        self.add_s_iri(subject, predicate, ObjectKind::LiteralLang, o.id, l.id);
    }

    pub fn add_blank_blank(&mut self, subject: u32, predicate: &str, object: u32)
        requires
            old(self).wf(),
            old(self).has_room(),
        ensures
            final(self).grew(old(self)),
            final(self).highest() as int == vstd::math::max(vstd::math::max(old(self).highest() as int, subject as int), object as int),
            final(self)@ == old(self)@.push(TripleView {
                subject: SubjectView::Blank(blank_view(subject)),
                predicate: predicate@,
                object: ObjectView::Blank(blank_view(object)),
            }),
    {
        if object > self.highest_blank_node {
            self.highest_blank_node = object;
        }
        self.add_s_blank(subject, predicate, ObjectKind::BlankNode, object, 0);
    }

    pub fn add_blank_iri(&mut self, subject: u32, predicate: &str, object: &str)
        requires
            old(self).wf(),
            old(self).has_room(),
        ensures
            final(self).grew(old(self)),
            final(self).highest() as int == vstd::math::max(old(self).highest() as int, subject as int),
            final(self)@ == old(self)@.push(TripleView {
                subject: SubjectView::Blank(blank_view(subject)),
                predicate: predicate@,
                object: ObjectView::Iri(object@),
            }),
    {
        let o = self.string_collector.add_string(object);
        self.add_s_blank(subject, predicate, ObjectKind::IRI, o.id, 0);
    }

    pub fn add_blank_lit(&mut self, subject: u32, predicate: &str, object: &str, datatype: &str)
        requires
            old(self).wf(),
            old(self).has_room(),
        ensures
            final(self).grew(old(self)),
            final(self).highest() as int == vstd::math::max(old(self).highest() as int, subject as int),
            final(self)@ == old(self)@.push(TripleView {
                subject: SubjectView::Blank(blank_view(subject)),
                predicate: predicate@,
                object: ObjectView::Literal(LiteralView { lexical: object@, datatype: datatype@, language: None }),
            }),
    {
        let o = self.string_collector.add_string(object);
        let d = check_prev(datatype, &mut self.prev_datatype, &mut self.datatype_lang_collector);
        self.add_s_blank(subject, predicate, ObjectKind::Literal, o.id, d.id);
    }

    pub fn add_blank_lit_lang(&mut self, subject: u32, predicate: &str, object: &str, lang: &str)
        requires
            old(self).wf(),
            old(self).has_room(),
        ensures
            final(self).grew(old(self)),
            final(self).highest() as int == vstd::math::max(old(self).highest() as int, subject as int),
            final(self)@ == old(self)@.push(TripleView {
                subject: SubjectView::Blank(blank_view(subject)),
                predicate: predicate@,
                object: ObjectView::Literal(LiteralView { lexical: object@, datatype: RDF_LANG_STRING@, language: Some(lang@) }),
            }),
    {
        let o = self.string_collector.add_string(object);
        let l = check_prev(lang, &mut self.prev_lang, &mut self.datatype_lang_collector);
        self.add_s_blank(subject, predicate, ObjectKind::LiteralLang, o.id, l.id);
    }

    /// Adds the triple (subject, predicate, object). A blank node is stored by
    /// its id alone.
    pub fn add_(&mut self, subject: Subject, predicate: &str, object: Object)
        requires
            old(self).wf(),
            old(self).has_room(),
            subject matches Subject::BlankNode(b) ==> b.0 <= u32::MAX,
            object matches Object::BlankNode(b) ==> b.0 <= u32::MAX,
        ensures
            final(self).grew(old(self)),
            final(self).highest() as int == highest_after(old(self).highest(), subject, object),
            final(self)@ == old(self)@.push(TripleView {
                subject: stored_subject(subject_view(subject)),
                predicate: predicate@,
                object: stored_object(object),
            }),
    {
        match subject {
            Subject::IRI(subject) => match object {
                Object::IRI(object) => self.add_iri_iri(subject, predicate, object),
                Object::BlankNode(object) => self.add_iri_blank(subject, predicate, object.0 as u32),
                Object::Literal(object) => match object.language {
                    None => self.add_iri_lit(subject, predicate, object.lexical, object.datatype),
                    Some(lang) => self.add_iri_lit_lang(subject, predicate, object.lexical, lang),
                },
            },
            Subject::BlankNode(subject) => match object {
                Object::IRI(object) => self.add_blank_iri(subject.0 as u32, predicate, object),
                Object::BlankNode(object) => self.add_blank_blank(subject.0 as u32, predicate, object.0 as u32),
                Object::Literal(object) => match object.language {
                    None => self.add_blank_lit(subject.0 as u32, predicate, object.lexical, object.datatype),
                    Some(lang) => self.add_blank_lit_lang(subject.0 as u32, predicate, object.lexical, lang),
                },
            },
        }
    }

    /// Adds a triple of any subject and object kind.
    pub fn add(&mut self, subject: Subject, predicate: &str, object: Object)
        requires
            old(self).wf(),
            old(self).has_room(),
            subject matches Subject::BlankNode(b) ==> b.0 <= u32::MAX,
            object matches Object::BlankNode(b) ==> b.0 <= u32::MAX,
        ensures
            final(self).grew(old(self)),
            final(self).highest() as int == highest_after(old(self).highest(), subject, object),
            final(self)@ == old(self)@.push(TripleView {
                subject: stored_subject(subject_view(subject)),
                predicate: predicate@,
                object: stored_object(object),
            }),
    {
        self.add_(subject, predicate, object)
    }

    /// A fresh blank node: one above every id seen or made so far.
    pub fn create_blank_node(&mut self) -> (r: BlankNode)
        requires
            old(self).wf(),
            old(self).highest() < u32::MAX,
        ensures
            final(self).wf(),
            final(self)@ == old(self)@,
            final(self).string_count() == old(self).string_count(),
            final(self).datatype_lang_count() == old(self).datatype_lang_count(),
            final(self).highest() == old(self).highest() + 1,
            r == blank_view(final(self).highest()),
            forall|i: int| 0 <= i < old(self)@.len() ==> blank_ids_below(#[trigger] old(self)@[i], r.0 as nat),
    {
        proof {
            assert forall|i: int| 0 <= i < old(self)@.len() implies blank_ids_below(#[trigger] old(self)@[i], (self.highest_blank_node + 1) as nat) by {
                assert(max_blank(self.triples@[i]) <= self.highest_blank_node);
            }
        }
        self.highest_blank_node = self.highest_blank_node + 1;
        assert forall|i: int| 0 <= i < self.triples@.len() implies max_blank(#[trigger] self.triples@[i]) <= self.highest_blank_node by {
        }
        (self.highest_blank_node as usize, 0)
    }
}

/// The OPS index of an SPO index: the same triples, as often, in OPS order.
fn create_ops(spo: &Vec<CompactTriple>) -> (r: Vec<CompactTriple>)
    requires
        sorted(Order::SPO, spo@),
    ensures
        sorted(Order::OPS, r@),
        r@.len() == spo@.len(),
        r@.to_multiset() == spo@.to_multiset(),
        forall|x: CompactTriple| r@.contains(x) <==> spo@.contains(x),
{
    let r = sorted_set(Order::OPS, spo);
    proof {
        lemma_sorted_no_duplicates(Order::OPS, r@);
        lemma_sorted_no_duplicates(Order::SPO, spo@);
        lemma_same_elements_same_len(r@, spo@);
        lemma_same_elements_same_multiset(r@, spo@);
    }
    r
}

/// Shares a string table between graphs.
/// Relies on `Rc::clone`: the clone points to the same value.
#[verifier::external_body]
fn share(table: &Rc<StringCollection>) -> (r: Rc<StringCollection>)
    ensures
        *r == **table,
{
    Rc::clone(table)
}

impl GraphWriter {
    /// Finalizes the triples: renumbers string ids into lexicographic order,
    /// sorts the triples and removes duplicates, and builds the OPS index.
    pub fn collect(&mut self) -> (g: Graph)
        requires
            old(self).wf(),
        ensures
            *final(self) == *old(self),
            g.wf(),
            forall|x: TripleView| g@.contains(x) <==> old(self)@.contains(x),
            g.highest() == old(self).highest(),
    {
        let (translation, string_collection) = self.string_collector.collect();
        let (datatrans, datatype_lang_collection) = self.datatype_lang_collector.collect();
        let ghost s1 = self.string_collector@;
        let ghost d1 = self.datatype_lang_collector@;
        let ghost s2 = string_collection@;
        let ghost d2 = datatype_lang_collection@;
        let mut renumbered: Vec<CompactTriple> = Vec::with_capacity(self.triples.len());
        let mut i: usize = 0;
        while i < self.triples.len()
            invariant
                self.wf(),
                self == old(self),
                s1 == self.string_collector@,
                d1 == self.datatype_lang_collector@,
                s2 == string_collection@,
                d2 == datatype_lang_collection@,
                translation@.len() == s1.len(),
                datatrans@.len() == d1.len(),
                forall|k: int| 0 <= k < s1.len() ==> (#[trigger] translation@[k]) < s2.len() && s2[translation@[k] as int] == s1[k],
                forall|k: int| 0 <= k < d1.len() ==> (#[trigger] datatrans@[k]) < d2.len() && d2[datatrans@[k] as int] == d1[k],
                i <= self.triples@.len(),
                renumbered@.len() == i,
                forall|k: int| 0 <= k < i ==> #[trigger] renumbered@[k] == translated(self.triples@[k], translation@, datatrans@),
            decreases self.triples@.len() - i,
        {
            let mut t = self.triples[i];
            translate(&mut t, &translation, &datatrans);
            renumbered.push(t);
            i += 1;
        }
        let spo = sorted_set(Order::SPO, &renumbered);
        let ops = create_ops(&spo);
        let g = Graph {
            strings: Rc::new(string_collection),
            datatype_or_lang: Rc::new(datatype_lang_collection),
            spo,
            ops,
            highest_blank_node: self.highest_blank_node,
        };
        proof {
            assert forall|k: int| 0 <= k < renumbered@.len() implies ids_in_range(#[trigger] renumbered@[k], s2.len(), d2.len())
                && decode(renumbered@[k], s2, d2) == decode(self.triples@[k], s1, d1)
                && max_blank(renumbered@[k]) <= self.highest_blank_node by {
                lemma_translate(self.triples@[k], translation@, datatrans@, s1, d1, s2, d2);
            }
            assert forall|k: int| 0 <= k < g.spo@.len() implies ids_in_range(#[trigger] g.spo@[k], s2.len(), d2.len()) && max_blank(g.spo@[k]) <= g.highest_blank_node by {
                assert(renumbered@.contains(g.spo@[k]));
            }
            assert forall|x: TripleView| g@.contains(x) <==> self@.contains(x) by {
                if g@.contains(x) {
                    let k = choose|k: int| 0 <= k < g@.len() && g@[k] == x;
                    assert(renumbered@.contains(g.spo@[k]));
                    let j = choose|j: int| 0 <= j < renumbered@.len() && renumbered@[j] == g.spo@[k];
                    assert(self@[j] == x);
                }
                if self@.contains(x) {
                    let j = choose|j: int| 0 <= j < self@.len() && self@[j] == x;
                    assert(spo@.contains(renumbered@[j]));
                    let k = choose|k: int| 0 <= k < spo@.len() && spo@[k] == renumbered@[j];
                    assert(g@[k] == x);
                }
            }
        }
        g
    }
}

/// A finalized graph: the string tables, and the triples sorted and without
/// duplicates in two indices, SPO and OPS.
pub struct Graph {
    strings: Rc<StringCollection>,
    datatype_or_lang: Rc<StringCollection>,
    spo: Vec<CompactTriple>,
    ops: Vec<CompactTriple>,
    highest_blank_node: u32,
}

impl Graph {
    pub closed spec fn wf(&self) -> bool {
        &&& (*self.strings).wf()
        &&& (*self.datatype_or_lang).wf()
        &&& sorted(Order::SPO, self.spo@)
        &&& sorted(Order::OPS, self.ops@)
        &&& forall|x: CompactTriple| self.ops@.contains(x) <==> self.spo@.contains(x)
        &&& forall|k: int| 0 <= k < self.spo@.len() ==> ids_in_range(#[trigger] self.spo@[k], (*self.strings)@.len(), (*self.datatype_or_lang)@.len())
        &&& forall|k: int| 0 <= k < self.spo@.len() ==> max_blank(#[trigger] self.spo@[k]) <= self.highest_blank_node
    }

    /// The SPO index.
    pub closed spec fn spo(&self) -> Seq<CompactTriple> {
        self.spo@
    }

    /// The OPS index.
    pub closed spec fn ops(&self) -> Seq<CompactTriple> {
        self.ops@
    }

    /// The primary string table.
    pub closed spec fn strings(&self) -> Seq<Seq<char>> {
        (*self.strings)@
    }

    /// The table of datatypes and language tags.
    pub closed spec fn datatypes(&self) -> Seq<Seq<char>> {
        (*self.datatype_or_lang)@
    }

    pub closed spec fn highest(&self) -> u32 {
        self.highest_blank_node
    }

    /// What a compact triple of this graph stands for.
    pub open spec fn decode(&self, t: CompactTriple) -> TripleView {
        decode(t, self.strings(), self.datatypes())
    }

    /// The triples, in SPO order.
    pub open spec fn view(&self) -> Seq<TripleView> {
        self.spo().map_values(|t: CompactTriple| self.decode(t))
    }

    /// What the graph's invariant gives callers.
    pub proof fn lemma_wf(&self)
        requires
            self.wf(),
        ensures
            sorted(Order::SPO, self.spo()),
            sorted(Order::OPS, self.ops()),
            forall|x: CompactTriple| self.ops().contains(x) <==> self.spo().contains(x),
            lex_sorted(self.strings()),
            distinct(self.strings()),
            lex_sorted(self.datatypes()),
            distinct(self.datatypes()),
            forall|k: int| 0 <= k < self.spo().len() ==> ids_in_range(#[trigger] self.spo()[k], self.strings().len(), self.datatypes().len()),
            forall|k: int| 0 <= k < self.spo().len() ==> max_blank(#[trigger] self.spo()[k]) <= self.highest(),
    {
        (*self.strings).lemma_wf();
        (*self.datatype_or_lang).lemma_wf();
    }

    /// The number of triples.
    pub fn len(&self) -> (r: usize)
        ensures
            r == self.spo().len(),
    {
        self.spo.len()
    }

    pub fn highest_blank_node(&self) -> (r: u32)
        ensures
            r == self.highest(),
    {
        self.highest_blank_node
    }

    /// All triples, in SPO order.
    pub fn iter(&self) -> (r: TripleRangeIterator<'_>)
        requires
            self.wf(),
        ensures
            r.wf(),
            r.source() == *self,
            r.remaining() == self.spo(),
            sorted(Order::SPO, r.remaining()),
            r.remaining().len() == self.spo().len(),
    {
        let r = TripleRangeIterator { graph: self, ord: Order::SPO, pos: 0, end: self.spo.len() };
        assert(r.remaining() =~= self.spo());
        r
    }

    fn index(&self, ord: Order) -> (r: &Vec<CompactTriple>)
        ensures
            r@ == match ord {
                Order::SPO => self.spo@,
                Order::OPS => self.ops@,
            },
    {
        match ord {
            Order::SPO => &self.spo,
            Order::OPS => &self.ops,
        }
    }

    /// The triples of an index that share the first `n` fields with `start`.
    fn range_iter(&self, ord: Order, n: u8, start: &CompactTriple) -> (r: TripleRangeIterator<'_>)
        requires
            self.wf(),
            1 <= n <= 3,
            least_of_prefix(ord, n as int, *start),
        ensures
            r.wf(),
            r.source() == *self,
            r.order() == ord,
            r.remaining() == prefix_matches(ord, n as int, r.index(), *start),
    {
        let index = self.index(ord);
        let (lo, hi) = range(ord, n, index, start);
        TripleRangeIterator { graph: self, ord, pos: lo, end: hi }
    }

    fn empty_range_iter(&self, ord: Order) -> (r: TripleRangeIterator<'_>)
        requires
            self.wf(),
        ensures
            r.wf(),
            r.source() == *self,
            r.order() == ord,
            r.remaining() == Seq::<CompactTriple>::empty(),
    {
        let r = TripleRangeIterator { graph: self, ord, pos: 0, end: 0 };
        assert(r.remaining() =~= Seq::<CompactTriple>::empty());
        r
    }
}

impl Graph {
    /// Triples that share subject with `triple`, the least of its run.
    pub(crate) fn iter_subject_(&self, triple: CompactTriple) -> (r: TripleRangeIterator<'_>)
        requires
            self.wf(),
            least_of_prefix(Order::SPO, 2, triple),
        ensures
            r.wf(),
            r.source() == *self,
            r.remaining() == prefix_matches(Order::SPO, 2, self.spo(), triple),
    {
        self.range_iter(Order::SPO, 2, &triple)
    }

    /// Triples that share object with `triple`, the least of its run.
    pub(crate) fn iter_object(&self, triple: CompactTriple) -> (r: TripleRangeIterator<'_>)
        requires
            self.wf(),
            least_of_prefix(Order::OPS, 2, triple),
        ensures
            r.wf(),
            r.source() == *self,
            r.remaining() == prefix_matches(Order::OPS, 2, self.ops(), triple),
    {
        self.range_iter(Order::OPS, 2, &triple)
    }

    /// Triples that share object and predicate with `triple`, the least of its run.
    fn iter_object_predicate(&self, triple: CompactTriple) -> (r: TripleRangeIterator<'_>)
        requires
            self.wf(),
            least_of_prefix(Order::OPS, 3, triple),
        ensures
            r.wf(),
            r.source() == *self,
            r.remaining() == prefix_matches(Order::OPS, 3, self.ops(), triple),
    {
        self.range_iter(Order::OPS, 3, &triple)
    }

    proof fn lemma_none_match(&self, s: Seq<CompactTriple>, p: spec_fn(CompactTriple) -> bool)
        requires
            forall|k: int| 0 <= k < s.len() ==> !p(#[trigger] s[k]),
        ensures
            s.filter(p) == Seq::<CompactTriple>::empty(),
    {
        lemma_filter_window(s, p, 0, 0);
        assert(s.subrange(0, 0) =~= Seq::<CompactTriple>::empty());
    }

    /// All triples whose subject is the IRI `iri`, in predicate-then-object order.
    pub fn iter_subject_iri(&self, iri: &str) -> (r: TripleRangeIterator<'_>)
        requires
            self.wf(),
        ensures
            r.wf(),
            r.source() == *self,
            r.remaining() == self.spo().filter(|t: CompactTriple| self.decode(t).subject == SubjectView::Iri(iri@)),
    {
        let ghost p = |t: CompactTriple| self.decode(t).subject == SubjectView::Iri(iri@);
        proof {
            self.lemma_wf();
        }
        match self.strings.find(iri) {
            None => {
                proof {
                    assert forall|k: int| 0 <= k < self.spo().len() implies !p(#[trigger] self.spo()[k]) by {
                        let t = self.spo()[k];
                        if t.subject_is_iri {
                            assert(self.strings()[t.subject as int] != iri@);
                        }
                    }
                    self.lemma_none_match(self.spo(), p);
                }
                self.empty_range_iter(Order::SPO)
            },
            Some(id) => {
                let start = subject_iri(id.id);
                let r = self.iter_subject_(start);
                proof {
                    let q = |t: CompactTriple| prefix_eq(Order::SPO, 2, t, start);
                    assert forall|k: int| 0 <= k < self.spo().len() implies q(self.spo()[k]) == p(self.spo()[k]) by {
                        let t = self.spo()[k];
                        assert(ids_in_range(t, self.strings().len(), self.datatypes().len()));
                    }
                    lemma_filter_congruent(self.spo(), q, p);
                }
                r
            },
        }
    }

    /// All triples with the subject given, an IRI or a blank node.
    pub fn iter_subject(&self, subject: &Subject) -> (r: TripleRangeIterator<'_>)
        requires
            self.wf(),
        ensures
            r.wf(),
            r.source() == *self,
            r.remaining() == self.spo().filter(|t: CompactTriple| self.decode(t).subject == subject_view(*subject)),
    {
        match *subject {
            Subject::IRI(iri) => self.iter_subject_iri(iri),
            Subject::BlankNode(b) => {
                let ghost p = |t: CompactTriple| self.decode(t).subject == subject_view(*subject);
                if b.1 != 0 || b.0 > u32::MAX as usize {
                    proof {
                        assert forall|k: int| 0 <= k < self.spo().len() implies !p(#[trigger] self.spo()[k]) by {
                        }
                        self.lemma_none_match(self.spo(), p);
                    }
                    return self.empty_range_iter(Order::SPO);
                }
                let start = subject_blank_node(b.0 as u32);
                let r = self.iter_subject_(start);
                proof {
                    let q = |t: CompactTriple| prefix_eq(Order::SPO, 2, t, start);
                    assert forall|k: int| 0 <= k < self.spo().len() implies q(self.spo()[k]) == p(self.spo()[k]) by {
                    }
                    lemma_filter_congruent(self.spo(), q, p);
                }
                r
            },
        }
    }

    /// All triples whose object is the IRI `iri`, in OPS order.
    pub fn iter_object_iri(&self, iri: &str) -> (r: TripleRangeIterator<'_>)
        requires
            self.wf(),
        ensures
            r.wf(),
            r.source() == *self,
            r.remaining() == self.ops().filter(|t: CompactTriple| self.decode(t).object == ObjectView::Iri(iri@)),
    {
        let ghost p = |t: CompactTriple| self.decode(t).object == ObjectView::Iri(iri@);
        proof {
            self.lemma_wf();
        }
        match self.strings.find(iri) {
            None => {
                proof {
                    assert forall|k: int| 0 <= k < self.ops().len() implies !p(#[trigger] self.ops()[k]) by {
                        let t = self.ops()[k];
                        assert(self.spo().contains(t));
                        if t.object_kind == ObjectKind::IRI {
                            assert(self.strings()[t.object as int] != iri@);
                        }
                    }
                    self.lemma_none_match(self.ops(), p);
                }
                self.empty_range_iter(Order::OPS)
            },
            Some(id) => {
                let start = object_iri(id.id);
                let r = self.iter_object(start);
                proof {
                    let q = |t: CompactTriple| prefix_eq(Order::OPS, 2, t, start);
                    assert forall|k: int| 0 <= k < self.ops().len() implies q(self.ops()[k]) == p(self.ops()[k]) by {
                        let t = self.ops()[k];
                        assert(self.spo().contains(t));
                        assert(ids_in_range(t, self.strings().len(), self.datatypes().len()));
                    }
                    lemma_filter_congruent(self.ops(), q, p);
                }
                r
            },
        }
    }

    /// All triples `(*, predicate, object_iri)`, in OPS order.
    pub fn iter_object_iri_predicate(&self, object_iri: &str, predicate: &str) -> (r: TripleRangeIterator<'_>)
        requires
            self.wf(),
        ensures
            r.wf(),
            r.source() == *self,
            r.remaining() == self.ops().filter(|t: CompactTriple| self.decode(t).object == ObjectView::Iri(object_iri@) && self.decode(t).predicate == predicate@),
    {
        let ghost p = |t: CompactTriple| self.decode(t).object == ObjectView::Iri(object_iri@) && self.decode(t).predicate == predicate@;
        proof {
            self.lemma_wf();
        }
        match self.strings.find(object_iri) {
            None => {
                proof {
                    assert forall|k: int| 0 <= k < self.ops().len() implies !p(#[trigger] self.ops()[k]) by {
                        let t = self.ops()[k];
                        assert(self.spo().contains(t));
                        if t.object_kind == ObjectKind::IRI {
                            assert(self.strings()[t.object as int] != object_iri@);
                        }
                    }
                    self.lemma_none_match(self.ops(), p);
                }
                self.empty_range_iter(Order::OPS)
            },
            Some(object) => match self.strings.find(predicate) {
                None => {
                    proof {
                        assert forall|k: int| 0 <= k < self.ops().len() implies !p(#[trigger] self.ops()[k]) by {
                            let t = self.ops()[k];
                            assert(self.spo().contains(t));
                            assert(self.strings()[t.predicate as int] != predicate@);
                        }
                        self.lemma_none_match(self.ops(), p);
                    }
                    self.empty_range_iter(Order::OPS)
                },
                Some(pid) => {
                    let start = object_iri_predicate(object.id, pid.id);
                    let r = self.iter_object_predicate(start);
                    proof {
                        let q = |t: CompactTriple| prefix_eq(Order::OPS, 3, t, start);
                        assert forall|k: int| 0 <= k < self.ops().len() implies q(self.ops()[k]) == p(self.ops()[k]) by {
                            let t = self.ops()[k];
                            assert(self.spo().contains(t));
                            assert(ids_in_range(t, self.strings().len(), self.datatypes().len()));
                        }
                        lemma_filter_congruent(self.ops(), q, p);
                    }
                    r
                },
            },
        }
    }

    /// The id of an IRI or other string of the primary table.
    pub fn find_iri(&self, iri: &str) -> (r: Option<StringId>)
        requires
            self.wf(),
        ensures
            match r {
                Some(id) => id.id < self.strings().len() && self.strings()[id.id as int] == iri@,
                None => !self.strings().contains(iri@),
            },
    {
        self.strings.find(iri)
    }

    /// All triples with the subject given and the predicate of id `predicate`,
    /// in object order.
    pub fn iter_s_p(&self, subject: &Subject, predicate: StringId) -> (r: TripleRangeIterator<'_>)
        requires
            self.wf(),
        ensures
            r.wf(),
            r.source() == *self,
            r.remaining() == self.spo().filter(|t: CompactTriple| self.decode(t).subject == subject_view(*subject) && t.predicate == predicate.id),
    {
        let ghost p = |t: CompactTriple| self.decode(t).subject == subject_view(*subject) && t.predicate == predicate.id;
        proof {
            self.lemma_wf();
        }
        let start = match *subject {
            Subject::IRI(iri) => match self.strings.find(iri) {
                Some(id) => CompactTriple { subject_is_iri: true, subject: id.id, predicate: predicate.id, object_kind: ObjectKind::BlankNode, object: 0, datatype_or_lang: 0 },
                None => {
                    proof {
                        assert forall|k: int| 0 <= k < self.spo().len() implies !p(#[trigger] self.spo()[k]) by {
                            let t = self.spo()[k];
                            if t.subject_is_iri {
                                assert(self.strings()[t.subject as int] != iri@);
                            }
                        }
                        self.lemma_none_match(self.spo(), p);
                    }
                    return self.empty_range_iter(Order::SPO);
                },
            },
            Subject::BlankNode(b) => {
                if b.1 != 0 || b.0 > u32::MAX as usize {
                    proof {
                        assert forall|k: int| 0 <= k < self.spo().len() implies !p(#[trigger] self.spo()[k]) by {
                        }
                        self.lemma_none_match(self.spo(), p);
                    }
                    return self.empty_range_iter(Order::SPO);
                }
                CompactTriple { subject_is_iri: false, subject: b.0 as u32, predicate: predicate.id, object_kind: ObjectKind::BlankNode, object: 0, datatype_or_lang: 0 }
            },
        };
        let r = self.range_iter(Order::SPO, 3, &start);
        proof {
            let q = |t: CompactTriple| prefix_eq(Order::SPO, 3, t, start);
            assert forall|k: int| 0 <= k < self.spo().len() implies q(self.spo()[k]) == p(self.spo()[k]) by {
                let t = self.spo()[k];
                assert(ids_in_range(t, self.strings().len(), self.datatypes().len()));
            }
            lemma_filter_congruent(self.spo(), q, p);
        }
        r
    }

    /// All triples with the IRI or blank-node object given and the predicate
    /// of id `predicate`, in subject order.
    pub fn iter_o_p(&self, object: &Subject, predicate: StringId) -> (r: TripleRangeIterator<'_>)
        requires
            self.wf(),
        ensures
            r.wf(),
            r.source() == *self,
            r.remaining() == self.ops().filter(|t: CompactTriple| self.decode(t).object == node_object(subject_view(*object)) && t.predicate == predicate.id),
    {
        let ghost p = |t: CompactTriple| self.decode(t).object == node_object(subject_view(*object)) && t.predicate == predicate.id;
        proof {
            self.lemma_wf();
        }
        let start = match *object {
            Subject::IRI(iri) => match self.strings.find(iri) {
                Some(id) => CompactTriple { subject_is_iri: false, subject: 0, predicate: predicate.id, object_kind: ObjectKind::IRI, object: id.id, datatype_or_lang: 0 },
                None => {
                    proof {
                        assert forall|k: int| 0 <= k < self.ops().len() implies !p(#[trigger] self.ops()[k]) by {
                            let t = self.ops()[k];
                            assert(self.spo().contains(t));
                            if t.object_kind == ObjectKind::IRI {
                                assert(self.strings()[t.object as int] != iri@);
                            }
                        }
                        self.lemma_none_match(self.ops(), p);
                    }
                    return self.empty_range_iter(Order::OPS);
                },
            },
            Subject::BlankNode(b) => {
                if b.1 != 0 || b.0 > u32::MAX as usize {
                    proof {
                        assert forall|k: int| 0 <= k < self.ops().len() implies !p(#[trigger] self.ops()[k]) by {
                        }
                        self.lemma_none_match(self.ops(), p);
                    }
                    return self.empty_range_iter(Order::OPS);
                }
                CompactTriple { subject_is_iri: false, subject: 0, predicate: predicate.id, object_kind: ObjectKind::BlankNode, object: b.0 as u32, datatype_or_lang: 0 }
            },
        };
        let r = self.range_iter(Order::OPS, 3, &start);
        proof {
            let q = |t: CompactTriple| prefix_eq(Order::OPS, 3, t, start);
            assert forall|k: int| 0 <= k < self.ops().len() implies q(self.ops()[k]) == p(self.ops()[k]) by {
                let t = self.ops()[k];
                assert(self.spo().contains(t));
                assert(ids_in_range(t, self.strings().len(), self.datatypes().len()));
            }
            lemma_filter_congruent(self.ops(), q, p);
        }
        r
    }

    /// An iterator over no triples of the SPO index.
    pub fn empty_spo_range(&self) -> (r: TripleRangeIterator<'_>)
        requires
            self.wf(),
        ensures
            r.wf(),
            r.source() == *self,
            r.remaining() == Seq::<CompactTriple>::empty(),
    {
        self.empty_range_iter(Order::SPO)
    }

    /// An iterator over no triples of the OPS index.
    pub fn empty_ops_range(&self) -> (r: TripleRangeIterator<'_>)
        requires
            self.wf(),
        ensures
            r.wf(),
            r.source() == *self,
            r.remaining() == Seq::<CompactTriple>::empty(),
    {
        self.empty_range_iter(Order::OPS)
    }

    /// All triples whose subject is a blank node, in SPO order.
    pub fn iter_subject_blank_nodes(&self) -> (r: TripleRangeIterator<'_>)
        requires
            self.wf(),
        ensures
            r.wf(),
            r.source() == *self,
            r.remaining() == self.spo().filter(|t: CompactTriple| self.decode(t).subject is Blank),
    {
        let start = subject_blank_node(0);
        let r = self.range_iter(Order::SPO, 1, &start);
        proof {
            let p = |t: CompactTriple| self.decode(t).subject is Blank;
            let q = |t: CompactTriple| prefix_eq(Order::SPO, 1, t, start);
            assert forall|k: int| 0 <= k < self.spo().len() implies q(self.spo()[k]) == p(self.spo()[k]) by {
            }
            lemma_filter_congruent(self.spo(), q, p);
        }
        r
    }

    /// All triples whose object is a blank node, in OPS order.
    pub fn iter_object_blank_nodes(&self) -> (r: TripleRangeIterator<'_>)
        requires
            self.wf(),
        ensures
            r.wf(),
            r.source() == *self,
            r.remaining() == self.ops().filter(|t: CompactTriple| self.decode(t).object is Blank),
    {
        let start = object_blank_node(0);
        let r = self.range_iter(Order::OPS, 1, &start);
        proof {
            let p = |t: CompactTriple| self.decode(t).object is Blank;
            let q = |t: CompactTriple| prefix_eq(Order::OPS, 1, t, start);
            assert forall|k: int| 0 <= k < self.ops().len() implies q(self.ops()[k]) == p(self.ops()[k]) by {
            }
            lemma_filter_congruent(self.ops(), q, p);
        }
        r
    }
}

impl Graph {
    /// A graph over the string tables of `self` with the indices given.
    pub(crate) fn with_indices(&self, spo: Vec<CompactTriple>, ops: Vec<CompactTriple>) -> (g: Graph)
        requires
            self.wf(),
            sorted(Order::SPO, spo@),
            sorted(Order::OPS, ops@),
            forall|x: CompactTriple| ops@.contains(x) <==> spo@.contains(x),
            forall|k: int| 0 <= k < spo@.len() ==> ids_in_range(#[trigger] spo@[k], self.strings().len(), self.datatypes().len()),
            forall|k: int| 0 <= k < spo@.len() ==> max_blank(#[trigger] spo@[k]) <= self.highest(),
        ensures
            g.wf(),
            g.spo() == spo@,
            g.ops() == ops@,
            g.strings() == self.strings(),
            g.datatypes() == self.datatypes(),
            g.highest() == self.highest(),
    {
        Graph {
            strings: share(&self.strings),
            datatype_or_lang: share(&self.datatype_or_lang),
            spo,
            ops,
            highest_blank_node: self.highest_blank_node,
        }
    }

    /// A copy of the SPO index.
    pub(crate) fn spo_vec(&self) -> (r: Vec<CompactTriple>)
        ensures
            r@ == self.spo(),
    {
        let mut r: Vec<CompactTriple> = Vec::with_capacity(self.spo.len());
        let mut i: usize = 0;
        while i < self.spo.len()
            invariant
                i <= self.spo@.len(),
                r@ == self.spo@.subrange(0, i as int),
            decreases self.spo@.len() - i,
        {
            r.push(self.spo[i]);
            assert(r@ =~= self.spo@.subrange(0, i + 1));
            i += 1;
        }
        assert(r@ =~= self.spo@);
        r
    }
}

/// A triple of a graph, read through the graph's string tables.
pub struct GraphTriple<'g> {
    pub graph: &'g Graph,
    pub triple: CompactTriple,
}

impl<'g> GraphTriple<'g> {
    pub open spec fn wf(&self) -> bool {
        self.graph.wf() && ids_in_range(self.triple, self.graph.strings().len(), self.graph.datatypes().len())
    }

    pub open spec fn view(&self) -> TripleView {
        self.graph.decode(self.triple)
    }

    pub fn subject(&self) -> (r: Subject<'g>)
        requires
            self.wf(),
        ensures
            subject_view(r) == self@.subject,
    {
        if self.triple.subject_is_iri {
            Subject::IRI(self.graph.strings.get(StringId { id: self.triple.subject }))
        } else {
            Subject::BlankNode((self.triple.subject as usize, 0))
        }
    }

    pub fn predicate(&self) -> (r: &'g str)
        requires
            self.wf(),
        ensures
            r@ == self@.predicate,
    {
        self.graph.strings.get(StringId { id: self.triple.predicate })
    }

    pub fn object(&self) -> (r: Object<'g>)
        requires
            self.wf(),
        ensures
            crate::terms::object_view(r) == self@.object,
    {
        match self.triple.object_kind {
            ObjectKind::IRI => Object::IRI(self.graph.strings.get(StringId { id: self.triple.object })),
            ObjectKind::BlankNode => Object::BlankNode((self.triple.object as usize, 0)),
            ObjectKind::LiteralLang => Object::Literal(Literal {
                lexical: self.graph.strings.get(StringId { id: self.triple.object }),
                datatype: RDF_LANG_STRING,
                language: Some(self.graph.datatype_or_lang.get(StringId { id: self.triple.datatype_or_lang })),
            }),
            ObjectKind::Literal => Object::Literal(Literal {
                lexical: self.graph.strings.get(StringId { id: self.triple.object }),
                datatype: self.graph.datatype_or_lang.get(StringId { id: self.triple.datatype_or_lang }),
                language: None,
            }),
        }
    }
}

/// The triples of a contiguous run of one of a graph's indices, handed out in
/// index order.
pub struct TripleRangeIterator<'g> {
    graph: &'g Graph,
    ord: Order,
    pos: usize,
    end: usize,
}

impl<'g> TripleRangeIterator<'g> {
    /// The graph walked.
    pub closed spec fn source(&self) -> Graph {
        *self.graph
    }

    /// The order of the index walked.
    pub closed spec fn order(&self) -> Order {
        self.ord
    }

    /// The index walked.
    pub closed spec fn index(&self) -> Seq<CompactTriple> {
        match self.ord {
            Order::SPO => self.graph.spo(),
            Order::OPS => self.graph.ops(),
        }
    }

    pub closed spec fn wf(&self) -> bool {
        self.graph.wf() && self.pos <= self.end <= self.index().len()
    }

    /// The triples still to come.
    pub closed spec fn remaining(&self) -> Seq<CompactTriple> {
        self.index().subrange(self.pos as int, self.end as int)
    }

    /// The triples still to come, as values.
    pub open spec fn view(&self) -> Seq<TripleView> {
        self.remaining().map_values(|t: CompactTriple| self.source().decode(t))
    }

    /// The next triple, or `None` at the end of the run.
    pub fn next(&mut self) -> (r: Option<GraphTriple<'g>>)
        requires
            old(self).wf(),
        ensures
            final(self).wf(),
            final(self).source() == old(self).source(),
            final(self).order() == old(self).order(),
            match r {
                None => old(self).remaining().len() == 0 && final(self).remaining() == old(self).remaining(),
                Some(t) => {
                    &&& old(self).remaining().len() > 0
                    &&& *t.graph == old(self).source()
                    &&& t.triple == old(self).remaining()[0]
                    &&& t.wf()
                    &&& final(self).remaining() == old(self).remaining().drop_first()
                },
            },
    {
        if self.pos >= self.end {
            return None;
        }
        let t = self.graph.index(self.ord)[self.pos];
        proof {
            self.graph.lemma_wf();
            if self.ord == Order::OPS {
                assert(self.graph.ops().contains(t));
            }
            let k = choose|k: int| 0 <= k < self.graph.spo().len() && self.graph.spo()[k] == t;
            assert(ids_in_range(self.graph.spo()[k], self.graph.strings().len(), self.graph.datatypes().len()));
        }
        self.pos = self.pos + 1;
        assert(self.remaining() =~= old(self).remaining().drop_first());
        Some(GraphTriple { graph: self.graph, triple: t })
    }

    /// The number of triples still to come.
    pub fn len(&self) -> (r: usize)
        requires
            self.wf(),
        ensures
            r == self.remaining().len(),
    {
        self.end - self.pos
    }
}

/// Two triples of a graph that stand for the same triple are the same
/// compact triple.
proof fn lemma_decode_injective(g: &Graph, a: CompactTriple, b: CompactTriple)
    requires
        g.wf(),
        g.spo().contains(a),
        g.spo().contains(b),
        g.decode(a) == g.decode(b),
    ensures
        a == b,
{
    g.lemma_wf();
    let ka = choose|k: int| 0 <= k < g.spo().len() && g.spo()[k] == a;
    let kb = choose|k: int| 0 <= k < g.spo().len() && g.spo()[k] == b;
    assert(ids_in_range(g.spo()[ka], g.strings().len(), g.datatypes().len()));
    assert(ids_in_range(g.spo()[kb], g.strings().len(), g.datatypes().len()));
    let s = g.strings();
    let d = g.datatypes();
    if a.subject_is_iri && b.subject_is_iri {
        assert(s[a.subject as int] == s[b.subject as int]);
    }
    if a.object_kind == b.object_kind && a.object_kind != ObjectKind::BlankNode {
        assert(s[a.object as int] == s[b.object as int]);
    }
    if is_literal(a.object_kind) && a.object_kind == b.object_kind {
        assert(d[a.datatype_or_lang as int] == d[b.datatype_or_lang as int]);
    }
    assert(s[a.predicate as int] == s[b.predicate as int]);
}

/// A graph holds each triple once: no two positions of its SPO index stand
/// for the same triple.
pub proof fn lemma_triples_distinct(g: &Graph)
    requires
        g.wf(),
    ensures
        forall|i: int, j: int| 0 <= i < j < g@.len() ==> g@[i] != g@[j],
{
    g.lemma_wf();
    assert forall|i: int, j: int| 0 <= i < j < g@.len() implies g@[i] != g@[j] by {
        if g@[i] == g@[j] {
            assert(g.spo().contains(g.spo()[i]));
            assert(g.spo().contains(g.spo()[j]));
            lemma_decode_injective(g, g.spo()[i], g.spo()[j]);
            lemma_order(Order::SPO, g.spo()[i], g.spo()[j], g.spo()[j]);
        }
    }
}

/// Each triple that was added to a writer stands in the graph it made exactly
/// once, and the graph holds nothing else; duplicates collapse to one.
pub proof fn lemma_each_triple_once(w: &GraphWriter, g: &Graph)
    requires
        g.wf(),
        forall|x: TripleView| g@.contains(x) <==> w@.contains(x),
    ensures
        forall|x: TripleView| w@.contains(x) ==> exists|i: int| 0 <= i < g@.len() && g@[i] == x && forall|j: int| 0 <= j < g@.len() && j != i ==> g@[j] != x,
        forall|i: int| 0 <= i < g@.len() ==> w@.contains(#[trigger] g@[i]),
{
    lemma_triples_distinct(g);
    assert forall|x: TripleView| w@.contains(x) implies exists|i: int| 0 <= i < g@.len() && g@[i] == x && forall|j: int| 0 <= j < g@.len() && j != i ==> g@[j] != x by {
        assert(g@.contains(x));
        let i = choose|i: int| 0 <= i < g@.len() && g@[i] == x;
        assert forall|j: int| 0 <= j < g@.len() && j != i implies g@[j] != x by {
            if j < i {
                assert(g@[j] != g@[i]);
            } else {
                assert(g@[i] != g@[j]);
            }
        }
    }
    assert forall|i: int| 0 <= i < g@.len() implies w@.contains(#[trigger] g@[i]) by {
        assert(g@.contains(g@[i]));
    }
}

/// String ids follow string order: a smaller id is a smaller string.
pub proof fn lemma_string_ids_monotone(g: &Graph, a: int, b: int)
    requires
        g.wf(),
        0 <= a < g.strings().len(),
        0 <= b < g.strings().len(),
    ensures
        a < b <==> lex_lt(g.strings()[a], g.strings()[b]),
{
    g.lemma_wf();
    crate::strings::lemma_lex_order(g.strings()[a], g.strings()[b], g.strings()[a]);
}

/// A graph made from no triples is empty, and so is each of its indices.
pub proof fn lemma_empty_input(w: &GraphWriter, g: &Graph)
    requires
        g.wf(),
        w@.len() == 0,
        forall|x: TripleView| g@.contains(x) <==> w@.contains(x),
    ensures
        g.spo().len() == 0,
        g.ops().len() == 0,
{
    g.lemma_wf();
    if g.spo().len() > 0 {
        assert(g@.contains(g@[0]));
    }
    if g.ops().len() > 0 {
        assert(g.ops().contains(g.ops()[0]));
    }
}

} // verus!
