//! The one inference rule of the ontology tools: both sides of a
//! `rdfs:subClassOf` triple are classes.
use vstd::prelude::*;
use crate::constants::{RDF_TYPE, RDFS_CLASS, RDFS_SUB_CLASS_OF};
use crate::graph::{Graph, GraphWriter};
use crate::strings::str_eq;
use crate::terms::{Subject, Object, SubjectView, ObjectView, TripleView};

verus! {

/// `(s, rdf:type, rdfs:Class)`.
pub open spec fn class_triple(s: SubjectView) -> TripleView {
    TripleView { subject: s, predicate: RDF_TYPE@, object: ObjectView::Iri(RDFS_CLASS@) }
}

/// A triple followed by what the rule infers from it.
pub open spec fn with_inferred(t: TripleView) -> Seq<TripleView> {
    if t.predicate == RDFS_SUB_CLASS_OF@ {
        match t.object {
            ObjectView::Iri(i) => seq![t, class_triple(t.subject), class_triple(SubjectView::Iri(i))],
            ObjectView::Blank(b) => seq![t, class_triple(t.subject), class_triple(SubjectView::Blank(b))],
            ObjectView::Literal(_) => seq![t, class_triple(t.subject)],
        }
    } else {
        seq![t]
    }
}

/// The triples in order, each followed by what the rule infers from it.
pub open spec fn expand(ts: Seq<TripleView>) -> Seq<TripleView>
    decreases ts.len(),
{
    if ts.len() == 0 {
        Seq::empty()
    } else {
        expand(ts.drop_last()) + with_inferred(ts.last())
    }
}

/// `a` is the start of `b`.
pub open spec fn is_prefix(a: Seq<TripleView>, b: Seq<TripleView>) -> bool {
    a.len() <= b.len() && a == b.subrange(0, a.len() as int)
}

/// Expanding the first `k` triples gives the start of the expansion of all.
proof fn lemma_expand_prefix(ts: Seq<TripleView>, k: int)
    requires
        0 <= k <= ts.len(),
    ensures
        is_prefix(expand(ts.subrange(0, k)), expand(ts)),
    decreases ts.len(),
{
    if k == ts.len() {
        assert(ts.subrange(0, k) =~= ts);
        assert(expand(ts) =~= expand(ts).subrange(0, expand(ts).len() as int));
    } else {
        let d = ts.drop_last();
        assert(ts.subrange(0, k) =~= d.subrange(0, k));
        lemma_expand_prefix(d, k);
        let a = expand(ts.subrange(0, k));
        let e = expand(ts);
        assert(e == expand(d) + with_inferred(ts.last()));
        assert(expand(d) =~= e.subrange(0, expand(d).len() as int));
        assert(a =~= e.subrange(0, a.len() as int));
    }
}

/// What the writer holds when the loop stops early, the start of `upto`, is
/// the start of `goal`.
proof fn lemma_stopped_early(w: Seq<TripleView>, upto: Seq<TripleView>, goal: Seq<TripleView>)
    requires
        w.len() <= upto.len(),
        forall|i: int| 0 <= i < w.len() ==> w[i] == upto[i],
        is_prefix(upto, goal),
    ensures
        is_prefix(w, goal),
{
    assert(w =~= upto.subrange(0, w.len() as int));
    lemma_prefix_trans(w, upto, goal);
}

proof fn lemma_prefix_trans(a: Seq<TripleView>, b: Seq<TripleView>, c: Seq<TripleView>)
    requires
        is_prefix(a, b),
        is_prefix(b, c),
    ensures
        is_prefix(a, c),
{
    assert(a =~= c.subrange(0, a.len() as int));
}

/// Adds the triples of `g` to `writer`, each followed by what the rule infers
/// from it: for `(x, rdfs:subClassOf, y)`, `(x, rdf:type, rdfs:Class)`, and
/// `(y, rdf:type, rdfs:Class)` where `y` is an IRI or a blank node. Returns
/// `false`, having added only part, where the writer's string tables fill up.
pub fn add_class_types(g: &Graph, writer: &mut GraphWriter) -> (r: bool)
    requires
        g.wf(),
        old(writer).wf(),
    ensures
        final(writer).wf(),
        r ==> final(writer)@ == old(writer)@ + expand(g@),
        !r ==> !final(writer).has_room() && is_prefix(final(writer)@, old(writer)@ + expand(g@)),
{
    let mut it = g.iter();
    let ghost n = g.spo().len();
    let ghost mut k: int = 0;
    while it.len() > 0
        invariant
            g.wf(),
            writer.wf(),
            it.wf(),
            it.source() == *g,
            n == g.spo().len(),
            0 <= k <= n,
            it.remaining() == g.spo().subrange(k, n as int),
            writer@ == old(writer)@ + expand(g@.subrange(0, k)),
        decreases it.remaining().len(),
    {
        let ghost before = writer@;
        proof {
            lemma_expand_prefix(g@, k);
            lemma_expand_prefix(g@, k + 1);
            let sub = g@.subrange(0, k + 1);
            assert(sub.drop_last() =~= g@.subrange(0, k));
            assert(expand(sub) == expand(g@.subrange(0, k)) + with_inferred(g@[k]));
        }
        let ghost goal = old(writer)@ + expand(g@);
        let ghost upto = old(writer)@ + expand(g@.subrange(0, k + 1));
        proof {
            assert(is_prefix(upto, goal)) by {
                assert(upto =~= goal.subrange(0, upto.len() as int));
            }
        }
        let t = match it.next() {
            Some(t) => t,
            None => {
                assert(false);
                return false;
            },
        };
        let ghost v = g@[k];
        assert(t.triple == g.spo()[k]);
        assert(upto =~= before + with_inferred(v));
        let s = t.subject();
        let p = t.predicate();
        let o = t.object();
        let class_type = Object::IRI(RDFS_CLASS);
        if !writer.room() {
            proof {
                lemma_stopped_early(writer@, upto, goal);
            }
            return false;
        }
        writer.add_(s, p, o);
        assert(writer@ == before.push(v));
        if str_eq(p, RDFS_SUB_CLASS_OF) {
            if !writer.room() {
                proof {
                    lemma_stopped_early(writer@, upto, goal);
                }
                return false;
            }
            writer.add_(s, RDF_TYPE, class_type);
            match o {
                Object::IRI(i) => {
                    if !writer.room() {
                        proof {
                            lemma_stopped_early(writer@, upto, goal);
                        }
                        return false;
                    }
                    writer.add_(Subject::IRI(i), RDF_TYPE, class_type);
                },
                Object::BlankNode(b) => {
                    if !writer.room() {
                        proof {
                            lemma_stopped_early(writer@, upto, goal);
                        }
                        return false;
                    }
                    writer.add_(Subject::BlankNode(b), RDF_TYPE, class_type);
                },
                Object::Literal(_) => {},
            }
        }
        proof {
            let sub = g@.subrange(0, k + 1);
            assert(sub.drop_last() =~= g@.subrange(0, k));
            assert(sub.last() == v);
            assert(writer@ =~= before + with_inferred(v));
            k = k + 1;
            assert(it.remaining() =~= g.spo().subrange(k, n as int));
        }
    }
    proof {
        assert(k == n);
        assert(g@.subrange(0, k) =~= g@);
    }
    true
}

} // verus!
