//! A view of a graph with predicate IRIs looked up once, for typed accessors
//! that read properties by slot.
use vstd::prelude::*;
use crate::graph::{Graph, TripleRangeIterator, node_object};
use crate::strings::StringId;
use crate::terms::{Subject, subject_view};
use crate::triple::CompactTriple;

verus! {

pub struct OntologyAdapter<'g> {
    graph: &'g Graph,
    iris: Vec<Option<StringId>>,
}

impl<'g> OntologyAdapter<'g> {
    pub closed spec fn graph(&self) -> Graph {
        *self.graph
    }

    /// The predicate handles, by slot.
    pub closed spec fn iris(&self) -> Seq<Option<StringId>> {
        self.iris@
    }

    pub fn new(graph: &'g Graph, iris: Vec<Option<StringId>>) -> (r: OntologyAdapter<'g>)
        ensures
            r.graph() == *graph,
            r.iris() == iris@,
    {
        OntologyAdapter { graph, iris }
    }

    /// An adapter whose slot `i` holds the id of `iris[i]` in the graph, or
    /// `None` where the graph lacks that IRI.
    pub fn preload(graph: &'g Graph, iris: &Vec<&str>) -> (r: OntologyAdapter<'g>)
        requires
            graph.wf(),
        ensures
            r.graph() == *graph,
            r.iris().len() == iris@.len(),
            forall|i: int| 0 <= i < iris@.len() ==> match #[trigger] r.iris()[i] {
                Some(id) => id.id < graph.strings().len() && graph.strings()[id.id as int] == iris@[i]@,
                None => !graph.strings().contains(iris@[i]@),
            },
    {
        let mut slots: Vec<Option<StringId>> = Vec::with_capacity(iris.len());
        let mut i: usize = 0;
        while i < iris.len()
            invariant
                graph.wf(),
                i <= iris@.len(),
                slots@.len() == i,
                forall|k: int| 0 <= k < i ==> match #[trigger] slots@[k] {
                    Some(id) => id.id < graph.strings().len() && graph.strings()[id.id as int] == iris@[k]@,
                    None => !graph.strings().contains(iris@[k]@),
                },
            decreases iris@.len() - i,
        {
            slots.push(graph.find_iri(iris[i]));
            i += 1;
        }
        OntologyAdapter { graph, iris: slots }
    }

    /// The handle of slot `i`.
    pub fn preloaded_iri(&self, i: usize) -> (r: Option<StringId>)
        ensures
            r == if i < self.iris().len() { self.iris()[i as int] } else { None },
    {
        if i < self.iris.len() {
            self.iris[i]
        } else {
            None
        }
    }

    /// The triples with this subject and predicate.
    pub fn iter_s_p(&self, subject: &Subject, predicate: StringId) -> (r: TripleRangeIterator<'g>)
        requires
            self.graph().wf(),
        ensures
            r.wf(),
            r.source() == self.graph(),
            r.remaining() == self.graph().spo().filter(|t: CompactTriple| self.graph().decode(t).subject == subject_view(*subject) && t.predicate == predicate.id),
    {
        self.graph.iter_s_p(subject, predicate)
    }

    /// The triples with this IRI or blank-node object and this predicate.
    pub fn iter_o_p(&self, object: &Subject, predicate: StringId) -> (r: TripleRangeIterator<'g>)
        requires
            self.graph().wf(),
        ensures
            r.wf(),
            r.source() == self.graph(),
            r.remaining() == self.graph().ops().filter(|t: CompactTriple| self.graph().decode(t).object == node_object(subject_view(*object)) && t.predicate == predicate.id),
    {
        self.graph.iter_o_p(object, predicate)
    }

    pub fn empty_spo_range(&self) -> (r: TripleRangeIterator<'g>)
        requires
            self.graph().wf(),
        ensures
            r.wf(),
            r.remaining().len() == 0,
    {
        self.graph.empty_spo_range()
    }

    pub fn empty_ops_range(&self) -> (r: TripleRangeIterator<'g>)
        requires
            self.graph().wf(),
        ensures
            r.wf(),
            r.remaining().len() == 0,
    {
        self.graph.empty_ops_range()
    }
}

} // verus!
