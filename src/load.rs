//! Feeding the triples of a Turtle document into a graph writer.
use vstd::prelude::*;
use crate::graph::{GraphWriter, blank_ids_below};
use crate::constants::RDF_LANG_STRING;
use crate::terms::{BlankNode, Subject, Object, Literal, SubjectView, ObjectView, LiteralView, TripleView};
use crate::turtle::{TripleIterator, IteratorTriple, BlankNodeOrIRI, Resource, Error, document, parse_document, lemma_advance_progress, advance, Step};

verus! {

/// Every blank node of the triple has an id above `n`.
pub open spec fn blank_ids_above(v: TripleView, n: nat) -> bool {
    &&& (v.subject matches SubjectView::Blank(b) ==> b.0 > n)
    &&& (v.object matches ObjectView::Blank(b) ==> b.0 > n)
}

/// The writer holds the triples of `old` first, then others.
pub open spec fn extends_writer(old: Seq<TripleView>, new: Seq<TripleView>) -> bool {
    old.len() <= new.len() && forall|i: int| 0 <= i < old.len() ==> new[i] == old[i]
}

pub open spec fn shift_blank(b: BlankNode, off: nat) -> BlankNode {
    ((b.0 + off) as usize, 0usize)
}

/// A parsed triple as the writer stores it: blank-node ids moved up by
/// `off`, and a language-tagged literal typed rdf:langString.
pub open spec fn shifted_triple(t: TripleView, off: nat) -> TripleView {
    TripleView {
        subject: match t.subject {
            SubjectView::Blank(b) => SubjectView::Blank(shift_blank(b, off)),
            SubjectView::Iri(i) => SubjectView::Iri(i),
        },
        predicate: t.predicate,
        object: match t.object {
            ObjectView::Blank(b) => ObjectView::Blank(shift_blank(b, off)),
            ObjectView::Iri(i) => ObjectView::Iri(i),
            ObjectView::Literal(l) => ObjectView::Literal(
                if l.language is Some {
                    LiteralView { lexical: l.lexical, datatype: RDF_LANG_STRING@, language: l.language }
                } else {
                    l
                },
            ),
        },
    }
}

pub open spec fn shifted_all(ts: Seq<TripleView>, off: nat) -> Seq<TripleView> {
    ts.map_values(|t: TripleView| shifted_triple(t, off))
}

fn shifted(id: u32, offset: u32) -> (r: Result<usize, Error>)
    ensures
        r matches Ok(x) ==> x == id + offset && x <= u32::MAX,
        r matches Err(e) ==> e is Custom,
{
    if id > u32::MAX - offset {
        return Err(Error::Custom("blank node id out of range"));
    }
    Ok((id + offset) as usize)
}

/// Adds one parsed triple, its blank nodes moved up by `offset`.
fn add_parsed(writer: &mut GraphWriter, t: &IteratorTriple, offset: u32) -> (r: Result<(), Error>)
    requires
        old(writer).wf(),
        offset > 0,
    ensures
        final(writer).wf(),
        match r {
            Ok(()) => final(writer)@.len() == old(writer)@.len() + 1
                && extends_writer(old(writer)@, final(writer)@)
                && blank_ids_above(final(writer)@.last(), (offset - 1) as nat)
                && final(writer)@ == old(writer)@.push(shifted_triple(t.view(), offset as nat)),
            Err(e) => final(writer)@ == old(writer)@ && e is Custom,
        },
{
    if !writer.room() {
        return Err(Error::Custom("the graph's string tables are full"));
    }
    let subject = match &t.subject {
        BlankNodeOrIRI::IRI(i) => Subject::IRI(i.iri.as_str()),
        BlankNodeOrIRI::BlankNode(b) => Subject::BlankNode((shifted(b.node_id, offset)?, 0)),
    };
    let object = match &t.object {
        Resource::IRI(i) => Object::IRI(i.iri.as_str()),
        Resource::BlankNode(b) => Object::BlankNode((shifted(b.node_id, offset)?, 0)),
        Resource::Literal(l) => Object::Literal(Literal {
            lexical: l.lexical.as_str(),
            datatype: l.datatype.as_str(),
            language: match &l.language {
                Some(x) => Some(x.as_str()),
                None => None,
            },
        }),
    };
    let ghost before = writer@;
    writer.add_(subject, t.predicate.iri.as_str(), object);
    assert(writer@ == before.push(writer@.last()));
    Ok(())
}

/// Parses `src` against `base` and adds its triples to `writer`. Its blank
/// nodes get ids above every blank node the writer held, so that two
/// documents never share a blank node. Returns how many triples were added;
/// on an error, the triples before it stay added.
pub fn load_turtle(writer: &mut GraphWriter, src: &str, base: &str) -> (r: Result<usize, Error>)
    requires
        old(writer).wf(),
    ensures
        final(writer).wf(),
        extends_writer(old(writer)@, final(writer)@),
        forall|i: int| old(writer)@.len() <= i < final(writer)@.len() ==> blank_ids_above(#[trigger] final(writer)@[i], old(writer).highest() as nat),
        forall|i: int| 0 <= i < old(writer)@.len() ==> blank_ids_below(#[trigger] final(writer)@[i], old(writer).highest() as nat + 1),
        r matches Ok(n) ==> final(writer)@.len() == old(writer)@.len() + n,
        r == Err::<usize, Error>(Error::InvalidBase) <== !crate::iri::is_absolute_spec(base@),
        r matches Ok(n) ==> {
            &&& parse_document(src@, base@).1 is None
            &&& n == parse_document(src@, base@).0.len()
            &&& final(writer)@ == old(writer)@ + shifted_all(parse_document(src@, base@).0, old(writer).highest() as nat + 1)
        },
        r matches Err(e) ==> {
            ||| (e == Error::InvalidBase && !crate::iri::is_absolute_spec(base@))
            ||| parse_document(src@, base@).1 == Some(e)
            ||| e is Custom
        },
{
    proof {
        writer.lemma_blank_ids();
    }
    let ghost start = writer@;
    let ghost h = writer.highest();
    let ghost doc = parse_document(src@, base@);
    let mut it = TripleIterator::new(src, base)?;
    proof {
        it.lemma_wf();
        assert(it.pending() =~= Seq::<TripleView>::empty());
        assert(document(it.text(), it.position(), it.pstate()) == doc);
        assert(it.remaining().0 =~= doc.0);
        assert(doc.0.subrange(0, 0) =~= Seq::<TripleView>::empty());
        assert(shifted_all(doc.0.subrange(0, 0), h as nat + 1) =~= Seq::<TripleView>::empty());
        assert(writer@ =~= start + shifted_all(doc.0.subrange(0, 0), h as nat + 1));
        assert(doc.0.subrange(0, doc.0.len() as int) =~= doc.0);
    }
    if writer.highest_blank_node() == u32::MAX {
        return Err(Error::Custom("blank node id out of range"));
    }
    let offset = writer.highest_blank_node() + 1;
    let mut count: usize = 0;
    loop
        invariant
            writer.wf(),
            it.wf(),
            offset == h + 1,
            start == old(writer)@,
            h == old(writer).highest(),
            crate::iri::is_absolute_spec(base@),
            extends_writer(start, writer@),
            writer@.len() == start.len() + count,
            forall|i: int| start.len() <= i < writer@.len() ==> blank_ids_above(#[trigger] writer@[i], h as nat),
            forall|i: int| 0 <= i < start.len() ==> blank_ids_below(#[trigger] start[i], h as nat + 1),
            doc == parse_document(src@, base@),
            count <= doc.0.len(),
            writer@ == start + shifted_all(doc.0.subrange(0, count as int), h as nat + 1),
            it.remaining().0 == doc.0.subrange(count as int, doc.0.len() as int),
            it.remaining().1 == doc.1,
        decreases usize::MAX - count,
    {
        let ghost rem = it.remaining();
        let ghost was_pending = it.has_pending();
        let ghost was_done = it.is_done();
        let ghost step = advance(it.text(), it.position(), it.pstate());
        proof {
            it.lemma_wf();
            lemma_advance_progress(it.text(), it.position(), it.pstate());
        }
        assert forall|i: int| 0 <= i < start.len() implies blank_ids_below(#[trigger] writer@[i], h as nat + 1) by {
            assert(writer@[i] == start[i]);
        }
        let item = it.next();
        proof {
            it.lemma_wf();
            if item is Some && item->0 is Ok {
                if was_pending {
                    assert(it.remaining().0 =~= rem.0.drop_first());
                } else {
                    assert(it.remaining().0 =~= rem.0.drop_first());
                }
            }
            if item is None && !was_pending && !was_done {
                assert(rem.0 =~= Seq::<TripleView>::empty());
            }
        }
        match item {
            None => {
                proof {
                    assert(doc.0.subrange(0, count as int) =~= doc.0);
                }
                return Ok(count);
            },
            Some(Err(e)) => {
                return Err(e);
            },
            Some(Ok(t)) => {
                if count == usize::MAX {
                    return Err(Error::Custom("too many triples"));
                }
                let ghost before = writer@;
                add_parsed(writer, &t, offset)?;
                proof {
                    assert(doc.0.subrange(count as int, doc.0.len() as int)[0] == doc.0[count as int]);
                    assert(doc.0.subrange(0, count + 1) =~= doc.0.subrange(0, count as int).push(doc.0[count as int]));
                    assert(shifted_all(doc.0.subrange(0, count + 1), h as nat + 1) =~= shifted_all(doc.0.subrange(0, count as int), h as nat + 1).push(shifted_triple(doc.0[count as int], h as nat + 1)));
                    assert(writer@ =~= start + shifted_all(doc.0.subrange(0, count + 1), h as nat + 1));
                    assert(it.remaining().0 =~= doc.0.subrange(count + 1, doc.0.len() as int));
                    assert forall|i: int| start.len() <= i < writer@.len() implies blank_ids_above(#[trigger] writer@[i], h as nat) by {
                        if i < before.len() {
                            assert(writer@[i] == before[i]);
                        }
                    }
                }
                count = count + 1;
            },
        }
    }
}

} // verus!
