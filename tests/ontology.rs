use rdfio::constants::{RDFS_CLASS, RDFS_SUB_CLASS_OF, RDF_TYPE};
use rdfio::graph::{Graph, GraphWriter};
use rdfio::inference::add_class_types;
use rdfio::load::load_turtle;
use rdfio::ontology_adapter::OntologyAdapter;
use rdfio::terms::{Object, Subject};

fn lines(g: &Graph) -> Vec<String> {
    let mut it = g.iter();
    let mut v = Vec::new();
    while let Some(t) = it.next() {
        let s = match t.subject() {
            Subject::IRI(i) => format!("<{}>", i),
            Subject::BlankNode(b) => format!("_:{}", b.0),
        };
        let o = match t.object() {
            Object::IRI(i) => format!("<{}>", i),
            Object::BlankNode(b) => format!("_:{}", b.0),
            Object::Literal(l) => format!("{:?}", l.lexical),
        };
        v.push(format!("{} <{}> {}", s, t.predicate(), o));
    }
    v
}

#[test]
fn adapter_reads_properties_by_slot() {
    let mut w = GraphWriter::with_capacity(0);
    load_turtle(&mut w, "<s> <label> \"one\" ; <knows> <t> . <u> <knows> <t> . <t> <label> \"two\" .", "ex:").unwrap();
    let g = w.collect();
    let iris = vec!["ex:label", "ex:knows", "ex:missing"];
    let a = OntologyAdapter::preload(&g, &iris);
    assert!(a.preloaded_iri(2).is_none());
    assert!(a.preloaded_iri(9).is_none());
    let label = a.preloaded_iri(0).unwrap();
    let knows = a.preloaded_iri(1).unwrap();
    let mut it = a.iter_s_p(&Subject::IRI("ex:s"), label);
    let t = it.next().unwrap();
    assert_eq!(t.object(), Object::Literal(rdfio::terms::Literal { lexical: "one", datatype: rdfio::constants::XSD_STRING, language: None }));
    assert!(it.next().is_none());
    assert_eq!(a.iter_o_p(&Subject::IRI("ex:t"), knows).len(), 2);
    assert_eq!(a.iter_o_p(&Subject::IRI("ex:t"), label).len(), 0);
    assert_eq!(a.empty_spo_range().len(), 0);
    assert_eq!(a.empty_ops_range().len(), 0);
}

#[test]
fn subclass_sides_become_classes() {
    let mut w = GraphWriter::with_capacity(0);
    let src = format!("<a> <{}> <b> . <c> <{}> \"x\" . <d> <p> <e> .", RDFS_SUB_CLASS_OF, RDFS_SUB_CLASS_OF);
    load_turtle(&mut w, &src, "ex:").unwrap();
    let g = w.collect();
    let mut w2 = GraphWriter::with_capacity(0);
    assert!(add_class_types(&g, &mut w2));
    let g2 = w2.collect().sort_blank_nodes();
    let v = lines(&g2);
    assert_eq!(v.len(), 6);
    assert!(v.contains(&format!("<ex:a> <{}> <{}>", RDF_TYPE, RDFS_CLASS)));
    assert!(v.contains(&format!("<ex:b> <{}> <{}>", RDF_TYPE, RDFS_CLASS)));
    assert!(v.contains(&format!("<ex:c> <{}> <{}>", RDF_TYPE, RDFS_CLASS)));
    assert!(!v.contains(&format!("<ex:d> <{}> <{}>", RDF_TYPE, RDFS_CLASS)));
}
