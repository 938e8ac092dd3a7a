use rdfio::constants::{RDF_LANG_STRING, XSD_STRING};
use rdfio::graph::{Graph, GraphTriple, GraphWriter};
use rdfio::terms::{Literal, Object, Subject, SubjectClone};
use rdfio::triple::CompactTriple;

fn render(t: &GraphTriple) -> String {
    let s = match t.subject() {
        Subject::IRI(i) => format!("<{}>", i),
        Subject::BlankNode(b) => format!("_:{}", b.0),
    };
    let o = match t.object() {
        Object::IRI(i) => format!("<{}>", i),
        Object::BlankNode(b) => format!("_:{}", b.0),
        Object::Literal(l) => match l.language {
            Some(lang) => format!("{:?}@{}", l.lexical, lang),
            None => format!("{:?}^^<{}>", l.lexical, l.datatype),
        },
    };
    format!("{} <{}> {}", s, t.predicate(), o)
}

fn rendered(g: &Graph) -> Vec<String> {
    let mut it = g.iter();
    let mut v = Vec::new();
    while let Some(t) = it.next() {
        v.push(render(&t));
    }
    v
}

fn compact(g: &Graph) -> Vec<CompactTriple> {
    let mut it = g.iter();
    let mut v = Vec::new();
    while let Some(t) = it.next() {
        v.push(t.triple);
    }
    v
}

fn key(t: &CompactTriple) -> (bool, u32, u32, u8, u32, u32) {
    let k = rdfio::triple::kind_code(t.object_kind);
    (t.subject_is_iri, t.subject, t.predicate, k, t.object, t.datatype_or_lang)
}

#[test]
fn collect_empty() {
    let mut writer = GraphWriter::with_capacity(0);
    writer.collect();
}

#[test]
fn keep_blank_subject() {
    let mut writer = GraphWriter::with_capacity(0);
    writer.add_blank_blank(1, "", 2);
    let graph = writer.collect();
    let mut it = graph.iter();
    let triple = it.next().unwrap();
    assert_eq!(triple.subject(), Subject::BlankNode((1, 0)));
    assert_eq!(triple.predicate(), "");
    assert_eq!(triple.object(), Object::BlankNode((2, 0)));
}

#[test]
fn empty_graph_has_no_triples() {
    let mut writer = GraphWriter::with_capacity(4);
    let g = writer.collect();
    assert_eq!(g.len(), 0);
    assert_eq!(g.iter().len(), 0);
    assert!(g.iter().next().is_none());
    assert!(g.iter_subject_iri("ex:a").next().is_none());
    assert!(g.iter_object_iri("ex:a").next().is_none());
    assert!(g.iter_object_iri_predicate("ex:a", "ex:p").next().is_none());
    assert!(g.iter_subject_blank_nodes().next().is_none());
    assert!(g.iter_object_blank_nodes().next().is_none());
}

#[test]
fn duplicates_collapse() {
    let mut w = GraphWriter::with_capacity(0);
    w.add_iri_iri("ex:s", "ex:p", "ex:o");
    w.add_iri_iri("ex:s", "ex:p", "ex:o");
    w.add_iri_lit("ex:s", "ex:p", "v", XSD_STRING);
    w.add_iri_lit("ex:s", "ex:p", "v", XSD_STRING);
    let g = w.collect();
    assert_eq!(g.len(), 2);
    assert_eq!(rendered(&g).len(), 2);
}

#[test]
fn iter_is_strictly_increasing_and_counts_len() {
    let mut w = GraphWriter::with_capacity(0);
    w.add_iri_iri("ex:z", "ex:p", "ex:o");
    w.add_iri_iri("ex:a", "ex:q", "ex:o");
    w.add_blank_iri(3, "ex:p", "ex:a");
    w.add_iri_blank("ex:a", "ex:p", 3);
    w.add_iri_lit_lang("ex:a", "ex:p", "x", "en");
    w.add_iri_iri("ex:a", "ex:p", "ex:b");
    let g = w.collect();
    let v = compact(&g);
    assert_eq!(v.len(), g.len());
    assert_eq!(g.len(), 6);
    for i in 1..v.len() {
        assert!(key(&v[i - 1]) < key(&v[i]));
    }
    // blank subjects come first
    assert!(!v[0].subject_is_iri);
}

#[test]
fn string_ids_follow_string_order() {
    let mut w = GraphWriter::with_capacity(0);
    w.add_iri_iri("ex:z", "ex:m", "ex:a");
    let g = w.collect();
    let mut it = g.iter();
    let t = it.next().unwrap();
    // ex:a < ex:m < ex:z
    assert!(t.triple.object < t.triple.predicate);
    assert!(t.triple.predicate < t.triple.subject);
}

#[test]
fn subject_query_is_exact() {
    let mut w = GraphWriter::with_capacity(0);
    w.add_iri_iri("ex:s", "ex:q", "ex:o2");
    w.add_iri_iri("ex:t", "ex:p", "ex:o");
    w.add_iri_iri("ex:s", "ex:p", "ex:o1");
    w.add_blank_iri(2, "ex:p", "ex:o");
    let g = w.collect();
    let mut it = g.iter_subject_iri("ex:s");
    let mut got = Vec::new();
    while let Some(t) = it.next() {
        got.push(render(&t));
    }
    assert_eq!(got, vec!["<ex:s> <ex:p> <ex:o1>".to_string(), "<ex:s> <ex:q> <ex:o2>".to_string()]);
    assert!(g.iter_subject_iri("ex:nothing").next().is_none());
    let mut b = g.iter_subject(&Subject::BlankNode((2, 0)));
    assert_eq!(render(&b.next().unwrap()), "_:2 <ex:p> <ex:o>");
    assert!(b.next().is_none());
    assert_eq!(g.iter_subject(&Subject::IRI("ex:t")).len(), 1);
}

#[test]
fn object_queries_are_exact() {
    let mut w = GraphWriter::with_capacity(0);
    w.add_iri_iri("ex:s", "ex:p", "ex:o");
    w.add_iri_iri("ex:t", "ex:q", "ex:o");
    w.add_blank_iri(1, "ex:p", "ex:o");
    w.add_iri_iri("ex:s", "ex:p", "ex:other");
    w.add_iri_lit("ex:s", "ex:p", "ex:o", XSD_STRING);
    let g = w.collect();
    assert_eq!(g.iter_object_iri("ex:o").len(), 3);
    let mut it = g.iter_object_iri_predicate("ex:o", "ex:p");
    let mut got = Vec::new();
    while let Some(t) = it.next() {
        got.push(render(&t));
    }
    assert_eq!(got, vec!["_:1 <ex:p> <ex:o>".to_string(), "<ex:s> <ex:p> <ex:o>".to_string()]);
    assert!(g.iter_object_iri_predicate("ex:o", "ex:none").next().is_none());
}

#[test]
fn blank_node_ranges() {
    let mut w = GraphWriter::with_capacity(0);
    w.add_blank_blank(1, "ex:p", 2);
    w.add_iri_blank("ex:s", "ex:p", 1);
    w.add_iri_iri("ex:s", "ex:p", "ex:o");
    let g = w.collect();
    assert_eq!(g.iter_subject_blank_nodes().len(), 1);
    assert_eq!(g.iter_object_blank_nodes().len(), 2);
    assert_eq!(g.highest_blank_node(), 2);
}

#[test]
fn literals_keep_datatype_and_language() {
    let mut w = GraphWriter::with_capacity(0);
    w.add_iri_lit_lang("ex:s", "ex:p", "hi", "en");
    w.add_blank_lit(4, "ex:p", "1", "ex:int");
    w.add_blank_lit_lang(4, "ex:p", "salut", "fr");
    let g = w.collect();
    let v = rendered(&g);
    assert!(v.contains(&"<ex:s> <ex:p> \"hi\"@en".to_string()));
    assert!(v.contains(&"_:4 <ex:p> \"1\"^^<ex:int>".to_string()));
    assert!(v.contains(&"_:4 <ex:p> \"salut\"@fr".to_string()));
    let mut it = g.iter_subject_iri("ex:s");
    match it.next().unwrap().object() {
        Object::Literal(l) => assert_eq!(l.datatype, RDF_LANG_STRING),
        _ => panic!("expected a literal"),
    }
}

#[test]
fn add_dispatches_on_terms() {
    let mut w = GraphWriter::with_capacity(0);
    w.add(Subject::IRI("ex:s"), "ex:p", Object::Literal(Literal { lexical: "x", datatype: "ex:dt", language: None }));
    w.add(Subject::BlankNode((5, 7)), "ex:p", Object::BlankNode((6, 0)));
    assert_eq!(w.highest_blank_node(), 6);
    let g = w.collect();
    let v = rendered(&g);
    assert!(v.contains(&"<ex:s> <ex:p> \"x\"^^<ex:dt>".to_string()));
    assert!(v.contains(&"_:5 <ex:p> _:6".to_string()));
}

#[test]
fn create_blank_node_is_fresh() {
    let mut w = GraphWriter::with_capacity(0);
    w.add_blank_blank(3, "ex:p", 9);
    let b = w.create_blank_node();
    assert_eq!(b, (10, 0));
    assert_eq!(w.create_blank_node(), (11, 0));
}

#[test]
fn subject_clone_holds_a_subject() {
    let mut c = SubjectClone::new();
    assert!(c.eq_subject(&Subject::IRI("")));
    c.assign(&Subject::IRI("ex:a"));
    assert!(c.eq_subject(&Subject::IRI("ex:a")));
    assert!(!c.eq_subject(&Subject::IRI("ex:b")));
    c.assign(&Subject::BlankNode((4, 0)));
    assert!(c.eq_subject(&Subject::BlankNode((4, 0))));
    assert!(!c.eq_subject(&Subject::IRI("ex:a")));
    let d = SubjectClone::from_subject(Subject::IRI("ex:z"));
    assert!(d.eq_subject(&Subject::IRI("ex:z")));
}

#[test]
fn canonicalization_ignores_insertion_order() {
    let mut w1 = GraphWriter::with_capacity(0);
    w1.add_iri_blank("ex:a", "ex:p", 1);
    w1.add_blank_iri(1, "ex:q", "ex:b");
    w1.add_blank_iri(2, "ex:r", "ex:c");
    let mut w2 = GraphWriter::with_capacity(0);
    w2.add_blank_iri(7, "ex:r", "ex:c");
    w2.add_iri_blank("ex:a", "ex:p", 5);
    w2.add_blank_iri(5, "ex:q", "ex:b");
    let c1 = w1.collect().sort_blank_nodes();
    let c2 = w2.collect().sort_blank_nodes();
    let r1 = rendered(&c1);
    let r2 = rendered(&c2);
    assert_eq!(r1[..], r2[..]);
    assert!(r1.contains(&"_:0 <ex:q> <ex:b>".to_string()));
    assert!(r1.contains(&"<ex:a> <ex:p> _:0".to_string()));
    assert!(r1.contains(&"_:1 <ex:r> <ex:c>".to_string()));
}

#[test]
fn canonicalization_is_idempotent() {
    let mut w = GraphWriter::with_capacity(0);
    w.add_iri_blank("ex:a", "ex:p", 4);
    w.add_blank_blank(4, "ex:next", 2);
    w.add_blank_iri(2, "ex:q", "ex:b");
    w.add_blank_lit(3, "ex:q", "v", XSD_STRING);
    let once = w.collect().sort_blank_nodes();
    let twice = once.sort_blank_nodes();
    assert_eq!(compact(&once), compact(&twice));
}
