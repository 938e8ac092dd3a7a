use rdfio::constants::{RDF_FIRST, RDF_LANG_STRING, RDF_NIL, RDF_REST, XSD_DOUBLE, XSD_STRING};
use rdfio::graph::{Graph, GraphWriter};
use rdfio::iri::{is_absolute, join_iri};
use rdfio::load::load_turtle;
use rdfio::terms::{Object, Subject};
use rdfio::turtle::{BlankNodeOrIRI, Error, Resource, TripleIterator};

fn render_graph(g: &Graph) -> Vec<String> {
    let mut it = g.iter();
    let mut v = Vec::new();
    while let Some(t) = it.next() {
        let s = match t.subject() {
            Subject::IRI(i) => format!("<{}>", i),
            Subject::BlankNode(b) => format!("_:{}", b.0),
        };
        let o = match t.object() {
            Object::IRI(i) => format!("<{}>", i),
            Object::BlankNode(b) => format!("_:{}", b.0),
            Object::Literal(l) => match l.language {
                Some(lang) => format!("{:?}@{}", l.lexical, lang),
                None => format!("{:?}^^<{}>", l.lexical, l.datatype),
            },
        };
        v.push(format!("{} <{}> {}", s, t.predicate(), o));
    }
    v.sort();
    v
}

fn canonical(src: &str, base: &str) -> Vec<String> {
    let mut w = GraphWriter::with_capacity(0);
    load_turtle(&mut w, src, base).unwrap();
    render_graph(&w.collect().sort_blank_nodes())
}

fn sorted(v: Vec<String>) -> Vec<String> {
    let mut v = v;
    v.sort();
    v
}

fn chars(s: &str) -> Vec<char> {
    s.chars().collect()
}

#[test]
fn blank_node() {
    let s = "<http://a.example/s> <http://a.example/p> _:b1 .\n";
    let mut i = TripleIterator::new(s, "http://a.example/").unwrap();
    let n = i.next();
    assert!(n.is_some());
    assert!(n.unwrap().is_ok());
}

#[test]
fn test_string_literal_long_quote() {
    let s = "<http://a.example/s> <http://a.example/p> \"\"\"first long literal\"\"\" .\n";
    let mut i = TripleIterator::new(s, "http://a.example/").unwrap();
    let n = i.next();
    assert!(n.is_some());
    assert!(n.unwrap().is_ok());
}

#[test]
fn test_no_space_before_dot() {
    let s = "@prefix : <urn:> .\n:s..2 :p..2 :o.\n";
    let mut i = TripleIterator::new(s, "http://a.example/").unwrap();
    let n = i.next();
    println!("{:?}", n);
    assert!(n.is_some());
    assert!(n.unwrap().is_ok());
}

#[test]
fn collection_expansion() {
    let got = canonical("<a> <p> ( <b> <c> ) .", "ex:");
    let expected = sorted(vec![
        "<ex:a> <ex:p> _:0".to_string(),
        format!("_:0 <{}> <ex:b>", RDF_FIRST),
        format!("_:0 <{}> _:1", RDF_REST),
        format!("_:1 <{}> <ex:c>", RDF_FIRST),
        format!("_:1 <{}> <{}>", RDF_REST, RDF_NIL),
    ]);
    assert_eq!(got, expected);
}

#[test]
fn prefixed_typed_literal() {
    let src = "@prefix : <u:> . :s :p \"3.14\"^^<http://www.w3.org/2001/XMLSchema#double> .";
    let mut it = TripleIterator::new(src, "ex:").unwrap();
    let t = it.next().unwrap().unwrap();
    assert!(it.next().is_none());
    assert_eq!(t.subject, BlankNodeOrIRI::IRI(rdfio::turtle::IRIPtr { iri: "u:s".to_string() }));
    assert_eq!(t.predicate.as_str(), "u:p");
    match t.object {
        Resource::Literal(l) => {
            assert_eq!(l.as_str(), "3.14");
            assert_eq!(l.datatype(), XSD_DOUBLE);
            assert_eq!(l.language(), None);
        },
        _ => panic!("expected a literal"),
    }
}

#[test]
fn language_tag_lowercased() {
    let mut it = TripleIterator::new("<a> <p> \"hi\"@EN-us .", "ex:").unwrap();
    let t = it.next().unwrap().unwrap();
    match t.object {
        Resource::Literal(l) => {
            assert_eq!(l.as_str(), "hi");
            assert_eq!(l.language(), Some("en-us"));
            assert_eq!(l.datatype(), RDF_LANG_STRING);
        },
        _ => panic!("expected a literal"),
    }
}

#[test]
fn blank_node_property_list() {
    let got = canonical("<a> <p> [ <q> <b> ; <r> <c> ] .", "ex:");
    let expected = sorted(vec![
        "<ex:a> <ex:p> _:0".to_string(),
        "_:0 <ex:q> <ex:b>".to_string(),
        "_:0 <ex:r> <ex:c>".to_string(),
    ]);
    assert_eq!(got, expected);
}

#[test]
fn long_string_literal() {
    let mut it = TripleIterator::new("<s> <p> \"\"\"line1\\nline2\"\"\" .", "ex:").unwrap();
    let t = it.next().unwrap().unwrap();
    match t.object {
        Resource::Literal(l) => {
            assert_eq!(l.as_str(), "line1\nline2");
            assert_eq!(l.datatype(), XSD_STRING);
        },
        _ => panic!("expected a literal"),
    }
}

#[test]
fn local_names_with_dots() {
    let mut w = GraphWriter::with_capacity(0);
    let n = load_turtle(&mut w, "@prefix : <urn:> . :s..2 :p..2 :o.", "ex:").unwrap();
    assert_eq!(n, 1);
    assert_eq!(render_graph(&w.collect()), vec!["<urn:s..2> <urn:p..2> <urn:o>".to_string()]);
}

#[test]
fn missing_final_dot_fails() {
    let mut it = TripleIterator::new("<a> <p> <b>", "ex:").unwrap();
    match it.next() {
        Some(Err(Error::ParseError(_))) => {},
        other => panic!("expected a parse error, got {:?}", other),
    }
    assert!(it.next().is_none());
}

#[test]
fn empty_document_gives_empty_graph() {
    let mut w = GraphWriter::with_capacity(0);
    assert_eq!(load_turtle(&mut w, "  # nothing\n", "ex:").unwrap(), 0);
    let g = w.collect();
    assert_eq!(g.len(), 0);
    assert!(g.iter().next().is_none());
}

#[test]
fn duplicate_statements_collapse() {
    let got = canonical("<a> <p> <b> . <a> <p> <b> .\n<a> <p> <b>, <b> .", "ex:");
    assert_eq!(got, vec!["<ex:a> <ex:p> <ex:b>".to_string()]);
}

#[test]
fn labelled_blank_node_shared_across_statements() {
    let got = canonical("_:x <p> <a> .\n<b> <q> _:x .", "ex:");
    assert_eq!(got, sorted(vec!["_:0 <ex:p> <ex:a>".to_string(), "<ex:b> <ex:q> _:0".to_string()]));
}

#[test]
fn documents_never_share_blank_nodes() {
    let mut w = GraphWriter::with_capacity(0);
    load_turtle(&mut w, "_:x <p> <a> .", "ex:").unwrap();
    load_turtle(&mut w, "_:x <p> <a> .", "ex:").unwrap();
    let g = w.collect();
    assert_eq!(g.len(), 2);
    assert_eq!(g.iter_subject_blank_nodes().len(), 2);
}

#[test]
fn prefix_and_base_directives() {
    let src = "@base <http://ex.org/dir/file> .\nPREFIX p: <sub/>\n<x> a p:y ; <#frag> 12, -3.5, 1e3, true .";
    let got = canonical(src, "ex:");
    let expected = sorted(vec![
        "<http://ex.org/dir/x> <http://www.w3.org/1999/02/22-rdf-syntax-ns#type> <http://ex.org/dir/sub/y>".to_string(),
        "<http://ex.org/dir/x> <http://ex.org/dir/file#frag> \"12\"^^<http://www.w3.org/2001/XMLSchema#integer>".to_string(),
        "<http://ex.org/dir/x> <http://ex.org/dir/file#frag> \"-3.5\"^^<http://www.w3.org/2001/XMLSchema#decimal>".to_string(),
        "<http://ex.org/dir/x> <http://ex.org/dir/file#frag> \"1e3\"^^<http://www.w3.org/2001/XMLSchema#double>".to_string(),
        "<http://ex.org/dir/x> <http://ex.org/dir/file#frag> \"true\"^^<http://www.w3.org/2001/XMLSchema#boolean>".to_string(),
    ]);
    assert_eq!(got, expected);
}

#[test]
fn unicode_escapes_are_decoded() {
    let mut it = TripleIterator::new("<s> <p> \"caf\\u00E9 \\U0001F600\" .", "ex:").unwrap();
    let t = it.next().unwrap().unwrap();
    match t.object {
        Resource::Literal(l) => assert_eq!(l.as_str(), "caf\u{e9} \u{1F600}"),
        _ => panic!("expected a literal"),
    }
}

#[test]
fn invalid_base_is_rejected() {
    assert_eq!(TripleIterator::new("<a> <b> <c> .", "relative/base").err(), Some(Error::InvalidBase));
    let mut w = GraphWriter::with_capacity(0);
    assert_eq!(load_turtle(&mut w, "<a> <b> <c> .", "Http://x").err(), Some(Error::InvalidBase));
}

#[test]
fn unknown_prefix_is_reported() {
    let mut it = TripleIterator::new("nope:a <p> <b> .", "ex:").unwrap();
    assert_eq!(it.next().unwrap().err(), Some(Error::UnknownPrefix(0)));
}

#[test]
fn bad_escape_is_reported() {
    let mut it = TripleIterator::new("<s> <p> \"a\\qb\" .", "ex:").unwrap();
    assert_eq!(it.next().unwrap().err(), Some(Error::EscapeError(10)));
}

#[test]
fn join_iri_resolves_references() {
    let r = join_iri(&chars("http://a/b/c"), &chars("d"));
    assert_eq!(r, chars("http://a/b/d"));
    let r = join_iri(&chars("http://a/b/c"), &chars("#f"));
    assert_eq!(r, chars("http://a/b/c#f"));
    let r = join_iri(&chars("http://a/b/c"), &chars("urn:x"));
    assert_eq!(r, chars("urn:x"));
    let r = join_iri(&chars("ex:"), &chars("a"));
    assert_eq!(r, chars("ex:a"));
}

#[test]
fn absolute_iris() {
    assert!(is_absolute("http://x"));
    assert!(is_absolute("a+b.c-d:"));
    assert!(!is_absolute("Http://x"));
    assert!(!is_absolute("/x"));
    assert!(!is_absolute("ab"));
    assert!(!is_absolute(""));
}

#[test]
fn prefixes_are_reported() {
    let mut it = TripleIterator::new("@prefix ex: <http://e/> . ex:a ex:b ex:c .", "ex:").unwrap();
    assert!(it.next().unwrap().is_ok());
    assert_eq!(it.prefixes(), vec![("ex".to_string(), "http://e/".to_string())]);
}

#[test]
fn blank_node_subjects() {
    let got = canonical("[] <p> <o> .\n[ <q> \"v\" ] .\n( <x> ) <r> <y> .", "ex:");
    let expected = sorted(vec![
        "_:1 <ex:p> <ex:o>".to_string(),
        "_:2 <ex:q> \"v\"^^<http://www.w3.org/2001/XMLSchema#string>".to_string(),
        "_:0 <ex:r> <ex:y>".to_string(),
        format!("_:0 <{}> <ex:x>", RDF_FIRST),
        format!("_:0 <{}> <{}>", RDF_REST, RDF_NIL),
    ]);
    assert_eq!(got, expected);
}
