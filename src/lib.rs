//! An in-memory RDF triple store. A Turtle parser hands fully resolved
//! triples to a writer, which interns their strings and packs them into
//! compact triples; finalizing renumbers the strings into lexicographic order
//! and builds two sorted, duplicate-free indices (SPO and OPS) that answer
//! prefix-range queries. Blank nodes can be renumbered canonically, from the
//! structure of the graph alone.
pub mod triple;
pub mod index;
pub mod strings;
pub mod constants;
pub mod terms;
pub mod graph;
pub mod canon;
pub mod iri;
pub mod turtle;
pub mod load;
pub mod ontology_adapter;
pub mod inference;
