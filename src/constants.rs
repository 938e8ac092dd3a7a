//! IRIs of the RDF and XML Schema vocabularies that the library emits.
use vstd::prelude::*;

verus! {

pub const XSD_BOOLEAN: &'static str = "http://www.w3.org/2001/XMLSchema#boolean";
pub const XSD_DECIMAL: &'static str = "http://www.w3.org/2001/XMLSchema#decimal";
pub const XSD_DOUBLE: &'static str = "http://www.w3.org/2001/XMLSchema#double";
pub const XSD_INTEGER: &'static str = "http://www.w3.org/2001/XMLSchema#integer";
pub const XSD_STRING: &'static str = "http://www.w3.org/2001/XMLSchema#string";
pub const RDF_LANG_STRING: &'static str = "http://www.w3.org/1999/02/22-rdf-syntax-ns#langString";
pub const RDF_FIRST: &'static str = "http://www.w3.org/1999/02/22-rdf-syntax-ns#first";
pub const RDF_NIL: &'static str = "http://www.w3.org/1999/02/22-rdf-syntax-ns#nil";
pub const RDF_REST: &'static str = "http://www.w3.org/1999/02/22-rdf-syntax-ns#rest";
pub const RDF_TYPE: &'static str = "http://www.w3.org/1999/02/22-rdf-syntax-ns#type";
pub const RDFS_CLASS: &'static str = "http://www.w3.org/2000/01/rdf-schema#Class";
pub const RDFS_SUB_CLASS_OF: &'static str = "http://www.w3.org/2000/01/rdf-schema#subClassOf";

} // verus!
