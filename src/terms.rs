//! RDF terms as callers hand them to a graph and read them back, and their
//! mathematical views.
use vstd::prelude::*;
use crate::strings::str_chars;
use crate::strings::chars_eq;

verus! {

/// A blank node: its id and the id of the graph it was made for.
pub type BlankNode = (usize, usize);

#[derive(Clone, Copy, PartialEq, Eq, Debug)]
pub enum Subject<'a> {
    IRI(&'a str),
    BlankNode(BlankNode),
}

#[derive(Clone, Copy, PartialEq, Eq, Debug)]
pub struct Literal<'a> {
    pub lexical: &'a str,
    pub datatype: &'a str,
    pub language: Option<&'a str>,
}

#[derive(Clone, Copy, PartialEq, Eq, Debug)]
pub enum Object<'a> {
    IRI(&'a str),
    BlankNode(BlankNode),
    Literal(Literal<'a>),
}

/// A subject as a value.
pub enum SubjectView {
    Iri(Seq<char>),
    Blank(BlankNode),
}

/// A literal as a value; `language` is `None` for a typed literal.
pub struct LiteralView {
    pub lexical: Seq<char>,
    pub datatype: Seq<char>,
    pub language: Option<Seq<char>>,
}

/// An object as a value.
pub enum ObjectView {
    Iri(Seq<char>),
    Blank(BlankNode),
    Literal(LiteralView),
}

/// A triple as a value.
pub struct TripleView {
    pub subject: SubjectView,
    pub predicate: Seq<char>,
    pub object: ObjectView,
}

pub open spec fn subject_view(s: Subject) -> SubjectView {
    match s {
        Subject::IRI(iri) => SubjectView::Iri(iri@),
        Subject::BlankNode(b) => SubjectView::Blank(b),
    }
}

pub open spec fn literal_view(l: Literal) -> LiteralView {
    LiteralView {
        lexical: l.lexical@,
        datatype: l.datatype@,
        language: match l.language {
            Some(lang) => Some(lang@),
            None => None,
        },
    }
}

pub open spec fn object_view(o: Object) -> ObjectView {
    match o {
        Object::IRI(iri) => ObjectView::Iri(iri@),
        Object::BlankNode(b) => ObjectView::Blank(b),
        Object::Literal(l) => ObjectView::Literal(literal_view(l)),
    }
}

/// What can stand as a subject.
pub trait IntoSubject<'a> {
    fn subject(self) -> Subject<'a>;
}

/// What can stand as an object.
pub trait IntoObject<'a> {
    fn object(self) -> Object<'a>;
}

impl<'a> IntoSubject<'a> for &'a str {
    fn subject(self) -> Subject<'a> {
        Subject::IRI(self)
    }
}

impl<'a> IntoSubject<'a> for BlankNode {
    fn subject(self) -> Subject<'a> {
        Subject::BlankNode(self)
    }
}

impl<'a> IntoObject<'a> for &'a str {
    fn object(self) -> Object<'a> {
        Object::IRI(self)
    }
}

impl<'a> IntoObject<'a> for BlankNode {
    fn object(self) -> Object<'a> {
        Object::BlankNode(self)
    }
}

impl<'a> IntoObject<'a> for Literal<'a> {
    fn object(self) -> Object<'a> {
        Object::Literal(self)
    }
}

/// The object that names the same node as a subject.
pub fn subject_to_object<'a>(s: Subject<'a>) -> (r: Object<'a>)
    ensures
        object_view(r) == match subject_view(s) {
            SubjectView::Iri(iri) => ObjectView::Iri(iri),
            SubjectView::Blank(b) => ObjectView::Blank(b),
        },
{
    match s {
        Subject::IRI(iri) => Object::IRI(iri),
        Subject::BlankNode(b) => Object::BlankNode(b),
    }
}

enum SubjectCloneEnum {
    IRI,
    BlankNode(BlankNode),
}

/// An owned copy of a subject, reusable without reallocating its IRI.
pub struct SubjectClone {
    iri: String,
    subject: SubjectCloneEnum,
}

impl SubjectClone {
    /// The subject held.
    pub closed spec fn view(&self) -> SubjectView {
        match self.subject {
            SubjectCloneEnum::IRI => SubjectView::Iri(self.iri@),
            SubjectCloneEnum::BlankNode(b) => SubjectView::Blank(b),
        }
    }

    /// A clone that holds the empty IRI.
    pub fn new() -> (r: SubjectClone)
        ensures
            r@ == SubjectView::Iri(Seq::empty()),
    {
        SubjectClone { iri: String::new(), subject: SubjectCloneEnum::IRI }
    }

    /// Makes this clone hold `s`.
    pub fn assign(&mut self, s: &Subject)
        ensures
            final(self)@ == subject_view(*s),
    {
        match s {
            Subject::IRI(iri) => {
                self.iri = (*iri).to_owned();
                self.subject = SubjectCloneEnum::IRI;
            },
            Subject::BlankNode(b) => {
                self.iri = String::new();
                self.subject = SubjectCloneEnum::BlankNode(*b);
            },
        }
    }

    /// Whether this clone holds `s`.
    pub fn eq_subject(&self, s: &Subject) -> (r: bool)
        ensures
            r == (self@ == subject_view(*s)),
    {
        match (&self.subject, s) {
            (SubjectCloneEnum::IRI, Subject::IRI(iri)) => {
                let a = str_chars(self.iri.as_str());
                let b = str_chars(*iri);
                chars_eq(&a, &b)
            },
            (SubjectCloneEnum::BlankNode(b1), Subject::BlankNode(b2)) => b1.0 == b2.0 && b1.1 == b2.1,
            _ => false,
        }
    }

    /// An owned copy of `s`.
    pub fn from_subject(s: Subject) -> (r: SubjectClone)
        ensures
            r@ == subject_view(s),
    {
        match s {
            Subject::IRI(iri) => SubjectClone { iri: iri.to_owned(), subject: SubjectCloneEnum::IRI },
            Subject::BlankNode(b) => SubjectClone { iri: String::new(), subject: SubjectCloneEnum::BlankNode(b) },
        }
    }
}

} // verus!
