//! A Turtle (and N-Triples) parser: statements are read one at a time and
//! expanded into fully resolved triples.
use vstd::prelude::*;
use crate::constants::{RDF_FIRST, RDF_NIL, RDF_REST, RDF_TYPE, RDF_LANG_STRING, XSD_BOOLEAN, XSD_DECIMAL, XSD_DOUBLE, XSD_INTEGER, XSD_STRING};
use crate::iri::{is_absolute_chars, is_absolute_spec, join_iri, join_iri_spec, string_of, concat_chars};
use crate::strings::{str_chars, copy_chars, chars_eq};
use crate::terms::{SubjectView, ObjectView, LiteralView, TripleView};

verus! {

/// What can go wrong while parsing; positions count characters.
#[derive(Debug, PartialEq, Eq)]
pub enum Error {
    /// The text does not follow the grammar at this position.
    ParseError(usize),
    /// A malformed escape in a string or an IRI at this position.
    EscapeError(usize),
    /// A prefixed name at this position uses an undeclared prefix.
    UnknownPrefix(usize),
    /// The base IRI is not absolute.
    InvalidBase,
    Custom(&'static str),
}

/// A resolved term.
pub enum Term {
    Iri(Vec<char>),
    Blank(usize),
    /// lexical form, datatype, language tag
    Literal(Vec<char>, Vec<char>, Option<Vec<char>>),
}

/// A term in subject position. The parse never makes a triple whose subject
/// is a literal (the invariant of its state); the literal arm only keeps the
/// function total.
pub open spec fn term_subject_view(t: Term) -> SubjectView {
    match t {
        Term::Blank(b) => SubjectView::Blank((b, 0usize)),
        Term::Iri(i) => SubjectView::Iri(i@),
        Term::Literal(l, _, _) => SubjectView::Iri(l@),
    }
}

pub open spec fn term_object_view(t: Term) -> ObjectView {
    match t {
        Term::Iri(i) => ObjectView::Iri(i@),
        Term::Blank(b) => ObjectView::Blank((b, 0usize)),
        Term::Literal(l, d, lang) => ObjectView::Literal(LiteralView {
            lexical: l@,
            datatype: d@,
            language: match lang {
                Some(x) => Some(x@),
                None => None,
            },
        }),
    }
}

pub struct ParsedTriple {
    pub subject: Term,
    pub predicate: Vec<char>,
    pub object: Term,
}

fn copy_term(t: &Term) -> (r: Term)
    ensures
        term_object_view(r) == term_object_view(*t),
        term_subject_view(r) == term_subject_view(*t),
{
    match t {
        Term::Iri(i) => Term::Iri(copy_chars(i)),
        Term::Blank(b) => Term::Blank(*b),
        Term::Literal(l, d, lang) => Term::Literal(copy_chars(l), copy_chars(d), match lang {
            Some(x) => Some(copy_chars(x)),
            None => None,
        }),
    }
}

/// The blank node of the first entry for `l` at or after `i`.
pub open spec fn label_lookup(t: Seq<(Seq<char>, usize)>, l: Seq<char>, i: int) -> Option<usize>
    decreases t.len() - i,
{
    if i < 0 || i >= t.len() {
        None
    } else if t[i].0 == l {
        Some(t[i].1)
    } else {
        label_lookup(t, l, i + 1)
    }
}

/// The blank node of the label `l`: the one it named before, or the next
/// fresh one; with the labels and the next id after.
pub open spec fn label_spec(t: Seq<(Seq<char>, usize)>, next: usize, l: Seq<char>) -> Result<(usize, Seq<(Seq<char>, usize)>, usize), Error> {
    match label_lookup(t, l, 0) {
        Some(b) => Ok((b, t, next)),
        None => if next == usize::MAX {
            Err(Error::Custom("too many blank nodes"))
        } else {
            Ok((next, t.push((l, next)), (next + 1) as usize))
        },
    }
}

/// Blank nodes of one parse: labelled ones share an id for the whole parse,
/// anonymous ones get fresh ids.
pub struct BlankNodes {
    labels: Vec<(Vec<char>, usize)>,
    next_blank: usize,
}

impl BlankNodes {
    pub closed spec fn wf(&self) -> bool {
        &&& forall|i: int, j: int| 0 <= i < j < self.labels@.len() ==> self.labels@[i].0@ != self.labels@[j].0@
        &&& forall|i: int| 0 <= i < self.labels@.len() ==> (#[trigger] self.labels@[i]).1 < self.next_blank
    }

    /// The label `l` names the blank node `id`.
    pub closed spec fn has(&self, l: Seq<char>, id: usize) -> bool {
        exists|i: int| 0 <= i < self.labels@.len() && self.labels@[i].0@ == l && self.labels@[i].1 == id
    }

    /// The id the next fresh blank node gets.
    pub closed spec fn next(&self) -> usize {
        self.next_blank
    }

    /// The labels met so far with their blank nodes, in order.
    pub closed spec fn labels(&self) -> Seq<(Seq<char>, usize)> {
        self.labels@.map_values(|e: (Vec<char>, usize)| (e.0@, e.1))
    }

    pub open spec fn keeps(&self, old: &BlankNodes) -> bool {
        &&& self.wf()
        &&& old.next() <= self.next()
        &&& forall|l: Seq<char>, id: usize| #[trigger] old.has(l, id) ==> self.has(l, id)
    }

    pub fn new() -> (r: BlankNodes)
        ensures
            r.wf(),
            r.next() == 0,
            forall|l: Seq<char>, id: usize| !r.has(l, id),
            r.labels() == Seq::<(Seq<char>, usize)>::empty(),
    {
        let r = BlankNodes { labels: Vec::new(), next_blank: 0 };
        assert(r.labels() =~= Seq::<(Seq<char>, usize)>::empty());
        r
    }

    /// A label names one blank node.
    pub proof fn lemma_label_unique(&self, l: Seq<char>, a: usize, b: usize)
        requires
            self.wf(),
            self.has(l, a),
            self.has(l, b),
        ensures
            a == b,
    {
    }

    /// Every named blank node is below `next`.
    pub proof fn lemma_below_next(&self, l: Seq<char>, a: usize)
        requires
            self.wf(),
            self.has(l, a),
        ensures
            a < self.next(),
    {
        let i = choose|i: int| 0 <= i < self.labels@.len() && self.labels@[i].0@ == l && self.labels@[i].1 == a;
        assert(self.labels@[i].1 < self.next_blank);
    }

    /// A fresh blank node.
    pub fn new_blank(&mut self) -> (r: Result<usize, Error>)
        requires
            old(self).wf(),
        ensures
            final(self).keeps(old(self)),
            match r {
                Ok(b) => b == old(self).next() && final(self).next() == old(self).next() + 1,
                Err(e) => e == Error::Custom("too many blank nodes") && old(self).next() == usize::MAX,
            },
            final(self).labels() == old(self).labels(),
    {
        if self.next_blank == usize::MAX {
            return Err(Error::Custom("too many blank nodes"));
        }
        let b = self.next_blank;
        let ghost o = *self;
        self.next_blank = self.next_blank + 1;
        proof {
            assert forall|l: Seq<char>, id: usize| #[trigger] o.has(l, id) implies self.has(l, id) by {
                let k = choose|k: int| 0 <= k < o.labels@.len() && o.labels@[k].0@ == l && o.labels@[k].1 == id;
                assert(self.labels@[k] == o.labels@[k]);
            }
        }
        Ok(b)
    }

    /// The blank node of a label: the one it named before, or a fresh one.
    pub fn get_blank(&mut self, label: &Vec<char>) -> (r: Result<usize, Error>)
        requires
            old(self).wf(),
        ensures
            final(self).keeps(old(self)),
            match r {
                Ok(b) => label_spec(old(self).labels(), old(self).next(), label@) == Ok::<(usize, Seq<(Seq<char>, usize)>, usize), Error>((b, final(self).labels(), final(self).next())),
                Err(e) => label_spec(old(self).labels(), old(self).next(), label@) == Err::<(usize, Seq<(Seq<char>, usize)>, usize), Error>(e),
            },
            match r {
                Ok(b) => {
                    &&& final(self).has(label@, b)
                    &&& (forall|x: usize| old(self).has(label@, x) ==> x == b)
                    &&& ((forall|x: usize| !old(self).has(label@, x)) ==> b == old(self).next() && final(self).next() == old(self).next() + 1)
                },
                Err(_) => old(self).next() == usize::MAX,
            },
    {
        let mut i: usize = 0;
        while i < self.labels.len()
            invariant
                self.wf(),
                self == old(self),
                i <= self.labels@.len(),
                forall|k: int| 0 <= k < i ==> self.labels@[k].0@ != label@,
                label_lookup(self.labels(), label@, 0) == label_lookup(self.labels(), label@, i as int),
            decreases self.labels@.len() - i,
        {
            if chars_eq(&self.labels[i].0, label) {
                let b = self.labels[i].1;
                assert(self.has(label@, b));
                return Ok(b);
            }
            i += 1;
        }
        if self.next_blank == usize::MAX {
            return Err(Error::Custom("too many blank nodes"));
        }
        let b = self.next_blank;
        let ghost o = *self;
        self.labels.push((copy_chars(label), b));
        self.next_blank = self.next_blank + 1;
        proof {
            assert(self.labels() =~= o.labels().push((label@, b)));
            assert(self.labels@[o.labels@.len() as int].0@ == label@);
            assert(self.has(label@, b));
            assert forall|l: Seq<char>, id: usize| #[trigger] o.has(l, id) implies self.has(l, id) by {
                let k = choose|k: int| 0 <= k < o.labels@.len() && o.labels@[k].0@ == l && o.labels@[k].1 == id;
                assert(self.labels@[k] == o.labels@[k]);
            }
            assert forall|k: int| 0 <= k < self.labels@.len() implies (#[trigger] self.labels@[k]).1 < self.next_blank by {
                if k < o.labels@.len() {
                    assert(self.labels@[k] == o.labels@[k]);
                }
            }
            assert forall|x: int, y: int| 0 <= x < y < self.labels@.len() implies self.labels@[x].0@ != self.labels@[y].0@ by {
                if y < o.labels@.len() {
                    assert(self.labels@[x] == o.labels@[x]);
                    assert(self.labels@[y] == o.labels@[y]);
                } else {
                    assert(self.labels@[x] == o.labels@[x]);
                }
            }
        }
        Ok(b)
    }
}

/// What a parse has gathered: the base, the prefixes, the blank nodes and the
/// triples made so far.
struct ParseState {
    base: Vec<char>,
    prefixes: Vec<(Vec<char>, Vec<char>)>,
    blank_nodes: BlankNodes,
    triples: Vec<ParsedTriple>,
}

impl ParseState {
    spec fn wf(&self) -> bool {
        &&& self.blank_nodes.wf()
        &&& forall|i: int| 0 <= i < self.triples@.len() ==> !((#[trigger] self.triples@[i]).subject is Literal)
    }

    spec fn grows(&self, old: &ParseState) -> bool {
        &&& self.wf()
        &&& self.blank_nodes.keeps(&old.blank_nodes)
    }

    spec fn view(&self) -> Seq<TripleView> {
        self.triples@.map_values(|t: ParsedTriple| t.view())
    }

    spec fn pv(&self) -> PView {
        PView {
            base: self.base@,
            prefixes: table_view(self.prefixes@),
            labels: self.blank_nodes.labels(),
            next: self.blank_nodes.next(),
            triples: self.view(),
        }
    }

    fn emit(&mut self, subject: &Term, predicate: &Vec<char>, object: Term)
        requires
            old(self).wf(),
            !(*subject is Literal),
        ensures
            final(self).grows(old(self)),
            final(self).view() == old(self).view().push(TripleView {
                subject: term_subject_view(*subject),
                predicate: predicate@,
                object: term_object_view(object),
            }),
            final(self).blank_nodes == old(self).blank_nodes,
            final(self).base == old(self).base,
            final(self).prefixes == old(self).prefixes,
            final(self).pv() == emit_spec(old(self).pv(), term_subject_view(*subject), predicate@, term_object_view(object)),
    {
        let ghost before = self.view();
        let t = ParsedTriple { subject: copy_term(subject), predicate: copy_chars(predicate), object };
        self.triples.push(t);
        assert(self.view() =~= before.push(t.view()));
        assert forall|i: int| 0 <= i < self.triples@.len() implies !((#[trigger] self.triples@[i]).subject is Literal) by {
            if i < self.triples@.len() - 1 {
                assert(self.triples@[i] == old(self).triples@[i]);
            }
        }
    }
}

/// Positions a few characters past the end of the text still fit in `usize`.
pub open spec fn short(s: Seq<char>) -> bool {
    s.len() + 16 < usize::MAX
}

fn chars_of(s: &str) -> (r: Vec<char>)
    ensures
        r@ == s@,
{
    str_chars(s)
}

fn at(s: &Vec<char>, i: usize, c: char) -> (r: bool)
    ensures
        r == (i < s@.len() && s@[i as int] == c),
{
    i < s.len() && s[i] == c
}

fn is_ws(c: char) -> (r: bool)
    ensures
        r == is_ws_char(c),
{
    c == ' ' || c == '\t' || c == '\n' || c == '\r'
}

pub open spec fn digit_char(c: char) -> bool {
    '0' <= c && c <= '9'
}

pub open spec fn alpha_char(c: char) -> bool {
    ('a' <= c && c <= 'z') || ('A' <= c && c <= 'Z')
}

pub open spec fn char_in(c: char, lo: char, hi: char) -> bool {
    lo <= c && c <= hi
}

/// PN_CHARS_BASE of the Turtle grammar.
pub open spec fn pn_base_char(c: char) -> bool {
    alpha_char(c) || char_in(c, '\u{C0}', '\u{D6}') || char_in(c, '\u{D8}', '\u{F6}') || char_in(c, '\u{F8}', '\u{2FF}')
        || char_in(c, '\u{370}', '\u{37D}') || char_in(c, '\u{37F}', '\u{1FFF}') || char_in(c, '\u{200C}', '\u{200D}')
        || char_in(c, '\u{2070}', '\u{218F}') || char_in(c, '\u{2C00}', '\u{2FEF}') || char_in(c, '\u{3001}', '\u{D7FF}')
        || char_in(c, '\u{F900}', '\u{FDCF}') || char_in(c, '\u{FDF0}', '\u{FFFD}') || char_in(c, '\u{10000}', '\u{EFFFF}')
}

/// PN_CHARS_U of the Turtle grammar.
pub open spec fn pn_u_char(c: char) -> bool {
    pn_base_char(c) || c == '_'
}

/// PN_CHARS of the Turtle grammar.
pub open spec fn pn_char(c: char) -> bool {
    pn_u_char(c) || c == '-' || digit_char(c) || c == '\u{B7}' || char_in(c, '\u{300}', '\u{36F}') || char_in(c, '\u{203F}', '\u{2040}')
}

/// A character that a backslash may escape in a local name.
pub open spec fn local_escape_char(c: char) -> bool {
    c == '_' || c == '~' || c == '.' || c == '-' || c == '!' || c == '$' || c == '&' || c == '\'' || c == '(' || c == ')'
        || c == '*' || c == '+' || c == ',' || c == ';' || c == '=' || c == '/' || c == '?' || c == '#' || c == '@'
        || c == '%'
}

fn is_digit(c: char) -> (r: bool)
    ensures
        r == digit_char(c),
{
    '0' <= c && c <= '9'
}

fn is_alpha(c: char) -> (r: bool)
    ensures
        r == alpha_char(c),
{
    ('a' <= c && c <= 'z') || ('A' <= c && c <= 'Z')
}

fn in_range(c: char, lo: char, hi: char) -> (r: bool)
    ensures
        r == char_in(c, lo, hi),
{
    lo <= c && c <= hi
}

fn is_pn_chars_base(c: char) -> (r: bool)
    ensures
        r == pn_base_char(c),
{
    is_alpha(c) || in_range(c, '\u{C0}', '\u{D6}') || in_range(c, '\u{D8}', '\u{F6}') || in_range(c, '\u{F8}', '\u{2FF}')
        || in_range(c, '\u{370}', '\u{37D}') || in_range(c, '\u{37F}', '\u{1FFF}') || in_range(c, '\u{200C}', '\u{200D}')
        || in_range(c, '\u{2070}', '\u{218F}') || in_range(c, '\u{2C00}', '\u{2FEF}') || in_range(c, '\u{3001}', '\u{D7FF}')
        || in_range(c, '\u{F900}', '\u{FDCF}') || in_range(c, '\u{FDF0}', '\u{FFFD}') || in_range(c, '\u{10000}', '\u{EFFFF}')
}

fn is_pn_chars_u(c: char) -> (r: bool)
    ensures
        r == pn_u_char(c),
{
    is_pn_chars_base(c) || c == '_'
}

fn is_pn_chars(c: char) -> (r: bool)
    ensures
        r == pn_char(c),
{
    is_pn_chars_u(c) || c == '-' || is_digit(c) || c == '\u{B7}' || in_range(c, '\u{300}', '\u{36F}') || in_range(c, '\u{203F}', '\u{2040}')
}

fn is_local_escape(c: char) -> (r: bool)
    ensures
        r == local_escape_char(c),
{
    c == '_' || c == '~' || c == '.' || c == '-' || c == '!' || c == '$' || c == '&' || c == '\'' || c == '(' || c == ')'
        || c == '*' || c == '+' || c == ',' || c == ';' || c == '=' || c == '/' || c == '?' || c == '#' || c == '@'
        || c == '%'
}

/// The value of a hexadecimal digit.
pub open spec fn hex_digit(c: char) -> Option<u32> {
    if '0' <= c && c <= '9' {
        Some((c as u32 - '0' as u32) as u32)
    } else if 'a' <= c && c <= 'f' {
        Some((c as u32 - 'a' as u32 + 10) as u32)
    } else if 'A' <= c && c <= 'F' {
        Some((c as u32 - 'A' as u32 + 10) as u32)
    } else {
        None
    }
}

fn hex_value(c: char) -> (r: Option<u32>)
    ensures
        r == hex_digit(c),
        r matches Some(v) ==> v < 16,
{
    if '0' <= c && c <= '9' {
        Some((c as u32) - ('0' as u32))
    } else if 'a' <= c && c <= 'f' {
        Some((c as u32) - ('a' as u32) + 10)
    } else if 'A' <= c && c <= 'F' {
        Some((c as u32) - ('A' as u32) + 10)
    } else {
        None
    }
}

/// Relies on `char::from_u32`: the character of a Unicode scalar value, and
/// `None` for any other number.
#[verifier::external_body]
fn char_from_u32(x: u32) -> (r: Option<char>)
    ensures
        r is Some <==> (x < 0xD800 || (0xE000 <= x && x <= 0x10FFFF)),
        r matches Some(c) ==> c as int == x as int,
{
    char::from_u32(x)
}

pub open spec fn is_ws_char(c: char) -> bool {
    c == ' ' || c == '\t' || c == '\n' || c == '\r'
}

/// Where white space and comments that start at `i` end.
pub open spec fn skip_ws_spec(s: Seq<char>, i: int) -> int
    decreases s.len() - i, 1nat,
{
    if i < 0 || i >= s.len() {
        i
    } else if is_ws_char(s[i]) {
        skip_ws_spec(s, i + 1)
    } else if s[i] == '#' {
        skip_comment_spec(s, i + 1)
    } else {
        i
    }
}

/// Where the rest of a comment, from `i` on, and the white space and comments
/// after it end.
pub open spec fn skip_comment_spec(s: Seq<char>, i: int) -> int
    decreases s.len() - i, 0nat,
{
    if i < 0 || i >= s.len() {
        i
    } else if s[i] == '\n' {
        skip_ws_spec(s, i + 1)
    } else {
        skip_comment_spec(s, i + 1)
    }
}

/// Skips white space and comments.
fn skip_ws(s: &Vec<char>, pos: usize) -> (r: usize)
    requires
        short(s@),
        pos <= s@.len(),
    ensures
        pos <= r <= s@.len(),
        r == skip_ws_spec(s@, pos as int),
{
    let mut i: usize = pos;
    while i < s.len()
        invariant
            short(s@),
            pos <= i <= s@.len(),
            skip_ws_spec(s@, pos as int) == skip_ws_spec(s@, i as int),
        decreases s@.len() - i,
    {
        let c = s[i];
        if is_ws(c) {
            i += 1;
        } else if c == '#' {
            i += 1;
            let ghost start = i;
            while i < s.len() && s[i] != '\n'
                invariant
                    short(s@),
                    pos < start <= i <= s@.len(),
                    skip_ws_spec(s@, pos as int) == skip_comment_spec(s@, i as int),
                decreases s@.len() - i,
            {
                i += 1;
            }
        } else {
            return i;
        }
    }
    i
}

/// The value of the hex digits `s[start + i..start + n]`, read after the value
/// `v` of those before; `None` on a non-digit, or where the value would leave
/// 32 bits.
pub open spec fn hex_from(s: Seq<char>, start: int, n: int, i: int, v: u32) -> Option<u32>
    decreases n - i,
{
    if i >= n {
        Some(v)
    } else {
        match hex_digit(s[start + i]) {
            Some(d) => if v > 0x0FFF_FFFF {
                None
            } else {
                hex_from(s, start, n, i + 1, (v * 16 + d) as u32)
            },
            None => None,
        }
    }
}

/// A Unicode scalar value.
pub open spec fn is_scalar(x: u32) -> bool {
    x < 0xD800 || (0xE000 <= x && x <= 0x10FFFF)
}

/// The code point of a character.
pub open spec fn code_of(c: char) -> int {
    c as int
}

/// The character whose code is `x`.
pub open spec fn char_of(x: u32) -> char {
    choose|c: char| code_of(c) == x as int
}

/// A `\uXXXX` or `\UXXXXXXXX` escape whose backslash is at `pos`: the
/// character, and the position after the escape.
pub open spec fn uchar_spec(s: Seq<char>, pos: int) -> Result<(char, int), Error> {
    let n: int = if pos + 1 < s.len() && s[pos + 1] == 'u' {
        4
    } else if pos + 1 < s.len() && s[pos + 1] == 'U' {
        8
    } else {
        0
    };
    if n == 0 || pos + 2 + n > s.len() {
        Err(Error::EscapeError(pos as usize))
    } else {
        match hex_from(s, pos + 2, n, 0, 0) {
            Some(v) => if is_scalar(v) {
                Ok((char_of(v), pos + 2 + n))
            } else {
                Err(Error::EscapeError(pos as usize))
            },
            None => Err(Error::EscapeError(pos as usize)),
        }
    }
}

/// The character of a `\u` or `\U` escape whose backslash is at `pos`.
fn parse_uchar(s: &Vec<char>, pos: usize) -> (r: Result<(char, usize), Error>)
    requires
        short(s@),
        pos < s@.len(),
    ensures
        r matches Ok(p) ==> pos < p.1 <= s@.len(),
        uchar_spec(s@, pos as int) == match r {
            Ok(p) => Ok((p.0, p.1 as int)),
            Err(e) => Err::<(char, int), Error>(e),
        },
{
    let n: usize = if at(s, pos + 1, 'u') {
        4
    } else if at(s, pos + 1, 'U') {
        8
    } else {
        return Err(Error::EscapeError(pos));
    };
    if pos + 2 + n > s.len() {
        return Err(Error::EscapeError(pos));
    }
    let mut v: u32 = 0;
    let mut i: usize = 0;
    while i < n
        invariant
            short(s@),
            pos + 2 + n <= s@.len(),
            i <= n,
            n == 4 || n == 8,
            n == 4 <==> s@[pos + 1] == 'u',
            hex_from(s@, pos + 2, n as int, 0, 0) == hex_from(s@, pos + 2, n as int, i as int, v),
        decreases n - i,
    {
        match hex_value(s[pos + 2 + i]) {
            Some(d) => {
                if v > 0x0FFF_FFFF {
                    return Err(Error::EscapeError(pos));
                }
                v = v * 16 + d;
            },
            None => {
                return Err(Error::EscapeError(pos));
            },
        }
        i += 1;
    }
    match char_from_u32(v) {
        Some(c) => {
            assert(code_of(c) == v as int);
            Ok((c, pos + 2 + n))
        },
        None => Err(Error::EscapeError(pos)),
    }
}

/// A scanner's result as values.
pub open spec fn chars_result(r: Result<(Vec<char>, usize), Error>) -> Result<(Seq<char>, int), Error> {
    match r {
        Ok(p) => Ok((p.0@, p.1 as int)),
        Err(e) => Err(e),
    }
}

/// A character that cannot stand in an IRI reference.
pub open spec fn iri_forbidden(c: char) -> bool {
    c <= ' ' || c == '<' || c == '"' || c == '{' || c == '}' || c == '|' || c == '^' || c == '`'
}

/// The rest of an IRI reference from `i`, after the characters `out`.
pub open spec fn iriref_from(s: Seq<char>, i: int, out: Seq<char>) -> Result<(Seq<char>, int), Error>
    decreases s.len() - i,
{
    if i < 0 || i >= s.len() {
        Err(Error::ParseError(i as usize))
    } else if s[i] == '>' {
        Ok((out, i + 1))
    } else if s[i] == '\\' {
        match uchar_spec(s, i) {
            Ok(u) => if u.1 > i {
                iriref_from(s, u.1, out.push(u.0))
            } else {
                Err(Error::EscapeError(i as usize))
            },
            Err(e) => Err(e),
        }
    } else if iri_forbidden(s[i]) {
        Err(Error::ParseError(i as usize))
    } else {
        iriref_from(s, i + 1, out.push(s[i]))
    }
}

/// An IRI reference `<...>` at `pos`: its characters with `\u` escapes
/// decoded, and the position after the `>`.
pub open spec fn iriref_spec(s: Seq<char>, pos: int) -> Result<(Seq<char>, int), Error> {
    if s[pos] != '<' {
        Err(Error::ParseError(pos as usize))
    } else {
        iriref_from(s, pos + 1, Seq::empty())
    }
}

/// An IRI reference `<...>` starting at `pos`, unescaped but not resolved.
fn parse_iriref(s: &Vec<char>, pos: usize) -> (r: Result<(Vec<char>, usize), Error>)
    requires
        short(s@),
        pos < s@.len(),
    ensures
        r matches Ok(p) ==> pos < p.1 <= s@.len(),
        chars_result(r) == iriref_spec(s@, pos as int),
{
    if s[pos] != '<' {
        return Err(Error::ParseError(pos));
    }
    let mut out: Vec<char> = Vec::new();
    let mut i: usize = pos + 1;
    assert(out@ == Seq::<char>::empty());
    while i < s.len()
        invariant
            short(s@),
            pos < i <= s@.len(),
            s@[pos as int] == '<',
            iriref_spec(s@, pos as int) == iriref_from(s@, i as int, out@),
        decreases s@.len() - i,
    {
        let c = s[i];
        if c == '>' {
            return Ok((out, i + 1));
        } else if c == '\\' {
            let (u, next) = parse_uchar(s, i)?;
            out.push(u);
            i = next;
        } else if c <= ' ' || c == '<' || c == '"' || c == '{' || c == '}' || c == '|' || c == '^' || c == '`' {
            return Err(Error::ParseError(i));
        } else {
            out.push(c);
            i += 1;
        }
    }
    Err(Error::ParseError(i))
}

/// The prefix `p` is declared with namespace `ns`.
spec fn declares(table: Seq<(Vec<char>, Vec<char>)>, p: Seq<char>, ns: Seq<char>) -> bool {
    exists|i: int| 0 <= i < table.len() && table[i].0@ == p && table[i].1@ == ns
}

/// A prefix table as values.
pub open spec fn table_view(t: Seq<(Vec<char>, Vec<char>)>) -> Seq<(Seq<char>, Seq<char>)> {
    t.map_values(|e: (Vec<char>, Vec<char>)| (e.0@, e.1@))
}

/// The namespace of the first entry for `p` at or after `i`.
pub open spec fn lookup_from(t: Seq<(Seq<char>, Seq<char>)>, p: Seq<char>, i: int) -> Option<Seq<char>>
    decreases t.len() - i,
{
    if i < 0 || i >= t.len() {
        None
    } else if t[i].0 == p {
        Some(t[i].1)
    } else {
        lookup_from(t, p, i + 1)
    }
}

/// The namespace of a prefix.
fn find_prefix(st: &ParseState, prefix: &Vec<char>) -> (r: Option<Vec<char>>)
    ensures
        match r {
            Some(ns) => lookup_from(table_view(st.prefixes@), prefix@, 0) == Some(ns@),
            None => lookup_from(table_view(st.prefixes@), prefix@, 0) is None,
        },
        match r {
            Some(ns) => declares(st.prefixes@, prefix@, ns@),
            None => forall|i: int| 0 <= i < st.prefixes@.len() ==> (#[trigger] st.prefixes@[i]).0@ != prefix@,
        },
{
    let mut i: usize = 0;
    while i < st.prefixes.len()
        invariant
            i <= st.prefixes@.len(),
            forall|k: int| 0 <= k < i ==> (#[trigger] st.prefixes@[k]).0@ != prefix@,
            lookup_from(table_view(st.prefixes@), prefix@, 0) == lookup_from(table_view(st.prefixes@), prefix@, i as int),
        decreases st.prefixes@.len() - i,
    {
        if chars_eq(&st.prefixes[i].0, prefix) {
            let ns = copy_chars(&st.prefixes[i].1);
            assert(declares(st.prefixes@, prefix@, ns@));
            return Some(ns);
        }
        i += 1;
    }
    None
}

/// Declares or redeclares a prefix.
fn set_prefix(st: &mut ParseState, prefix: Vec<char>, value: Vec<char>)
    requires
        old(st).wf(),
    ensures
        final(st).wf(),
        final(st).blank_nodes == old(st).blank_nodes,
        declares(final(st).prefixes@, prefix@, value@),
        table_view(final(st).prefixes@) == set_prefix_spec(table_view(old(st).prefixes@), prefix@, value@),
        final(st).base == old(st).base,
        final(st).triples == old(st).triples,
{
    let ghost pv = prefix@;
    let ghost vv = value@;
    let mut i: usize = 0;
    while i < st.prefixes.len()
        invariant
            st.wf(),
            st.blank_nodes == old(st).blank_nodes,
            pv == prefix@,
            vv == value@,
            st.prefixes == old(st).prefixes,
            st.base == old(st).base,
            st.triples == old(st).triples,
            prefix_index(table_view(st.prefixes@), pv, 0) == prefix_index(table_view(st.prefixes@), pv, i as int),
            i <= st.prefixes@.len(),
        decreases st.prefixes@.len() - i,
    {
        if chars_eq(&st.prefixes[i].0, &prefix) {
            st.prefixes.set(i, (prefix, value));
            assert(st.prefixes@[i as int].0@ == pv && st.prefixes@[i as int].1@ == vv);
            assert(table_view(st.prefixes@) =~= table_view(old(st).prefixes@).update(i as int, (pv, vv)));
            return;
        }
        i += 1;
    }
    st.prefixes.push((prefix, value));
    assert(st.prefixes@[st.prefixes@.len() - 1].0@ == pv && st.prefixes@[st.prefixes@.len() - 1].1@ == vv);
    assert(table_view(st.prefixes@) =~= table_view(old(st).prefixes@).push((pv, vv)));
}

/// Where a run of name characters and dots that starts at `i` ends.
pub open spec fn prefix_run(s: Seq<char>, i: int) -> int
    decreases s.len() - i,
{
    if 0 <= i < s.len() && (pn_char(s[i]) || s[i] == '.') {
        prefix_run(s, i + 1)
    } else {
        i
    }
}

/// A prefix name and its colon at `pos`: the name, and the position after
/// the colon.
pub open spec fn pname_ns_spec(s: Seq<char>, pos: int) -> Result<(Seq<char>, int), Error> {
    let e = if pos < s.len() && pn_base_char(s[pos]) {
        prefix_run(s, pos)
    } else {
        pos
    };
    let name = s.subrange(pos, e);
    if !(e < s.len() && s[e] == ':') || (name.len() > 0 && name.last() == '.') {
        Err(Error::ParseError(e as usize))
    } else {
        Ok((name, e + 1))
    }
}

/// A prefix name and its colon, starting at `pos`: the name, and the
/// position after the colon.
fn parse_pname_ns(s: &Vec<char>, pos: usize) -> (r: Result<(Vec<char>, usize), Error>)
    requires
        short(s@),
        pos <= s@.len(),
    ensures
        r matches Ok(p) ==> pos < p.1 <= s@.len(),
        chars_result(r) == pname_ns_spec(s@, pos as int),
{
    let mut prefix: Vec<char> = Vec::new();
    let mut i: usize = pos;
    if i < s.len() && is_pn_chars_base(s[i]) {
        while i < s.len() && (is_pn_chars(s[i]) || s[i] == '.')
            invariant
                short(s@),
                pos <= i <= s@.len(),
                prefix@ == s@.subrange(pos as int, i as int),
                prefix_run(s@, pos as int) == prefix_run(s@, i as int),
            decreases s@.len() - i,
        {
            prefix.push(s[i]);
            i += 1;
            assert(prefix@ =~= s@.subrange(pos as int, i as int));
        }
    } else {
        assert(prefix@ =~= s@.subrange(pos as int, i as int));
    }
    if !at(s, i, ':') || (prefix.len() > 0 && prefix[prefix.len() - 1] == '.') {
        return Err(Error::ParseError(i));
    }
    Ok((prefix, i + 1))
}

/// The rest of a name from `i`, after the characters `out`; `good_len` and
/// `good_pos` mark where the name ends if the dots read since are dropped.
pub open spec fn name_from(s: Seq<char>, pos: int, local: bool, i: int, out: Seq<char>, good_len: int, good_pos: int) -> Result<(Seq<char>, int), Error>
    decreases s.len() - i,
{
    if i < 0 || i >= s.len() {
        Ok((out.subrange(0, good_len), good_pos))
    } else {
        let c = s[i];
        let first = i == pos;
        if local && c == '\\' {
            if i + 1 < s.len() && local_escape_char(s[i + 1]) {
                name_from(s, pos, local, i + 2, out.push(s[i + 1]), out.len() + 1 as int, i + 2)
            } else {
                Err(Error::EscapeError(i as usize))
            }
        } else if local && c == '%' {
            if i + 2 < s.len() && hex_digit(s[i + 1]) is Some && hex_digit(s[i + 2]) is Some {
                name_from(s, pos, local, i + 3, out.push('%').push(s[i + 1]).push(s[i + 2]), out.len() + 3 as int, i + 3)
            } else {
                Err(Error::EscapeError(i as usize))
            }
        } else if (first && (pn_u_char(c) || digit_char(c) || (local && c == ':'))) || (!first && (pn_char(c) || (local
            && c == ':'))) {
            name_from(s, pos, local, i + 1, out.push(c), out.len() + 1 as int, i + 1)
        } else if !first && c == '.' {
            name_from(s, pos, local, i + 1, out.push(c), good_len, good_pos)
        } else {
            Ok((out.subrange(0, good_len), good_pos))
        }
    }
}

/// A name at `pos`: a name character, digit or (in a local name) colon
/// first, then name characters, colons and dots, not ending in a dot. In a
/// local name, `\\` escapes a punctuation character and `%XX` stands as
/// written.
pub open spec fn name_spec(s: Seq<char>, pos: int, local: bool) -> Result<(Seq<char>, int), Error> {
    name_from(s, pos, local, pos, Seq::empty(), 0, pos)
}

/// A name made of `first` then name characters and dots, not ending in a dot,
/// starting at `pos`. Local-name escapes and percent codes are allowed where
/// `local` holds.
fn parse_name_chars(s: &Vec<char>, pos: usize, local: bool) -> (r: Result<(Vec<char>, usize), Error>)
    requires
        short(s@),
        pos <= s@.len(),
    ensures
        r matches Ok(p) ==> pos <= p.1 <= s@.len(),
        chars_result(r) == name_spec(s@, pos as int, local),
{
    let mut out: Vec<char> = Vec::new();
    let mut i: usize = pos;
    let mut good_len: usize = 0;
    let mut good_pos: usize = pos;
    let mut stop = false;
    assert(out@ == Seq::<char>::empty());
    while i < s.len() && !stop
        invariant
            short(s@),
            pos <= i <= s@.len(),
            pos <= good_pos <= i,
            good_len <= out@.len(),
            stop ==> name_spec(s@, pos as int, local) == Ok::<(Seq<char>, int), Error>((out@.subrange(0, good_len as int), good_pos as int)),
            !stop ==> name_spec(s@, pos as int, local) == name_from(s@, pos as int, local, i as int, out@, good_len as int, good_pos as int),
        decreases s@.len() - i, if stop { 0nat } else { 1nat },
    {
        let c = s[i];
        let first = i == pos;
        if local && c == '\\' {
            if i + 1 < s.len() && is_local_escape(s[i + 1]) {
                out.push(s[i + 1]);
                i += 2;
                good_len = out.len();
                good_pos = i;
            } else {
                return Err(Error::EscapeError(i));
            }
        } else if local && c == '%' {
            if i + 2 < s.len() && hex_value(s[i + 1]).is_some() && hex_value(s[i + 2]).is_some() {
                out.push('%');
                out.push(s[i + 1]);
                out.push(s[i + 2]);
                i += 3;
                good_len = out.len();
                good_pos = i;
            } else {
                return Err(Error::EscapeError(i));
            }
        } else if (first && (is_pn_chars_u(c) || is_digit(c) || (local && c == ':'))) || (!first && (is_pn_chars(c)
            || (local && c == ':'))) {
            out.push(c);
            i += 1;
            good_len = out.len();
            good_pos = i;
        } else if !first && c == '.' {
            out.push(c);
            i += 1;
        } else {
            stop = true;
        }
    }
    let name = crate::iri::prefix_chars(&out, good_len);
    Ok((name, good_pos))
}

/// A prefixed name at `pos`: the namespace of its prefix followed by its
/// local part, or `UnknownPrefix` where the prefix was never declared.
pub open spec fn pname_spec(s: Seq<char>, pos: int, table: Seq<(Seq<char>, Seq<char>)>) -> Result<(Seq<char>, int), Error> {
    match pname_ns_spec(s, pos) {
        Err(e) => Err(e),
        Ok(a) => match name_spec(s, a.1, true) {
            Err(e) => Err(e),
            Ok(b) => match lookup_from(table, a.0, 0) {
                Some(ns) => Ok((ns + b.0, b.1)),
                None => Err(Error::UnknownPrefix(pos as usize)),
            },
        },
    }
}

/// An IRI at `pos`: an IRI reference resolved against `base`, or a prefixed
/// name.
pub open spec fn iri_spec(s: Seq<char>, pos: int, base: Seq<char>, table: Seq<(Seq<char>, Seq<char>)>) -> Result<(Seq<char>, int), Error> {
    if s[pos] == '<' {
        match iriref_spec(s, pos) {
            Ok(a) => Ok((join_iri_spec(base, a.0), a.1)),
            Err(e) => Err(e),
        }
    } else {
        pname_spec(s, pos, table)
    }
}

/// A prefixed name starting at `pos`, expanded with its namespace.
fn parse_pname(s: &Vec<char>, pos: usize, st: &ParseState) -> (r: Result<(Vec<char>, usize), Error>)
    requires
        short(s@),
        pos <= s@.len(),
    ensures
        r matches Ok(p) ==> pos < p.1 <= s@.len(),
        chars_result(r) == pname_spec(s@, pos as int, table_view(st.prefixes@)),
{
    let (prefix, p) = parse_pname_ns(s, pos)?;
    let (local, q) = parse_name_chars(s, p, true)?;
    match find_prefix(st, &prefix) {
        Some(ns) => Ok((concat_chars(&ns, &local), q)),
        None => Err(Error::UnknownPrefix(pos)),
    }
}

/// An IRI, written `<...>` or as a prefixed name, resolved.
fn parse_iri(s: &Vec<char>, pos: usize, st: &ParseState) -> (r: Result<(Vec<char>, usize), Error>)
    requires
        short(s@),
        pos < s@.len(),
    ensures
        r matches Ok(p) ==> pos < p.1 <= s@.len(),
        chars_result(r) == iri_spec(s@, pos as int, st.base@, table_view(st.prefixes@)),
{
    if s[pos] == '<' {
        let (iri, p) = parse_iriref(s, pos)?;
        Ok((join_iri(&st.base, &iri), p))
    } else {
        parse_pname(s, pos, st)
    }
}

/// The character that `\\e` stands for in a string.
pub open spec fn echar(e: char) -> Option<char> {
    if e == 't' {
        Some('\t')
    } else if e == 'b' {
        Some('\u{8}')
    } else if e == 'n' {
        Some('\n')
    } else if e == 'r' {
        Some('\r')
    } else if e == 'f' {
        Some('\u{c}')
    } else if e == '"' || e == '\'' || e == '\\' {
        Some(e)
    } else {
        None
    }
}

fn escape_char(e: char) -> (r: Option<char>)
    ensures
        r == echar(e),
{
    if e == 't' {
        Some('\t')
    } else if e == 'b' {
        Some('\u{8}')
    } else if e == 'n' {
        Some('\n')
    } else if e == 'r' {
        Some('\r')
    } else if e == 'f' {
        Some('\u{c}')
    } else if e == '"' || e == '\'' || e == '\\' {
        Some(e)
    } else {
        None
    }
}

/// The three characters at `i` are the quote `q`.
pub open spec fn triple_quote(s: Seq<char>, i: int, q: char) -> bool {
    0 <= i && i + 2 < s.len() && s[i] == q && s[i + 1] == q && s[i + 2] == q
}

/// The rest of a string quoted by `q` (three times where `long`) from `i`,
/// after the characters `out`.
pub open spec fn string_from(s: Seq<char>, q: char, long: bool, i: int, out: Seq<char>) -> Result<(Seq<char>, int), Error>
    decreases s.len() - i,
{
    if i < 0 || i >= s.len() {
        Err(Error::ParseError(i as usize))
    } else if s[i] == q {
        if !long {
            Ok((out, i + 1))
        } else if triple_quote(s, i, q) {
            Ok((out, i + 3))
        } else {
            string_from(s, q, long, i + 1, out.push(s[i]))
        }
    } else if s[i] == '\\' {
        if i + 1 >= s.len() {
            Err(Error::EscapeError(i as usize))
        } else if s[i + 1] == 'u' || s[i + 1] == 'U' {
            match uchar_spec(s, i) {
                Ok(u) => if u.1 > i {
                    string_from(s, q, long, u.1, out.push(u.0))
                } else {
                    Err(Error::EscapeError(i as usize))
                },
                Err(e) => Err(e),
            }
        } else {
            match echar(s[i + 1]) {
                Some(x) => string_from(s, q, long, i + 2, out.push(x)),
                None => Err(Error::EscapeError(i as usize)),
            }
        }
    } else if !long && (s[i] == '\n' || s[i] == '\r') {
        Err(Error::ParseError(i as usize))
    } else {
        string_from(s, q, long, i + 1, out.push(s[i]))
    }
}

/// A quoted string at `pos`: its characters with escapes resolved, and the
/// position after the closing quote.
pub open spec fn string_spec(s: Seq<char>, pos: int) -> Result<(Seq<char>, int), Error> {
    let q = s[pos];
    let long = pos + 2 < s.len() && s[pos + 1] == q && s[pos + 2] == q;
    string_from(s, q, long, if long { pos + 3 } else { pos + 1 }, Seq::empty())
}

/// A quoted string starting at `pos`, in any of the four quote styles, with
/// its escapes resolved.
fn parse_string(s: &Vec<char>, pos: usize) -> (r: Result<(Vec<char>, usize), Error>)
    requires
        short(s@),
        pos < s@.len(),
    ensures
        r matches Ok(p) ==> pos < p.1 <= s@.len(),
        chars_result(r) == string_spec(s@, pos as int),
{
    let q = s[pos];
    let long = at(s, pos + 1, q) && at(s, pos + 2, q);
    let mut i: usize = if long { pos + 3 } else { pos + 1 };
    let mut out: Vec<char> = Vec::new();
    assert(out@ == Seq::<char>::empty());
    while i < s.len()
        invariant
            short(s@),
            pos < i <= s@.len(),
            q == s@[pos as int],
            long == (pos + 2 < s@.len() && s@[pos + 1] == q && s@[pos + 2] == q),
            string_spec(s@, pos as int) == string_from(s@, q, long, i as int, out@),
        decreases s@.len() - i,
    {
        let c = s[i];
        if c == q {
            if !long {
                return Ok((out, i + 1));
            }
            if at(s, i + 1, q) && at(s, i + 2, q) {
                return Ok((out, i + 3));
            }
            out.push(c);
            i += 1;
        } else if c == '\\' {
            if i + 1 >= s.len() {
                return Err(Error::EscapeError(i));
            }
            let e = s[i + 1];
            if e == 'u' || e == 'U' {
                let (u, next) = parse_uchar(s, i)?;
                out.push(u);
                i = next;
            } else {
                match escape_char(e) {
                    Some(x) => {
                        out.push(x);
                        i += 2;
                    },
                    None => {
                        return Err(Error::EscapeError(i));
                    },
                }
            }
        } else if !long && (c == '\n' || c == '\r') {
            return Err(Error::ParseError(i));
        } else {
            out.push(c);
            i += 1;
        }
    }
    Err(Error::ParseError(i))
}

/// The ASCII lower case of a character.
pub open spec fn lower_char(c: char) -> char {
    if 'A' <= c && c <= 'Z' {
        ((c as u8) + 32) as char
    } else {
        c
    }
}

/// The ASCII lower case of a text.
pub open spec fn lower(t: Seq<char>) -> Seq<char> {
    Seq::new(t.len(), |i: int| lower_char(t[i]))
}

/// Where a run of letters starting at `i` ends.
pub open spec fn alpha_run(s: Seq<char>, i: int) -> int
    decreases s.len() - i,
{
    if 0 <= i < s.len() && alpha_char(s[i]) {
        alpha_run(s, i + 1)
    } else {
        i
    }
}

/// Where a run of letters and digits starting at `i` ends.
pub open spec fn alnum_run(s: Seq<char>, i: int) -> int
    decreases s.len() - i,
{
    if 0 <= i < s.len() && (alpha_char(s[i]) || digit_char(s[i])) {
        alnum_run(s, i + 1)
    } else {
        i
    }
}

/// Where the subtags `-xx-yy...` of a language tag that start at `i` end.
pub open spec fn subtags_end(s: Seq<char>, i: int) -> int
    decreases s.len() - i,
{
    if 0 <= i && i + 1 < s.len() && s[i] == '-' && (alpha_char(s[i + 1]) || digit_char(s[i + 1])) {
        let e = alnum_run(s, i + 1);
        if i < e <= s.len() {
            subtags_end(s, e)
        } else {
            i
        }
    } else {
        i
    }
}

/// A language tag after the `@` at `pos`: letters, then `-` subtags of
/// letters and digits; lower-cased.
pub open spec fn langtag_spec(s: Seq<char>, pos: int) -> Result<(Seq<char>, int), Error> {
    let a = alpha_run(s, pos + 1);
    if a == pos + 1 {
        Err(Error::ParseError(a as usize))
    } else {
        let e = subtags_end(s, a);
        Ok((lower(s.subrange(pos + 1, e)), e))
    }
}

proof fn lemma_run_ge(s: Seq<char>, i: int)
    requires
        0 <= i,
    ensures
        alnum_run(s, i) >= i,
        alpha_run(s, i) >= i,
    decreases s.len() - i,
{
    if i < s.len() {
        lemma_run_ge(s, i + 1);
    }
}

/// The ASCII lower case of a language tag.
fn lowercase_tag(t: &Vec<char>) -> (r: Vec<char>)
    ensures
        r@.len() == t@.len(),
        forall|i: int| 0 <= i < t@.len() ==> #[trigger] r@[i] == if 'A' <= t@[i] && t@[i] <= 'Z' {
            ((t@[i] as u8) + 32) as char
        } else {
            t@[i]
        },
{
    let mut r: Vec<char> = Vec::new();
    let mut i: usize = 0;
    while i < t.len()
        invariant
            i <= t@.len(),
            r@.len() == i,
            forall|k: int| 0 <= k < i ==> #[trigger] r@[k] == if 'A' <= t@[k] && t@[k] <= 'Z' {
                ((t@[k] as u8) + 32) as char
            } else {
                t@[k]
            },
        decreases t@.len() - i,
    {
        let c = t[i];
        if 'A' <= c && c <= 'Z' {
            r.push(((c as u8) + 32) as char);
        } else {
            r.push(c);
        }
        i += 1;
    }
    r
}

/// A language tag after the `@` at `pos`, lower-cased.
fn parse_langtag(s: &Vec<char>, pos: usize) -> (r: Result<(Vec<char>, usize), Error>)
    requires
        short(s@),
        pos < s@.len(),
    ensures
        r matches Ok(p) ==> pos < p.1 <= s@.len(),
        chars_result(r) == langtag_spec(s@, pos as int),
{
    let mut tag: Vec<char> = Vec::new();
    let mut i: usize = pos + 1;
    assert(tag@ =~= s@.subrange(pos + 1, i as int));
    while i < s.len() && is_alpha(s[i])
        invariant
            short(s@),
            pos < i <= s@.len(),
            tag@ == s@.subrange(pos + 1, i as int),
            alpha_run(s@, pos + 1) == alpha_run(s@, i as int),
        decreases s@.len() - i,
    {
        tag.push(s[i]);
        i += 1;
        assert(tag@ =~= s@.subrange(pos + 1, i as int));
    }
    if tag.len() == 0 {
        return Err(Error::ParseError(i));
    }
    let ghost a = i as int;
    while i + 1 < s.len() && s[i] == '-' && (is_alpha(s[i + 1]) || is_digit(s[i + 1]))
        invariant
            short(s@),
            pos < i <= s@.len(),
            tag@ == s@.subrange(pos + 1, i as int),
            subtags_end(s@, a) == subtags_end(s@, i as int),
        decreases s@.len() - i,
    {
        let ghost before = i as int;
        tag.push('-');
        i += 1;
        assert(tag@ =~= s@.subrange(pos + 1, i as int));
        let ghost start = i;
        while i < s.len() && (is_alpha(s[i]) || is_digit(s[i]))
            invariant
                short(s@),
                pos < start <= i <= s@.len(),
                tag@ == s@.subrange(pos + 1, i as int),
                alnum_run(s@, start as int) == alnum_run(s@, i as int),
            decreases s@.len() - i,
        {
            tag.push(s[i]);
            i += 1;
            assert(tag@ =~= s@.subrange(pos + 1, i as int));
        }
        proof {
            lemma_run_ge(s@, start as int);
            assert(alnum_run(s@, before + 1) == i);
            assert(subtags_end(s@, before) == subtags_end(s@, i as int));
        }
    }
    let r = lowercase_tag(&tag);
    assert(r@ =~= lower(tag@));
    Ok((r, i))
}

/// Where a run of digits starting at `i` ends.
pub open spec fn digit_run(s: Seq<char>, i: int) -> int
    decreases s.len() - i,
{
    if 0 <= i < s.len() && digit_char(s[i]) {
        digit_run(s, i + 1)
    } else {
        i
    }
}

/// A number at `pos`: an optional sign, digits, an optional fraction and an
/// optional exponent; its lexical form as written, and the datatype
/// xsd:integer, xsd:decimal (with a fraction) or xsd:double (with an
/// exponent).
pub open spec fn number_spec(s: Seq<char>, pos: int) -> Result<(Seq<char>, Seq<char>, int), Error> {
    let i0 = if s[pos] == '+' || s[pos] == '-' { pos + 1 } else { pos };
    let i1 = digit_run(s, i0);
    let dec = i1 + 1 < s.len() && s[i1] == '.' && digit_char(s[i1 + 1]);
    let i2 = if dec { digit_run(s, i1 + 1) } else { i1 };
    let ndigits = (i1 - i0) + if dec { i2 - (i1 + 1) } else { 0 };
    if ndigits == 0 {
        Err(Error::ParseError(pos as usize))
    } else if i2 < s.len() && (s[i2] == 'e' || s[i2] == 'E') {
        let j0 = i2 + 1;
        let j1 = if j0 < s.len() && (s[j0] == '+' || s[j0] == '-') { j0 + 1 } else { j0 };
        let j2 = digit_run(s, j1);
        if j2 == j1 {
            Err(Error::ParseError(j2 as usize))
        } else {
            Ok((s.subrange(pos, j2), XSD_DOUBLE@, j2))
        }
    } else {
        Ok((s.subrange(pos, i2), if dec { XSD_DECIMAL@ } else { XSD_INTEGER@ }, i2))
    }
}

proof fn lemma_digit_run_ge(s: Seq<char>, i: int)
    requires
        0 <= i,
    ensures
        digit_run(s, i) >= i,
    decreases s.len() - i,
{
    if i < s.len() {
        lemma_digit_run_ge(s, i + 1);
    }
}

/// A number starting at `pos`: its lexical form and its datatype.
fn parse_number(s: &Vec<char>, pos: usize) -> (r: Result<(Vec<char>, Vec<char>, usize), Error>)
    requires
        short(s@),
        pos < s@.len(),
    ensures
        r matches Ok(p) ==> pos < p.2 <= s@.len(),
        number_spec(s@, pos as int) == match r {
            Ok(p) => Ok((p.0@, p.1@, p.2 as int)),
            Err(e) => Err::<(Seq<char>, Seq<char>, int), Error>(e),
        },
{
    let mut i: usize = pos;
    if s[i] == '+' || s[i] == '-' {
        i += 1;
    }
    let ghost i0 = i as int;
    let mut digits: usize = 0;
    while i < s.len() && is_digit(s[i])
        invariant
            short(s@),
            pos <= i0 <= i <= s@.len(),
            digits == i - i0,
            digit_run(s@, i0) == digit_run(s@, i as int),
        decreases s@.len() - i,
    {
        i += 1;
        digits += 1;
    }
    let ghost i1 = i as int;
    let mut datatype = chars_of(XSD_INTEGER);
    if i + 1 < s.len() && s[i] == '.' && is_digit(s[i + 1]) {
        i += 1;
        while i < s.len() && is_digit(s[i])
            invariant
                short(s@),
                pos <= i0 <= i1 < i <= s@.len(),
                digits == (i1 - i0) + (i - (i1 + 1)),
                digit_run(s@, i1 + 1) == digit_run(s@, i as int),
            decreases s@.len() - i,
        {
            i += 1;
            digits += 1;
        }
        datatype = chars_of(XSD_DECIMAL);
    }
    if digits == 0 {
        return Err(Error::ParseError(pos));
    }
    if i < s.len() && (s[i] == 'e' || s[i] == 'E') {
        i += 1;
        if i < s.len() && (s[i] == '+' || s[i] == '-') {
            i += 1;
        }
        let start = i;
        while i < s.len() && is_digit(s[i])
            invariant
                short(s@),
                pos <= start <= i <= s@.len(),
                digit_run(s@, start as int) == digit_run(s@, i as int),
            decreases s@.len() - i,
        {
            i += 1;
        }
        if i == start {
            return Err(Error::ParseError(i));
        }
        datatype = chars_of(XSD_DOUBLE);
    }
    let mut lexical: Vec<char> = Vec::new();
    let mut k: usize = pos;
    assert(lexical@ =~= s@.subrange(pos as int, k as int));
    while k < i
        invariant
            short(s@),
            pos <= k <= i <= s@.len(),
            lexical@ == s@.subrange(pos as int, k as int),
        decreases i - k,
    {
        lexical.push(s[k]);
        k += 1;
        assert(lexical@ =~= s@.subrange(pos as int, k as int));
    }
    Ok((lexical, datatype, i))
}

/// The text's character `a` matches the keyword's character `b`.
pub open spec fn keyword_char(a: char, b: char, ignore_case: bool) -> bool {
    a == b || (ignore_case && 'A' <= a && a <= 'Z' && 'a' <= b && b <= 'z' && (a as u8) + 32 == (b as u8))
}

/// Where the word `w` ends if it stands at `pos`, not followed by a name
/// character or a colon.
pub open spec fn keyword_spec(s: Seq<char>, pos: int, w: Seq<char>, ignore_case: bool) -> Option<int> {
    if w.len() == 0 || w.len() > s.len() - pos {
        None
    } else if forall|i: int| 0 <= i < w.len() ==> keyword_char(#[trigger] s[pos + i], w[i], ignore_case) {
        let end = pos + w.len();
        if end < s.len() && (pn_char(s[end]) || s[end] == ':') {
            None
        } else {
            Some(end)
        }
    } else {
        None
    }
}

/// Where the word `w` ends if it stands at `pos`, not followed by a name
/// character; `ignore_case` lets upper-case letters of the text match.
fn keyword_at(s: &Vec<char>, pos: usize, w: &str, ignore_case: bool) -> (r: Option<usize>)
    requires
        short(s@),
        pos <= s@.len(),
    ensures
        r matches Some(e) ==> pos < e <= s@.len(),
        keyword_spec(s@, pos as int, w@, ignore_case) == match r {
            Some(e) => Some(e as int),
            None => None::<int>,
        },
{
    let wc = chars_of(w);
    if wc.len() == 0 || wc.len() > s.len() - pos {
        return None;
    }
    let mut i: usize = 0;
    while i < wc.len()
        invariant
            short(s@),
            pos + wc@.len() <= s@.len(),
            wc@ == w@,
            wc@.len() > 0,
            i <= wc@.len(),
            forall|k: int| 0 <= k < i ==> keyword_char(#[trigger] s@[pos + k], wc@[k], ignore_case),
        decreases wc@.len() - i,
    {
        let a = s[pos + i];
        let b = wc[i];
        let same = a == b || (ignore_case && 'A' <= a && a <= 'Z' && 'a' <= b && b <= 'z' && (a as u8) + 32 == (b as u8));
        if !same {
            assert(!keyword_char(s@[pos + i as int], wc@[i as int], ignore_case));
            return None;
        }
        i += 1;
    }
    let end = pos + wc.len();
    if end < s.len() && (is_pn_chars(s[end]) || s[end] == ':') {
        None
    } else {
        Some(end)
    }
}

/// An object parser's result as values, with the state after it.
pub open spec fn object_result(r: Result<(Term, usize), Error>, v: PView) -> Result<(ObjectView, int, PView), Error> {
    match r {
        Ok(p) => Ok((term_object_view(p.0), p.1 as int, v)),
        Err(e) => Err(e),
    }
}

/// A position-returning parser's result as values, with the state after it.
pub open spec fn pos_result(r: Result<usize, Error>, v: PView) -> Result<(int, PView), Error> {
    match r {
        Ok(p) => Ok((p as int, v)),
        Err(e) => Err(e),
    }
}

/// What a parse holds between statements: the base, the prefix table, the
/// blank-node labels with the next fresh id, and the triples made.
pub struct PView {
    pub base: Seq<char>,
    pub prefixes: Seq<(Seq<char>, Seq<char>)>,
    pub labels: Seq<(Seq<char>, usize)>,
    pub next: usize,
    pub triples: Seq<TripleView>,
}

/// `v` with the triple `(s, p, o)` added.
pub open spec fn emit_spec(v: PView, s: SubjectView, p: Seq<char>, o: ObjectView) -> PView {
    PView { triples: v.triples.push(TripleView { subject: s, predicate: p, object: o }), ..v }
}

/// A fresh blank node, and `v` after making it.
pub open spec fn fresh_spec(v: PView) -> Result<(usize, PView), Error> {
    if v.next == usize::MAX {
        Err(Error::Custom("too many blank nodes"))
    } else {
        Ok((v.next, PView { next: (v.next + 1) as usize, ..v }))
    }
}

/// The blank node of a label, and `v` after.
pub open spec fn labelled_spec(v: PView, l: Seq<char>) -> Result<(usize, PView), Error> {
    match label_spec(v.labels, v.next, l) {
        Ok(a) => Ok((a.0, PView { labels: a.1, next: a.2, ..v })),
        Err(e) => Err(e),
    }
}

/// The subject that names the same node as an IRI or blank-node object.
pub open spec fn object_as_subject(o: ObjectView) -> SubjectView {
    match o {
        ObjectView::Iri(i) => SubjectView::Iri(i),
        ObjectView::Blank(b) => SubjectView::Blank(b),
        ObjectView::Literal(l) => SubjectView::Iri(l.lexical),
    }
}

pub open spec fn blank_object(b: usize) -> ObjectView {
    ObjectView::Blank((b, 0usize))
}

pub open spec fn plain_literal(lexical: Seq<char>, datatype: Seq<char>) -> ObjectView {
    ObjectView::Literal(LiteralView { lexical, datatype, language: None })
}

/// A verb at `pos`: `a` for rdf:type, or an IRI.
pub open spec fn verb_spec(s: Seq<char>, pos: int, v: PView) -> Result<(Seq<char>, int), Error> {
    if pos >= s.len() {
        Err(Error::ParseError(pos as usize))
    } else if s[pos] == 'a' && (pos + 1 >= s.len() || !(pn_char(s[pos + 1]) || s[pos + 1] == ':' || s[pos + 1] == '.')) {
        Ok((RDF_TYPE@, pos + 1))
    } else {
        iri_spec(s, pos, v.base, v.prefixes)
    }
}

/// An object at `pos`: the term, the position after it, and the state after
/// the triples of any property list or collection in it.
pub open spec fn object_spec(s: Seq<char>, pos: int, v: PView) -> Result<(ObjectView, int, PView), Error>
    decreases s.len() - pos, 3nat,
{
    if pos < 0 || pos >= s.len() {
        Err(Error::ParseError(pos as usize))
    } else if s[pos] == '<' {
        match iri_spec(s, pos, v.base, v.prefixes) {
            Ok(a) => Ok((ObjectView::Iri(a.0), a.1, v)),
            Err(e) => Err(e),
        }
    } else if s[pos] == '_' && pos + 1 < s.len() && s[pos + 1] == ':' {
        match name_spec(s, pos + 2, false) {
            Err(e) => Err(e),
            Ok(a) => if a.0.len() == 0 {
                Err(Error::ParseError(pos as usize))
            } else {
                match labelled_spec(v, a.0) {
                    Ok(b) => Ok((blank_object(b.0), a.1, b.1)),
                    Err(e) => Err(e),
                }
            },
        }
    } else if s[pos] == '[' {
        let p = skip_ws_spec(s, pos + 1);
        match fresh_spec(v) {
            Err(e) => Err(e),
            Ok(b) => if p < s.len() && s[p] == ']' {
                Ok((blank_object(b.0), p + 1, b.1))
            } else if pos < p <= s.len() {
                match pol_from(s, SubjectView::Blank((b.0, 0usize)), p, b.1) {
                    Err(e) => Err(e),
                    Ok(q) => {
                        let q2 = skip_ws_spec(s, q.0);
                        if q2 < s.len() && s[q2] == ']' {
                            Ok((blank_object(b.0), q2 + 1, q.1))
                        } else {
                            Err(Error::ParseError(q2 as usize))
                        }
                    },
                }
            } else {
                Err(Error::ParseError(pos as usize))
            },
        }
    } else if s[pos] == '(' {
        collection_spec(s, pos, v)
    } else if s[pos] == '"' || s[pos] == '\'' {
        match string_spec(s, pos) {
            Err(e) => Err(e),
            Ok(a) => {
                let p = a.1;
                if p < s.len() && s[p] == '@' {
                    match langtag_spec(s, p) {
                        Ok(t) => Ok((ObjectView::Literal(LiteralView { lexical: a.0, datatype: RDF_LANG_STRING@, language: Some(t.0) }), t.1, v)),
                        Err(e) => Err(e),
                    }
                } else if p + 1 < s.len() && s[p] == '^' && s[p + 1] == '^' {
                    if p + 2 >= s.len() {
                        Err(Error::ParseError(p as usize))
                    } else {
                        match iri_spec(s, p + 2, v.base, v.prefixes) {
                            Ok(d) => Ok((plain_literal(a.0, d.0), d.1, v)),
                            Err(e) => Err(e),
                        }
                    }
                } else {
                    Ok((plain_literal(a.0, XSD_STRING@), p, v))
                }
            },
        }
    } else if digit_char(s[pos]) || s[pos] == '+' || s[pos] == '-' || s[pos] == '.' {
        match number_spec(s, pos) {
            Ok(n) => Ok((plain_literal(n.0, n.1), n.2, v)),
            Err(e) => Err(e),
        }
    } else if keyword_spec(s, pos, "true"@, false) is Some {
        Ok((plain_literal("true"@, XSD_BOOLEAN@), keyword_spec(s, pos, "true"@, false)->0, v))
    } else if keyword_spec(s, pos, "false"@, false) is Some {
        Ok((plain_literal("false"@, XSD_BOOLEAN@), keyword_spec(s, pos, "false"@, false)->0, v))
    } else {
        match pname_spec(s, pos, v.prefixes) {
            Ok(a) => Ok((ObjectView::Iri(a.0), a.1, v)),
            Err(e) => Err(e),
        }
    }
}

/// The items of a collection from `p` to its `)`, after the items `items`.
pub open spec fn items_from(s: Seq<char>, p: int, v: PView, items: Seq<ObjectView>) -> Result<(Seq<ObjectView>, int, PView), Error>
    decreases s.len() - p, 4nat,
{
    if 0 <= p < s.len() && s[p] != ')' {
        match object_spec(s, p, v) {
            Err(e) => Err(e),
            Ok(o) => if p < skip_ws_spec(s, o.1) <= s.len() {
                items_from(s, skip_ws_spec(s, o.1), o.2, items.push(o.0))
            } else {
                Err(Error::ParseError(p as usize))
            },
        }
    } else {
        Ok((items, p, v))
    }
}

/// The rdf:first / rdf:rest chain of the first `k` items, made from the
/// right, ending in `head`.
pub open spec fn chain_from(items: Seq<ObjectView>, k: int, head: ObjectView, v: PView) -> Result<(ObjectView, PView), Error>
    decreases k,
{
    if k <= 0 {
        Ok((head, v))
    } else {
        match fresh_spec(v) {
            Err(e) => Err(e),
            Ok(b) => {
                let node = SubjectView::Blank((b.0, 0usize));
                let v1 = emit_spec(emit_spec(b.1, node, RDF_FIRST@, items[k - 1]), node, RDF_REST@, head);
                chain_from(items, k - 1, blank_object(b.0), v1)
            },
        }
    }
}

/// A collection `( o1 ... on )` at `pos`.
pub open spec fn collection_spec(s: Seq<char>, pos: int, v: PView) -> Result<(ObjectView, int, PView), Error>
    decreases s.len() - pos, 2nat,
{
    let p = skip_ws_spec(s, pos + 1);
    if 0 <= pos && pos < p <= s.len() {
        match items_from(s, p, v, Seq::empty()) {
            Err(e) => Err(e),
            Ok(a) => if a.1 >= s.len() {
                Err(Error::ParseError(a.1 as usize))
            } else {
                match chain_from(a.0, a.0.len() as int, ObjectView::Iri(RDF_NIL@), a.2) {
                    Ok(c) => Ok((c.0, a.1 + 1, c.1)),
                    Err(e) => Err(e),
                }
            },
        }
    } else {
        Err(Error::ParseError(pos as usize))
    }
}

/// A predicate-object list about `subj` from `cur`.
pub open spec fn pol_from(s: Seq<char>, subj: SubjectView, cur: int, v: PView) -> Result<(int, PView), Error>
    decreases s.len() - cur, 0nat,
{
    match verb_spec(s, cur, v) {
        Err(e) => Err(e),
        Ok(vb) => {
            let q = skip_ws_spec(s, vb.1);
            if 0 <= cur < q <= s.len() {
                match object_spec(s, q, v) {
                    Err(e) => Err(e),
                    Ok(o) => if cur < skip_ws_spec(s, o.1) <= s.len() {
                        objects_from(s, subj, vb.0, skip_ws_spec(s, o.1), emit_spec(o.2, subj, vb.0, o.0))
                    } else {
                        Err(Error::ParseError(cur as usize))
                    },
                }
            } else {
                Err(Error::ParseError(cur as usize))
            }
        },
    }
}

/// More objects of `verb` from `q`, each after a `,`; then the next verb,
/// after `;`.
pub open spec fn objects_from(s: Seq<char>, subj: SubjectView, verb: Seq<char>, q: int, v: PView) -> Result<(int, PView), Error>
    decreases s.len() - q, 2nat,
{
    if 0 <= q < s.len() && s[q] == ',' {
        let q2 = skip_ws_spec(s, q + 1);
        if q < q2 <= s.len() {
            match object_spec(s, q2, v) {
                Err(e) => Err(e),
                Ok(o) => if q < skip_ws_spec(s, o.1) <= s.len() {
                    objects_from(s, subj, verb, skip_ws_spec(s, o.1), emit_spec(o.2, subj, verb, o.0))
                } else {
                    Err(Error::ParseError(q as usize))
                },
            }
        } else {
            Err(Error::ParseError(q as usize))
        }
    } else if !(0 <= q < s.len() && s[q] == ';') {
        Ok((q, v))
    } else {
        semis_from(s, subj, q, v)
    }
}

/// A run of `;` at `q`, then the end of the list or the next verb.
pub open spec fn semis_from(s: Seq<char>, subj: SubjectView, q: int, v: PView) -> Result<(int, PView), Error>
    decreases s.len() - q, 1nat,
{
    if 0 <= q < s.len() && s[q] == ';' {
        let q2 = skip_ws_spec(s, q + 1);
        if q < q2 <= s.len() {
            semis_from(s, subj, q2, v)
        } else {
            Err(Error::ParseError(q as usize))
        }
    } else if q >= s.len() || s[q] == '.' || s[q] == ']' {
        Ok((q, v))
    } else {
        pol_from(s, subj, q, v)
    }
}

/// The position of the first entry for `p` at or after `i`.
pub open spec fn prefix_index(t: Seq<(Seq<char>, Seq<char>)>, p: Seq<char>, i: int) -> Option<int>
    decreases t.len() - i,
{
    if i < 0 || i >= t.len() {
        None
    } else if t[i].0 == p {
        Some(i)
    } else {
        prefix_index(t, p, i + 1)
    }
}

/// The prefix table with `p` bound to `ns`: in place where `p` was bound,
/// else at the end.
pub open spec fn set_prefix_spec(t: Seq<(Seq<char>, Seq<char>)>, p: Seq<char>, ns: Seq<char>) -> Seq<(Seq<char>, Seq<char>)> {
    match prefix_index(t, p, 0) {
        Some(i) => t.update(i, (p, ns)),
        None => t.push((p, ns)),
    }
}

/// The rest of a prefix declaration after its keyword at `pos`.
pub open spec fn prefix_decl_spec(s: Seq<char>, pos: int, v: PView) -> Result<(int, PView), Error> {
    let p = skip_ws_spec(s, pos);
    match pname_ns_spec(s, p) {
        Err(e) => Err(e),
        Ok(a) => {
            let q = skip_ws_spec(s, a.1);
            if q >= s.len() {
                Err(Error::ParseError(q as usize))
            } else {
                match iriref_spec(s, q) {
                    Ok(b) => Ok((b.1, PView { prefixes: set_prefix_spec(v.prefixes, a.0, join_iri_spec(v.base, b.0)), ..v })),
                    Err(e) => Err(e),
                }
            }
        },
    }
}

/// The rest of a base declaration after its keyword at `pos`.
pub open spec fn base_decl_spec(s: Seq<char>, pos: int, v: PView) -> Result<(int, PView), Error> {
    let p = skip_ws_spec(s, pos);
    if p >= s.len() {
        Err(Error::ParseError(p as usize))
    } else {
        match iriref_spec(s, p) {
            Ok(b) => Ok((b.1, PView { base: join_iri_spec(v.base, b.0), ..v })),
            Err(e) => Err(e),
        }
    }
}

/// `.` after white space at `q`.
pub open spec fn dot_after(s: Seq<char>, r: Result<(int, PView), Error>) -> Result<(int, PView), Error> {
    match r {
        Err(e) => Err(e),
        Ok(a) => {
            let q = skip_ws_spec(s, a.0);
            if 0 <= q < s.len() && s[q] == '.' {
                Ok((q + 1, a.1))
            } else {
                Err(Error::ParseError(q as usize))
            }
        },
    }
}

/// One statement at `pos`: a directive, or a subject with its
/// predicate-object list and a final `.`; the position after it and the
/// state after its triples, or the error that stops the parse.
#[verifier::opaque]
pub open spec fn statement_spec(s: Seq<char>, pos: int, v: PView) -> Result<(int, PView), Error> {
    if s[pos] == '@' {
        match keyword_spec(s, pos + 1, "prefix"@, false) {
            Some(e) => dot_after(s, prefix_decl_spec(s, e, v)),
            None => match keyword_spec(s, pos + 1, "base"@, false) {
                Some(e) => dot_after(s, base_decl_spec(s, e, v)),
                None => Err(Error::ParseError(pos as usize)),
            },
        }
    } else if keyword_spec(s, pos, "prefix"@, true) is Some {
        prefix_decl_spec(s, keyword_spec(s, pos, "prefix"@, true)->0, v)
    } else if keyword_spec(s, pos, "base"@, true) is Some {
        base_decl_spec(s, keyword_spec(s, pos, "base"@, true)->0, v)
    } else {
        match object_spec(s, pos, v) {
            Err(e) => Err(e),
            Ok(o) => if o.0 is Literal {
                Err(Error::ParseError(pos as usize))
            } else {
                let p = skip_ws_spec(s, o.1);
                if p < s.len() && s[p] == '.' && s[pos] == '[' {
                    dot_after(s, Ok((p, o.2)))
                } else {
                    dot_after(s, pol_from(s, object_as_subject(o.0), p, o.2))
                }
            },
        }
    }
}

/// An object starting at `pos`. Blank-node property lists and collections
/// add their triples to the state.
fn parse_object(s: &Vec<char>, pos: usize, st: &mut ParseState) -> (r: Result<(Term, usize), Error>)
    requires
        short(s@),
        pos <= s@.len(),
        old(st).wf(),
    ensures
        final(st).grows(old(st)),
        final(st).base == old(st).base,
        final(st).prefixes == old(st).prefixes,
        r matches Ok(p) ==> pos < p.1 <= s@.len(),
        pos < s@.len() && s@[pos as int] == '[' ==> (r matches Ok(p) ==> term_object_view(p.0) == ObjectView::Blank(
            (old(st).blank_nodes.next(), 0usize),
        )),
        object_spec(s@, pos as int, old(st).pv()) == object_result(r, final(st).pv()),
    decreases s@.len() - pos,
{
    if pos >= s.len() {
        return Err(Error::ParseError(pos));
    }
    let c = s[pos];
    if c == '<' {
        let (iri, p) = parse_iri(s, pos, st)?;
        Ok((Term::Iri(iri), p))
    } else if c == '_' && at(s, pos + 1, ':') {
        let (label, p) = parse_name_chars(s, pos + 2, false)?;
        if label.len() == 0 {
            return Err(Error::ParseError(pos));
        }
        let b = st.blank_nodes.get_blank(&label)?;
        Ok((Term::Blank(b), p))
    } else if c == '[' {
        let p = skip_ws(s, pos + 1);
        let b = st.blank_nodes.new_blank()?;
        let subject = Term::Blank(b);
        if at(s, p, ']') {
            return Ok((subject, p + 1));
        }
        let q = parse_predicate_object_list(s, p, st, &subject)?;
        let q = skip_ws(s, q);
        if !at(s, q, ']') {
            return Err(Error::ParseError(q));
        }
        Ok((subject, q + 1))
    } else if c == '(' {
        parse_collection(s, pos, st)
    } else if c == '"' || c == '\'' {
        let (lexical, p) = parse_string(s, pos)?;
        if at(s, p, '@') {
            let (lang, q) = parse_langtag(s, p)?;
            Ok((Term::Literal(lexical, chars_of(RDF_LANG_STRING), Some(lang)), q))
        } else if at(s, p, '^') && at(s, p + 1, '^') {
            if p + 2 >= s.len() {
                return Err(Error::ParseError(p));
            }
            let (datatype, q) = parse_iri(s, p + 2, st)?;
            Ok((Term::Literal(lexical, datatype, None), q))
        } else {
            Ok((Term::Literal(lexical, chars_of(XSD_STRING), None), p))
        }
    } else if is_digit(c) || c == '+' || c == '-' || c == '.' {
        let (lexical, datatype, p) = parse_number(s, pos)?;
        Ok((Term::Literal(lexical, datatype, None), p))
    } else if let Some(e) = keyword_at(s, pos, "true", false) {
        Ok((Term::Literal(chars_of("true"), chars_of(XSD_BOOLEAN), None), e))
    } else if let Some(e) = keyword_at(s, pos, "false", false) {
        Ok((Term::Literal(chars_of("false"), chars_of(XSD_BOOLEAN), None), e))
    } else {
        let (iri, p) = parse_pname(s, pos, st)?;
        Ok((Term::Iri(iri), p))
    }
}

/// The triples that expand a collection of `items`: its nodes get the ids
/// `first`, `first + 1`, ... from the last item to the first; each node has
/// its item as rdf:first and the node of the next item, or rdf:nil, as
/// rdf:rest.
pub open spec fn collection_triples(items: Seq<ObjectView>, first: nat) -> Seq<TripleView> {
    Seq::new(
        2 * items.len(),
        |i: int|
            {
                let j = i / 2;
                let node = SubjectView::Blank(((first + j) as usize, 0usize));
                if i % 2 == 0 {
                    TripleView { subject: node, predicate: RDF_FIRST@, object: items[items.len() - 1 - j] }
                } else {
                    TripleView {
                        subject: node,
                        predicate: RDF_REST@,
                        object: if j == 0 {
                            ObjectView::Iri(RDF_NIL@)
                        } else {
                            ObjectView::Blank(((first + j - 1) as usize, 0usize))
                        },
                    }
                }
            },
    )
}

/// The head of a collection of `n` items whose nodes start at `first`: the
/// node of the first item, or rdf:nil.
pub open spec fn collection_head(n: nat, first: nat) -> ObjectView {
    if n == 0 {
        ObjectView::Iri(RDF_NIL@)
    } else {
        ObjectView::Blank(((first + n - 1) as usize, 0usize))
    }
}

/// A collection `( o1 ... on )` starting at `pos`, expanded into a chain of
/// fresh blank nodes linked by rdf:first and rdf:rest and ended by rdf:nil.
/// The nodes are made from the right, so the head is the leftmost node.
fn parse_collection(s: &Vec<char>, pos: usize, st: &mut ParseState) -> (r: Result<(Term, usize), Error>)
    requires
        short(s@),
        pos < s@.len(),
        old(st).wf(),
    ensures
        final(st).grows(old(st)),
        final(st).base == old(st).base,
        final(st).prefixes == old(st).prefixes,
        r matches Ok(p) ==> pos < p.1 <= s@.len(),
        r matches Ok(p) ==> exists|items: Seq<ObjectView>, first: nat|
            {
                &&& 2 * items.len() <= final(st).view().len()
                &&& final(st).view().subrange(final(st).view().len() - 2 * items.len(), final(st).view().len() as int)
                    == #[trigger] collection_triples(items, first)
                &&& term_object_view(p.0) == collection_head(items.len(), first)
                &&& final(st).blank_nodes.next() as nat == first + items.len()
            },
        collection_spec(s@, pos as int, old(st).pv()) == object_result(r, final(st).pv()),
    decreases s@.len() - pos, 0nat,
{
    let mut items: Vec<Term> = Vec::new();
    let mut p = skip_ws(s, pos + 1);
    let ghost goal = items_from(s@, p as int, st.pv(), Seq::empty());
    let ghost whole = collection_spec(s@, pos as int, old(st).pv());
    assert(items@.map_values(|t: Term| term_object_view(t)) =~= Seq::<ObjectView>::empty());
    while p < s.len() && s[p] != ')'
        invariant
            short(s@),
            pos < p <= s@.len(),
            whole == collection_spec(s@, pos as int, old(st).pv()),
            whole == match goal {
                Err(e) => Err(e),
                Ok(a) => if a.1 >= s@.len() {
                    Err(Error::ParseError(a.1 as usize))
                } else {
                    match chain_from(a.0, a.0.len() as int, ObjectView::Iri(RDF_NIL@), a.2) {
                        Ok(c) => Ok((c.0, a.1 + 1, c.1)),
                        Err(e) => Err(e),
                    }
                },
            },
            st.grows(old(st)),
            st.base == old(st).base,
            st.prefixes == old(st).prefixes,
            goal == items_from(s@, p as int, st.pv(), items@.map_values(|t: Term| term_object_view(t))),
        decreases s@.len() - p,
    {
        let ghost before = items@.map_values(|t: Term| term_object_view(t));
        let (item, q) = parse_object(s, p, st)?;
        let ghost iview = term_object_view(item);
        items.push(item);
        assert(items@.map_values(|t: Term| term_object_view(t)) =~= before.push(iview));
        p = skip_ws(s, q);
    }
    if p >= s.len() {
        return Err(Error::ParseError(p));
    }
    let first = chars_of(RDF_FIRST);
    let rest = chars_of(RDF_REST);
    let mut head = Term::Iri(chars_of(RDF_NIL));
    let n = items.len();
    let mut k: usize = n;
    let ghost iv = items@.map_values(|t: Term| term_object_view(t));
    let ghost mid = st.view();
    let ghost m = st.blank_nodes.next() as nat;
    let ghost all = collection_triples(iv, m);
    let ghost chain = chain_from(iv, n as int, ObjectView::Iri(RDF_NIL@), st.pv());
    assert(goal == Ok::<(Seq<ObjectView>, int, PView), Error>((iv, p as int, st.pv())));
    assert(whole == match chain {
        Ok(c) => Ok((c.0, p as int + 1, c.1)),
        Err(e) => Err::<(ObjectView, int, PView), Error>(e),
    });
    while k > 0
        invariant
            whole == collection_spec(s@, pos as int, old(st).pv()),
            whole == match chain {
                Ok(c) => Ok((c.0, p as int + 1, c.1)),
                Err(e) => Err::<(ObjectView, int, PView), Error>(e),
            },
            chain == chain_from(iv, k as int, term_object_view(head), st.pv()),
            n == items@.len(),
            iv == items@.map_values(|t: Term| term_object_view(t)),
            all == collection_triples(iv, m),
            first@ == RDF_FIRST@,
            rest@ == RDF_REST@,
            k <= n,
            st.grows(old(st)),
            st.base == old(st).base,
            st.prefixes == old(st).prefixes,
            st.view() == mid + all.subrange(0, 2 * (n - k)),
            st.blank_nodes.next() == m + (n - k),
            term_object_view(head) == collection_head((n - k) as nat, m),
        decreases k,
    {
        k -= 1;
        let this = st.blank_nodes.new_blank()?;
        let node = Term::Blank(this);
        let item = copy_term(&items[k]);
        let ghost j = n - 1 - k;
        assert(term_object_view(item) == iv[k as int]);
        st.emit(&node, &first, item);
        st.emit(&node, &rest, head);
        proof {
            assert(all.subrange(0, 2 * (n - k)) =~= all.subrange(0, 2 * j).push(all[2 * j]).push(all[2 * j + 1]));
            assert(st.view() =~= mid + all.subrange(0, 2 * (n - k)));
        }
        head = node;
    }
    proof {
        assert(all.subrange(0, 2 * n) =~= all);
        let v = st.view();
        assert(v.subrange(v.len() - 2 * iv.len(), v.len() as int) =~= collection_triples(iv, m));
    }
    Ok((head, p + 1))
}

/// A verb: `a` for rdf:type, or an IRI.
fn parse_verb(s: &Vec<char>, pos: usize, st: &ParseState) -> (r: Result<(Vec<char>, usize), Error>)
    requires
        short(s@),
        pos <= s@.len(),
    ensures
        r matches Ok(p) ==> pos < p.1 <= s@.len(),
        chars_result(r) == verb_spec(s@, pos as int, st.pv()),
{
    if pos >= s.len() {
        return Err(Error::ParseError(pos));
    }
    if s[pos] == 'a' && (pos + 1 >= s.len() || !(is_pn_chars(s[pos + 1]) || s[pos + 1] == ':' || s[pos + 1] == '.')) {
        return Ok((chars_of(RDF_TYPE), pos + 1));
    }
    parse_iri(s, pos, st)
}

/// A predicate-object list about `subject`, starting at `pos`: each of its
/// triples is added to the state. Returns the position after the list.
fn parse_predicate_object_list(s: &Vec<char>, pos: usize, st: &mut ParseState, subject: &Term) -> (r: Result<usize, Error>)
    requires
        short(s@),
        pos <= s@.len(),
        old(st).wf(),
        !(*subject is Literal),
    ensures
        final(st).grows(old(st)),
        final(st).base == old(st).base,
        final(st).prefixes == old(st).prefixes,
        r matches Ok(p) ==> pos < p <= s@.len(),
        pol_from(s@, term_subject_view(*subject), pos as int, old(st).pv()) == pos_result(r, final(st).pv()),
    decreases s@.len() - pos, 1nat,
{
    let ghost subj = term_subject_view(*subject);
    let ghost goal = pol_from(s@, subj, pos as int, st.pv());
    let mut cur = pos;
    loop
        invariant
            short(s@),
            pos <= cur <= s@.len(),
            st.grows(old(st)),
            !(*subject is Literal),
            st.base == old(st).base,
            st.prefixes == old(st).prefixes,
            subj == term_subject_view(*subject),
            goal == pol_from(s@, subj, cur as int, st.pv()),
            goal == pol_from(s@, term_subject_view(*subject), pos as int, old(st).pv()),
        decreases s@.len() - cur,
    {
        let ghost v0 = st.pv();
        let (verb, p) = parse_verb(s, cur, st)?;
        let mut q = skip_ws(s, p);
        let (object, q1) = parse_object(s, q, st)?;
        st.emit(subject, &verb, object);
        q = skip_ws(s, q1);
        while at(s, q, ',')
            invariant
                short(s@),
                pos <= cur < q <= s@.len(),
                st.grows(old(st)),
                !(*subject is Literal),
                st.base == old(st).base,
                st.prefixes == old(st).prefixes,
                subj == term_subject_view(*subject),
                goal == objects_from(s@, subj, verb@, q as int, st.pv()),
                goal == pol_from(s@, term_subject_view(*subject), pos as int, old(st).pv()),
            decreases s@.len() - q,
        {
            let q2 = skip_ws(s, q + 1);
            let (object, q3) = parse_object(s, q2, st)?;
            st.emit(subject, &verb, object);
            q = skip_ws(s, q3);
        }
        if !at(s, q, ';') {
            return Ok(q);
        }
        assert(goal == semis_from(s@, subj, q as int, st.pv()));
        while at(s, q, ';')
            invariant
                short(s@),
                pos <= cur < q <= s@.len(),
                goal == semis_from(s@, subj, q as int, st.pv()),
                goal == pol_from(s@, term_subject_view(*subject), pos as int, old(st).pv()),
                st.grows(old(st)),
                st.base == old(st).base,
                st.prefixes == old(st).prefixes,
            decreases s@.len() - q,
        {
            q = skip_ws(s, q + 1);
        }
        if q >= s.len() || s[q] == '.' || s[q] == ']' {
            return Ok(q);
        }
        cur = q;
    }
}

/// `@prefix` or `PREFIX`, after the keyword at `pos`.
fn parse_prefix_decl(s: &Vec<char>, pos: usize, st: &mut ParseState) -> (r: Result<usize, Error>)
    requires
        short(s@),
        pos <= s@.len(),
        old(st).wf(),
    ensures
        final(st).grows(old(st)),
        r matches Ok(p) ==> pos < p <= s@.len(),
        prefix_decl_spec(s@, pos as int, old(st).pv()) == pos_result(r, final(st).pv()),
{
    let p = skip_ws(s, pos);
    let (prefix, q) = parse_pname_ns(s, p)?;
    let q = skip_ws(s, q);
    if q >= s.len() {
        return Err(Error::ParseError(q));
    }
    let (iri, q) = parse_iriref(s, q)?;
    let value = join_iri(&st.base, &iri);
    let ghost v0 = st.pv();
    set_prefix(st, prefix, value);
    assert(st.pv() == PView { prefixes: set_prefix_spec(v0.prefixes, prefix@, value@), ..v0 });
    Ok(q)
}

/// `@base` or `BASE`, after the keyword at `pos`.
fn parse_base_decl(s: &Vec<char>, pos: usize, st: &mut ParseState) -> (r: Result<usize, Error>)
    requires
        short(s@),
        pos <= s@.len(),
        old(st).wf(),
    ensures
        final(st).grows(old(st)),
        r matches Ok(p) ==> pos < p <= s@.len(),
        base_decl_spec(s@, pos as int, old(st).pv()) == pos_result(r, final(st).pv()),
{
    let p = skip_ws(s, pos);
    if p >= s.len() {
        return Err(Error::ParseError(p));
    }
    let (iri, q) = parse_iriref(s, p)?;
    st.base = join_iri(&st.base, &iri);
    Ok(q)
}

/// One statement starting at `pos`: a directive, or triples ended by `.`.
fn parse_statement(s: &Vec<char>, pos: usize, st: &mut ParseState) -> (r: Result<usize, Error>)
    requires
        short(s@),
        pos < s@.len(),
        old(st).wf(),
    ensures
        final(st).grows(old(st)),
        r matches Ok(p) ==> pos < p <= s@.len(),
        statement_spec(s@, pos as int, old(st).pv()) == pos_result(r, final(st).pv()),
{
    reveal(statement_spec);
    if s[pos] == '@' {
        let q = if let Some(e) = keyword_at(s, pos + 1, "prefix", false) {
            parse_prefix_decl(s, e, st)?
        } else if let Some(e) = keyword_at(s, pos + 1, "base", false) {
            parse_base_decl(s, e, st)?
        } else {
            return Err(Error::ParseError(pos));
        };
        let q = skip_ws(s, q);
        if !at(s, q, '.') {
            return Err(Error::ParseError(q));
        }
        return Ok(q + 1);
    }
    if let Some(e) = keyword_at(s, pos, "prefix", true) {
        return parse_prefix_decl(s, e, st);
    }
    if let Some(e) = keyword_at(s, pos, "base", true) {
        return parse_base_decl(s, e, st);
    }
    let (subject, p) = parse_object(s, pos, st)?;
    if let Term::Literal(_, _, _) = subject {
        return Err(Error::ParseError(pos));
    }
    let p = skip_ws(s, p);
    let q = if at(s, p, '.') && s[pos] == '[' {
        p
    } else {
        let q = parse_predicate_object_list(s, p, st, &subject)?;
        skip_ws(s, q)
    };
    if !at(s, q, '.') {
        return Err(Error::ParseError(q));
    }
    Ok(q + 1)
}

/// The state between statements: `v` without its triples.
pub open spec fn between(v: PView) -> PView {
    PView { triples: Seq::empty(), ..v }
}

/// What reading on from a position finds.
pub enum Step {
    /// The triples of the next statement that makes any, the position after
    /// it and the state after it.
    Triples(Seq<TripleView>, int, PView),
    /// Only white space and comments are left.
    End(int),
    /// The next statement does not parse.
    Fail(Error),
}

/// Reading statements from `pos` in the state `v` (which holds no triples),
/// past directives, up to the first statement that makes triples.
pub open spec fn advance(s: Seq<char>, pos: int, v: PView) -> Step
    decreases s.len() - pos,
{
    let p = skip_ws_spec(s, pos);
    if !(0 <= pos <= p) || p >= s.len() {
        Step::End(p)
    } else {
        match statement_spec(s, p, v) {
            Err(e) => Step::Fail(e),
            Ok(a) => if !(p < a.0 <= s.len()) {
                Step::End(a.0)
            } else if a.1.triples.len() > 0 {
                Step::Triples(a.1.triples, a.0, between(a.1))
            } else {
                advance(s, a.0, a.1)
            },
        }
    }
}

/// Reading on makes progress.
pub proof fn lemma_advance_progress(s: Seq<char>, pos: int, v: PView)
    ensures
        advance(s, pos, v) matches Step::Triples(_, q, _) ==> pos < q <= s.len(),
    decreases s.len() - pos,
{
    let p = skip_ws_spec(s, pos);
    if 0 <= pos <= p && p < s.len() {
        if let Ok(a) = statement_spec(s, p, v) {
            if p < a.0 <= s.len() && a.1.triples.len() == 0 {
                lemma_advance_progress(s, a.0, a.1);
            }
        }
    }
}

/// The triples of the statements from `pos` on, in order, and the error that
/// stops the parse, if one does.
pub open spec fn document(s: Seq<char>, pos: int, v: PView) -> (Seq<TripleView>, Option<Error>)
    decreases s.len() - pos,
{
    match advance(s, pos, v) {
        Step::End(_) => (Seq::empty(), None),
        Step::Fail(e) => (Seq::empty(), Some(e)),
        Step::Triples(ts, q, v2) => if pos < q <= s.len() {
            let rest = document(s, q, v2);
            (ts + rest.0, rest.1)
        } else {
            (ts, None)
        },
    }
}

/// The state a parse starts in.
pub open spec fn initial_state(base: Seq<char>) -> PView {
    PView { base, prefixes: Seq::empty(), labels: Seq::empty(), next: 0, triples: Seq::empty() }
}

/// The triples of a whole Turtle text read against `base`, and the error
/// that stops it, if one does.
pub open spec fn parse_document(src: Seq<char>, base: Seq<char>) -> (Seq<TripleView>, Option<Error>) {
    document(src, skip_ws_spec(src, 0), initial_state(base))
}

/// Every blank node of the triple has an id that fits in 32 bits.
pub open spec fn fits(t: TripleView) -> bool {
    &&& (t.subject matches SubjectView::Blank(b) ==> b.0 <= u32::MAX)
    &&& (t.object matches ObjectView::Blank(b) ==> b.0 <= u32::MAX)
}

/// `r` hands out the first of `ts`, leaving the rest, or fails on it where a
/// blank-node id does not fit.
pub open spec fn yields(r: Option<Result<IteratorTriple, Error>>, ts: Seq<TripleView>, rest: Seq<TripleView>, finished: bool) -> bool {
    &&& ts.len() > 0
    &&& match r {
        Some(Ok(t)) => fits(ts[0]) && t.view() == ts[0] && rest == ts.drop_first(),
        Some(Err(e)) => !fits(ts[0]) && finished && e is Custom,
        None => false,
    }
}

/// A blank node of a parse.
#[derive(Clone, Copy, PartialEq, Eq, Debug)]
pub struct BlankNodePtr {
    pub graph_id: u32,
    pub node_id: u32,
}

impl BlankNodePtr {
    pub fn graph_id(&self) -> (r: u32)
        ensures
            r == self.graph_id,
    {
        self.graph_id
    }

    pub fn node_id(&self) -> (r: u32)
        ensures
            r == self.node_id,
    {
        self.node_id
    }
}

/// A resolved IRI.
#[derive(PartialEq, Eq, Debug)]
pub struct IRIPtr {
    pub iri: String,
}

impl IRIPtr {
    pub fn as_str(&self) -> (r: &str)
        ensures
            r@ == self.iri@,
    {
        self.iri.as_str()
    }
}

/// A literal with its lexical form unescaped.
#[derive(PartialEq, Eq, Debug)]
pub struct LiteralPtr {
    pub lexical: String,
    pub datatype: String,
    pub language: Option<String>,
}

impl LiteralPtr {
    pub fn as_str(&self) -> (r: &str)
        ensures
            r@ == self.lexical@,
    {
        self.lexical.as_str()
    }

    pub fn datatype(&self) -> (r: &str)
        ensures
            r@ == self.datatype@,
    {
        self.datatype.as_str()
    }

    pub fn language(&self) -> (r: Option<&str>)
        ensures
            match (r, self.language) {
                (Some(a), Some(b)) => a@ == b@,
                (None, None) => true,
                _ => false,
            },
    {
        match &self.language {
            Some(l) => Some(l.as_str()),
            None => None,
        }
    }
}

#[derive(PartialEq, Eq, Debug)]
pub enum BlankNodeOrIRI {
    BlankNode(BlankNodePtr),
    IRI(IRIPtr),
}

#[derive(PartialEq, Eq, Debug)]
pub enum Resource {
    BlankNode(BlankNodePtr),
    IRI(IRIPtr),
    Literal(LiteralPtr),
}

/// A triple as the parser hands it out.
#[derive(PartialEq, Eq, Debug)]
pub struct IteratorTriple {
    pub subject: BlankNodeOrIRI,
    pub predicate: IRIPtr,
    pub object: Resource,
}

pub open spec fn literal_ptr_view(l: LiteralPtr) -> LiteralView {
    LiteralView {
        lexical: l.lexical@,
        datatype: l.datatype@,
        language: match l.language {
            Some(x) => Some(x@),
            None => None,
        },
    }
}

impl IteratorTriple {
    pub open spec fn view(&self) -> TripleView {
        TripleView {
            subject: match self.subject {
                BlankNodeOrIRI::BlankNode(b) => SubjectView::Blank((b.node_id as usize, b.graph_id as usize)),
                BlankNodeOrIRI::IRI(i) => SubjectView::Iri(i.iri@),
            },
            predicate: self.predicate.iri@,
            object: match self.object {
                Resource::BlankNode(b) => ObjectView::Blank((b.node_id as usize, b.graph_id as usize)),
                Resource::IRI(i) => ObjectView::Iri(i.iri@),
                Resource::Literal(l) => ObjectView::Literal(literal_ptr_view(l)),
            },
        }
    }
}

impl ParsedTriple {
    pub open spec fn view(&self) -> TripleView {
        TripleView {
            subject: term_subject_view(self.subject),
            predicate: self.predicate@,
            object: term_object_view(self.object),
        }
    }
}

/// A blank node whose id does not fit in 32 bits.
pub open spec fn blank_too_large(t: Term) -> bool {
    t matches Term::Blank(b) && b > u32::MAX
}

fn blank_ptr(b: usize) -> (r: Result<BlankNodePtr, Error>)
    ensures
        match r {
            Ok(p) => b <= u32::MAX && p.node_id == b && p.graph_id == 0,
            Err(e) => b > u32::MAX && e is Custom,
        },
{
    if b > u32::MAX as usize {
        return Err(Error::Custom("blank node id out of range"));
    }
    Ok(BlankNodePtr { graph_id: 0, node_id: b as u32 })
}

/// The triple with its strings built.
fn resolve_triple(t: &ParsedTriple) -> (r: Result<IteratorTriple, Error>)
    ensures
        r matches Ok(x) ==> x.view() == t.view(),
        r matches Err(e) ==> e is Custom,
        r is Err <==> (t.subject is Literal || blank_too_large(t.subject) || blank_too_large(t.object)),
{
    let subject = match &t.subject {
        Term::Iri(i) => BlankNodeOrIRI::IRI(IRIPtr { iri: string_of(i) }),
        Term::Blank(b) => BlankNodeOrIRI::BlankNode(blank_ptr(*b)?),
        Term::Literal(_, _, _) => {
            return Err(Error::Custom("a literal cannot be a subject"));
        },
    };
    let object = match &t.object {
        Term::Iri(i) => Resource::IRI(IRIPtr { iri: string_of(i) }),
        Term::Blank(b) => Resource::BlankNode(blank_ptr(*b)?),
        Term::Literal(l, d, lang) => Resource::Literal(LiteralPtr {
            lexical: string_of(l),
            datatype: string_of(d),
            language: match lang {
                Some(x) => Some(string_of(x)),
                None => None,
            },
        }),
    };
    Ok(IteratorTriple { subject, predicate: IRIPtr { iri: string_of(&t.predicate) }, object })
}

/// The triples of a Turtle document, read one statement at a time. After the
/// first error it yields nothing more.
pub struct TripleIterator {
    chars: Vec<char>,
    pos: usize,
    state: ParseState,
    next_triple: usize,
    done: bool,
}

impl TripleIterator {
    pub closed spec fn wf(&self) -> bool {
        &&& short(self.chars@)
        &&& self.pos <= self.chars@.len()
        &&& self.state.wf()
        &&& (self.done ==> self.next_triple >= self.state.triples@.len())
        &&& self.next_triple <= self.state.triples@.len()
    }

    /// The text being parsed.
    pub closed spec fn text(&self) -> Seq<char> {
        self.chars@
    }

    /// The blank-node labels met so far, and the next fresh id.
    pub closed spec fn blank_nodes(&self) -> BlankNodes {
        self.state.blank_nodes
    }

    /// Where the next statement is read from.
    pub closed spec fn position(&self) -> int {
        self.pos as int
    }

    /// Triples of the last statement read are still to be handed out.
    pub closed spec fn has_pending(&self) -> bool {
        self.next_triple < self.state.triples@.len()
    }

    /// The base IRI in force.
    pub closed spec fn base(&self) -> Seq<char> {
        self.state.base@
    }

    /// No triple or error is left to come.
    pub closed spec fn finished(&self) -> bool {
        self.done && self.next_triple >= self.state.triples@.len()
    }

    /// A parser of `src` whose relative IRIs resolve against `base`, which
    /// must be absolute.
    pub fn new(src: &str, base: &str) -> (r: Result<TripleIterator, Error>)
        ensures
            match r {
                Ok(it) => {
                    &&& it.wf()
                    &&& !it.finished()
                    &&& is_absolute_spec(base@)
                    &&& short(src@)
                    &&& it.text() == src@
                    &&& it.position() == skip_ws_spec(src@, 0)
                    &&& !it.has_pending()
                    &&& it.base() == base@
                    &&& it.prefix_table().len() == 0
                    &&& it.blank_nodes().next() == 0
                    &&& it.pstate() == initial_state(base@)
                    &&& !it.is_done()
                },
                Err(e) => if !is_absolute_spec(base@) {
                    e == Error::InvalidBase
                } else {
                    !short(src@) && e == Error::Custom("input too long")
                },
            },
    {
        let b = chars_of(base);
        if !is_absolute_chars(&b) {
            return Err(Error::InvalidBase);
        }
        let chars = chars_of(src);
        if chars.len() >= usize::MAX - 16 {
            return Err(Error::Custom("input too long"));
        }
        let pos = skip_ws(&chars, 0);
        let it = TripleIterator {
            chars,
            pos,
            state: ParseState { base: b, prefixes: Vec::new(), blank_nodes: BlankNodes::new(), triples: Vec::new() },
            next_triple: 0,
            done: false,
        };
        assert(it.prefix_table() =~= Seq::<(Seq<char>, Seq<char>)>::empty());
        assert(table_view(it.state.prefixes@) =~= Seq::<(Seq<char>, Seq<char>)>::empty());
        assert(it.state.view() =~= Seq::<TripleView>::empty());
        assert(it.pstate() == initial_state(base@));
        Ok(it)
    }

    /// The prefixes declared so far, with their namespaces.
    pub closed spec fn prefix_table(&self) -> Seq<(Seq<char>, Seq<char>)> {
        self.state.prefixes@.map_values(|e: (Vec<char>, Vec<char>)| (e.0@, e.1@))
    }

    /// The prefixes declared so far, with their namespaces, in order of
    /// first declaration.
    pub fn prefixes(&self) -> (r: Vec<(String, String)>)
        ensures
            r@.len() == self.prefix_table().len(),
            forall|i: int| 0 <= i < r@.len() ==> ((#[trigger] r@[i]).0@, r@[i].1@) == self.prefix_table()[i],
    {
        let mut r: Vec<(String, String)> = Vec::new();
        let mut i: usize = 0;
        while i < self.state.prefixes.len()
            invariant
                i <= self.state.prefixes@.len(),
                r@.len() == i,
                forall|k: int| 0 <= k < i ==> ((#[trigger] r@[k]).0@, r@[k].1@) == self.prefix_table()[k],
            decreases self.state.prefixes@.len() - i,
        {
            r.push((string_of(&self.state.prefixes[i].0), string_of(&self.state.prefixes[i].1)));
            i += 1;
        }
        r
    }

    /// The state between statements: base, prefixes and blank nodes.
    pub closed spec fn pstate(&self) -> PView {
        between(self.state.pv())
    }

    /// The triples of the last statement read not yet handed out.
    pub closed spec fn pending(&self) -> Seq<TripleView> {
        self.state.view().subrange(self.next_triple as int, self.state.view().len() as int)
    }

    /// The text is read to its end, or an error ended the parse.
    pub closed spec fn is_done(&self) -> bool {
        self.done
    }

    /// The triples still to come, and the error that will end the parse, if
    /// one will.
    pub open spec fn remaining(&self) -> (Seq<TripleView>, Option<Error>) {
        if self.is_done() {
            (self.pending(), None)
        } else {
            let d = document(self.text(), self.position(), self.pstate());
            (self.pending() + d.0, d.1)
        }
    }

    /// What the invariant gives callers.
    pub proof fn lemma_wf(&self)
        requires
            self.wf(),
        ensures
            self.is_done() ==> !self.has_pending(),
            self.has_pending() <==> self.pending().len() > 0,
            self.finished() <==> (self.is_done() && !self.has_pending()),
    {
        assert(self.state.view().len() == self.state.triples@.len());
    }

    /// The next triple, or the error that ends the parse, or `None` at the end.
    #[verifier::rlimit(50)]
    pub fn next(&mut self) -> (r: Option<Result<IteratorTriple, Error>>)
        requires
            old(self).wf(),
        ensures
            final(self).wf(),
            old(self).finished() ==> r is None && final(self).finished(),
            r is None ==> final(self).finished(),
            r matches Some(Err(_)) ==> final(self).finished(),
            final(self).text() == old(self).text(),
            final(self).blank_nodes().keeps(&old(self).blank_nodes()),
            !old(self).has_pending() && skip_ws_spec(old(self).text(), old(self).position()) == old(self).text().len()
                ==> r is None,
            old(self).has_pending() ==> yields(r, old(self).pending(), final(self).pending(), final(self).finished())
                && final(self).position() == old(self).position() && final(self).pstate() == old(self).pstate(),
            !old(self).has_pending() && old(self).is_done() ==> r is None,
            !old(self).has_pending() && !old(self).is_done() ==> match advance(old(self).text(), old(self).position(), old(self).pstate()) {
                Step::End(_) => r is None,
                Step::Fail(e) => r matches Some(Err(x)) && x == e,
                Step::Triples(ts, q, v) => yields(r, ts, final(self).pending(), final(self).finished())
                    && final(self).position() == q && final(self).pstate() == v,
            },
            r matches Some(Ok(_)) ==> !final(self).is_done(),
    {
        let ghost g = advance(self.chars@, self.pos as int, self.pstate());
        loop
            invariant
                self.wf(),
                old(self).finished() ==> self == old(self),
                old(self).has_pending() ==> self == old(self),
                old(self).is_done() ==> self.done,
                self.chars == old(self).chars,
                self.state.blank_nodes.keeps(&old(self).state.blank_nodes),
                !old(self).has_pending() && skip_ws_spec(old(self).text(), old(self).position()) == old(self).text().len()
                    ==> self == old(self),
                g == advance(old(self).text(), old(self).position(), old(self).pstate()),
                !old(self).has_pending() && !old(self).is_done() ==> !self.done && (if self.has_pending() {
                    self.next_triple == 0 && g == Step::Triples(self.pending(), self.pos as int, self.pstate())
                } else {
                    g == advance(self.chars@, self.pos as int, self.pstate())
                }),
            decreases self.chars@.len() - self.pos, if self.done { 0nat } else { 1nat },
        {
            if self.next_triple < self.state.triples.len() {
                let ghost before = self.pending();
                let t = resolve_triple(&self.state.triples[self.next_triple]);
                self.next_triple = self.next_triple + 1;
                match t {
                    Ok(t) => {
                        assert(self.pending() =~= before.drop_first());
                        return Some(Ok(t));
                    },
                    Err(e) => {
                        self.done = true;
                        self.next_triple = self.state.triples.len();
                        return Some(Err(e));
                    },
                }
            }
            if self.done {
                return None;
            }
            self.state.triples.clear();
            self.next_triple = 0;
            assert(self.state.view() =~= Seq::<TripleView>::empty());
            assert(self.state.pv() == self.pstate());
            let p = skip_ws(&self.chars, self.pos);
            if p >= self.chars.len() {
                self.pos = p;
                self.done = true;
                return None;
            }
            let ghost pos0 = self.pos as int;
            let ghost v1 = self.state.pv();
            match parse_statement(&self.chars, p, &mut self.state) {
                Ok(q) => {
                    self.pos = q;
                    proof {
                        let v2 = self.state.pv();
                        assert(statement_spec(self.chars@, p as int, v1) == Ok::<(int, PView), Error>((q as int, v2)));
                        assert(self.pending() =~= self.state.view());
                        if self.state.view().len() == 0 {
                            assert(v2.triples =~= Seq::<TripleView>::empty());
                            assert(between(v2) == v2);
                            assert(advance(self.chars@, pos0, v1) == advance(self.chars@, q as int, v2));
                        } else {
                            assert(advance(self.chars@, pos0, v1) == Step::Triples(v2.triples, q as int, between(v2)));
                        }
                    }
                },
                Err(e) => {
                    self.done = true;
                    self.next_triple = self.state.triples.len();
                    return Some(Err(e));
                },
            }
        }
    }
}

} // verus!
