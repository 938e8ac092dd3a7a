//! IRI helpers: absolute IRIs, resolution of relative references, and
//! building strings from characters.
use vstd::prelude::*;

verus! {

pub open spec fn is_scheme_char(c: char) -> bool {
    ('a' <= c && c <= 'z') || ('0' <= c && c <= '9') || c == '+' || c == '.' || c == '-'
}

/// `s` begins with a scheme: a lower-case letter, then letters, digits, `+`,
/// `.` or `-`, then `:`.
pub open spec fn is_absolute_spec(s: Seq<char>) -> bool {
    &&& s.len() > 0
    &&& 'a' <= s[0] && s[0] <= 'z'
    &&& exists|k: int| 1 <= k < s.len() && s[k] == ':' && forall|j: int| 1 <= j < k ==> is_scheme_char(#[trigger] s[j])
}

/// Whether the characters begin with a scheme.
pub fn is_absolute_chars(s: &Vec<char>) -> (r: bool)
    ensures
        r == is_absolute_spec(s@),
{
    if s.len() == 0 || !('a' <= s[0] && s[0] <= 'z') {
        return false;
    }
    let mut i: usize = 1;
    while i < s.len() && (('a' <= s[i] && s[i] <= 'z') || ('0' <= s[i] && s[i] <= '9') || s[i] == '+' || s[i] == '.' || s[i] == '-')
        invariant
            1 <= i <= s@.len(),
            forall|j: int| 1 <= j < i ==> is_scheme_char(#[trigger] s@[j]),
        decreases s@.len() - i,
    {
        i += 1;
    }
    let r = i < s.len() && s[i] == ':';
    proof {
        if !r && is_absolute_spec(s@) {
            let k = choose|k: int| 1 <= k < s@.len() && s@[k] == ':' && forall|j: int| 1 <= j < k ==> is_scheme_char(#[trigger] s@[j]);
            if k < i {
                assert(is_scheme_char(s@[k]));
            } else if k > i {
                assert(is_scheme_char(s@[i as int]));
            }
        }
    }
    r
}

/// Whether `url` is an absolute IRI: it begins with a scheme.
pub fn is_absolute(url: &str) -> (r: bool)
    ensures
        r == is_absolute_spec(url@),
{
    let c = crate::strings::str_chars(url);
    is_absolute_chars(&c)
}

/// The position of the last `c` in `s`, or -1.
pub open spec fn last_index_of(s: Seq<char>, c: char) -> int
    decreases s.len(),
{
    if s.len() == 0 {
        -1
    } else if s.last() == c {
        s.len() - 1
    } else {
        last_index_of(s.drop_last(), c)
    }
}

proof fn lemma_last_index_of(s: Seq<char>, c: char)
    ensures
        -1 <= last_index_of(s, c) < s.len(),
        last_index_of(s, c) >= 0 ==> s[last_index_of(s, c)] == c,
        forall|j: int| last_index_of(s, c) < j < s.len() ==> s[j] != c,
    decreases s.len(),
{
    if s.len() > 0 && s.last() != c {
        lemma_last_index_of(s.drop_last(), c);
        let d = s.drop_last();
        assert forall|j: int| last_index_of(s, c) < j < s.len() implies s[j] != c by {
            if j < s.len() - 1 {
                assert(s[j] == d[j]);
            }
        }
    }
}

/// `p` resolved against `base`: an absolute `p` stands as it is; one that
/// starts with `#` is appended to the base; any other is appended to the base
/// cut after its last `/`, or to the whole base where it has no `/`.
pub open spec fn join_iri_spec(base: Seq<char>, p: Seq<char>) -> Seq<char> {
    if is_absolute_spec(p) {
        p
    } else if p.len() > 0 && p[0] == '#' {
        base + p
    } else if last_index_of(base, '/') < 0 {
        base + p
    } else {
        base.subrange(0, last_index_of(base, '/') + 1) + p
    }
}

/// Relies on `String::push`: the character is appended.
#[verifier::external_body]
fn push_char(s: &mut String, c: char)
    ensures
        final(s)@ == old(s)@.push(c),
{
    s.push(c)
}

/// The string of the characters.
pub fn string_of(v: &Vec<char>) -> (r: String)
    ensures
        r@ == v@,
{
    let mut r = String::new();
    let mut i: usize = 0;
    while i < v.len()
        invariant
            i <= v@.len(),
            r@ == v@.subrange(0, i as int),
        decreases v@.len() - i,
    {
        push_char(&mut r, v[i]);
        assert(r@ =~= v@.subrange(0, i + 1));
        i += 1;
    }
    assert(r@ =~= v@);
    r
}

/// `a` followed by `b`.
pub fn concat_chars(a: &Vec<char>, b: &Vec<char>) -> (r: Vec<char>)
    ensures
        r@ == a@ + b@,
{
    let mut r: Vec<char> = Vec::new();
    let mut i: usize = 0;
    while i < a.len()
        invariant
            i <= a@.len(),
            r@ == a@.subrange(0, i as int),
        decreases a@.len() - i,
    {
        r.push(a[i]);
        assert(r@ =~= a@.subrange(0, i + 1));
        i += 1;
    }
    let mut j: usize = 0;
    while j < b.len()
        invariant
            i == a@.len(),
            j <= b@.len(),
            r@ == a@ + b@.subrange(0, j as int),
        decreases b@.len() - j,
    {
        r.push(b[j]);
        assert(r@ =~= a@ + b@.subrange(0, j + 1));
        j += 1;
    }
    assert(b@.subrange(0, b@.len() as int) =~= b@);
    r
}

/// The first `n` characters of `a`.
pub fn prefix_chars(a: &Vec<char>, n: usize) -> (r: Vec<char>)
    requires
        n <= a@.len(),
    ensures
        r@ == a@.subrange(0, n as int),
{
    let mut r: Vec<char> = Vec::with_capacity(n);
    let mut i: usize = 0;
    while i < n
        invariant
            n <= a@.len(),
            i <= n,
            r@ == a@.subrange(0, i as int),
        decreases n - i,
    {
        r.push(a[i]);
        assert(r@ =~= a@.subrange(0, i + 1));
        i += 1;
    }
    r
}

/// Resolves the reference `p` against `base`.
pub fn join_iri(base: &Vec<char>, p: &Vec<char>) -> (r: Vec<char>)
    ensures
        r@ == join_iri_spec(base@, p@),
{
    if is_absolute_chars(p) {
        return crate::strings::copy_chars(p);
    }
    if p.len() > 0 && p[0] == '#' {
        return concat_chars(base, p);
    }
    let mut end: usize = base.len();
    while end > 0 && base[end - 1] != '/'
        invariant
            end <= base@.len(),
            forall|j: int| end <= j < base@.len() ==> base@[j] != '/',
        decreases end,
    {
        end -= 1;
    }
    proof {
        lemma_last_index_of(base@, '/');
        let l = last_index_of(base@, '/');
        if end > 0 {
            assert(base@[end - 1] == '/');
            assert(l >= end - 1);
            if l > end - 1 {
                assert(base@[l] != '/');
            }
        } else {
            if l >= 0 {
                assert(base@[l] != '/');
            }
        }
        assert(l + 1 == end);
    }
    if end == 0 {
        return concat_chars(base, p);
    }
    let head = prefix_chars(base, end);
    concat_chars(&head, p)
}

} // verus!
