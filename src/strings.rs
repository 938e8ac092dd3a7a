//! String interning: ids in insertion order while building, then renumbered so
//! that id order is the lexicographic order of the strings.
use vstd::prelude::*;

verus! {

/// Lexicographic order on character sequences, comparing from position `i` on.
pub open spec fn lex_lt_from(a: Seq<char>, b: Seq<char>, i: int) -> bool
    decreases a.len() - i,
{
    if i < 0 || i >= a.len() {
        i >= 0 && b.len() > i
    } else if i >= b.len() {
        false
    } else if a[i] != b[i] {
        a[i] < b[i]
    } else {
        lex_lt_from(a, b, i + 1)
    }
}

/// `a` comes before `b` in the order of Rust's `str`: by code points, a proper
/// prefix first.
pub open spec fn lex_lt(a: Seq<char>, b: Seq<char>) -> bool {
    lex_lt_from(a, b, 0)
}

proof fn lemma_lex_irreflexive(a: Seq<char>, i: int)
    requires
        0 <= i,
    ensures
        !lex_lt_from(a, a, i),
    decreases a.len() - i,
{
    if i < a.len() {
        lemma_lex_irreflexive(a, i + 1);
    }
}

proof fn lemma_lex_asymmetric(a: Seq<char>, b: Seq<char>, i: int)
    requires
        0 <= i,
    ensures
        lex_lt_from(a, b, i) ==> !lex_lt_from(b, a, i),
    decreases a.len() - i,
{
    if i < a.len() && i < b.len() && a[i] == b[i] {
        lemma_lex_asymmetric(a, b, i + 1);
    }
}

proof fn lemma_lex_transitive(a: Seq<char>, b: Seq<char>, c: Seq<char>, i: int)
    requires
        0 <= i,
    ensures
        lex_lt_from(a, b, i) && lex_lt_from(b, c, i) ==> lex_lt_from(a, c, i),
    decreases a.len() - i,
{
    if i < a.len() && i < b.len() && i < c.len() && a[i] == b[i] && b[i] == c[i] {
        lemma_lex_transitive(a, b, c, i + 1);
    }
}

proof fn lemma_lex_total(a: Seq<char>, b: Seq<char>, i: int)
    requires
        0 <= i <= a.len(),
        i <= b.len(),
        a.subrange(0, i) == b.subrange(0, i),
    ensures
        a == b || lex_lt_from(a, b, i) || lex_lt_from(b, a, i),
    decreases a.len() - i,
{
    if i < a.len() && i < b.len() && a[i] == b[i] {
        assert(a.subrange(0, i + 1) =~= a.subrange(0, i).push(a[i]));
        assert(b.subrange(0, i + 1) =~= b.subrange(0, i).push(b[i]));
        lemma_lex_total(a, b, i + 1);
    }
    if i < a.len() && i < b.len() && a[i] != b[i] {
        assert(a[i] < b[i] || b[i] < a[i]);
    }
    if a.len() == i && b.len() == i {
        assert(a =~= a.subrange(0, i));
        assert(b =~= b.subrange(0, i));
    }
}

/// `lex_lt` is a strict total order.
pub proof fn lemma_lex_order(a: Seq<char>, b: Seq<char>, c: Seq<char>)
    ensures
        !lex_lt(a, a),
        lex_lt(a, b) ==> !lex_lt(b, a),
        lex_lt(a, b) && lex_lt(b, c) ==> lex_lt(a, c),
        a == b || lex_lt(a, b) || lex_lt(b, a),
{
    assert(a.subrange(0, 0) =~= b.subrange(0, 0));
    lemma_lex_irreflexive(a, 0);
    lemma_lex_asymmetric(a, b, 0);
    lemma_lex_transitive(a, b, c, 0);
    lemma_lex_total(a, b, 0);
}

} // verus!

verus! {

/// The characters of `s`.
pub fn str_chars(s: &str) -> (r: Vec<char>)
    ensures
        r@ == s@,
{
    let n = s.unicode_len();
    let mut r: Vec<char> = Vec::new();
    let mut i: usize = 0;
    while i < n
        invariant
            n == s@.len(),
            i <= n,
            r@ == s@.subrange(0, i as int),
        decreases n - i,
    {
        r.push(s.get_char(i));
        assert(r@ =~= s@.subrange(0, i + 1));
        i += 1;
    }
    assert(r@ =~= s@);
    r
}

pub fn copy_chars(v: &Vec<char>) -> (r: Vec<char>)
    ensures
        r@ == v@,
{
    let mut r: Vec<char> = Vec::new();
    let mut i: usize = 0;
    while i < v.len()
        invariant
            i <= v@.len(),
            r@ == v@.subrange(0, i as int),
        decreases v@.len() - i,
    {
        r.push(v[i]);
        assert(r@ =~= v@.subrange(0, i + 1));
        i += 1;
    }
    assert(r@ =~= v@);
    r
}

/// Whether two character sequences are equal.
pub fn chars_eq(a: &Vec<char>, b: &Vec<char>) -> (r: bool)
    ensures
        r == (a@ == b@),
{
    if a.len() != b.len() {
        return false;
    }
    let mut i: usize = 0;
    while i < a.len()
        invariant
            a@.len() == b@.len(),
            i <= a@.len(),
            forall|k: int| 0 <= k < i ==> a@[k] == b@[k],
        decreases a@.len() - i,
    {
        if a[i] != b[i] {
            return false;
        }
        i += 1;
    }
    assert(a@ =~= b@);
    true
}

/// Whether two strings are equal.
pub fn str_eq(a: &str, b: &str) -> (r: bool)
    ensures
        r == (a@ == b@),
{
    let x = str_chars(a);
    let y = str_chars(b);
    chars_eq(&x, &y)
}

/// Whether `a` comes before `b` lexicographically.
pub fn chars_less(a: &Vec<char>, b: &Vec<char>) -> (r: bool)
    ensures
        r == lex_lt(a@, b@),
{
    let mut i: usize = 0;
    while i < a.len() && i < b.len() && a[i] == b[i]
        invariant
            i <= a@.len(),
            i <= b@.len(),
            lex_lt(a@, b@) == lex_lt_from(a@, b@, i as int),
        decreases a@.len() - i,
    {
        i += 1;
    }
    if i >= a.len() {
        i < b.len()
    } else if i >= b.len() {
        false
    } else {
        a[i] < b[i]
    }
}

/// An id of the primary or the secondary string table.
#[derive(Clone, Copy, PartialEq, Eq, Debug, Structural)]
pub struct StringId {
    pub id: u32,
}

pub open spec fn distinct(s: Seq<Seq<char>>) -> bool {
    forall|i: int, j: int| 0 <= i < j < s.len() ==> s[i] != s[j]
}

pub open spec fn lex_sorted(s: Seq<Seq<char>>) -> bool {
    forall|i: int, j: int| 0 <= i < j < s.len() ==> lex_lt(#[trigger] s[i], #[trigger] s[j])
}

/// Interns strings while a graph is built: one id per distinct string, in
/// order of first insertion.
pub struct StringCollector {
    strings: Vec<String>,
    chars: Vec<Vec<char>>,
}

impl StringCollector {
    /// The interned strings, indexed by id.
    pub closed spec fn view(&self) -> Seq<Seq<char>> {
        self.strings@.map_values(|s: String| s@)
    }

    pub closed spec fn wf(&self) -> bool {
        &&& self.strings@.len() == self.chars@.len()
        &&& forall|i: int| 0 <= i < self.chars@.len() ==> (#[trigger] self.chars@[i])@ == self.strings@[i]@
        &&& distinct(self@)
        &&& self.strings@.len() <= u32::MAX
    }

    pub fn with_capacity(capacity: usize) -> (r: StringCollector)
        ensures
            r.wf(),
            r@ == Seq::<Seq<char>>::empty(),
    {
        let r = StringCollector { strings: Vec::with_capacity(capacity), chars: Vec::with_capacity(capacity) };
        assert(r@ =~= Seq::<Seq<char>>::empty());
        r
    }

    pub fn len(&self) -> (r: usize)
        requires
            self.wf(),
        ensures
            r == self@.len(),
    {
        self.strings.len()
    }

    /// The id of `s`, interning it if it is new.
    pub fn add_string(&mut self, s: &str) -> (r: StringId)
        requires
            old(self).wf(),
            old(self)@.len() < u32::MAX,
        ensures
            final(self).wf(),
            final(self)@ == if old(self)@.contains(s@) { old(self)@ } else { old(self)@.push(s@) },
            r.id < final(self)@.len(),
            final(self)@[r.id as int] == s@,
    {
        let c = str_chars(s);
        let mut i: usize = 0;
        while i < self.chars.len()
            invariant
                self.wf(),
                c@ == s@,
                i <= self@.len(),
                forall|k: int| 0 <= k < i ==> self@[k] != s@,
            decreases self@.len() - i,
        {
            if chars_eq(&self.chars[i], &c) {
                assert(self@[i as int] == s@);
                assert(self@.contains(s@));
                return StringId { id: i as u32 };
            }
            i += 1;
        }
        let id = self.strings.len() as u32;
        let ghost o = self@;
        self.strings.push(s.to_owned());
        self.chars.push(c);
        assert(self@ =~= o.push(s@));
        assert(!o.contains(s@));
        StringId { id }
    }

    /// The ids in `a` and `b`, each strictly sorted by their strings, merged
    /// in that order.
    #[verifier::rlimit(40)]
    fn merge_ids(&self, a: &Vec<usize>, b: &Vec<usize>) -> (r: Vec<usize>)
        requires
            self.wf(),
            forall|k: int| 0 <= k < a@.len() ==> (#[trigger] a@[k]) < self@.len(),
            forall|k: int| 0 <= k < b@.len() ==> (#[trigger] b@[k]) < self@.len(),
            forall|x: int, y: int| 0 <= x < y < a@.len() ==> lex_lt(#[trigger] self@[a@[x] as int], #[trigger] self@[a@[y] as int]),
            forall|x: int, y: int| 0 <= x < y < b@.len() ==> lex_lt(#[trigger] self@[b@[x] as int], #[trigger] self@[b@[y] as int]),
            forall|x: int, y: int| 0 <= x < a@.len() && 0 <= y < b@.len() ==> a@[x] != b@[y],
        ensures
            r@.len() == a@.len() + b@.len(),
            forall|k: int| 0 <= k < r@.len() ==> (#[trigger] r@[k]) < self@.len(),
            forall|x: int, y: int| 0 <= x < y < r@.len() ==> lex_lt(#[trigger] self@[r@[x] as int], #[trigger] self@[r@[y] as int]),
            forall|x: usize| r@.contains(x) <==> (a@.contains(x) || b@.contains(x)),
    {
        let ghost v = self@;
        let mut r: Vec<usize> = Vec::new();
        let mut i: usize = 0;
        let mut j: usize = 0;
        while i < a.len() || j < b.len()
            invariant
                self.wf(),
                v == self@,
                forall|k: int| 0 <= k < a@.len() ==> (#[trigger] a@[k]) < v.len(),
                forall|k: int| 0 <= k < b@.len() ==> (#[trigger] b@[k]) < v.len(),
                forall|x: int, y: int| 0 <= x < y < a@.len() ==> lex_lt(#[trigger] v[a@[x] as int], #[trigger] v[a@[y] as int]),
                forall|x: int, y: int| 0 <= x < y < b@.len() ==> lex_lt(#[trigger] v[b@[x] as int], #[trigger] v[b@[y] as int]),
                forall|x: int, y: int| 0 <= x < a@.len() && 0 <= y < b@.len() ==> a@[x] != b@[y],
                i <= a@.len(),
                j <= b@.len(),
                r@.len() == i + j,
                forall|k: int| 0 <= k < r@.len() ==> (#[trigger] r@[k]) < v.len(),
                forall|x: int, y: int| 0 <= x < y < r@.len() ==> lex_lt(#[trigger] v[r@[x] as int], #[trigger] v[r@[y] as int]),
                r@.len() > 0 && i < a@.len() ==> lex_lt(v[r@.last() as int], v[a@[i as int] as int]),
                r@.len() > 0 && j < b@.len() ==> lex_lt(v[r@.last() as int], v[b@[j as int] as int]),
                forall|x: usize| r@.contains(x) <==> (a@.subrange(0, i as int).contains(x) || b@.subrange(0, j as int).contains(x)),
            decreases a@.len() + b@.len() - i - j,
        {
            let ghost ro = r@;
            let ghost io = i as int;
            let ghost jo = j as int;
            let take_a = j >= b.len() || (i < a.len() && chars_less(&self.chars[a[i]], &self.chars[b[j]]));
            let x = if take_a { a[i] } else { b[j] };
            proof {
                assert(self.chars@[x as int]@ == v[x as int]);
                if take_a && j < b@.len() {
                    assert(self.chars@[a@[io] as int]@ == v[a@[io] as int]);
                    assert(self.chars@[b@[jo] as int]@ == v[b@[jo] as int]);
                }
                if !take_a && i < a@.len() {
                    assert(self.chars@[a@[io] as int]@ == v[a@[io] as int]);
                    assert(self.chars@[b@[jo] as int]@ == v[b@[jo] as int]);
                    assert(a@[io] != b@[jo]);
                    assert(v[a@[io] as int] != v[b@[jo] as int]);
                    lemma_lex_order(v[a@[io] as int], v[b@[jo] as int], v[b@[jo] as int]);
                }
            }
            r.push(x);
            if take_a {
                i += 1;
            } else {
                j += 1;
            }
            proof {
                let xv = v[x as int];
                assert forall|p: int, q: int| 0 <= p < q < r@.len() implies lex_lt(#[trigger] v[r@[p] as int], #[trigger] v[r@[q] as int]) by {
                    if q == r@.len() - 1 && p < ro.len() - 1 {
                        assert(lex_lt(v[ro[p] as int], v[ro[ro.len() - 1] as int]));
                        lemma_lex_order(v[ro[p] as int], v[ro[ro.len() - 1] as int], xv);
                    }
                }
                if i < a@.len() {
                    if take_a {
                        assert(lex_lt(v[a@[io] as int], v[a@[i as int] as int]));
                    }
                }
                if j < b@.len() {
                    if !take_a {
                        assert(lex_lt(v[b@[jo] as int], v[b@[j as int] as int]));
                    }
                }
                assert(a@.subrange(0, i as int) =~= a@.subrange(0, io) + a@.subrange(io, i as int));
                assert(b@.subrange(0, j as int) =~= b@.subrange(0, jo) + b@.subrange(jo, j as int));
                assert forall|y: usize| r@.contains(y) <==> (a@.subrange(0, i as int).contains(y) || b@.subrange(0, j as int).contains(y)) by {
                    if r@.contains(y) {
                        let k = choose|k: int| 0 <= k < r@.len() && r@[k] == y;
                        if k < ro.len() {
                            assert(ro.contains(y));
                            if a@.subrange(0, io).contains(y) {
                                let m = choose|m: int| 0 <= m < io && a@.subrange(0, io)[m] == y;
                                assert(a@.subrange(0, i as int)[m] == y);
                            } else {
                                let m = choose|m: int| 0 <= m < jo && b@.subrange(0, jo)[m] == y;
                                assert(b@.subrange(0, j as int)[m] == y);
                            }
                        } else if take_a {
                            assert(a@.subrange(0, i as int)[io] == y);
                        } else {
                            assert(b@.subrange(0, j as int)[jo] == y);
                        }
                    }
                    if a@.subrange(0, i as int).contains(y) {
                        let m = choose|m: int| 0 <= m < i && a@.subrange(0, i as int)[m] == y;
                        if m < io {
                            assert(a@.subrange(0, io)[m] == y);
                            assert(ro.contains(y));
                            let k = choose|k: int| 0 <= k < ro.len() && ro[k] == y;
                            assert(r@[k] == y);
                        } else {
                            assert(r@[r@.len() - 1] == y);
                        }
                    }
                    if b@.subrange(0, j as int).contains(y) {
                        let m = choose|m: int| 0 <= m < j && b@.subrange(0, j as int)[m] == y;
                        if m < jo {
                            assert(b@.subrange(0, jo)[m] == y);
                            assert(ro.contains(y));
                            let k = choose|k: int| 0 <= k < ro.len() && ro[k] == y;
                            assert(r@[k] == y);
                        } else {
                            assert(r@[r@.len() - 1] == y);
                        }
                    }
                }
            }
        }
        assert(a@.subrange(0, a@.len() as int) =~= a@);
        assert(b@.subrange(0, b@.len() as int) =~= b@);
        r
    }

    /// The ids `lo..hi` ordered by their strings, by merge sort.
    fn order_range(&self, lo: usize, hi: usize) -> (r: Vec<usize>)
        requires
            self.wf(),
            lo <= hi <= self@.len(),
        ensures
            r@.len() == hi - lo,
            forall|k: int| 0 <= k < r@.len() ==> lo <= (#[trigger] r@[k]) < hi,
            forall|x: usize| lo <= x < hi ==> #[trigger] r@.contains(x),
            forall|x: int, y: int| 0 <= x < y < r@.len() ==> lex_lt(#[trigger] self@[r@[x] as int], #[trigger] self@[r@[y] as int]),
        decreases hi - lo,
    {
        if hi - lo == 0 {
            return Vec::new();
        }
        if hi - lo == 1 {
            let mut r: Vec<usize> = Vec::new();
            r.push(lo);
            assert(r@[0] == lo);
            return r;
        }
        let mid = lo + (hi - lo) / 2;
        let a = self.order_range(lo, mid);
        let b = self.order_range(mid, hi);
        let r = self.merge_ids(&a, &b);
        assert forall|x: usize| lo <= x < hi implies #[trigger] r@.contains(x) by {
            if x < mid {
                assert(a@.contains(x));
            } else {
                assert(b@.contains(x));
            }
        }
        assert forall|k: int| 0 <= k < r@.len() implies lo <= (#[trigger] r@[k]) < hi by {
            assert(r@.contains(r@[k]));
            if a@.contains(r@[k]) {
                let m = choose|m: int| 0 <= m < a@.len() && a@[m] == r@[k];
            } else {
                let m = choose|m: int| 0 <= m < b@.len() && b@[m] == r@[k];
            }
        }
        r
    }

    /// Sorts the interned strings: returns the finalized table and, for each
    /// old id, the new id of its string.
    pub fn collect(&self) -> (r: (Vec<u32>, StringCollection))
        requires
            self.wf(),
        ensures
            r.1.wf(),
            r.0@.len() == self@.len(),
            r.1@.len() == self@.len(),
            forall|i: int| 0 <= i < self@.len() ==> (#[trigger] r.0@[i]) < r.1@.len() && r.1@[r.0@[i] as int] == self@[i],
            forall|x: Seq<char>| r.1@.contains(x) <==> self@.contains(x),
    {
        let n = self.strings.len();
        let ghost v = self@;
        let order = self.order_range(0, n);
        proof {
            assert forall|j: usize| j < n implies #[trigger] order@.contains(j) by {
                assert(0 <= j < n);
            }
        }
        let mut translation: Vec<u32> = vec![0; n];
        let mut strings: Vec<String> = Vec::with_capacity(n);
        let mut chars: Vec<Vec<char>> = Vec::with_capacity(n);
        let mut k: usize = 0;
        while k < n
            invariant
                self.wf(),
                v == self@,
                n == v.len(),
                k <= n,
                order@.len() == n,
                forall|q: int| 0 <= q < n ==> (#[trigger] order@[q]) < n,
                forall|j: usize| j < n ==> #[trigger] order@.contains(j),
                forall|a: int, b: int| 0 <= a < b < n ==> lex_lt(#[trigger] v[order@[a] as int], #[trigger] v[order@[b] as int]),
                translation@.len() == n,
                strings@.len() == k,
                chars@.len() == k,
                forall|q: int| 0 <= q < k ==> (#[trigger] strings@[q])@ == v[order@[q] as int],
                forall|q: int| 0 <= q < k ==> (#[trigger] chars@[q])@ == v[order@[q] as int],
                forall|j: int| 0 <= j < n ==> (exists|q: int| 0 <= q < k && order@[q] == j) ==> (#[trigger] translation@[j]) < k && order@[translation@[j] as int] == j,
            decreases n - k,
        {
            let old_id = order[k];
            let ghost t0 = translation@;
            translation.set(old_id, k as u32);
            strings.push(self.strings[old_id].clone());
            assert(self.chars@[old_id as int]@ == v[old_id as int]);
            chars.push(copy_chars(&self.chars[old_id]));
            proof {
                assert forall|j: int| 0 <= j < n && (exists|q: int| 0 <= q < k + 1 && order@[q] == j) implies (#[trigger] translation@[j]) < k + 1 && order@[translation@[j] as int] == j by {
                    if j != old_id as int {
                        let q = choose|q: int| 0 <= q < k + 1 && order@[q] == j;
                        assert(q != k);
                        assert(translation@[j] == t0[j]);
                    }
                }
            }
            k += 1;
        }
        let coll = StringCollection { strings, chars };
        proof {
            assert forall|q: int| 0 <= q < n implies coll@[q] == v[order@[q] as int] by {
                assert(coll.strings@[q]@ == v[order@[q] as int]);
            }
            assert forall|i: int| 0 <= i < n implies (#[trigger] translation@[i]) < n && coll@[translation@[i] as int] == v[i] by {
                assert(order@.contains(i as usize));
                let q = choose|q: int| 0 <= q < n && order@[q] == i as usize;
                assert(order@[q] == i);
            }
            assert forall|a: int, b: int| 0 <= a < b < coll@.len() implies lex_lt(#[trigger] coll@[a], #[trigger] coll@[b]) by {
                assert(lex_lt(v[order@[a] as int], v[order@[b] as int]));
            }
            assert forall|x: Seq<char>| coll@.contains(x) <==> v.contains(x) by {
                if coll@.contains(x) {
                    let q = choose|q: int| 0 <= q < coll@.len() && coll@[q] == x;
                    assert(v[order@[q] as int] == x);
                }
                if v.contains(x) {
                    let j = choose|j: int| 0 <= j < v.len() && v[j] == x;
                    assert(coll@[translation@[j] as int] == x);
                }
            }
        }
        (translation, coll)
    }
}

/// A finalized string table: strictly increasing in lexicographic order, so
/// that id order is string order.
pub struct StringCollection {
    strings: Vec<String>,
    chars: Vec<Vec<char>>,
}

impl StringCollection {
    /// The strings, indexed by id.
    pub closed spec fn view(&self) -> Seq<Seq<char>> {
        self.strings@.map_values(|s: String| s@)
    }

    pub closed spec fn wf(&self) -> bool {
        &&& self.strings@.len() == self.chars@.len()
        &&& forall|i: int| 0 <= i < self.chars@.len() ==> (#[trigger] self.chars@[i])@ == self.strings@[i]@
        &&& lex_sorted(self@)
        &&& self.strings@.len() <= u32::MAX
    }

    pub proof fn lemma_wf(&self)
        requires
            self.wf(),
        ensures
            lex_sorted(self@),
            distinct(self@),
            self@.len() <= u32::MAX,
    {
        assert forall|i: int, j: int| 0 <= i < j < self@.len() implies self@[i] != self@[j] by {
            lemma_lex_order(self@[i], self@[j], self@[j]);
        }
    }

    pub fn len(&self) -> (r: usize)
        requires
            self.wf(),
        ensures
            r == self@.len(),
    {
        self.strings.len()
    }

    /// The string of an id.
    pub fn get(&self, id: StringId) -> (r: &str)
        requires
            self.wf(),
            id.id < self@.len(),
        ensures
            r@ == self@[id.id as int],
    {
        self.strings[id.id as usize].as_str()
    }

    /// The id of `s`, by binary search, or `None` where the table lacks it.
    pub fn find(&self, s: &str) -> (r: Option<StringId>)
        requires
            self.wf(),
        ensures
            match r {
                Some(id) => id.id < self@.len() && self@[id.id as int] == s@,
                None => !self@.contains(s@),
            },
    {
        let c = str_chars(s);
        let mut lo: usize = 0;
        let mut hi: usize = self.chars.len();
        while lo < hi
            invariant
                self.wf(),
                c@ == s@,
                lo <= hi <= self@.len(),
                forall|k: int| 0 <= k < lo ==> lex_lt(#[trigger] self@[k], s@),
                forall|k: int| hi <= k < self@.len() ==> lex_lt(s@, #[trigger] self@[k]),
            decreases hi - lo,
        {
            let mid = lo + (hi - lo) / 2;
            assert(self.chars@[mid as int]@ == self@[mid as int]);
            if chars_eq(&self.chars[mid], &c) {
                return Some(StringId { id: mid as u32 });
            }
            if chars_less(&self.chars[mid], &c) {
                assert forall|k: int| 0 <= k < mid + 1 implies lex_lt(#[trigger] self@[k], s@) by {
                    if k < mid {
                        lemma_lex_order(self@[k], self@[mid as int], s@);
                    }
                }
                lo = mid + 1;
            } else {
                proof {
                    lemma_lex_order(s@, self@[mid as int], s@);
                }
                assert forall|k: int| mid <= k < self@.len() implies lex_lt(s@, #[trigger] self@[k]) by {
                    if k > mid {
                        lemma_lex_order(s@, self@[mid as int], self@[k]);
                    }
                }
                hi = mid;
            }
        }
        proof {
            if self@.contains(s@) {
                let k = choose|k: int| 0 <= k < self@.len() && self@[k] == s@;
                lemma_lex_order(s@, s@, s@);
            }
        }
        None
    }
}

} // verus!
