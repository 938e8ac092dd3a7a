//! Sorted, duplicate-free triple indices and their prefix-range queries.
use vstd::prelude::*;
use crate::triple::{CompactTriple, Order, lt, prefix_eq, less, same_prefix, lemma_order, lemma_prefix_convex};

verus! {

/// Strictly increasing in the index order: sorted and without duplicates.
pub open spec fn sorted(ord: Order, s: Seq<CompactTriple>) -> bool {
    forall|i: int, j: int| 0 <= i < j < s.len() ==> #[trigger] lt(ord, s[i], s[j])
}

/// `start` is the least triple of its prefix class.
pub open spec fn least_of_prefix(ord: Order, n: int, start: CompactTriple) -> bool {
    forall|t: CompactTriple| #[trigger] prefix_eq(ord, n, t, start) ==> !lt(ord, t, start)
}

/// The triples of `s` that share the first `n` fields of `start`, in order.
pub open spec fn prefix_matches(ord: Order, n: int, s: Seq<CompactTriple>, start: CompactTriple) -> Seq<CompactTriple> {
    s.filter(|t: CompactTriple| prefix_eq(ord, n, t, start))
}

/// A filter that holds exactly on a window of positions selects that window.
pub proof fn lemma_filter_window<A>(s: Seq<A>, p: spec_fn(A) -> bool, lo: int, hi: int)
    requires
        0 <= lo <= hi <= s.len(),
        forall|i: int| 0 <= i < s.len() ==> (p(s[i]) <==> lo <= i < hi),
    ensures
        s.filter(p) == s.subrange(lo, hi),
    decreases s.len(),
{
    reveal_with_fuel(Seq::filter, 1);
    if s.len() == 0 {
        assert(s.subrange(lo, hi) =~= s);
    } else {
        let d = s.drop_last();
        let nhi = if hi == s.len() { hi - 1 } else { hi };
        let nlo = if lo > nhi { nhi } else { lo };
        assert forall|i: int| 0 <= i < d.len() implies (p(d[i]) <==> nlo <= i < nhi) by {
            assert(d[i] == s[i]);
        }
        lemma_filter_window(d, p, nlo, nhi);
        if p(s.last()) {
            assert(s.subrange(lo, hi) =~= d.subrange(nlo, nhi).push(s.last()));
        } else {
            assert(s.subrange(lo, hi) =~= d.subrange(nlo, nhi));
        }
    }
}

/// The first position whose triple is not below `t`.
pub fn lower_bound(ord: Order, v: &Vec<CompactTriple>, t: &CompactTriple) -> (r: usize)
    requires
        sorted(ord, v@),
    ensures
        r <= v@.len(),
        forall|i: int| 0 <= i < r ==> lt(ord, #[trigger] v@[i], *t),
        forall|i: int| r <= i < v@.len() ==> !lt(ord, #[trigger] v@[i], *t),
{
    let mut lo: usize = 0;
    let mut hi: usize = v.len();
    while lo < hi
        invariant
            sorted(ord, v@),
            lo <= hi <= v@.len(),
            forall|i: int| 0 <= i < lo ==> lt(ord, #[trigger] v@[i], *t),
            forall|i: int| hi <= i < v@.len() ==> !lt(ord, #[trigger] v@[i], *t),
        decreases hi - lo,
    {
        let mid = lo + (hi - lo) / 2;
        if less(ord, &v[mid], t) {
            assert forall|i: int| 0 <= i < mid + 1 implies lt(ord, #[trigger] v@[i], *t) by {
                if i < mid {
                    assert(lt(ord, v@[i], v@[mid as int]));
                    lemma_order(ord, v@[i], v@[mid as int], *t);
                }
            }
            lo = mid + 1;
        } else {
            assert forall|i: int| mid <= i < v@.len() implies !lt(ord, #[trigger] v@[i], *t) by {
                if i > mid {
                    assert(lt(ord, v@[mid as int], v@[i]));
                    lemma_order(ord, v@[mid as int], v@[i], *t);
                    lemma_order(ord, *t, v@[mid as int], v@[i]);
                    lemma_order(ord, v@[i], *t, v@[mid as int]);
                }
            }
            hi = mid;
        }
    }
    lo
}

/// Appends `x`, which comes after every element, to a strictly sorted vector.
fn push_after(ord: Order, r: &mut Vec<CompactTriple>, x: CompactTriple)
    requires
        sorted(ord, old(r)@),
        old(r)@.len() > 0 ==> lt(ord, old(r)@.last(), x),
    ensures
        sorted(ord, final(r)@),
        final(r)@ == old(r)@.push(x),
{
    let ghost o = r@;
    r.push(x);
    proof {
        assert forall|i: int, j: int| 0 <= i < j < r@.len() implies #[trigger] lt(ord, r@[i], r@[j]) by {
            if j == o.len() && i < o.len() - 1 {
                assert(lt(ord, o[i], o[o.len() - 1]));
                lemma_order(ord, o[i], o[o.len() - 1], x);
            }
        }
    }
}

/// The union of two strictly sorted vectors, strictly sorted.
#[verifier::rlimit(40)]
fn merge(ord: Order, a: &Vec<CompactTriple>, b: &Vec<CompactTriple>) -> (r: Vec<CompactTriple>)
    requires
        sorted(ord, a@),
        sorted(ord, b@),
    ensures
        sorted(ord, r@),
        forall|x: CompactTriple| r@.contains(x) <==> (a@.contains(x) || b@.contains(x)),
{
    let mut r: Vec<CompactTriple> = Vec::with_capacity(a.len());
    let mut i: usize = 0;
    let mut j: usize = 0;
    while i < a.len() || j < b.len()
        invariant
            sorted(ord, a@),
            sorted(ord, b@),
            sorted(ord, r@),
            i <= a@.len(),
            j <= b@.len(),
            r@.len() > 0 && i < a@.len() ==> lt(ord, r@.last(), a@[i as int]),
            r@.len() > 0 && j < b@.len() ==> lt(ord, r@.last(), b@[j as int]),
            forall|x: CompactTriple| r@.contains(x) <==> (a@.subrange(0, i as int).contains(x) || b@.subrange(0, j as int).contains(x)),
        decreases a@.len() + b@.len() - i - j,
    {
        let ghost ro = r@;
        let ghost io = i as int;
        let ghost jo = j as int;
        let take_a = j >= b.len() || (i < a.len() && !less(ord, &b[j], &a[i]));
        if take_a {
            let x = a[i];
            let same = j < b.len() && !less(ord, &x, &b[j]);
            push_after(ord, &mut r, x);
            i += 1;
            if same {
                proof {
                    lemma_order(ord, x, b@[jo], x);
                }
                j += 1;
            }
        } else {
            let x = b[j];
            push_after(ord, &mut r, x);
            j += 1;
        }
        proof {
            let x = r@.last();
            if i < a@.len() {
                if i as int == io + 1 {
                    assert(x == a@[io]);
                    assert(lt(ord, a@[io], a@[i as int]));
                } else {
                    assert(x == b@[jo]);
                    assert(lt(ord, b@[jo], a@[io]));
                }
            }
            if j < b@.len() {
                if j as int == jo {
                    assert(x == a@[io]);
                    assert(lt(ord, a@[io], b@[jo]));
                } else {
                    assert(x == b@[jo] || (x == a@[io] && !lt(ord, a@[io], b@[jo]) && !lt(ord, b@[jo], a@[io])));
                    lemma_order(ord, a@[io], b@[jo], b@[jo]);
                    assert(x == b@[jo]);
                    assert(lt(ord, b@[jo], b@[j as int]));
                }
            }
            assert(a@.subrange(0, i as int) =~= a@.subrange(0, io) + a@.subrange(io, i as int));
            assert(b@.subrange(0, j as int) =~= b@.subrange(0, jo) + b@.subrange(jo, j as int));
            assert forall|y: CompactTriple| r@.contains(y) <==> (a@.subrange(0, i as int).contains(y) || b@.subrange(0, j as int).contains(y)) by {
                if r@.contains(y) {
                    let k = choose|k: int| 0 <= k < r@.len() && r@[k] == y;
                    if k < ro.len() {
                        assert(ro.contains(y));
                        if a@.subrange(0, io).contains(y) {
                            let m = choose|m: int| 0 <= m < io && a@.subrange(0, io)[m] == y;
                            assert(a@.subrange(0, i as int)[m] == y);
                        } else {
                            let m = choose|m: int| 0 <= m < jo && b@.subrange(0, jo)[m] == y;
                            assert(b@.subrange(0, j as int)[m] == y);
                        }
                    } else if i as int == io + 1 {
                        assert(a@.subrange(0, i as int)[io] == y);
                    } else {
                        assert(b@.subrange(0, j as int)[jo] == y);
                    }
                }
                if a@.subrange(0, i as int).contains(y) {
                    let m = choose|m: int| 0 <= m < i && a@.subrange(0, i as int)[m] == y;
                    if m < io {
                        assert(a@.subrange(0, io)[m] == y);
                        assert(ro.contains(y));
                        let k = choose|k: int| 0 <= k < ro.len() && ro[k] == y;
                        assert(r@[k] == y);
                    } else {
                        assert(r@[r@.len() - 1] == y);
                    }
                }
                if b@.subrange(0, j as int).contains(y) {
                    let m = choose|m: int| 0 <= m < j && b@.subrange(0, j as int)[m] == y;
                    if m < jo {
                        assert(b@.subrange(0, jo)[m] == y);
                        assert(ro.contains(y));
                        let k = choose|k: int| 0 <= k < ro.len() && ro[k] == y;
                        assert(r@[k] == y);
                    } else {
                        assert(r@[r@.len() - 1] == y);
                    }
                }
            }
        }
    }
    assert(a@.subrange(0, a@.len() as int) =~= a@);
    assert(b@.subrange(0, b@.len() as int) =~= b@);
    r
}

/// The sorted, duplicate-free vector of the triples of `s[lo..hi]`, by merge
/// sort.
fn sorted_set_range(ord: Order, s: &Vec<CompactTriple>, lo: usize, hi: usize) -> (r: Vec<CompactTriple>)
    requires
        lo <= hi <= s@.len(),
    ensures
        sorted(ord, r@),
        forall|x: CompactTriple| r@.contains(x) <==> s@.subrange(lo as int, hi as int).contains(x),
    decreases hi - lo,
{
    if hi - lo == 0 {
        let r: Vec<CompactTriple> = Vec::new();
        assert forall|x: CompactTriple| r@.contains(x) <==> s@.subrange(lo as int, hi as int).contains(x) by {
            assert(s@.subrange(lo as int, hi as int).len() == 0);
        }
        return r;
    }
    if hi - lo == 1 {
        let mut r: Vec<CompactTriple> = Vec::new();
        r.push(s[lo]);
        assert(s@.subrange(lo as int, hi as int) =~= r@);
        return r;
    }
    let mid = lo + (hi - lo) / 2;
    let a = sorted_set_range(ord, s, lo, mid);
    let b = sorted_set_range(ord, s, mid, hi);
    let r = merge(ord, &a, &b);
    proof {
        let w = s@.subrange(lo as int, hi as int);
        let u = s@.subrange(lo as int, mid as int);
        let v = s@.subrange(mid as int, hi as int);
        assert(w =~= u + v);
        assert forall|x: CompactTriple| w.contains(x) <==> (u.contains(x) || v.contains(x)) by {
            if w.contains(x) {
                let k = choose|k: int| 0 <= k < w.len() && w[k] == x;
                if k < u.len() {
                    assert(u[k] == x);
                } else {
                    assert(v[k - u.len()] == x);
                }
            }
            if u.contains(x) {
                let k = choose|k: int| 0 <= k < u.len() && u[k] == x;
                assert(w[k] == x);
            }
            if v.contains(x) {
                let k = choose|k: int| 0 <= k < v.len() && v[k] == x;
                assert(w[k + u.len()] == x);
            }
        }
    }
    r
}

/// The sorted, duplicate-free vector of the triples in `s`.
pub fn sorted_set(ord: Order, s: &Vec<CompactTriple>) -> (r: Vec<CompactTriple>)
    ensures
        sorted(ord, r@),
        forall|x: CompactTriple| r@.contains(x) <==> s@.contains(x),
{
    let r = sorted_set_range(ord, s, 0, s.len());
    assert(s@.subrange(0, s@.len() as int) =~= s@);
    r
}

/// The positions of the triples of a sorted index that share the first `n`
/// fields of `start`: found by binary search for `start` and a scan to the end
/// of the run.
pub fn range(ord: Order, n: u8, index: &Vec<CompactTriple>, start: &CompactTriple) -> (r: (usize, usize))
    requires
        1 <= n <= 3,
        sorted(ord, index@),
        least_of_prefix(ord, n as int, *start),
    ensures
        r.0 <= r.1 <= index@.len(),
        index@.subrange(r.0 as int, r.1 as int) == prefix_matches(ord, n as int, index@, *start),
{
    let lo = lower_bound(ord, index, start);
    let mut i: usize = lo;
    while i < index.len() && same_prefix(ord, n, &index[i], start)
        invariant
            lo <= i <= index@.len(),
            forall|k: int| lo <= k < i ==> prefix_eq(ord, n as int, #[trigger] index@[k], *start),
        decreases index@.len() - i,
    {
        i += 1;
    }
    proof {
        let p = |t: CompactTriple| prefix_eq(ord, n as int, t, *start);
        assert forall|k: int| 0 <= k < index@.len() implies (p(index@[k]) <==> lo <= k < i) by {
            if k < lo {
                assert(lt(ord, index@[k], *start));
                assert(!prefix_eq(ord, n as int, index@[k], *start));
            } else if k >= i {
                let h = i as int;
                if prefix_eq(ord, n as int, index@[k], *start) && k > h {
                    assert(lt(ord, index@[h], index@[k]));
                    lemma_order(ord, index@[k], index@[h], index@[k]);
                    lemma_prefix_convex(ord, n as int, *start, index@[h], index@[k]);
                }
            }
        }
        lemma_filter_window(index@, p, lo as int, i as int);
    }
    (lo, i)
}

/// Filters that agree on every element of a sequence select the same elements.
pub proof fn lemma_filter_congruent<A>(s: Seq<A>, p: spec_fn(A) -> bool, q: spec_fn(A) -> bool)
    requires
        forall|i: int| 0 <= i < s.len() ==> p(s[i]) == q(s[i]),
    ensures
        s.filter(p) == s.filter(q),
    decreases s.len(),
{
    reveal_with_fuel(Seq::filter, 1);
    if s.len() > 0 {
        let d = s.drop_last();
        assert forall|i: int| 0 <= i < d.len() implies p(d[i]) == q(d[i]) by {
            assert(d[i] == s[i]);
        }
        lemma_filter_congruent(d, p, q);
    }
}

/// A strictly sorted sequence holds no element twice.
pub proof fn lemma_sorted_no_duplicates(ord: Order, s: Seq<CompactTriple>)
    requires
        sorted(ord, s),
    ensures
        s.no_duplicates(),
{
    assert forall|i: int, j: int| 0 <= i < s.len() && 0 <= j < s.len() && i != j implies s[i] != s[j] by {
        if i < j {
            assert(lt(ord, s[i], s[j]));
        } else {
            assert(lt(ord, s[j], s[i]));
        }
        lemma_order(ord, s[i], s[j], s[j]);
    }
}

/// Two duplicate-free sequences with the same elements have the same length.
pub proof fn lemma_same_elements_same_len<A>(a: Seq<A>, b: Seq<A>)
    requires
        a.no_duplicates(),
        b.no_duplicates(),
        forall|x: A| a.contains(x) <==> b.contains(x),
    ensures
        a.len() == b.len(),
{
    a.unique_seq_to_set();
    b.unique_seq_to_set();
    assert(a.to_set() =~= b.to_set());
}

/// Two duplicate-free sequences with the same elements hold them equally often.
pub proof fn lemma_same_elements_same_multiset<A>(a: Seq<A>, b: Seq<A>)
    requires
        a.no_duplicates(),
        b.no_duplicates(),
        forall|x: A| a.contains(x) <==> b.contains(x),
    ensures
        a.to_multiset() == b.to_multiset(),
{
    broadcast use vstd::seq_lib::to_multiset_contains;
    a.lemma_multiset_has_no_duplicates();
    b.lemma_multiset_has_no_duplicates();
    assert forall|x: A| a.to_multiset().count(x) == b.to_multiset().count(x) by {
        if a.contains(x) {
            assert(a.to_multiset().contains(x));
            assert(b.to_multiset().contains(x));
        }
    }
    assert(a.to_multiset() =~= b.to_multiset());
}

} // verus!
