//! Blank-node canonicalization: a numbering of blank nodes that depends on the
//! graph's structure rather than on the order in which nodes were made.
use vstd::prelude::*;
use std::cmp::Ordering;
use crate::graph::{Graph, TripleRangeIterator, ids_in_range, max_blank};
use crate::index::{sorted_set, prefix_matches, lemma_sorted_no_duplicates, lemma_same_elements_same_len};
use crate::triple::{CompactTriple, ObjectKind, Order, lt, less, lemma_order, subject_blank_node, object_blank_node};

verus! {

/// The triple with both blank-node ids set to 0.
pub open spec fn zeroed(t: CompactTriple) -> CompactTriple {
    CompactTriple {
        subject_is_iri: t.subject_is_iri,
        subject: if t.subject_is_iri { t.subject } else { 0 },
        predicate: t.predicate,
        object_kind: t.object_kind,
        object: if t.object_kind == ObjectKind::BlankNode { 0 } else { t.object },
        datatype_or_lang: t.datatype_or_lang,
    }
}

/// SPO order of two triples with any two blank nodes taken as equal.
pub open spec fn cmp_without_blanks(a: CompactTriple, b: CompactTriple) -> Ordering {
    if lt(Order::SPO, zeroed(a), zeroed(b)) {
        Ordering::Less
    } else if lt(Order::SPO, zeroed(b), zeroed(a)) {
        Ordering::Greater
    } else {
        Ordering::Equal
    }
}

pub open spec fn reverse(o: Ordering) -> Ordering {
    match o {
        Ordering::Less => Ordering::Greater,
        Ordering::Greater => Ordering::Less,
        Ordering::Equal => Ordering::Equal,
    }
}

/// Two runs of triples compared pairwise, up to the shorter one's end: the
/// first pair that differs decides.
pub open spec fn cmp_runs(xs: Seq<CompactTriple>, ys: Seq<CompactTriple>) -> Ordering
    decreases xs.len(),
{
    if xs.len() == 0 || ys.len() == 0 {
        Ordering::Equal
    } else if cmp_without_blanks(xs[0], ys[0]) != Ordering::Equal {
        cmp_without_blanks(xs[0], ys[0])
    } else {
        cmp_runs(xs.drop_first(), ys.drop_first())
    }
}

pub open spec fn subject_start(b: u32) -> CompactTriple {
    CompactTriple { subject_is_iri: false, subject: b, predicate: 0, object_kind: ObjectKind::BlankNode, object: 0, datatype_or_lang: 0 }
}

pub open spec fn object_start(b: u32) -> CompactTriple {
    CompactTriple { subject_is_iri: false, subject: 0, predicate: 0, object_kind: ObjectKind::BlankNode, object: b, datatype_or_lang: 0 }
}

/// The triples with blank subject `b`, in SPO order.
pub open spec fn subject_run(g: Graph, b: u32) -> Seq<CompactTriple> {
    prefix_matches(Order::SPO, 2, g.spo(), subject_start(b))
}

/// The triples with blank object `b`, in OPS order.
pub open spec fn object_run(g: Graph, b: u32) -> Seq<CompactTriple> {
    prefix_matches(Order::OPS, 2, g.ops(), object_start(b))
}

pub open spec fn count_blank_objects(s: Seq<CompactTriple>) -> nat
    decreases s.len(),
{
    if s.len() == 0 {
        0
    } else {
        (if s[0].object_kind == ObjectKind::BlankNode { 1nat } else { 0nat }) + count_blank_objects(s.drop_first())
    }
}

pub open spec fn count_blank_subjects(s: Seq<CompactTriple>) -> nat
    decreases s.len(),
{
    if s.len() == 0 {
        0
    } else {
        (if !s[0].subject_is_iri { 1nat } else { 0nat }) + count_blank_subjects(s.drop_first())
    }
}

/// How a blank node is used: as a subject, as a subject with a blank object,
/// as an object, as an object with a blank subject.
pub open spec fn profile(g: Graph, b: u32) -> (nat, nat, nat, nat) {
    (
        subject_run(g, b).len(),
        count_blank_objects(subject_run(g, b)),
        object_run(g, b).len(),
        count_blank_subjects(object_run(g, b)),
    )
}

/// Larger counts first.
pub open spec fn cmp_desc(a: nat, b: nat) -> Ordering {
    if a > b {
        Ordering::Less
    } else if a < b {
        Ordering::Greater
    } else {
        Ordering::Equal
    }
}

/// The order of blank nodes: by usage profile, the most used first; on a tie
/// by the triples they are the subject of, then by those they are the object of.
#[verifier::opaque]
pub open spec fn blank_cmp(g: Graph, a: u32, b: u32) -> Ordering {
    let pa = profile(g, a);
    let pb = profile(g, b);
    if pa.0 != pb.0 {
        cmp_desc(pa.0, pb.0)
    } else if pa.1 != pb.1 {
        cmp_desc(pa.1, pb.1)
    } else if pa.2 != pb.2 {
        cmp_desc(pa.2, pb.2)
    } else if pa.3 != pb.3 {
        cmp_desc(pa.3, pb.3)
    } else if cmp_runs(subject_run(g, a), subject_run(g, b)) != Ordering::Equal {
        cmp_runs(subject_run(g, a), subject_run(g, b))
    } else {
        cmp_runs(object_run(g, a), object_run(g, b))
    }
}

proof fn lemma_cmp_runs_reverse(xs: Seq<CompactTriple>, ys: Seq<CompactTriple>)
    ensures
        cmp_runs(ys, xs) == reverse(cmp_runs(xs, ys)),
    decreases xs.len(),
{
    if xs.len() > 0 && ys.len() > 0 {
        lemma_order(Order::SPO, zeroed(xs[0]), zeroed(ys[0]), zeroed(xs[0]));
        lemma_cmp_runs_reverse(xs.drop_first(), ys.drop_first());
    }
}

/// Swapping the two blank nodes reverses their comparison.
pub proof fn lemma_blank_cmp_reverse(g: Graph, a: u32, b: u32)
    ensures
        blank_cmp(g, b, a) == reverse(blank_cmp(g, a, b)),
{
    reveal(blank_cmp);
    lemma_cmp_runs_reverse(subject_run(g, a), subject_run(g, b));
    lemma_cmp_runs_reverse(object_run(g, a), object_run(g, b));
}

proof fn lemma_counts_bounded(s: Seq<CompactTriple>)
    ensures
        count_blank_objects(s) <= s.len(),
        count_blank_subjects(s) <= s.len(),
    decreases s.len(),
{
    if s.len() > 0 {
        lemma_counts_bounded(s.drop_first());
    }
}

/// The blank ids of `t` renamed by `perm`.
pub open spec fn renamed(t: CompactTriple, perm: Seq<u32>) -> CompactTriple {
    CompactTriple {
        subject_is_iri: t.subject_is_iri,
        subject: if t.subject_is_iri { t.subject } else { perm[t.subject as int] },
        predicate: t.predicate,
        object_kind: t.object_kind,
        object: if t.object_kind == ObjectKind::BlankNode { perm[t.object as int] } else { t.object },
        datatype_or_lang: t.datatype_or_lang,
    }
}

/// `perm` renumbers the ids `0..n` one to one.
pub open spec fn is_numbering(perm: Seq<u32>, n: nat) -> bool {
    &&& perm.len() == n
    &&& forall|i: int| 0 <= i < n ==> #[trigger] perm[i] < n
    &&& forall|i: int, j: int| 0 <= i < n && 0 <= j < n && i != j ==> perm[i] != perm[j]
}

/// Blank nodes that get consecutive new ids are in `blank_cmp` order.
pub open spec fn respects_order(g: Graph, perm: Seq<u32>) -> bool {
    forall|a: u32, b: u32|
        a < perm.len() && b < perm.len() && #[trigger] perm[b as int] == #[trigger] perm[a as int] + 1
            ==> blank_cmp(g, a, b) != Ordering::Greater
}

/// Blank nodes that tie in `blank_cmp` and get consecutive new ids keep the
/// order of their old ids.
pub open spec fn keeps_ties(g: Graph, perm: Seq<u32>) -> bool {
    forall|a: u32, b: u32|
        a < perm.len() && b < perm.len() && #[trigger] perm[b as int] == #[trigger] perm[a as int] + 1
            && blank_cmp(g, a, b) == Ordering::Equal ==> a < b
}

/// Sets the blank-node ids of a triple to 0.
fn zero_blank_nodes(a: &mut CompactTriple)
    ensures
        *final(a) == zeroed(*old(a)),
{
    if !a.subject_is_iri {
        a.subject = 0;
    }
    if a.object_kind == ObjectKind::BlankNode {
        a.object = 0;
    }
}

/// Compares two triples in SPO order, taking any two blank nodes as equal.
pub fn compare_without_blank_nodes(a: CompactTriple, b: CompactTriple) -> (r: Ordering)
    ensures
        r == cmp_without_blanks(a, b),
{
    let mut a = a;
    let mut b = b;
    zero_blank_nodes(&mut a);
    zero_blank_nodes(&mut b);
    if less(Order::SPO, &a, &b) {
        Ordering::Less
    } else if less(Order::SPO, &b, &a) {
        Ordering::Greater
    } else {
        Ordering::Equal
    }
}

/// Compares the triples still to come in two runs.
fn compare_runs(a: TripleRangeIterator, b: TripleRangeIterator) -> (r: Ordering)
    requires
        a.wf(),
        b.wf(),
    ensures
        r == cmp_runs(a.remaining(), b.remaining()),
{
    let ghost goal = cmp_runs(a.remaining(), b.remaining());
    let mut ia = a;
    let mut ib = b;
    while ia.len() > 0 && ib.len() > 0
        invariant
            ia.wf(),
            ib.wf(),
            goal == cmp_runs(ia.remaining(), ib.remaining()),
            goal == cmp_runs(a.remaining(), b.remaining()),
        decreases ia.remaining().len(),
    {
        let ghost ra = ia.remaining();
        let ghost rb = ib.remaining();
        let x = ia.next();
        let y = ib.next();
        match (x, y) {
            (Some(x), Some(y)) => {
                let c = compare_without_blank_nodes(x.triple, y.triple);
                assert(goal == cmp_runs(ra, rb));
                assert(x.triple == ra[0] && y.triple == rb[0]);
                match c {
                    Ordering::Equal => {},
                    _ => {
                        assert(cmp_runs(ra, rb) == c);
                        return c;
                    },
                }
            },
            _ => {},
        }
    }
    Ordering::Equal
}

/// The usage counts of one blank node.
struct BlankNodeInfo {
    blank_node: u32,
    times_a_subject: usize,
    times_a_subject_with_blank_object: usize,
    times_an_object: usize,
    times_an_object_with_blank_subject: usize,
}

#[verifier::opaque]
spec fn info_ok(g: Graph, i: BlankNodeInfo) -> bool {
    let p = profile(g, i.blank_node);
    &&& i.times_a_subject == p.0
    &&& i.times_a_subject_with_blank_object == p.1
    &&& i.times_an_object == p.2
    &&& i.times_an_object_with_blank_subject == p.3
}

fn blank_info(g: &Graph, b: u32) -> (r: BlankNodeInfo)
    requires
        g.wf(),
    ensures
        r.blank_node == b,
        info_ok(*g, r),
{
    reveal(info_ok);
    let mut s = g.iter_subject_(subject_blank_node(b));
    let times_a_subject = s.len();
    let ghost run = s.remaining();
    proof {
        lemma_counts_bounded(run);
    }
    let mut with_blank_object: usize = 0;
    while s.len() > 0
        invariant
            s.wf(),
            with_blank_object + count_blank_objects(s.remaining()) == count_blank_objects(run),
            count_blank_objects(run) <= run.len(),
            run.len() == times_a_subject,
        decreases s.remaining().len(),
    {
        match s.next() {
            Some(t) => {
                if t.triple.object_kind == ObjectKind::BlankNode {
                    with_blank_object = with_blank_object + 1;
                }
            },
            None => {},
        }
    }
    let mut o = g.iter_object(object_blank_node(b));
    let times_an_object = o.len();
    let ghost orun = o.remaining();
    proof {
        lemma_counts_bounded(orun);
    }
    let mut with_blank_subject: usize = 0;
    while o.len() > 0
        invariant
            o.wf(),
            with_blank_subject + count_blank_subjects(o.remaining()) == count_blank_subjects(orun),
            count_blank_subjects(orun) <= orun.len(),
            orun.len() == times_an_object,
        decreases o.remaining().len(),
    {
        match o.next() {
            Some(t) => {
                if !t.triple.subject_is_iri {
                    with_blank_subject = with_blank_subject + 1;
                }
            },
            None => {},
        }
    }
    BlankNodeInfo {
        blank_node: b,
        times_a_subject,
        times_a_subject_with_blank_object: with_blank_object,
        times_an_object,
        times_an_object_with_blank_subject: with_blank_subject,
    }
}

fn cmp_count_desc(a: usize, b: usize) -> (r: Ordering)
    ensures
        r == cmp_desc(a as nat, b as nat),
{
    if a > b {
        Ordering::Less
    } else if a < b {
        Ordering::Greater
    } else {
        Ordering::Equal
    }
}

fn compare_infos(g: &Graph, a: &BlankNodeInfo, b: &BlankNodeInfo) -> (r: Ordering)
    requires
        g.wf(),
        info_ok(*g, *a),
        info_ok(*g, *b),
    ensures
        r == blank_cmp(*g, a.blank_node, b.blank_node),
{
    reveal(blank_cmp);
    reveal(info_ok);
    if a.times_a_subject != b.times_a_subject {
        return cmp_count_desc(a.times_a_subject, b.times_a_subject);
    }
    if a.times_a_subject_with_blank_object != b.times_a_subject_with_blank_object {
        return cmp_count_desc(a.times_a_subject_with_blank_object, b.times_a_subject_with_blank_object);
    }
    if a.times_an_object != b.times_an_object {
        return cmp_count_desc(a.times_an_object, b.times_an_object);
    }
    if a.times_an_object_with_blank_subject != b.times_an_object_with_blank_subject {
        return cmp_count_desc(a.times_an_object_with_blank_subject, b.times_an_object_with_blank_subject);
    }
    let s1 = g.iter_subject_(subject_blank_node(a.blank_node));
    let s2 = g.iter_subject_(subject_blank_node(b.blank_node));
    let c = compare_runs(s1, s2);
    match c {
        Ordering::Equal => {},
        _ => {
            return c;
        },
    }
    let o1 = g.iter_object(object_blank_node(a.blank_node));
    let o2 = g.iter_object(object_blank_node(b.blank_node));
    compare_runs(o1, o2)
}

/// Whether blank node `a` comes strictly before `b`.
fn precedes(g: &Graph, a: &BlankNodeInfo, b: &BlankNodeInfo) -> (r: bool)
    requires
        g.wf(),
        info_ok(*g, *a),
        info_ok(*g, *b),
    ensures
        r == (blank_cmp(*g, a.blank_node, b.blank_node) == Ordering::Less),
{
    match compare_infos(g, a, b) {
        Ordering::Less => true,
        _ => false,
    }
}

/// Renames the blank nodes of a triple.
fn translate_object(t: &mut CompactTriple, translation: &Vec<u32>)
    requires
        !old(t).subject_is_iri ==> old(t).subject < translation@.len(),
        old(t).object_kind == ObjectKind::BlankNode ==> old(t).object < translation@.len(),
    ensures
        *final(t) == renamed(*old(t), translation@),
{
    if !t.subject_is_iri {
        t.subject = translation[t.subject as usize];
    }
    if t.object_kind == ObjectKind::BlankNode {
        t.object = translation[t.object as usize];
    }
}

/// The inverse of a numbering given as a list: position `q` of the result
/// holds the place of `q` in `order`.
fn invert(order: &Vec<u32>) -> (r: Vec<u32>)
    requires
        order@.len() <= u32::MAX + 1,
        forall|q: int| 0 <= q < order@.len() ==> (#[trigger] order@[q]) < order@.len(),
        forall|j: u32| (j as int) < order@.len() ==> #[trigger] order@.contains(j),
        forall|a: int, b: int| 0 <= a < b < order@.len() ==> order@[a] != order@[b],
    ensures
        r@.len() == order@.len(),
        forall|x: int| 0 <= x < order@.len() ==> #[trigger] r@[x] < order@.len() && order@[r@[x] as int] == x,
{
    let n: usize = order.len();
    let mut translation: Vec<u32> = vec![0; n];
    let mut k: usize = 0;
    while k < n
        invariant
            n == order@.len(),
            n <= u32::MAX + 1,
            k <= n,
            forall|q: int| 0 <= q < n ==> (#[trigger] order@[q]) < n,
            forall|a: int, b: int| 0 <= a < b < n ==> order@[a] != order@[b],
            translation@.len() == n,
            forall|q: int| 0 <= q < k ==> #[trigger] translation@[order@[q] as int] == q,
        decreases n - k,
    {
        let ghost t0 = translation@;
        translation.set(order[k] as usize, k as u32);
        proof {
            assert forall|q: int| 0 <= q < k + 1 implies #[trigger] translation@[order@[q] as int] == q by {
                if q < k {
                    assert(order@[q] != order@[k as int]);
                    assert(translation@[order@[q] as int] == t0[order@[q] as int]);
                }
            }
        }
        k += 1;
    }
    proof {
        assert forall|x: int| 0 <= x < n implies #[trigger] translation@[x] < n && order@[translation@[x] as int] == x by {
            assert(order@.contains(x as u32));
            let q = choose|q: int| 0 <= q < n && order@[q] == x as u32;
            assert(translation@[order@[q] as int] == q);
        }
    }
    translation
}

/// Every triple of `source` with its blank nodes renamed.
fn rename_all(source: &Vec<CompactTriple>, translation: &Vec<u32>) -> (r: Vec<CompactTriple>)
    requires
        forall|k: int| 0 <= k < source@.len() ==> max_blank(#[trigger] source@[k]) < translation@.len(),
    ensures
        r@.len() == source@.len(),
        forall|k: int| 0 <= k < source@.len() ==> #[trigger] r@[k] == renamed(source@[k], translation@),
{
    let mut r: Vec<CompactTriple> = Vec::with_capacity(source.len());
    let mut i: usize = 0;
    while i < source.len()
        invariant
            forall|k: int| 0 <= k < source@.len() ==> max_blank(#[trigger] source@[k]) < translation@.len(),
            i <= source@.len(),
            r@.len() == i,
            forall|k: int| 0 <= k < i ==> #[trigger] r@[k] == renamed(source@[k], translation@),
        decreases source@.len() - i,
    {
        let mut t = source[i];
        assert(max_blank(source@[i as int]) < translation@.len());
        translate_object(&mut t, translation);
        r.push(t);
        i += 1;
    }
    r
}

/// A list of blank nodes in `blank_cmp` order, neighbours that tie in id
/// order, each node once.
pub open spec fn ordered_run(g: Graph, o: Seq<u32>) -> bool {
    &&& forall|q: int| 0 <= q && q + 1 < o.len() ==> #[trigger] blank_cmp(g, o[q], o[q + 1]) != Ordering::Greater
    &&& forall|q: int| 0 <= q && q + 1 < o.len() && #[trigger] blank_cmp(g, o[q], o[q + 1]) == Ordering::Equal ==> o[q] < o[q + 1]
    &&& forall|x: int, y: int| 0 <= x < y < o.len() ==> o[x] != o[y]
}

/// `p` may stand right before `x` in an ordered run.
pub open spec fn may_precede(g: Graph, p: u32, x: u32) -> bool {
    blank_cmp(g, p, x) != Ordering::Greater && (blank_cmp(g, p, x) == Ordering::Equal ==> p < x)
}

/// Merges two ordered runs of blank nodes, every id of `a` below every id of
/// `b`; on a tie the node of `a` comes first.
#[verifier::rlimit(60)]
fn merge_blanks(g: &Graph, infos: &Vec<BlankNodeInfo>, a: &Vec<u32>, b: &Vec<u32>) -> (r: Vec<u32>)
    requires
        g.wf(),
        forall|j: int| 0 <= j < infos@.len() ==> (#[trigger] infos@[j]).blank_node == j && info_ok(*g, infos@[j]),
        forall|k: int| 0 <= k < a@.len() ==> (#[trigger] a@[k]) < infos@.len(),
        forall|k: int| 0 <= k < b@.len() ==> (#[trigger] b@[k]) < infos@.len(),
        ordered_run(*g, a@),
        ordered_run(*g, b@),
        forall|x: int, y: int| 0 <= x < a@.len() && 0 <= y < b@.len() ==> a@[x] < b@[y],
    ensures
        r@.len() == a@.len() + b@.len(),
        forall|k: int| 0 <= k < r@.len() ==> (#[trigger] r@[k]) < infos@.len(),
        ordered_run(*g, r@),
        forall|x: u32| r@.contains(x) <==> (a@.contains(x) || b@.contains(x)),
{
    let mut r: Vec<u32> = Vec::new();
    let mut i: usize = 0;
    let mut j: usize = 0;
    while i < a.len() || j < b.len()
        invariant
            g.wf(),
            forall|q: int| 0 <= q < infos@.len() ==> (#[trigger] infos@[q]).blank_node == q && info_ok(*g, infos@[q]),
            forall|k: int| 0 <= k < a@.len() ==> (#[trigger] a@[k]) < infos@.len(),
            forall|k: int| 0 <= k < b@.len() ==> (#[trigger] b@[k]) < infos@.len(),
            ordered_run(*g, a@),
            ordered_run(*g, b@),
            forall|x: int, y: int| 0 <= x < a@.len() && 0 <= y < b@.len() ==> a@[x] < b@[y],
            i <= a@.len(),
            j <= b@.len(),
            r@.len() == i + j,
            forall|k: int| 0 <= k < r@.len() ==> (#[trigger] r@[k]) < infos@.len(),
            ordered_run(*g, r@),
            r@.len() > 0 && i < a@.len() ==> may_precede(*g, r@.last(), a@[i as int]),
            r@.len() > 0 && j < b@.len() ==> may_precede(*g, r@.last(), b@[j as int]),
            forall|x: u32| r@.contains(x) <==> (a@.subrange(0, i as int).contains(x) || b@.subrange(0, j as int).contains(x)),
        decreases a@.len() + b@.len() - i - j,
    {
        let ghost ro = r@;
        let ghost io = i as int;
        let ghost jo = j as int;
        let take_a = j >= b.len() || (i < a.len() && !precedes(g, &infos[b[j] as usize], &infos[a[i] as usize]));
        let x = if take_a { a[i] } else { b[j] };
        proof {
            if take_a && j < b@.len() {
                lemma_blank_cmp_reverse(*g, b@[jo], a@[io]);
                assert(a@[io] < b@[jo]);
            }
            if !take_a && i < a@.len() {
                assert(blank_cmp(*g, b@[jo], a@[io]) == Ordering::Less);
            }
            assert forall|k: int| 0 <= k < ro.len() implies ro[k] != x by {
                assert(ro.contains(ro[k]));
                if a@.subrange(0, io).contains(ro[k]) {
                    let m = choose|m: int| 0 <= m < io && a@.subrange(0, io)[m] == ro[k];
                    if take_a {
                        assert(a@[m] != a@[io]);
                    } else {
                        assert(a@[m] < b@[jo]);
                    }
                } else {
                    assert(b@.subrange(0, jo).contains(ro[k]));
                    let m = choose|m: int| 0 <= m < jo && b@.subrange(0, jo)[m] == ro[k];
                    if take_a {
                        assert(a@[io] < b@[m]);
                    } else {
                        assert(b@[m] != b@[jo]);
                    }
                }
            }
        }
        r.push(x);
        if take_a {
            i += 1;
        } else {
            j += 1;
        }
        proof {
            assert forall|q: int| 0 <= q && q + 1 < r@.len() implies #[trigger] blank_cmp(*g, r@[q], r@[q + 1]) != Ordering::Greater by {
                if q + 1 < ro.len() {
                    assert(r@[q] == ro[q] && r@[q + 1] == ro[q + 1]);
                    assert(blank_cmp(*g, ro[q], ro[q + 1]) != Ordering::Greater);
                }
            }
            assert forall|q: int| 0 <= q && q + 1 < r@.len() && #[trigger] blank_cmp(*g, r@[q], r@[q + 1]) == Ordering::Equal implies r@[q] < r@[q + 1] by {
                if q + 1 < ro.len() {
                    assert(r@[q] == ro[q] && r@[q + 1] == ro[q + 1]);
                    assert(blank_cmp(*g, ro[q], ro[q + 1]) == Ordering::Equal);
                }
            }
            if i < a@.len() && take_a {
                assert(blank_cmp(*g, a@[io], a@[io + 1]) != Ordering::Greater);
                assert(blank_cmp(*g, a@[io], a@[io + 1]) == Ordering::Equal ==> a@[io] < a@[io + 1]);
            }
            if j < b@.len() && !take_a {
                assert(blank_cmp(*g, b@[jo], b@[jo + 1]) != Ordering::Greater);
                assert(blank_cmp(*g, b@[jo], b@[jo + 1]) == Ordering::Equal ==> b@[jo] < b@[jo + 1]);
            }
            if i < a@.len() && !take_a {
                lemma_blank_cmp_reverse(*g, b@[jo], a@[io]);
            }
            assert(a@.subrange(0, i as int) =~= a@.subrange(0, io) + a@.subrange(io, i as int));
            assert(b@.subrange(0, j as int) =~= b@.subrange(0, jo) + b@.subrange(jo, j as int));
            assert forall|y: u32| r@.contains(y) <==> (a@.subrange(0, i as int).contains(y) || b@.subrange(0, j as int).contains(y)) by {
                if r@.contains(y) {
                    let k = choose|k: int| 0 <= k < r@.len() && r@[k] == y;
                    if k < ro.len() {
                        assert(ro.contains(y));
                        if a@.subrange(0, io).contains(y) {
                            let m = choose|m: int| 0 <= m < io && a@.subrange(0, io)[m] == y;
                            assert(a@.subrange(0, i as int)[m] == y);
                        } else {
                            let m = choose|m: int| 0 <= m < jo && b@.subrange(0, jo)[m] == y;
                            assert(b@.subrange(0, j as int)[m] == y);
                        }
                    } else if take_a {
                        assert(a@.subrange(0, i as int)[io] == y);
                    } else {
                        assert(b@.subrange(0, j as int)[jo] == y);
                    }
                }
                if a@.subrange(0, i as int).contains(y) {
                    let m = choose|m: int| 0 <= m < i && a@.subrange(0, i as int)[m] == y;
                    if m < io {
                        assert(a@.subrange(0, io)[m] == y);
                        assert(ro.contains(y));
                        let k = choose|k: int| 0 <= k < ro.len() && ro[k] == y;
                        assert(r@[k] == y);
                    } else {
                        assert(r@[r@.len() - 1] == y);
                    }
                }
                if b@.subrange(0, j as int).contains(y) {
                    let m = choose|m: int| 0 <= m < j && b@.subrange(0, j as int)[m] == y;
                    if m < jo {
                        assert(b@.subrange(0, jo)[m] == y);
                        assert(ro.contains(y));
                        let k = choose|k: int| 0 <= k < ro.len() && ro[k] == y;
                        assert(r@[k] == y);
                    } else {
                        assert(r@[r@.len() - 1] == y);
                    }
                }
            }
        }
    }
    assert(a@.subrange(0, a@.len() as int) =~= a@);
    assert(b@.subrange(0, b@.len() as int) =~= b@);
    r
}

/// The blank nodes `lo..hi` as an ordered run, by merge sort.
fn order_blanks(g: &Graph, infos: &Vec<BlankNodeInfo>, lo: usize, hi: usize) -> (r: Vec<u32>)
    requires
        g.wf(),
        forall|j: int| 0 <= j < infos@.len() ==> (#[trigger] infos@[j]).blank_node == j && info_ok(*g, infos@[j]),
        lo <= hi <= infos@.len(),
        infos@.len() <= u32::MAX + 1,
    ensures
        r@.len() == hi - lo,
        forall|k: int| 0 <= k < r@.len() ==> lo <= (#[trigger] r@[k]) < hi,
        forall|x: u32| lo <= x < hi ==> #[trigger] r@.contains(x),
        ordered_run(*g, r@),
    decreases hi - lo,
{
    if hi - lo == 0 {
        return Vec::new();
    }
    if hi - lo == 1 {
        let mut r: Vec<u32> = Vec::new();
        r.push(lo as u32);
        assert(r@[0] == lo as u32);
        return r;
    }
    let mid = lo + (hi - lo) / 2;
    let a = order_blanks(g, infos, lo, mid);
    let b = order_blanks(g, infos, mid, hi);
    let r = merge_blanks(g, infos, &a, &b);
    assert forall|x: u32| lo <= x < hi implies #[trigger] r@.contains(x) by {
        if (x as int) < mid {
            assert(a@.contains(x));
        } else {
            assert(b@.contains(x));
        }
    }
    assert forall|k: int| 0 <= k < r@.len() implies lo <= (#[trigger] r@[k]) < hi by {
        assert(r@.contains(r@[k]));
        if a@.contains(r@[k]) {
            let m = choose|m: int| 0 <= m < a@.len() && a@[m] == r@[k];
        } else {
            let m = choose|m: int| 0 <= m < b@.len() && b@[m] == r@[k];
        }
    }
    r
}

impl Graph {
    /// The blank nodes `0..=highest`, ordered by `blank_cmp`; ties keep id order.
    fn blank_node_order(&self) -> (order: Vec<u32>)
        requires
            self.wf(),
            self.highest() < usize::MAX,
        ensures
            order@.len() == self.highest() as nat + 1,
            forall|q: int| 0 <= q < order@.len() ==> (#[trigger] order@[q]) as nat <= self.highest(),
            forall|j: u32| j <= self.highest() ==> #[trigger] order@.contains(j),
            forall|a: int, b: int| 0 <= a < b < order@.len() ==> order@[a] != order@[b],
            forall|q: int| 0 <= q && q + 1 < order@.len() ==> #[trigger] blank_cmp(*self, order@[q], order@[q + 1]) != Ordering::Greater,
            forall|q: int| 0 <= q && q + 1 < order@.len() && #[trigger] blank_cmp(*self, order@[q], order@[q + 1]) == Ordering::Equal ==> order@[q] < order@[q + 1],
    {
        let n: usize = self.highest_blank_node() as usize + 1;
        let mut infos: Vec<BlankNodeInfo> = Vec::with_capacity(n);
        let mut b: usize = 0;
        while b < n
            invariant
                self.wf(),
                n == self.highest() as nat + 1,
                b <= n,
                infos@.len() == b,
                forall|j: int| 0 <= j < b ==> (#[trigger] infos@[j]).blank_node == j && info_ok(*self, infos@[j]),
            decreases n - b,
        {
            infos.push(blank_info(self, b as u32));
            b += 1;
        }
        let order = order_blanks(self, &infos, 0, n);
        proof {
            assert forall|j: u32| j <= self.highest() implies #[trigger] order@.contains(j) by {
                assert((j as int) < n);
            }
        }
        order
    }

    /// The same graph with its blank nodes renumbered so that the numbering
    /// follows the structure of the graph: by usage profile, the most used
    /// first, and on a tie by their neighbourhoods, blank nodes taken as equal.
    pub fn sort_blank_nodes(&self) -> (g: Graph)
        requires
            self.wf(),
            self.highest() < usize::MAX,
        ensures
            g.wf(),
            g.strings() == self.strings(),
            g.datatypes() == self.datatypes(),
            g.highest() == self.highest(),
            g.spo().len() == self.spo().len(),
            exists|perm: Seq<u32>|
                {
                    &&& is_numbering(perm, self.highest() as nat + 1)
                    &&& respects_order(*self, perm)
                    &&& keeps_ties(*self, perm)
                    &&& forall|x: CompactTriple| #[trigger] g.spo().contains(x) <==> exists|k: int| 0 <= k < self.spo().len() && renamed(self.spo()[k], perm) == x
                },
    {
        let order = self.blank_node_order();
        let translation = invert(&order);
        let ghost perm = translation@;
        let ghost n = order@.len();
        proof {
            assert forall|i: int, j: int| 0 <= i < n && 0 <= j < n && i != j implies perm[i] != perm[j] by {
                assert(order@[perm[i] as int] == i);
                assert(order@[perm[j] as int] == j);
            }
            assert forall|a: u32, b: u32| a < perm.len() && b < perm.len() && #[trigger] perm[b as int] == #[trigger] perm[a as int] + 1 implies blank_cmp(*self, a, b) != Ordering::Greater by {
                let q = perm[a as int] as int;
                assert(order@[q] == a);
                assert(order@[q + 1] == b);
            }
            assert forall|a: u32, b: u32| a < perm.len() && b < perm.len() && #[trigger] perm[b as int] == #[trigger] perm[a as int] + 1
                && blank_cmp(*self, a, b) == Ordering::Equal implies a < b by {
                let q = perm[a as int] as int;
                assert(order@[q] == a);
                assert(order@[q + 1] == b);
            }
            self.lemma_wf();
        }
        let source = self.spo_vec();
        let renumbered = rename_all(&source, &translation);
        let spo = sorted_set(Order::SPO, &renumbered);
        let ops = sorted_set(Order::OPS, &spo);
        proof {
            assert forall|k: int| 0 <= k < spo@.len() implies ids_in_range(#[trigger] spo@[k], self.strings().len(), self.datatypes().len()) && max_blank(spo@[k]) <= self.highest() by {
                assert(renumbered@.contains(spo@[k]));
                let j = choose|j: int| 0 <= j < renumbered@.len() && renumbered@[j] == spo@[k];
                assert(ids_in_range(self.spo()[j], self.strings().len(), self.datatypes().len()));
                assert(max_blank(self.spo()[j]) <= self.highest());
            }
        }
        let g = self.with_indices(spo, ops);
        proof {
            assert(is_numbering(perm, self.highest() as nat + 1));
            assert(respects_order(*self, perm));
            assert(keeps_ties(*self, perm));
            lemma_sorted_no_duplicates(Order::SPO, self.spo());
            assert forall|i: int, j: int| 0 <= i < renumbered@.len() && 0 <= j < renumbered@.len() && i != j implies renumbered@[i] != renumbered@[j] by {
                let a = self.spo()[i];
                let b = self.spo()[j];
                assert(max_blank(a) <= self.highest() && max_blank(b) <= self.highest());
                assert(a != b);
                if !a.subject_is_iri && !b.subject_is_iri && a.subject != b.subject {
                    assert(perm[a.subject as int] != perm[b.subject as int]);
                }
                if a.object_kind == ObjectKind::BlankNode && b.object_kind == ObjectKind::BlankNode && a.object != b.object {
                    assert(perm[a.object as int] != perm[b.object as int]);
                }
            }
            lemma_sorted_no_duplicates(Order::SPO, spo@);
            lemma_same_elements_same_len(spo@, renumbered@);
            assert forall|x: CompactTriple| #[trigger] g.spo().contains(x) <==> exists|k: int| 0 <= k < self.spo().len() && renamed(self.spo()[k], perm) == x by {
                if g.spo().contains(x) {
                    assert(renumbered@.contains(x));
                    let j = choose|j: int| 0 <= j < renumbered@.len() && renumbered@[j] == x;
                    assert(renamed(self.spo()[j], perm) == x);
                }
                if exists|k: int| 0 <= k < self.spo().len() && renamed(self.spo()[k], perm) == x {
                    let k = choose|k: int| 0 <= k < self.spo().len() && renamed(self.spo()[k], perm) == x;
                    assert(renumbered@[k] == x);
                    assert(renumbered@.contains(x));
                }
            }
            assert(forall|x: CompactTriple| #[trigger] g.spo().contains(x) <==> exists|k: int| 0 <= k < self.spo().len() && renamed(self.spo()[k], perm) == x);
        }
        g
    }
}

} // verus!
