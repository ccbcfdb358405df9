//! Global layout from pairwise offsets: confidence-ordered union-find merging,
//! lowest mismatch first, with eager propagation of translations.

use vstd::prelude::*;
use vstd::set_lib::{set_int_range, lemma_int_range, lemma_len_subset, lemma_set_disjoint_lens};
use partitions::PartitionVec;
use rayon::slice::ParallelSliceMut;
use crate::raster::Vector;

verus! {

/// Largest number of layers the solver accepts.
pub const MAX_LAYERS: usize = 0x100_0000;

/// Largest magnitude of an offset coordinate the solver accepts.
pub const MAX_OFFSET: i64 = 0x10_0000_0000;

/// The offset of layer `second` relative to layer `first`, and the mismatch
/// score that supports it (lower is more trustworthy).
#[derive(Clone, Copy, Debug, PartialEq, Eq, Structural)]
pub struct PairwiseOffset {
    pub first: usize,
    pub second: usize,
    pub offset: Vector,
    pub cost: u64,
}

#[verifier::external_type_specification]
#[verifier::external_body]
#[verifier::reject_recursive_types(T)]
pub struct ExPartitionVec<T>(PartitionVec<T>);

/// For each index of a partition, the set of indices that share its set.
pub uninterp spec fn partition_classes(p: PartitionVec<()>) -> Seq<Set<int>>;

/// Relies on `PartitionVec::from`: one element per index, each in a set of its own.
#[verifier::external_body]
fn singletons(n: usize) -> (r: PartitionVec<()>)
    ensures
        partition_classes(r).len() == n,
        forall|k: int| 0 <= k < n ==> #[trigger] partition_classes(r)[k] == set![k],
{
    PartitionVec::from(vec![(); n])
}

/// Relies on `PartitionVec::same_set`, which panics on an index out of bounds.
#[verifier::external_body]
fn same_set(p: &PartitionVec<()>, i: usize, j: usize) -> (r: bool)
    requires
        i < partition_classes(*p).len(),
        j < partition_classes(*p).len(),
    ensures
        r == partition_classes(*p)[i as int].contains(j as int),
{
    p.same_set(i, j)
}

/// Relies on `PartitionVec::union`, which joins the sets of the two indices
/// and panics on an index out of bounds.
#[verifier::external_body]
fn union(p: &mut PartitionVec<()>, i: usize, j: usize)
    requires
        i < partition_classes(*old(p)).len(),
        j < partition_classes(*old(p)).len(),
    ensures
        partition_classes(*final(p)) == merged(partition_classes(*old(p)), i as int, j as int),
{
    p.union(i, j)
}

/// Relies on `PartitionVec::set`, which yields each index of the set that
/// holds `i` once, and panics on an index out of bounds.
#[verifier::external_body]
fn members(p: &PartitionVec<()>, i: usize) -> (r: Vec<usize>)
    requires
        i < partition_classes(*p).len(),
    ensures
        r@.no_duplicates(),
        forall|m: int| 0 <= m < r@.len() ==> partition_classes(*p)[i as int].contains(#[trigger] r@[m] as int),
        forall|x: int|
            #[trigger] partition_classes(*p)[i as int].contains(x) ==> exists|m: int|
                0 <= m < r@.len() && r@[m] as int == x,
{
    p.set(i).map(|(k, _)| k).collect()
}

/// Relies on rayon's `par_sort_unstable`: ascending order of the tuples, which
/// std orders lexicographically.
#[verifier::external_body]
fn sort_edges(v: &mut Vec<(u64, usize, usize, i64, i64)>)
    ensures
        final(v)@.to_multiset() == old(v)@.to_multiset(),
        sorted_edges(final(v)@),
{
    v.par_sort_unstable()
}

/// Lexicographic order of edges `(cost, first, second, dx, dy)`.
pub open spec fn edge_le(a: (u64, usize, usize, i64, i64), b: (u64, usize, usize, i64, i64)) -> bool {
    a.0 < b.0 || (a.0 == b.0 && (a.1 < b.1 || (a.1 == b.1 && (a.2 < b.2 || (a.2 == b.2 && (a.3 < b.3
        || (a.3 == b.3 && a.4 <= b.4)))))))
}

pub open spec fn sorted_edges(s: Seq<(u64, usize, usize, i64, i64)>) -> bool {
    forall|i: int, j: int| 0 <= i < j < s.len() ==> edge_le(#[trigger] s[i], #[trigger] s[j])
}

pub open spec fn edge_of(m: PairwiseOffset) -> (u64, usize, usize, i64, i64) {
    (m.cost, m.first, m.second, m.offset.x, m.offset.y)
}

pub open spec fn edges_of(ms: Seq<PairwiseOffset>) -> Seq<(u64, usize, usize, i64, i64)> {
    ms.map_values(|m: PairwiseOffset| edge_of(m))
}

/// `s` holds the edges of `e` in ascending order.
pub open spec fn is_sorting(s: Seq<(u64, usize, usize, i64, i64)>, e: Seq<(u64, usize, usize, i64, i64)>) -> bool {
    sorted_edges(s) && s.to_multiset() == e.to_multiset()
}

pub open spec fn valid_edge(e: (u64, usize, usize, i64, i64), n: int) -> bool {
    e.1 < e.2 < n && -MAX_OFFSET <= e.3 <= MAX_OFFSET && -MAX_OFFSET <= e.4 <= MAX_OFFSET
}

/// The state of the solver: for each index the indices of its set, and its
/// accumulated translation.
pub struct Layout {
    pub classes: Seq<Set<int>>,
    pub shift: Seq<(int, int)>,
}

pub open spec fn initial_layout(n: nat) -> Layout {
    Layout { classes: Seq::new(n, |k: int| set![k]), shift: Seq::new(n, |k: int| (0int, 0int)) }
}

/// The classes after the sets of `i` and `j` are joined.
pub open spec fn merged(c: Seq<Set<int>>, i: int, j: int) -> Seq<Set<int>> {
    Seq::new(c.len(), |k: int| if c[i].contains(k) || c[j].contains(k) { c[i] + c[j] } else { c[k] })
}

/// One edge `(cost, i, j, dx, dy)`: skipped when `i` and `j` share a set;
/// otherwise every member of the set of `j` moves by
/// `shift[i] + (dx, dy) - shift[j]` and the two sets are joined.
pub open spec fn layout_step(st: Layout, e: (u64, usize, usize, i64, i64)) -> Layout {
    let i = e.1 as int;
    let j = e.2 as int;
    if st.classes[i].contains(j) {
        st
    } else {
        let mx = st.shift[i].0 + e.3 - st.shift[j].0;
        let my = st.shift[i].1 + e.4 - st.shift[j].1;
        Layout {
            classes: merged(st.classes, i, j),
            shift: Seq::new(
                st.shift.len(),
                |k: int|
                    if st.classes[j].contains(k) {
                        (st.shift[k].0 + mx, st.shift[k].1 + my)
                    } else {
                        st.shift[k]
                    },
            ),
        }
    }
}

/// The state after the first `k` edges.
pub open spec fn layout_after(n: nat, edges: Seq<(u64, usize, usize, i64, i64)>, k: nat) -> Layout
    decreases k,
{
    if k == 0 {
        initial_layout(n)
    } else {
        layout_step(layout_after(n, edges, (k - 1) as nat), edges[k - 1])
    }
}

/// The translations after all the edges, taken in the order given.
pub open spec fn layout(n: nat, edges: Seq<(u64, usize, usize, i64, i64)>) -> Seq<(int, int)> {
    layout_after(n, edges, edges.len()).shift
}

pub open spec fn positions_of(v: Seq<Vector>) -> Seq<(int, int)> {
    v.map_values(|p: Vector| (p.x as int, p.y as int))
}

pub open spec fn abs(a: int) -> int {
    if a >= 0 { a } else { -a }
}

pub open spec fn classes_wf(c: Seq<Set<int>>, n: int) -> bool {
    &&& c.len() == n
    &&& forall|k: int|
        0 <= k < n ==> (#[trigger] c[k]).contains(k) && c[k].finite() && c[k].subset_of(
            set_int_range(0, n),
        )
    &&& forall|k: int, x: int| 0 <= k < n && (#[trigger] c[k].contains(x)) ==> c[x] == c[k]
}

/// The class of `k` holds an index whose translation is zero.
pub open spec fn anchored(st: Layout, k: int) -> bool {
    exists|z: int| #[trigger] st.classes[k].contains(z) && st.shift[z] == (0int, 0int)
}

/// Solver invariant: the classes partition the indices, each class holds an
/// index whose translation is zero, and translations within a class differ by
/// at most `MAX_OFFSET` per merge that built it.
pub open spec fn layout_inv(st: Layout, n: int) -> bool {
    &&& classes_wf(st.classes, n)
    &&& st.shift.len() == n
    &&& forall|k: int| 0 <= k < n ==> #[trigger] anchored(st, k)
    &&& forall|k: int, l: int|
        0 <= k < n && #[trigger] st.classes[k].contains(l) ==> abs(st.shift[k].0 - st.shift[l].0)
            <= MAX_OFFSET * (st.classes[k].len() - 1) && abs(st.shift[k].1 - st.shift[l].1)
            <= MAX_OFFSET * (st.classes[k].len() - 1)
}

proof fn lemma_initial_inv(n: nat)
    ensures
        layout_inv(initial_layout(n), n as int),
{
    let st = initial_layout(n);
    assert forall|k: int| 0 <= k < n implies (#[trigger] st.classes[k]).contains(k) && st.classes[k].finite()
        && st.classes[k].subset_of(set_int_range(0, n as int)) by {
        assert(set![k].len() == 1);
    }
    assert forall|k: int| 0 <= k < n implies #[trigger] anchored(st, k) by {
        assert(st.classes[k].contains(k));
    }
    assert forall|k: int, l: int| 0 <= k < n && #[trigger] st.classes[k].contains(l) implies abs(
        st.shift[k].0 - st.shift[l].0,
    ) <= MAX_OFFSET * (st.classes[k].len() - 1) && abs(st.shift[k].1 - st.shift[l].1) <= MAX_OFFSET * (
    st.classes[k].len() - 1) by {
        assert(l == k);
    }
}

proof fn lemma_class_len(c: Seq<Set<int>>, n: int, k: int)
    requires
        classes_wf(c, n),
        0 <= k < n,
    ensures
        1 <= c[k].len() <= n,
{
    lemma_int_range(0, n);
    lemma_len_subset(c[k], set_int_range(0, n));
    assert(c[k].contains(k));
    if c[k].len() == 0 {
        c[k].lemma_len0_is_empty();
    }
}

proof fn lemma_step_inv(st: Layout, e: (u64, usize, usize, i64, i64), n: int)
    requires
        layout_inv(st, n),
        valid_edge(e, n),
    ensures
        layout_inv(layout_step(st, e), n),
{
    let i = e.1 as int;
    let j = e.2 as int;
    if !st.classes[i].contains(j) {
        let c = st.classes;
        let s = st.shift;
        let ci = c[i];
        let cj = c[j];
        let u = ci + cj;
        let nst = layout_step(st, e);
        let c2 = nst.classes;
        let s2 = nst.shift;
        let mx = s[i].0 + e.3 - s[j].0;
        let my = s[i].1 + e.4 - s[j].1;
        assert(ci.disjoint(cj)) by {
            assert forall|x: int| !(ci.contains(x) && cj.contains(x)) by {
                if ci.contains(x) && cj.contains(x) {
                    assert(c[x] == ci);
                    assert(c[x] == cj);
                    assert(cj.contains(j));
                }
            }
        }
        lemma_set_disjoint_lens(ci, cj);
        assert(u.len() == ci.len() + cj.len());
        assert(u.subset_of(set_int_range(0, n)));
        // classes stay a partition
        assert forall|k: int| 0 <= k < n implies (#[trigger] c2[k]).contains(k) && c2[k].finite() && c2[k].subset_of(
            set_int_range(0, n),
        ) by {}
        assert forall|k: int, x: int| 0 <= k < n && (#[trigger] c2[k].contains(x)) implies c2[x] == c2[k] by {
            if ci.contains(k) || cj.contains(k) {
                assert(c[x] == ci || c[x] == cj);
            } else {
                assert(c[x] == c[k]);
                if ci.contains(x) || cj.contains(x) {
                    assert(c[x].contains(k));
                }
            }
        }
        // an anchored member in every class
        assert(anchored(st, i));
        let zi = choose|z: int| #[trigger] c[i].contains(z) && s[z] == (0int, 0int);
        assert(c[i].contains(zi) && s[zi] == (0int, 0int));
        assert(!cj.contains(zi));
        assert forall|k: int| 0 <= k < n implies #[trigger] anchored(nst, k) by {
            if ci.contains(k) || cj.contains(k) {
                assert(c2[k].contains(zi) && s2[zi] == (0int, 0int));
            } else {
                assert(anchored(st, k));
                let zk = choose|z: int| #[trigger] c[k].contains(z) && s[z] == (0int, 0int);
                assert(c[k].contains(zk));
                assert(c[zk] == c[k]);
                if cj.contains(zk) {
                    assert(c[zk] == cj);
                    assert(cj.contains(k));
                }
                assert(c2[k].contains(zk) && s2[zk] == (0int, 0int));
            }
        }
        // spans
        assert forall|k: int, l: int| 0 <= k < n && #[trigger] c2[k].contains(l) implies abs(s2[k].0 - s2[l].0)
            <= MAX_OFFSET * (c2[k].len() - 1) && abs(s2[k].1 - s2[l].1) <= MAX_OFFSET * (c2[k].len() - 1) by {
            if ci.contains(k) || cj.contains(k) {
                assert(c2[k] == u);
                assert(0 <= l < n);
                if cj.contains(k) && cj.contains(l) {
                    assert(c[k] == cj);
                } else if ci.contains(k) && ci.contains(l) {
                    assert(c[k] == ci);
                } else if cj.contains(k) {
                    assert(ci.contains(l));
                    assert(c[j].contains(k));
                    assert(c[i].contains(l));
                    assert(abs(s[j].0 - s[k].0) <= MAX_OFFSET * (cj.len() - 1));
                    assert(abs(s[i].0 - s[l].0) <= MAX_OFFSET * (ci.len() - 1));
                    assert(abs(s[j].1 - s[k].1) <= MAX_OFFSET * (cj.len() - 1));
                    assert(abs(s[i].1 - s[l].1) <= MAX_OFFSET * (ci.len() - 1));
                } else {
                    assert(ci.contains(k) && cj.contains(l));
                    assert(c[i].contains(k));
                    assert(c[j].contains(l));
                    assert(abs(s[j].0 - s[l].0) <= MAX_OFFSET * (cj.len() - 1));
                    assert(abs(s[i].0 - s[k].0) <= MAX_OFFSET * (ci.len() - 1));
                    assert(abs(s[j].1 - s[l].1) <= MAX_OFFSET * (cj.len() - 1));
                    assert(abs(s[i].1 - s[k].1) <= MAX_OFFSET * (ci.len() - 1));
                }
            } else {
                assert(c[l] == c[k]);
                if ci.contains(l) || cj.contains(l) {
                    assert(c[l].contains(k));
                }
            }
        }
    }
}

proof fn lemma_shift_bounded(st: Layout, n: int, k: int)
    requires
        layout_inv(st, n),
        0 <= k < n,
    ensures
        abs(st.shift[k].0) <= MAX_OFFSET * (n - 1),
        abs(st.shift[k].1) <= MAX_OFFSET * (n - 1),
{
    assert(anchored(st, k));
    let z = choose|z: int| #[trigger] st.classes[k].contains(z) && st.shift[z] == (0int, 0int);
    lemma_class_len(st.classes, n, k);
    assert(st.classes[k].contains(z));
}

/// Every index shares the set of index 0.
pub open spec fn joined(c: Seq<Set<int>>, n: int) -> bool {
    forall|q: int| 0 <= q < n ==> #[trigger] c[0].contains(q)
}

proof fn lemma_layout_inv(n: nat, edges: Seq<(u64, usize, usize, i64, i64)>, k: nat)
    requires
        k <= edges.len(),
        forall|t: int| 0 <= t < edges.len() ==> valid_edge(#[trigger] edges[t], n as int),
    ensures
        layout_inv(layout_after(n, edges, k), n as int),
    decreases k,
{
    if k == 0 {
        lemma_initial_inv(n);
    } else {
        lemma_layout_inv(n, edges, (k - 1) as nat);
        lemma_step_inv(layout_after(n, edges, (k - 1) as nat), edges[k - 1], n as int);
    }
}

/// Once every index shares one set, later edges change nothing.
proof fn lemma_joined_stable(n: nat, edges: Seq<(u64, usize, usize, i64, i64)>, k: nat, m: nat)
    requires
        k <= m <= edges.len(),
        n >= 1,
        forall|t: int| 0 <= t < edges.len() ==> valid_edge(#[trigger] edges[t], n as int),
        joined(layout_after(n, edges, k).classes, n as int),
    ensures
        layout_after(n, edges, m) == layout_after(n, edges, k),
    decreases m,
{
    if m > k {
        lemma_joined_stable(n, edges, k, (m - 1) as nat);
        lemma_layout_inv(n, edges, k);
        let st = layout_after(n, edges, k);
        let e = edges[m - 1];
        assert(valid_edge(e, n as int));
        assert(st.classes[0].contains(e.1 as int));
        assert(st.classes[0].contains(e.2 as int));
        assert(st.classes[e.1 as int] == st.classes[0]);
    }
}

pub open spec fn moved(t: (int, int), on: bool, mx: int, my: int) -> (int, int) {
    if on { (t.0 + mx, t.1 + my) } else { t }
}

pub open spec fn lift_shift(t: Seq<(i64, i64)>) -> Seq<(int, int)> {
    t.map_values(|p: (i64, i64)| (p.0 as int, p.1 as int))
}

/// Assigns each of `n` layers a position consistent with the pairwise
/// offsets, trusting the lowest-cost offsets first: the offsets are taken in
/// ascending order of cost (ties broken by the other fields), an offset whose
/// layers already share a set is skipped, and otherwise the set of the second
/// layer is moved so that the offset holds and the two sets are joined. Work
/// stops once all layers share one set. A layer that no offset reaches stays
/// at the origin.
pub fn solve_layout(n: usize, matches: &Vec<PairwiseOffset>) -> (r: Vec<Vector>)
    requires
        n <= MAX_LAYERS,
        forall|k: int| 0 <= k < matches@.len() ==> valid_edge(edge_of(#[trigger] matches@[k]), n as int),
    ensures
        r@.len() == n,
        is_sorting(sorting_of(edges_of(matches@)), edges_of(matches@)),
        positions_of(r@) == solved_layout(n as nat, edges_of(matches@)),
{
    let mut edges: Vec<(u64, usize, usize, i64, i64)> = Vec::new();
    let mut k: usize = 0;
    while k < matches.len()
        invariant
            k <= matches@.len(),
            edges@ == edges_of(matches@).subrange(0, k as int),
        decreases matches@.len() - k,
    {
        let m = matches[k];
        edges.push((m.cost, m.first, m.second, m.offset.x, m.offset.y));
        k = k + 1;
        assert(edges@ =~= edges_of(matches@).subrange(0, k as int));
    }
    assert(edges@ =~= edges_of(matches@));
    let ghost before = edges@;
    sort_edges(&mut edges);
    proof {
        broadcast use vstd::seq_lib::group_to_multiset_ensures;
        assert forall|t: int| 0 <= t < edges@.len() implies valid_edge(#[trigger] edges@[t], n as int) by {
            edges@.to_multiset_ensures();
            before.to_multiset_ensures();
            assert(edges@.contains(edges@[t]));
            assert(edges@.to_multiset().count(edges@[t]) > 0);
            assert(before.contains(edges@[t]));
            let u = choose|u: int| 0 <= u < before.len() && before[u] == edges@[t];
            assert(valid_edge(edge_of(matches@[u]), n as int));
        }
        lemma_layout_inv(n as nat, edges@, 0);
    }
    let ghost sorted = edges@;
    let mut parts = singletons(n);
    let mut trans: Vec<(i64, i64)> = Vec::new();
    let mut q: usize = 0;
    while q < n
        invariant
            q <= n,
            trans@.len() == q,
            forall|x: int| 0 <= x < q ==> trans@[x] == (0i64, 0i64),
        decreases n - q,
    {
        trans.push((0, 0));
        q = q + 1;
    }
    assert(partition_classes(parts) =~= layout_after(n as nat, sorted, 0).classes);
    assert(lift_shift(trans@) =~= layout_after(n as nat, sorted, 0).shift);
    let mut done = false;
    let mut k: usize = 0;
    while k < edges.len() && !done
        invariant
            edges@ == sorted,
            k <= sorted.len(),
            n <= MAX_LAYERS,
            forall|t: int| 0 <= t < sorted.len() ==> valid_edge(#[trigger] sorted[t], n as int),
            partition_classes(parts) == layout_after(n as nat, sorted, k as nat).classes,
            lift_shift(trans@) == layout_after(n as nat, sorted, k as nat).shift,
            trans@.len() == n,
            done ==> n >= 1 && joined(layout_after(n as nat, sorted, k as nat).classes, n as int),
        decreases sorted.len() - k,
    {
        let e = edges[k];
        let ghost st = layout_after(n as nat, sorted, k as nat);
        proof {
            lemma_layout_inv(n as nat, sorted, k as nat);
            assert(valid_edge(sorted[k as int], n as int));
        }
        if !same_set(&parts, e.1, e.2) {
            proof {
                lemma_shift_bounded(st, n as int, e.1 as int);
                lemma_shift_bounded(st, n as int, e.2 as int);
                assert(trans@[e.1 as int].0 == st.shift[e.1 as int].0);
                assert(trans@[e.1 as int].1 == st.shift[e.1 as int].1);
                assert(trans@[e.2 as int].0 == st.shift[e.2 as int].0);
                assert(trans@[e.2 as int].1 == st.shift[e.2 as int].1);
            }
            let ti = trans[e.1];
            let tj = trans[e.2];
            let mx = ti.0 + e.3 - tj.0;
            let my = ti.1 + e.4 - tj.1;
            let ms = members(&parts, e.2);
            let ghost old_trans = trans@;
            let mut m: usize = 0;
            while m < ms.len()
                invariant
                    m <= ms@.len(),
                    e.1 < e.2 < n,
                    ms@.no_duplicates(),
                    forall|t: int| 0 <= t < ms@.len() ==> st.classes[e.2 as int].contains(#[trigger] ms@[t] as int),
                    layout_inv(st, n as int),
                    n <= MAX_LAYERS,
                    old_trans.len() == n,
                    lift_shift(old_trans) == st.shift,
                    -0x4000_0000_0000_0000 <= mx <= 0x4000_0000_0000_0000,
                    -0x4000_0000_0000_0000 <= my <= 0x4000_0000_0000_0000,
                    trans@.len() == n,
                    forall|x: int|
                        0 <= x < n ==> #[trigger] lift_shift(trans@)[x] == moved(
                            lift_shift(old_trans)[x],
                            ms@.subrange(0, m as int).contains(x as usize),
                            mx as int,
                            my as int,
                        ),
                decreases ms@.len() - m,
            {
                let idx = ms[m];
                proof {
                    assert(st.classes[e.2 as int].contains(ms@[m as int] as int));
                    lemma_class_len(st.classes, n as int, e.2 as int);
                    assert(st.classes[e.2 as int].subset_of(set_int_range(0, n as int)));
                    assert(0 <= idx < n);
                    lemma_shift_bounded(st, n as int, idx as int);
                    assert(!ms@.subrange(0, m as int).contains(idx)) by {
                        if ms@.subrange(0, m as int).contains(idx) {
                            let w = choose|w: int| 0 <= w < m && ms@.subrange(0, m as int)[w] == idx;
                            assert(ms@[w] == ms@[m as int]);
                        }
                    }
                    assert(lift_shift(trans@)[idx as int] == lift_shift(old_trans)[idx as int]);
                    assert(old_trans[idx as int].0 == st.shift[idx as int].0);
                    assert(old_trans[idx as int].1 == st.shift[idx as int].1);
                }
                let t = trans[idx];
                let ghost prev = trans@;
                trans.set(idx, (t.0 + mx, t.1 + my));
                m = m + 1;
                proof {
                    assert forall|x: int| 0 <= x < n implies #[trigger] lift_shift(trans@)[x] == moved(
                        lift_shift(old_trans)[x],
                        ms@.subrange(0, m as int).contains(x as usize),
                        mx as int,
                        my as int,
                    ) by {
                        assert(ms@.subrange(0, m as int) =~= ms@.subrange(0, m - 1).push(idx));
                        assert(lift_shift(prev)[x] == moved(
                            lift_shift(old_trans)[x],
                            ms@.subrange(0, m - 1).contains(x as usize),
                            mx as int,
                            my as int,
                        ));
                        if x != idx as int {
                            assert(x as usize != idx);
                            assert(trans@[x] == prev[x]);
                        } else {
                            assert(ms@.subrange(0, m as int)[m - 1] == idx);
                            assert(ms@.subrange(0, m as int).contains(idx));
                        }
                    }
                }
            }
            proof {
                assert(ms@.subrange(0, ms@.len() as int) =~= ms@);
                let nst = layout_after(n as nat, sorted, (k + 1) as nat);
                assert(nst == layout_step(st, sorted[k as int]));
                assert forall|x: int| 0 <= x < n implies #[trigger] lift_shift(trans@)[x] == nst.shift[x] by {
                    if st.classes[e.2 as int].contains(x) {
                        let w = choose|w: int| 0 <= w < ms@.len() && ms@[w] as int == x;
                        assert(ms@.contains(x as usize));
                    } else {
                        if ms@.contains(x as usize) {
                            let w = choose|w: int| 0 <= w < ms@.len() && ms@[w] == x as usize;
                            assert(st.classes[e.2 as int].contains(ms@[w] as int));
                        }
                    }
                }
                assert(lift_shift(trans@) =~= nst.shift);
            }
            union(&mut parts, e.1, e.2);
            k = k + 1;
            let mut all = true;
            let mut q: usize = 0;
            while q < n
                invariant
                    q <= n,
                    n >= 1,
                    partition_classes(parts).len() == n,
                    all == forall|x: int| 0 <= x < q ==> #[trigger] partition_classes(parts)[0].contains(x),
                decreases n - q,
            {
                let b = same_set(&parts, 0, q);
                all = all && b;
                q = q + 1;
            }
            done = all;
        } else {
            k = k + 1;
        }
    }
    proof {
        if done {
            lemma_joined_stable(n as nat, sorted, k as nat, sorted.len());
        }
    }
    let mut r: Vec<Vector> = Vec::new();
    let mut q: usize = 0;
    while q < n
        invariant
            q <= n,
            trans@.len() == n,
            r@.len() == q,
            forall|x: int| 0 <= x < q ==> (#[trigger] r@[x]).x == trans@[x].0 && r@[x].y == trans@[x].1,
        decreases n - q,
    {
        let t = trans[q];
        r.push(Vector { x: t.0, y: t.1 });
        q = q + 1;
    }
    assert(positions_of(r@) =~= lift_shift(trans@));
    assert(is_sorting(sorted, edges_of(matches@)));
    assert(layout_after(n as nat, sorted, sorted.len()) == layout_after(n as nat, sorted, k as nat));
    assert(positions_of(r@) == layout(n as nat, sorted));
    proof {
        lemma_sorting_of(sorted, edges_of(matches@));
    }
    r
}

/// Every offset of `edges` says where `p` places its second layer relative to its first.
pub open spec fn agrees_with(edges: Seq<(u64, usize, usize, i64, i64)>, p: Seq<(int, int)>) -> bool {
    forall|t: int|
        0 <= t < edges.len() ==> #[trigger] edges[t].3 == p[edges[t].2 as int].0 - p[edges[t].1 as int].0
            && edges[t].4 == p[edges[t].2 as int].1 - p[edges[t].1 as int].1
}

/// Within a class, translations differ from `p` by one common vector.
pub open spec fn follows(st: Layout, p: Seq<(int, int)>, n: int) -> bool {
    forall|k: int, l: int|
        0 <= k < n && #[trigger] st.classes[k].contains(l) ==> st.shift[l].0 - p[l].0 == st.shift[k].0 - p[k].0
            && st.shift[l].1 - p[l].1 == st.shift[k].1 - p[k].1
}

/// The two layers of each of the first `k` edges share a class.
pub open spec fn edges_joined(st: Layout, edges: Seq<(u64, usize, usize, i64, i64)>, k: int) -> bool {
    forall|t: int| 0 <= t < k ==> #[trigger] st.classes[edges[t].1 as int].contains(edges[t].2 as int)
}

proof fn lemma_follows_after(n: nat, edges: Seq<(u64, usize, usize, i64, i64)>, p: Seq<(int, int)>, k: nat)
    requires
        k <= edges.len(),
        p.len() == n,
        forall|t: int| 0 <= t < edges.len() ==> valid_edge(#[trigger] edges[t], n as int),
        agrees_with(edges, p),
    ensures
        follows(layout_after(n, edges, k), p, n as int),
        edges_joined(layout_after(n, edges, k), edges, k as int),
    decreases k,
{
    if k > 0 {
        lemma_follows_after(n, edges, p, (k - 1) as nat);
        lemma_layout_inv(n, edges, (k - 1) as nat);
        let st = layout_after(n, edges, (k - 1) as nat);
        let e = edges[k - 1];
        assert(valid_edge(e, n as int));
        assert(e.3 == p[e.2 as int].0 - p[e.1 as int].0 && e.4 == p[e.2 as int].1 - p[e.1 as int].1);
        let nst = layout_step(st, e);
        let i = e.1 as int;
        let j = e.2 as int;
        if !st.classes[i].contains(j) {
            let c = st.classes;
            assert forall|k2: int, l: int| 0 <= k2 < n && #[trigger] nst.classes[k2].contains(l) implies nst.shift[l].0
                - p[l].0 == nst.shift[k2].0 - p[k2].0 && nst.shift[l].1 - p[l].1 == nst.shift[k2].1 - p[k2].1 by {
                if c[i].contains(k2) || c[j].contains(k2) {
                    assert(0 <= l < n);
                    if c[j].contains(l) {
                        assert(c[j].contains(j));
                    }
                    if c[i].contains(l) {
                        assert(c[i].contains(i));
                    }
                    if c[j].contains(k2) {
                        assert(c[k2] == c[j]);
                    } else {
                        assert(c[k2] == c[i]);
                    }
                    if c[i].contains(k2) && c[j].contains(k2) {
                        assert(c[k2] == c[i] && c[k2] == c[j]);
                    }
                    if c[i].contains(l) && c[j].contains(l) {
                        assert(c[l] == c[i] && c[l] == c[j]);
                    }
                } else {
                    assert(c[l] == c[k2]);
                    if c[i].contains(l) || c[j].contains(l) {
                        assert(c[l].contains(k2));
                    }
                }
            }
            assert forall|t: int| 0 <= t < k implies #[trigger] nst.classes[edges[t].1 as int].contains(
                edges[t].2 as int,
            ) by {
                if t < k - 1 {
                    let a = edges[t].1 as int;
                    let b = edges[t].2 as int;
                    assert(c[a].contains(b));
                    assert(valid_edge(edges[t], n as int));
                    if c[i].contains(a) || c[j].contains(a) {
                    } else {
                        assert(c[b] == c[a]);
                        if c[i].contains(b) || c[j].contains(b) {
                            assert(c[b].contains(a));
                        }
                    }
                } else {
                    assert(c[i].contains(i));
                }
            }
        }
    }
}

/// When all pairwise offsets agree with one placement `p`, every two layers
/// that the solver joins are placed relative to each other exactly as `p`
/// places them, and the layers of every offset end up joined.
pub proof fn lemma_consistent_offsets(n: nat, edges: Seq<(u64, usize, usize, i64, i64)>, p: Seq<(int, int)>)
    requires
        p.len() == n,
        forall|t: int| 0 <= t < edges.len() ==> valid_edge(#[trigger] edges[t], n as int),
        agrees_with(edges, p),
    ensures
        follows(layout_after(n, edges, edges.len()), p, n as int),
        edges_joined(layout_after(n, edges, edges.len()), edges, edges.len() as int),
{
    lemma_follows_after(n, edges, p, edges.len());
}

/// Three layers whose pairwise offsets close a loop with zero sum: whatever
/// order their costs give, the solved positions satisfy all three offsets.
pub proof fn lemma_transitive_consistency(
    a: PairwiseOffset,
    b: PairwiseOffset,
    c: PairwiseOffset,
    s: Seq<(u64, usize, usize, i64, i64)>,
)
    requires
        a.first == 0 && a.second == 1,
        b.first == 1 && b.second == 2,
        c.first == 0 && c.second == 2,
        a.offset.x + b.offset.x == c.offset.x,
        a.offset.y + b.offset.y == c.offset.y,
        forall|m: PairwiseOffset|
            m == a || m == b || m == c ==> -MAX_OFFSET <= #[trigger] m.offset.x <= MAX_OFFSET && -MAX_OFFSET
                <= m.offset.y <= MAX_OFFSET,
        is_sorting(s, edges_of(seq![a, b, c])),
    ensures
        ({
            let r = layout(3, s);
            &&& r[1].0 - r[0].0 == a.offset.x && r[1].1 - r[0].1 == a.offset.y
            &&& r[2].0 - r[1].0 == b.offset.x && r[2].1 - r[1].1 == b.offset.y
            &&& r[2].0 - r[0].0 == c.offset.x && r[2].1 - r[0].1 == c.offset.y
        }),
{
    let e = edges_of(seq![a, b, c]);
    assert(e =~= seq![edge_of(a), edge_of(b), edge_of(c)]);
    let p = seq![(0int, 0int), (a.offset.x as int, a.offset.y as int), (c.offset.x as int, c.offset.y as int)];
    s.to_multiset_ensures();
    e.to_multiset_ensures();
    assert forall|t: int| 0 <= t < s.len() implies valid_edge(#[trigger] s[t], 3) && s[t].3 == p[s[t].2 as int].0
        - p[s[t].1 as int].0 && s[t].4 == p[s[t].2 as int].1 - p[s[t].1 as int].1 by {
        assert(s.contains(s[t]));
        assert(s.to_multiset().count(s[t]) > 0);
        assert(e.contains(s[t]));
        let u = choose|u: int| 0 <= u < e.len() && e[u] == s[t];
        assert(u == 0 || u == 1 || u == 2);
    }
    lemma_consistent_offsets(3, s, p);
    let st = layout_after(3, s, s.len());
    assert(e.contains(edge_of(a)) && e.contains(edge_of(c)));
    assert(e.to_multiset().count(edge_of(a)) > 0);
    assert(e.to_multiset().count(edge_of(c)) > 0);
    let ta = choose|t: int| 0 <= t < s.len() && s[t] == edge_of(a);
    let tc = choose|t: int| 0 <= t < s.len() && s[t] == edge_of(c);
    assert(st.classes[s[ta].1 as int].contains(s[ta].2 as int));
    assert(st.classes[s[tc].1 as int].contains(s[tc].2 as int));
    assert(st.classes[0].contains(1));
    assert(st.classes[0].contains(2));
}

proof fn lemma_edge_le_antisymmetric(a: (u64, usize, usize, i64, i64), b: (u64, usize, usize, i64, i64))
    requires
        edge_le(a, b),
        edge_le(b, a),
    ensures
        a == b,
{
}

/// Two ascending orderings of the same edges are the same sequence.
pub proof fn lemma_sorting_unique(
    s1: Seq<(u64, usize, usize, i64, i64)>,
    s2: Seq<(u64, usize, usize, i64, i64)>,
    e: Seq<(u64, usize, usize, i64, i64)>,
)
    requires
        is_sorting(s1, e),
        is_sorting(s2, e),
    ensures
        s1 == s2,
    decreases s1.len(),
{
    s1.to_multiset_ensures();
    s2.to_multiset_ensures();
    if s1.len() == 0 {
        assert(s1 =~= s2);
    } else {
        let x1 = s1[0];
        let x2 = s2[0];
        assert(s1.contains(x1));
        assert(s2.contains(x2));
        assert(s2.to_multiset().count(x1) > 0);
        assert(s1.to_multiset().count(x2) > 0);
        let k2 = choose|k: int| 0 <= k < s2.len() && s2[k] == x1;
        let k1 = choose|k: int| 0 <= k < s1.len() && s1[k] == x2;
        if k2 > 0 {
            assert(edge_le(s2[0], s2[k2]));
        }
        if k1 > 0 {
            assert(edge_le(s1[0], s1[k1]));
        }
        lemma_edge_le_antisymmetric(x1, x2);
        let t1 = s1.remove(0);
        let t2 = s2.remove(0);
        assert(t1.to_multiset() =~= s1.to_multiset().remove(x1));
        assert(t2.to_multiset() =~= s2.to_multiset().remove(x2));
        assert(sorted_edges(t1)) by {
            assert forall|i: int, j: int| 0 <= i < j < t1.len() implies edge_le(#[trigger] t1[i], #[trigger] t1[j]) by {
                assert(t1[i] == s1[i + 1] && t1[j] == s1[j + 1]);
            }
        }
        assert(sorted_edges(t2)) by {
            assert forall|i: int, j: int| 0 <= i < j < t2.len() implies edge_le(#[trigger] t2[i], #[trigger] t2[j]) by {
                assert(t2[i] == s2[i + 1] && t2[j] == s2[j + 1]);
            }
        }
        lemma_sorting_unique(t1, t2, t2);
        assert(s1 =~= t1.insert(0, x1));
        assert(s2 =~= t2.insert(0, x2));
    }
}

/// The edges of `e` in ascending order.
pub open spec fn sorting_of(e: Seq<(u64, usize, usize, i64, i64)>) -> Seq<(u64, usize, usize, i64, i64)> {
    choose|s: Seq<(u64, usize, usize, i64, i64)>| is_sorting(s, e)
}

/// The translations the solver assigns to `n` layers from the edges `e`.
pub open spec fn solved_layout(n: nat, e: Seq<(u64, usize, usize, i64, i64)>) -> Seq<(int, int)> {
    layout(n, sorting_of(e))
}

proof fn lemma_sorting_of(s: Seq<(u64, usize, usize, i64, i64)>, e: Seq<(u64, usize, usize, i64, i64)>)
    requires
        is_sorting(s, e),
    ensures
        sorting_of(e) == s,
{
    let c = sorting_of(e);
    assert(is_sorting(c, e));
    lemma_sorting_unique(c, s, e);
}

/// The solver's contract leaves one result: two solutions for the same
/// layer count and offsets are equal.
pub proof fn lemma_solve_deterministic(n: nat, e: Seq<(u64, usize, usize, i64, i64)>, r1: Seq<Vector>, r2: Seq<Vector>)
    requires
        r1.len() == n,
        r2.len() == n,
        positions_of(r1) == solved_layout(n, e),
        positions_of(r2) == solved_layout(n, e),
    ensures
        r1 == r2,
{
    assert forall|k: int| 0 <= k < n implies r1[k] == r2[k] by {
        assert(positions_of(r1)[k] == positions_of(r2)[k]);
    }
    assert(r1 =~= r2);
}

} // verus!
