//! The positioning stage: pairwise displacement estimation for every pair of
//! layers, then the global layout.

use vstd::prelude::*;
use vstd::view::View as _;
use crate::displacement::{cost_of, displacement, estimate_displacement, lemma_displacement_bounded, OFFSET_BOUND};
use crate::error::Error;
use crate::layout::{
    PairwiseOffset, agrees_with, edges_of, edge_of, is_sorting, layout, layout_after, lemma_consistent_offsets,
    positions_of, solve_layout, solved_layout, sorting_of, valid_edge, MAX_LAYERS, MAX_OFFSET,
};
use crate::raster::{Layer, Vector, View};

verus! {

/// The offset edge for layers `i < j`, when their displacement exists.
pub open spec fn pair_edge(ls: Seq<Layer>, i: int, j: int) -> Option<(u64, usize, usize, i64, i64)> {
    match displacement(ls[i].image@, ls[j].image@) {
        Some(d) => Some((cost_of(d.2, d.3) as u64, i as usize, j as usize, d.0 as i64, d.1 as i64)),
        None => None,
    }
}

/// Edges of the pairs `(i, i + 1)` to `(i, i + k)`, in that order.
pub open spec fn row_edges(ls: Seq<Layer>, i: int, k: nat) -> Seq<(u64, usize, usize, i64, i64)>
    decreases k,
{
    if k == 0 {
        Seq::empty()
    } else {
        let prev = row_edges(ls, i, (k - 1) as nat);
        match pair_edge(ls, i, i + k) {
            Some(e) => prev.push(e),
            None => prev,
        }
    }
}

/// Edges of all pairs `(i, j)`, `i < j`, whose first layer is among the first
/// `r`, row by row.
pub open spec fn pair_edges(ls: Seq<Layer>, r: nat) -> Seq<(u64, usize, usize, i64, i64)>
    decreases r,
{
    if r == 0 {
        Seq::empty()
    } else {
        pair_edges(ls, (r - 1) as nat) + row_edges(ls, r - 1, (ls.len() - r) as nat)
    }
}

/// Estimates the offset of every pair of layers `i < j`; pairs that cannot
/// overlap give none.
pub fn estimate_offsets(layers: &Vec<Layer>) -> (r: Vec<PairwiseOffset>)
    requires
        forall|k: int| 0 <= k < layers@.len() ==> (#[trigger] layers@[k]).wf(),
    ensures
        edges_of(r@) == pair_edges(layers@, layers@.len()),
        forall|k: int| 0 <= k < r@.len() ==> valid_edge(edge_of(#[trigger] r@[k]), layers@.len() as int),
{
    let ghost ls = layers@;
    let n = layers.len();
    let mut out: Vec<PairwiseOffset> = Vec::new();
    let mut i: usize = 0;
    while i < n
        invariant
            ls == layers@,
            n == ls.len(),
            forall|k: int| 0 <= k < ls.len() ==> (#[trigger] ls[k]).wf(),
            i <= n,
            edges_of(out@) == pair_edges(ls, i as nat),
            forall|k: int| 0 <= k < out@.len() ==> valid_edge(edge_of(#[trigger] out@[k]), n as int),
        decreases n - i,
    {
        let ghost base = out@;
        let mut j: usize = i + 1;
        while j < n
            invariant
                ls == layers@,
                n == ls.len(),
                forall|k: int| 0 <= k < ls.len() ==> (#[trigger] ls[k]).wf(),
                i < j <= n,
                edges_of(out@) == edges_of(base) + row_edges(ls, i as int, (j - i - 1) as nat),
                forall|k: int| 0 <= k < out@.len() ==> valid_edge(edge_of(#[trigger] out@[k]), n as int),
            decreases n - j,
        {
            let ghost before = out@;
            match estimate_displacement(&layers[i].image, &layers[j].image) {
                Some(d) => {
                    out.push(PairwiseOffset { first: i, second: j, offset: d.offset, cost: d.cost });
                    assert(edges_of(out@) =~= edges_of(before).push(edge_of(out@[out@.len() - 1])));
                    assert(row_edges(ls, i as int, (j - i) as nat) == row_edges(ls, i as int, (j - i - 1) as nat).push(
                        edge_of(out@[out@.len() - 1]),
                    ));
                    assert(edges_of(out@) =~= edges_of(base) + row_edges(ls, i as int, (j - i) as nat));
                },
                None => {
                    assert(row_edges(ls, i as int, (j - i) as nat) == row_edges(ls, i as int, (j - i - 1) as nat));
                },
            }
            j = j + 1;
        }
        assert(pair_edges(ls, (i + 1) as nat) == pair_edges(ls, i as nat) + row_edges(ls, i as int, (n - i - 1) as nat));
        i = i + 1;
    }
    out
}

/// The positioning stage.
pub struct Position {}

impl Position {
    pub fn new() -> (r: Position) {
        Position {}
    }

    /// Places every layer: estimates the offset of each pair of layers and
    /// resolves them into one position per layer. The rasters are kept, in
    /// their order.
    pub fn apply(&self, view: View) -> (r: Result<View, Error>)
        requires
            view.wf(),
            view.layers@.len() <= MAX_LAYERS,
        ensures
            r matches Ok(v) && v.layers@.len() == view.layers@.len() && (forall|k: int|
                0 <= k < v.layers@.len() ==> (#[trigger] v.layers@[k]).image == view.layers@[k].image)
                && positions_of(v.layers@.map_values(|l: Layer| l.position)) == solved_layout(
                view.layers@.len() as nat,
                pair_edges(view.layers@, view.layers@.len()),
            ) && is_sorting(
                sorting_of(pair_edges(view.layers@, view.layers@.len())),
                pair_edges(view.layers@, view.layers@.len()),
            ),
    {
        let offsets = estimate_offsets(&view.layers);
        let n = view.layers.len();
        let positions = solve_layout(n, &offsets);
        let ghost ls = view.layers@;
        let mut rest = view.layers;
        let mut out: Vec<Layer> = Vec::new();
        let mut k: usize = 0;
        while k < n
            invariant
                n == ls.len(),
                positions@.len() == n,
                k <= n,
                rest@ == ls.subrange(k as int, n as int),
                out@.len() == k,
                forall|q: int| 0 <= q < k ==> (#[trigger] out@[q]).image == ls[q].image && out@[q].position
                    == positions@[q],
            decreases n - k,
        {
            let layer = rest.remove(0);
            out.push(Layer { position: positions[k], image: layer.image });
            k = k + 1;
            assert(rest@ =~= ls.subrange(k as int, n as int));
        }
        let ghost moved = out@.map_values(|l: Layer| l.position);
        assert(positions_of(moved) =~= positions_of(positions@));
        Ok(View { layers: out })
    }
}

/// The estimated offset of layer `j` relative to layer `i`.
pub open spec fn estimated(ls: Seq<Layer>, i: int, j: int) -> (int, int) {
    let d = displacement(ls[i].image@, ls[j].image@).unwrap();
    (d.0, d.1)
}

proof fn lemma_pair_edge_fields(ls: Seq<Layer>, i: int, j: int)
    requires
        0 <= i < j < ls.len(),
        ls.len() <= MAX_LAYERS,
        displacement(ls[i].image@, ls[j].image@) is Some,
    ensures
        pair_edge(ls, i, j) matches Some(ed) && ed.1 == i && ed.2 == j && ed.3 == estimated(ls, i, j).0 && ed.4
            == estimated(ls, i, j).1 && -MAX_OFFSET <= ed.3 <= MAX_OFFSET && -MAX_OFFSET <= ed.4 <= MAX_OFFSET,
{
    lemma_displacement_bounded(ls[i].image@, ls[j].image@);
}

#[verifier::rlimit(60)]
proof fn lemma_three_pair_edges(ls: Seq<Layer>)
    requires
        ls.len() == 3,
        displacement(ls[0].image@, ls[1].image@) is Some,
        displacement(ls[1].image@, ls[2].image@) is Some,
        displacement(ls[0].image@, ls[2].image@) is Some,
    ensures
        pair_edges(ls, 3) == seq![
            pair_edge(ls, 0, 1).unwrap(),
            pair_edge(ls, 0, 2).unwrap(),
            pair_edge(ls, 1, 2).unwrap(),
        ],
{
    let e01 = pair_edge(ls, 0, 1).unwrap();
    let e02 = pair_edge(ls, 0, 2).unwrap();
    let e12 = pair_edge(ls, 1, 2).unwrap();
    assert(row_edges(ls, 0, 0) =~= Seq::<(u64, usize, usize, i64, i64)>::empty());
    assert(row_edges(ls, 0, 1) =~= seq![e01]);
    assert(row_edges(ls, 0, 2) =~= seq![e01, e02]);
    assert(row_edges(ls, 1, 0) =~= Seq::<(u64, usize, usize, i64, i64)>::empty());
    assert(row_edges(ls, 1, 1) =~= seq![e12]);
    assert(row_edges(ls, 2, 0) =~= Seq::<(u64, usize, usize, i64, i64)>::empty());
    assert(pair_edges(ls, 0) =~= Seq::<(u64, usize, usize, i64, i64)>::empty());
    assert(pair_edges(ls, 1) =~= seq![e01, e02]);
    assert(pair_edges(ls, 2) =~= seq![e01, e02, e12]);
    assert(pair_edges(ls, 3) =~= seq![e01, e02, e12]);
}

/// Three layers whose estimated pairwise offsets close a loop with zero sum:
/// whatever order their costs give, the positions satisfy all three
/// estimated offsets at once.
pub proof fn lemma_position_loop_consistency(ls: Seq<Layer>, s: Seq<(u64, usize, usize, i64, i64)>)
    requires
        ls.len() == 3,
        displacement(ls[0].image@, ls[1].image@) is Some,
        displacement(ls[1].image@, ls[2].image@) is Some,
        displacement(ls[0].image@, ls[2].image@) is Some,
        estimated(ls, 0, 1).0 + estimated(ls, 1, 2).0 == estimated(ls, 0, 2).0,
        estimated(ls, 0, 1).1 + estimated(ls, 1, 2).1 == estimated(ls, 0, 2).1,
        is_sorting(s, pair_edges(ls, 3)),
    ensures
        ({
            let r = layout(3, s);
            &&& r[1].0 - r[0].0 == estimated(ls, 0, 1).0 && r[1].1 - r[0].1 == estimated(ls, 0, 1).1
            &&& r[2].0 - r[1].0 == estimated(ls, 1, 2).0 && r[2].1 - r[1].1 == estimated(ls, 1, 2).1
            &&& r[2].0 - r[0].0 == estimated(ls, 0, 2).0 && r[2].1 - r[0].1 == estimated(ls, 0, 2).1
        }),
{
    lemma_three_pair_edges(ls);
    lemma_pair_edge_fields(ls, 0, 1);
    lemma_pair_edge_fields(ls, 0, 2);
    lemma_pair_edge_fields(ls, 1, 2);
    let e01 = pair_edge(ls, 0, 1).unwrap();
    let e12 = pair_edge(ls, 1, 2).unwrap();
    assert(pair_edge(ls, 0, 1) is Some && pair_edge(ls, 1, 2) is Some && pair_edge(ls, 0, 2) is Some);
    let e02 = pair_edge(ls, 0, 2).unwrap();
    let e = pair_edges(ls, 3);
    let p = seq![(0int, 0int), estimated(ls, 0, 1), estimated(ls, 0, 2)];
    s.to_multiset_ensures();
    e.to_multiset_ensures();
    assert forall|t: int| 0 <= t < s.len() implies valid_edge(#[trigger] s[t], 3) && s[t].3 == p[s[t].2 as int].0
        - p[s[t].1 as int].0 && s[t].4 == p[s[t].2 as int].1 - p[s[t].1 as int].1 by {
        assert(s.contains(s[t]));
        assert(s.to_multiset().count(s[t]) > 0);
        assert(e.contains(s[t]));
        let u = choose|u: int| 0 <= u < e.len() && e[u] == s[t];
        assert(u == 0 || u == 1 || u == 2);
        assert(e[0] == e01 && e[1] == e02 && e[2] == e12);
    }
    assert(agrees_with(s, p));
    lemma_consistent_offsets(3, s, p);
    let st = layout_after(3, s, s.len());
    assert(e.contains(e01) && e.contains(e02));
    assert(e.to_multiset().count(e01) > 0);
    assert(e.to_multiset().count(e02) > 0);
    let t1 = choose|t: int| 0 <= t < s.len() && s[t] == e01;
    let t2 = choose|t: int| 0 <= t < s.len() && s[t] == e02;
    assert(st.classes[s[t1].1 as int].contains(s[t1].2 as int));
    assert(st.classes[s[t2].1 as int].contains(s[t2].2 as int));
    assert(st.classes[0].contains(1));
    assert(st.classes[0].contains(2));
}

} // verus!
