//! Spanning trees of the compact residual view and their fundamental cycles:
//! building a tree by scanning arc indices, marking tree arcs, finding and
//! pivoting on negative cycles, and cancelling them on large grids.
use vstd::prelude::*;
use crate::edges::EdgeDatum;
use crate::flow_schedule::dual_node_count;
use crate::incr_cost::step_of;
use crate::residual::{
    edges_arc_in_range, edges_headroom, edges_headroom_in_range, grid_ok, ground_node,
    lemma_slots_trans, residues_equal, same_slots,
};
use crate::residual_view::{
    apply_compact_residual_cycle_with_nflow, arc_in_nodes_spec, index_seq,
    law_view_cycle_preserves_residues, lemma_view_apply_slots, lemma_view_arc_same_slots,
    lemma_view_cycle_ok_same_slots, view_apply, view_arc_count, view_arc_spec, view_cycle_arcs,
    view_cycle_ok, view_dims_ok, CompactResidualView,
};
use crate::tree_basis::{
    arc_cost_of, basis_marks, keys_sorted, push_candidate, seq_cost, view_closed_walk,
    CompactTreeBasis,
};
use crate::tree_cycle::{
    arc_joins, lemma_cycle_pair_pos_range, lemma_root_of, merge_labels, partition_matches, partner, pivot_compact_tree_on_cycle_fast,
    first_pair_pos, cycle_pair_pos, same_class, DisjointSet,
};
use crate::tree_path::view_arc_in_nodes;

verus! {

/// The order in which a spanning-tree scan visits arc indices.
#[derive(Clone, Copy, PartialEq, Eq, Structural, Debug)]
pub enum ArcOrder {
    /// Every index in increasing order.
    Forward,
    /// The present arcs of negative cost, cheapest first (ties to the lower
    /// index), then every index in increasing order.
    NegativeFirst,
}

/// Class labels of the nodes and the indices kept after visiting the first
/// `k` indices of `order`: a present arc is kept when it joins two nodes of
/// different classes, until `n - 1` arcs are kept.
pub open spec fn visit_forest(
    view: &CompactResidualView<'_>,
    n: int,
    order: Seq<usize>,
    k: int,
) -> (Seq<int>, Seq<usize>)
    decreases k,
{
    if k <= 0 {
        (Seq::new(n as nat, |j: int| j), Seq::empty())
    } else {
        let prev = visit_forest(view, n, order, k - 1);
        let i = order[k - 1] as int;
        let a = view.arc_at(i)->0;
        if prev.1.len() + 1 == n {
            prev
        } else if view.arc_at(i) is Some && arc_joins(a, n) && prev.0[a.from as int]
            != prev.0[a.to as int] {
            (merge_labels(prev.0, a.from as int, a.to as int), prev.1.push(order[k - 1]))
        } else {
            prev
        }
    }
}

pub open spec fn forward_order(count: int) -> Seq<usize> {
    Seq::new(count as nat, |i: int| i as usize)
}

/// The present arcs of negative cost as `(cost, index)`, in increasing order.
pub open spec fn negatives_ok(view: &CompactResidualView<'_>, s: Seq<(i64, usize)>) -> bool {
    &&& keys_sorted(s)
    &&& forall|x: (i64, usize)|
        #[trigger] s.contains(x) <==> (view.arc_at(x.1 as int) is Some && x.0 == view.arc_at(
            x.1 as int,
        )->0.cost as int && x.0 < 0)
}

proof fn lemma_visit_len(view: &CompactResidualView<'_>, n: int, order: Seq<usize>, k: int)
    requires
        0 <= n,
    ensures
        visit_forest(view, n, order, k).0.len() == n,
    decreases k,
{
    if k > 0 {
        lemma_visit_len(view, n, order, k - 1);
    }
}

proof fn lemma_visit_count(view: &CompactResidualView<'_>, n: int, order: Seq<usize>, k: int)
    requires
        1 <= n,
    ensures
        visit_forest(view, n, order, k).1.len() + 1 <= n,
    decreases k,
{
    if k > 0 {
        lemma_visit_count(view, n, order, k - 1);
    }
}

proof fn lemma_visit_stopped(view: &CompactResidualView<'_>, n: int, order: Seq<usize>, k: int, k2: int)
    requires
        0 <= k <= k2,
        visit_forest(view, n, order, k).1.len() + 1 == n,
    ensures
        visit_forest(view, n, order, k2) == visit_forest(view, n, order, k),
    decreases k2,
{
    if k2 > k {
        lemma_visit_stopped(view, n, order, k, k2 - 1);
    }
}

/// Visiting the same indices gives the same forest.
proof fn lemma_visit_prefix(
    view: &CompactResidualView<'_>,
    n: int,
    order: Seq<usize>,
    other: Seq<usize>,
    k: int,
)
    requires
        0 <= k <= order.len(),
        k <= other.len(),
        forall|i: int| 0 <= i < k ==> order[i] == other[i],
    ensures
        visit_forest(view, n, order, k) == visit_forest(view, n, other, k),
    decreases k,
{
    if k > 0 {
        lemma_visit_prefix(view, n, order, other, k - 1);
    }
}

/// Visits index `order[k]`: unites the ends of its arc and keeps the index
/// when they were apart. Returns whether this completed the tree.
fn visit_tree_arc(
    view: &CompactResidualView<'_>,
    node_count: usize,
    dsu: &mut DisjointSet,
    tree: &mut Vec<usize>,
    index: usize,
    Ghost(order): Ghost<Seq<usize>>,
    Ghost(k): Ghost<int>,
) -> (full: bool)
    requires
        view.wf(),
        node_count == dual_node_count(view.nrow as int, view.ncol as int),
        old(dsu).wf(),
        old(dsu).parent@.len() == node_count,
        0 <= k < order.len(),
        order[k] == index,
        old(tree)@ == visit_forest(view, node_count as int, order, k).1,
        partition_matches(*old(dsu), visit_forest(view, node_count as int, order, k).0, node_count as int),
        old(tree)@.len() + 1 != node_count || node_count <= 1,
    ensures
        final(dsu).wf(),
        final(dsu).parent@.len() == node_count,
        final(tree)@ == visit_forest(view, node_count as int, order, k + 1).1,
        partition_matches(*final(dsu), visit_forest(view, node_count as int, order, k + 1).0, node_count as int),
        full <==> (final(tree)@.len() + 1 == node_count && old(tree)@.len() + 1 != node_count),
{
    let ghost nn = node_count as int;
    let ghost c = visit_forest(view, nn, order, k).0;
    proof {
        lemma_visit_len(view, nn, order, k);
        lemma_visit_len(view, nn, order, k + 1);
        lemma_visit_count(view, nn, order, k + 1);
    }
    let arc = match view.arc(index) {
        Some(a) => a,
        None => {
            return false;
        },
    };
    if arc.from >= node_count || arc.to >= node_count || arc.from == arc.to {
        return false;
    }
    let ghost d0 = *dsu;
    let merged = dsu.union(arc.from, arc.to);
    proof {
        assert(same_class(d0, c, arc.from as int, arc.to as int));
        let c2 = merge_labels(c, arc.from as int, arc.to as int);
        if merged {
            assert forall|j: int, m: int| 0 <= j < nn && 0 <= m < nn implies #[trigger] same_class(
                *dsu,
                c2,
                j,
                m,
            ) by {
                assert(same_class(d0, c, j, m));
                assert(same_class(d0, c, j, arc.from as int));
                assert(same_class(d0, c, j, arc.to as int));
                assert(same_class(d0, c, m, arc.from as int));
                assert(same_class(d0, c, m, arc.to as int));
                lemma_root_of(d0.parent@, d0.rank@, arc.from as int);
                lemma_root_of(d0.parent@, d0.rank@, arc.to as int);
            }
        } else {
            assert forall|j: int, m: int| 0 <= j < nn && 0 <= m < nn implies #[trigger] same_class(
                *dsu,
                c,
                j,
                m,
            ) by {
                assert(same_class(d0, c, j, m));
            }
        }
    }
    if merged {
        tree.push(index);
        return tree.len() + 1 == node_count;
    }
    false
}

/// A spanning forest of the view kept greedily in index order, stopping once
/// `node_count - 1` arcs are kept.
pub fn spanning_tree_arc_indices_compact(view: &CompactResidualView<'_>) -> (r: Vec<usize>)
    requires
        view.wf(),
    ensures
        r@ == visit_forest(
            view,
            dual_node_count(view.nrow as int, view.ncol as int),
            forward_order(view_arc_count(view.nrow as int, view.ncol as int)),
            view_arc_count(view.nrow as int, view.ncol as int),
        ).1,
{
    spanning_tree_arc_indices_compact_with_order(view, ArcOrder::Forward)
}

/// A spanning forest of the view kept greedily in the given visiting order,
/// stopping once `node_count - 1` arcs are kept.
pub fn spanning_tree_arc_indices_compact_with_order(
    view: &CompactResidualView<'_>,
    order: ArcOrder,
) -> (r: Vec<usize>)
    requires
        view.wf(),
    ensures
        order == ArcOrder::Forward ==> r@ == visit_forest(
            view,
            dual_node_count(view.nrow as int, view.ncol as int),
            forward_order(view_arc_count(view.nrow as int, view.ncol as int)),
            view_arc_count(view.nrow as int, view.ncol as int),
        ).1,
        order == ArcOrder::NegativeFirst ==> exists|neg: Seq<(i64, usize)>|
            #![trigger negatives_ok(view, neg)]
            negatives_ok(view, neg) && r@ == visit_forest(
                view,
                dual_node_count(view.nrow as int, view.ncol as int),
                neg.map_values(|x: (i64, usize)| x.1) + forward_order(
                    view_arc_count(view.nrow as int, view.ncol as int),
                ),
                neg.len() + view_arc_count(view.nrow as int, view.ncol as int),
            ).1,
{
    let node_count = view.node_count();
    let count = view.arc_count();
    let ghost nn = node_count as int;
    let ghost fwd = forward_order(count as int);
    let mut negative: Vec<(i64, usize)> = Vec::new();
    if order == ArcOrder::NegativeFirst {
        let mut index: usize = 0;
        while index < count
            invariant
                view.wf(),
                count == view_arc_count(view.nrow as int, view.ncol as int),
                index <= count,
                negative@.len() <= index,
                keys_sorted(negative@),
                forall|x: (i64, usize)|
                    #[trigger] negative@.contains(x) <==> (x.1 < index && view.arc_at(x.1 as int) is Some
                        && x.0 == view.arc_at(x.1 as int)->0.cost as int && x.0 < 0),
            decreases count - index,
        {
            match view.arc(index) {
                Some(arc) => {
                    if arc.cost < 0 {
                        let ghost before = negative@;
                        let candidate = (arc.cost as i64, index);
                        proof {
                            if before.contains(candidate) {
                                assert(candidate.1 < index);
                            }
                        }
                        push_candidate(&mut negative, candidate, count);
                        proof {
                            assert forall|x: (i64, usize)|
                                #[trigger] negative@.contains(x) <==> (x.1 < index + 1 && view.arc_at(
                                    x.1 as int,
                                ) is Some && x.0 == view.arc_at(x.1 as int)->0.cost as int && x.0 < 0) by {
                                if x.1 < index + 1 && view.arc_at(x.1 as int) is Some && x.0 == view.arc_at(
                                    x.1 as int,
                                )->0.cost as int && x.0 < 0 {
                                    if x.1 < index {
                                        assert(before.contains(x));
                                    } else {
                                        assert(x == candidate);
                                    }
                                }
                            }
                        }
                    } else {
                        proof {
                            assert forall|x: (i64, usize)|
                                #[trigger] negative@.contains(x) <==> (x.1 < index + 1 && view.arc_at(
                                    x.1 as int,
                                ) is Some && x.0 == view.arc_at(x.1 as int)->0.cost as int && x.0 < 0) by {
                                if x.1 == index {
                                    if negative@.contains(x) {
                                        assert(x.1 < index);
                                    }
                                }
                            }
                        }
                    }
                },
                None => {
                    proof {
                        assert forall|x: (i64, usize)|
                            #[trigger] negative@.contains(x) <==> (x.1 < index + 1 && view.arc_at(
                                x.1 as int,
                            ) is Some && x.0 == view.arc_at(x.1 as int)->0.cost as int && x.0 < 0) by {
                            if x.1 == index {
                                if negative@.contains(x) {
                                    assert(x.1 < index);
                                }
                            }
                        }
                    }
                },
            }
            index = index + 1;
        }
        proof {
            assert forall|x: (i64, usize)|
                #[trigger] negative@.contains(x) <==> (view.arc_at(x.1 as int) is Some && x.0
                    == view.arc_at(x.1 as int)->0.cost as int && x.0 < 0) by {
                if view.arc_at(x.1 as int) is Some {
                    reveal_arc_in_range(view, x.1 as int);
                }
            }
        }
    }
    let ghost neg = negative@;
    let ghost seq = if order == ArcOrder::NegativeFirst {
        neg.map_values(|x: (i64, usize)| x.1) + fwd
    } else {
        fwd
    };
    let mut dsu = DisjointSet::new(node_count);
    let mut tree: Vec<usize> = Vec::new();
    proof {
        lemma_visit_len(view, nn, seq, 0);
        let c0 = visit_forest(view, nn, seq, 0).0;
        assert forall|j: int, m: int| 0 <= j < nn && 0 <= m < nn implies #[trigger] same_class(
            dsu,
            c0,
            j,
            m,
        ) by {
            assert(dsu.root(j) == j);
            assert(dsu.root(m) == m);
        }
    }
    let mut k: usize = 0;
    while k < negative.len()
        invariant
            view.wf(),
            nn == node_count,
            node_count == dual_node_count(view.nrow as int, view.ncol as int),
            count == view_arc_count(view.nrow as int, view.ncol as int),
            negative@ == neg,
            order == ArcOrder::NegativeFirst || neg.len() == 0,
            seq == (if order == ArcOrder::NegativeFirst {
                neg.map_values(|x: (i64, usize)| x.1) + fwd
            } else {
                fwd
            }),
            fwd == forward_order(count as int),
            k <= neg.len(),
            order == ArcOrder::NegativeFirst ==> negatives_ok(view, neg),
            dsu.wf(),
            dsu.parent@.len() == node_count,
            tree@ == visit_forest(view, nn, seq, k as int).1,
            partition_matches(dsu, visit_forest(view, nn, seq, k as int).0, nn),
            tree@.len() + 1 != nn || nn <= 1,
        decreases neg.len() - k,
    {
        let index = negative[k].1;
        proof {
            assert(seq[k as int] == index);
        }
        let full = visit_tree_arc(view, node_count, &mut dsu, &mut tree, index, Ghost(seq), Ghost(k as int));
        if full {
            proof {
                lemma_visit_stopped(view, nn, seq, k + 1, seq.len() as int);
                assert(negatives_ok(view, neg));
            }
            return tree;
        }
        k = k + 1;
    }
    let mut index: usize = 0;
    let mut done = false;
    while index < count && !done
        invariant
            view.wf(),
            nn == node_count,
            node_count == dual_node_count(view.nrow as int, view.ncol as int),
            count == view_arc_count(view.nrow as int, view.ncol as int),
            order == ArcOrder::NegativeFirst || neg.len() == 0,
            seq == (if order == ArcOrder::NegativeFirst {
                neg.map_values(|x: (i64, usize)| x.1) + fwd
            } else {
                fwd
            }),
            fwd == forward_order(count as int),
            seq.len() == neg.len() + count,
            index <= count,
            order == ArcOrder::NegativeFirst ==> negatives_ok(view, neg),
            dsu.wf(),
            dsu.parent@.len() == node_count,
            tree@ == visit_forest(view, nn, seq, neg.len() + index).1,
            partition_matches(dsu, visit_forest(view, nn, seq, neg.len() + index).0, nn),
            done ==> tree@.len() + 1 == nn,
            !done ==> (tree@.len() + 1 != nn || nn <= 1),
        decreases count - index,
    {
        proof {
            assert(seq[neg.len() + index] == index);
        }
        let full = visit_tree_arc(
            view,
            node_count,
            &mut dsu,
            &mut tree,
            index,
            Ghost(seq),
            Ghost(neg.len() + index),
        );
        if full {
            done = true;
        }
        index = index + 1;
    }
    proof {
        if done {
            lemma_visit_stopped(view, nn, seq, neg.len() + index, seq.len() as int);
        }
        if order == ArcOrder::Forward {
            assert(seq == fwd);
        } else {
            assert(negatives_ok(view, neg));
        }
    }
    tree
}

/// Arc `i` is marked by the first `k` tree arc indices: a present tree arc,
/// or the present pair partner of one.
pub open spec fn compact_marks(view: &CompactResidualView<'_>, tree: Seq<usize>, k: int, i: int) -> bool {
    exists|q: int|
        0 <= q < k && view.arc_at(#[trigger] tree[q] as int) is Some && (i == tree[q] as int || (i
            == partner(tree[q] as int) && view.arc_at(i) is Some))
}

/// Marks every present tree arc and its present reverse.
pub fn compact_tree_edge_mask(view: &CompactResidualView<'_>, tree_arc_indices: &[usize]) -> (r:
    Vec<bool>)
    requires
        view.wf(),
    ensures
        r@.len() == view_arc_count(view.nrow as int, view.ncol as int),
        forall|i: int|
            0 <= i < r@.len() ==> (#[trigger] r@[i] <==> compact_marks(
                view,
                tree_arc_indices@,
                tree_arc_indices@.len() as int,
                i,
            )),
{
    let count = view.arc_count();
    let mut mask: Vec<bool> = Vec::new();
    let mut i: usize = 0;
    while i < count
        invariant
            i <= count,
            mask@.len() == i,
            forall|q: int| 0 <= q < i ==> !(#[trigger] mask@[q]),
        decreases count - i,
    {
        mask.push(false);
        i = i + 1;
    }
    let mut k: usize = 0;
    while k < tree_arc_indices.len()
        invariant
            view.wf(),
            count == view_arc_count(view.nrow as int, view.ncol as int),
            k <= tree_arc_indices@.len(),
            mask@.len() == count,
            forall|j: int|
                0 <= j < count ==> (#[trigger] mask@[j] <==> compact_marks(
                    view,
                    tree_arc_indices@,
                    k as int,
                    j,
                )),
        decreases tree_arc_indices@.len() - k,
    {
        let index = tree_arc_indices[k];
        let ghost m0 = mask@;
        if view.arc(index).is_some() {
            mask.set(index, true);
            let reverse = index ^ 1;
            assert(reverse == (if index % 2 == 0 { index + 1 } else { index - 1 })) by (bit_vector)
                requires
                    reverse == index ^ 1,
            ;
            let ghost m1 = mask@;
            let rev_present = reverse < mask.len() && view.arc(reverse).is_some();
            if rev_present {
                mask.set(reverse, true);
            }
            proof {
                assert forall|j: int|
                    0 <= j < count implies (#[trigger] mask@[j] <==> compact_marks(
                    view,
                    tree_arc_indices@,
                    k + 1,
                    j,
                )) by {
                    if j == index || (j == reverse && rev_present) {
                        assert(tree_arc_indices@[k as int] == index);
                        assert(compact_marks(view, tree_arc_indices@, k + 1, j));
                    } else {
                        assert(mask@[j] == m0[j]);
                        if j == reverse && view.arc_at(j) is Some {
                            reveal_arc_in_range(view, j);
                        }
                        lemma_marks_step(view, tree_arc_indices@, k as int, j);
                    }
                }
            }
        } else {
            proof {
                assert forall|j: int|
                    0 <= j < count implies (#[trigger] mask@[j] <==> compact_marks(
                    view,
                    tree_arc_indices@,
                    k + 1,
                    j,
                )) by {
                    lemma_marks_step(view, tree_arc_indices@, k as int, j);
                }
            }
        }
        k = k + 1;
    }
    mask
}

/// Marks after one more tree index that does not mark `j`.
proof fn lemma_marks_step(view: &CompactResidualView<'_>, tree: Seq<usize>, k: int, j: int)
    requires
        0 <= k < tree.len(),
        !(view.arc_at(tree[k] as int) is Some && (j == tree[k] as int || (j == partner(tree[k] as int)
            && view.arc_at(j) is Some))),
    ensures
        compact_marks(view, tree, k + 1, j) == compact_marks(view, tree, k, j),
{
    if compact_marks(view, tree, k + 1, j) {
        let q = choose|q: int|
            0 <= q < k + 1 && view.arc_at(#[trigger] tree[q] as int) is Some && (j == tree[q] as int || (j
                == partner(tree[q] as int) && view.arc_at(j) is Some));
        assert(q != k);
    }
    if compact_marks(view, tree, k, j) {
        let q = choose|q: int|
            0 <= q < k && view.arc_at(#[trigger] tree[q] as int) is Some && (j == tree[q] as int || (j
                == partner(tree[q] as int) && view.arc_at(j) is Some));
        assert(0 <= q < k + 1);
    }
}

/// The fundamental cycle of the cheapest negative arc off the given tree;
/// `None` when the tree is not a spanning tree of the view or no arc off it
/// closes a negative cycle.
pub fn find_negative_tree_cycle_compact(view: &CompactResidualView<'_>, tree_arc_indices: &[usize]) -> (r:
    Option<Vec<usize>>)
    requires
        view.wf(),
        forall|k: int|
            0 <= k < tree_arc_indices@.len() ==> view_arc_in_nodes(
                view,
                #[trigger] tree_arc_indices@[k] as int,
            ),
    ensures
        r matches Some(c) ==> {
            &&& c@.len() >= 1
            &&& view_closed_walk(view, c@)
            &&& seq_cost(view, c@) < 0
            &&& !basis_marks(view, tree_arc_indices@, tree_arc_indices@.len() as int, c@[0] as int)
        },
{
    let basis = match CompactTreeBasis::new(view, tree_arc_indices) {
        Some(b) => b,
        None => {
            return None;
        },
    };
    let r = basis.find_negative_cycle(view);
    proof {
        if r is Some {
            let c = r->0;
            assert(basis.negative_candidate(view, c@[0] as int));
            assert(!basis.tree_mask@[c@[0] as int]);
        }
    }
    r
}

/// Replaces the tree arc whose edge the cycle crosses first by the cycle's
/// entering arc, as `pivot_compact_tree_on_cycle_fast` does, when the
/// entering arc is present; then reports whether the new tree roots at node
/// 0 and spans the view. The tree stays as it was when the pivot does not
/// apply.
pub fn pivot_compact_tree_on_cycle(
    view: &CompactResidualView<'_>,
    tree_arc_indices: &mut Vec<usize>,
    cycle: &[usize],
) -> (r: bool)
    requires
        view.wf(),
        forall|k: int|
            0 <= k < old(tree_arc_indices)@.len() ==> view_arc_in_nodes(
                view,
                #[trigger] old(tree_arc_indices)@[k] as int,
            ),
        cycle@.len() >= 1 ==> view_arc_in_nodes(view, cycle@[0] as int),
    ensures
        ({
            let pivots = cycle@.len() >= 1 && view.arc_at(cycle@[0] as int) is Some && first_pair_pos(
                old(tree_arc_indices)@,
                cycle@[0],
                0,
            ) == -1 && cycle_pair_pos(old(tree_arc_indices)@, cycle@, 1) >= 0;
            &&& pivots ==> final(tree_arc_indices)@ == old(tree_arc_indices)@.update(
                cycle_pair_pos(old(tree_arc_indices)@, cycle@, 1),
                cycle@[0],
            )
            &&& !pivots ==> final(tree_arc_indices)@ == old(tree_arc_indices)@
            &&& r ==> pivots
        }),
        forall|k: int|
            0 <= k < final(tree_arc_indices)@.len() ==> view_arc_in_nodes(
                view,
                #[trigger] final(tree_arc_indices)@[k] as int,
            ),
{
    if cycle.len() == 0 {
        return false;
    }
    let entering = cycle[0];
    if view.arc(entering).is_none() {
        return false;
    }
    let ghost before = tree_arc_indices@;
    if !pivot_compact_tree_on_cycle_fast(tree_arc_indices, cycle) {
        return false;
    }
    proof {
        lemma_cycle_pair_pos_range(before, cycle@, 1);
        assert forall|k: int|
            0 <= k < tree_arc_indices@.len() implies view_arc_in_nodes(
            view,
            #[trigger] tree_arc_indices@[k] as int,
        ) by {
            if k != cycle_pair_pos(before, cycle@, 1) {
                assert(tree_arc_indices@[k] == before[k]);
            }
        }
    }
    CompactTreeBasis::new(view, tree_arc_indices).is_some()
}

/// Total cost of the arcs of `cycle` read from the view; `None` when one is
/// absent or the total leaves `i64`.
pub fn compact_cycle_cost(view: &CompactResidualView<'_>, cycle: &[usize]) -> (r: Option<i64>)
    requires
        view.wf(),
    ensures
        r is Some <==> (forall|i: int| 0 <= i < cycle@.len() ==> view.arc_at(#[trigger] cycle@[i] as int) is Some)
            && i64::MIN <= seq_cost(view, cycle@) <= i64::MAX,
        r matches Some(c) ==> c == seq_cost(view, cycle@),
{
    let mut total: i128 = 0;
    let mut k: usize = 0;
    while k < cycle.len()
        invariant
            view.wf(),
            k <= cycle@.len(),
            forall|i: int| 0 <= i < k ==> view.arc_at(#[trigger] cycle@[i] as int) is Some,
            total == seq_cost(view, cycle@.subrange(0, k as int)),
            -(k as int) * 0x8000_0000 <= total <= (k as int) * 0x8000_0000,
        decreases cycle@.len() - k,
    {
        let arc = match view.arc(cycle[k]) {
            Some(a) => a,
            None => {
                return None;
            },
        };
        proof {
            assert(cycle@.subrange(0, k + 1).drop_last() =~= cycle@.subrange(0, k as int));
            assert(cycle@.subrange(0, k + 1).last() == cycle@[k as int]);
            assert(arc_cost_of(view, cycle@[k as int] as int) == arc.cost as int);
            assert(k as int <= usize::MAX);
            assert((k as int) * 0x8000_0000 <= 0x1_0000_0000_0000_0000 * 0x8000_0000) by (nonlinear_arith)
                requires
                    0 <= k <= 0xffff_ffff_ffff_ffff,
            ;
            assert(((k + 1) as int) * 0x8000_0000 == (k as int) * 0x8000_0000 + 0x8000_0000);
        }
        total = total + arc.cost as i128;
        k = k + 1;
    }
    proof {
        assert(cycle@.subrange(0, cycle@.len() as int) =~= cycle@);
    }
    if total < i64::MIN as i128 || total > i64::MAX as i128 {
        return None;
    }
    Some(total as i64)
}

/// Graphs of at most this many nodes move the tree onto each applied cycle
/// and rebuild its basis; larger ones take batches of cycles per basis.
pub const REBASE_NODE_LIMIT: usize = 8192;

/// Number of cycles taken from one basis on graphs too large to rebase.
pub const CANDIDATE_BATCH_LIMIT: usize = 8;

/// A closed walk of present view arcs is a cycle of the view in the sense of
/// the residue law.
pub proof fn lemma_closed_walk_cycle_ok(view: &CompactResidualView<'_>, c: Seq<usize>)
    requires
        c.len() <= usize::MAX,
        view_closed_walk(view, c),
    ensures
        view_cycle_ok(
            view.horizontal@,
            view.vertical@,
            view.nrow as int,
            view.ncol as int,
            view.correction_step as int,
            c,
        ),
{
    reveal(view_cycle_ok);
    let h = view.horizontal@;
    let v = view.vertical@;
    let nrow = view.nrow as int;
    let ncol = view.ncol as int;
    let step = view.correction_step as int;
    let arcs = view_cycle_arcs(h, v, nrow, ncol, step, c);
    let ident = index_seq(c.len());
    assert forall|i: int| 0 <= i < c.len() implies view_arc_spec(h, v, nrow, ncol, step, #[trigger] c[i] as int)
        is Some && arcs[i] == view.arc_at(c[i] as int)->0 by {
        lemma_arc_at_spec(view, c[i] as int);
        assert(view.arc_at(c[i] as int) is Some);
    }
    assert forall|i: int| 0 <= i < ident.len() - 1 implies arcs[#[trigger] ident[i] as int].to
        == arcs[ident[i + 1] as int].from by {
        assert(ident[i] as int == i && ident[i + 1] as int == i + 1);
        assert(view.arc_at(c[i] as int)->0.to == view.arc_at(c[i + 1] as int)->0.from);
        assert(arcs[i] == view.arc_at(c[i] as int)->0);
        assert(arcs[i + 1] == view.arc_at(c[i + 1] as int)->0);
    }
    let last = c.len() - 1;
    assert(ident[last] as int == last);
    assert(ident[0] as int == 0);
    assert(arcs[last] == view.arc_at(c[last] as int)->0);
    assert(arcs[0] == view.arc_at(c[0] as int)->0);
    assert(view.arc_at(c[last] as int)->0.to as int == view.arc_at(c[0] as int)->0.from as int);
    assert(crate::residual::is_closed_walk(arcs, ident));
}

/// Arc `k` of the view is arc `k` of the view over its edge arrays.
pub proof fn lemma_arc_at_spec(view: &CompactResidualView<'_>, k: int)
    ensures
        view.arc_at(k) == view_arc_spec(
            view.horizontal@,
            view.vertical@,
            view.nrow as int,
            view.ncol as int,
            view.correction_step as int,
            k,
        ),
{
    reveal(CompactResidualView::arc_at);
}

/// `view_arc_in_nodes` read through the view's edge arrays.
pub proof fn lemma_in_nodes_spec(view: &CompactResidualView<'_>, t: int)
    ensures
        view_arc_in_nodes(view, t) == arc_in_nodes_spec(
            view.horizontal@,
            view.vertical@,
            view.nrow as int,
            view.ncol as int,
            view.correction_step as int,
            t,
        ),
{
    reveal(CompactResidualView::arc_at);
    reveal(arc_in_nodes_spec);
}

/// Whether an arc's ends are dual nodes depends only on which slots hold edges.
proof fn lemma_in_nodes_same_slots(
    h1: Seq<Option<EdgeDatum>>,
    v1: Seq<Option<EdgeDatum>>,
    h2: Seq<Option<EdgeDatum>>,
    v2: Seq<Option<EdgeDatum>>,
    nrow: int,
    ncol: int,
    step: int,
    t: int,
)
    requires
        same_slots(h1, h2),
        same_slots(v1, v2),
    ensures
        arc_in_nodes_spec(h1, v1, nrow, ncol, step, t) == arc_in_nodes_spec(h2, v2, nrow, ncol, step, t),
{
    reveal(arc_in_nodes_spec);
    lemma_view_arc_same_slots(h1, v1, h2, v2, nrow, ncol, step, t);
}

proof fn lemma_residues_trans(
    h0: Seq<Option<EdgeDatum>>,
    v0: Seq<Option<EdgeDatum>>,
    h1: Seq<Option<EdgeDatum>>,
    v1: Seq<Option<EdgeDatum>>,
    h2: Seq<Option<EdgeDatum>>,
    v2: Seq<Option<EdgeDatum>>,
    nrow: int,
    ncol: int,
)
    requires
        residues_equal(h0, v0, h1, v1, nrow, ncol),
        residues_equal(h1, v1, h2, v2, nrow, ncol),
    ensures
        residues_equal(h0, v0, h2, v2, nrow, ncol),
{
    assert forall|p: int| 0 <= p < ground_node(nrow, ncol) implies #[trigger] crate::residual::residue_at(
        h2,
        v2,
        ncol,
        p,
    ) == crate::residual::residue_at(h0, v0, ncol, p) by {
        assert(crate::residual::residue_at(h1, v1, ncol, p) == crate::residual::residue_at(h0, v0, ncol, p));
    }
}

/// Pushing flow around one closed walk of present view arcs keeps the slots
/// and the residues.
proof fn lemma_apply_view_cycle(
    h: Seq<Option<EdgeDatum>>,
    v: Seq<Option<EdgeDatum>>,
    nrow: int,
    ncol: int,
    step: int,
    cycle: Seq<usize>,
)
    requires
        grid_ok(h, v, nrow, ncol),
        view_dims_ok(nrow, ncol),
        1 <= step <= i32::MAX,
        cycle.len() <= usize::MAX,
        view_cycle_ok(h, v, nrow, ncol, step, cycle),
        edges_headroom(h, cycle.len() * step),
        edges_headroom(v, cycle.len() * step),
    ensures
        same_slots(h, view_apply(h, v, nrow, ncol, step, cycle, cycle.len() as int).0),
        same_slots(v, view_apply(h, v, nrow, ncol, step, cycle, cycle.len() as int).1),
        residues_equal(
            h,
            v,
            view_apply(h, v, nrow, ncol, step, cycle, cycle.len() as int).0,
            view_apply(h, v, nrow, ncol, step, cycle, cycle.len() as int).1,
            nrow,
            ncol,
        ),
{
    lemma_view_apply_slots(h, v, nrow, ncol, step, cycle, cycle.len() as int);
    if nrow >= 2 && ncol >= 2 {
        law_view_cycle_preserves_residues(h, v, nrow, ncol, step, cycle);
    } else {
        assert(ground_node(nrow, ncol) == 0) by {
            if nrow < 2 {
                assert((if nrow >= 1 { nrow - 1 } else { 0 }) == 0);
            } else {
                assert((if ncol >= 1 { ncol - 1 } else { 0 }) == 0);
            }
            assert(0 * (if ncol >= 1 { ncol - 1 } else { 0 }) == 0);
            assert((if nrow >= 1 { nrow - 1 } else { 0 }) * 0 == 0);
        }
    }
}

/// Cancels negative fundamental cycles of a tree kept across cycles, for
/// graphs too large to search exhaustively: up to `max_cycles` cycles, with
/// flow steps of `|nflow|` (at least 1). Graphs of at most
/// `REBASE_NODE_LIMIT` nodes take the cheapest cycle of each basis and move
/// the tree onto it; larger ones take up to `CANDIDATE_BATCH_LIMIT` cheapest
/// cycles per basis, skip those no longer negative, and pivot the tree on
/// the first applied one. Stops when no basis can be built, no negative cycle
/// is left, a pivot fails, or an edge's numbers would leave their machine
/// range. Returns the number of cycles applied.
pub fn optimize_large_tree_cycles(
    horizontal: &mut Vec<Option<EdgeDatum>>,
    vertical: &mut Vec<Option<EdgeDatum>>,
    nrow: usize,
    ncol: usize,
    nflow: i32,
    max_cycles: usize,
    node_count: usize,
    tree: Vec<usize>,
) -> (applied: usize)
    requires
        nflow != i32::MIN,
        grid_ok(old(horizontal)@, old(vertical)@, nrow as int, ncol as int),
        view_dims_ok(nrow as int, ncol as int),
        forall|k: int|
            0 <= k < tree@.len() ==> arc_in_nodes_spec(
                old(horizontal)@,
                old(vertical)@,
                nrow as int,
                ncol as int,
                step_of(nflow as int),
                #[trigger] tree@[k] as int,
            ),
    ensures
        applied <= max_cycles,
        same_slots(old(horizontal)@, final(horizontal)@),
        same_slots(old(vertical)@, final(vertical)@),
        residues_equal(
            old(horizontal)@,
            old(vertical)@,
            final(horizontal)@,
            final(vertical)@,
            nrow as int,
            ncol as int,
        ),
        applied == 0 ==> final(horizontal)@ == old(horizontal)@ && final(vertical)@ == old(vertical)@,
{
    let ghost h0 = horizontal@;
    let ghost v0 = vertical@;
    let ghost step = step_of(nflow as int);
    let a = if nflow < 0 { -nflow } else { nflow };
    let correction_step = if a >= 1 { a } else { 1 };
    let rebase_tree = node_count <= REBASE_NODE_LIMIT;
    let candidate_limit: usize = if rebase_tree { 1 } else { CANDIDATE_BATCH_LIMIT };
    let mut tree = tree;
    let mut applied: usize = 0;
    proof {
        assert(same_slots(h0, h0));
        assert(same_slots(v0, v0));
    }
    while applied < max_cycles
        invariant
            nflow != i32::MIN,
            step == step_of(nflow as int),
            correction_step == step,
            1 <= step <= i32::MAX,
            1 <= candidate_limit,
            view_dims_ok(nrow as int, ncol as int),
            applied <= max_cycles,
            grid_ok(horizontal@, vertical@, nrow as int, ncol as int),
            same_slots(h0, horizontal@),
            same_slots(v0, vertical@),
            residues_equal(h0, v0, horizontal@, vertical@, nrow as int, ncol as int),
            applied == 0 ==> horizontal@ == h0 && vertical@ == v0,
            forall|k: int|
                0 <= k < tree@.len() ==> arc_in_nodes_spec(
                    h0,
                    v0,
                    nrow as int,
                    ncol as int,
                    step,
                    #[trigger] tree@[k] as int,
                ),
        decreases max_cycles - applied,
    {
        if !edges_arc_in_range(horizontal, correction_step) || !edges_arc_in_range(
            vertical,
            correction_step,
        ) {
            break;
        }
        let ghost hb = horizontal@;
        let ghost vb = vertical@;
        let cycles: Vec<Vec<usize>> = {
            let view = CompactResidualView::with_nflow(horizontal, vertical, nrow, ncol, nflow);
            proof {
                assert forall|k: int|
                    0 <= k < tree@.len() implies view_arc_in_nodes(&view, #[trigger] tree@[k] as int) by {
                    lemma_in_nodes_spec(&view, tree@[k] as int);
                    lemma_in_nodes_same_slots(h0, v0, hb, vb, nrow as int, ncol as int, step, tree@[k] as int);
                }
            }
            let basis = match CompactTreeBasis::new(&view, &tree) {
                Some(b) => b,
                None => {
                    break;
                },
            };
            let found = if candidate_limit == 1 {
                let mut one: Vec<Vec<usize>> = Vec::new();
                match basis.find_negative_cycle(&view) {
                    Some(c) => {
                        one.push(c);
                    },
                    None => {},
                }
                one
            } else {
                let remaining = max_cycles - applied;
                basis.negative_cycles(
                    &view,
                    if candidate_limit < remaining {
                        candidate_limit
                    } else {
                        remaining
                    },
                )
            };
            proof {
                assert forall|q: int| 0 <= q < found@.len() implies {
                    &&& (#[trigger] found@[q])@.len() >= 1
                    &&& view_cycle_ok(hb, vb, nrow as int, ncol as int, step, found@[q]@)
                    &&& arc_in_nodes_spec(h0, v0, nrow as int, ncol as int, step, found@[q]@[0] as int)
                } by {
                    let c = found@[q]@;
                    assert(c.len() == found@[q].len());
                    lemma_closed_walk_cycle_ok(&view, c);
                    assert(basis.negative_candidate(&view, c[0] as int));
                    lemma_in_nodes_spec(&view, c[0] as int);
                    lemma_in_nodes_same_slots(h0, v0, hb, vb, nrow as int, ncol as int, step, c[0] as int);
                }
            }
            found
        };
        if cycles.len() == 0 {
            break;
        }
        let mut batch_applied: usize = 0;
        let mut first: Option<usize> = None;
        let mut stop = false;
        let mut i: usize = 0;
        let ghost applied0 = applied as int;
        while i < cycles.len() && applied < max_cycles
            invariant
                applied == applied0 + batch_applied,
                nflow != i32::MIN,
                step == step_of(nflow as int),
                correction_step == step,
                1 <= step <= i32::MAX,
                view_dims_ok(nrow as int, ncol as int),
                applied <= max_cycles,
                i <= cycles@.len(),
                batch_applied <= applied,
                batch_applied > 0 ==> first is Some,
                first matches Some(f) ==> f < cycles@.len(),
                grid_ok(horizontal@, vertical@, nrow as int, ncol as int),
                same_slots(h0, horizontal@),
                same_slots(v0, vertical@),
                same_slots(hb, horizontal@),
                same_slots(vb, vertical@),
                residues_equal(h0, v0, horizontal@, vertical@, nrow as int, ncol as int),
                applied == 0 ==> horizontal@ == h0 && vertical@ == v0,
                forall|q: int| 0 <= q < cycles@.len() ==> {
                    &&& (#[trigger] cycles@[q])@.len() >= 1
                    &&& view_cycle_ok(hb, vb, nrow as int, ncol as int, step, cycles@[q]@)
                    &&& arc_in_nodes_spec(h0, v0, nrow as int, ncol as int, step, cycles@[q]@[0] as int)
                },
            decreases cycles@.len() - i,
        {
            if !edges_arc_in_range(horizontal, correction_step) || !edges_arc_in_range(
                vertical,
                correction_step,
            ) {
                stop = true;
                break;
            }
            let cost = {
                let view = CompactResidualView::with_nflow(horizontal, vertical, nrow, ncol, nflow);
                match compact_cycle_cost(&view, &cycles[i]) {
                    Some(c) => c,
                    None => 0,
                }
            };
            if cost >= 0 {
                i = i + 1;
                continue;
            }
            if first.is_none() {
                first = Some(i);
            }
            let clen = cycles[i].len();
            if clen as u64 > 0x1_0000_0000u64 {
                stop = true;
                break;
            }
            assert(clen as u64 * correction_step as u64 <= 0x8000_0000_0000_0000u64) by (nonlinear_arith)
                requires
                    clen as u64 <= 0x1_0000_0000u64,
                    1 <= correction_step <= 0x7fff_ffff,
            ;
            let need_wide: u64 = clen as u64 * correction_step as u64;
            if need_wide > 0x1_0000_0000 {
                stop = true;
                break;
            }
            let need = need_wide as i64;
            if !edges_headroom_in_range(horizontal, need) || !edges_headroom_in_range(vertical, need) {
                stop = true;
                break;
            }
            let ghost hc = horizontal@;
            let ghost vc = vertical@;
            proof {
                let c = cycles@[i as int]@;
                lemma_view_cycle_ok_same_slots(hb, vb, hc, vc, nrow as int, ncol as int, step, c);
                lemma_apply_view_cycle(hc, vc, nrow as int, ncol as int, step, c);
            }
            apply_compact_residual_cycle_with_nflow(horizontal, vertical, nrow, ncol, &cycles[i], nflow);
            proof {
                lemma_slots_trans(h0, hc, horizontal@);
                lemma_slots_trans(v0, vc, vertical@);
                lemma_slots_trans(hb, hc, horizontal@);
                lemma_slots_trans(vb, vc, vertical@);
                lemma_residues_trans(h0, v0, hc, vc, horizontal@, vertical@, nrow as int, ncol as int);
            }
            applied = applied + 1;
            batch_applied = batch_applied + 1;
            if rebase_tree || applied == max_cycles {
                break;
            }
            i = i + 1;
        }
        if stop || batch_applied == 0 {
            break;
        }
        let f = match first {
            Some(f) => f,
            None => {
                break;
            },
        };
        let ghost before = tree@;
        if rebase_tree {
            if !edges_arc_in_range(horizontal, correction_step) || !edges_arc_in_range(
                vertical,
                correction_step,
            ) {
                break;
            }
            let ghost hp = horizontal@;
            let ghost vp = vertical@;
            let view = CompactResidualView::with_nflow(horizontal, vertical, nrow, ncol, nflow);
            proof {
                assert forall|k: int|
                    0 <= k < tree@.len() implies view_arc_in_nodes(&view, #[trigger] tree@[k] as int) by {
                    lemma_in_nodes_spec(&view, tree@[k] as int);
                    lemma_in_nodes_same_slots(h0, v0, hp, vp, nrow as int, ncol as int, step, tree@[k] as int);
                }
                let c0 = cycles@[f as int]@[0] as int;
                lemma_in_nodes_spec(&view, c0);
                lemma_in_nodes_same_slots(h0, v0, hp, vp, nrow as int, ncol as int, step, c0);
            }
            let moved = pivot_compact_tree_on_cycle(&view, &mut tree, &cycles[f]);
            proof {
                assert forall|k: int|
                    0 <= k < tree@.len() implies arc_in_nodes_spec(
                    h0,
                    v0,
                    nrow as int,
                    ncol as int,
                    step,
                    #[trigger] tree@[k] as int,
                ) by {
                    assert(view_arc_in_nodes(&view, tree@[k] as int));
                    lemma_in_nodes_spec(&view, tree@[k] as int);
                    lemma_in_nodes_same_slots(h0, v0, hp, vp, nrow as int, ncol as int, step, tree@[k] as int);
                }
            }
            if !moved {
                break;
            }
        } else {
            let moved = pivot_compact_tree_on_cycle_fast(&mut tree, &cycles[f]);
            proof {
                lemma_cycle_pair_pos_range(before, cycles@[f as int]@, 1);
                assert forall|k: int|
                    0 <= k < tree@.len() implies arc_in_nodes_spec(
                    h0,
                    v0,
                    nrow as int,
                    ncol as int,
                    step,
                    #[trigger] tree@[k] as int,
                ) by {
                    if moved && k == cycle_pair_pos(before, cycles@[f as int]@, 1) {
                        assert(tree@[k] == cycles@[f as int]@[0]);
                    } else {
                        assert(tree@[k] == before[k]);
                    }
                }
            }
            if !moved {
                break;
            }
        }
    }
    applied
}

proof fn reveal_arc_in_range(view: &CompactResidualView<'_>, k: int)
    requires
        view.wf(),
        view.arc_at(k) is Some,
    ensures
        0 <= k < view_arc_count(view.nrow as int, view.ncol as int),
{
    reveal(CompactResidualView::arc_at);
    reveal(view_arc_spec);
}

} // verus!
