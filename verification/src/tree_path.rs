//! Costs of tree paths by lowest common ancestor: the tree is rooted at node
//! 0, every node keeps the cost of the climb to the root and of the descent
//! from it, and a table of `2^level`-th ancestors finds where two climbs meet.
use vstd::prelude::*;
use crate::residual::ResidualArc;
use crate::components::{count_false, lemma_count_false_bounds, lemma_count_false_update};
use crate::tree_cycle::partner;
use crate::residual_view::{view_dims_ok, CompactResidualView};
use crate::flow_schedule::dual_node_count;
use crate::rooted_tree::{
    climb, lemma_climb_add, lemma_climb_depth, lemma_climb_frame, lemma_climb_in, lemma_depth_step,
    lemma_meet_deeper, lemma_meet_deeper_right, lemma_meet_parent, lemma_meet_same_depth,
    lemma_pow2_int_pos, lifting_ok, meet, pow2_int, rooted_ok, slot,
};

verus! {

/// Largest magnitude of one arc cost.
pub open spec fn arc_cost_bound() -> int {
    0x8000_0000
}

/// An adjacency entry `(next, forward_cost, reverse_cost)` inside `0..n`
/// whose costs are arc costs.
pub open spec fn cost_entry_ok(e: (usize, i64, i64), n: int) -> bool {
    &&& (e.0 as int) < n
    &&& -arc_cost_bound() <= e.1 < arc_cost_bound()
    &&& -arc_cost_bound() <= e.2 < arc_cost_bound()
}

pub open spec fn cost_adj_ok(adj: Seq<Vec<(usize, i64, i64)>>) -> bool {
    forall|u: int, m: int|
        0 <= u < adj.len() && 0 <= m < adj[u]@.len() ==> cost_entry_ok(
            #[trigger] adj[u]@[m],
            adj.len() as int,
        )
}

/// Number of binary digits of `x`.
pub open spec fn bit_length(x: int) -> int
    decreases x,
{
    if x <= 0 {
        0
    } else {
        1 + bit_length(x / 2)
    }
}

proof fn lemma_bit_length_nonneg(x: int)
    ensures
        bit_length(x) >= 0,
    decreases x,
{
    if x > 0 {
        lemma_bit_length_nonneg(x / 2);
    }
}

proof fn lemma_bit_length_bound(x: int, b: int)
    requires
        0 <= x < pow2_int(b),
        0 <= b,
    ensures
        bit_length(x) <= b,
    decreases x,
{
    if x > 0 {
        assert(b >= 1) by {
            if b == 0 {
                assert(pow2_int(0) == 1);
            }
        }
        assert(pow2_int(b) == 2 * pow2_int(b - 1));
        lemma_bit_length_bound(x / 2, b - 1);
    }
}

proof fn lemma_pow2_match(b: nat)
    ensures
        vstd::arithmetic::power2::pow2(b) == pow2_int(b as int),
    decreases b,
{
    if b == 0 {
        vstd::arithmetic::power2::lemma2_to64();
    } else {
        vstd::arithmetic::power2::lemma_pow2_unfold(b);
        lemma_pow2_match((b - 1) as nat);
    }
}

/// Bit `l` of `s`.
pub(crate) proof fn lemma_bit_of(s: u64, l: u64)
    requires
        l < 64,
    ensures
        ((s >> l) & 1) == 1 <==> (s as int / pow2_int(l as int)) % 2 == 1,
{
    vstd::bits::lemma_u64_shr_is_div(s, l);
    lemma_pow2_match(l as nat);
    let y = s >> l;
    assert(y & 1 == y % 2) by (bit_vector);
}

pub(crate) proof fn lemma_below_pow2_bit_length(x: int)
    requires
        0 <= x,
    ensures
        x < pow2_int(bit_length(x)),
    decreases x,
{
    if x > 0 {
        lemma_below_pow2_bit_length(x / 2);
        lemma_bit_length_nonneg(x / 2);
    }
}

pub(crate) proof fn lemma_slot(l: int, levels: int, node: int, n: int)
    requires
        0 <= l < levels,
        0 <= node < n,
    ensures
        0 <= l * n + node < levels * n,
        l * n + n <= levels * n,
{
    assert(0 <= l * n) by (nonlinear_arith)
        requires
            0 <= l,
            0 <= n,
    ;
    assert((l + 1) * n <= levels * n) by (nonlinear_arith)
        requires
            l + 1 <= levels,
            0 <= n,
    ;
    assert((l + 1) * n == l * n + n) by (nonlinear_arith);
}

/// Depths, ancestor table and directed root costs of a tree over
/// `0..node_count` rooted at node 0. Entry `level * node_count + v` of
/// `parent` is the `2^level`-th ancestor of `v` (the root is its own parent).
pub struct TreePathCosts {
    pub depth: Vec<usize>,
    pub parent: Vec<u32>,
    pub up_root_cost: Vec<i64>,
    pub down_root_cost: Vec<i64>,
    pub levels: usize,
    pub node_count: usize,
}

impl TreePathCosts {
    /// Shapes agree, every table entry names a node, the first level of the
    /// table with the depths describes a tree rooted at node 0, level `l`
    /// holds the `2^l`-th ancestors, and the table is tall enough to climb
    /// from any node to the root.
    pub open spec fn wf(&self) -> bool {
        let n = self.node_count as int;
        &&& 1 <= n
        &&& 1 <= self.levels <= 64
        &&& self.depth@.len() == n
        &&& self.up_root_cost@.len() == n
        &&& self.down_root_cost@.len() == n
        &&& self.parent.len() == self.levels * n
        &&& (n > 1 ==> self.levels >= 2)
        &&& forall|i: int| 0 <= i < self.parent@.len() ==> (#[trigger] self.parent@[i] as int) < n
        &&& rooted_ok(self.parent@, self.depth@, n)
        &&& lifting_ok(self.parent@, self.levels as int, n)
        &&& forall|v: int|
            0 <= v < n ==> (#[trigger] self.depth@[v] as int) < pow2_int(self.levels - 1)
    }

    /// Cost of the climb from `from` to the node where the climbs from `from`
    /// and `to` meet, plus the descent from there to `to`, read from the root
    /// costs.
    pub open spec fn path_total(&self, from: int, to: int) -> int {
        let m = meet(self.parent@, self.depth@, self.node_count as int, from, to);
        (self.up_root_cost@[from] - self.up_root_cost@[m]) + (self.down_root_cost@[to]
            - self.down_root_cost@[m])
    }

    /// Position of `node`'s ancestor at `level` in the flat table.
    pub fn index(&self, level: usize, node: usize) -> (r: usize)
        requires
            self.wf(),
            level < self.levels,
            node < self.node_count,
        ensures
            r == level * self.node_count + node,
            r < self.parent@.len(),
    {
        proof {
            lemma_slot(level as int, self.levels as int, node as int, self.node_count as int);
        }
        level * self.node_count + node
    }

    /// Builds the tables from the tree arcs of the residual graph. Each tree
    /// arc must have its reverse next to it (`index ^ 1`).
    pub fn new(arcs: &[ResidualArc], node_count: usize, tree_arc_indices: &[usize]) -> (r:
        Option<Self>)
        ensures
            (node_count == 0 || node_count > u32::MAX) ==> r is None,
            forall|k: int|
                0 <= k < tree_arc_indices@.len() && !tree_arc_pair_ok(
                    arcs@,
                    #[trigger] tree_arc_indices@[k] as int,
                    node_count as int,
                ) ==> r is None,
            r matches Some(t) ==> t.wf() && t.node_count == node_count,
            r is None ==> node_count == 0 || node_count > u32::MAX || (exists|k: int|
                0 <= k < tree_arc_indices@.len() && !tree_arc_pair_ok(
                    arcs@,
                    #[trigger] tree_arc_indices@[k] as int,
                    node_count as int,
                )) || (bit_length(node_count - 1) + 1) * node_count > usize::MAX || !lists_reach_all(
                tree_cost_lists(arcs@, tree_arc_indices@, node_count as int),
            ),
            r matches Some(t) ==> {
                &&& t.levels == bit_length(node_count - 1) + 1
                &&& t.up_root_cost@[0] == 0
                &&& t.down_root_cost@[0] == 0
                &&& forall|v: int|
                    1 <= v < node_count ==> list_cost_link(tree_cost_lists(arcs@, tree_arc_indices@, node_count as int), t.parent@[v] as int, v, t.up_root_cost@, t.down_root_cost@)
                &&& lists_reach_all(tree_cost_lists(arcs@, tree_arc_indices@, node_count as int))
            },
    {
        if node_count == 0 || node_count > 0xffff_ffff {
            return None;
        }
        let mut adjacency: Vec<Vec<(usize, i64, i64)>> = Vec::new();
        let mut i: usize = 0;
        while i < node_count
            invariant
                i <= node_count,
                adjacency@.len() == i,
                forall|u: int| 0 <= u < i ==> (#[trigger] adjacency@[u])@.len() == 0,
            decreases node_count - i,
        {
            adjacency.push(Vec::new());
            i = i + 1;
        }
        let mut k: usize = 0;
        while k < tree_arc_indices.len()
            invariant
                k <= tree_arc_indices@.len(),
                adjacency@.len() == node_count,
                cost_adj_ok(adjacency@),
                forall|q: int|
                    0 <= q < k ==> tree_arc_pair_ok(
                        arcs@,
                        #[trigger] tree_arc_indices@[q] as int,
                        node_count as int,
                    ),
                forall|u: int|
                    0 <= u < node_count ==> (#[trigger] adjacency@[u])@ == tree_cost_list(
                        arcs@,
                        tree_arc_indices@,
                        k as int,
                        u,
                    ),
            decreases tree_arc_indices@.len() - k,
        {
            let index = tree_arc_indices[k];
            if index >= arcs.len() {
                proof {
                    assert(!tree_arc_pair_ok(arcs@, tree_arc_indices@[k as int] as int, node_count as int));
                }
                return None;
            }
            let arc = arcs[index];
            let other = index ^ 1;
            assert(other == (if index % 2 == 0 { index + 1 } else { index - 1 })) by (bit_vector)
                requires
                    other == index ^ 1,
            ;
            if other >= arcs.len() {
                proof {
                    assert(!tree_arc_pair_ok(arcs@, tree_arc_indices@[k as int] as int, node_count as int));
                }
                return None;
            }
            let reverse = arcs[other];
            if arc.from >= node_count || arc.to >= node_count {
                proof {
                    assert(!tree_arc_pair_ok(arcs@, tree_arc_indices@[k as int] as int, node_count as int));
                }
                return None;
            }
            if reverse.from != arc.to || reverse.to != arc.from {
                proof {
                    assert(!tree_arc_pair_ok(arcs@, tree_arc_indices@[k as int] as int, node_count as int));
                }
                return None;
            }
            let ghost a0 = adjacency@;
            adjacency[arc.from].push((arc.to, arc.cost as i64, reverse.cost as i64));
            let ghost a1 = adjacency@;
            adjacency[arc.to].push((arc.from, reverse.cost as i64, arc.cost as i64));
            proof {
                assert(a1[arc.from as int]@ == a0[arc.from as int]@.push(
                    (arc.to, arc.cost as i64, reverse.cost as i64),
                ));
                assert(adjacency@[arc.to as int]@ == a1[arc.to as int]@.push(
                    (arc.from, reverse.cost as i64, arc.cost as i64),
                ));
                assert forall|u: int| 0 <= u < node_count implies (#[trigger] adjacency@[u])@ == tree_cost_list(
                    arcs@,
                    tree_arc_indices@,
                    k + 1,
                    u,
                ) by {
                    assert(a0[u]@ == tree_cost_list(arcs@, tree_arc_indices@, k as int, u));
                    if u != arc.from as int {
                        assert(a1[u]@ == a0[u]@);
                    }
                    if u != arc.to as int {
                        assert(adjacency@[u]@ == a1[u]@);
                    }
                }
                assert forall|u: int, m: int|
                    0 <= u < adjacency@.len() && 0 <= m < adjacency@[u]@.len() implies cost_entry_ok(
                    #[trigger] adjacency@[u]@[m],
                    adjacency@.len() as int,
                ) by {
                    if u != arc.to as int || m < a1[u]@.len() {
                        assert(adjacency@[u]@[m] == a1[u]@[m]);
                        if u != arc.from as int || m < a0[u]@.len() {
                            assert(a1[u]@[m] == a0[u]@[m]);
                        }
                    }
                }
            }
            k = k + 1;
        }
        proof {
            lemma_reaches_lists(adjacency@, tree_cost_lists(arcs@, tree_arc_indices@, node_count as int));
        }
        let ghost adj = adjacency@;
        let r = Self::from_adjacency(adjacency);
        proof {
            if r is Some {
                lemma_links_to_lists(adj, tree_cost_lists(arcs@, tree_arc_indices@, node_count as int), r->0.parent@, r->0.up_root_cost@, r->0.down_root_cost@);
            }
        }
        r
    }

    /// Builds the tables from tree arcs read from a compact residual view.
    /// Each tree arc must be present with its reverse next to it (`index ^ 1`).
    pub fn new_compact(view: &CompactResidualView<'_>, tree_arc_indices: &[usize]) -> (r: Option<
        Self,
    >)
        requires
            view.wf(),
            forall|k: int|
                0 <= k < tree_arc_indices@.len() ==> view_arc_in_nodes(
                    view,
                    #[trigger] tree_arc_indices@[k] as int,
                ),
        ensures
            dual_node_count(view.nrow as int, view.ncol as int) > u32::MAX ==> r is None,
            forall|k: int|
                0 <= k < tree_arc_indices@.len() && !view_tree_pair_ok(
                    view,
                    #[trigger] tree_arc_indices@[k] as int,
                ) ==> r is None,
            r matches Some(t) ==> t.wf() && t.node_count == dual_node_count(
                view.nrow as int,
                view.ncol as int,
            ),
            r is None ==> ({
                let n = dual_node_count(view.nrow as int, view.ncol as int);
                ||| n > u32::MAX
                ||| exists|k: int|
                    0 <= k < tree_arc_indices@.len() && !view_tree_pair_ok(view, #[trigger] tree_arc_indices@[k] as int)
                ||| (bit_length(n - 1) + 1) * n > usize::MAX
                ||| !lists_reach_all(view_cost_lists(view, tree_arc_indices@, n))
            }),
            r matches Some(t) ==> {
                &&& t.levels == bit_length(dual_node_count(view.nrow as int, view.ncol as int) - 1) + 1
                &&& t.up_root_cost@[0] == 0
                &&& t.down_root_cost@[0] == 0
                &&& forall|v: int|
                    1 <= v < dual_node_count(view.nrow as int, view.ncol as int) ==> list_cost_link(view_cost_lists(view, tree_arc_indices@, dual_node_count(view.nrow as int, view.ncol as int)), t.parent@[v] as int, v, t.up_root_cost@, t.down_root_cost@)
                &&& lists_reach_all(view_cost_lists(view, tree_arc_indices@, dual_node_count(view.nrow as int, view.ncol as int)))
            },
    {
        let node_count = view.node_count();
        if node_count == 0 || node_count > 0xffff_ffff {
            return None;
        }
        let mut adjacency: Vec<Vec<(usize, i64, i64)>> = Vec::new();
        let mut i: usize = 0;
        while i < node_count
            invariant
                i <= node_count,
                adjacency@.len() == i,
                forall|u: int| 0 <= u < i ==> (#[trigger] adjacency@[u])@.len() == 0,
            decreases node_count - i,
        {
            adjacency.push(Vec::new());
            i = i + 1;
        }
        let mut k: usize = 0;
        while k < tree_arc_indices.len()
            invariant
                view.wf(),
                node_count == dual_node_count(view.nrow as int, view.ncol as int),
                forall|q: int|
                    0 <= q < tree_arc_indices@.len() ==> view_arc_in_nodes(
                        view,
                        #[trigger] tree_arc_indices@[q] as int,
                    ),
                k <= tree_arc_indices@.len(),
                adjacency@.len() == node_count,
                cost_adj_ok(adjacency@),
                forall|q: int|
                    0 <= q < k ==> view_tree_pair_ok(view, #[trigger] tree_arc_indices@[q] as int),
                forall|u: int|
                    0 <= u < node_count ==> (#[trigger] adjacency@[u])@ == view_cost_list(
                        view,
                        tree_arc_indices@,
                        k as int,
                        u,
                    ),
            decreases tree_arc_indices@.len() - k,
        {
            let index = tree_arc_indices[k];
            let arc = match view.arc(index) {
                Some(a) => a,
                None => {
                    proof {
                        assert(!view_tree_pair_ok(view, tree_arc_indices@[k as int] as int));
                    }
                    return None;
                },
            };
            let other = index ^ 1;
            assert(other == (if index % 2 == 0 { index + 1 } else { index - 1 })) by (bit_vector)
                requires
                    other == index ^ 1,
            ;
            let reverse = match view.arc(other) {
                Some(a) => a,
                None => {
                    proof {
                        assert(!view_tree_pair_ok(view, tree_arc_indices@[k as int] as int));
                    }
                    return None;
                },
            };
            if reverse.from != arc.to || reverse.to != arc.from {
                proof {
                    assert(!view_tree_pair_ok(view, tree_arc_indices@[k as int] as int));
                }
                return None;
            }
            proof {
                assert(view_arc_in_nodes(view, tree_arc_indices@[k as int] as int));
            }
            let ghost a0 = adjacency@;
            adjacency[arc.from].push((arc.to, arc.cost as i64, reverse.cost as i64));
            let ghost a1 = adjacency@;
            adjacency[arc.to].push((arc.from, reverse.cost as i64, arc.cost as i64));
            proof {
                assert(a1[arc.from as int]@ == a0[arc.from as int]@.push(
                    (arc.to, arc.cost as i64, reverse.cost as i64),
                ));
                assert(adjacency@[arc.to as int]@ == a1[arc.to as int]@.push(
                    (arc.from, reverse.cost as i64, arc.cost as i64),
                ));
                assert forall|u: int| 0 <= u < node_count implies (#[trigger] adjacency@[u])@ == view_cost_list(
                    view,
                    tree_arc_indices@,
                    k + 1,
                    u,
                ) by {
                    assert(a0[u]@ == view_cost_list(view, tree_arc_indices@, k as int, u));
                    if u != arc.from as int {
                        assert(a1[u]@ == a0[u]@);
                    }
                    if u != arc.to as int {
                        assert(adjacency@[u]@ == a1[u]@);
                    }
                }
                assert forall|u: int, m: int|
                    0 <= u < adjacency@.len() && 0 <= m < adjacency@[u]@.len() implies cost_entry_ok(
                    #[trigger] adjacency@[u]@[m],
                    adjacency@.len() as int,
                ) by {
                    if u != arc.to as int || m < a1[u]@.len() {
                        assert(adjacency@[u]@[m] == a1[u]@[m]);
                        if u != arc.from as int || m < a0[u]@.len() {
                            assert(a1[u]@[m] == a0[u]@[m]);
                        }
                    }
                }
            }
            k = k + 1;
        }
        proof {
            lemma_reaches_lists(adjacency@, view_cost_lists(view, tree_arc_indices@, node_count as int));
        }
        let ghost adj = adjacency@;
        let r = Self::from_adjacency(adjacency);
        proof {
            if r is Some {
                lemma_links_to_lists(adj, view_cost_lists(view, tree_arc_indices@, dual_node_count(view.nrow as int, view.ncol as int)), r->0.parent@, r->0.up_root_cost@, r->0.down_root_cost@);
            }
        }
        r
    }

    /// Roots the tree given by adjacency lists at node 0 by breadth-first
    /// search and fills the ancestor table. `None` when the lists do not reach
    /// every node, or the table would not fit in memory.
    pub fn from_adjacency(adjacency: Vec<Vec<(usize, i64, i64)>>) -> (r: Option<Self>)
        requires
            cost_adj_ok(adjacency@),
        ensures
            r is None ==> adjacency@.len() == 0 || adjacency@.len() > u32::MAX || (bit_length(
                adjacency@.len() - 1,
            ) + 1) * adjacency@.len() > usize::MAX || !reaches_all(adjacency@),
            (adjacency@.len() == 0 || adjacency@.len() > u32::MAX) ==> r is None,
            r matches Some(t) ==> t.wf() && t.node_count == adjacency@.len(),
            r matches Some(t) ==> {
                &&& t.up_root_cost@[0] == 0
                &&& t.down_root_cost@[0] == 0
                &&& forall|v: int|
                    1 <= v < adjacency@.len() ==> cost_link(
                        adjacency@,
                        t.parent@[v] as int,
                        v,
                        t.up_root_cost@,
                        t.down_root_cost@,
                    )
                &&& t.levels == bit_length(adjacency@.len() - 1) + 1
                &&& reaches_all(adjacency@)
            },
    {
        let node_count = adjacency.len();
        if node_count == 0 || node_count > 0xffff_ffff {
            return None;
        }
        let ghost nn = node_count as int;
        let levels = ancestor_levels(node_count);
        let slots = match levels.checked_mul(node_count) {
            Some(v) => v,
            None => {
                return None;
            },
        };
        let mut parent: Vec<u32> = Vec::new();
        let mut i: usize = 0;
        while i < slots
            invariant
                i <= slots,
                parent@.len() == i,
                forall|q: int| 0 <= q < i ==> #[trigger] parent@[q] == u32::MAX,
            decreases slots - i,
        {
            parent.push(u32::MAX);
            i = i + 1;
        }
        proof {
            assert(slots >= node_count) by (nonlinear_arith)
                requires
                    slots == levels * node_count,
                    levels >= 1,
                    node_count >= 0,
            ;
        }
        let (depth, up_root_cost, down_root_cost) = match root_tree(&adjacency, &mut parent) {
            Some(t) => t,
            None => {
                return None;
            },
        };
        let ghost base = parent@;
        proof {
            assert forall|q: int| 0 <= q < nn implies (#[trigger] parent@[q] as int) < nn by {
                assert((base[q] as int) < nn);
            }
            assert(levels <= 33);
            lemma_below_pow2_bit_length(nn - 1);
            assert(levels - 1 == bit_length(nn - 1));
            assert forall|v: int| 0 <= v < nn implies (#[trigger] depth@[v] as int) < pow2_int(
                levels - 1,
            ) by {
                assert((depth@[v] as int) < nn);
            }
        }
        fill_ancestor_levels(&mut parent, levels, node_count);
        proof {
            assert forall|v: int| 0 <= v < nn implies (#[trigger] parent@[v] as int) < nn by {
                assert(parent@[v] == base[v]);
            }
            assert forall|v: int| 1 <= v < nn implies #[trigger] depth@[v] == depth@[parent@[v] as int]
                + 1 by {
                assert(parent@[v] == base[v]);
            }
            assert(parent@[0] == base[0]);
            assert forall|v: int|
                1 <= v < nn implies cost_link(
                adjacency@,
                parent@[v] as int,
                v,
                up_root_cost@,
                down_root_cost@,
            ) by {
                assert(parent@[v] == base[v]);
            }
        }
        proof {
            lemma_rooted_reaches_all(adjacency@, parent@, depth@, up_root_cost@, down_root_cost@);
        }
        Some(TreePathCosts { depth, parent, up_root_cost, down_root_cost, levels, node_count })
    }

    /// Number of levels and of nodes of the ancestor table.
    pub fn table_shape(&self) -> (r: (usize, usize))
        ensures
            r == (self.levels, self.node_count),
    {
        (self.levels, self.node_count)
    }

    /// Number of stored directed root costs: two per node.
    pub fn directed_cost_storage_len(&self) -> (r: usize)
        requires
            self.wf(),
        ensures
            r == self.up_root_cost@.len() + self.down_root_cost@.len(),
            r == 2 * self.node_count,
    {
        assert(self.node_count == 1 || 2 * self.node_count <= self.levels * self.node_count)
            by (nonlinear_arith)
            requires
                self.node_count > 1 ==> self.levels >= 2,
                self.node_count >= 1,
                self.levels >= 1,
        ;
        self.up_root_cost.len() + self.down_root_cost.len()
    }

    /// Climbs from `node` by the binary digits of `steps` that the table
    /// covers: `steps` modulo `2^levels` steps up the tree. `None` for a node
    /// outside the tree.
    pub fn raise(&self, node: usize, steps: usize) -> (r: Option<usize>)
        requires
            self.wf(),
        ensures
            r is None <==> node >= self.node_count,
            r matches Some(v) ==> v < self.node_count && v as int == climb(
                self.parent@,
                node as int,
                (steps as int % pow2_int(self.levels as int)) as nat,
            ),
    {
        if node >= self.depth.len() {
            return None;
        }
        let ghost n = self.node_count as int;
        let ghost p = self.parent@;
        let ghost node0 = node as int;
        let mut node = node;
        let mut level: usize = 0;
        proof {
            assert(pow2_int(0) == 1);
            assert(steps as int % 1 == 0);
        }
        while level < self.levels
            invariant
                self.wf(),
                n == self.node_count,
                p == self.parent@,
                0 <= node0 < n,
                level <= self.levels,
                node < self.node_count,
                node as int == climb(p, node0, (steps as int % pow2_int(level as int)) as nat),
            decreases self.levels - level,
        {
            let ghost e = steps as int % pow2_int(level as int);
            let ghost w = pow2_int(level as int);
            let ghost bit = (steps as int / w) % 2;
            proof {
                lemma_bit_of(steps as u64, level as u64);
                lemma_pow2_int_pos(level as int);
                vstd::arithmetic::div_mod::lemma_mod_breakdown(steps as int, w, 2);
                assert(pow2_int(level + 1) == w * 2);
                assert(steps as int % pow2_int(level + 1) == w * bit + e);
                assert(0 <= e);
                assert(bit == 0 || bit == 1);
                if bit == 1 {
                    assert(w * bit == w) by (nonlinear_arith)
                        requires
                            bit == 1,
                    ;
                } else {
                    assert(w * bit == 0) by (nonlinear_arith)
                        requires
                            bit == 0,
                    ;
                }
            }
            if (((steps as u64) >> (level as u64)) & 1) == 1 {
                let index = self.index(level, node);
                proof {
                    assert(slot(p, n, level as int, node as int) == climb(p, node as int, w as nat));
                    lemma_climb_add(p, node0, e as nat, w as nat);
                    assert(steps as int % pow2_int(level + 1) == e + w);
                }
                node = self.parent[index] as usize;
            } else {
                proof {
                    assert(steps as int % pow2_int(level + 1) == e);
                }
            }
            level = level + 1;
        }
        Some(node)
    }

    /// Cost of the tree path from `from` to `to`: the climb from `from` to the
    /// lowest common ancestor and the descent from there to `to`. `None` for a
    /// node outside the tree, or where the total leaves the range of `i64`.
    pub fn path_cost(&self, from: usize, to: usize) -> (r: Option<i64>)
        requires
            self.wf(),
        ensures
            (from >= self.node_count || to >= self.node_count) ==> r is None,
            from < self.node_count && to < self.node_count ==> r == (if i64::MIN <= self.path_total(
                from as int,
                to as int,
            ) <= i64::MAX {
                Some(self.path_total(from as int, to as int) as i64)
            } else {
                None::<i64>
            }),
    {
        if from >= self.depth.len() || to >= self.depth.len() {
            return None;
        }
        let ghost n = self.node_count as int;
        let ghost p = self.parent@;
        let ghost d = self.depth@;
        let ghost m0 = meet(p, d, n, from as int, to as int);
        let mut left = from;
        let mut right = to;
        proof {
            lemma_pow2_int_pos(self.levels - 1);
            assert(pow2_int(self.levels as int) == 2 * pow2_int(self.levels - 1));
            assert((d[from as int] as int) < pow2_int(self.levels - 1));
            assert((d[to as int] as int) < pow2_int(self.levels - 1));
        }
        if self.depth[left] > self.depth[right] {
            let diff = self.depth[left] - self.depth[right];
            left = match self.raise(left, diff) {
                Some(v) => v,
                None => {
                    return None;
                },
            };
            proof {
                vstd::arithmetic::div_mod::lemma_small_mod(
                    diff as nat,
                    pow2_int(self.levels as int) as nat,
                );
                lemma_meet_deeper(p, d, n, from as int, to as int);
                lemma_climb_depth(p, d, n, from as int, diff as nat);
            }
        } else if self.depth[right] > self.depth[left] {
            let diff = self.depth[right] - self.depth[left];
            right = match self.raise(right, diff) {
                Some(v) => v,
                None => {
                    return None;
                },
            };
            proof {
                vstd::arithmetic::div_mod::lemma_small_mod(
                    diff as nat,
                    pow2_int(self.levels as int) as nat,
                );
                lemma_meet_deeper_right(p, d, n, from as int, to as int);
                lemma_climb_depth(p, d, n, to as int, diff as nat);
            }
        }
        let lca = if left == right {
            left
        } else {
            let mut level = self.levels;
            proof {
                lemma_climb_depth(p, d, n, left as int, pow2_int(level as int) as nat);
                lemma_climb_depth(p, d, n, right as int, pow2_int(level as int) as nat);
            }
            while level > 0
                invariant
                    self.wf(),
                    n == self.node_count,
                    p == self.parent@,
                    d == self.depth@,
                    level <= self.levels,
                    left < self.node_count,
                    right < self.node_count,
                    left != right,
                    d[left as int] == d[right as int],
                    climb(p, left as int, pow2_int(level as int) as nat) == climb(
                        p,
                        right as int,
                        pow2_int(level as int) as nat,
                    ),
                    meet(p, d, n, left as int, right as int) == m0,
                decreases level,
            {
                level = level - 1;
                let ghost w = pow2_int(level as int);
                proof {
                    lemma_pow2_int_pos(level as int);
                    assert(pow2_int(level + 1) == w + w);
                }
                let left_index = self.index(level, left);
                let right_index = self.index(level, right);
                proof {
                    assert(slot(p, n, level as int, left as int) == climb(p, left as int, w as nat));
                    assert(slot(p, n, level as int, right as int) == climb(p, right as int, w as nat));
                }
                if self.parent[left_index] != self.parent[right_index] {
                    proof {
                        lemma_meet_same_depth(p, d, n, left as int, right as int, w as nat);
                        lemma_climb_add(p, left as int, w as nat, w as nat);
                        lemma_climb_add(p, right as int, w as nat, w as nat);
                    }
                    left = self.parent[left_index] as usize;
                    right = self.parent[right_index] as usize;
                }
            }
            proof {
                lemma_slot(0, self.levels as int, left as int, n);
                assert(pow2_int(0) == 1);
                assert(climb(p, p[left as int] as int, 0) == p[left as int] as int);
                assert(climb(p, p[right as int] as int, 0) == p[right as int] as int);
                assert(climb(p, left as int, 1) == p[left as int] as int);
                assert(climb(p, right as int, 1) == p[right as int] as int);
                lemma_meet_parent(p, d, n, left as int, right as int);
            }
            self.parent[left] as usize
        };
        proof {
            assert(lca as int == m0);
        }
        let total: i128 = (self.up_root_cost[from] as i128 - self.up_root_cost[lca] as i128) + (
        self.down_root_cost[to] as i128 - self.down_root_cost[lca] as i128);
        if total < i64::MIN as i128 || total > i64::MAX as i128 {
            return None;
        }
        Some(total as i64)
    }
}

/// Breadth-first search from node 0 over adjacency lists: fills the first
/// `n` entries of `parent` with each node's parent and returns the depths and
/// the costs of the climb to the root and of the descent from it, or `None`
/// when some node is not reached.
/// Number of levels of an ancestor table over `node_count` nodes: one more
/// than the number of binary digits of `node_count - 1`.
pub(crate) fn ancestor_levels(node_count: usize) -> (levels: usize)
    requires
        1 <= node_count <= u32::MAX,
    ensures
        levels == bit_length(node_count - 1) + 1,
        1 <= levels <= 33,
        node_count <= pow2_int(levels - 1),
        node_count > 1 ==> levels >= 2,
{
    let ghost nn = node_count as int;
    let mut levels: usize = 1;
    let mut x: usize = node_count - 1;
    proof {
        assert(pow2_int(32) == 0x1_0000_0000) by {
            reveal_with_fuel(pow2_int, 33);
        }
        lemma_bit_length_bound(x as int, 32);
    }
    while x > 0
        invariant
            levels + bit_length(x as int) == bit_length(nn - 1) + 1,
            bit_length(nn - 1) <= 32,
            levels >= 1,
        decreases x,
    {
        proof {
            lemma_bit_length_nonneg(x as int / 2);
        }
        x = x / 2;
        levels = levels + 1;
    }
    proof {
        if nn > 1 {
            lemma_bit_length_nonneg((nn - 1) / 2);
        }
        lemma_below_pow2_bit_length(nn - 1);
    }
    levels
}

/// `s` is closed under the lists of `adj`: every neighbour of a node of `s`
/// is in `s`.
pub open spec fn adj_closed(adj: Seq<Vec<(usize, i64, i64)>>, s: Set<int>) -> bool {
    forall|u: int, m: int|
        s.contains(u) && 0 <= u < adj.len() && 0 <= m < adj[u]@.len() ==> #[trigger] s.contains(adj[u]@[m].0 as int)
}

/// Every node of `adj` is reached from node 0: every set that holds node 0
/// and is closed under the lists holds every node.
pub open spec fn reaches_all(adj: Seq<Vec<(usize, i64, i64)>>) -> bool {
    forall|s: Set<int>| #[trigger] adj_closed(adj, s) && s.contains(0) ==> forall|v: int| 0 <= v < adj.len() ==> s.contains(v)
}

/// `s` is closed under the lists `lists`.
pub open spec fn lists_closed(lists: Seq<Seq<(usize, i64, i64)>>, s: Set<int>) -> bool {
    forall|u: int, m: int|
        s.contains(u) && 0 <= u < lists.len() && 0 <= m < lists[u].len() ==> #[trigger] s.contains(lists[u][m].0 as int)
}

/// Every node of `lists` is reached from node 0.
pub open spec fn lists_reach_all(lists: Seq<Seq<(usize, i64, i64)>>) -> bool {
    forall|s: Set<int>|
        #[trigger] lists_closed(lists, s) && s.contains(0) ==> forall|v: int| 0 <= v < lists.len() ==> s.contains(v)
}

/// Reaching every node does not depend on how the lists are held.
proof fn lemma_reaches_lists(adj: Seq<Vec<(usize, i64, i64)>>, lists: Seq<Seq<(usize, i64, i64)>>)
    requires
        lists.len() == adj.len(),
        forall|u: int| 0 <= u < adj.len() ==> #[trigger] lists[u] == adj[u]@,
    ensures
        reaches_all(adj) == lists_reach_all(lists),
{
    assert forall|s: Set<int>| #[trigger] adj_closed(adj, s) == lists_closed(lists, s) by {
        if adj_closed(adj, s) {
            assert forall|u: int, m: int|
                s.contains(u) && 0 <= u < lists.len() && 0 <= m < lists[u].len() implies #[trigger] s.contains(
                lists[u][m].0 as int,
            ) by {
                assert(lists[u] == adj[u]@);
                assert(s.contains(adj[u]@[m].0 as int));
            }
        }
        if lists_closed(lists, s) {
            assert forall|u: int, m: int|
                s.contains(u) && 0 <= u < adj.len() && 0 <= m < adj[u]@.len() implies #[trigger] s.contains(
                adj[u]@[m].0 as int,
            ) by {
                assert(lists[u] == adj[u]@);
                assert(s.contains(lists[u][m].0 as int));
            }
        }
    }
    if reaches_all(adj) {
        assert forall|s: Set<int>| #[trigger] lists_closed(lists, s) && s.contains(0) implies forall|v: int|
            0 <= v < lists.len() ==> s.contains(v) by {
            assert(adj_closed(adj, s));
        }
    }
    if lists_reach_all(lists) {
        assert forall|s: Set<int>| #[trigger] adj_closed(adj, s) && s.contains(0) implies forall|v: int|
            0 <= v < adj.len() ==> s.contains(v) by {
            assert(lists_closed(lists, s));
        }
    }
}

/// Node `u`'s list after the first `k` tree arcs: each arc adds its target,
/// with its cost and its partner's, to its source's list, and then its
/// source, with the partner's cost and its own, to its target's list.
pub open spec fn tree_cost_list(arcs: Seq<ResidualArc>, tree: Seq<usize>, k: int, u: int) -> Seq<(usize, i64, i64)>
    decreases k,
{
    if k <= 0 {
        Seq::empty()
    } else {
        let prev = tree_cost_list(arcs, tree, k - 1, u);
        let t = tree[k - 1] as int;
        let a = arcs[t];
        let b = arcs[partner(t)];
        let with_source = if a.from as int == u {
            prev.push((a.to, a.cost as i64, b.cost as i64))
        } else {
            prev
        };
        if a.to as int == u {
            with_source.push((a.from, b.cost as i64, a.cost as i64))
        } else {
            with_source
        }
    }
}

/// The lists of all `n` nodes after every tree arc.
pub open spec fn tree_cost_lists(arcs: Seq<ResidualArc>, tree: Seq<usize>, n: int) -> Seq<Seq<(usize, i64, i64)>> {
    Seq::new(n as nat, |u: int| tree_cost_list(arcs, tree, tree.len() as int, u))
}

/// `tree_cost_list` with the arcs read from a compact residual view.
pub open spec fn view_cost_list(view: &CompactResidualView<'_>, tree: Seq<usize>, k: int, u: int) -> Seq<(usize, i64, i64)>
    decreases k,
{
    if k <= 0 {
        Seq::empty()
    } else {
        let prev = view_cost_list(view, tree, k - 1, u);
        let t = tree[k - 1] as int;
        let a = view.arc_at(t)->0;
        let b = view.arc_at(partner(t))->0;
        let with_source = if a.from as int == u {
            prev.push((a.to, a.cost as i64, b.cost as i64))
        } else {
            prev
        };
        if a.to as int == u {
            with_source.push((a.from, b.cost as i64, a.cost as i64))
        } else {
            with_source
        }
    }
}

/// The lists of all `n` nodes after every tree arc, read from a view.
pub open spec fn view_cost_lists(view: &CompactResidualView<'_>, tree: Seq<usize>, n: int) -> Seq<Seq<(usize, i64, i64)>> {
    Seq::new(n as nat, |u: int| view_cost_list(view, tree, tree.len() as int, u))
}

/// `cost_link` over lists held as sequences.
pub open spec fn list_cost_link(
    lists: Seq<Seq<(usize, i64, i64)>>,
    u: int,
    v: int,
    up: Seq<i64>,
    down: Seq<i64>,
) -> bool {
    exists|m: int|
        0 <= m < lists[u].len() && (#[trigger] lists[u][m]).0 as int == v && up[v] == up[u] + lists[u][m].2
            && down[v] == down[u] + lists[u][m].1
}

/// A node of a rooted tree whose parent links are list entries lies in
/// every closed set that holds the root.
proof fn lemma_rooted_in_closed(
    adj: Seq<Vec<(usize, i64, i64)>>,
    p: Seq<u32>,
    depth: Seq<usize>,
    up: Seq<i64>,
    down: Seq<i64>,
    s: Set<int>,
    v: int,
)
    requires
        rooted_ok(p, depth, adj.len() as int),
        forall|w: int| 1 <= w < adj.len() ==> cost_link(adj, p[w] as int, w, up, down),
        adj_closed(adj, s),
        s.contains(0),
        0 <= v < adj.len(),
    ensures
        s.contains(v),
    decreases depth[v],
{
    if v != 0 {
        let u = p[v] as int;
        lemma_rooted_in_closed(adj, p, depth, up, down, s, u);
        assert(cost_link(adj, u, v, up, down));
        let m = choose|m: int|
            0 <= m < adj[u]@.len() && (#[trigger] adj[u]@[m]).0 as int == v && up[v] == up[u] + adj[u]@[m].2
                && down[v] == down[u] + adj[u]@[m].1;
        assert(s.contains(adj[u]@[m].0 as int));
    }
}

/// A rooted tree whose parent links are list entries reaches every node.
proof fn lemma_rooted_reaches_all(
    adj: Seq<Vec<(usize, i64, i64)>>,
    p: Seq<u32>,
    depth: Seq<usize>,
    up: Seq<i64>,
    down: Seq<i64>,
)
    requires
        rooted_ok(p, depth, adj.len() as int),
        forall|w: int| 1 <= w < adj.len() ==> cost_link(adj, p[w] as int, w, up, down),
    ensures
        reaches_all(adj),
{
    assert forall|s: Set<int>| #[trigger] adj_closed(adj, s) && s.contains(0) implies forall|v: int|
        0 <= v < adj.len() ==> s.contains(v) by {
        assert forall|v: int| 0 <= v < adj.len() implies s.contains(v) by {
            lemma_rooted_in_closed(adj, p, depth, up, down, s, v);
        }
    }
}

/// Cost links read from list entries carry over to the same lists held as
/// sequences.
proof fn lemma_links_to_lists(
    adj: Seq<Vec<(usize, i64, i64)>>,
    lists: Seq<Seq<(usize, i64, i64)>>,
    p: Seq<u32>,
    up: Seq<i64>,
    down: Seq<i64>,
)
    requires
        lists.len() == adj.len(),
        forall|u: int| 0 <= u < adj.len() ==> #[trigger] lists[u] == adj[u]@,
        forall|w: int| 0 <= w < p.len() ==> (#[trigger] p[w] as int) < adj.len(),
        p.len() >= adj.len(),
        forall|w: int| 1 <= w < adj.len() ==> cost_link(adj, p[w] as int, w, up, down),
    ensures
        forall|w: int| 1 <= w < adj.len() ==> list_cost_link(lists, p[w] as int, w, up, down),
{
    assert forall|w: int| 1 <= w < adj.len() implies list_cost_link(lists, p[w] as int, w, up, down) by {
        let u = p[w] as int;
        assert(cost_link(adj, u, w, up, down));
        let m = choose|m: int|
            0 <= m < adj[u]@.len() && (#[trigger] adj[u]@[m]).0 as int == w && up[w] == up[u] + adj[u]@[m].2
                && down[w] == down[u] + adj[u]@[m].1;
        assert(lists[u] == adj[u]@);
        assert(lists[u][m] == adj[u]@[m]);
    }
}

fn root_tree(adjacency: &Vec<Vec<(usize, i64, i64)>>, parent: &mut Vec<u32>) -> (r: Option<
    (Vec<usize>, Vec<i64>, Vec<i64>),
>)
    requires
        1 <= adjacency@.len() <= u32::MAX,
        cost_adj_ok(adjacency@),
        old(parent)@.len() >= adjacency@.len(),
    ensures
        final(parent)@.len() == old(parent)@.len(),
        r matches Some(t) ==> {
            let n = adjacency@.len() as int;
            &&& rooted_ok(final(parent)@, t.0@, n)
            &&& t.1@.len() == n
            &&& t.2@.len() == n
            &&& t.1@[0] == 0
            &&& t.2@[0] == 0
            &&& forall|v: int| 0 <= v < n ==> (#[trigger] t.0@[v] as int) < n
            &&& forall|v: int|
                1 <= v < n ==> cost_link(adjacency@, final(parent)@[v] as int, v, t.1@, t.2@)
        },
        r is None ==> !reaches_all(adjacency@),
{
    let node_count = adjacency.len();
    let ghost nn = node_count as int;
    let slots = parent.len();
    let mut i: usize = 0;
    let mut up_root_cost: Vec<i64> = Vec::new();
    let mut down_root_cost: Vec<i64> = Vec::new();
    let mut depth: Vec<usize> = Vec::new();
    let mut seen: Vec<bool> = Vec::new();
    while i < node_count
        invariant
            i <= node_count,
            up_root_cost@.len() == i,
            down_root_cost@.len() == i,
            depth@.len() == i,
            seen@.len() == i,
            forall|q: int| 0 <= q < i ==> !(#[trigger] seen@[q]),
            forall|q: int| 0 <= q < i ==> #[trigger] depth@[q] == 0,
            forall|q: int| 0 <= q < i ==> #[trigger] up_root_cost@[q] == 0,
            forall|q: int| 0 <= q < i ==> #[trigger] down_root_cost@[q] == 0,
        decreases node_count - i,
    {
        up_root_cost.push(0);
        down_root_cost.push(0);
        depth.push(0);
        seen.push(false);
        i = i + 1;
    }
    proof {
        lemma_count_false_all_paths(seen@, nn);
        lemma_count_false_update(seen@, 0, nn);
    }
    seen.set(0, true);
    parent.set(0, 0);
    let mut queue: Vec<usize> = Vec::new();
    queue.push(0);
    proof {
        assert(queue@[0] == 0usize);
        assert(queue@.contains(0usize));
    }
    let mut head: usize = 0;
    while head < queue.len()
        invariant
            nn == node_count,
            nn == adjacency@.len(),
            1 <= nn <= u32::MAX,
            cost_adj_ok(adjacency@),
            slots >= nn,
            parent@.len() == slots,
            seen@.len() == nn,
            depth@.len() == nn,
            up_root_cost@.len() == nn,
            down_root_cost@.len() == nn,
            head <= queue@.len(),
            queue@.len() + count_false(seen@, nn) == nn,
            forall|v: int| 0 <= v < nn && #[trigger] seen@[v] ==> queue@.contains(v as usize),
            forall|q: int, m: int|
                0 <= q < head && 0 <= m < adjacency@[queue@[q] as int]@.len() ==> #[trigger] seen@[adjacency@[queue@[q] as int]@[m].0 as int],
            forall|q: int| 0 <= q < queue@.len() ==> (#[trigger] queue@[q] as int) < nn && seen@[
                queue@[q] as int],
            forall|q: int| 0 <= q < queue@.len() ==> depth@[#[trigger] queue@[q] as int] <= q,
            forall|v: int| 0 <= v < nn ==> #[trigger] depth@[v] < queue@.len(),
            forall|v: int| 0 <= v < nn && #[trigger] seen@[v] ==> (parent@[v] as int) < nn,
            seen@[0],
            parent@[0] == 0,
            depth@[0] == 0,
            up_root_cost@[0] == 0,
            down_root_cost@[0] == 0,
            forall|v: int|
                0 < v < nn && #[trigger] seen@[v] ==> cost_link(
                    adjacency@,
                    parent@[v] as int,
                    v,
                    up_root_cost@,
                    down_root_cost@,
                ),
            forall|v: int|
                0 < v < nn && #[trigger] seen@[v] ==> seen@[parent@[v] as int] && depth@[v]
                    == depth@[parent@[v] as int] + 1,
            forall|v: int|
                0 <= v < nn ==> -(#[trigger] depth@[v] as int) * arc_cost_bound()
                    <= up_root_cost@[v] <= (depth@[v] as int) * arc_cost_bound(),
            forall|v: int|
                0 <= v < nn ==> -(#[trigger] depth@[v] as int) * arc_cost_bound()
                    <= down_root_cost@[v] <= (depth@[v] as int) * arc_cost_bound(),
        decreases nn - head,
    {
        proof {
            lemma_count_false_bounds(seen@, nn);
        }
        let node = queue[head];
        head = head + 1;
        let nbrs = &adjacency[node];
        let mut j: usize = 0;
        while j < nbrs.len()
            invariant
                nn == node_count,
                nn == adjacency@.len(),
                1 <= nn <= u32::MAX,
                cost_adj_ok(adjacency@),
                node < nn,
                *nbrs == adjacency@[node as int],
                j <= nbrs@.len(),
                slots >= nn,
                parent@.len() == slots,
                seen@.len() == nn,
                depth@.len() == nn,
                up_root_cost@.len() == nn,
                down_root_cost@.len() == nn,
                1 <= head <= queue@.len(),
                queue@[head - 1] == node,
                queue@.len() + count_false(seen@, nn) == nn,
                forall|v: int| 0 <= v < nn && #[trigger] seen@[v] ==> queue@.contains(v as usize),
                forall|q: int, m: int|
                    0 <= q < head - 1 && 0 <= m < adjacency@[queue@[q] as int]@.len() ==> #[trigger] seen@[adjacency@[queue@[q] as int]@[m].0 as int],
                forall|m: int| 0 <= m < j ==> #[trigger] seen@[nbrs@[m].0 as int],
                forall|q: int| 0 <= q < queue@.len() ==> (#[trigger] queue@[q] as int) < nn
                    && seen@[queue@[q] as int],
                forall|q: int| 0 <= q < queue@.len() ==> depth@[#[trigger] queue@[q] as int] <= q,
                forall|v: int| 0 <= v < nn ==> #[trigger] depth@[v] < queue@.len(),
                forall|v: int| 0 <= v < nn && #[trigger] seen@[v] ==> (parent@[v] as int) < nn,
                seen@[0],
                parent@[0] == 0,
                depth@[0] == 0,
                up_root_cost@[0] == 0,
                down_root_cost@[0] == 0,
                forall|v: int|
                    0 < v < nn && #[trigger] seen@[v] ==> cost_link(
                        adjacency@,
                        parent@[v] as int,
                        v,
                        up_root_cost@,
                        down_root_cost@,
                    ),
                forall|v: int|
                    0 < v < nn && #[trigger] seen@[v] ==> seen@[parent@[v] as int] && depth@[v]
                        == depth@[parent@[v] as int] + 1,
                forall|v: int|
                    0 <= v < nn ==> -(#[trigger] depth@[v] as int) * arc_cost_bound()
                        <= up_root_cost@[v] <= (depth@[v] as int) * arc_cost_bound(),
                forall|v: int|
                    0 <= v < nn ==> -(#[trigger] depth@[v] as int) * arc_cost_bound()
                        <= down_root_cost@[v] <= (depth@[v] as int) * arc_cost_bound(),
            decreases nbrs@.len() - j,
        {
            let (next, forward_cost, reverse_cost) = nbrs[j];
            proof {
                assert(cost_entry_ok(adjacency@[node as int]@[j as int], nn));
            }
            if !seen[next] {
                proof {
                    lemma_count_false_update(seen@, next as int, nn);
                    lemma_count_false_bounds(seen@.update(next as int, true), nn);
                    assert(depth@[queue@[head - 1] as int] <= head - 1);
                    let d = depth@[node as int] as int;
                    assert((d + 1) * arc_cost_bound() == d * arc_cost_bound() + arc_cost_bound());
                    assert(d + 1 <= nn);
                    assert((d + 1) * arc_cost_bound() <= 0x1_0000_0000 * arc_cost_bound()) by (nonlinear_arith)
                        requires
                            d + 1 <= 0x1_0000_0000,
                    ;
                }
                let ghost qlen = queue@.len() as int;
                let ghost seen0 = seen@;
                let ghost parent0 = parent@;
                let ghost depth0 = depth@;
                let ghost up0 = up_root_cost@;
                let ghost down0 = down_root_cost@;
                seen.set(next, true);
                parent.set(next, node as u32);
                let up = up_root_cost[node] + reverse_cost;
                let down = down_root_cost[node] + forward_cost;
                let dn = depth[node] + 1;
                up_root_cost.set(next, up);
                down_root_cost.set(next, down);
                depth.set(next, dn);
                let ghost q0 = queue@;
                queue.push(next);
                proof {
                    broadcast use vstd::seq_lib::lemma_seq_contains_after_push;
                    assert(queue@[qlen] == next);
                    assert forall|v: int| 0 <= v < nn && #[trigger] seen@[v] implies queue@.contains(v as usize) by {
                        if v != next as int {
                            assert(seen0[v]);
                            assert(q0.contains(v as usize));
                        }
                    }
                    assert forall|q: int, m: int|
                        0 <= q < head - 1 && 0 <= m < adjacency@[queue@[q] as int]@.len() implies #[trigger] seen@[adjacency@[queue@[q] as int]@[m].0 as int] by {
                        assert(queue@[q] == q0[q]);
                        assert(seen0[adjacency@[q0[q] as int]@[m].0 as int]);
                    }
                    assert(next != 0);
                    assert forall|v: int|
                        0 < v < nn && #[trigger] seen@[v] implies seen@[parent@[v] as int]
                        && depth@[v] == depth@[parent@[v] as int] + 1 by {
                        if v != next as int {
                            assert(seen0[v]);
                            assert(seen0[parent0[v] as int]);
                            assert(parent0[v] as int != next as int);
                        }
                    }
                    assert forall|v: int|
                        0 < v < nn && #[trigger] seen@[v] implies cost_link(
                        adjacency@,
                        parent@[v] as int,
                        v,
                        up_root_cost@,
                        down_root_cost@,
                    ) by {
                        if v != next as int {
                            assert(seen0[v]);
                            assert(seen0[parent0[v] as int]);
                            let u = parent0[v] as int;
                            assert(cost_link(adjacency@, u, v, up0, down0));
                            let m = choose|m: int|
                                0 <= m < adjacency@[u]@.len() && (#[trigger] adjacency@[u]@[m]).0
                                    as int == v && up0[v] == up0[u] + adjacency@[u]@[m].2
                                    && down0[v] == down0[u] + adjacency@[u]@[m].1;
                            assert(adjacency@[u]@[m].0 as int == v);
                        } else {
                            assert(adjacency@[node as int]@[j as int].0 as int == v);
                        }
                    }
                }
            }
            assert(seen@[nbrs@[j as int].0 as int]);
            j = j + 1;
        }
        proof {
            assert forall|q: int, m: int|
                0 <= q < head && 0 <= m < adjacency@[queue@[q] as int]@.len() implies #[trigger] seen@[adjacency@[queue@[q] as int]@[m].0 as int] by {
                if q == head - 1 {
                    assert(seen@[nbrs@[m].0 as int]);
                }
            }
        }
    }
    let ghost reached = Set::new(|x: int| 0 <= x < nn && seen@[x]);
    proof {
        assert forall|u: int, m: int|
            reached.contains(u) && 0 <= u < adjacency@.len() && 0 <= m < adjacency@[u]@.len() implies #[trigger] reached.contains(
            adjacency@[u]@[m].0 as int,
        ) by {
            assert(queue@.contains(u as usize));
            let q = choose|q: int| 0 <= q < queue@.len() && queue@[q] == u as usize;
            assert(seen@[adjacency@[queue@[q] as int]@[m].0 as int]);
            assert(cost_entry_ok(adjacency@[u]@[m], nn));
        }
        assert(adj_closed(adjacency@, reached));
        assert(reached.contains(0));
    }
    let mut v: usize = 0;
    while v < node_count
        invariant
            v <= node_count,
            seen@.len() == node_count,
            parent@.len() == slots,
            slots == old(parent)@.len(),
            forall|q: int| 0 <= q < v ==> #[trigger] seen@[q],
            nn == node_count,
            nn == adjacency@.len(),
            adj_closed(adjacency@, reached),
            reached.contains(0),
            reached == Set::new(|x: int| 0 <= x < nn && seen@[x]),
        decreases node_count - v,
    {
        if !seen[v] {
            proof {
                assert(!reached.contains(v as int));
            }
            return None;
        }
        v = v + 1;
    }
    proof {
        lemma_count_false_bounds(seen@, nn);
        assert forall|v: int| 0 <= v < nn implies (#[trigger] parent@[v] as int) < nn by {
            assert(seen@[v]);
        }
        assert forall|v: int| 1 <= v < nn implies #[trigger] depth@[v] == depth@[parent@[v] as int] + 1
            by {
            assert(seen@[v]);
        }
        assert forall|v: int| 0 <= v < nn implies (#[trigger] depth@[v] as int) < nn by {
            assert(depth@[v] < queue@.len());
        }
        assert forall|v: int|
            1 <= v < nn implies cost_link(adjacency@, parent@[v] as int, v, up_root_cost@, down_root_cost@)
            by {
            assert(seen@[v]);
        }
    }
    Some((depth, up_root_cost, down_root_cost))
}

/// Fills levels `1..levels` of a flat ancestor table from its first level:
/// the entry of `v` at level `l` is the entry at level `l - 1` of the entry
/// of `v` at level `l - 1`.
pub(crate) fn fill_ancestor_levels(parent: &mut Vec<u32>, levels: usize, node_count: usize)
    requires
        1 <= node_count,
        1 <= levels,
        old(parent)@.len() == levels * node_count,
        forall|u: int| 0 <= u < node_count ==> (#[trigger] old(parent)@[u] as int) < node_count,
    ensures
        final(parent)@.len() == levels * node_count,
        forall|u: int| 0 <= u < node_count ==> #[trigger] final(parent)@[u] == old(parent)@[u],
        forall|q: int|
            0 <= q < final(parent)@.len() ==> (#[trigger] final(parent)@[q] as int) < node_count,
        lifting_ok(final(parent)@, levels as int, node_count as int),
{
    let ghost base = parent@;
    let ghost nn = node_count as int;
    let slots = parent.len();
    proof {
        assert forall|l: int, v: int| 0 <= l < 1 && 0 <= v < nn implies #[trigger] slot(
            parent@,
            nn,
            l,
            v,
        ) == climb(base, v, pow2_int(l) as nat) by {
            assert(pow2_int(0) == 1);
            assert(climb(base, base[v] as int, 0) == base[v] as int);
        }
        assert(1 * nn == nn);
    }
        let mut level: usize = 1;
        while level < levels
            invariant
                1 <= level <= levels,
                slots == levels * node_count,
                parent@.len() == slots,
                nn == node_count,
                1 <= nn,
                base.len() == slots,
                forall|q: int| 0 <= q < level * nn ==> (#[trigger] parent@[q] as int) < nn,
                forall|u: int| 0 <= u < nn ==> #[trigger] parent@[u] == base[u],
                forall|l: int, v: int|
                    0 <= l < level && 0 <= v < nn ==> #[trigger] slot(parent@, nn, l, v) == climb(
                        base,
                        v,
                        pow2_int(l) as nat,
                    ),
            decreases levels - level,
        {
            let mut node: usize = 0;
            while node < node_count
                invariant
                    1 <= level < levels,
                    node <= node_count,
                    slots == levels * node_count,
                    parent@.len() == slots,
                    nn == node_count,
                    1 <= nn,
                    base.len() == slots,
                    forall|q: int| 0 <= q < level * nn + node ==> (#[trigger] parent@[q] as int) < nn,
                    forall|u: int| 0 <= u < nn ==> #[trigger] parent@[u] == base[u],
                    forall|l: int, v: int|
                        0 <= l < level && 0 <= v < nn ==> #[trigger] slot(parent@, nn, l, v) == climb(
                            base,
                            v,
                            pow2_int(l) as nat,
                        ),
                    forall|v: int|
                        0 <= v < node ==> #[trigger] slot(parent@, nn, level as int, v) == climb(
                            base,
                            v,
                            pow2_int(level as int) as nat,
                        ),
                decreases node_count - node,
            {
                proof {
                    lemma_slot(level - 1, levels as int, node as int, nn);
                    lemma_slot(level as int, levels as int, node as int, nn);
                    assert((level - 1) * nn + nn == level * nn) by (nonlinear_arith);
                }
                let prev = (level - 1) * node_count + node;
                let mid = parent[prev] as usize;
                proof {
                    lemma_slot(level - 1, levels as int, mid as int, nn);
                }
                let current = level * node_count + node;
                let prev_mid = (level - 1) * node_count + mid;
                let value = parent[prev_mid];
                let ghost w = pow2_int(level - 1);
                let ghost before = parent@;
                proof {
                    assert(slot(parent@, nn, level - 1, node as int) == climb(base, node as int, w as nat));
                    assert(slot(parent@, nn, level - 1, mid as int) == climb(base, mid as int, w as nat));
                    assert(mid as int == climb(base, node as int, w as nat));
                    assert(value as int == climb(base, climb(base, node as int, w as nat), w as nat));
                    lemma_pow2_int_pos(level - 1);
                    lemma_climb_add(base, node as int, w as nat, w as nat);
                    assert(pow2_int(level as int) == w + w);
                    assert((w as nat + w as nat) as nat == pow2_int(level as int) as nat);
                    assert(climb(base, node as int, pow2_int(level as int) as nat) == value as int);
                }
                parent.set(current, value);
                proof {
                    assert forall|l: int, v: int|
                        0 <= l < level && 0 <= v < nn implies #[trigger] slot(parent@, nn, l, v)
                        == climb(base, v, pow2_int(l) as nat) by {
                        lemma_slot(l, levels as int, v, nn);
                        assert(l * nn + nn <= (level - 1) * nn + nn) by (nonlinear_arith)
                            requires
                                l <= level - 1,
                                0 <= nn,
                        ;
                        assert(slot(before, nn, l, v) == climb(base, v, pow2_int(l) as nat));
                    }
                    assert forall|v: int|
                        0 <= v < node + 1 implies #[trigger] slot(parent@, nn, level as int, v)
                        == climb(base, v, pow2_int(level as int) as nat) by {
                        if v < node {
                            assert(slot(before, nn, level as int, v) == climb(
                                base,
                                v,
                                pow2_int(level as int) as nat,
                            ));
                        } else {
                            assert(current as int == level * nn + node);
                            assert(parent@[current as int] == value);
                            assert(slot(parent@, nn, level as int, v) == value as int);
                        }
                    }
                    assert forall|u: int| 0 <= u < nn implies #[trigger] parent@[u] == base[u] by {
                        assert(before[u] == base[u]);
                    }
                }
                node = node + 1;
            }
            proof {
                assert((level + 1) * nn == level * nn + nn) by (nonlinear_arith);
            }
            level = level + 1;
        }
    proof {
        assert forall|u: int| 0 <= u < nn implies (#[trigger] parent@[u] as int) < nn
            && parent@[u] == base[u] by {
            assert(parent@[u] == base[u]);
            assert((base[u] as int) < nn);
        }
        assert(levels * nn >= nn) by (nonlinear_arith)
            requires
                levels >= 1,
                nn >= 0,
        ;
        assert forall|l: int, v: int|
            0 <= l < levels && 0 <= v < nn implies #[trigger] slot(parent@, nn, l, v) == climb(
            parent@,
            v,
            pow2_int(l) as nat,
        ) by {
            lemma_climb_frame(parent@, base, nn, v, pow2_int(l) as nat);
        }
    }
}

/// `v` hangs below `u` by an adjacency entry of `u` whose costs are the steps
/// of the root costs: `up[v]` adds the entry's reverse cost to `up[u]`, and
/// `down[v]` its forward cost to `down[u]`.
pub open spec fn cost_link(
    adj: Seq<Vec<(usize, i64, i64)>>,
    u: int,
    v: int,
    up: Seq<i64>,
    down: Seq<i64>,
) -> bool {
    exists|m: int|
        0 <= m < adj[u]@.len() && (#[trigger] adj[u]@[m]).0 as int == v && up[v] == up[u]
            + adj[u]@[m].2 && down[v] == down[u] + adj[u]@[m].1
}

/// Where arc `t` of the view is present, both its ends are dual nodes.
pub open spec fn view_arc_in_nodes(view: &CompactResidualView<'_>, t: int) -> bool {
    view.arc_at(t) matches Some(a) ==> (a.from as int) < dual_node_count(
        view.nrow as int,
        view.ncol as int,
    ) && (a.to as int) < dual_node_count(view.nrow as int, view.ncol as int)
}

/// A tree arc index that `TreePathCosts::new_compact` accepts: the view has
/// an arc there and at its pair partner, and they run opposite ways.
pub open spec fn view_tree_pair_ok(view: &CompactResidualView<'_>, t: int) -> bool {
    &&& view.arc_at(t) is Some
    &&& view.arc_at(partner(t)) is Some
    &&& view.arc_at(partner(t))->0.from == view.arc_at(t)->0.to
    &&& view.arc_at(partner(t))->0.to == view.arc_at(t)->0.from
}

/// A tree arc index that `TreePathCosts::new` accepts: it names an arc inside
/// `0..n` whose pair partner runs the other way.
pub open spec fn tree_arc_pair_ok(arcs: Seq<ResidualArc>, t: int, n: int) -> bool {
    &&& 0 <= t < arcs.len()
    &&& 0 <= partner(t) < arcs.len()
    &&& (arcs[t].from as int) < n
    &&& (arcs[t].to as int) < n
    &&& arcs[partner(t)].from == arcs[t].to
    &&& arcs[partner(t)].to == arcs[t].from
}

pub(crate) proof fn lemma_count_false_all_paths(s: Seq<bool>, k: int)
    requires
        0 <= k <= s.len(),
        forall|j: int| 0 <= j < k ==> !(#[trigger] s[j]),
    ensures
        count_false(s, k) == k,
    decreases k,
{
    if k > 0 {
        lemma_count_false_all_paths(s, k - 1);
    }
}

} // verus!
