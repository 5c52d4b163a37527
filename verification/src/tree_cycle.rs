//! Spanning trees of the residual graph and the fundamental cycles they close:
//! a union-find forest, the tree itself, and the search for a negative cycle
//! made of one non-tree arc and the tree path back to its source.
use vstd::prelude::*;
use crate::edges::EdgeDatum;
use crate::flow_schedule::dual_node_count;
use crate::residual::{
    apply_residual_cycle, build_unit_residual_arcs, cycle_cost_spec, edges_arc_in_range,
    edges_headroom_in_range, grid_ok, is_closed_walk, lemma_apply_valid_cycle, lemma_slots_trans,
    residual_arcs_spec, residual_cycle_cost_wide, residues_equal, same_slots, ResidualArc,
};
use crate::tree_path::TreePathCosts;
use crate::components::{count_false, lemma_count_false_bounds, lemma_count_false_update};

verus! {

/// A node whose parent is itself.
pub open spec fn is_root(parent: Seq<usize>, i: int) -> bool {
    parent[i] as int == i
}

/// Number of roots among the first `k` nodes.
pub open spec fn roots_below(parent: Seq<usize>, k: int) -> int
    decreases k,
{
    if k <= 0 {
        0
    } else {
        roots_below(parent, k - 1) + (if is_root(parent, k - 1) { 1int } else { 0 })
    }
}

/// Parent links stay in range and climb strictly in rank.
pub open spec fn parent_step_ok(parent: Seq<usize>, rank: Seq<usize>, i: int) -> bool {
    &&& (parent[i] as int) < parent.len()
    &&& !is_root(parent, i) ==> rank[i] < rank[parent[i] as int]
}

/// A forest of parent links along which rank strictly grows.
pub open spec fn chain_ok(parent: Seq<usize>, rank: Seq<usize>) -> bool {
    &&& rank.len() == parent.len()
    &&& forall|i: int| 0 <= i < parent.len() ==> #[trigger] parent_step_ok(parent, rank, i)
}

/// The root reached from `i` by following parent links.
pub open spec fn root_of(parent: Seq<usize>, rank: Seq<usize>, i: int) -> int
    decreases usize::MAX - rank[i],
    when chain_ok(parent, rank) && 0 <= i < parent.len()
{
    if is_root(parent, i) {
        i
    } else {
        proof {
            assert(parent_step_ok(parent, rank, i));
        }
        root_of(parent, rank, parent[i] as int)
    }
}

/// The root of `i` is a root, in range, and `i` itself or of higher rank.
pub proof fn lemma_root_of(parent: Seq<usize>, rank: Seq<usize>, i: int)
    requires
        chain_ok(parent, rank),
        0 <= i < parent.len(),
    ensures
        0 <= root_of(parent, rank, i) < parent.len(),
        is_root(parent, root_of(parent, rank, i)),
        root_of(parent, rank, i) == i || rank[i] < rank[root_of(parent, rank, i)],
        is_root(parent, i) ==> root_of(parent, rank, i) == i,
    decreases usize::MAX - rank[i],
{
    assert(parent_step_ok(parent, rank, i));
    if !is_root(parent, i) {
        lemma_root_of(parent, rank, parent[i] as int);
    }
}

proof fn lemma_roots_below_bounds(parent: Seq<usize>, k: int)
    requires
        0 <= k,
    ensures
        0 <= roots_below(parent, k) <= k,
    decreases k,
{
    if k > 0 {
        lemma_roots_below_bounds(parent, k - 1);
    }
}

proof fn lemma_roots_below_update(parent: Seq<usize>, x: int, val: usize, k: int)
    requires
        0 <= x < parent.len(),
        0 <= k <= parent.len(),
    ensures
        roots_below(parent.update(x, val), k) == roots_below(parent, k) - (if x < k && is_root(
            parent,
            x,
        ) {
            1int
        } else {
            0
        }) + (if x < k && val as int == x {
            1int
        } else {
            0
        }),
    decreases k,
{
    if k > 0 {
        lemma_roots_below_update(parent, x, val, k - 1);
    }
}

proof fn lemma_two_roots(parent: Seq<usize>, a: int, b: int, k: int)
    requires
        0 <= a < k,
        0 <= b < k,
        a != b,
        k <= parent.len(),
        is_root(parent, a),
        is_root(parent, b),
    ensures
        roots_below(parent, k) >= 2,
    decreases k,
{
    if a == k - 1 || b == k - 1 {
        let other = if a == k - 1 { b } else { a };
        lemma_one_root(parent, other, k - 1);
    } else {
        lemma_two_roots(parent, a, b, k - 1);
    }
}

proof fn lemma_one_root(parent: Seq<usize>, a: int, k: int)
    requires
        0 <= a < k,
        k <= parent.len(),
        is_root(parent, a),
    ensures
        roots_below(parent, k) >= 1,
    decreases k,
{
    if a < k - 1 {
        lemma_one_root(parent, a, k - 1);
    } else {
        lemma_roots_below_bounds(parent, k - 1);
    }
}

proof fn lemma_all_roots(parent: Seq<usize>, k: int)
    requires
        0 <= k <= parent.len(),
        forall|j: int| 0 <= j < k ==> #[trigger] parent[j] as int == j,
    ensures
        roots_below(parent, k) == k,
    decreases k,
{
    if k > 0 {
        lemma_all_roots(parent, k - 1);
    }
}

/// Pointing a non-root straight at its root keeps every node's root.
proof fn lemma_compress(parent: Seq<usize>, rank: Seq<usize>, x: int, j: int)
    requires
        chain_ok(parent, rank),
        0 <= x < parent.len(),
        !is_root(parent, x),
        0 <= j < parent.len(),
        chain_ok(parent.update(x, root_of(parent, rank, x) as usize), rank),
    ensures
        root_of(parent.update(x, root_of(parent, rank, x) as usize), rank, j) == root_of(
            parent,
            rank,
            j,
        ),
    decreases usize::MAX - rank[j],
{
    let p2 = parent.update(x, root_of(parent, rank, x) as usize);
    lemma_root_of(parent, rank, x);
    assert(parent_step_ok(parent, rank, j));
    assert(parent_step_ok(p2, rank, j));
    if j == x {
        let r = root_of(parent, rank, x);
        assert(r != x);
        assert(is_root(p2, r));
        assert(root_of(p2, rank, r) == r);
        assert(root_of(p2, rank, x) == root_of(p2, rank, r));
    } else if !is_root(parent, j) {
        lemma_compress(parent, rank, x, parent[j] as int);
    }
}

/// Linking root `l` under root `w` sends the members of `l` to `w` and leaves
/// every other node's root alone.
proof fn lemma_link(
    parent: Seq<usize>,
    rank: Seq<usize>,
    p2: Seq<usize>,
    r2: Seq<usize>,
    w: int,
    l: int,
    j: int,
)
    requires
        chain_ok(parent, rank),
        chain_ok(p2, r2),
        0 <= w < parent.len(),
        0 <= l < parent.len(),
        w != l,
        is_root(parent, w),
        is_root(parent, l),
        p2 == parent.update(l, w as usize),
        0 <= j < parent.len(),
    ensures
        root_of(p2, r2, j) == if root_of(parent, rank, j) == l {
            w
        } else {
            root_of(parent, rank, j)
        },
    decreases usize::MAX - r2[j],
{
    assert(parent_step_ok(parent, rank, j));
    assert(parent_step_ok(p2, r2, j));
    lemma_root_of(parent, rank, j);
    if j == l {
        assert(is_root(p2, w));
        assert(root_of(p2, r2, w) == w);
    } else if !is_root(parent, j) {
        lemma_link(parent, rank, p2, r2, w, l, parent[j] as int);
    }
}

/// Union-find over `parent.len()` nodes with union by rank and path
/// compression. `unions` counts the successful unions; every rank is at most
/// that count, so a rank never outgrows the node count.
pub struct DisjointSet {
    pub parent: Vec<usize>,
    pub rank: Vec<usize>,
    pub unions: Ghost<nat>,
}

impl DisjointSet {
    pub open spec fn wf(&self) -> bool {
        let n = self.parent@.len();
        &&& chain_ok(self.parent@, self.rank@)
        &&& forall|i: int| 0 <= i < n ==> #[trigger] self.rank@[i] <= self.unions@
        &&& self.unions@ + roots_below(self.parent@, n as int) == n
    }

    /// Root of `i` in this forest.
    pub open spec fn root(&self, i: int) -> int {
        root_of(self.parent@, self.rank@, i)
    }

    /// `count` singleton sets.
    pub fn new(count: usize) -> (r: Self)
        ensures
            r.wf(),
            r.parent@.len() == count,
            forall|j: int| 0 <= j < count ==> #[trigger] r.root(j) == j,
    {
        let mut parent: Vec<usize> = Vec::new();
        let mut rank: Vec<usize> = Vec::new();
        let mut i: usize = 0;
        while i < count
            invariant
                i <= count,
                parent@.len() == i,
                rank@.len() == i,
                forall|j: int| 0 <= j < i ==> #[trigger] parent@[j] as int == j,
                forall|j: int| 0 <= j < i ==> #[trigger] rank@[j] == 0,
            decreases count - i,
        {
            parent.push(i);
            rank.push(0);
            i = i + 1;
        }
        let r = DisjointSet { parent, rank, unions: Ghost(0) };
        proof {
            lemma_all_roots(r.parent@, count as int);
            assert forall|j: int| 0 <= j < count implies #[trigger] parent_step_ok(
                r.parent@,
                r.rank@,
                j,
            ) by {
                assert(r.parent@[j] as int == j);
            }
            assert forall|j: int| 0 <= j < count implies #[trigger] r.root(j) == j by {
                assert(is_root(r.parent@, j));
            }
        }
        r
    }

    /// Root of `node`, pointing every node on the way straight at it.
    pub fn find(&mut self, node: usize) -> (r: usize)
        requires
            old(self).wf(),
            node < old(self).parent@.len(),
        ensures
            final(self).wf(),
            final(self).parent@.len() == old(self).parent@.len(),
            final(self).rank@ == old(self).rank@,
            final(self).unions@ == old(self).unions@,
            r == old(self).root(node as int),
            forall|j: int|
                0 <= j < old(self).parent@.len() ==> #[trigger] final(self).root(j) == old(
                    self,
                ).root(j),
        decreases usize::MAX - old(self).rank@[node as int],
    {
        let ghost s0 = *self;
        let ghost p0 = self.parent@;
        let ghost r0 = self.rank@;
        let p = self.parent[node];
        proof {
            assert(parent_step_ok(p0, r0, node as int));
            lemma_root_of(p0, r0, node as int);
        }
        if p != node {
            let root = self.find(p);
            let ghost sm = *self;
            let ghost pm = self.parent@;
            proof {
                assert(sm.root(node as int) == s0.root(node as int));
                assert(s0.root(node as int) == s0.root(p as int));
                lemma_root_of(pm, r0, node as int);
                assert(!is_root(pm, node as int));
                let p2 = pm.update(node as int, root);
                assert forall|i: int| 0 <= i < p2.len() implies #[trigger] parent_step_ok(
                    p2,
                    r0,
                    i,
                ) by {
                    assert(parent_step_ok(pm, r0, i));
                }
                assert forall|j: int| 0 <= j < p0.len() implies #[trigger] root_of(p2, r0, j)
                    == root_of(p0, r0, j) by {
                    lemma_compress(pm, r0, node as int, j);
                    assert(sm.root(j) == s0.root(j));
                }
                lemma_roots_below_update(pm, node as int, root, pm.len() as int);
            }
            self.parent.set(node, root);
        }
        self.parent[node]
    }

    /// Joins the sets of `left` and `right`; false when they were one set.
    /// The root of higher rank (the left one on a tie) becomes the root of the
    /// union.
    pub fn union(&mut self, left: usize, right: usize) -> (merged: bool)
        requires
            old(self).wf(),
            left < old(self).parent@.len(),
            right < old(self).parent@.len(),
        ensures
            final(self).wf(),
            final(self).parent@.len() == old(self).parent@.len(),
            merged == (old(self).root(left as int) != old(self).root(right as int)),
            forall|j: int|
                0 <= j < old(self).parent@.len() ==> #[trigger] final(self).root(j) == ({
                    let rl = old(self).root(left as int);
                    let rr = old(self).root(right as int);
                    let keep = if old(self).rank@[rl] < old(self).rank@[rr] {
                        rr
                    } else {
                        rl
                    };
                    if merged && (old(self).root(j) == rl || old(self).root(j) == rr) {
                        keep
                    } else {
                        old(self).root(j)
                    }
                }),
    {
        let ghost s0 = *self;
        let mut root_left = self.find(left);
        let ghost s1 = *self;
        let mut root_right = self.find(right);
        proof {
            lemma_root_of(s0.parent@, s0.rank@, left as int);
            lemma_root_of(s0.parent@, s0.rank@, right as int);
            lemma_root_of(s0.parent@, s0.rank@, root_left as int);
            lemma_root_of(s0.parent@, s0.rank@, root_right as int);
            assert(self.root(root_left as int) == s1.root(root_left as int));
            assert(s1.root(root_left as int) == s0.root(root_left as int));
            assert(self.root(root_right as int) == s1.root(root_right as int));
            assert(s1.root(root_right as int) == s0.root(root_right as int));
        }
        let ghost s2 = *self;
        proof {
            assert forall|j: int| 0 <= j < s0.parent@.len() implies #[trigger] s2.root(j)
                == s0.root(j) by {
                assert(self.root(j) == s1.root(j));
            }
        }
        if root_left == root_right {
            return false;
        }
        if self.rank[root_left] < self.rank[root_right] {
            let t = root_left;
            root_left = root_right;
            root_right = t;
        }
        let ghost pm = self.parent@;
        let ghost rm = self.rank@;
        let n = self.parent.len();
        proof {
            lemma_root_of(s0.parent@, s0.rank@, left as int);
            lemma_root_of(s0.parent@, s0.rank@, right as int);
            lemma_root_of(pm, rm, root_left as int);
            lemma_root_of(pm, rm, root_right as int);
            lemma_two_roots(pm, root_left as int, root_right as int, n as int);
        }
        self.parent.set(root_right, root_left);
        if self.rank[root_left] == self.rank[root_right] {
            let bumped = self.rank[root_left] + 1;
            self.rank.set(root_left, bumped);
        }
        proof {
            self.unions@ = self.unions@ + 1;
            let p2 = self.parent@;
            let r2 = self.rank@;
            assert forall|i: int| 0 <= i < p2.len() implies #[trigger] parent_step_ok(
                p2,
                r2,
                i,
            ) by {
                assert(parent_step_ok(pm, rm, i));
            }
            lemma_roots_below_update(pm, root_right as int, root_left, n as int);
            assert forall|j: int| 0 <= j < n implies #[trigger] root_of(p2, r2, j) == (if root_of(
                pm,
                rm,
                j,
            ) == root_right as int {
                root_left as int
            } else {
                root_of(pm, rm, j)
            }) by {
                lemma_link(pm, rm, p2, r2, root_left as int, root_right as int, j);
            }
            assert forall|j: int| 0 <= j < n implies #[trigger] self.root(j) == ({
                let rl = s0.root(left as int);
                let rr = s0.root(right as int);
                let keep = if s0.rank@[rl] < s0.rank@[rr] {
                    rr
                } else {
                    rl
                };
                if s0.root(j) == rl || s0.root(j) == rr {
                    keep
                } else {
                    s0.root(j)
                }
            }) by {
                assert(s2.root(j) == s0.root(j));
                assert(root_of(pm, rm, j) == s2.root(j));
            }
        }
        true
    }
}

/// An arc between two distinct nodes of `0..n`.
pub open spec fn arc_joins(a: ResidualArc, n: int) -> bool {
    &&& (a.from as int) < n
    &&& (a.to as int) < n
    &&& a.from != a.to
}

/// Labels after merging the class of `b` into the class of `a`.
pub open spec fn merge_labels(c: Seq<int>, a: int, b: int) -> Seq<int> {
    Seq::new(c.len(), |j: int| if c[j] == c[b] { c[a] } else { c[j] })
}

/// Class labels of the nodes and the arcs kept after scanning the first `k`
/// arcs in order: an arc is kept when it joins two nodes of different classes,
/// until `n - 1` arcs are kept.
pub open spec fn greedy_forest(arcs: Seq<ResidualArc>, n: int, k: int) -> (Seq<int>, Seq<usize>)
    decreases k,
{
    if k <= 0 {
        (Seq::new(n as nat, |j: int| j), Seq::empty())
    } else {
        let prev = greedy_forest(arcs, n, k - 1);
        let a = arcs[k - 1];
        if prev.1.len() + 1 == n {
            prev
        } else if arc_joins(a, n) && prev.0[a.from as int] != prev.0[a.to as int] {
            (merge_labels(prev.0, a.from as int, a.to as int), prev.1.push((k - 1) as usize))
        } else {
            prev
        }
    }
}

proof fn lemma_greedy_len(arcs: Seq<ResidualArc>, n: int, k: int)
    requires
        0 <= n,
    ensures
        greedy_forest(arcs, n, k).0.len() == n,
    decreases k,
{
    if k > 0 {
        lemma_greedy_len(arcs, n, k - 1);
    }
}

proof fn lemma_greedy_stopped(arcs: Seq<ResidualArc>, n: int, k: int, k2: int)
    requires
        0 <= k <= k2,
        greedy_forest(arcs, n, k).1.len() + 1 == n,
    ensures
        greedy_forest(arcs, n, k2) == greedy_forest(arcs, n, k),
    decreases k2,
{
    if k2 > k {
        lemma_greedy_stopped(arcs, n, k, k2 - 1);
    }
}

/// `j` and `k` share a root exactly when they share a label.
pub open spec fn same_class(d: DisjointSet, c: Seq<int>, j: int, k: int) -> bool {
    (d.root(j) == d.root(k)) == (c[j] == c[k])
}

pub open spec fn partition_matches(d: DisjointSet, c: Seq<int>, n: int) -> bool {
    forall|j: int, k: int| 0 <= j < n && 0 <= k < n ==> #[trigger] same_class(d, c, j, k)
}

/// Indices of a spanning forest of the arcs that join distinct nodes of
/// `0..node_count`, kept greedily in index order and stopping once
/// `node_count - 1` arcs are kept.
pub fn spanning_tree_arc_indices(arcs: &[ResidualArc], node_count: usize) -> (r: Vec<usize>)
    ensures
        r@ == greedy_forest(arcs@, node_count as int, arcs@.len() as int).1,
{
    let mut dsu = DisjointSet::new(node_count);
    let mut tree: Vec<usize> = Vec::new();
    let mut index: usize = 0;
    let mut done = false;
    let n = arcs.len();
    let ghost nn = node_count as int;
    proof {
        lemma_greedy_len(arcs@, nn, 0);
        let c0 = greedy_forest(arcs@, nn, 0).0;
        assert forall|j: int, k: int| 0 <= j < nn && 0 <= k < nn implies #[trigger] same_class(
            dsu,
            c0,
            j,
            k,
        ) by {
            assert(dsu.root(j) == j);
            assert(dsu.root(k) == k);
        }
    }
    while index < n && !done
        invariant
            index <= n,
            n == arcs@.len(),
            nn == node_count,
            dsu.wf(),
            dsu.parent@.len() == node_count,
            done ==> tree@.len() + 1 == nn,
            tree@.len() + 1 == nn ==> (done || nn <= 1),
            tree@ == greedy_forest(arcs@, nn, index as int).1,
            partition_matches(dsu, greedy_forest(arcs@, nn, index as int).0, nn),
        decreases n - index,
    {
        let arc = arcs[index];
        let ghost c = greedy_forest(arcs@, nn, index as int).0;
        let ghost d0 = dsu;
        proof {
            lemma_greedy_len(arcs@, nn, index as int);
            lemma_greedy_len(arcs@, nn, index + 1);
        }
        if arc.from >= node_count || arc.to >= node_count || arc.from == arc.to {
            index = index + 1;
        } else {
            let merged = dsu.union(arc.from, arc.to);
            proof {
                assert(same_class(d0, c, arc.from as int, arc.to as int));
                let c2 = merge_labels(c, arc.from as int, arc.to as int);
                if merged {
                    assert forall|j: int, k: int| 0 <= j < nn && 0 <= k < nn implies #[trigger] same_class(
                        dsu,
                        c2,
                        j,
                        k,
                    ) by {
                        assert(same_class(d0, c, j, k));
                        assert(same_class(d0, c, j, arc.from as int));
                        assert(same_class(d0, c, j, arc.to as int));
                        assert(same_class(d0, c, k, arc.from as int));
                        assert(same_class(d0, c, k, arc.to as int));
                        lemma_root_of(d0.parent@, d0.rank@, arc.from as int);
                        lemma_root_of(d0.parent@, d0.rank@, arc.to as int);
                    }
                } else {
                    assert forall|j: int, k: int| 0 <= j < nn && 0 <= k < nn implies #[trigger] same_class(
                        dsu,
                        c,
                        j,
                        k,
                    ) by {
                        assert(same_class(d0, c, j, k));
                    }
                }
            }
            if merged {
                tree.push(index);
                if node_count >= 1 && tree.len() == node_count - 1 {
                    done = true;
                }
            }
            index = index + 1;
        }
    }
    proof {
        if done {
            lemma_greedy_stopped(arcs@, nn, index as int, n as int);
        }
    }
    tree
}

/// Whether two arcs move the same edge.
pub fn same_primal_edge(left: ResidualArc, right: ResidualArc) -> (r: bool)
    ensures
        r == (left.is_horizontal == right.is_horizontal && left.edge_index == right.edge_index),
{
    left.is_horizontal == right.is_horizontal && left.edge_index == right.edge_index
}

/// `b` undoes `a`: opposite direction and correction on the same edge.
pub open spec fn is_reverse_of(b: ResidualArc, a: ResidualArc) -> bool {
    &&& b.from == a.to
    &&& b.to == a.from
    &&& b.correction_delta as int == -(a.correction_delta as int)
    &&& b.is_horizontal == a.is_horizontal
    &&& b.edge_index == a.edge_index
}

/// Position of the first arc at or after `q` that undoes arc `index`.
pub open spec fn first_undoing(arcs: Seq<ResidualArc>, index: int, q: int) -> Option<int>
    decreases arcs.len() - q,
{
    if q < 0 || q >= arcs.len() {
        None
    } else if is_reverse_of(arcs[q], arcs[index]) {
        Some(q)
    } else {
        first_undoing(arcs, index, q + 1)
    }
}

/// Position of the first arc that undoes arc `index`.
pub fn reverse_arc_index(arcs: &[ResidualArc], index: usize) -> (r: Option<usize>)
    ensures
        match r {
            Some(p) => {
                &&& index < arcs@.len()
                &&& p < arcs@.len()
                &&& is_reverse_of(arcs@[p as int], arcs@[index as int])
                &&& forall|q: int| 0 <= q < p ==> !is_reverse_of(
                    #[trigger] arcs@[q],
                    arcs@[index as int],
                )
            },
            None => index >= arcs@.len() || forall|q: int|
                0 <= q < arcs@.len() ==> !is_reverse_of(#[trigger] arcs@[q], arcs@[index as int]),
        },
        index < arcs@.len() ==> r == (match first_undoing(arcs@, index as int, 0) {
            Some(p) => Some(p as usize),
            None => None,
        }),
{
    if index >= arcs.len() {
        return None;
    }
    let arc = arcs[index];
    let mut q: usize = 0;
    while q < arcs.len()
        invariant
            q <= arcs@.len(),
            index < arcs@.len(),
            arc == arcs@[index as int],
            forall|t: int| 0 <= t < q ==> !is_reverse_of(#[trigger] arcs@[t], arc),
            first_undoing(arcs@, index as int, 0) == first_undoing(arcs@, index as int, q as int),
        decreases arcs@.len() - q,
    {
        let candidate = arcs[q];
        if candidate.from == arc.to && candidate.to == arc.from && candidate.correction_delta as i64
            == -(arc.correction_delta as i64) && same_primal_edge(candidate, arc) {
            return Some(q);
        }
        q = q + 1;
    }
    None
}

/// Entry `(next, arc)` of node `u`'s list: arc `arc` runs from `u` to `next`.
pub open spec fn adj_entry_ok(arcs: Seq<ResidualArc>, u: int, e: (usize, usize), n: int) -> bool {
    &&& (e.1 as int) < arcs.len()
    &&& arcs[e.1 as int].from as int == u
    &&& arcs[e.1 as int].to == e.0
    &&& (e.0 as int) < n
}

/// One list per node, every entry an arc leaving that node.
pub open spec fn adj_sound(arcs: Seq<ResidualArc>, adj: Seq<Vec<(usize, usize)>>, n: int) -> bool {
    &&& adj.len() == n
    &&& forall|u: int, m: int|
        0 <= u < n && 0 <= m < adj[u]@.len() ==> adj_entry_ok(arcs, u, #[trigger] adj[u]@[m], n)
}

/// A tree arc index that names an arc inside `0..n`.
pub open spec fn tree_arc_in(arcs: Seq<ResidualArc>, t: int, n: int) -> bool {
    &&& 0 <= t < arcs.len()
    &&& (arcs[t].from as int) < n
    &&& (arcs[t].to as int) < n
}

/// Node `u`'s adjacency list after the first `k` tree arcs: each tree arc
/// inside `0..n` adds itself to its source's list and then, where one
/// exists, the first arc undoing it to its target's list.
pub open spec fn adj_list(arcs: Seq<ResidualArc>, n: int, tree: Seq<usize>, k: int, u: int) -> Seq<(usize, usize)>
    decreases k,
{
    if k <= 0 {
        Seq::empty()
    } else {
        let prev = adj_list(arcs, n, tree, k - 1, u);
        let t = tree[k - 1];
        if !tree_arc_in(arcs, t as int, n) {
            prev
        } else {
            let a = arcs[t as int];
            let with_arc = if a.from as int == u {
                prev.push((a.to, t))
            } else {
                prev
            };
            match first_undoing(arcs, t as int, 0) {
                Some(r) => if a.to as int == u {
                    with_arc.push((a.from, r as usize))
                } else {
                    with_arc
                },
                None => with_arc,
            }
        }
    }
}

/// Adjacency lists of the tree: for each tree arc inside `0..n`, the arc at its
/// source and, where one exists, the first arc undoing it at its target.
pub fn tree_adjacency(arcs: &[ResidualArc], node_count: usize, tree_arc_indices: &[usize]) -> (r:
    Vec<Vec<(usize, usize)>>)
    ensures
        adj_sound(arcs@, r@, node_count as int),
        forall|u: int|
            0 <= u < node_count ==> (#[trigger] r@[u])@ == adj_list(
                arcs@,
                node_count as int,
                tree_arc_indices@,
                tree_arc_indices@.len() as int,
                u,
            ),
        forall|k: int|
            0 <= k < tree_arc_indices@.len() && tree_arc_in(
                arcs@,
                #[trigger] tree_arc_indices@[k] as int,
                node_count as int,
            ) ==> r@[arcs@[tree_arc_indices@[k] as int].from as int]@.contains(
                (arcs@[tree_arc_indices@[k] as int].to, tree_arc_indices@[k]),
            ),
{
    let mut adjacency: Vec<Vec<(usize, usize)>> = Vec::new();
    let mut i: usize = 0;
    while i < node_count
        invariant
            i <= node_count,
            adjacency@.len() == i,
            forall|u: int| 0 <= u < i ==> (#[trigger] adjacency@[u])@.len() == 0,
        decreases node_count - i,
    {
        adjacency.push(Vec::new());
        i = i + 1;
    }
    let ghost nn = node_count as int;
    let mut k: usize = 0;
    while k < tree_arc_indices.len()
        invariant
            k <= tree_arc_indices@.len(),
            nn == node_count,
            adj_sound(arcs@, adjacency@, nn),
            forall|u: int|
                0 <= u < nn ==> (#[trigger] adjacency@[u])@ == adj_list(arcs@, nn, tree_arc_indices@, k as int, u),
            forall|q: int|
                0 <= q < k && tree_arc_in(arcs@, #[trigger] tree_arc_indices@[q] as int, nn)
                    ==> adjacency@[arcs@[tree_arc_indices@[q] as int].from as int]@.contains(
                    (arcs@[tree_arc_indices@[q] as int].to, tree_arc_indices@[q]),
                ),
        decreases tree_arc_indices@.len() - k,
    {
        let index = tree_arc_indices[k];
        let ghost st = adjacency@;
        let ghost mut mid = adjacency@;
        if index < arcs.len() {
            let arc = arcs[index];
            if arc.from < node_count && arc.to < node_count {
                let ghost a0 = adjacency@;
                adjacency[arc.from].push((arc.to, index));
                let ghost a1 = adjacency@;
                proof {
                    mid = a1;
                    assert(a1[arc.from as int]@ == a0[arc.from as int]@.push((arc.to, index)));
                    assert forall|u: int, m: int|
                        0 <= u < nn && 0 <= m < a1[u]@.len() implies adj_entry_ok(
                        arcs@,
                        u,
                        #[trigger] a1[u]@[m],
                        nn,
                    ) by {
                        if u != arc.from as int || m < a0[u]@.len() {
                            assert(a1[u]@[m] == a0[u]@[m]);
                        }
                    }
                    assert forall|q: int|
                        0 <= q < k + 1 && tree_arc_in(arcs@, #[trigger] tree_arc_indices@[q] as int, nn)
                            implies a1[arcs@[tree_arc_indices@[q] as int].from as int]@.contains(
                        (arcs@[tree_arc_indices@[q] as int].to, tree_arc_indices@[q]),
                    ) by {
                        let u = arcs@[tree_arc_indices@[q] as int].from as int;
                        let e = (arcs@[tree_arc_indices@[q] as int].to, tree_arc_indices@[q]);
                        if q == k {
                            assert(a1[u]@[a0[u]@.len() as int] == e);
                        } else {
                            let m = choose|m: int| 0 <= m < a0[u]@.len() && a0[u]@[m] == e;
                            assert(a1[u]@[m] == e);
                        }
                    }
                }
                match reverse_arc_index(arcs, index) {
                    Some(reverse) => {
                        let ghost b0 = adjacency@;
                        adjacency[arc.to].push((arc.from, reverse));
                        let ghost b1 = adjacency@;
                        proof {
                            assert(b1[arc.to as int]@ == b0[arc.to as int]@.push((arc.from, reverse)));
                            assert forall|u: int, m: int|
                                0 <= u < nn && 0 <= m < b1[u]@.len() implies adj_entry_ok(
                                arcs@,
                                u,
                                #[trigger] b1[u]@[m],
                                nn,
                            ) by {
                                if u != arc.to as int || m < b0[u]@.len() {
                                    assert(b1[u]@[m] == b0[u]@[m]);
                                }
                            }
                            assert forall|q: int|
                                0 <= q < k + 1 && tree_arc_in(arcs@, #[trigger] tree_arc_indices@[q] as int, nn)
                                    implies b1[arcs@[tree_arc_indices@[q] as int].from as int]@.contains(
                                (arcs@[tree_arc_indices@[q] as int].to, tree_arc_indices@[q]),
                            ) by {
                                let u = arcs@[tree_arc_indices@[q] as int].from as int;
                                let e = (arcs@[tree_arc_indices@[q] as int].to, tree_arc_indices@[q]);
                                let m = choose|m: int| 0 <= m < b0[u]@.len() && b0[u]@[m] == e;
                                assert(b1[u]@[m] == e);
                            }
                        }
                    },
                    None => {},
                }
            }
        }
        proof {
            assert forall|u: int| 0 <= u < nn implies (#[trigger] adjacency@[u])@ == adj_list(
                arcs@,
                nn,
                tree_arc_indices@,
                k + 1,
                u,
            ) by {
                assert(st[u]@ == adj_list(arcs@, nn, tree_arc_indices@, k as int, u));
                if tree_arc_in(arcs@, index as int, nn) {
                    let a = arcs@[index as int];
                    assert(mid[u]@ == if a.from as int == u {
                        st[u]@.push((a.to, index))
                    } else {
                        st[u]@
                    });
                }
            }
        }
        k = k + 1;
    }
    adjacency
}

proof fn lemma_count_false_all(s: Seq<bool>, k: int)
    requires
        0 <= k <= s.len(),
        forall|j: int| 0 <= j < k ==> !(#[trigger] s[j]),
    ensures
        count_false(s, k) == k,
    decreases k,
{
    if k > 0 {
        lemma_count_false_all(s, k - 1);
    }
}

/// The search link of a reached node `v` other than the start: the arc by
/// which it was reached, from a node reached earlier.
pub open spec fn link_ok(
    arcs: Seq<ResidualArc>,
    seen: Seq<bool>,
    prev_node: Seq<usize>,
    prev_arc: Seq<usize>,
    disc: Seq<int>,
    v: int,
) -> bool {
    &&& (prev_arc[v] as int) < arcs.len()
    &&& arcs[prev_arc[v] as int].from == prev_node[v]
    &&& arcs[prev_arc[v] as int].to as int == v
    &&& (prev_node[v] as int) < seen.len()
    &&& seen[prev_node[v] as int]
    &&& disc[prev_node[v] as int] < disc[v]
}

/// `s` is closed under the lists `lists`: every neighbour of a node of `s`
/// is in `s`.
pub open spec fn walk_closed(lists: Seq<Seq<(usize, usize)>>, s: Set<int>) -> bool {
    forall|u: int, m: int|
        s.contains(u) && 0 <= u < lists.len() && 0 <= m < lists[u].len() ==> #[trigger] s.contains(lists[u][m].0 as int)
}

/// The lists join node `a` to node `b`: every set that holds `a` and is
/// closed under the lists holds `b`.
pub open spec fn lists_join(lists: Seq<Seq<(usize, usize)>>, a: int, b: int) -> bool {
    forall|s: Set<int>| #[trigger] walk_closed(lists, s) && s.contains(a) ==> s.contains(b)
}

/// The adjacency lists of the tree (see `tree_adjacency`) for all `n` nodes.
pub open spec fn tree_lists(arcs: Seq<ResidualArc>, n: int, tree: Seq<usize>) -> Seq<Seq<(usize, usize)>> {
    Seq::new(n as nat, |u: int| adj_list(arcs, n, tree, tree.len() as int, u))
}

/// `(next, arc)` is an entry of node `u`'s list.
pub open spec fn tree_entry(lists: Seq<Seq<(usize, usize)>>, u: int, e: (usize, usize)) -> bool {
    exists|m: int| 0 <= m < lists[u].len() && lists[u][m] == e
}

/// The fundamental cycle of a non-tree arc: the arc itself followed by the
/// path of tree arcs (found breadth-first over `tree_adjacency`) from its
/// target back to its source. `None` when the arc is out of range, an
/// endpoint lies outside `0..node_count`, or the tree does not join its ends.
pub fn tree_cycle_for_arc(
    arcs: &[ResidualArc],
    node_count: usize,
    tree_arc_indices: &[usize],
    non_tree_arc_index: usize,
) -> (r: Option<Vec<usize>>)
    ensures
        (non_tree_arc_index >= arcs@.len() || arcs@[non_tree_arc_index as int].from
            >= node_count || arcs@[non_tree_arc_index as int].to >= node_count) ==> r is None,
        r matches Some(c) ==> {
            &&& c@.len() >= 1
            &&& c@[0] == non_tree_arc_index
            &&& c@.len() <= node_count
            &&& is_closed_walk(arcs@, c@)
        },
        r matches Some(c) ==> forall|k: int|
            1 <= k < c@.len() ==> tree_entry(
                tree_lists(arcs@, node_count as int, tree_arc_indices@),
                arcs@[#[trigger] c@[k] as int].from as int,
                (arcs@[c@[k] as int].to, c@[k]),
            ),
        r matches Some(c) ==> forall|k1: int, k2: int|
            0 <= k1 < k2 < c@.len() ==> arcs@[#[trigger] c@[k1] as int].from != arcs@[#[trigger] c@[k2] as int].from,
        r is None ==> non_tree_arc_index >= arcs@.len() || arcs@[non_tree_arc_index as int].from >= node_count
            || arcs@[non_tree_arc_index as int].to >= node_count || !lists_join(
            tree_lists(arcs@, node_count as int, tree_arc_indices@),
            arcs@[non_tree_arc_index as int].to as int,
            arcs@[non_tree_arc_index as int].from as int,
        ),
{
    if non_tree_arc_index >= arcs.len() {
        return None;
    }
    let non_tree = arcs[non_tree_arc_index];
    if non_tree.from >= node_count || non_tree.to >= node_count {
        return None;
    }
    let adjacency = tree_adjacency(arcs, node_count, tree_arc_indices);
    let start = non_tree.to;
    let goal = non_tree.from;
    let ghost nn = node_count as int;
    let mut seen: Vec<bool> = Vec::new();
    let mut prev_node: Vec<usize> = Vec::new();
    let mut prev_arc: Vec<usize> = Vec::new();
    let mut i: usize = 0;
    while i < node_count
        invariant
            i <= node_count,
            seen@.len() == i,
            prev_node@.len() == i,
            prev_arc@.len() == i,
            forall|j: int| 0 <= j < i ==> !(#[trigger] seen@[j]),
        decreases node_count - i,
    {
        seen.push(false);
        prev_node.push(usize::MAX);
        prev_arc.push(usize::MAX);
        i = i + 1;
    }
    proof {
        lemma_count_false_all(seen@, nn);
        lemma_count_false_update(seen@, start as int, nn);
    }
    seen.set(start, true);
    let mut queue: Vec<usize> = Vec::new();
    queue.push(start);
    proof {
        assert(queue@[0] == start);
        assert(queue@.contains(start));
    }
    let ghost lists = tree_lists(arcs@, nn, tree_arc_indices@);
    let mut head: usize = 0;
    let mut found = false;
    let ghost mut disc: Seq<int> = Seq::new(node_count as nat, |j: int| 0);
    while head < queue.len() && !found
        invariant
            nn == node_count,
            start < node_count,
            goal < node_count,
            adj_sound(arcs@, adjacency@, nn),
            seen@.len() == nn,
            prev_node@.len() == nn,
            prev_arc@.len() == nn,
            disc.len() == nn,
            head <= queue@.len(),
            queue@.len() + count_false(seen@, nn) == nn,
            found ==> seen@[goal as int],
            seen@[start as int],
            lists == tree_lists(arcs@, nn, tree_arc_indices@),
            forall|v: int|
                0 <= v < nn && #[trigger] seen@[v] && v != start ==> tree_entry(lists, prev_node@[v] as int, (v as usize, prev_arc@[v])),
            forall|u: int| 0 <= u < nn ==> #[trigger] lists[u] == adjacency@[u]@,
            adjacency@.len() == nn,
            forall|v: int| 0 <= v < nn && #[trigger] seen@[v] ==> queue@.contains(v as usize),
            !found ==> forall|q: int, m: int|
                0 <= q < head && 0 <= m < lists[queue@[q] as int].len() ==> #[trigger] seen@[lists[queue@[q] as int][m].0 as int],
            forall|q: int| 0 <= q < queue@.len() ==> (#[trigger] queue@[q] as int) < nn && seen@[
                queue@[q] as int],
            forall|v: int| 0 <= v < nn && seen@[v] ==> 0 <= #[trigger] disc[v] < queue@.len(),
            forall|v: int|
                0 <= v < nn && #[trigger] seen@[v] && v != start ==> link_ok(
                    arcs@,
                    seen@,
                    prev_node@,
                    prev_arc@,
                    disc,
                    v,
                ),
        decreases nn - head,
    {
        proof {
            lemma_count_false_bounds(seen@, nn);
        }
        let node = queue[head];
        head = head + 1;
        if node == goal {
            found = true;
        } else {
            let nbrs = &adjacency[node];
            let mut j: usize = 0;
            while j < nbrs.len()
                invariant
                    nn == node_count,
                    start < node_count,
                    node < node_count,
                    *nbrs == adjacency@[node as int],
                    adj_sound(arcs@, adjacency@, nn),
                    j <= nbrs@.len(),
                    seen@.len() == nn,
                    prev_node@.len() == nn,
                    prev_arc@.len() == nn,
                    disc.len() == nn,
                    head <= queue@.len(),
                    queue@.len() + count_false(seen@, nn) == nn,
                    seen@[start as int],
                    seen@[node as int],
                    lists == tree_lists(arcs@, nn, tree_arc_indices@),
                    forall|v: int|
                        0 <= v < nn && #[trigger] seen@[v] && v != start ==> tree_entry(lists, prev_node@[v] as int, (v as usize, prev_arc@[v])),
                    node != goal,
                    1 <= head,
                    queue@[head - 1] == node,
                    forall|u: int| 0 <= u < nn ==> #[trigger] lists[u] == adjacency@[u]@,
                    adjacency@.len() == nn,
                    forall|v: int| 0 <= v < nn && #[trigger] seen@[v] ==> queue@.contains(v as usize),
                    forall|q: int, m: int|
                        0 <= q < head - 1 && 0 <= m < lists[queue@[q] as int].len() ==> #[trigger] seen@[lists[queue@[q] as int][m].0 as int],
                    forall|m: int| 0 <= m < j ==> #[trigger] seen@[nbrs@[m].0 as int],
                    forall|q: int| 0 <= q < queue@.len() ==> (#[trigger] queue@[q] as int) < nn
                        && seen@[queue@[q] as int],
                    forall|v: int| 0 <= v < nn && seen@[v] ==> 0 <= #[trigger] disc[v] < queue@.len(),
                    forall|v: int|
                        0 <= v < nn && #[trigger] seen@[v] && v != start ==> link_ok(
                            arcs@,
                            seen@,
                            prev_node@,
                            prev_arc@,
                            disc,
                            v,
                        ),
                decreases nbrs@.len() - j,
            {
                let (next, arc_index) = nbrs[j];
                proof {
                    assert(adj_entry_ok(arcs@, node as int, nbrs@[j as int], nn));
                }
                if !seen[next] {
                    proof {
                        lemma_count_false_update(seen@, next as int, nn);
                        lemma_count_false_bounds(seen@.update(next as int, true), nn);
                    }
                    let ghost s0 = seen@;
                    let ghost d0 = disc;
                    let ghost pn0 = prev_node@;
                    let ghost pa0 = prev_arc@;
                    let ghost qlen = queue@.len() as int;
                    seen.set(next, true);
                    prev_node.set(next, node);
                    prev_arc.set(next, arc_index);
                    let ghost q0 = queue@;
                    queue.push(next);
                    proof {
                        broadcast use vstd::seq_lib::lemma_seq_contains_after_push;
                        assert forall|v: int| 0 <= v < nn && #[trigger] seen@[v] implies queue@.contains(v as usize) by {
                            if v != next as int {
                                assert(s0[v]);
                                assert(q0.contains(v as usize));
                            }
                        }
                        assert forall|q: int, m: int|
                            0 <= q < head - 1 && 0 <= m < lists[queue@[q] as int].len() implies #[trigger] seen@[lists[queue@[q] as int][m].0 as int] by {
                            assert(queue@[q] == q0[q]);
                            assert(s0[lists[q0[q] as int][m].0 as int]);
                        }
                        assert forall|v: int|
                            0 <= v < nn && #[trigger] seen@[v] && v != start implies tree_entry(lists, prev_node@[v] as int, (v as usize, prev_arc@[v])) by {
                            if v == next as int {
                                assert(lists[node as int] == adjacency@[node as int]@);
                                assert(lists[node as int][j as int] == (next, arc_index));
                            } else {
                                assert(s0[v]);
                            }
                        }
                        disc = disc.update(next as int, qlen);
                        assert forall|v: int|
                            0 <= v < nn && #[trigger] seen@[v] && v != start implies link_ok(
                                arcs@,
                                seen@,
                                prev_node@,
                                prev_arc@,
                                disc,
                                v,
                            ) by {
                            if v != next as int {
                                assert(s0[v]);
                                assert(link_ok(arcs@, s0, pn0, pa0, d0, v));
                                assert(s0[pn0[v] as int]);
                            } else {
                                assert(s0[node as int]);
                            }
                        }
                    }
                }
                assert(seen@[nbrs@[j as int].0 as int]);
                j = j + 1;
            }
            proof {
                assert forall|q: int, m: int|
                    0 <= q < head && 0 <= m < lists[queue@[q] as int].len() implies #[trigger] seen@[lists[queue@[q] as int][m].0 as int] by {
                    if q == head - 1 {
                        assert(lists[node as int] == adjacency@[node as int]@);
                        assert(seen@[nbrs@[m].0 as int]);
                    }
                }
            }
        }
    }
    if !seen[goal] {
        proof {
            let reached = Set::new(|x: int| 0 <= x < nn && seen@[x]);
            assert forall|u: int, m: int|
                reached.contains(u) && 0 <= u < lists.len() && 0 <= m < lists[u].len() implies #[trigger] reached.contains(
                lists[u][m].0 as int,
            ) by {
                assert(queue@.contains(u as usize));
                let q = choose|q: int| 0 <= q < queue@.len() && queue@[q] == u as usize;
                assert(seen@[lists[queue@[q] as int][m].0 as int]);
                assert(lists[u] == adjacency@[u]@);
                assert(adj_entry_ok(arcs@, u, adjacency@[u]@[m], nn));
            }
            assert(walk_closed(lists, reached));
            assert(reached.contains(start as int));
            assert(!reached.contains(goal as int));
        }
        return None;
    }
    proof {
        lemma_count_false_bounds(seen@, nn);
    }
    let alen = arcs.len();
    let mut path: Vec<usize> = Vec::new();
    let mut node = goal;
    while node != start
        invariant
            nn == node_count,
            start < node_count,
            goal < node_count,
            node < node_count,
            seen@.len() == nn,
            prev_node@.len() == nn,
            prev_arc@.len() == nn,
            disc.len() == nn,
            seen@[node as int],
            seen@[goal as int],
            forall|v: int| 0 <= v < nn && seen@[v] ==> 0 <= #[trigger] disc[v] < nn,
            forall|v: int|
                0 <= v < nn && #[trigger] seen@[v] && v != start ==> link_ok(
                    arcs@,
                    seen@,
                    prev_node@,
                    prev_arc@,
                    disc,
                    v,
                ),
            path@.len() + disc[node as int] <= disc[goal as int],
            forall|q: int| 0 <= q < path@.len() ==> (#[trigger] path@[q] as int) < arcs@.len(),
            path@.len() == 0 ==> node == goal,
            forall|v: int|
                0 <= v < nn && #[trigger] seen@[v] && v != start ==> tree_entry(lists, prev_node@[v] as int, (v as usize, prev_arc@[v])),
            forall|q: int|
                0 <= q < path@.len() ==> tree_entry(
                    lists,
                    arcs@[#[trigger] path@[q] as int].from as int,
                    (arcs@[path@[q] as int].to, path@[q]),
                ),
            forall|q: int|
                0 <= q < path@.len() ==> (arcs@[#[trigger] path@[q] as int].from as int) < nn && disc[arcs@[path@[q] as int].from as int] >= disc[node as int],
            forall|q1: int, q2: int|
                0 <= q1 < q2 < path@.len() ==> disc[arcs@[#[trigger] path@[q1] as int].from as int] > disc[arcs@[#[trigger] path@[q2] as int].from as int],
            forall|q: int| 0 <= q < path@.len() ==> disc[arcs@[#[trigger] path@[q] as int].from as int] < disc[goal as int],
            alen == arcs@.len(),
            path@.len() > 0 ==> arcs@[path@[0] as int].to == goal,
            path@.len() > 0 ==> arcs@[path@[path@.len() - 1] as int].from == node,
            forall|q: int|
                0 <= q < path@.len() - 1 ==> arcs@[#[trigger] path@[q] as int].from == arcs@[path@[q
                    + 1] as int].to,
        decreases disc[node as int],
    {
        let arc_index = prev_arc[node];
        if arc_index == usize::MAX {
            proof {
                assert(link_ok(arcs@, seen@, prev_node@, prev_arc@, disc, node as int));
                assert(arc_index as int >= alen);
            }
            return None;
        }
        proof {
            assert(link_ok(arcs@, seen@, prev_node@, prev_arc@, disc, node as int));
        }
        let ghost p0 = path@;
        let ghost n0 = node as int;
        path.push(arc_index);
        node = prev_node[node];
        proof {
            assert(path@[p0.len() as int] == arc_index);
            assert forall|q: int| 0 <= q < p0.len() implies path@[q] == p0[q] by {}
        }
    }
    let plen = path.len();
    let mut cycle: Vec<usize> = Vec::new();
    cycle.push(non_tree_arc_index);
    let mut t: usize = 0;
    while t < plen
        invariant
            t <= plen,
            plen == path@.len(),
            cycle@.len() == t + 1,
            cycle@[0] == non_tree_arc_index,
            forall|j: int| 1 <= j <= t ==> #[trigger] cycle@[j] == path@[plen - j],
        decreases plen - t,
    {
        cycle.push(path[plen - 1 - t]);
        t = t + 1;
    }
    proof {
        assert(disc[goal as int] < nn);
        assert forall|q: int| 0 <= q < cycle@.len() implies #[trigger] cycle@[q] < arcs@.len() by {
            if q >= 1 {
                assert(cycle@[q] == path@[plen - q]);
            }
        }
        assert forall|q: int| 0 <= q < cycle@.len() - 1 implies arcs@[#[trigger] cycle@[q] as int].to
            == arcs@[cycle@[q + 1] as int].from by {
            if q == 0 {
                assert(cycle@[1] == path@[plen - 1]);
            } else {
                assert(cycle@[q] == path@[plen - q]);
                assert(cycle@[q + 1] == path@[plen - q - 1]);
                assert(arcs@[path@[plen - q - 1] as int].from == arcs@[path@[plen - q - 1 + 1] as int].to);
            }
        }
        if plen > 0 {
            assert(cycle@[cycle@.len() - 1] == path@[0]);
        }
        assert forall|k: int| 1 <= k < cycle@.len() implies tree_entry(
            tree_lists(arcs@, node_count as int, tree_arc_indices@),
            arcs@[#[trigger] cycle@[k] as int].from as int,
            (arcs@[cycle@[k] as int].to, cycle@[k]),
        ) by {
            assert(cycle@[k] == path@[plen - k]);
        }
        assert forall|k1: int, k2: int|
            0 <= k1 < k2 < cycle@.len() implies arcs@[#[trigger] cycle@[k1] as int].from != arcs@[#[trigger] cycle@[k2] as int].from by {
            assert(cycle@[k2] == path@[plen - k2]);
            if k1 == 0 {
                assert(disc[arcs@[path@[plen - k2] as int].from as int] < disc[goal as int]);
            } else {
                assert(cycle@[k1] == path@[plen - k1]);
                assert(disc[arcs@[path@[plen - k2] as int].from as int] > disc[arcs@[path@[plen - k1] as int].from as int]);
            }
        }
    }
    Some(cycle)
}

/// The other arc of the pair that `t` belongs to: `t ^ 1`.
pub open spec fn partner(t: int) -> int {
    if t % 2 == 0 {
        t + 1
    } else {
        t - 1
    }
}

/// Tree arc `t` marks arc `i`: `i` is `t` itself, or its pair partner when
/// that moves the same edge.
pub open spec fn mask_marks(arcs: Seq<ResidualArc>, t: int, i: int) -> bool {
    &&& 0 <= t < arcs.len()
    &&& (i == t || (i == partner(t) && partner(t) < arcs.len() && arcs[t].is_horizontal
        == arcs[i].is_horizontal && arcs[t].edge_index == arcs[i].edge_index))
}

/// Some of the first `j` tree arcs marks arc `i`.
pub open spec fn marked_by(arcs: Seq<ResidualArc>, tree: Seq<usize>, j: int, i: int) -> bool {
    exists|k: int| 0 <= k < j && #[trigger] mask_marks(arcs, tree[k] as int, i)
}

/// Marks every tree arc and, next to it, its pair partner when that moves the
/// same edge.
pub fn tree_edge_mask(arcs: &[ResidualArc], tree_arc_indices: &[usize]) -> (r: Vec<bool>)
    ensures
        r@.len() == arcs@.len(),
        forall|i: int|
            0 <= i < arcs@.len() ==> #[trigger] r@[i] == marked_by(
                arcs@,
                tree_arc_indices@,
                tree_arc_indices@.len() as int,
                i,
            ),
{
    let mut mask: Vec<bool> = Vec::new();
    let m = arcs.len();
    let mut i: usize = 0;
    while i < m
        invariant
            i <= m,
            m == arcs@.len(),
            mask@.len() == i,
            forall|q: int| 0 <= q < i ==> !(#[trigger] mask@[q]),
        decreases m - i,
    {
        mask.push(false);
        i = i + 1;
    }
    let mut j: usize = 0;
    while j < tree_arc_indices.len()
        invariant
            j <= tree_arc_indices@.len(),
            m == arcs@.len(),
            mask@.len() == m,
            forall|q: int|
                0 <= q < m ==> #[trigger] mask@[q] == marked_by(arcs@, tree_arc_indices@, j as int, q),
        decreases tree_arc_indices@.len() - j,
    {
        let index = tree_arc_indices[j];
        let ghost m0 = mask@;
        if index < m {
            mask.set(index, true);
            let reverse = index ^ 1;
            assert(reverse == (if index % 2 == 0 { index + 1 } else { index - 1 })) by (bit_vector)
                requires
                    reverse == index ^ 1,
            ;
            if reverse < m && same_primal_edge(arcs[index], arcs[reverse]) {
                mask.set(reverse, true);
            }
        }
        proof {
            assert forall|q: int| 0 <= q < m implies #[trigger] mask@[q] == marked_by(
                arcs@,
                tree_arc_indices@,
                j + 1,
                q,
            ) by {
                if mask_marks(arcs@, index as int, q) {
                    assert(tree_arc_indices@[j as int] == index);
                    assert(mask_marks(arcs@, tree_arc_indices@[j as int] as int, q));
                } else {
                    assert(mask@[q] == m0[q]);
                    if marked_by(arcs@, tree_arc_indices@, j + 1, q) {
                        let k = choose|k: int|
                            0 <= k < j + 1 && #[trigger] mask_marks(
                                arcs@,
                                tree_arc_indices@[k] as int,
                                q,
                            );
                        assert(k != j);
                        assert(marked_by(arcs@, tree_arc_indices@, j as int, q));
                    }
                    if marked_by(arcs@, tree_arc_indices@, j as int, q) {
                        let k = choose|k: int|
                            0 <= k < j && #[trigger] mask_marks(arcs@, tree_arc_indices@[k] as int, q);
                        assert(mask_marks(arcs@, tree_arc_indices@[k] as int, q));
                    }
                }
            }
        }
        j = j + 1;
    }
    mask
}

/// Among the fundamental cycles of the non-tree arcs, the first of least
/// cost, when that cost is negative.
pub fn find_negative_tree_cycle(
    arcs: &[ResidualArc],
    node_count: usize,
    tree_arc_indices: &[usize],
) -> (r: Option<Vec<usize>>)
    ensures
        r matches Some(c) ==> {
            &&& c@.len() >= 1
            &&& c@.len() <= node_count
            &&& is_closed_walk(arcs@, c@)
            &&& !marked_by(arcs@, tree_arc_indices@, tree_arc_indices@.len() as int, c@[0] as int)
            &&& cycle_cost_spec(arcs@, c@, c@.len() as int) < 0
        },
{
    let tree_mask = tree_edge_mask(arcs, tree_arc_indices);
    let mut best: Option<Vec<usize>> = None;
    let mut best_cost: i128 = 0;
    let m = arcs.len();
    let mut index: usize = 0;
    while index < m
        invariant
            index <= m,
            m == arcs@.len(),
            tree_mask@.len() == m,
            forall|q: int|
                0 <= q < m ==> #[trigger] tree_mask@[q] == marked_by(
                    arcs@,
                    tree_arc_indices@,
                    tree_arc_indices@.len() as int,
                    q,
                ),
            best_cost <= 0,
            best is None ==> best_cost == 0,
            best matches Some(c) ==> {
                &&& c@.len() >= 1
                &&& c@.len() <= node_count
                &&& is_closed_walk(arcs@, c@)
                &&& (c@[0] as int) < m
                &&& !tree_mask@[c@[0] as int]
                &&& cycle_cost_spec(arcs@, c@, c@.len() as int) == best_cost
                &&& best_cost < 0
            },
        decreases m - index,
    {
        if !tree_mask[index] {
            match tree_cycle_for_arc(arcs, node_count, tree_arc_indices, index) {
                Some(cycle) => {
                    let cost = residual_cycle_cost_wide(arcs, &cycle);
                    if cost < best_cost {
                        best_cost = cost;
                        best = Some(cycle);
                    }
                },
                None => {},
            }
        }
        index = index + 1;
    }
    best
}

/// The fundamental cycle of the non-tree arc whose cost plus the cost of the
/// tree path back to its source, read from `TreePathCosts`, is least, when
/// that total is negative. `None` when the path tables cannot be built.
pub fn find_negative_tree_cycle_fast(
    arcs: &[ResidualArc],
    node_count: usize,
    tree_arc_indices: &[usize],
) -> (r: Option<Vec<usize>>)
    ensures
        r matches Some(c) ==> {
            &&& c@.len() >= 1
            &&& c@.len() <= node_count
            &&& is_closed_walk(arcs@, c@)
            &&& !marked_by(arcs@, tree_arc_indices@, tree_arc_indices@.len() as int, c@[0] as int)
        },
{
    let paths = match TreePathCosts::new(arcs, node_count, tree_arc_indices) {
        Some(p) => p,
        None => {
            return None;
        },
    };
    let tree_mask = tree_edge_mask(arcs, tree_arc_indices);
    let mut best_arc: Option<usize> = None;
    let mut best_cost: i128 = 0;
    let m = arcs.len();
    let mut index: usize = 0;
    while index < m
        invariant
            index <= m,
            m == arcs@.len(),
            paths.wf(),
            tree_mask@.len() == m,
            best_arc matches Some(b) ==> b < m && !tree_mask@[b as int],
        decreases m - index,
    {
        if !tree_mask[index] {
            let arc = arcs[index];
            match paths.path_cost(arc.to, arc.from) {
                Some(path_cost) => {
                    let cost: i128 = arc.cost as i128 + path_cost as i128;
                    if cost < best_cost {
                        best_cost = cost;
                        best_arc = Some(index);
                    }
                },
                None => {},
            }
        }
        index = index + 1;
    }
    match best_arc {
        Some(b) => tree_cycle_for_arc(arcs, node_count, tree_arc_indices, b),
        None => None,
    }
}

/// Pushes one unit of flow around negative fundamental cycles of a fixed
/// tree, found by `find_negative_tree_cycle_fast` on the current unit
/// residual graph, at most `max_cycles` times. Returns the number of cycles
/// applied. Stops early where an edge's numbers would leave their machine
/// range.
pub fn cancel_negative_tree_cycles_with_tree(
    horizontal: &mut Vec<Option<EdgeDatum>>,
    vertical: &mut Vec<Option<EdgeDatum>>,
    nrow: usize,
    ncol: usize,
    tree_arc_indices: &[usize],
    max_cycles: usize,
) -> (applied: usize)
    requires
        grid_ok(old(horizontal)@, old(vertical)@, nrow as int, ncol as int),
    ensures
        applied <= max_cycles,
        same_slots(old(horizontal)@, final(horizontal)@),
        same_slots(old(vertical)@, final(vertical)@),
        residues_equal(
            old(horizontal)@,
            old(vertical)@,
            final(horizontal)@,
            final(vertical)@,
            nrow as int,
            ncol as int,
        ),
        applied == 0 ==> final(horizontal)@ == old(horizontal)@ && final(vertical)@ == old(vertical)@,
{
    let node_count = dual_nodes(horizontal, nrow, ncol);
    let ghost h0 = horizontal@;
    let ghost v0 = vertical@;
    let mut applied: usize = 0;
    while applied < max_cycles
        invariant
            applied <= max_cycles,
            grid_ok(horizontal@, vertical@, nrow as int, ncol as int),
            same_slots(h0, horizontal@),
            same_slots(v0, vertical@),
            residues_equal(h0, v0, horizontal@, vertical@, nrow as int, ncol as int),
            applied == 0 ==> horizontal@ == h0 && vertical@ == v0,
        decreases max_cycles - applied,
    {
        if !edges_arc_in_range(horizontal, 1) || !edges_arc_in_range(vertical, 1) {
            break;
        }
        let arcs = build_unit_residual_arcs(horizontal, vertical, nrow, ncol);
        let cycle = match find_negative_tree_cycle_fast(&arcs, node_count, tree_arc_indices) {
            Some(c) => c,
            None => {
                break;
            },
        };
        let clen = cycle.len();
        if clen as u64 > 0x1_0000_0000u64 {
            break;
        }
        let need: i64 = clen as i64;
        if !edges_headroom_in_range(horizontal, need) || !edges_headroom_in_range(vertical, need) {
            break;
        }
        let hl = horizontal.len();
        let vl = vertical.len();
        let ghost hb = horizontal@;
        let ghost vb = vertical@;
        proof {
            assert(clen * 1 == clen);
            lemma_apply_valid_cycle(hb, vb, nrow as int, ncol as int, arcs@, cycle@, 1);
        }
        apply_residual_cycle(horizontal, vertical, &arcs, &cycle);
        proof {
            lemma_slots_trans(h0, hb, horizontal@);
            lemma_slots_trans(v0, vb, vertical@);
        }
        applied = applied + 1;
    }
    applied
}

/// Number of nodes of the dual grid: one per plaquette plus the ground node.
pub(crate) fn dual_nodes(horizontal: &[Option<EdgeDatum>], nrow: usize, ncol: usize) -> (r: usize)
    requires
        horizontal@.len() == (nrow as int) * (if ncol >= 1 { ncol - 1 } else { 0 }),
    ensures
        r == dual_node_count(nrow as int, ncol as int),
{
    let prn = if nrow >= 1 { nrow - 1 } else { 0 };
    let pcn = if ncol >= 1 { ncol - 1 } else { 0 };
    let hl = horizontal.len();
    if prn == 0 || pcn == 0 {
        assert(prn * pcn == 0) by (nonlinear_arith)
            requires
                prn == 0 || pcn == 0,
        ;
        return 1;
    }
    assert(prn * pcn + pcn == nrow * pcn) by (nonlinear_arith)
        requires
            prn + 1 == nrow,
    ;
    prn * pcn + 1
}

/// Builds a spanning tree of the unit residual graph and cancels negative
/// fundamental cycles of it, at most `max_cycles`. Returns 0 without changing
/// anything when the arcs cannot be priced or the tree does not span the dual
/// grid.
pub fn optimize_tree_cycles(
    horizontal: &mut Vec<Option<EdgeDatum>>,
    vertical: &mut Vec<Option<EdgeDatum>>,
    nrow: usize,
    ncol: usize,
    max_cycles: usize,
) -> (applied: usize)
    requires
        grid_ok(old(horizontal)@, old(vertical)@, nrow as int, ncol as int),
    ensures
        applied <= max_cycles,
        same_slots(old(horizontal)@, final(horizontal)@),
        same_slots(old(vertical)@, final(vertical)@),
        residues_equal(
            old(horizontal)@,
            old(vertical)@,
            final(horizontal)@,
            final(vertical)@,
            nrow as int,
            ncol as int,
        ),
        applied == 0 ==> final(horizontal)@ == old(horizontal)@ && final(vertical)@ == old(vertical)@,
{
    let node_count = dual_nodes(horizontal, nrow, ncol);
    if !edges_arc_in_range(horizontal, 1) || !edges_arc_in_range(vertical, 1) {
        proof {
            lemma_residues_refl(horizontal@, vertical@, nrow as int, ncol as int);
        }
        return 0;
    }
    let arcs = build_unit_residual_arcs(horizontal, vertical, nrow, ncol);
    let tree = spanning_tree_arc_indices(&arcs, node_count);
    if node_count == 0 || tree.len() != node_count - 1 {
        proof {
            lemma_residues_refl(horizontal@, vertical@, nrow as int, ncol as int);
        }
        return 0;
    }
    cancel_negative_tree_cycles_with_tree(horizontal, vertical, nrow, ncol, &tree, max_cycles)
}

proof fn lemma_residues_refl(h: Seq<Option<EdgeDatum>>, v: Seq<Option<EdgeDatum>>, nrow: int, ncol: int)
    ensures
        residues_equal(h, v, h, v, nrow, ncol),
        same_slots(h, h),
        same_slots(v, v),
{
}

/// Position of the first tree arc from `p` on that moves the same edge as
/// arc `a` (arcs `2k` and `2k + 1` share edge `k`), or -1.
pub open spec fn first_pair_pos(tree: Seq<usize>, a: usize, p: int) -> int
    decreases tree.len() - p,
{
    if p >= tree.len() || p < 0 {
        -1
    } else if tree[p] / 2 == a / 2 {
        p
    } else {
        first_pair_pos(tree, a, p + 1)
    }
}

/// The tree position that the first arc of `cycle` from `k` on hits, or -1.
pub open spec fn cycle_pair_pos(tree: Seq<usize>, cycle: Seq<usize>, k: int) -> int
    decreases cycle.len() - k,
{
    if k >= cycle.len() || k < 0 {
        -1
    } else if first_pair_pos(tree, cycle[k], 0) >= 0 {
        first_pair_pos(tree, cycle[k], 0)
    } else {
        cycle_pair_pos(tree, cycle, k + 1)
    }
}

/// The pair position is -1 or a position of the tree.
pub proof fn lemma_first_pair_pos_range(tree: Seq<usize>, a: usize, p: int)
    requires
        0 <= p,
    ensures
        first_pair_pos(tree, a, p) == -1 || (p <= first_pair_pos(tree, a, p) < tree.len()),
    decreases tree.len() - p,
{
    if p < tree.len() && tree[p] / 2 != a / 2 {
        lemma_first_pair_pos_range(tree, a, p + 1);
    }
}

/// The cycle's pair position is -1 or a position of the tree.
pub proof fn lemma_cycle_pair_pos_range(tree: Seq<usize>, cycle: Seq<usize>, k: int)
    requires
        0 <= k,
    ensures
        cycle_pair_pos(tree, cycle, k) == -1 || (0 <= cycle_pair_pos(tree, cycle, k) < tree.len()),
    decreases cycle.len() - k,
{
    if k < cycle.len() {
        lemma_first_pair_pos_range(tree, cycle[k], 0);
        lemma_cycle_pair_pos_range(tree, cycle, k + 1);
    }
}

/// Position of the first tree arc that moves the same edge as arc `a`.
fn pair_position(tree: &Vec<usize>, a: usize) -> (r: Option<usize>)
    ensures
        match r {
            Some(p) => p == first_pair_pos(tree@, a, 0),
            None => first_pair_pos(tree@, a, 0) == -1,
        },
{
    let mut p: usize = 0;
    while p < tree.len()
        invariant
            p <= tree@.len(),
            first_pair_pos(tree@, a, 0) == first_pair_pos(tree@, a, p as int),
        decreases tree@.len() - p,
    {
        if tree[p] / 2 == a / 2 {
            return Some(p);
        }
        p = p + 1;
    }
    None
}

/// Pivots the tree on a cycle that starts with an entering non-tree arc:
/// the first tree arc on the edge of a later cycle arc leaves and the
/// entering arc takes its place. False, leaving the tree as it was, for an
/// empty cycle, an entering arc whose edge is already in the tree, or a cycle
/// that crosses no tree edge.
pub fn pivot_compact_tree_on_cycle_fast(tree_arc_indices: &mut Vec<usize>, cycle: &[usize]) -> (r:
    bool)
    ensures
        r == (cycle@.len() >= 1 && first_pair_pos(old(tree_arc_indices)@, cycle@[0], 0) == -1
            && cycle_pair_pos(old(tree_arc_indices)@, cycle@, 1) >= 0),
        r ==> final(tree_arc_indices)@ == old(tree_arc_indices)@.update(
            cycle_pair_pos(old(tree_arc_indices)@, cycle@, 1),
            cycle@[0],
        ),
        !r ==> final(tree_arc_indices)@ == old(tree_arc_indices)@,
{
    if cycle.len() == 0 {
        return false;
    }
    let entering = cycle[0];
    if pair_position(tree_arc_indices, entering).is_some() {
        return false;
    }
    let mut k: usize = 1;
    let mut found: Option<usize> = None;
    while k < cycle.len() && found.is_none()
        invariant
            1 <= k <= cycle@.len(),
            tree_arc_indices@ == old(tree_arc_indices)@,
            found is None ==> cycle_pair_pos(tree_arc_indices@, cycle@, 1) == cycle_pair_pos(
                tree_arc_indices@,
                cycle@,
                k as int,
            ),
            found matches Some(pos) ==> pos == cycle_pair_pos(tree_arc_indices@, cycle@, 1) && pos
                < tree_arc_indices@.len(),
        decreases cycle@.len() - k + (if found is None { 1int } else { 0 }),
    {
        match pair_position(tree_arc_indices, cycle[k]) {
            Some(pos) => {
                proof {
                    lemma_first_pair_pos_range(tree_arc_indices@, cycle@[k as int], 0);
                }
                found = Some(pos);
            },
            None => {
                k = k + 1;
            },
        }
    }
    match found {
        Some(pos) => {
            tree_arc_indices.set(pos, entering);
            true
        },
        None => false,
    }
}

} // verus!
