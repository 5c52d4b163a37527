//! A spanning tree of the compact residual view kept as a rooted tree: for
//! every node the arcs to and from its parent, a table of `2^level`-th
//! ancestors, and the breadth-first order, so that the fundamental cycle of
//! any other arc and its cost are found without rebuilding the tree.
use vstd::prelude::*;
use crate::components::{count_false, lemma_count_false_bounds, lemma_count_false_update};
use crate::flow_schedule::dual_node_count;
use crate::residual_view::{view_arc_count, CompactResidualView};
use crate::rooted_tree::{
    climb, lemma_climb_add, lemma_climb_depth, lemma_depth_step, lemma_meet_ancestor,
    lemma_meet_deeper,
    lemma_meet_deeper_right, lemma_meet_parent, lemma_meet_same_depth, lemma_pow2_int_pos,
    lifting_ok, meet, pow2_int, rooted_ok, slot,
};
use crate::tree_cycle::partner;
use crate::tree_path::{
    ancestor_levels, bit_length, fill_ancestor_levels, lemma_bit_of, lemma_count_false_all_paths, lemma_slot,
    view_arc_in_nodes, view_tree_pair_ok,
};

verus! {

/// Arc `k` of the view is present and runs from `a` to `b`.
pub open spec fn view_arc_runs(view: &CompactResidualView<'_>, k: int, a: int, b: int) -> bool {
    &&& view.arc_at(k) is Some
    &&& view.arc_at(k)->0.from as int == a
    &&& view.arc_at(k)->0.to as int == b
}

/// An adjacency entry `(next, down, up)` of node `u`: `down` runs from `u`
/// to `next` and `up` back.
pub open spec fn basis_entry_ok(view: &CompactResidualView<'_>, n: int, u: int, e: (
    usize,
    usize,
    usize,
)) -> bool {
    &&& (e.0 as int) < n
    &&& view_arc_runs(view, e.1 as int, u, e.0 as int)
    &&& view_arc_runs(view, e.2 as int, e.0 as int, u)
}

pub open spec fn basis_adj_ok(view: &CompactResidualView<'_>, adj: Seq<Vec<(usize, usize, usize)>>) -> bool {
    forall|u: int, m: int|
        0 <= u < adj.len() && 0 <= m < adj[u]@.len() ==> basis_entry_ok(
            view,
            adj.len() as int,
            u,
            #[trigger] adj[u]@[m],
        )
}

/// Arc `i` of the view is marked by the tree arc indices: it is a present
/// tree arc or the pair partner of one.
pub open spec fn basis_marks(view: &CompactResidualView<'_>, tree: Seq<usize>, k: int, i: int) -> bool {
    exists|q: int|
        0 <= q < k && view.arc_at(#[trigger] tree[q] as int) is Some && (i == tree[q] as int || i
            == partner(tree[q] as int))
}

/// `order` lists the nodes `0..n` once each, the root first and every other
/// node after its parent.
pub open spec fn order_ok(order: Seq<usize>, p: Seq<u32>, n: int) -> bool {
    &&& order.len() == n
    &&& order[0] == 0
    &&& forall|i: int| 0 <= i < n ==> (#[trigger] order[i] as int) < n
    &&& forall|i: int, j: int| 0 <= i < j < n ==> #[trigger] order[i] != #[trigger] order[j]
    &&& forall|i: int|
        1 <= i < n ==> exists|j: int| 0 <= j < i && order[j] == p[#[trigger] order[i] as int]
}


/// Cost of arc `i` of the view.
pub open spec fn arc_cost_of(view: &CompactResidualView<'_>, i: int) -> int {
    view.arc_at(i)->0.cost as int
}

/// Total cost of the arcs `arc_of[u]` of the first `k` nodes `u` met when
/// climbing from `v` (`v` itself first).
pub open spec fn tree_sum(
    p: Seq<u32>,
    arc_of: Seq<usize>,
    view: &CompactResidualView<'_>,
    v: int,
    k: nat,
) -> int
    decreases k,
{
    if k == 0 {
        0
    } else {
        arc_cost_of(view, arc_of[v] as int) + tree_sum(p, arc_of, view, p[v] as int, (k - 1) as nat)
    }
}

/// Total cost of the arcs listed in `s`.
pub open spec fn seq_cost(view: &CompactResidualView<'_>, s: Seq<usize>) -> int
    decreases s.len(),
{
    if s.len() == 0 {
        0
    } else {
        seq_cost(view, s.drop_last()) + arc_cost_of(view, s.last() as int)
    }
}

/// The up arcs met when climbing `k` steps from `v`, in climbing order.
pub open spec fn up_path(p: Seq<u32>, up_arc: Seq<usize>, v: int, k: nat) -> Seq<usize> {
    Seq::new(k, |i: int| up_arc[climb(p, v, i as nat)])
}

/// The down arcs that descend `k` steps to `v`, in descending order.
pub open spec fn down_path(p: Seq<u32>, down_arc: Seq<usize>, v: int, k: nat) -> Seq<usize> {
    Seq::new(k, |i: int| down_arc[climb(p, v, (k - 1 - i) as nat)])
}

/// The arcs of `s` are present in the view and lead from `a` to `b`, each
/// starting where the one before it ends.
pub open spec fn view_walk(view: &CompactResidualView<'_>, s: Seq<usize>, a: int, b: int) -> bool {
    &&& forall|i: int| 0 <= i < s.len() ==> view.arc_at(#[trigger] s[i] as int) is Some
    &&& s.len() == 0 ==> a == b
    &&& s.len() > 0 ==> view.arc_at(s[0] as int)->0.from as int == a && view.arc_at(
        s[s.len() - 1] as int,
    )->0.to as int == b
    &&& forall|i: int|
        0 <= i < s.len() - 1 ==> view.arc_at(#[trigger] s[i] as int)->0.to == view.arc_at(
            s[i + 1] as int,
        )->0.from
}

/// A closed walk of present arcs of the view.
pub open spec fn view_closed_walk(view: &CompactResidualView<'_>, s: Seq<usize>) -> bool {
    &&& s.len() >= 1
    &&& view_walk(view, s, view.arc_at(s[0] as int)->0.from as int, view.arc_at(s[0] as int)->0.from as int)
}

/// Candidate `x` comes before `y`: lower cost, ties going to the lower index.
pub open spec fn key_lt(x: (i64, usize), y: (i64, usize)) -> bool {
    x.0 < y.0 || (x.0 == y.0 && x.1 < y.1)
}

/// Strictly increasing candidates.
pub open spec fn keys_sorted(s: Seq<(i64, usize)>) -> bool {
    forall|i: int, j: int| 0 <= i < j < s.len() ==> key_lt(#[trigger] s[i], #[trigger] s[j])
}

/// Adds `candidate` to a list of candidates kept in increasing order and
/// keeps the first `limit` of them.
pub fn push_candidate(candidates: &mut Vec<(i64, usize)>, candidate: (i64, usize), limit: usize)
    requires
        1 <= limit,
        keys_sorted(old(candidates)@),
        !old(candidates)@.contains(candidate),
        old(candidates)@.len() <= limit,
    ensures
        keys_sorted(final(candidates)@),
        final(candidates)@.len() == if old(candidates)@.len() < limit {
            old(candidates)@.len() + 1
        } else {
            limit as nat
        },
        forall|x: (i64, usize)|
            #[trigger] final(candidates)@.contains(x) ==> old(candidates)@.contains(x) || x
                == candidate,
        forall|x: (i64, usize)|
            (old(candidates)@.contains(x) || x == candidate) && !#[trigger] final(candidates)@.contains(x)
                ==> final(candidates)@.len() == limit && limit > 0 && key_lt(
                final(candidates)@[limit - 1],
                x,
            ),
        old(candidates)@.len() == limit && limit > 0 ==> !key_lt(
            old(candidates)@[limit - 1],
            final(candidates)@[limit - 1],
        ),
        old(candidates)@.len() < limit ==> forall|x: (i64, usize)|
            (old(candidates)@.contains(x) || x == candidate) ==> #[trigger] final(candidates)@.contains(x),
{
    let ghost old_seq = candidates@;
    let mut pos: usize = 0;
    while pos < candidates.len() && !(candidate.0 < candidates[pos].0 || (candidate.0
        == candidates[pos].0 && candidate.1 < candidates[pos].1))
        invariant
            candidates@ == old_seq,
            pos <= old_seq.len(),
            keys_sorted(old_seq),
            !old_seq.contains(candidate),
            forall|j: int| 0 <= j < pos ==> key_lt(#[trigger] old_seq[j], candidate),
        decreases old_seq.len() - pos,
    {
        proof {
            assert(old_seq[pos as int] != candidate);
        }
        pos = pos + 1;
    }
    proof {
        if pos < old_seq.len() {
            assert(key_lt(candidate, old_seq[pos as int]));
            assert forall|j: int| pos <= j < old_seq.len() implies key_lt(candidate, #[trigger] old_seq[j]) by {
                if j > pos {
                    assert(key_lt(old_seq[pos as int], old_seq[j]));
                }
            }
        }
    }
    candidates.insert(pos, candidate);
    let ghost inserted = candidates@;
    proof {
        assert(inserted == old_seq.insert(pos as int, candidate));
        assert forall|i: int, j: int| 0 <= i < j < inserted.len() implies key_lt(
            #[trigger] inserted[i],
            #[trigger] inserted[j],
        ) by {
            if j < pos {
                assert(inserted[i] == old_seq[i] && inserted[j] == old_seq[j]);
            } else if j == pos {
                assert(inserted[i] == old_seq[i]);
            } else if i < pos {
                assert(inserted[i] == old_seq[i] && inserted[j] == old_seq[j - 1]);
                assert(key_lt(old_seq[i], candidate));
                assert(key_lt(candidate, old_seq[j - 1]));
            } else if i == pos {
                assert(inserted[j] == old_seq[j - 1]);
            } else {
                assert(inserted[i] == old_seq[i - 1] && inserted[j] == old_seq[j - 1]);
            }
        }
        assert forall|x: (i64, usize)| inserted.contains(x) <==> (old_seq.contains(x) || x == candidate) by {
            if inserted.contains(x) {
                let i = choose|i: int| 0 <= i < inserted.len() && inserted[i] == x;
                if i < pos {
                    assert(old_seq[i] == x);
                } else if i > pos {
                    assert(old_seq[i - 1] == x);
                }
            }
            if old_seq.contains(x) {
                let i = choose|i: int| 0 <= i < old_seq.len() && old_seq[i] == x;
                if i < pos {
                    assert(inserted[i] == x);
                } else {
                    assert(inserted[i + 1] == x);
                }
            }
            if x == candidate {
                assert(inserted[pos as int] == x);
            }
        }
    }
    candidates.truncate(limit);
    proof {
        let fin = candidates@;
        if inserted.len() > limit {
            assert(fin == inserted.subrange(0, limit as int));
            assert(inserted.len() == limit + 1);
            assert forall|x: (i64, usize)|
                (old_seq.contains(x) || x == candidate) && !#[trigger] fin.contains(x) implies fin.len()
                == limit && limit > 0 && key_lt(fin[limit - 1], x) by {
                assert(inserted.contains(x));
                let i = choose|i: int| 0 <= i < inserted.len() && inserted[i] == x;
                if i < limit {
                    assert(fin[i] == x);
                }
                assert(i == limit);
                assert(fin[limit - 1] == inserted[limit - 1]);
                assert(key_lt(inserted[limit - 1], inserted[i]));
            }
            assert forall|x: (i64, usize)| #[trigger] fin.contains(x) implies old_seq.contains(x) || x
                == candidate by {
                let i = choose|i: int| 0 <= i < fin.len() && fin[i] == x;
                assert(inserted[i] == x);
            }
            if old_seq.len() == limit && limit > 0 {
                assert(fin[limit - 1] == inserted[limit - 1]);
                if pos < limit {
                    if pos == limit - 1 {
                        assert(inserted[limit - 1] == candidate);
                        assert(key_lt(candidate, old_seq[limit - 1]));
                    } else {
                        assert(inserted[limit - 1] == old_seq[limit - 2]);
                        assert(key_lt(old_seq[limit - 2], old_seq[limit - 1]));
                    }
                } else {
                    assert(inserted[limit - 1] == old_seq[limit - 1]);
                }
            }
        } else {
            assert(fin == inserted);
        }
    }
}

/// A rooted spanning tree of the dual nodes with its tree arcs.
pub struct CompactTreeBasis {
    pub tree_mask: Vec<bool>,
    pub depth: Vec<usize>,
    pub parent: Vec<u32>,
    pub parent_base: Vec<usize>,
    pub up_arc: Vec<usize>,
    pub down_arc: Vec<usize>,
    pub order: Vec<usize>,
    pub levels: usize,
    pub node_count: usize,
}

impl CompactTreeBasis {
    /// The tables describe a tree over `0..node_count` rooted at node 0, with
    /// its ancestor table, its parents once more as plain indices, and its
    /// breadth-first order.
    pub open spec fn wf(&self) -> bool {
        let n = self.node_count as int;
        &&& 1 <= n <= u32::MAX
        &&& 1 <= self.levels <= 33
        &&& (n > 1 ==> self.levels >= 2)
        &&& self.parent.len() == self.levels * n
        &&& rooted_ok(self.parent@, self.depth@, n)
        &&& lifting_ok(self.parent@, self.levels as int, n)
        &&& forall|i: int| 0 <= i < self.parent@.len() ==> (#[trigger] self.parent@[i] as int) < n
        &&& forall|v: int|
            0 <= v < n ==> (#[trigger] self.depth@[v] as int) < pow2_int(self.levels - 1)
        &&& self.parent_base@.len() == n
        &&& forall|v: int| 0 <= v < n ==> #[trigger] self.parent_base@[v] as int == self.parent@[v] as int
        &&& self.up_arc@.len() == n
        &&& self.down_arc@.len() == n
        &&& order_ok(self.order@, self.parent@, n)
    }

    /// The tree is one of `view`'s grid: its nodes are the view's nodes, its
    /// mask covers the view's arcs, and every node but the root climbs to its
    /// parent by its up arc and is reached from it by its down arc.
    pub open spec fn fits(&self, view: &CompactResidualView<'_>) -> bool {
        let n = self.node_count as int;
        &&& self.wf()
        &&& view.wf()
        &&& n == dual_node_count(view.nrow as int, view.ncol as int)
        &&& self.tree_mask@.len() == view_arc_count(view.nrow as int, view.ncol as int)
        &&& forall|v: int|
            1 <= v < n ==> view_arc_runs(view, #[trigger] self.up_arc@[v] as int, v, self.parent@[v] as int)
        &&& forall|v: int|
            1 <= v < n ==> view_arc_runs(view, #[trigger] self.down_arc@[v] as int, self.parent@[v] as int, v)
    }

    /// Where the climbs from `a` and `b` meet.
    pub open spec fn meet_of(&self, a: int, b: int) -> int {
        meet(self.parent@, self.depth@, self.node_count as int, a, b)
    }

    /// Cost of the tree path from `a` up to where the climbs meet and down
    /// to `b`, in `view`.
    pub open spec fn path_total(&self, view: &CompactResidualView<'_>, a: int, b: int) -> int {
        let m = self.meet_of(a, b);
        tree_sum(self.parent@, self.up_arc@, view, a, (self.depth@[a] - self.depth@[m]) as nat)
            + tree_sum(self.parent@, self.down_arc@, view, b, (self.depth@[b] - self.depth@[m]) as nat)
    }

    /// The tree path cost read from root costs `up` and `down`.
    pub open spec fn root_path_total(&self, up: Seq<i64>, down: Seq<i64>, a: int, b: int) -> int {
        let m = self.meet_of(a, b);
        (up[a] - up[m]) + (down[b] - down[m])
    }

    /// The tree path from `a` up to where the climbs meet and down to `b`.
    pub open spec fn path_spec(&self, a: int, b: int) -> Seq<usize> {
        let m = self.meet_of(a, b);
        up_path(self.parent@, self.up_arc@, a, (self.depth@[a] - self.depth@[m]) as nat) + down_path(
            self.parent@,
            self.down_arc@,
            b,
            (self.depth@[b] - self.depth@[m]) as nat,
        )
    }

    /// Cost of arc `k` plus the tree path back from its head to its tail.
    pub open spec fn cycle_total(&self, view: &CompactResidualView<'_>, k: int) -> int {
        let a = view.arc_at(k)->0;
        a.cost as int + self.path_total(view, a.to as int, a.from as int)
    }

    /// Arc `k` is present, off the tree, between nodes of the tree, and
    /// closes a cycle of negative cost; the path back and the cycle cost fit
    /// in `i64`.
    pub open spec fn negative_candidate(&self, view: &CompactResidualView<'_>, k: int) -> bool {
        let a = view.arc_at(k)->0;
        &&& 0 <= k < self.tree_mask@.len()
        &&& !self.tree_mask@[k]
        &&& view.arc_at(k) is Some
        &&& (a.from as int) < self.node_count
        &&& (a.to as int) < self.node_count
        &&& i64::MIN <= self.path_total(view, a.to as int, a.from as int) <= i64::MAX
        &&& i64::MIN <= self.cycle_total(view, k) < 0
    }

    /// Candidate `k` is cheaper than candidate `j`, ties going to the lower index.
    pub open spec fn cheaper(&self, view: &CompactResidualView<'_>, k: int, j: int) -> bool {
        self.cycle_total(view, k) < self.cycle_total(view, j) || (self.cycle_total(view, k)
            == self.cycle_total(view, j) && k < j)
    }

    /// Root costs as `root_costs` returns them.
    pub open spec fn root_costs_ok(
        &self,
        view: &CompactResidualView<'_>,
        up_root_cost: Seq<i64>,
        down_root_cost: Seq<i64>,
    ) -> bool {
        &&& up_root_cost.len() == self.node_count
        &&& down_root_cost.len() == self.node_count
        &&& forall|v: int|
            0 <= v < self.node_count ==> #[trigger] up_root_cost[v] == tree_sum(
                self.parent@,
                self.up_arc@,
                view,
                v,
                self.depth@[v] as nat,
            )
        &&& forall|v: int|
            0 <= v < self.node_count ==> #[trigger] down_root_cost[v] == tree_sum(
                self.parent@,
                self.down_arc@,
                view,
                v,
                self.depth@[v] as nat,
            )
    }

    /// Position of `node`'s ancestor at `level` in the flat table.
    pub fn index(&self, level: usize, node: usize) -> (r: usize)
        requires
            self.wf(),
            level < self.levels,
            node < self.node_count,
        ensures
            r == level * self.node_count + node,
            r < self.parent@.len(),
    {
        proof {
            lemma_slot(level as int, self.levels as int, node as int, self.node_count as int);
        }
        level * self.node_count + node
    }

    /// Climbs from `node` by the binary digits of `steps` that the table
    /// covers: `steps` modulo `2^levels` steps up the tree. `None` for a node
    /// outside the tree.
    pub fn raise(&self, node: usize, steps: usize) -> (r: Option<usize>)
        requires
            self.wf(),
        ensures
            r is None <==> node >= self.node_count,
            r matches Some(v) ==> v < self.node_count && v as int == climb(
                self.parent@,
                node as int,
                (steps as int % pow2_int(self.levels as int)) as nat,
            ),
    {
        if node >= self.node_count {
            return None;
        }
        let ghost n = self.node_count as int;
        let ghost p = self.parent@;
        let ghost node0 = node as int;
        let mut node = node;
        let mut level: usize = 0;
        proof {
            assert(pow2_int(0) == 1);
            assert(steps as int % 1 == 0);
        }
        while level < self.levels
            invariant
                self.wf(),
                n == self.node_count,
                p == self.parent@,
                0 <= node0 < n,
                level <= self.levels,
                node < self.node_count,
                node as int == climb(p, node0, (steps as int % pow2_int(level as int)) as nat),
            decreases self.levels - level,
        {
            let ghost e = steps as int % pow2_int(level as int);
            let ghost w = pow2_int(level as int);
            let ghost bit = (steps as int / w) % 2;
            proof {
                lemma_bit_of(steps as u64, level as u64);
                lemma_pow2_int_pos(level as int);
                vstd::arithmetic::div_mod::lemma_mod_breakdown(steps as int, w, 2);
                assert(pow2_int(level + 1) == w * 2);
                assert(steps as int % pow2_int(level + 1) == w * bit + e);
                assert(0 <= e);
                assert(bit == 0 || bit == 1);
                if bit == 1 {
                    assert(w * bit == w) by (nonlinear_arith)
                        requires
                            bit == 1,
                    ;
                } else {
                    assert(w * bit == 0) by (nonlinear_arith)
                        requires
                            bit == 0,
                    ;
                }
            }
            if (((steps as u64) >> (level as u64)) & 1) == 1 {
                proof {
                    lemma_slot(level as int, self.levels as int, node as int, n);
                    assert(slot(p, n, level as int, node as int) == climb(p, node as int, w as nat));
                    lemma_climb_add(p, node0, e as nat, w as nat);
                    assert(steps as int % pow2_int(level + 1) == e + w);
                }
                node = self.parent[self.index(level, node)] as usize;
            } else {
                proof {
                    assert(steps as int % pow2_int(level + 1) == e);
                }
            }
            level = level + 1;
        }
        Some(node)
    }

    /// Where the climbs from `left` and `right` meet; `None` for a node
    /// outside the tree.
    pub fn lca(&self, left: usize, right: usize) -> (r: Option<usize>)
        requires
            self.wf(),
        ensures
            r is None <==> (left >= self.node_count || right >= self.node_count),
            r matches Some(m) ==> m < self.node_count && m as int == self.meet_of(
                left as int,
                right as int,
            ),
    {
        if left >= self.node_count || right >= self.node_count {
            return None;
        }
        let ghost n = self.node_count as int;
        let ghost p = self.parent@;
        let ghost d = self.depth@;
        let ghost m0 = meet(p, d, n, left as int, right as int);
        let mut left = left;
        let mut right = right;
        let ghost left0 = left as int;
        let ghost right0 = right as int;
        proof {
            lemma_pow2_int_pos(self.levels - 1);
            assert(pow2_int(self.levels as int) == 2 * pow2_int(self.levels - 1));
            assert((d[left0] as int) < pow2_int(self.levels - 1));
            assert((d[right0] as int) < pow2_int(self.levels - 1));
        }
        if self.depth[left] > self.depth[right] {
            let diff = self.depth[left] - self.depth[right];
            left = match self.raise(left, diff) {
                Some(v) => v,
                None => {
                    return None;
                },
            };
            proof {
                vstd::arithmetic::div_mod::lemma_small_mod(
                    diff as nat,
                    pow2_int(self.levels as int) as nat,
                );
                lemma_meet_deeper(p, d, n, left0, right0);
                lemma_climb_depth(p, d, n, left0, diff as nat);
            }
        } else if self.depth[right] > self.depth[left] {
            let diff = self.depth[right] - self.depth[left];
            right = match self.raise(right, diff) {
                Some(v) => v,
                None => {
                    return None;
                },
            };
            proof {
                vstd::arithmetic::div_mod::lemma_small_mod(
                    diff as nat,
                    pow2_int(self.levels as int) as nat,
                );
                lemma_meet_deeper_right(p, d, n, left0, right0);
                lemma_climb_depth(p, d, n, right0, diff as nat);
            }
        }
        if left == right {
            return Some(left);
        }
        let mut level = self.levels;
        proof {
            lemma_climb_depth(p, d, n, left as int, pow2_int(level as int) as nat);
            lemma_climb_depth(p, d, n, right as int, pow2_int(level as int) as nat);
        }
        while level > 0
            invariant
                self.wf(),
                n == self.node_count,
                p == self.parent@,
                d == self.depth@,
                level <= self.levels,
                left < self.node_count,
                right < self.node_count,
                left != right,
                d[left as int] == d[right as int],
                climb(p, left as int, pow2_int(level as int) as nat) == climb(
                    p,
                    right as int,
                    pow2_int(level as int) as nat,
                ),
                meet(p, d, n, left as int, right as int) == m0,
            decreases level,
        {
            level = level - 1;
            let ghost w = pow2_int(level as int);
            proof {
                lemma_pow2_int_pos(level as int);
                assert(pow2_int(level + 1) == w + w);
                lemma_slot(level as int, self.levels as int, left as int, n);
                lemma_slot(level as int, self.levels as int, right as int, n);
                assert(slot(p, n, level as int, left as int) == climb(p, left as int, w as nat));
                assert(slot(p, n, level as int, right as int) == climb(p, right as int, w as nat));
            }
            let left_up = self.parent[self.index(level, left)];
            let right_up = self.parent[self.index(level, right)];
            if left_up != right_up {
                proof {
                    lemma_meet_same_depth(p, d, n, left as int, right as int, w as nat);
                    lemma_climb_add(p, left as int, w as nat, w as nat);
                    lemma_climb_add(p, right as int, w as nat, w as nat);
                }
                left = left_up as usize;
                right = right_up as usize;
            }
        }
        proof {
            assert(pow2_int(0) == 1);
            assert(climb(p, p[left as int] as int, 0) == p[left as int] as int);
            assert(climb(p, p[right as int] as int, 0) == p[right as int] as int);
            assert(climb(p, left as int, 1) == p[left as int] as int);
            assert(climb(p, right as int, 1) == p[right as int] as int);
            lemma_meet_parent(p, d, n, left as int, right as int);
        }
        Some(self.parent_base[left])
    }

    /// Cost of the climb from every node to the root by its up arcs, and of
    /// the descent from the root to every node by the down arcs, in `view`.
    pub fn root_costs(&self, view: &CompactResidualView<'_>) -> (r: Option<(Vec<i64>, Vec<i64>)>)
        requires
            self.fits(view),
        ensures
            r matches Some(c) && self.root_costs_ok(view, c.0@, c.1@),
    {
        let n = self.node_count;
        let ghost p = self.parent@;
        let ghost d = self.depth@;
        let mut up_root_cost: Vec<i64> = Vec::new();
        let mut down_root_cost: Vec<i64> = Vec::new();
        let mut i: usize = 0;
        while i < n
            invariant
                i <= n,
                up_root_cost@.len() == i,
                down_root_cost@.len() == i,
                forall|q: int| 0 <= q < i ==> #[trigger] up_root_cost@[q] == 0,
                forall|q: int| 0 <= q < i ==> #[trigger] down_root_cost@[q] == 0,
            decreases n - i,
        {
            up_root_cost.push(0);
            down_root_cost.push(0);
            i = i + 1;
        }
        proof {
            assert(self.order@[0] == 0);
            assert(d[0] == 0);
        }
        let mut k: usize = 1;
        while k < n
            invariant
                self.fits(view),
                n == self.node_count,
                p == self.parent@,
                d == self.depth@,
                1 <= k <= n,
                up_root_cost@.len() == n,
                down_root_cost@.len() == n,
                forall|j: int|
                    0 <= j < k ==> #[trigger] up_root_cost@[self.order@[j] as int] == tree_sum(
                        p,
                        self.up_arc@,
                        view,
                        self.order@[j] as int,
                        d[self.order@[j] as int] as nat,
                    ) && down_root_cost@[self.order@[j] as int] == tree_sum(
                        p,
                        self.down_arc@,
                        view,
                        self.order@[j] as int,
                        d[self.order@[j] as int] as nat,
                    ),
            decreases n - k,
        {
            let node = self.order[k];
            let parent = self.parent_base[node];
            let ghost j0 = choose|j: int| 0 <= j < k && self.order@[j] == p[#[trigger] self.order@[k as int] as int];
            proof {
                assert(exists|j: int| 0 <= j < k && self.order@[j] == p[#[trigger] self.order@[k as int] as int]);
                assert(self.order@[j0] == p[node as int]);
                assert(parent as int == p[node as int] as int);
                assert(node != 0) by {
                    assert(self.order@[0] != self.order@[k as int]);
                }
                lemma_depth_step(p, d, n as int, node as int);
                assert(up_root_cost@[parent as int] == tree_sum(p, self.up_arc@, view, parent as int, d[parent as int] as nat));
                lemma_tree_sum_bound(self, view, parent as int, d[parent as int] as nat, true);
                lemma_tree_sum_bound(self, view, parent as int, d[parent as int] as nat, false);
                assert(view_arc_runs(view, self.up_arc@[node as int] as int, node as int, p[node as int] as int));
                assert(view_arc_runs(view, self.down_arc@[node as int] as int, p[node as int] as int, node as int));
                lemma_depth_fits(self, node as int);
            }
            let up_step = match view.arc(self.up_arc[node]) {
                Some(a) => a.cost,
                None => {
                    return None;
                },
            };
            let down_step = match view.arc(self.down_arc[node]) {
                Some(a) => a.cost,
                None => {
                    return None;
                },
            };
            let up = up_root_cost[parent] + up_step as i64;
            let down = down_root_cost[parent] + down_step as i64;
            let ghost u0 = up_root_cost@;
            let ghost w0 = down_root_cost@;
            up_root_cost.set(node, up);
            down_root_cost.set(node, down);
            proof {
                assert((d[node as int] - 1) as nat == d[parent as int] as nat);
                assert forall|j: int|
                    0 <= j < k + 1 implies #[trigger] up_root_cost@[self.order@[j] as int] == tree_sum(
                    p,
                    self.up_arc@,
                    view,
                    self.order@[j] as int,
                    d[self.order@[j] as int] as nat,
                ) && down_root_cost@[self.order@[j] as int] == tree_sum(
                    p,
                    self.down_arc@,
                    view,
                    self.order@[j] as int,
                    d[self.order@[j] as int] as nat,
                ) by {
                    if j < k {
                        assert(self.order@[j] != self.order@[k as int]);
                        assert(u0[self.order@[j] as int] == up_root_cost@[self.order@[j] as int]);
                    } else {
                        assert(self.order@[j] == node);
                        assert(up_step as int == arc_cost_of(view, self.up_arc@[node as int] as int));
                        assert(down_step as int == arc_cost_of(view, self.down_arc@[node as int] as int));
                        assert(tree_sum(p, self.up_arc@, view, node as int, d[node as int] as nat)
                            == arc_cost_of(view, self.up_arc@[node as int] as int) + tree_sum(
                            p,
                            self.up_arc@,
                            view,
                            parent as int,
                            d[parent as int] as nat,
                        ));
                        assert(tree_sum(p, self.down_arc@, view, node as int, d[node as int] as nat)
                            == arc_cost_of(view, self.down_arc@[node as int] as int) + tree_sum(
                            p,
                            self.down_arc@,
                            view,
                            parent as int,
                            d[parent as int] as nat,
                        ));
                    }
                }
            }
            k = k + 1;
        }
        proof {
            assert forall|v: int|
                0 <= v < n implies #[trigger] up_root_cost@[v] == tree_sum(
                p,
                self.up_arc@,
                view,
                v,
                d[v] as nat,
            ) && down_root_cost@[v] == tree_sum(p, self.down_arc@, view, v, d[v] as nat) by {
                lemma_order_covers(self.order@, n as int, v);
                let j = choose|j: int| 0 <= j < n && self.order@[j] == v;
                assert(up_root_cost@[self.order@[j] as int] == tree_sum(
                    p,
                    self.up_arc@,
                    view,
                    self.order@[j] as int,
                    d[self.order@[j] as int] as nat,
                ));
            }
        }
        proof {
            assert forall|v: int| 0 <= v < n implies #[trigger] down_root_cost@[v] == tree_sum(
                p,
                self.down_arc@,
                view,
                v,
                d[v] as nat,
            ) by {
                assert(up_root_cost@[v] == tree_sum(p, self.up_arc@, view, v, d[v] as nat));
            }
        }
        Some((up_root_cost, down_root_cost))
    }

    /// Cost of the tree path from `from` to `to` read from the root costs:
    /// the climb cost of `from` above where the climbs meet plus the descent
    /// cost of `to` below it; `None` for a node outside the tree or a total
    /// outside `i64`.
    pub fn path_cost_with(
        &self,
        from: usize,
        to: usize,
        up_root_cost: &Vec<i64>,
        down_root_cost: &Vec<i64>,
    ) -> (r: Option<i64>)
        requires
            self.wf(),
            up_root_cost@.len() == self.node_count,
            down_root_cost@.len() == self.node_count,
        ensures
            r is Some <==> from < self.node_count && to < self.node_count && i64::MIN
                <= self.root_path_total(up_root_cost@, down_root_cost@, from as int, to as int)
                <= i64::MAX,
            r matches Some(c) ==> c == self.root_path_total(
                up_root_cost@,
                down_root_cost@,
                from as int,
                to as int,
            ),
    {
        let lca = match self.lca(from, to) {
            Some(m) => m,
            None => {
                return None;
            },
        };
        let total: i128 = (up_root_cost[from] as i128 - up_root_cost[lca] as i128) + (
        down_root_cost[to] as i128 - down_root_cost[lca] as i128);
        if total < i64::MIN as i128 || total > i64::MAX as i128 {
            return None;
        }
        Some(total as i64)
    }

    /// The arcs of the tree path from `from` up to where the climbs meet and
    /// down to `to`; `None` for a node outside the tree.
    pub fn path_arcs(&self, from: usize, to: usize) -> (r: Option<Vec<usize>>)
        requires
            self.wf(),
        ensures
            r is None <==> (from >= self.node_count || to >= self.node_count),
            r matches Some(path) ==> path@ == self.path_spec(from as int, to as int),
    {
        let lca = match self.lca(from, to) {
            Some(m) => m,
            None => {
                return None;
            },
        };
        let ghost n = self.node_count as int;
        let ghost p = self.parent@;
        let ghost d = self.depth@;
        let ghost from0 = from as int;
        let ghost to0 = to as int;
        proof {
            lemma_meet_ancestor(p, d, n, from0, to0);
        }
        let ghost ka = (d[from0] - d[lca as int]) as nat;
        let ghost kb = (d[to0] - d[lca as int]) as nat;
        let mut from = from;
        let mut path: Vec<usize> = Vec::new();
        let ghost mut i: nat = 0;
        while from != lca
            invariant
                self.wf(),
                n == self.node_count,
                p == self.parent@,
                d == self.depth@,
                0 <= from0 < n,
                lca < n,
                i <= ka,
                from < n,
                from as int == climb(p, from0, i),
                lca as int == climb(p, from0, ka),
                d[from as int] == d[from0] - i,
                ka == d[from0] - d[lca as int],
                path@ == up_path(p, self.up_arc@, from0, i),
            decreases d[from as int],
        {
            proof {
                if i == ka {
                    assert(false);
                }
                lemma_depth_step(p, d, n, from as int);
                lemma_climb_add(p, from0, i, 1);
                assert(climb(p, from as int, 1) == p[from as int] as int) by {
                    assert(climb(p, p[from as int] as int, 0) == p[from as int] as int);
                }
            }
            path.push(self.up_arc[from]);
            from = self.parent_base[from];
            proof {
                i = i + 1;
                assert(path@ =~= up_path(p, self.up_arc@, from0, i));
            }
        }
        proof {
            if i < ka {
                lemma_climb_depth(p, d, n, from0, i);
                lemma_climb_depth(p, d, n, from0, ka);
            }
        }
        let mut to = to;
        let mut down: Vec<usize> = Vec::new();
        let ghost mut j: nat = 0;
        while to != lca
            invariant
                self.wf(),
                n == self.node_count,
                p == self.parent@,
                d == self.depth@,
                0 <= to0 < n,
                lca < n,
                j <= kb,
                to < n,
                to as int == climb(p, to0, j),
                lca as int == climb(p, to0, kb),
                d[to as int] == d[to0] - j,
                kb == d[to0] - d[lca as int],
                down@.len() == j,
                forall|q: int| 0 <= q < j ==> #[trigger] down@[q] == self.down_arc@[climb(p, to0, q as nat)],
            decreases d[to as int],
        {
            proof {
                if j == kb {
                    assert(false);
                }
                lemma_depth_step(p, d, n, to as int);
                lemma_climb_add(p, to0, j, 1);
                assert(climb(p, to as int, 1) == p[to as int] as int) by {
                    assert(climb(p, p[to as int] as int, 0) == p[to as int] as int);
                }
            }
            down.push(self.down_arc[to]);
            to = self.parent_base[to];
            proof {
                j = j + 1;
            }
        }
        proof {
            if j < kb {
                lemma_climb_depth(p, d, n, to0, j);
                lemma_climb_depth(p, d, n, to0, kb);
            }
            assert(j == kb);
        }
        let ghost up_part = path@;
        let mut t = down.len();
        while t > 0
            invariant
                t <= down@.len(),
                down@.len() == kb,
                path@.len() == up_part.len() + (kb - t),
                path@.subrange(0, up_part.len() as int) == up_part,
                forall|q: int|
                    0 <= q < kb - t ==> #[trigger] path@[up_part.len() + q] == down@[kb - 1 - q],
            decreases t,
        {
            t = t - 1;
            let ghost before = path@;
            path.push(down[t]);
            proof {
                assert(path@.subrange(0, up_part.len() as int) =~= before.subrange(0, up_part.len() as int));
            }
        }
        proof {
            let spec_down = down_path(p, self.down_arc@, to0, kb);
            assert(path@ =~= up_part + spec_down) by {
                assert forall|q: int| 0 <= q < path@.len() implies path@[q] == (up_part + spec_down)[q] by {
                    if q < up_part.len() {
                        assert(path@[q] == path@.subrange(0, up_part.len() as int)[q]);
                    } else {
                        let r = q - up_part.len();
                        assert(path@[up_part.len() + r] == down@[kb - 1 - r]);
                    }
                }
            }
        }
        Some(path)
    }

    /// Arc `non_tree_arc_index` followed by the tree path back from its head
    /// to its tail; `None` where the arc is absent or leaves the tree's nodes.
    pub fn cycle_for_arc(&self, view: &CompactResidualView<'_>, non_tree_arc_index: usize) -> (r:
        Option<Vec<usize>>)
        requires
            self.fits(view),
        ensures
            r is Some <==> view.arc_at(non_tree_arc_index as int) is Some && (view.arc_at(
                non_tree_arc_index as int,
            )->0.from as int) < self.node_count && (view.arc_at(
                non_tree_arc_index as int,
            )->0.to as int) < self.node_count,
            r matches Some(c) ==> {
                let a = view.arc_at(non_tree_arc_index as int)->0;
                &&& c@ == seq![non_tree_arc_index].add(self.path_spec(a.to as int, a.from as int))
                &&& view_closed_walk(view, c@)
                &&& seq_cost(view, c@) == a.cost as int + self.path_total(view, a.to as int, a.from as int)
            },
    {
        let non_tree = match view.arc(non_tree_arc_index) {
            Some(a) => a,
            None => {
                return None;
            },
        };
        let mut path = match self.path_arcs(non_tree.to, non_tree.from) {
            Some(p) => p,
            None => {
                return None;
            },
        };
        let ghost path0 = path@;
        let mut cycle: Vec<usize> = Vec::new();
        cycle.push(non_tree_arc_index);
        cycle.append(&mut path);
        proof {
            assert(cycle@ =~= seq![non_tree_arc_index].add(path0));
            lemma_cycle_of_arc(self, view, non_tree_arc_index as int, path0);
        }
        Some(cycle)
    }

    /// Cost of the fundamental cycle of arc `index` with the index, when the
    /// arc is off the tree and the cycle is negative; `None` otherwise.
    pub fn arc_cycle_cost(
        &self,
        view: &CompactResidualView<'_>,
        up_root_cost: &Vec<i64>,
        down_root_cost: &Vec<i64>,
        index: usize,
    ) -> (r: Option<(i64, usize)>)
        requires
            self.fits(view),
            self.root_costs_ok(view, up_root_cost@, down_root_cost@),
        ensures
            r == (if self.negative_candidate(view, index as int) {
                Some((self.cycle_total(view, index as int) as i64, index))
            } else {
                None::<(i64, usize)>
            }),
    {
        if index < self.tree_mask.len() && self.tree_mask[index] {
            return None;
        }
        let arc = match view.arc(index) {
            Some(a) => a,
            None => {
                return None;
            },
        };
        proof {
            if (arc.from as int) < self.node_count && (arc.to as int) < self.node_count {
                lemma_root_total_is_path_total(self, view, up_root_cost@, down_root_cost@, arc.to as int, arc.from as int);
            }
        }
        let path_cost = match self.path_cost_with(
            arc.to,
            arc.from,
            up_root_cost,
            down_root_cost,
        ) {
            Some(c) => c,
            None => {
                return None;
            },
        };
        let cost: i128 = arc.cost as i128 + path_cost as i128;
        if cost < 0 && cost >= i64::MIN as i128 {
            Some((cost as i64, index))
        } else {
            None
        }
    }

    /// The first arc whose fundamental cycle is cheapest among the negative
    /// ones; `None` when no arc closes a negative cycle.
    pub fn best_negative_arc(
        &self,
        view: &CompactResidualView<'_>,
        up_root_cost: &Vec<i64>,
        down_root_cost: &Vec<i64>,
    ) -> (r: Option<usize>)
        requires
            self.fits(view),
            self.root_costs_ok(view, up_root_cost@, down_root_cost@),
        ensures
            r is None ==> forall|k: int| !self.negative_candidate(view, k),
            r matches Some(b) ==> self.negative_candidate(view, b as int) && forall|k: int|
                #![trigger self.negative_candidate(view, k)]
                self.negative_candidate(view, k) && k != b ==> self.cheaper(view, b as int, k),
    {
        let count = view.arc_count();
        let mut best_arc: Option<usize> = None;
        let mut best_cost: i64 = 0;
        let mut index: usize = 0;
        while index < count
            invariant
                self.fits(view),
                self.root_costs_ok(view, up_root_cost@, down_root_cost@),
                count == view_arc_count(view.nrow as int, view.ncol as int),
                index <= count,
                best_arc is None ==> best_cost == 0 && forall|k: int|
                    0 <= k < index ==> !self.negative_candidate(view, k),
                best_arc matches Some(b) ==> b < index && self.negative_candidate(view, b as int)
                    && best_cost == self.cycle_total(view, b as int) && forall|k: int|
                    #![trigger self.negative_candidate(view, k)]
                    0 <= k < index && self.negative_candidate(view, k) && k != b ==> self.cheaper(
                        view,
                        b as int,
                        k,
                    ),
            decreases count - index,
        {
            match self.arc_cycle_cost(view, up_root_cost, down_root_cost, index) {
                Some((cost, _index)) => {
                    if cost < best_cost {
                        best_cost = cost;
                        best_arc = Some(index);
                    }
                },
                None => {},
            }
            index = index + 1;
        }
        proof {
            assert forall|k: int| !(0 <= k < count) implies !self.negative_candidate(view, k) by {}
        }
        best_arc
    }

    /// The fundamental cycle of the cheapest negative arc: the arc, then the
    /// tree path back from its head to its tail. `None` when no arc off the
    /// tree closes a negative cycle.
    pub fn find_negative_cycle(&self, view: &CompactResidualView<'_>) -> (r: Option<Vec<usize>>)
        requires
            self.fits(view),
        ensures
            r is None <==> forall|k: int| !self.negative_candidate(view, k),
            r matches Some(c) ==> {
                let b = c@[0] as int;
                let a = view.arc_at(b)->0;
                &&& c@.len() >= 1
                &&& self.negative_candidate(view, b)
                &&& forall|k: int|
                    #![trigger self.negative_candidate(view, k)]
                    self.negative_candidate(view, k) && k != b ==> self.cheaper(view, b, k)
                &&& c@ == seq![c@[0]].add(self.path_spec(a.to as int, a.from as int))
                &&& view_closed_walk(view, c@)
                &&& seq_cost(view, c@) == self.cycle_total(view, b)
                &&& seq_cost(view, c@) < 0
            },
    {
        let (up_root_cost, down_root_cost) = match self.root_costs(view) {
            Some(c) => c,
            None => {
                return None;
            },
        };
        let best = match self.best_negative_arc(view, &up_root_cost, &down_root_cost) {
            Some(b) => b,
            None => {
                return None;
            },
        };
        let r = self.cycle_for_arc(view, best);
        proof {
            let c = r->0;
            assert(c@[0] == best);
        }
        r
    }

    /// Sort key of candidate `k`: the cost of its cycle, then its index.
    pub open spec fn key_of(&self, view: &CompactResidualView<'_>, k: int) -> (i64, usize) {
        (self.cycle_total(view, k) as i64, k as usize)
    }

    /// The `limit` cheapest negative candidates as `(cost, index)`, cheapest
    /// first, ties going to the lower index.
    pub fn negative_candidate_arcs(
        &self,
        view: &CompactResidualView<'_>,
        up_root_cost: &Vec<i64>,
        down_root_cost: &Vec<i64>,
        limit: usize,
    ) -> (r: Vec<(i64, usize)>)
        requires
            self.fits(view),
            self.root_costs_ok(view, up_root_cost@, down_root_cost@),
        ensures
            keys_sorted(r@),
            r@.len() <= limit,
            forall|i: int|
                0 <= i < r@.len() ==> self.negative_candidate(view, (#[trigger] r@[i]).1 as int)
                    && r@[i] == self.key_of(view, r@[i].1 as int),
            forall|k: int|
                self.negative_candidate(view, k) && !r@.contains(#[trigger] self.key_of(view, k))
                    ==> r@.len() == limit && (limit > 0 ==> key_lt(r@[limit - 1], self.key_of(view, k))),
    {
        let mut candidates: Vec<(i64, usize)> = Vec::new();
        if limit == 0 {
            proof {
                assert forall|k: int|
                    self.negative_candidate(view, k) && !candidates@.contains(
                        #[trigger] self.key_of(view, k),
                    ) implies candidates@.len() == limit && (limit > 0 ==> key_lt(
                    candidates@[limit - 1],
                    self.key_of(view, k),
                )) by {
                }
            }
            return candidates;
        }
        let count = view.arc_count();
        let mut index: usize = 0;
        while index < count
            invariant
                self.fits(view),
                self.root_costs_ok(view, up_root_cost@, down_root_cost@),
                count == view_arc_count(view.nrow as int, view.ncol as int),
                1 <= limit,
                index <= count,
                keys_sorted(candidates@),
                candidates@.len() <= limit,
                forall|i: int|
                    0 <= i < candidates@.len() ==> (#[trigger] candidates@[i]).1 < index
                        && self.negative_candidate(view, candidates@[i].1 as int) && candidates@[i]
                        == self.key_of(view, candidates@[i].1 as int),
                forall|k: int|
                    0 <= k < index && self.negative_candidate(view, k) && !candidates@.contains(
                        #[trigger] self.key_of(view, k),
                    ) ==> candidates@.len() == limit && key_lt(
                        candidates@[limit - 1],
                        self.key_of(view, k),
                    ),
            decreases count - index,
        {
            match self.arc_cycle_cost(view, up_root_cost, down_root_cost, index) {
                Some(candidate) => {
                    let ghost before = candidates@;
                    proof {
                        assert(candidate == self.key_of(view, index as int));
                        if before.contains(candidate) {
                            let i = choose|i: int| 0 <= i < before.len() && before[i] == candidate;
                            assert(before[i].1 < index);
                        }
                    }
                    push_candidate(&mut candidates, candidate, limit);
                    proof {
                        assert forall|i: int| 0 <= i < candidates@.len() implies (#[trigger] candidates@[i]).1
                            < index + 1 && self.negative_candidate(view, candidates@[i].1 as int)
                            && candidates@[i] == self.key_of(view, candidates@[i].1 as int) by {
                            assert(candidates@.contains(candidates@[i]));
                            if candidates@[i] != candidate {
                                let j = choose|j: int| 0 <= j < before.len() && before[j] == candidates@[i];
                                assert(before[j].1 < index);
                            }
                        }
                        assert forall|k: int|
                            0 <= k < index + 1 && self.negative_candidate(view, k) && !candidates@.contains(
                                #[trigger] self.key_of(view, k),
                            ) implies candidates@.len() == limit && key_lt(
                            candidates@[limit - 1],
                            self.key_of(view, k),
                        ) by {
                            let x = self.key_of(view, k);
                            if k == index || before.contains(x) {
                            } else {
                                assert(before.len() == limit && key_lt(before[limit - 1], x));
                            }
                        }
                    }
                },
                None => {},
            }
            index = index + 1;
        }
        proof {
            assert forall|k: int|
                self.negative_candidate(view, k) && !candidates@.contains(#[trigger] self.key_of(view, k))
                    implies candidates@.len() == limit && (limit > 0 ==> key_lt(
                candidates@[limit - 1],
                self.key_of(view, k),
            )) by {
                assert(0 <= k < count);
            }
        }
        candidates
    }

    /// The fundamental cycles of the `limit` cheapest negative arcs, cheapest
    /// first, ties going to the lower index.
    pub fn negative_cycles(&self, view: &CompactResidualView<'_>, limit: usize) -> (r: Vec<Vec<usize>>)
        requires
            self.fits(view),
        ensures
            r@.len() <= limit,
            forall|i: int|
                0 <= i < r@.len() ==> {
                    let c = (#[trigger] r@[i])@;
                    &&& c.len() >= 1
                    &&& self.negative_candidate(view, c[0] as int)
                    &&& view_closed_walk(view, c)
                    &&& seq_cost(view, c) == self.cycle_total(view, c[0] as int)
                },
            forall|i: int, j: int|
                0 <= i < j < r@.len() ==> self.cheaper(view, (#[trigger] r@[i])@[0] as int, (#[trigger] r@[j])@[0] as int),
            forall|k: int|
                #![trigger self.negative_candidate(view, k)]
                self.negative_candidate(view, k) && (forall|i: int| 0 <= i < r@.len() ==> (#[trigger] r@[i])@[0] != k)
                    ==> r@.len() == limit && (limit > 0 ==> self.cheaper(view, r@[limit - 1]@[0] as int, k)),
    {
        let (up_root_cost, down_root_cost) = match self.root_costs(view) {
            Some(c) => c,
            None => {
                return Vec::new();
            },
        };
        let candidates = self.negative_candidate_arcs(view, &up_root_cost, &down_root_cost, limit);
        let mut cycles: Vec<Vec<usize>> = Vec::new();
        let mut i: usize = 0;
        while i < candidates.len()
            invariant
                self.fits(view),
                i <= candidates@.len(),
                cycles@.len() == i,
                forall|q: int|
                    0 <= q < candidates@.len() ==> self.negative_candidate(view, (#[trigger] candidates@[q]).1 as int),
                forall|q: int|
                    0 <= q < i ==> {
                        let c = (#[trigger] cycles@[q])@;
                        &&& c.len() >= 1
                        &&& c[0] == candidates@[q].1
                        &&& view_closed_walk(view, c)
                        &&& seq_cost(view, c) == self.cycle_total(view, c[0] as int)
                    },
            decreases candidates@.len() - i,
        {
            let (_cost, index) = candidates[i];
            proof {
                assert(index == candidates@[i as int].1);
                assert(self.negative_candidate(view, index as int));
                assert(view.arc_at(index as int) is Some);
                assert((view.arc_at(index as int)->0.from as int) < self.node_count);
                assert((view.arc_at(index as int)->0.to as int) < self.node_count);
            }
            let found = self.cycle_for_arc(view, index);
            proof {
                assert(found is Some);
            }
            if let Some(c) = found {
                cycles.push(c);
            }
            i = i + 1;
        }
        proof {
            assert forall|q: int, j: int| 0 <= q < j < cycles@.len() implies self.cheaper(
                view,
                (#[trigger] cycles@[q])@[0] as int,
                (#[trigger] cycles@[j])@[0] as int,
            ) by {
                assert(key_lt(candidates@[q], candidates@[j]));
                assert(candidates@[q] == self.key_of(view, candidates@[q].1 as int));
                assert(candidates@[j] == self.key_of(view, candidates@[j].1 as int));
            }
            assert forall|k: int|
                #![trigger self.negative_candidate(view, k)]
                self.negative_candidate(view, k) && (forall|q: int| 0 <= q < cycles@.len() ==> (#[trigger] cycles@[q])@[0] != k)
                    implies cycles@.len() == limit && (limit > 0 ==> self.cheaper(view, cycles@[limit - 1]@[0] as int, k)) by {
                let x = self.key_of(view, k);
                if candidates@.contains(x) {
                    let q = choose|q: int| 0 <= q < candidates@.len() && candidates@[q] == x;
                    assert(cycles@[q]@[0] == k);
                }
                if limit > 0 {
                    assert(key_lt(candidates@[limit - 1], x));
                    assert(candidates@[limit - 1] == self.key_of(view, candidates@[limit - 1].1 as int));
                }
            }
        }
        cycles
    }

    /// Roots the tree given by `tree_arc_indices` at node 0 by breadth-first
    /// search. Indices whose arc is absent are skipped. `None` when a tree
    /// arc's pair partner is absent or not its reverse, when the tree does
    /// not reach every node, when there are more nodes than `u32` holds, or
    /// when the ancestor table would not fit in memory.
    pub fn new(view: &CompactResidualView<'_>, tree_arc_indices: &[usize]) -> (r: Option<Self>)
        requires
            view.wf(),
            forall|k: int|
                0 <= k < tree_arc_indices@.len() ==> view_arc_in_nodes(
                    view,
                    #[trigger] tree_arc_indices@[k] as int,
                ),
        ensures
            dual_node_count(view.nrow as int, view.ncol as int) > u32::MAX ==> r is None,
            forall|k: int|
                0 <= k < tree_arc_indices@.len() && view.arc_at(
                    #[trigger] tree_arc_indices@[k] as int,
                ) is Some && !view_tree_pair_ok(view, tree_arc_indices@[k] as int) ==> r is None,
            r is None ==> ({
                let n = dual_node_count(view.nrow as int, view.ncol as int);
                ||| n > u32::MAX
                ||| exists|k: int|
                    0 <= k < tree_arc_indices@.len() && view.arc_at(#[trigger] tree_arc_indices@[k] as int) is Some
                        && !view_tree_pair_ok(view, tree_arc_indices@[k] as int)
                ||| (bit_length(n - 1) + 1) * n > usize::MAX
                ||| !basis_lists_reach_all(basis_lists(view, tree_arc_indices@, n))
            }),
            r matches Some(b) ==> b.fits(view),
            r matches Some(b) ==> forall|i: int|
                0 <= i < b.tree_mask@.len() ==> (#[trigger] b.tree_mask@[i] <==> basis_marks(
                    view,
                    tree_arc_indices@,
                    tree_arc_indices@.len() as int,
                    i,
                )),
    {
        let node_count = view.node_count();
        if node_count == 0 || node_count > 0xffff_ffff {
            return None;
        }
        let ghost n = node_count as int;
        let arc_count = view.arc_count();
        let mut tree_mask: Vec<bool> = Vec::new();
        let mut i: usize = 0;
        while i < arc_count
            invariant
                i <= arc_count,
                tree_mask@.len() == i,
                forall|q: int| 0 <= q < i ==> !(#[trigger] tree_mask@[q]),
            decreases arc_count - i,
        {
            tree_mask.push(false);
            i = i + 1;
        }
        let mut adjacency: Vec<Vec<(usize, usize, usize)>> = Vec::new();
        i = 0;
        while i < node_count
            invariant
                i <= node_count,
                adjacency@.len() == i,
                forall|u: int| 0 <= u < i ==> (#[trigger] adjacency@[u])@.len() == 0,
            decreases node_count - i,
        {
            adjacency.push(Vec::new());
            i = i + 1;
        }
        let mut k: usize = 0;
        while k < tree_arc_indices.len()
            invariant
                view.wf(),
                n == node_count,
                node_count == dual_node_count(view.nrow as int, view.ncol as int),
                arc_count == view_arc_count(view.nrow as int, view.ncol as int),
                forall|q: int|
                    0 <= q < tree_arc_indices@.len() ==> view_arc_in_nodes(
                        view,
                        #[trigger] tree_arc_indices@[q] as int,
                    ),
                k <= tree_arc_indices@.len(),
                adjacency@.len() == node_count,
                tree_mask@.len() == arc_count,
                basis_adj_ok(view, adjacency@),
                forall|q: int|
                    0 <= q < k && view.arc_at(#[trigger] tree_arc_indices@[q] as int) is Some
                        ==> view_tree_pair_ok(view, tree_arc_indices@[q] as int),
                forall|j: int|
                    0 <= j < arc_count ==> (#[trigger] tree_mask@[j] <==> basis_marks(
                        view,
                        tree_arc_indices@,
                        k as int,
                        j,
                    )),
            forall|u: int|
                    0 <= u < node_count ==> (#[trigger] adjacency@[u])@ == basis_list(view, tree_arc_indices@, k as int, u),
            decreases tree_arc_indices@.len() - k,
        {
            let index = tree_arc_indices[k];
            let arc = match view.arc(index) {
                Some(a) => a,
                None => {
                    proof {
                        assert forall|j: int|
                            0 <= j < arc_count implies (#[trigger] tree_mask@[j] <==> basis_marks(
                            view,
                            tree_arc_indices@,
                            k + 1,
                            j,
                        )) by {
                            if basis_marks(view, tree_arc_indices@, k + 1, j) {
                                let q = choose|q: int|
                                    0 <= q < k + 1 && view.arc_at(#[trigger] tree_arc_indices@[q] as int)
                                        is Some && (j == tree_arc_indices@[q] as int || j == partner(
                                        tree_arc_indices@[q] as int,
                                    ));
                                assert(q != k);
                            }
                            if basis_marks(view, tree_arc_indices@, k as int, j) {
                                let q = choose|q: int|
                                    0 <= q < k && view.arc_at(#[trigger] tree_arc_indices@[q] as int)
                                        is Some && (j == tree_arc_indices@[q] as int || j == partner(
                                        tree_arc_indices@[q] as int,
                                    ));
                                assert(0 <= q < k + 1);
                            }
                        }
                    }
                    proof {
                        assert forall|u: int| 0 <= u < node_count implies (#[trigger] adjacency@[u])@ == basis_list(
                            view,
                            tree_arc_indices@,
                            k + 1,
                            u,
                        ) by {
                            assert(view.arc_at(tree_arc_indices@[k as int] as int) is None);
                        }
                    }
                    k = k + 1;
                    continue;
                },
            };
            let reverse_index = index ^ 1;
            assert(reverse_index == (if index % 2 == 0 { index + 1 } else { index - 1 }))
                by (bit_vector)
                requires
                    reverse_index == index ^ 1,
            ;
            let reverse = match view.arc(reverse_index) {
                Some(a) => a,
                None => {
                    proof {
                        assert(view.arc_at(tree_arc_indices@[k as int] as int) is Some);
                        assert(!view_tree_pair_ok(view, tree_arc_indices@[k as int] as int));
                    }
                    return None;
                },
            };
            if reverse.from != arc.to || reverse.to != arc.from {
                proof {
                    assert(view.arc_at(tree_arc_indices@[k as int] as int) is Some);
                    assert(!view_tree_pair_ok(view, tree_arc_indices@[k as int] as int));
                }
                return None;
            }
            proof {
                assert(view_arc_in_nodes(view, tree_arc_indices@[k as int] as int));
                assert(view.arc_at(index as int) == Some(arc));
                assert(view.arc_at(reverse_index as int) == Some(reverse));
                assert(partner(index as int) == reverse_index);
            }
            let ghost m0 = tree_mask@;
            tree_mask.set(index, true);
            tree_mask.set(reverse_index, true);
            proof {
                assert forall|j: int|
                    0 <= j < arc_count implies (#[trigger] tree_mask@[j] <==> basis_marks(
                    view,
                    tree_arc_indices@,
                    k + 1,
                    j,
                )) by {
                    if j == index || j == reverse_index {
                        assert(tree_arc_indices@[k as int] == index);
                        assert(0 <= k < k + 1);
                        assert(basis_marks(view, tree_arc_indices@, k + 1, j));
                    } else {
                        assert(tree_mask@[j] == m0[j]);
                        if basis_marks(view, tree_arc_indices@, k + 1, j) {
                            let q = choose|q: int|
                                0 <= q < k + 1 && view.arc_at(#[trigger] tree_arc_indices@[q] as int)
                                    is Some && (j == tree_arc_indices@[q] as int || j == partner(
                                    tree_arc_indices@[q] as int,
                                ));
                            assert(q != k);
                        }
                        if basis_marks(view, tree_arc_indices@, k as int, j) {
                            let q = choose|q: int|
                                0 <= q < k && view.arc_at(#[trigger] tree_arc_indices@[q] as int)
                                    is Some && (j == tree_arc_indices@[q] as int || j == partner(
                                    tree_arc_indices@[q] as int,
                                ));
                            assert(0 <= q < k + 1);
                        }
                    }
                }
            }
            let ghost a0 = adjacency@;
            adjacency[arc.from].push((arc.to, index, reverse_index));
            let ghost a1 = adjacency@;
            adjacency[arc.to].push((arc.from, reverse_index, index));
            proof {
                assert(a1[arc.from as int]@ == a0[arc.from as int]@.push(
                    (arc.to, index, reverse_index),
                ));
                assert(adjacency@[arc.to as int]@ == a1[arc.to as int]@.push(
                    (arc.from, reverse_index, index),
                ));
                assert forall|u: int| 0 <= u < node_count implies (#[trigger] adjacency@[u])@ == basis_list(
                    view,
                    tree_arc_indices@,
                    k + 1,
                    u,
                ) by {
                    assert(a0[u]@ == basis_list(view, tree_arc_indices@, k as int, u));
                    if u != arc.from as int {
                        assert(a1[u]@ == a0[u]@);
                    }
                    if u != arc.to as int {
                        assert(adjacency@[u]@ == a1[u]@);
                    }
                }
                assert forall|u: int, m: int|
                    0 <= u < adjacency@.len() && 0 <= m < adjacency@[u]@.len() implies basis_entry_ok(
                    view,
                    adjacency@.len() as int,
                    u,
                    #[trigger] adjacency@[u]@[m],
                ) by {
                    if u != arc.to as int || m < a1[u]@.len() {
                        assert(adjacency@[u]@[m] == a1[u]@[m]);
                        if u != arc.from as int || m < a0[u]@.len() {
                            assert(a1[u]@[m] == a0[u]@[m]);
                        }
                    }
                }
            }
            k = k + 1;
        }
        let levels = ancestor_levels(node_count);
        proof {
            assert(levels * node_count >= node_count) by (nonlinear_arith)
                requires
                    levels >= 1,
                    node_count >= 0,
            ;
        }
        let slots = match levels.checked_mul(node_count) {
            Some(x) => x,
            None => {
                return None;
            },
        };
        let mut parent: Vec<u32> = Vec::new();
        i = 0;
        while i < slots
            invariant
                i <= slots,
                parent@.len() == i,
            decreases slots - i,
        {
            parent.push(0xffff_ffff);
            i = i + 1;
        }
        proof {
            lemma_basis_reaches_lists(adjacency@, basis_lists(view, tree_arc_indices@, node_count as int));
        }
        let built = match bfs_basis(&adjacency, &mut parent, Ghost(view)) {
            Some(b) => b,
            None => {
                return None;
            },
        };
        let (depth, parent_base, up_arc, down_arc, order) = built;
        let ghost base = parent@;
        proof {
            assert forall|q: int| 0 <= q < n implies (#[trigger] parent@[q] as int) < n by {
                assert((base[q] as int) < n);
            }
        }
        fill_ancestor_levels(&mut parent, levels, node_count);
        proof {
            assert forall|v: int| 0 <= v < n implies (#[trigger] parent@[v] as int) < n by {
                assert(parent@[v] == base[v]);
            }
            assert forall|v: int| 1 <= v < n implies #[trigger] depth@[v] == depth@[parent@[v] as int]
                + 1 by {
                assert(parent@[v] == base[v]);
            }
            assert(parent@[0] == base[0]);
            assert forall|v: int| 0 <= v < n implies (#[trigger] depth@[v] as int) < pow2_int(
                levels - 1,
            ) by {
                assert((depth@[v] as int) < n);
            }
            assert forall|v: int| 0 <= v < n implies #[trigger] parent_base@[v] as int
                == parent@[v] as int by {
                assert(parent@[v] == base[v]);
            }
            assert forall|v: int|
                1 <= v < n implies view_arc_runs(view, #[trigger] up_arc@[v] as int, v, parent@[v] as int)
                by {
                assert(parent@[v] == base[v]);
            }
            assert forall|v: int|
                1 <= v < n implies view_arc_runs(view, #[trigger] down_arc@[v] as int, parent@[v] as int, v)
                by {
                assert(parent@[v] == base[v]);
            }
            assert forall|i: int|
                1 <= i < n implies exists|j: int|
                    0 <= j < i && order@[j] == parent@[#[trigger] order@[i] as int] by {
                let j = choose|j: int| 0 <= j < i && order@[j] == base[#[trigger] order@[i] as int];
                assert(parent@[order@[i] as int] == base[order@[i] as int]);
            }
        }
        Some(
            CompactTreeBasis {
                tree_mask,
                depth,
                parent,
                parent_base,
                up_arc,
                down_arc,
                order,
                levels,
                node_count,
            },
        )
    }
}

/// Breadth-first search from node 0 over the tree adjacency lists: fills the
/// first `n` entries of `parent` with each node's parent and returns the
/// depths, the parents as plain indices, the arcs up to and down from the
/// parent, and the order in which nodes were reached; `None` when some node is
/// not reached.
/// `s` is closed under the lists `adj`: every neighbour of a node of `s` is
/// in `s`.
pub open spec fn basis_closed(adj: Seq<Vec<(usize, usize, usize)>>, s: Set<int>) -> bool {
    forall|u: int, m: int|
        s.contains(u) && 0 <= u < adj.len() && 0 <= m < adj[u]@.len() ==> #[trigger] s.contains(adj[u]@[m].0 as int)
}

/// Every node of `adj` is reached from node 0: every set that holds node 0
/// and is closed under the lists holds every node.
pub open spec fn basis_reaches_all(adj: Seq<Vec<(usize, usize, usize)>>) -> bool {
    forall|s: Set<int>|
        #[trigger] basis_closed(adj, s) && s.contains(0) ==> forall|v: int| 0 <= v < adj.len() ==> s.contains(v)
}

/// `s` is closed under the lists `lists`.
pub open spec fn basis_lists_closed(lists: Seq<Seq<(usize, usize, usize)>>, s: Set<int>) -> bool {
    forall|u: int, m: int|
        s.contains(u) && 0 <= u < lists.len() && 0 <= m < lists[u].len() ==> #[trigger] s.contains(lists[u][m].0 as int)
}

/// Every node of `lists` is reached from node 0.
pub open spec fn basis_lists_reach_all(lists: Seq<Seq<(usize, usize, usize)>>) -> bool {
    forall|s: Set<int>|
        #[trigger] basis_lists_closed(lists, s) && s.contains(0) ==> forall|v: int| 0 <= v < lists.len() ==> s.contains(v)
}

/// Reaching every node does not depend on how the lists are held.
proof fn lemma_basis_reaches_lists(adj: Seq<Vec<(usize, usize, usize)>>, lists: Seq<Seq<(usize, usize, usize)>>)
    requires
        lists.len() == adj.len(),
        forall|u: int| 0 <= u < adj.len() ==> #[trigger] lists[u] == adj[u]@,
    ensures
        basis_reaches_all(adj) == basis_lists_reach_all(lists),
{
    assert forall|s: Set<int>| #[trigger] basis_closed(adj, s) == basis_lists_closed(lists, s) by {
        if basis_closed(adj, s) {
            assert forall|u: int, m: int|
                s.contains(u) && 0 <= u < lists.len() && 0 <= m < lists[u].len() implies #[trigger] s.contains(
                lists[u][m].0 as int,
            ) by {
                assert(lists[u] == adj[u]@);
                assert(s.contains(adj[u]@[m].0 as int));
            }
        }
        if basis_lists_closed(lists, s) {
            assert forall|u: int, m: int|
                s.contains(u) && 0 <= u < adj.len() && 0 <= m < adj[u]@.len() implies #[trigger] s.contains(
                adj[u]@[m].0 as int,
            ) by {
                assert(lists[u] == adj[u]@);
                assert(s.contains(lists[u][m].0 as int));
            }
        }
    }
    if basis_reaches_all(adj) {
        assert forall|s: Set<int>| #[trigger] basis_lists_closed(lists, s) && s.contains(0) implies forall|v: int|
            0 <= v < lists.len() ==> s.contains(v) by {
            assert(basis_closed(adj, s));
        }
    }
    if basis_lists_reach_all(lists) {
        assert forall|s: Set<int>| #[trigger] basis_closed(adj, s) && s.contains(0) implies forall|v: int|
            0 <= v < adj.len() ==> s.contains(v) by {
            assert(basis_lists_closed(lists, s));
        }
    }
}

/// Node `u`'s list after the first `k` tree arcs read from `view`: each
/// present arc adds its target (with the arc and its partner) to its
/// source's list, then its source (with the partner and the arc) to its
/// target's list; absent arcs add nothing.
pub open spec fn basis_list(view: &CompactResidualView<'_>, tree: Seq<usize>, k: int, u: int) -> Seq<(usize, usize, usize)>
    decreases k,
{
    if k <= 0 {
        Seq::empty()
    } else {
        let prev = basis_list(view, tree, k - 1, u);
        let t = tree[k - 1] as int;
        if view.arc_at(t) is None {
            prev
        } else {
            let a = view.arc_at(t)->0;
            let r = partner(t);
            let with_source = if a.from as int == u {
                prev.push((a.to, t as usize, r as usize))
            } else {
                prev
            };
            if a.to as int == u {
                with_source.push((a.from, r as usize, t as usize))
            } else {
                with_source
            }
        }
    }
}

/// The lists of all `n` nodes after every tree arc.
pub open spec fn basis_lists(view: &CompactResidualView<'_>, tree: Seq<usize>, n: int) -> Seq<Seq<(usize, usize, usize)>> {
    Seq::new(n as nat, |u: int| basis_list(view, tree, tree.len() as int, u))
}

fn bfs_basis(
    adjacency: &Vec<Vec<(usize, usize, usize)>>,
    parent: &mut Vec<u32>,
    Ghost(view): Ghost<&CompactResidualView<'_>>,
) -> (r: Option<(Vec<usize>, Vec<usize>, Vec<usize>, Vec<usize>, Vec<usize>)>)
    requires
        1 <= adjacency@.len() <= u32::MAX,
        basis_adj_ok(view, adjacency@),
        old(parent)@.len() >= adjacency@.len(),
    ensures
        final(parent)@.len() == old(parent)@.len(),
        r matches Some(t) ==> {
            let n = adjacency@.len() as int;
            let p = final(parent)@;
            &&& rooted_ok(p, t.0@, n)
            &&& forall|v: int| 0 <= v < n ==> (#[trigger] t.0@[v] as int) < n
            &&& t.1@.len() == n
            &&& forall|v: int| 0 <= v < n ==> #[trigger] t.1@[v] as int == p[v] as int
            &&& t.2@.len() == n
            &&& t.3@.len() == n
            &&& forall|v: int|
                1 <= v < n ==> view_arc_runs(view, #[trigger] t.2@[v] as int, v, p[v] as int)
            &&& forall|v: int|
                1 <= v < n ==> view_arc_runs(view, #[trigger] t.3@[v] as int, p[v] as int, v)
            &&& order_ok(t.4@, p, n)
        },
        r is None ==> !basis_reaches_all(adjacency@),
{
    let node_count = adjacency.len();
    let ghost nn = node_count as int;
    let slots = parent.len();
    let mut depth: Vec<usize> = Vec::new();
    let mut parent_base: Vec<usize> = Vec::new();
    let mut up_arc: Vec<usize> = Vec::new();
    let mut down_arc: Vec<usize> = Vec::new();
    let mut seen: Vec<bool> = Vec::new();
    let mut i: usize = 0;
    while i < node_count
        invariant
            i <= node_count,
            depth@.len() == i,
            parent_base@.len() == i,
            up_arc@.len() == i,
            down_arc@.len() == i,
            seen@.len() == i,
            forall|q: int| 0 <= q < i ==> !(#[trigger] seen@[q]),
            forall|q: int| 0 <= q < i ==> #[trigger] depth@[q] == 0,
        decreases node_count - i,
    {
        depth.push(0);
        parent_base.push(usize::MAX);
        up_arc.push(usize::MAX);
        down_arc.push(usize::MAX);
        seen.push(false);
        i = i + 1;
    }
    proof {
        lemma_count_false_all_paths(seen@, nn);
        lemma_count_false_update(seen@, 0, nn);
    }
    seen.set(0, true);
    parent.set(0, 0);
    parent_base.set(0, 0);
    let mut order: Vec<usize> = Vec::new();
    let mut queue: Vec<usize> = Vec::new();
    queue.push(0);
    proof {
        assert(queue@[0] == 0usize);
        assert(queue@.contains(0usize));
    }
    let mut head: usize = 0;
    while head < queue.len()
        invariant
            nn == node_count,
            nn == adjacency@.len(),
            1 <= nn <= u32::MAX,
            basis_adj_ok(view, adjacency@),
            slots >= nn,
            parent@.len() == slots,
            seen@.len() == nn,
            depth@.len() == nn,
            parent_base@.len() == nn,
            up_arc@.len() == nn,
            down_arc@.len() == nn,
            head <= queue@.len(),
            order@ == queue@.subrange(0, head as int),
            forall|v: int| 0 <= v < nn && #[trigger] seen@[v] ==> queue@.contains(v as usize),
            forall|q: int, m: int|
                0 <= q < head && 0 <= m < adjacency@[queue@[q] as int]@.len() ==> #[trigger] seen@[adjacency@[queue@[q] as int]@[m].0 as int],
            queue@.len() + count_false(seen@, nn) == nn,
            queue@[0] == 0,
            forall|q: int| 0 <= q < queue@.len() ==> (#[trigger] queue@[q] as int) < nn && seen@[
                queue@[q] as int],
            forall|q1: int, q2: int|
                0 <= q1 < q2 < queue@.len() ==> #[trigger] queue@[q1] != #[trigger] queue@[q2],
            forall|q: int|
                1 <= q < queue@.len() ==> exists|j: int|
                    0 <= j < q && queue@[j] == parent@[#[trigger] queue@[q] as int],
            forall|q: int| 0 <= q < queue@.len() ==> depth@[#[trigger] queue@[q] as int] <= q,
            forall|v: int| 0 <= v < nn ==> #[trigger] depth@[v] < queue@.len(),
            forall|v: int| 0 <= v < nn && #[trigger] seen@[v] ==> (parent@[v] as int) < nn,
            forall|v: int| 0 <= v < nn && #[trigger] seen@[v] ==> parent_base@[v] as int
                == parent@[v] as int,
            seen@[0],
            parent@[0] == 0,
            depth@[0] == 0,
            forall|v: int|
                0 < v < nn && #[trigger] seen@[v] ==> seen@[parent@[v] as int] && depth@[v]
                    == depth@[parent@[v] as int] + 1,
            forall|v: int|
                0 < v < nn && #[trigger] seen@[v] ==> view_arc_runs(
                    view,
                    up_arc@[v] as int,
                    v,
                    parent@[v] as int,
                ) && view_arc_runs(view, down_arc@[v] as int, parent@[v] as int, v),
        decreases nn - head,
    {
        proof {
            lemma_count_false_bounds(seen@, nn);
        }
        let node = queue[head];
        order.push(node);
        head = head + 1;
        proof {
            assert(order@ =~= queue@.subrange(0, head as int));
        }
        let nbrs = &adjacency[node];
        let mut j: usize = 0;
        while j < nbrs.len()
            invariant
                nn == node_count,
                nn == adjacency@.len(),
                1 <= nn <= u32::MAX,
                basis_adj_ok(view, adjacency@),
                node < nn,
                *nbrs == adjacency@[node as int],
                j <= nbrs@.len(),
                slots >= nn,
                parent@.len() == slots,
                seen@.len() == nn,
                depth@.len() == nn,
                parent_base@.len() == nn,
                up_arc@.len() == nn,
                down_arc@.len() == nn,
                1 <= head <= queue@.len(),
                queue@[head - 1] == node,
                order@ == queue@.subrange(0, head as int),
                forall|v: int| 0 <= v < nn && #[trigger] seen@[v] ==> queue@.contains(v as usize),
                forall|q: int, m: int|
                    0 <= q < head - 1 && 0 <= m < adjacency@[queue@[q] as int]@.len() ==> #[trigger] seen@[adjacency@[queue@[q] as int]@[m].0 as int],
                forall|m: int| 0 <= m < j ==> #[trigger] seen@[nbrs@[m].0 as int],
                queue@.len() + count_false(seen@, nn) == nn,
                queue@[0] == 0,
                forall|q: int| 0 <= q < queue@.len() ==> (#[trigger] queue@[q] as int) < nn
                    && seen@[queue@[q] as int],
                forall|q1: int, q2: int|
                    0 <= q1 < q2 < queue@.len() ==> #[trigger] queue@[q1] != #[trigger] queue@[q2],
                forall|q: int|
                    1 <= q < queue@.len() ==> exists|j: int|
                        0 <= j < q && queue@[j] == parent@[#[trigger] queue@[q] as int],
                forall|q: int| 0 <= q < queue@.len() ==> depth@[#[trigger] queue@[q] as int] <= q,
                forall|v: int| 0 <= v < nn ==> #[trigger] depth@[v] < queue@.len(),
                forall|v: int| 0 <= v < nn && #[trigger] seen@[v] ==> (parent@[v] as int) < nn,
                forall|v: int| 0 <= v < nn && #[trigger] seen@[v] ==> parent_base@[v] as int
                    == parent@[v] as int,
                seen@[0],
                parent@[0] == 0,
                depth@[0] == 0,
                forall|v: int|
                    0 < v < nn && #[trigger] seen@[v] ==> seen@[parent@[v] as int] && depth@[v]
                        == depth@[parent@[v] as int] + 1,
                forall|v: int|
                    0 < v < nn && #[trigger] seen@[v] ==> view_arc_runs(
                        view,
                        up_arc@[v] as int,
                        v,
                        parent@[v] as int,
                    ) && view_arc_runs(view, down_arc@[v] as int, parent@[v] as int, v),
            decreases nbrs@.len() - j,
        {
            let (next, down, up) = nbrs[j];
            proof {
                assert(basis_entry_ok(view, nn, node as int, adjacency@[node as int]@[j as int]));
            }
            if !seen[next] {
                proof {
                    lemma_count_false_update(seen@, next as int, nn);
                    lemma_count_false_bounds(seen@.update(next as int, true), nn);
                    assert(depth@[queue@[head - 1] as int] <= head - 1);
                }
                let ghost qlen = queue@.len() as int;
                let ghost seen0 = seen@;
                let ghost parent0 = parent@;
                let ghost queue0 = queue@;
                seen.set(next, true);
                parent.set(next, node as u32);
                parent_base.set(next, node);
                down_arc.set(next, down);
                up_arc.set(next, up);
                let dn = depth[node] + 1;
                depth.set(next, dn);
                queue.push(next);
                proof {
                    broadcast use vstd::seq_lib::lemma_seq_contains_after_push;
                    assert(queue@[qlen] == next);
                    assert(next != 0);
                    assert forall|v: int| 0 <= v < nn && #[trigger] seen@[v] implies queue@.contains(v as usize) by {
                        if v != next as int {
                            assert(seen0[v]);
                            assert(queue0.contains(v as usize));
                        }
                    }
                    assert forall|q: int, m: int|
                        0 <= q < head - 1 && 0 <= m < adjacency@[queue@[q] as int]@.len() implies #[trigger] seen@[adjacency@[queue@[q] as int]@[m].0 as int] by {
                        assert(queue@[q] == queue0[q]);
                        assert(seen0[adjacency@[queue0[q] as int]@[m].0 as int]);
                    }
                    assert forall|q: int| 0 <= q < qlen implies queue0[q] != next by {
                        assert(seen0[queue0[q] as int]);
                    }
                    assert forall|v: int|
                        0 < v < nn && #[trigger] seen@[v] implies seen@[parent@[v] as int]
                        && depth@[v] == depth@[parent@[v] as int] + 1 by {
                        if v != next as int {
                            assert(seen0[v]);
                            assert(seen0[parent0[v] as int]);
                            assert(parent0[v] as int != next as int);
                        }
                    }
                    assert forall|q: int|
                        1 <= q < queue@.len() implies exists|j: int|
                            0 <= j < q && queue@[j] == parent@[#[trigger] queue@[q] as int] by {
                        if q == qlen {
                            assert(queue@[head - 1] == node);
                            assert(parent@[next as int] == node as u32);
                            assert(0 <= head - 1 < q);
                        } else {
                            assert(queue@[q] == queue0[q]);
                            let jj = choose|jj: int| 0 <= jj < q && queue0[jj] == parent0[#[trigger] queue0[q] as int];
                            assert(seen0[queue0[q] as int]);
                            assert(queue0[q] != next);
                            assert(queue@[jj] == queue0[jj]);
                        }
                    }
                }
            }
            assert(seen@[nbrs@[j as int].0 as int]);
            j = j + 1;
        }
        proof {
            assert forall|q: int, m: int|
                0 <= q < head && 0 <= m < adjacency@[queue@[q] as int]@.len() implies #[trigger] seen@[adjacency@[queue@[q] as int]@[m].0 as int] by {
                if q == head - 1 {
                    assert(seen@[nbrs@[m].0 as int]);
                }
            }
        }
    }
    let ghost reached = Set::new(|x: int| 0 <= x < nn && seen@[x]);
    proof {
        assert forall|u: int, m: int|
            reached.contains(u) && 0 <= u < adjacency@.len() && 0 <= m < adjacency@[u]@.len() implies #[trigger] reached.contains(
            adjacency@[u]@[m].0 as int,
        ) by {
            assert(queue@.contains(u as usize));
            let q = choose|q: int| 0 <= q < queue@.len() && queue@[q] == u as usize;
            assert(seen@[adjacency@[queue@[q] as int]@[m].0 as int]);
            assert(basis_entry_ok(view, nn, u, adjacency@[u]@[m]));
        }
        assert(basis_closed(adjacency@, reached));
        assert(reached.contains(0));
    }
    let mut v: usize = 0;
    while v < node_count
        invariant
            v <= node_count,
            seen@.len() == node_count,
            parent@.len() == slots,
            slots == old(parent)@.len(),
            forall|q: int| 0 <= q < v ==> #[trigger] seen@[q],
            nn == node_count,
            nn == adjacency@.len(),
            basis_closed(adjacency@, reached),
            reached.contains(0),
            reached == Set::new(|x: int| 0 <= x < nn && seen@[x]),
        decreases node_count - v,
    {
        if !seen[v] {
            proof {
                assert(!reached.contains(v as int));
            }
            return None;
        }
        v = v + 1;
    }
    proof {
        lemma_count_false_bounds(seen@, nn);
        lemma_count_false_zero(seen@, nn);
        assert(queue@.len() == nn);
        assert(order@ =~= queue@);
        assert forall|v: int| 0 <= v < nn implies (#[trigger] parent@[v] as int) < nn by {
            assert(seen@[v]);
        }
        assert forall|v: int| 1 <= v < nn implies #[trigger] depth@[v] == depth@[parent@[v] as int] + 1
            by {
            assert(seen@[v]);
        }
        assert forall|v: int| 0 <= v < nn implies (#[trigger] depth@[v] as int) < nn by {
            assert(depth@[v] < queue@.len());
        }
        assert forall|v: int| 0 <= v < nn implies #[trigger] parent_base@[v] as int
            == parent@[v] as int by {
            assert(seen@[v]);
        }
        assert forall|v: int|
            1 <= v < nn implies view_arc_runs(view, #[trigger] up_arc@[v] as int, v, parent@[v] as int)
            by {
            assert(seen@[v]);
        }
        assert forall|v: int|
            1 <= v < nn implies view_arc_runs(view, #[trigger] down_arc@[v] as int, parent@[v] as int, v)
            by {
            assert(seen@[v]);
        }
    }
    Some((depth, parent_base, up_arc, down_arc, order))
}

/// Splitting a climb: `a` steps, then `b` more.
proof fn lemma_tree_sum_split(
    p: Seq<u32>,
    arc_of: Seq<usize>,
    view: &CompactResidualView<'_>,
    v: int,
    a: nat,
    b: nat,
)
    ensures
        tree_sum(p, arc_of, view, v, a + b) == tree_sum(p, arc_of, view, v, a) + tree_sum(
            p,
            arc_of,
            view,
            climb(p, v, a),
            b,
        ),
    decreases a,
{
    if a > 0 {
        lemma_tree_sum_split(p, arc_of, view, p[v] as int, (a - 1) as nat, b);
        assert((a + b) as nat - 1 == (a - 1) as nat + b);
    }
}

/// The difference of two root costs along a climb is the cost of the climb.
proof fn lemma_root_cost_diff(
    b: &CompactTreeBasis,
    view: &CompactResidualView<'_>,
    v: int,
    m: int,
    up: bool,
)
    requires
        b.wf(),
        0 <= v < b.node_count,
        0 <= m < b.node_count,
        b.depth@[m] <= b.depth@[v],
        m == climb(b.parent@, v, (b.depth@[v] - b.depth@[m]) as nat),
    ensures
        tree_sum(b.parent@, if up { b.up_arc@ } else { b.down_arc@ }, view, v, b.depth@[v] as nat)
            - tree_sum(b.parent@, if up { b.up_arc@ } else { b.down_arc@ }, view, m, b.depth@[m] as nat)
            == tree_sum(
            b.parent@,
            if up { b.up_arc@ } else { b.down_arc@ },
            view,
            v,
            (b.depth@[v] - b.depth@[m]) as nat,
        ),
{
    let k = (b.depth@[v] - b.depth@[m]) as nat;
    let arcs = if up { b.up_arc@ } else { b.down_arc@ };
    lemma_tree_sum_split(b.parent@, arcs, view, v, k, b.depth@[m] as nat);
    assert(k + b.depth@[m] as nat == b.depth@[v] as nat);
}

proof fn lemma_seq_cost_concat(view: &CompactResidualView<'_>, a: Seq<usize>, c: Seq<usize>)
    ensures
        seq_cost(view, a + c) == seq_cost(view, a) + seq_cost(view, c),
    decreases c.len(),
{
    if c.len() == 0 {
        assert(a + c =~= a);
    } else {
        lemma_seq_cost_concat(view, a, c.drop_last());
        assert((a + c).drop_last() =~= a + c.drop_last());
        assert((a + c).last() == c.last());
    }
}

/// The up path of a climb costs what the climb costs.
proof fn lemma_up_path_cost(b: &CompactTreeBasis, view: &CompactResidualView<'_>, v: int, k: nat)
    ensures
        seq_cost(view, up_path(b.parent@, b.up_arc@, v, k)) == tree_sum(b.parent@, b.up_arc@, view, v, k),
    decreases k,
{
    let p = b.parent@;
    if k == 0 {
        assert(up_path(p, b.up_arc@, v, k) =~= Seq::<usize>::empty());
    } else {
        lemma_up_path_cost(b, view, p[v] as int, (k - 1) as nat);
        let tail = up_path(p, b.up_arc@, p[v] as int, (k - 1) as nat);
        assert forall|i: int| 0 <= i < tail.len() implies tail[i] == up_path(p, b.up_arc@, v, k)[i + 1] by {
            lemma_climb_add(p, v, 1, i as nat);
            assert(climb(p, v, 1) == p[v] as int) by {
                assert(climb(p, p[v] as int, 0) == p[v] as int);
            }
            assert((1 + i) as nat == (i + 1) as nat);
        }
        assert(up_path(p, b.up_arc@, v, k) =~= seq![b.up_arc@[v]] + tail);
        lemma_seq_cost_concat(view, seq![b.up_arc@[v]], tail);
        lemma_seq_cost_one(view, b.up_arc@[v]);
    }
}

/// The down path to `v` costs what the descent costs.
proof fn lemma_down_path_cost(b: &CompactTreeBasis, view: &CompactResidualView<'_>, v: int, k: nat)
    ensures
        seq_cost(view, down_path(b.parent@, b.down_arc@, v, k)) == tree_sum(
            b.parent@,
            b.down_arc@,
            view,
            v,
            k,
        ),
    decreases k,
{
    let p = b.parent@;
    if k == 0 {
        assert(down_path(p, b.down_arc@, v, k) =~= Seq::<usize>::empty());
    } else {
        lemma_down_path_cost(b, view, p[v] as int, (k - 1) as nat);
        let s = down_path(p, b.down_arc@, v, k);
        let head = down_path(p, b.down_arc@, p[v] as int, (k - 1) as nat);
        assert forall|i: int| 0 <= i < head.len() implies head[i] == s[i] by {
            lemma_climb_add(p, v, 1, (k - 2 - i) as nat);
            assert(climb(p, v, 1) == p[v] as int) by {
                assert(climb(p, p[v] as int, 0) == p[v] as int);
            }
            assert((1 + (k - 2 - i)) as nat == (k - 1 - i) as nat);
        }
        assert(s.drop_last() =~= head);
        assert(s.last() == b.down_arc@[v]);
    }
}

/// The tree path costs the path total.
proof fn lemma_path_spec_cost(b: &CompactTreeBasis, view: &CompactResidualView<'_>, x: int, y: int)
    requires
        b.wf(),
        0 <= x < b.node_count,
        0 <= y < b.node_count,
    ensures
        seq_cost(view, b.path_spec(x, y)) == b.path_total(view, x, y),
{
    let m = b.meet_of(x, y);
    let ka = (b.depth@[x] - b.depth@[m]) as nat;
    let kb = (b.depth@[y] - b.depth@[m]) as nat;
    lemma_up_path_cost(b, view, x, ka);
    lemma_down_path_cost(b, view, y, kb);
    lemma_seq_cost_concat(view, up_path(b.parent@, b.up_arc@, x, ka), down_path(b.parent@, b.down_arc@, y, kb));
}

/// The tree path is a walk of the view from `x` to `y`.
proof fn lemma_path_spec_walk(b: &CompactTreeBasis, view: &CompactResidualView<'_>, x: int, y: int)
    requires
        b.fits(view),
        0 <= x < b.node_count,
        0 <= y < b.node_count,
    ensures
        view_walk(view, b.path_spec(x, y), x, y),
{
    let n = b.node_count as int;
    let p = b.parent@;
    let d = b.depth@;
    lemma_meet_ancestor(p, d, n, x, y);
    let m = b.meet_of(x, y);
    let ka = (d[x] - d[m]) as nat;
    let kb = (d[y] - d[m]) as nat;
    let up = up_path(p, b.up_arc@, x, ka);
    let down = down_path(p, b.down_arc@, y, kb);
    assert forall|i: int| 0 <= i < ka implies {
        &&& view_arc_runs(view, #[trigger] up[i] as int, climb(p, x, i as nat), climb(p, x, (i + 1) as nat))
    } by {
        lemma_climb_depth(p, d, n, x, i as nat);
        let u = climb(p, x, i as nat);
        lemma_depth_step(p, d, n, u);
        lemma_climb_add(p, x, i as nat, 1);
        assert(climb(p, u, 1) == p[u] as int) by {
            assert(climb(p, p[u] as int, 0) == p[u] as int);
        }
        assert(u != 0);
    }
    assert forall|i: int| 0 <= i < kb implies {
        &&& view_arc_runs(
            view,
            #[trigger] down[i] as int,
            climb(p, y, (kb - i) as nat),
            climb(p, y, (kb - 1 - i) as nat),
        )
    } by {
        lemma_climb_depth(p, d, n, y, (kb - 1 - i) as nat);
        let u = climb(p, y, (kb - 1 - i) as nat);
        lemma_depth_step(p, d, n, u);
        lemma_climb_add(p, y, (kb - 1 - i) as nat, 1);
        assert(climb(p, u, 1) == p[u] as int) by {
            assert(climb(p, p[u] as int, 0) == p[u] as int);
        }
        assert(u != 0);
        assert((kb - 1 - i) as nat + 1 == (kb - i) as nat);
    }
    lemma_climb_run_walk(view, up, p, x, ka);
    lemma_climb_down_walk(view, down, p, y, kb);
    lemma_concat_walk(view, up, down, x, m, y);
}

proof fn lemma_climb_run_walk(view: &CompactResidualView<'_>, s: Seq<usize>, p: Seq<u32>, x: int, k: nat)
    requires
        s.len() == k,
        forall|i: int|
            0 <= i < k ==> view_arc_runs(view, #[trigger] s[i] as int, climb(p, x, i as nat), climb(p, x, (i + 1) as nat)),
    ensures
        view_walk(view, s, x, climb(p, x, k)),
{
    assert forall|i: int| 0 <= i < s.len() - 1 implies view.arc_at(#[trigger] s[i] as int)->0.to == view.arc_at(
        s[i + 1] as int,
    )->0.from by {
        assert(view_arc_runs(view, s[i] as int, climb(p, x, i as nat), climb(p, x, (i + 1) as nat)));
        assert(view_arc_runs(view, s[i + 1] as int, climb(p, x, (i + 1) as nat), climb(p, x, (i + 2) as nat)));
    }
    if k > 0 {
        assert(view_arc_runs(view, s[0] as int, climb(p, x, 0), climb(p, x, 1)));
        assert(view_arc_runs(view, s[k - 1] as int, climb(p, x, (k - 1) as nat), climb(p, x, k)));
    }
}

proof fn lemma_climb_down_walk(view: &CompactResidualView<'_>, s: Seq<usize>, p: Seq<u32>, y: int, k: nat)
    requires
        s.len() == k,
        forall|i: int|
            0 <= i < k ==> view_arc_runs(
                view,
                #[trigger] s[i] as int,
                climb(p, y, (k - i) as nat),
                climb(p, y, (k - 1 - i) as nat),
            ),
    ensures
        view_walk(view, s, climb(p, y, k), y),
{
    assert forall|i: int| 0 <= i < s.len() - 1 implies view.arc_at(#[trigger] s[i] as int)->0.to == view.arc_at(
        s[i + 1] as int,
    )->0.from by {
        assert(view_arc_runs(view, s[i] as int, climb(p, y, (k - i) as nat), climb(p, y, (k - 1 - i) as nat)));
        assert(view_arc_runs(
            view,
            s[i + 1] as int,
            climb(p, y, (k - (i + 1)) as nat),
            climb(p, y, (k - 1 - (i + 1)) as nat),
        ));
        assert((k - (i + 1)) as nat == (k - 1 - i) as nat);
    }
    if k > 0 {
        assert(view_arc_runs(view, s[0] as int, climb(p, y, k), climb(p, y, (k - 1) as nat)));
        assert(view_arc_runs(view, s[k - 1] as int, climb(p, y, 1), climb(p, y, 0)));
    }
}

proof fn lemma_concat_walk(view: &CompactResidualView<'_>, s: Seq<usize>, t: Seq<usize>, a: int, m: int, b: int)
    requires
        view_walk(view, s, a, m),
        view_walk(view, t, m, b),
    ensures
        view_walk(view, s + t, a, b),
{
    let u = s + t;
    assert forall|i: int| 0 <= i < u.len() implies view.arc_at(#[trigger] u[i] as int) is Some by {
        if i < s.len() {
            assert(u[i] == s[i]);
        } else {
            assert(u[i] == t[i - s.len()]);
        }
    }
    assert forall|i: int| 0 <= i < u.len() - 1 implies view.arc_at(#[trigger] u[i] as int)->0.to == view.arc_at(
        u[i + 1] as int,
    )->0.from by {
        if i < s.len() - 1 {
            assert(u[i] == s[i] && u[i + 1] == s[i + 1]);
        } else if i == s.len() - 1 {
            assert(u[i] == s[i] && u[i + 1] == t[0]);
        } else {
            assert(u[i] == t[i - s.len()] && u[i + 1] == t[i - s.len() + 1]);
        }
    }
    if u.len() > 0 {
        if s.len() > 0 {
            assert(u[0] == s[0]);
        } else {
            assert(u[0] == t[0]);
        }
        if t.len() > 0 {
            assert(u[u.len() - 1] == t[t.len() - 1]);
        } else {
            assert(u[u.len() - 1] == s[s.len() - 1]);
        }
    }
}

/// An arc from `a` to `x` followed by a walk from `x` back to `a` is a closed walk.
proof fn lemma_prepend_walk(view: &CompactResidualView<'_>, k: int, path: Seq<usize>, a: int, x: int)
    requires
        0 <= k <= usize::MAX,
        view.arc_at(k) is Some,
        view.arc_at(k)->0.from as int == a,
        view.arc_at(k)->0.to as int == x,
        view_walk(view, path, x, a),
    ensures
        view_closed_walk(view, seq![k as usize].add(path)),
{
    let one = seq![k as usize];
    assert(view_walk(view, one, a, x));
    lemma_concat_walk(view, one, path, a, x, a);
    assert((one + path)[0] == k as usize);
}

proof fn lemma_seq_cost_one(view: &CompactResidualView<'_>, x: usize)
    ensures
        seq_cost(view, seq![x]) == arc_cost_of(view, x as int),
{
    assert(seq![x].drop_last() =~= Seq::<usize>::empty());
    assert(seq![x].last() == x);
    assert(seq_cost(view, Seq::<usize>::empty()) == 0);
}

/// Arc `k` followed by the tree path back from its head to its tail is a
/// closed walk costing the arc plus the path.
proof fn lemma_cycle_of_arc(b: &CompactTreeBasis, view: &CompactResidualView<'_>, k: int, path: Seq<usize>)
    requires
        b.fits(view),
        0 <= k <= usize::MAX,
        view.arc_at(k) is Some,
        (view.arc_at(k)->0.from as int) < b.node_count,
        (view.arc_at(k)->0.to as int) < b.node_count,
        path == b.path_spec(view.arc_at(k)->0.to as int, view.arc_at(k)->0.from as int),
    ensures
        view_closed_walk(view, seq![k as usize].add(path)),
        seq_cost(view, seq![k as usize].add(path)) == view.arc_at(k)->0.cost as int + b.path_total(
            view,
            view.arc_at(k)->0.to as int,
            view.arc_at(k)->0.from as int,
        ),
{
    let a = view.arc_at(k)->0;
    lemma_path_spec_walk(b, view, a.to as int, a.from as int);
    lemma_path_spec_cost(b, view, a.to as int, a.from as int);
    lemma_prepend_walk(view, k, path, a.from as int, a.to as int);
    lemma_seq_cost_concat(view, seq![k as usize], path);
    lemma_seq_cost_one(view, k as usize);
}

/// With root costs as `root_costs` gives them, the cost read from them is the
/// cost of the tree path.
proof fn lemma_root_total_is_path_total(
    b: &CompactTreeBasis,
    view: &CompactResidualView<'_>,
    up: Seq<i64>,
    down: Seq<i64>,
    x: int,
    y: int,
)
    requires
        b.fits(view),
        b.root_costs_ok(view, up, down),
        0 <= x < b.node_count,
        0 <= y < b.node_count,
    ensures
        b.root_path_total(up, down, x, y) == b.path_total(view, x, y),
{
    let m = b.meet_of(x, y);
    lemma_meet_ancestor(b.parent@, b.depth@, b.node_count as int, x, y);
    lemma_root_cost_diff(b, view, x, m, true);
    lemma_root_cost_diff(b, view, y, m, false);
    assert(up[x] == tree_sum(b.parent@, b.up_arc@, view, x, b.depth@[x] as nat));
    assert(up[m] == tree_sum(b.parent@, b.up_arc@, view, m, b.depth@[m] as nat));
    assert(down[y] == tree_sum(b.parent@, b.down_arc@, view, y, b.depth@[y] as nat));
    assert(down[m] == tree_sum(b.parent@, b.down_arc@, view, m, b.depth@[m] as nat));
}

/// A node's depth is below `2^32`.
proof fn lemma_depth_fits(b: &CompactTreeBasis, v: int)
    requires
        b.wf(),
        0 <= v < b.node_count,
    ensures
        (b.depth@[v] as int) < 0x1_0000_0000,
{
    assert((b.depth@[v] as int) < pow2_int(b.levels - 1));
    lemma_pow2_int_mono(b.levels - 1, 32);
    assert(pow2_int(32) == 0x1_0000_0000) by {
        reveal_with_fuel(pow2_int, 33);
    }
}

proof fn lemma_pow2_int_mono(a: int, b: int)
    requires
        0 <= a <= b,
    ensures
        pow2_int(a) <= pow2_int(b),
    decreases b - a,
{
    if a < b {
        lemma_pow2_int_mono(a, b - 1);
        lemma_pow2_int_pos(b - 1);
    }
}

/// A climb of `k` steps over present tree arcs costs at most `2^31` a step.
proof fn lemma_tree_sum_bound(b: &CompactTreeBasis, view: &CompactResidualView<'_>, v: int, k: nat, up: bool)
    requires
        b.fits(view),
        0 <= v < b.node_count,
        k <= b.depth@[v],
    ensures
        -(k as int) * 0x8000_0000 <= tree_sum(
            b.parent@,
            if up { b.up_arc@ } else { b.down_arc@ },
            view,
            v,
            k,
        ) <= (k as int) * 0x8000_0000,
    decreases k,
{
    let n = b.node_count as int;
    let arcs = if up { b.up_arc@ } else { b.down_arc@ };
    if k > 0 {
        lemma_depth_step(b.parent@, b.depth@, n, v);
        assert(v != 0);
        lemma_tree_sum_bound(b, view, b.parent@[v] as int, (k - 1) as nat, up);
        if up {
            assert(view_arc_runs(view, b.up_arc@[v] as int, v, b.parent@[v] as int));
        } else {
            assert(view_arc_runs(view, b.down_arc@[v] as int, b.parent@[v] as int, v));
        }
        assert((k as int) * 0x8000_0000 == ((k - 1) as int) * 0x8000_0000 + 0x8000_0000);
    }
}

/// Every node appears in an order that lists `n` distinct nodes of `0..n`.
proof fn lemma_order_covers(order: Seq<usize>, n: int, v: int)
    requires
        order.len() == n,
        forall|i: int| 0 <= i < n ==> (#[trigger] order[i] as int) < n,
        forall|i: int, j: int| 0 <= i < j < n ==> #[trigger] order[i] != #[trigger] order[j],
        0 <= v < n,
    ensures
        exists|j: int| 0 <= j < n && order[j] == v,
{
    let s = order.map_values(|x: usize| x as int).to_set();
    let full = Set::new(|x: int| 0 <= x < n);
    assert(s.subset_of(full));
    vstd::set_lib::lemma_int_range(0, n);
    assert(full =~= vstd::set_lib::set_int_range(0, n));
    let mapped = order.map_values(|x: usize| x as int);
    assert forall|i: int, j: int| 0 <= i < j < mapped.len() implies mapped[i] != mapped[j] by {
        assert(order[i] != order[j]);
    }
    assert(mapped.no_duplicates());
    mapped.unique_seq_to_set();
    if !s.contains(v) {
        vstd::set_lib::lemma_len_subset(s, full.remove(v));
        assert(s.subset_of(full.remove(v)));
        assert(full.remove(v).len() == n - 1);
        assert(false);
    }
    let j = choose|j: int| 0 <= j < mapped.len() && mapped[j] == v;
    assert(order[j] == v);
}

proof fn lemma_count_false_zero(s: Seq<bool>, k: int)
    requires
        0 <= k <= s.len(),
        forall|j: int| 0 <= j < k ==> #[trigger] s[j],
    ensures
        count_false(s, k) == 0,
    decreases k,
{
    if k > 0 {
        lemma_count_false_zero(s, k - 1);
    }
}

} // verus!
