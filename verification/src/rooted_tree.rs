//! Trees over `0..n` rooted at node 0 and given by a parent table: climbing
//! from a node, depths, tables of `2^level`-th ancestors, and the node where
//! the climbs from two nodes first meet.
use vstd::prelude::*;

verus! {

pub open spec fn pow2_int(b: int) -> int
    decreases b,
{
    if b <= 0 {
        1
    } else {
        2 * pow2_int(b - 1)
    }
}

pub proof fn lemma_pow2_int_pos(b: int)
    ensures
        pow2_int(b) >= 1,
    decreases b,
{
    if b > 0 {
        lemma_pow2_int_pos(b - 1);
    }
}

/// The node reached from `v` after `k` steps up the parent table `p`.
pub open spec fn climb(p: Seq<u32>, v: int, k: nat) -> int
    decreases k,
{
    if k == 0 {
        v
    } else {
        climb(p, p[v] as int, (k - 1) as nat)
    }
}

/// `p` and `depth` describe a tree over `0..n` rooted at node 0: the root is
/// its own parent and lies at depth 0, every other node lies one level below
/// its parent.
pub open spec fn rooted_ok(p: Seq<u32>, depth: Seq<usize>, n: int) -> bool {
    &&& 1 <= n
    &&& p.len() >= n
    &&& depth.len() == n
    &&& p[0] == 0
    &&& depth[0] == 0
    &&& forall|v: int| 0 <= v < n ==> (#[trigger] p[v] as int) < n
    &&& forall|v: int| 1 <= v < n ==> #[trigger] depth[v] == depth[p[v] as int] + 1
}

/// Entry `l * n + v` of a flat table.
pub open spec fn slot(table: Seq<u32>, n: int, l: int, v: int) -> int {
    table[l * n + v] as int
}

/// Entry `l * n + v` of `table` is the `2^l`-th ancestor of `v`, for every
/// level below `levels` and every node.
pub open spec fn lifting_ok(table: Seq<u32>, levels: int, n: int) -> bool {
    &&& table.len() == levels * n
    &&& forall|l: int, v: int|
        0 <= l < levels && 0 <= v < n ==> #[trigger] slot(table, n, l, v) == climb(
            table,
            v,
            pow2_int(l) as nat,
        )
}

/// Where the climbs from `a` and `b` first meet: climb the deeper node, or
/// both at once at equal depth, until they coincide.
pub open spec fn meet(p: Seq<u32>, depth: Seq<usize>, n: int, a: int, b: int) -> int
    decreases depth[a] + depth[b],
    when rooted_ok(p, depth, n) && 0 <= a < n && 0 <= b < n
{
    if a == b {
        a
    } else if depth[a] > depth[b] {
        meet(p, depth, n, p[a] as int, b)
    } else if depth[b] > depth[a] {
        meet(p, depth, n, a, p[b] as int)
    } else {
        proof {
            if depth[a] == 0 {
                assert(a == 0) by {
                    if a != 0 {
                        assert(depth[a] == depth[p[a] as int] + 1);
                    }
                }
                assert(b == 0) by {
                    if b != 0 {
                        assert(depth[b] == depth[p[b] as int] + 1);
                    }
                }
            }
            assert(a != 0 ==> depth[a] == depth[p[a] as int] + 1);
            assert(b != 0 ==> depth[b] == depth[p[b] as int] + 1);
        }
        meet(p, depth, n, p[a] as int, p[b] as int)
    }
}

/// A non-root node is one level below its parent; only the root has depth 0.
pub proof fn lemma_depth_step(p: Seq<u32>, depth: Seq<usize>, n: int, v: int)
    requires
        rooted_ok(p, depth, n),
        0 <= v < n,
    ensures
        (p[v] as int) < n,
        v != 0 ==> depth[v] == depth[p[v] as int] + 1,
        depth[v] == 0 <==> v == 0,
{
    assert((p[v] as int) < n);
    if v != 0 {
        assert(depth[v] == depth[p[v] as int] + 1);
    }
}

/// Climbing stays inside the tree.
pub proof fn lemma_climb_in(p: Seq<u32>, depth: Seq<usize>, n: int, v: int, k: nat)
    requires
        rooted_ok(p, depth, n),
        0 <= v < n,
    ensures
        0 <= climb(p, v, k) < n,
    decreases k,
{
    if k > 0 {
        lemma_depth_step(p, depth, n, v);
        lemma_climb_in(p, depth, n, p[v] as int, (k - 1) as nat);
    }
}

/// Climbing `a` steps, then `b` more, is climbing `a + b` steps.
pub proof fn lemma_climb_add(p: Seq<u32>, v: int, a: nat, b: nat)
    ensures
        climb(p, climb(p, v, a), b) == climb(p, v, a + b),
    decreases a,
{
    if a > 0 {
        lemma_climb_add(p, p[v] as int, (a - 1) as nat, b);
        assert((a + b) as nat - 1 == (a - 1) as nat + b);
    }
}

/// Climbing `k` steps lowers the depth by `k`, down to the root, where it stays.
pub proof fn lemma_climb_depth(p: Seq<u32>, depth: Seq<usize>, n: int, v: int, k: nat)
    requires
        rooted_ok(p, depth, n),
        0 <= v < n,
    ensures
        0 <= climb(p, v, k) < n,
        k <= depth[v] ==> depth[climb(p, v, k)] == depth[v] - k,
        k >= depth[v] ==> climb(p, v, k) == 0,
    decreases k,
{
    lemma_depth_step(p, depth, n, v);
    if k > 0 {
        lemma_climb_depth(p, depth, n, p[v] as int, (k - 1) as nat);
    }
}

/// Once two climbs of equal length meet they stay together.
pub proof fn lemma_climb_together(p: Seq<u32>, a: int, b: int, k: nat, j: nat)
    requires
        climb(p, a, k) == climb(p, b, k),
    ensures
        climb(p, a, k + j) == climb(p, b, k + j),
{
    lemma_climb_add(p, a, k, j);
    lemma_climb_add(p, b, k, j);
}

/// The meeting point is found again after climbing the deeper node to the
/// depth of the other.
pub proof fn lemma_meet_deeper(p: Seq<u32>, depth: Seq<usize>, n: int, a: int, b: int)
    requires
        rooted_ok(p, depth, n),
        0 <= a < n,
        0 <= b < n,
        depth[a] >= depth[b],
    ensures
        meet(p, depth, n, a, b) == meet(
            p,
            depth,
            n,
            climb(p, a, (depth[a] - depth[b]) as nat),
            b,
        ),
    decreases depth[a] - depth[b],
{
    if depth[a] > depth[b] {
        lemma_depth_step(p, depth, n, a);
        lemma_meet_deeper(p, depth, n, p[a] as int, b);
        assert(((depth[a] - depth[b]) as nat - 1) as nat == (depth[p[a] as int] - depth[b]) as nat);
    }
}

/// The same with the roles of the two nodes exchanged.
pub proof fn lemma_meet_deeper_right(p: Seq<u32>, depth: Seq<usize>, n: int, a: int, b: int)
    requires
        rooted_ok(p, depth, n),
        0 <= a < n,
        0 <= b < n,
        depth[b] >= depth[a],
    ensures
        meet(p, depth, n, a, b) == meet(
            p,
            depth,
            n,
            a,
            climb(p, b, (depth[b] - depth[a]) as nat),
        ),
    decreases depth[b] - depth[a],
{
    if depth[b] > depth[a] {
        lemma_depth_step(p, depth, n, b);
        lemma_meet_deeper_right(p, depth, n, a, p[b] as int);
        assert(((depth[b] - depth[a]) as nat - 1) as nat == (depth[p[b] as int] - depth[a]) as nat);
    }
}

/// At equal depth, climbing both nodes `k` steps keeps the meeting point as
/// long as the climbs have not met.
pub proof fn lemma_meet_same_depth(p: Seq<u32>, depth: Seq<usize>, n: int, a: int, b: int, k: nat)
    requires
        rooted_ok(p, depth, n),
        0 <= a < n,
        0 <= b < n,
        depth[a] == depth[b],
        climb(p, a, k) != climb(p, b, k),
    ensures
        meet(p, depth, n, a, b) == meet(p, depth, n, climb(p, a, k), climb(p, b, k)),
        depth[climb(p, a, k)] == depth[climb(p, b, k)],
        0 <= climb(p, a, k) < n,
        0 <= climb(p, b, k) < n,
    decreases k,
{
    lemma_climb_depth(p, depth, n, a, k);
    lemma_climb_depth(p, depth, n, b, k);
    if k > 0 {
        lemma_depth_step(p, depth, n, a);
        lemma_depth_step(p, depth, n, b);
        assert(a != b);
        lemma_meet_same_depth(p, depth, n, p[a] as int, p[b] as int, (k - 1) as nat);
    }
}

/// Two distinct nodes at equal depth with a common parent meet at that parent.
pub proof fn lemma_meet_parent(p: Seq<u32>, depth: Seq<usize>, n: int, a: int, b: int)
    requires
        rooted_ok(p, depth, n),
        0 <= a < n,
        0 <= b < n,
        a != b,
        depth[a] == depth[b],
        p[a] == p[b],
    ensures
        meet(p, depth, n, a, b) == p[a] as int,
{
    lemma_depth_step(p, depth, n, a);
    lemma_depth_step(p, depth, n, b);
    assert(meet(p, depth, n, a, b) == meet(p, depth, n, p[a] as int, p[b] as int));
}

/// The meeting point is an ancestor of both nodes, no deeper than either.
pub proof fn lemma_meet_ancestor(p: Seq<u32>, depth: Seq<usize>, n: int, a: int, b: int)
    requires
        rooted_ok(p, depth, n),
        0 <= a < n,
        0 <= b < n,
    ensures
        0 <= meet(p, depth, n, a, b) < n,
        depth[meet(p, depth, n, a, b)] <= depth[a],
        depth[meet(p, depth, n, a, b)] <= depth[b],
        meet(p, depth, n, a, b) == climb(
            p,
            a,
            (depth[a] - depth[meet(p, depth, n, a, b)]) as nat,
        ),
        meet(p, depth, n, a, b) == climb(
            p,
            b,
            (depth[b] - depth[meet(p, depth, n, a, b)]) as nat,
        ),
    decreases depth[a] + depth[b],
{
    lemma_depth_step(p, depth, n, a);
    lemma_depth_step(p, depth, n, b);
    if a == b {
    } else if depth[a] > depth[b] {
        lemma_meet_ancestor(p, depth, n, p[a] as int, b);
        let m = meet(p, depth, n, a, b);
        assert(((depth[a] - depth[m]) as nat - 1) as nat == (depth[p[a] as int] - depth[m]) as nat);
    } else if depth[b] > depth[a] {
        lemma_meet_ancestor(p, depth, n, a, p[b] as int);
        let m = meet(p, depth, n, a, b);
        assert(((depth[b] - depth[m]) as nat - 1) as nat == (depth[p[b] as int] - depth[m]) as nat);
    } else {
        assert(depth[a] != 0) by {
            if depth[a] == 0 {
                assert(a == 0 && b == 0);
            }
        }
        lemma_meet_ancestor(p, depth, n, p[a] as int, p[b] as int);
        let m = meet(p, depth, n, a, b);
        assert(((depth[a] - depth[m]) as nat - 1) as nat == (depth[p[a] as int] - depth[m]) as nat);
        assert(((depth[b] - depth[m]) as nat - 1) as nat == (depth[p[b] as int] - depth[m]) as nat);
    }
}

/// Climbing reads only the first `n` entries of a table whose first `n`
/// entries name nodes.
pub proof fn lemma_climb_frame(p: Seq<u32>, q: Seq<u32>, n: int, v: int, k: nat)
    requires
        p.len() >= n,
        q.len() >= n,
        0 <= v < n,
        forall|u: int| 0 <= u < n ==> (#[trigger] p[u] as int) < n && p[u] == q[u],
    ensures
        climb(p, v, k) == climb(q, v, k),
    decreases k,
{
    if k > 0 {
        assert((p[v] as int) < n && p[v] == q[v]);
        lemma_climb_frame(p, q, n, p[v] as int, (k - 1) as nat);
    }
}

} // verus!
