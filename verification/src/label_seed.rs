//! Seeding cell labels from the edges' desired differences: a spanning forest
//! grown from each unlabelled cell in index order, cheapest edge first, where
//! every cell reached takes its parent's label plus the edge's difference.
use vstd::prelude::*;
use crate::edges::{horizontal_index, vertical_index, EdgeDatum};
use crate::residual::grid_ok;

verus! {

/// A directed edge of the cell graph, with the grid edge's cost parameters;
/// `desired_delta` is the label difference from `from` to `to`.
#[derive(Clone, Copy, Debug, PartialEq, Eq)]
pub struct Edge {
    pub from: usize,
    pub to: usize,
    pub cost: i32,
    pub desired_delta: i32,
    pub offset: i32,
    pub dzmax: i32,
    pub laycost: i32,
    pub nshortcycle: i32,
    pub flow_sign: i32,
    pub flow: i32,
}

/// An edge waiting in the queue of the forest growth.
#[derive(Clone, Copy, Debug, PartialEq, Eq)]
pub struct QueueEdge {
    pub cost: i32,
    pub from: usize,
    pub to: usize,
    pub desired_delta: i32,
}

/// The adjacency lists as sequences.
pub open spec fn adj_view(adjacency: Seq<Vec<Edge>>) -> Seq<Seq<Edge>> {
    adjacency.map_values(|l: Vec<Edge>| l@)
}

/// Every edge of node `u`'s list leaves `u` for a node of the graph.
pub open spec fn adjacency_ok(adj: Seq<Seq<Edge>>) -> bool {
    forall|u: int, k: int|
        0 <= u < adj.len() && 0 <= k < adj[u].len() ==> (#[trigger] adj[u][k]).from == u
            && adj[u][k].to < adj.len()
}

/// Node `i` can take its label from node `p` along one of `p`'s edges.
pub open spec fn labelled_from(adj: Seq<Seq<Edge>>, labels: Seq<i32>, p: int, i: int) -> bool {
    exists|k: int|
        0 <= k < adj[p].len() && (#[trigger] adj[p][k]).to == i && labels[i]
            == labels[p].wrapping_add(adj[p][k].desired_delta)
}

/// No edge leads into node `i` from a node of smaller index.
pub open spec fn first_of_its_tree(adj: Seq<Seq<Edge>>, i: int) -> bool {
    forall|m: int, k: int| 0 <= m < i && 0 <= k < adj[m].len() ==> (#[trigger] adj[m][k]).to != i
}

/// `labels` come from `initial` along a spanning forest of the graph given by
/// `parent` (`-1` at a root) and `rank` (the order in which nodes were
/// reached): a root keeps its initial label and no edge leads into it from a
/// node of smaller index; every other node takes its parent's label plus the
/// difference of an edge from the parent, and the parent was reached first.
pub open spec fn forest_labels(
    adj: Seq<Seq<Edge>>,
    initial: Seq<i32>,
    labels: Seq<i32>,
    parent: Seq<int>,
    rank: Seq<int>,
) -> bool {
    &&& labels.len() == adj.len()
    &&& parent.len() == adj.len()
    &&& rank.len() == adj.len()
    &&& forall|i: int|
        0 <= i < adj.len() && #[trigger] parent[i] == -1 ==> labels[i] == initial[i]
            && first_of_its_tree(adj, i)
    &&& forall|i: int|
        0 <= i < adj.len() && #[trigger] parent[i] != -1 ==> 0 <= parent[i] < adj.len() && rank[parent[i]]
            < rank[i] && labelled_from(adj, labels, parent[i], i)
}

/// The queue entry `q` stands for an edge of the graph leaving a reached node.
pub open spec fn queue_entry_ok(adj: Seq<Seq<Edge>>, visited: Seq<bool>, q: QueueEdge) -> bool {
    &&& q.from < adj.len()
    &&& q.to < adj.len()
    &&& visited[q.from as int]
    &&& exists|k: int|
        0 <= k < adj[q.from as int].len() && (#[trigger] adj[q.from as int][k]).to == q.to
            && adj[q.from as int][k].desired_delta == q.desired_delta && adj[q.from as int][k].cost
            == q.cost
}

/// Every edge leaving a reached node leads to a reached node or waits in the
/// queue.
pub open spec fn frontier_ok(adj: Seq<Seq<Edge>>, visited: Seq<bool>, queue: Seq<QueueEdge>) -> bool {
    forall|u: int, k: int|
        0 <= u < adj.len() && visited[u] && 0 <= k < adj[u].len() ==> visited[(#[trigger] adj[u][k]).to as int]
            || exists|j: int|
            0 <= j < queue.len() && (#[trigger] queue[j]).from == u && queue[j].to == adj[u][k].to
}

/// The growth state apart from the frontier: reached nodes, their labels and
/// forest links, and the queued edges.
pub open spec fn growth_core(
    adj: Seq<Seq<Edge>>,
    initial: Seq<i32>,
    labels: Seq<i32>,
    visited: Seq<bool>,
    queue: Seq<QueueEdge>,
    parent: Seq<int>,
    rank: Seq<int>,
    counter: int,
) -> bool {
    &&& labels.len() == adj.len()
    &&& visited.len() == adj.len()
    &&& parent.len() == adj.len()
    &&& rank.len() == adj.len()
    &&& forall|i: int| 0 <= i < adj.len() && !#[trigger] visited[i] ==> labels[i] == initial[i] && parent[i] == -1
    &&& forall|i: int| 0 <= i < adj.len() && #[trigger] visited[i] ==> rank[i] < counter
    &&& forall|i: int|
        0 <= i < adj.len() && visited[i] && #[trigger] parent[i] == -1 ==> labels[i] == initial[i]
            && first_of_its_tree(adj, i)
    &&& forall|i: int|
        0 <= i < adj.len() && visited[i] && #[trigger] parent[i] != -1 ==> 0 <= parent[i] < adj.len()
            && visited[parent[i]] && rank[parent[i]] < rank[i] && labelled_from(adj, labels, parent[i], i)
    &&& forall|j: int| 0 <= j < queue.len() ==> queue_entry_ok(adj, visited, #[trigger] queue[j])
}

/// The growth state: `growth_core` and the frontier.
pub open spec fn growth_ok(
    adj: Seq<Seq<Edge>>,
    initial: Seq<i32>,
    labels: Seq<i32>,
    visited: Seq<bool>,
    queue: Seq<QueueEdge>,
    parent: Seq<int>,
    rank: Seq<int>,
    counter: int,
) -> bool {
    &&& growth_core(adj, initial, labels, visited, queue, parent, rank, counter)
    &&& frontier_ok(adj, visited, queue)
}

/// `frontier_ok` for every reached node but `x`.
pub open spec fn frontier_except(adj: Seq<Seq<Edge>>, visited: Seq<bool>, queue: Seq<QueueEdge>, x: int) -> bool {
    forall|u: int, k: int|
        0 <= u < adj.len() && u != x && visited[u] && 0 <= k < adj[u].len() ==> visited[(#[trigger] adj[u][k]).to as int]
            || exists|j: int|
            0 <= j < queue.len() && (#[trigger] queue[j]).from == u && queue[j].to == adj[u][k].to
}

/// Dropping a queued edge that leads to a reached node keeps the state.
proof fn lemma_drop_reached(
    adj: Seq<Seq<Edge>>,
    initial: Seq<i32>,
    labels: Seq<i32>,
    visited: Seq<bool>,
    queue: Seq<QueueEdge>,
    parent: Seq<int>,
    rank: Seq<int>,
    counter: int,
    j: int,
)
    requires
        growth_ok(adj, initial, labels, visited, queue, parent, rank, counter),
        0 <= j < queue.len(),
        visited[queue[j].to as int],
    ensures
        growth_ok(adj, initial, labels, visited, queue.remove(j), parent, rank, counter),
{
    let q2 = queue.remove(j);
    assert forall|i: int| 0 <= i < q2.len() implies queue_entry_ok(adj, visited, #[trigger] q2[i]) by {
        if i < j {
            assert(q2[i] == queue[i]);
        } else {
            assert(q2[i] == queue[i + 1]);
        }
    }
    assert forall|u: int, k: int|
        0 <= u < adj.len() && visited[u] && 0 <= k < adj[u].len() implies visited[(#[trigger] adj[u][k]).to as int]
        || exists|i: int| 0 <= i < q2.len() && (#[trigger] q2[i]).from == u && q2[i].to == adj[u][k].to by {
        if !visited[adj[u][k].to as int] {
            let i = choose|i: int|
                0 <= i < queue.len() && (#[trigger] queue[i]).from == u && queue[i].to == adj[u][k].to;
            if i < j {
                assert(q2[i] == queue[i]);
            } else if i > j {
                assert(q2[i - 1] == queue[i]);
            }
        }
    }
}

/// Taking a queued edge to a node not reached yet: the node is reached, with
/// its label from the edge's source; only its own edges are not queued yet.
proof fn lemma_reach(
    adj: Seq<Seq<Edge>>,
    initial: Seq<i32>,
    labels: Seq<i32>,
    visited: Seq<bool>,
    queue: Seq<QueueEdge>,
    parent: Seq<int>,
    rank: Seq<int>,
    counter: int,
    j: int,
)
    requires
        adjacency_ok(adj),
        growth_ok(adj, initial, labels, visited, queue, parent, rank, counter),
        0 <= j < queue.len(),
        !visited[queue[j].to as int],
    ensures
        ({
            let e = queue[j];
            let labels2 = labels.update(e.to as int, labels[e.from as int].wrapping_add(e.desired_delta));
            let visited2 = visited.update(e.to as int, true);
            let parent2 = parent.update(e.to as int, e.from as int);
            let rank2 = rank.update(e.to as int, counter);
            &&& growth_core(adj, initial, labels2, visited2, queue.remove(j), parent2, rank2, counter + 1)
            &&& frontier_except(adj, visited2, queue.remove(j), e.to as int)
        }),
{
    let e = queue[j];
    let t = e.to as int;
    let f = e.from as int;
    let labels2 = labels.update(t, labels[f].wrapping_add(e.desired_delta));
    let visited2 = visited.update(t, true);
    let parent2 = parent.update(t, f);
    let rank2 = rank.update(t, counter);
    let q2 = queue.remove(j);
    assert(queue_entry_ok(adj, visited, e));
    assert(visited[f]);
    assert forall|i: int|
        0 <= i < adj.len() && visited2[i] && #[trigger] parent2[i] != -1 implies 0 <= parent2[i] < adj.len()
        && visited2[parent2[i]] && rank2[parent2[i]] < rank2[i] && labelled_from(adj, labels2, parent2[i], i) by {
        if i == t {
            let k = choose|k: int|
                0 <= k < adj[f].len() && (#[trigger] adj[f][k]).to == e.to && adj[f][k].desired_delta
                    == e.desired_delta && adj[f][k].cost == e.cost;
            assert(adj[f][k].to == t);
            assert(labels2[t] == labels2[f].wrapping_add(adj[f][k].desired_delta));
        } else {
            let p = parent[i];
            assert(visited[p]);
            let k = choose|k: int|
                0 <= k < adj[p].len() && (#[trigger] adj[p][k]).to == i && labels[i] == labels[p].wrapping_add(
                    adj[p][k].desired_delta,
                );
            assert(labels2[i] == labels[i] && labels2[p] == labels[p]);
            assert(adj[p][k].to == i);
        }
    }
    assert forall|i: int|
        0 <= i < adj.len() && visited2[i] && #[trigger] parent2[i] == -1 implies labels2[i] == initial[i]
        && first_of_its_tree(adj, i) by {
        assert(i != t);
    }
    assert forall|i: int| 0 <= i < q2.len() implies queue_entry_ok(adj, visited2, #[trigger] q2[i]) by {
        let qi = if i < j {
            queue[i]
        } else {
            queue[i + 1]
        };
        assert(q2[i] == qi);
        assert(queue_entry_ok(adj, visited, qi));
    }
    assert forall|u: int, k: int|
        0 <= u < adj.len() && u != t && visited2[u] && 0 <= k < adj[u].len() implies visited2[(#[trigger] adj[u][k]).to as int]
        || exists|i: int| 0 <= i < q2.len() && (#[trigger] q2[i]).from == u && q2[i].to == adj[u][k].to by {
        assert(visited[u]);
        if !visited2[adj[u][k].to as int] {
            let i = choose|i: int|
                0 <= i < queue.len() && (#[trigger] queue[i]).from == u && queue[i].to == adj[u][k].to;
            if i < j {
                assert(q2[i] == queue[i]);
            } else if i > j {
                assert(q2[i - 1] == queue[i]);
            }
        }
    }
}

/// Queuing the edges of `x` completes the frontier.
proof fn lemma_frontier_restored(
    adj: Seq<Seq<Edge>>,
    visited: Seq<bool>,
    q0: Seq<QueueEdge>,
    q1: Seq<QueueEdge>,
    x: int,
)
    requires
        frontier_except(adj, visited, q0, x),
        q1.len() >= q0.len(),
        forall|j: int| 0 <= j < q0.len() ==> #[trigger] q1[j] == q0[j],
        0 <= x < adj.len(),
        forall|k: int|
            0 <= k < adj[x].len() ==> visited[(#[trigger] adj[x][k]).to as int] || exists|j: int|
                0 <= j < q1.len() && (#[trigger] q1[j]).from == x && q1[j].to == adj[x][k].to,
    ensures
        frontier_ok(adj, visited, q1),
{
    assert forall|u: int, k: int|
        0 <= u < adj.len() && visited[u] && 0 <= k < adj[u].len() implies visited[(#[trigger] adj[u][k]).to as int]
        || exists|j: int| 0 <= j < q1.len() && (#[trigger] q1[j]).from == u && q1[j].to == adj[u][k].to by {
        if u != x && !visited[adj[u][k].to as int] {
            let j = choose|j: int|
                0 <= j < q0.len() && (#[trigger] q0[j]).from == u && q0[j].to == adj[u][k].to;
            assert(q1[j] == q0[j]);
        }
    }
}

/// `a` comes out of the queue before `b`: lower cost, then lower source,
/// then lower target.
pub open spec fn queue_before(a: QueueEdge, b: QueueEdge) -> bool {
    a.cost < b.cost || (a.cost == b.cost && (a.from < b.from || (a.from == b.from && a.to <= b.to)))
}

/// Index of the entry that leaves the queue first (see `queue_before`).
fn queue_min(queue: &Vec<QueueEdge>) -> (r: usize)
    requires
        queue@.len() > 0,
    ensures
        r < queue@.len(),
        forall|j: int| 0 <= j < queue@.len() ==> queue_before(queue@[r as int], #[trigger] queue@[j]),
{
    let mut best: usize = 0;
    let mut i: usize = 1;
    while i < queue.len()
        invariant
            0 < i <= queue@.len(),
            best < i,
            forall|j: int| 0 <= j < i ==> queue_before(queue@[best as int], #[trigger] queue@[j]),
        decreases queue@.len() - i,
    {
        let a = queue[i];
        let b = queue[best];
        if a.cost < b.cost || (a.cost == b.cost && (a.from < b.from || (a.from == b.from && a.to < b.to))) {
            best = i;
        }
        i = i + 1;
    }
    best
}

/// Queues every edge of `node` that leads to a node not reached yet.
fn push_edges(node: usize, adjacency: &Vec<Vec<Edge>>, visited: &Vec<bool>, queue: &mut Vec<QueueEdge>)
    requires
        adjacency_ok(adj_view(adjacency@)),
        node < adjacency@.len(),
        visited@.len() == adjacency@.len(),
        visited@[node as int],
        forall|j: int|
            0 <= j < old(queue)@.len() ==> queue_entry_ok(adj_view(adjacency@), visited@, #[trigger] old(queue)@[j]),
    ensures
        final(queue)@.len() >= old(queue)@.len(),
        forall|j: int| 0 <= j < old(queue)@.len() ==> #[trigger] final(queue)@[j] == old(queue)@[j],
        forall|j: int|
            0 <= j < final(queue)@.len() ==> queue_entry_ok(adj_view(adjacency@), visited@, #[trigger] final(queue)@[j]),
        forall|k: int|
            0 <= k < adj_view(adjacency@)[node as int].len() ==> visited@[(#[trigger] adj_view(adjacency@)[node as int][k]).to as int]
                || exists|j: int|
                0 <= j < final(queue)@.len() && (#[trigger] final(queue)@[j]).from == node && final(queue)@[j].to
                    == adj_view(adjacency@)[node as int][k].to,
{
    let ghost adj = adj_view(adjacency@);
    let ghost q0 = queue@;
    let list = &adjacency[node];
    assert(list@ == adj[node as int]);
    let mut k: usize = 0;
    while k < list.len()
        invariant
            k <= list@.len(),
            adj == adj_view(adjacency@),
            adjacency_ok(adj),
            list@ == adj[node as int],
            node < adj.len(),
            visited@.len() == adj.len(),
            visited@[node as int],
            queue@.len() >= q0.len(),
            forall|j: int| 0 <= j < q0.len() ==> #[trigger] queue@[j] == q0[j],
            forall|j: int| 0 <= j < queue@.len() ==> queue_entry_ok(adj, visited@, #[trigger] queue@[j]),
            forall|i: int|
                0 <= i < k ==> visited@[(#[trigger] adj[node as int][i]).to as int] || exists|j: int|
                    0 <= j < queue@.len() && (#[trigger] queue@[j]).from == node && queue@[j].to
                        == adj[node as int][i].to,
        decreases list@.len() - k,
    {
        let e = list[k];
        assert(adj[node as int][k as int] == e);
        if !visited[e.to] {
            let ghost before = queue@;
            queue.push(QueueEdge { cost: e.cost, from: e.from, to: e.to, desired_delta: e.desired_delta });
            proof {
                let last = queue@.len() - 1;
                assert(queue@[last].from == node && queue@[last].to == e.to);
                assert(queue_entry_ok(adj, visited@, queue@[last]));
                assert forall|i: int|
                    0 <= i < k + 1 implies visited@[(#[trigger] adj[node as int][i]).to as int] || exists|j: int|
                    0 <= j < queue@.len() && (#[trigger] queue@[j]).from == node && queue@[j].to
                        == adj[node as int][i].to by {
                    if i < k && !visited@[adj[node as int][i].to as int] {
                        let j = choose|j: int|
                            0 <= j < before.len() && (#[trigger] before[j]).from == node && before[j].to
                                == adj[node as int][i].to;
                        assert(queue@[j] == before[j]);
                    }
                    if i == k {
                        assert(queue@[last].from == node);
                    }
                }
            }
        }
        k = k + 1;
    }
}

/// Grows the label forest over every node: each node not reached yet, in
/// index order, keeps its label and becomes a root; then, repeatedly, the
/// queued edge that comes first (see `queue_before`) is taken, and when it
/// leads to a node not reached yet, that node takes the label of the edge's
/// source plus the edge's difference (wrapping within `i32`) and its edges are
/// queued.
fn grow_label_forest(labels: &mut Vec<i32>, adjacency: &Vec<Vec<Edge>>)
    requires
        old(labels)@.len() == adjacency@.len(),
        adjacency_ok(adj_view(adjacency@)),
    ensures
        exists|parent: Seq<int>, rank: Seq<int>|
            forest_labels(adj_view(adjacency@), old(labels)@, final(labels)@, parent, rank),
{
    let ghost adj = adj_view(adjacency@);
    let ghost initial = labels@;
    let n = labels.len();
    let mut visited: Vec<bool> = Vec::new();
    while visited.len() < n
        invariant
            visited@.len() <= n,
            forall|i: int| 0 <= i < visited@.len() ==> !#[trigger] visited@[i],
        decreases n - visited@.len(),
    {
        visited.push(false);
    }
    let mut queue: Vec<QueueEdge> = Vec::new();
    let ghost mut parent: Seq<int> = Seq::new(n as nat, |i: int| -1);
    let ghost mut rank: Seq<int> = Seq::new(n as nat, |i: int| 0);
    let ghost mut counter: int = 0;
    let mut seed: usize = 0;
    while seed < n
        invariant
            seed <= n,
            n == adj.len(),
            adj == adj_view(adjacency@),
            adjacency_ok(adj),
            initial == old(labels)@,
            growth_ok(adj, initial, labels@, visited@, queue@, parent, rank, counter),
            queue@.len() == 0,
            forall|m: int| 0 <= m < seed ==> #[trigger] visited@[m],
        decreases n - seed,
    {
        if visited[seed] {
            seed = seed + 1;
            continue;
        }
        proof {
            assert(first_of_its_tree(adj, seed as int)) by {
                assert forall|m: int, k: int| 0 <= m < seed && 0 <= k < adj[m].len() implies (#[trigger] adj[m][k]).to
                    != seed by {
                    assert(visited@[m]);
                }
            }
        }
        visited.set(seed, true);
        proof {
            rank = rank.update(seed as int, counter);
            counter = counter + 1;
        }
        push_edges(seed, adjacency, &visited, &mut queue);
        while queue.len() > 0
            invariant
                seed < n,
                n == adj.len(),
                adj == adj_view(adjacency@),
                adjacency_ok(adj),
                initial == old(labels)@,
                growth_ok(adj, initial, labels@, visited@, queue@, parent, rank, counter),
                forall|m: int| 0 <= m <= seed ==> #[trigger] visited@[m],
            decreases n - count_true(visited@), queue@.len(),
        {
            proof {
                lemma_count_bounds(visited@);
            }
            let j = queue_min(&queue);
            let ghost q0 = queue@;
            let e = queue.remove(j);
            proof {
                assert(queue_entry_ok(adj, visited@, q0[j as int]));
            }
            if visited[e.to] {
                proof {
                    lemma_drop_reached(adj, initial, labels@, visited@, q0, parent, rank, counter, j as int);
                }
                continue;
            }
            proof {
                lemma_reach(adj, initial, labels@, visited@, q0, parent, rank, counter, j as int);
                lemma_count_set(visited@, e.to as int);
                lemma_count_bounds(visited@.update(e.to as int, true));
            }
            let label = labels[e.from].wrapping_add(e.desired_delta);
            labels.set(e.to, label);
            visited.set(e.to, true);
            proof {
                parent = parent.update(e.to as int, e.from as int);
                rank = rank.update(e.to as int, counter);
                counter = counter + 1;
            }
            let ghost q1 = queue@;
            push_edges(e.to, adjacency, &visited, &mut queue);
            proof {
                lemma_frontier_restored(adj, visited@, q1, queue@, e.to as int);
            }
        }
        seed = seed + 1;
    }
    proof {
        assert(forest_labels(adj, initial, labels@, parent, rank));
    }
}

/// Number of reached nodes.
pub open spec fn count_true(s: Seq<bool>) -> int
    decreases s.len(),
{
    if s.len() == 0 {
        0
    } else {
        count_true(s.drop_last()) + if s.last() {
            1int
        } else {
            0
        }
    }
}

proof fn lemma_count_bounds(s: Seq<bool>)
    ensures
        0 <= count_true(s) <= s.len(),
    decreases s.len(),
{
    if s.len() > 0 {
        lemma_count_bounds(s.drop_last());
    }
}

proof fn lemma_count_set(s: Seq<bool>, i: int)
    requires
        0 <= i < s.len(),
        !s[i],
    ensures
        count_true(s.update(i, true)) == count_true(s) + 1,
    decreases s.len(),
{
    let t = s.update(i, true);
    if i == s.len() - 1 {
        assert(t.drop_last() =~= s.drop_last());
    } else {
        assert(t.drop_last() =~= s.drop_last().update(i, true));
        lemma_count_set(s.drop_last(), i);
    }
}

/// The directed edge from cell `from` to cell `to` over grid edge `e`; a
/// backward edge (against the grid edge's direction) negates the difference.
pub open spec fn edge_of(e: EdgeDatum, from: int, to: int, forward: bool, flow_sign: int) -> Edge {
    Edge {
        from: from as usize,
        to: to as usize,
        cost: e.cost,
        desired_delta: if forward {
            e.desired_delta
        } else {
            (-e.desired_delta) as i32
        },
        offset: e.offset,
        dzmax: e.dzmax,
        laycost: e.laycost,
        nshortcycle: e.nshortcycle,
        flow_sign: flow_sign as i32,
        flow: e.flow,
    }
}

/// The edge over `slot` when `exists` and the slot holds an edge.
pub open spec fn maybe_edge(
    exists: bool,
    slot: Option<EdgeDatum>,
    from: int,
    to: int,
    forward: bool,
    flow_sign: int,
) -> Seq<Edge> {
    if exists && slot is Some {
        seq![edge_of(slot->0, from, to, forward, flow_sign)]
    } else {
        Seq::empty()
    }
}

/// The edges of cell `(r, c)`: up, down, left, right, where present.
pub open spec fn cell_edges(
    h: Seq<Option<EdgeDatum>>,
    v: Seq<Option<EdgeDatum>>,
    nrow: int,
    ncol: int,
    r: int,
    c: int,
) -> Seq<Edge> {
    let u = r * ncol + c;
    maybe_edge(r > 0, v[(r - 1) * ncol + c], u, u - ncol, false, 1) + maybe_edge(
        r + 1 < nrow,
        v[r * ncol + c],
        u,
        u + ncol,
        true,
        -1,
    ) + maybe_edge(c > 0, h[r * (ncol - 1) + c - 1], u, u - 1, false, -1) + maybe_edge(
        c + 1 < ncol,
        h[r * (ncol - 1) + c],
        u,
        u + 1,
        true,
        1,
    )
}

/// The adjacency lists of the cell graph of an `nrow` by `ncol` grid.
pub open spec fn grid_adjacency(
    h: Seq<Option<EdgeDatum>>,
    v: Seq<Option<EdgeDatum>>,
    nrow: int,
    ncol: int,
) -> Seq<Seq<Edge>> {
    Seq::new((nrow * ncol) as nat, |u: int| cell_edges(h, v, nrow, ncol, u / ncol, u % ncol))
}

/// No present edge asks for the difference `i32::MIN`, which has no negation.
pub open spec fn deltas_negatable(s: Seq<Option<EdgeDatum>>) -> bool {
    forall|i: int| 0 <= i < s.len() ==> (#[trigger] s[i] matches Some(e) ==> e.desired_delta != i32::MIN)
}

fn make_edge(e: EdgeDatum, from: usize, to: usize, forward: bool, flow_sign: i32) -> (r: Edge)
    requires
        e.desired_delta != i32::MIN,
    ensures
        r == edge_of(e, from as int, to as int, forward, flow_sign as int),
{
    Edge {
        from,
        to,
        cost: e.cost,
        desired_delta: if forward {
            e.desired_delta
        } else {
            -e.desired_delta
        },
        offset: e.offset,
        dzmax: e.dzmax,
        laycost: e.laycost,
        nshortcycle: e.nshortcycle,
        flow_sign,
        flow: e.flow,
    }
}

/// The edges of cell `(row, col)` (see `cell_edges`).
fn cell_edge_list(
    horizontal: &[Option<EdgeDatum>],
    vertical: &[Option<EdgeDatum>],
    nrow: usize,
    ncol: usize,
    row: usize,
    col: usize,
) -> (r: Vec<Edge>)
    requires
        grid_ok(horizontal@, vertical@, nrow as int, ncol as int),
        deltas_negatable(horizontal@),
        deltas_negatable(vertical@),
        row < nrow,
        col < ncol,
        nrow * ncol <= usize::MAX,
    ensures
        r@ == cell_edges(horizontal@, vertical@, nrow as int, ncol as int, row as int, col as int),
{
    let ghost h = horizontal@;
    let ghost v = vertical@;
    let hl = horizontal.len();
    let vl = vertical.len();
    proof {
        crate::route::lemma_index_bounds(row as int, col as int, nrow as int, ncol as int);
        assert((row + 1) * ncol == row * ncol + ncol) by (nonlinear_arith);
        if row > 0 {
            assert(row * ncol >= ncol) by (nonlinear_arith)
                requires
                    row >= 1,
                    ncol >= 0,
            ;
            crate::route::lemma_index_bounds(row - 1, col as int, nrow - 1, ncol as int);
        }
        if row + 1 < nrow {
            crate::route::lemma_index_bounds(row as int, col as int, nrow - 1, ncol as int);
            crate::route::lemma_index_bounds(row + 1, col as int, nrow as int, ncol as int);
        }
        if col > 0 {
            crate::route::lemma_index_bounds(row as int, col - 1, nrow as int, ncol - 1);
        }
        if col + 1 < ncol {
            crate::route::lemma_index_bounds(row as int, col as int, nrow as int, ncol - 1);
        }
    }
    let u = row * ncol + col;
    let mut list: Vec<Edge> = Vec::new();
    let ghost u_int = u as int;
    if row > 0 {
        if let Some(e) = vertical[vertical_index(row - 1, col, ncol)] {
            list.push(make_edge(e, u, u - ncol, false, 1));
        }
    }
    assert(list@ =~= maybe_edge(row > 0, v[(row - 1) * ncol + col], u_int, u_int - ncol, false, 1));
    let ghost l1 = list@;
    if row + 1 < nrow {
        if let Some(e) = vertical[vertical_index(row, col, ncol)] {
            list.push(make_edge(e, u, u + ncol, true, -1));
        }
    }
    assert(list@ =~= l1 + maybe_edge(row + 1 < nrow, v[row * ncol + col], u_int, u_int + ncol, true, -1));
    let ghost l2 = list@;
    if col > 0 {
        if let Some(e) = horizontal[horizontal_index(row, col - 1, ncol)] {
            list.push(make_edge(e, u, u - 1, false, -1));
        }
    }
    assert(list@ =~= l2 + maybe_edge(col > 0, h[row * (ncol - 1) + col - 1], u_int, u_int - 1, false, -1));
    let ghost l3 = list@;
    if col + 1 < ncol {
        if let Some(e) = horizontal[horizontal_index(row, col, ncol)] {
            list.push(make_edge(e, u, u + 1, true, 1));
        }
    }
    assert(list@ =~= l3 + maybe_edge(col + 1 < ncol, h[row * (ncol - 1) + col], u_int, u_int + 1, true, 1));
    list
}

proof fn lemma_cell_coords(r: int, c: int, ncol: int)
    requires
        0 <= c < ncol,
    ensures
        (r * ncol + c) / ncol == r,
        (r * ncol + c) % ncol == c,
{
    vstd::arithmetic::div_mod::lemma_fundamental_div_mod_converse(r * ncol + c, ncol, r, c);
}

/// The adjacency lists of the cell graph: for each cell in row-major order,
/// its edges up, down, left and right where the grid edge is present (see
/// `cell_edges`).
pub fn build_adjacency(
    horizontal: &[Option<EdgeDatum>],
    vertical: &[Option<EdgeDatum>],
    nrow: usize,
    ncol: usize,
) -> (adjacency: Vec<Vec<Edge>>)
    requires
        grid_ok(horizontal@, vertical@, nrow as int, ncol as int),
        deltas_negatable(horizontal@),
        deltas_negatable(vertical@),
        nrow * ncol <= usize::MAX,
    ensures
        adj_view(adjacency@) == grid_adjacency(horizontal@, vertical@, nrow as int, ncol as int),
{
    let ghost h = horizontal@;
    let ghost v = vertical@;
    let mut adjacency: Vec<Vec<Edge>> = Vec::new();
    let mut row: usize = 0;
    while row < nrow
        invariant
            row <= nrow,
            h == horizontal@,
            v == vertical@,
            grid_ok(h, v, nrow as int, ncol as int),
            deltas_negatable(h),
            deltas_negatable(v),
            nrow * ncol <= usize::MAX,
            adjacency@.len() == row * ncol,
            forall|u: int|
                0 <= u < adjacency@.len() ==> (#[trigger] adjacency@[u])@ == cell_edges(
                    h,
                    v,
                    nrow as int,
                    ncol as int,
                    u / ncol as int,
                    u % ncol as int,
                ),
        decreases nrow - row,
    {
        let mut col: usize = 0;
        while col < ncol
            invariant
                row < nrow,
                col <= ncol,
                h == horizontal@,
                v == vertical@,
                grid_ok(h, v, nrow as int, ncol as int),
                deltas_negatable(h),
                deltas_negatable(v),
                nrow * ncol <= usize::MAX,
                adjacency@.len() == row * ncol + col,
                forall|u: int|
                    0 <= u < adjacency@.len() ==> (#[trigger] adjacency@[u])@ == cell_edges(
                        h,
                        v,
                        nrow as int,
                        ncol as int,
                        u / ncol as int,
                        u % ncol as int,
                    ),
            decreases ncol - col,
        {
            let list = cell_edge_list(horizontal, vertical, nrow, ncol, row, col);
            proof {
                lemma_cell_coords(row as int, col as int, ncol as int);
            }
            adjacency.push(list);
            col = col + 1;
        }
        proof {
            assert(row * ncol + ncol == (row + 1) * ncol) by (nonlinear_arith);
        }
        row = row + 1;
    }
    proof {
        assert(adj_view(adjacency@) =~= grid_adjacency(h, v, nrow as int, ncol as int));
    }
    adjacency
}

/// Every edge of the cell graph leaves its cell for a cell of the grid.
pub proof fn lemma_grid_adjacency_ok(h: Seq<Option<EdgeDatum>>, v: Seq<Option<EdgeDatum>>, nrow: int, ncol: int)
    requires
        nrow >= 0,
        ncol >= 1,
        nrow * ncol <= usize::MAX,
    ensures
        adjacency_ok(grid_adjacency(h, v, nrow, ncol)),
{
    let adj = grid_adjacency(h, v, nrow, ncol);
    let n = nrow * ncol;
    assert forall|u: int, k: int| 0 <= u < adj.len() && 0 <= k < adj[u].len() implies (#[trigger] adj[u][k]).from
        == u && adj[u][k].to < adj.len() by {
        let r = u / ncol;
        let c = u % ncol;
        vstd::arithmetic::div_mod::lemma_fundamental_div_mod(u, ncol);
        assert(u == r * ncol + c) by (nonlinear_arith)
            requires
                u == ncol * (u / ncol) + u % ncol,
                r == u / ncol,
                c == u % ncol,
        ;
        assert(0 <= r < nrow) by {
            if r >= nrow {
                assert(r * ncol >= nrow * ncol) by (nonlinear_arith)
                    requires
                        r >= nrow,
                        ncol >= 1,
                ;
            }
            if r < 0 {
                assert(r * ncol <= -ncol) by (nonlinear_arith)
                    requires
                        r < 0,
                        ncol >= 1,
                ;
            }
        }
        assert((r + 1) * ncol == r * ncol + ncol) by (nonlinear_arith);
        if r + 1 < nrow {
            assert((r + 1) * ncol + c < nrow * ncol) by (nonlinear_arith)
                requires
                    r + 2 <= nrow,
                    0 <= c < ncol,
            ;
        }
        if r > 0 {
            assert(r * ncol >= ncol) by (nonlinear_arith)
                requires
                    r >= 1,
                    ncol >= 1,
            ;
        }
        let a = maybe_edge(r > 0, v[(r - 1) * ncol + c], u, u - ncol, false, 1);
        let b = maybe_edge(r + 1 < nrow, v[r * ncol + c], u, u + ncol, true, -1);
        let d = maybe_edge(c > 0, h[r * (ncol - 1) + c - 1], u, u - 1, false, -1);
        let e = maybe_edge(c + 1 < ncol, h[r * (ncol - 1) + c], u, u + 1, true, 1);
        assert(edges_leave(a, u, n));
        assert(edges_leave(b, u, n));
        assert(edges_leave(d, u, n));
        assert(edges_leave(e, u, n));
        lemma_edges_leave_concat(a, b, u, n);
        lemma_edges_leave_concat(a + b, d, u, n);
        lemma_edges_leave_concat(a + b + d, e, u, n);
        assert(adj[u] == a + b + d + e);
    }
}

/// Every edge of `s` leaves `u` for a node below `n`.
pub open spec fn edges_leave(s: Seq<Edge>, u: int, n: int) -> bool {
    forall|k: int| 0 <= k < s.len() ==> (#[trigger] s[k]).from == u && s[k].to < n
}

proof fn lemma_edges_leave_concat(s: Seq<Edge>, t: Seq<Edge>, u: int, n: int)
    requires
        edges_leave(s, u, n),
        edges_leave(t, u, n),
    ensures
        edges_leave(s + t, u, n),
{
    assert forall|k: int| 0 <= k < (s + t).len() implies (#[trigger] (s + t)[k]).from == u && (s + t)[k].to < n by {
        if k >= s.len() {
            assert((s + t)[k] == t[k - s.len()]);
        }
    }
}

/// `n` zero labels.
pub open spec fn zero_labels(n: nat) -> Seq<i32> {
    Seq::new(n, |i: int| 0i32)
}

/// Labels seeded from the adjacency lists: all labels start at zero, and the
/// label forest is grown over the graph (see `grow_label_forest`).
pub fn seed_labels_from_adjacency(node_count: usize, adjacency: &Vec<Vec<Edge>>) -> (labels: Vec<i32>)
    requires
        adjacency@.len() == node_count,
        adjacency_ok(adj_view(adjacency@)),
    ensures
        exists|parent: Seq<int>, rank: Seq<int>|
            forest_labels(
                adj_view(adjacency@),
                zero_labels(node_count as nat),
                labels@,
                parent,
                rank,
            ),
{
    let mut labels: Vec<i32> = Vec::new();
    while labels.len() < node_count
        invariant
            labels@.len() <= node_count,
            forall|i: int| 0 <= i < labels@.len() ==> #[trigger] labels@[i] == 0,
        decreases node_count - labels@.len(),
    {
        labels.push(0);
    }
    assert(labels@ =~= zero_labels(node_count as nat));
    grow_label_forest(&mut labels, adjacency);
    labels
}

/// Re-seeds the labels from the edges' desired differences: when there is one
/// label per cell, the label forest is grown over the cell graph (see
/// `build_adjacency` and `grow_label_forest`), roots keeping their labels;
/// otherwise nothing changes.
pub fn reseed_labels_from_edge_deltas(
    labels: &mut Vec<i32>,
    horizontal: &[Option<EdgeDatum>],
    vertical: &[Option<EdgeDatum>],
    nrow: usize,
    ncol: usize,
)
    requires
        grid_ok(horizontal@, vertical@, nrow as int, ncol as int),
        deltas_negatable(horizontal@),
        deltas_negatable(vertical@),
    ensures
        old(labels)@.len() != nrow * ncol ==> final(labels)@ == old(labels)@,
        old(labels)@.len() == nrow * ncol ==> exists|parent: Seq<int>, rank: Seq<int>|
            forest_labels(
                grid_adjacency(horizontal@, vertical@, nrow as int, ncol as int),
                old(labels)@,
                final(labels)@,
                parent,
                rank,
            ),
{
    let n = labels.len();
    if ncol == 0 {
        if n != 0 {
            return;
        }
    } else if n / ncol != nrow || n % ncol != 0 {
        proof {
            if n == nrow * ncol {
                lemma_cell_coords(nrow as int, 0, ncol as int);
            }
        }
        return;
    }
    proof {
        if ncol > 0 {
            vstd::arithmetic::div_mod::lemma_fundamental_div_mod(n as int, ncol as int);
            assert(n == nrow * ncol) by (nonlinear_arith)
                requires
                    n == ncol * (n / ncol) + n % ncol,
                    n / ncol == nrow,
                    n % ncol == 0,
            ;
        } else {
            assert(nrow * ncol == 0) by (nonlinear_arith)
                requires
                    ncol == 0,
            ;
        }
        if ncol > 0 {
            lemma_grid_adjacency_ok(horizontal@, vertical@, nrow as int, ncol as int);
        } else {
            assert(grid_adjacency(horizontal@, vertical@, nrow as int, ncol as int).len() == 0);
        }
    }
    let adjacency = build_adjacency(horizontal, vertical, nrow, ncol);
    assert(adjacency@.len() == adj_view(adjacency@).len());
    grow_label_forest(labels, &adjacency);
}

} // verus!
