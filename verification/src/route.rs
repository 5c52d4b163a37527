//! Routing plaquette residues to the grid boundary along cheapest paths: one
//! shortest-path tree toward the boundary per sign of the residue, then each
//! residue pushed step by step along its tree.
use vstd::prelude::*;
use crate::edges::{
    apply_edge_correction, correction_ok, edge_cost_at, edge_dz_ok, edge_increment_cost,
    horizontal_index, in_i32, vertical_index, EdgeDatum,
};
use crate::mst_flow::{dist_sum, lemma_dist_sum_nonneg, lemma_dist_sum_update, min_entry};
use crate::residual::{grid_ok, lemma_slots_trans, left_of, residue_at, same_slots};
use crate::pair_route::{step_edge, step_slot, step_target};
use crate::residue_pairing::{
    lemma_route_step_is_step, lemma_step_moves_residue, lemma_whole_move_never_grows, pidx,
    plaquette_count, residue_magnitude, step_carries, carried, step_applied, curl_spec, plaquette_at,
    pass_count, lemma_plaquette_at,
};
use crate::incr_cost::dz_exact;
use crate::route_search::{
    lemma_expanded_inv, lemma_inv_basics, lemma_pop_inv, lemma_search_done, lemma_search_init,
    lemma_seeded_inv, routes_certified, routes_cheapest, search_inv,
};
use crate::edges::DZ_LIMIT;

verus! {

/// No route from this plaquette.
pub const ROUTE_NONE: u8 = 255;
/// Leave through the top edge.
pub const ROUTE_UP: u8 = 0;
/// Leave through the right edge.
pub const ROUTE_RIGHT: u8 = 1;
/// Leave through the bottom edge.
pub const ROUTE_DOWN: u8 = 2;
/// Leave through the left edge.
pub const ROUTE_LEFT: u8 = 3;

/// Index of plaquette `(row, col)`.
pub open spec fn p_index(row: int, col: int, ncol: int) -> int {
    row * (ncol - 1) + col
}

/// Index of plaquette `(row, col)` of a grid with `ncol` columns of cells.
pub fn plaquette_index(row: usize, col: usize, ncol: usize) -> (r: usize)
    requires
        ncol >= 1,
        row * (ncol - 1) + col <= usize::MAX,
    ensures
        r == p_index(row as int, col as int, ncol as int),
{
    row * (ncol - 1) + col
}

/// The edge that a step in direction `d` from plaquette `p` crosses.
pub open spec fn route_edge(
    h: Seq<Option<EdgeDatum>>,
    v: Seq<Option<EdgeDatum>>,
    ncol: int,
    p: int,
    d: u8,
) -> Option<EdgeDatum> {
    if d == ROUTE_UP {
        h[p]
    } else if d == ROUTE_RIGHT {
        v[left_of(p, ncol) + 1]
    } else if d == ROUTE_DOWN {
        h[p + ncol - 1]
    } else {
        v[left_of(p, ncol)]
    }
}

/// The label difference a step in direction `d` adds to its edge when it
/// carries `amount`.
pub open spec fn step_delta(d: u8, amount: int) -> int {
    if d == ROUTE_UP || d == ROUTE_RIGHT {
        -amount
    } else if d == ROUTE_DOWN || d == ROUTE_LEFT {
        amount
    } else {
        0
    }
}

/// The cost model can price a change of `d` on the edge.
pub open spec fn route_cost_ok(e: EdgeDatum, d: int) -> bool {
    &&& in_i32(e.flow_sign * d)
    &&& in_i32(e.flow + e.flow_sign * d)
    &&& edge_dz_ok(e, e.flow as int)
    &&& edge_dz_ok(e, e.flow + e.flow_sign * d)
}

/// Every present edge can be priced for a change of `amount` either way.
pub open spec fn route_edges_ok(s: Seq<Option<EdgeDatum>>, amount: int) -> bool {
    forall|i: int|
        0 <= i < s.len() ==> (#[trigger] s[i] matches Some(e) ==> route_cost_ok(e, amount)
            && route_cost_ok(e, -amount) && route_cost_ok(e, 0))
}

/// Cost increase of a step, never below zero.
pub open spec fn step_cost_spec(e: EdgeDatum, d: u8, amount: int) -> int {
    let c = edge_cost_at(e, e.flow + e.flow_sign * step_delta(d, amount)) - edge_cost_at(
        e,
        e.flow as int,
    );
    if c > 0 {
        c
    } else {
        0
    }
}

/// Cost of a step in direction `step` over `edge` carrying `signed_amount`.
pub fn route_step_increment(edge: EdgeDatum, step: u8, signed_amount: i32) -> (r: i64)
    requires
        signed_amount != i32::MIN,
        route_cost_ok(edge, signed_amount as int),
        route_cost_ok(edge, -(signed_amount as int)),
        route_cost_ok(edge, 0),
    ensures
        r == step_cost_spec(edge, step, signed_amount as int),
        r >= 0,
{
    let desired_delta = if step == ROUTE_UP || step == ROUTE_RIGHT {
        -signed_amount
    } else if step == ROUTE_DOWN || step == ROUTE_LEFT {
        signed_amount
    } else {
        0
    };
    let c = edge_increment_cost(edge, desired_delta);
    if c > 0 {
        c
    } else {
        0
    }
}

/// Lowers `node`'s distance to `cost`, records the step and queues the node,
/// when `cost` is lower than the distance known.
pub fn relax_route(
    node: usize,
    cost: i64,
    first_step: u8,
    dist: &mut Vec<i64>,
    next_step: &mut Vec<u8>,
    heap: &mut Vec<(i64, usize)>,
)
    requires
        node < old(dist)@.len(),
        node < old(next_step)@.len(),
    ensures
        cost < old(dist)@[node as int] ==> {
            &&& final(dist)@ == old(dist)@.update(node as int, cost)
            &&& final(next_step)@ == old(next_step)@.update(node as int, first_step)
            &&& final(heap)@ == old(heap)@.push((cost, node))
        },
        cost >= old(dist)@[node as int] ==> {
            &&& final(dist)@ == old(dist)@
            &&& final(next_step)@ == old(next_step)@
            &&& final(heap)@ == old(heap)@
        },
{
    if cost < dist[node] {
        dist.set(node, cost);
        next_step.set(node, first_step);
        heap.push((cost, node));
    }
}

/// A route table entry: no route, or a direction whose edge is present.
pub open spec fn route_entry_ok(
    h: Seq<Option<EdgeDatum>>,
    v: Seq<Option<EdgeDatum>>,
    ncol: int,
    p: int,
    d: u8,
) -> bool {
    d == ROUTE_NONE || (d <= ROUTE_LEFT && route_edge(h, v, ncol, p, d) is Some)
}

/// The state of the route search: distances are not negative, queued
/// entries name plaquettes, and every recorded step crosses a present edge.
pub open spec fn search_ok(
    h: Seq<Option<EdgeDatum>>,
    v: Seq<Option<EdgeDatum>>,
    ncol: int,
    n: int,
    dist: Seq<i64>,
    next_step: Seq<u8>,
    heap: Seq<(i64, usize)>,
) -> bool {
    &&& dist.len() == n
    &&& next_step.len() == n
    &&& forall|j: int| 0 <= j < n ==> #[trigger] dist[j] >= 0
    &&& forall|j: int| 0 <= j < n ==> route_entry_ok(h, v, ncol, j, #[trigger] next_step[j])
    &&& forall|q: int| 0 <= q < heap.len() ==> (#[trigger] heap[q]).0 >= 0 && (heap[q].1 as int) < n
}

/// Plaquette `(row, col)` of a `prn` by `pcn` plaquette grid: its index, the
/// index of its left edge, and the bounds of its four edge slots.
pub proof fn lemma_plaquette_coords(row: int, col: int, prn: int, pcn: int)
    requires
        0 <= row < prn,
        0 <= col < pcn,
    ensures
        (row * pcn + col) / pcn == row,
        (row * pcn + col) % pcn == col,
        0 <= row * pcn + col < prn * pcn,
        left_of(row * pcn + col, pcn + 1) == row * (pcn + 1) + col,
        row * (pcn + 1) + col + 1 < prn * (pcn + 1),
        row * pcn + col + pcn < (prn + 1) * pcn,
{
    vstd::arithmetic::div_mod::lemma_fundamental_div_mod_converse(
        row * pcn + col,
        pcn,
        row,
        col,
    );
    assert(0 <= row * pcn) by (nonlinear_arith)
        requires
            0 <= row,
            0 <= pcn,
    ;
    assert((row + 1) * pcn <= prn * pcn) by (nonlinear_arith)
        requires
            row + 1 <= prn,
            0 <= pcn,
    ;
    assert((row + 1) * pcn == row * pcn + pcn) by (nonlinear_arith);
    assert((row + 1) * (pcn + 1) <= prn * (pcn + 1)) by (nonlinear_arith)
        requires
            row + 1 <= prn,
            0 <= pcn,
    ;
    assert((row + 1) * (pcn + 1) == row * (pcn + 1) + pcn + 1) by (nonlinear_arith);
    assert((prn + 1) * pcn == prn * pcn + pcn) by (nonlinear_arith);
}

/// Row-major index `row * cols + col` lies in a `rows` by `cols` table.
pub proof fn lemma_index_bounds(row: int, col: int, rows: int, cols: int)
    requires
        0 <= row < rows,
        0 <= col < cols,
    ensures
        0 <= row * cols + col < rows * cols,
{
    assert(0 <= row * cols) by (nonlinear_arith)
        requires
            0 <= row,
            0 <= cols,
    ;
    assert((row + 1) * cols <= rows * cols) by (nonlinear_arith)
        requires
            row + 1 <= rows,
            0 <= cols,
    ;
    assert((row + 1) * cols == row * cols + cols) by (nonlinear_arith);
}

/// For every plaquette, the first step of a cheapest route to the grid
/// boundary for a residue of `signed_amount`: a multi-source shortest-path
/// search from the boundary edges, with `route_step_increment` as step costs.
/// Plaquettes that reach no boundary get `ROUTE_NONE`.
pub fn compute_boundary_routes_for_amount(
    horizontal: &[Option<EdgeDatum>],
    vertical: &[Option<EdgeDatum>],
    nrow: usize,
    ncol: usize,
    signed_amount: i32,
) -> (r: Vec<u8>)
    requires
        grid_ok(horizontal@, vertical@, nrow as int, ncol as int),
        signed_amount != i32::MIN,
        route_edges_ok(horizontal@, signed_amount as int),
        route_edges_ok(vertical@, signed_amount as int),
    ensures
        r@.len() == pass_count(nrow as int, ncol as int),
        forall|p: int|
            0 <= p < r@.len() ==> route_entry_ok(
                horizontal@,
                vertical@,
                ncol as int,
                p,
                #[trigger] r@[p],
            ),
        routes_cheapest(horizontal@, vertical@, nrow as int, ncol as int, signed_amount as int, r@),
{
    if nrow < 2 || ncol < 2 {
        let r: Vec<u8> = Vec::new();
        assert(routes_certified(horizontal@, vertical@, nrow as int, ncol as int, signed_amount as int, Seq::empty(), r@));
        return r;
    }
    let prn = nrow - 1;
    let pcn = ncol - 1;
    let hl = horizontal.len();
    let vl = vertical.len();
    assert(prn * pcn + pcn == nrow * pcn) by (nonlinear_arith)
        requires
            prn + 1 == nrow,
    ;
    let plaquette_count = prn * pcn;
    let ghost n = plaquette_count as int;
    let ghost nc = ncol as int;
    let mut dist: Vec<i64> = Vec::new();
    let mut next_step: Vec<u8> = Vec::new();
    let mut i: usize = 0;
    while i < plaquette_count
        invariant
            i <= plaquette_count,
            dist@.len() == i,
            next_step@.len() == i,
            forall|j: int| 0 <= j < i ==> #[trigger] dist@[j] == i64::MAX,
            forall|j: int| 0 <= j < i ==> #[trigger] next_step@[j] == ROUTE_NONE,
        decreases plaquette_count - i,
    {
        dist.push(i64::MAX);
        next_step.push(ROUTE_NONE);
        i = i + 1;
    }
    let mut heap: Vec<(i64, usize)> = Vec::new();
    proof {
        lemma_search_init(horizontal@, vertical@, nrow as int, ncol as int, signed_amount as int, (dist@, next_step@, heap@));
    }
    let mut row: usize = 0;
    while row < prn
        invariant
            row <= prn,
            prn == nrow - 1,
            pcn == ncol - 1,
            ncol >= 2,
            nrow >= 2,
            n == prn * pcn,
            nc == ncol,
            hl == horizontal@.len(),
            vl == vertical@.len(),
            grid_ok(horizontal@, vertical@, nrow as int, ncol as int),
            signed_amount != i32::MIN,
            route_edges_ok(horizontal@, signed_amount as int),
            route_edges_ok(vertical@, signed_amount as int),
            search_inv(horizontal@, vertical@, nrow as int, nc, signed_amount as int, (dist@, next_step@, heap@), row * pcn, -1),
        decreases prn - row,
    {
        let mut col: usize = 0;
        while col < pcn
            invariant
                row < prn,
                col <= pcn,
                prn == nrow - 1,
                pcn == ncol - 1,
                ncol >= 2,
                nrow >= 2,
                n == prn * pcn,
                nc == ncol,
                hl == horizontal@.len(),
                vl == vertical@.len(),
                grid_ok(horizontal@, vertical@, nrow as int, ncol as int),
                signed_amount != i32::MIN,
                route_edges_ok(horizontal@, signed_amount as int),
                route_edges_ok(vertical@, signed_amount as int),
                search_inv(horizontal@, vertical@, nrow as int, nc, signed_amount as int, (dist@, next_step@, heap@), row * pcn + col, -1),
            decreases pcn - col,
        {
            let ghost st0 = (dist@, next_step@, heap@);
            proof {
                lemma_inv_basics(horizontal@, vertical@, nrow as int, nc, signed_amount as int, st0, row * pcn + col, -1);
            }
            seed_boundary(
                horizontal,
                vertical,
                nrow,
                ncol,
                signed_amount,
                row,
                col,
                &mut dist,
                &mut next_step,
                &mut heap,
            );
            proof {
                lemma_seeded_inv(horizontal@, vertical@, nrow as int, nc, signed_amount as int, st0, row as int, col as int);
            }
            col = col + 1;
        }
        assert(row * pcn + pcn == (row + 1) * pcn) by (nonlinear_arith);
        row = row + 1;
    }
    while heap.len() > 0
        invariant
            prn == nrow - 1,
            pcn == ncol - 1,
            ncol >= 2,
            nrow >= 2,
            n == prn * pcn,
            nc == ncol,
            hl == horizontal@.len(),
            vl == vertical@.len(),
            grid_ok(horizontal@, vertical@, nrow as int, ncol as int),
            signed_amount != i32::MIN,
            route_edges_ok(horizontal@, signed_amount as int),
            route_edges_ok(vertical@, signed_amount as int),
            search_inv(horizontal@, vertical@, nrow as int, nc, signed_amount as int, (dist@, next_step@, heap@), n, -1),
        decreases heap@.len() + dist_sum(dist@, n),
    {
        proof {
            lemma_inv_basics(horizontal@, vertical@, nrow as int, nc, signed_amount as int, (dist@, next_step@, heap@), n, -1);
            lemma_dist_sum_nonneg(dist@, n);
        }
        let ghost before = heap@.len() + dist_sum(dist@, n);
        let at = min_entry(&heap);
        let ghost h0 = heap@;
        proof {
            lemma_pop_inv(horizontal@, vertical@, nrow as int, nc, signed_amount as int, (dist@, next_step@, heap@), at as int);
        }
        let (cost, node) = heap.swap_remove(at);
        let ghost popped = (dist@, next_step@, heap@);
        let ghost after_pop = heap@.len() + dist_sum(dist@, n);
        proof {
            assert(h0[at as int].0 >= 0 && (h0[at as int].1 as int) < n);
            assert forall|q: int| 0 <= q < heap@.len() implies (#[trigger] heap@[q]).0 >= 0 && (
            heap@[q].1 as int) < n by {
                if q == at {
                    assert(heap@[q] == h0[h0.len() - 1]);
                } else {
                    assert(heap@[q] == h0[q]);
                }
            }
        }
        if cost <= dist[node] {
            expand_route_node(
                horizontal,
                vertical,
                nrow,
                ncol,
                signed_amount,
                node,
                cost,
                &mut dist,
                &mut next_step,
                &mut heap,
            );
            proof {
                lemma_expanded_inv(horizontal@, vertical@, nrow as int, nc, signed_amount as int, popped, node as int, cost as int);
            }
        }
        proof {
            lemma_dist_sum_nonneg(dist@, n);
            assert(heap@.len() + dist_sum(dist@, n) <= after_pop);
        }
    }
    proof {
        lemma_inv_basics(horizontal@, vertical@, nrow as int, nc, signed_amount as int, (dist@, next_step@, heap@), n, -1);
        lemma_search_done(horizontal@, vertical@, nrow as int, nc, signed_amount as int, (dist@, next_step@, heap@));
    }
    next_step
}

/// The route search state after offering `target` the distance `c` with
/// first step `d`: taken when it fits `i64` and beats the known distance.
pub open spec fn relaxed(
    st: (Seq<i64>, Seq<u8>, Seq<(i64, usize)>),
    target: int,
    c: int,
    d: u8,
) -> (Seq<i64>, Seq<u8>, Seq<(i64, usize)>) {
    if c <= i64::MAX && c < st.0[target] {
        (st.0.update(target, c as i64), st.1.update(target, d), st.2.push((c as i64, target as usize)))
    } else {
        st
    }
}

/// The route search state after relaxing `target`, reached at `cost`,
/// across its edge in direction `d` (when present) for a residue `amount`.
pub open spec fn relaxed_across(
    h: Seq<Option<EdgeDatum>>,
    v: Seq<Option<EdgeDatum>>,
    ncol: int,
    amount: int,
    st: (Seq<i64>, Seq<u8>, Seq<(i64, usize)>),
    target: int,
    cost: int,
    d: u8,
) -> (Seq<i64>, Seq<u8>, Seq<(i64, usize)>) {
    match route_edge(h, v, ncol, target, d) {
        Some(e) => relaxed(st, target, cost + step_cost_spec(e, d, amount), d),
        None => st,
    }
}

/// The route search state after seeding plaquette `(row, col)` from each
/// boundary edge it has, in the order top, bottom, left, right.
pub open spec fn seeded(
    h: Seq<Option<EdgeDatum>>,
    v: Seq<Option<EdgeDatum>>,
    nrow: int,
    ncol: int,
    amount: int,
    row: int,
    col: int,
    st: (Seq<i64>, Seq<u8>, Seq<(i64, usize)>),
) -> (Seq<i64>, Seq<u8>, Seq<(i64, usize)>) {
    let node = p_index(row, col, ncol);
    let s1 = if row == 0 { relaxed_across(h, v, ncol, amount, st, node, 0, ROUTE_UP) } else { st };
    let s2 = if row + 1 == nrow - 1 { relaxed_across(h, v, ncol, amount, s1, node, 0, ROUTE_DOWN) } else { s1 };
    let s3 = if col == 0 { relaxed_across(h, v, ncol, amount, s2, node, 0, ROUTE_LEFT) } else { s2 };
    if col + 1 == ncol - 1 { relaxed_across(h, v, ncol, amount, s3, node, 0, ROUTE_RIGHT) } else { s3 }
}

/// The route search state after relaxing the neighbours of plaquette `node`,
/// reached at `cost`: the one above, below, left and right, each across the
/// edge it shares with `node`.
pub open spec fn expanded(
    h: Seq<Option<EdgeDatum>>,
    v: Seq<Option<EdgeDatum>>,
    nrow: int,
    ncol: int,
    amount: int,
    node: int,
    cost: int,
    st: (Seq<i64>, Seq<u8>, Seq<(i64, usize)>),
) -> (Seq<i64>, Seq<u8>, Seq<(i64, usize)>) {
    let row = node / (ncol - 1);
    let col = node % (ncol - 1);
    let s1 = if row > 0 {
        relaxed_across(h, v, ncol, amount, st, p_index(row - 1, col, ncol), cost, ROUTE_DOWN)
    } else {
        st
    };
    let s2 = if row + 1 < nrow - 1 {
        relaxed_across(h, v, ncol, amount, s1, p_index(row + 1, col, ncol), cost, ROUTE_UP)
    } else {
        s1
    };
    let s3 = if col > 0 {
        relaxed_across(h, v, ncol, amount, s2, p_index(row, col - 1, ncol), cost, ROUTE_RIGHT)
    } else {
        s2
    };
    if col + 1 < ncol - 1 {
        relaxed_across(h, v, ncol, amount, s3, p_index(row, col + 1, ncol), cost, ROUTE_LEFT)
    } else {
        s3
    }
}

/// Starts the routes of plaquette `(row, col)` at the boundary edges it has.
fn seed_boundary(
    horizontal: &[Option<EdgeDatum>],
    vertical: &[Option<EdgeDatum>],
    nrow: usize,
    ncol: usize,
    signed_amount: i32,
    row: usize,
    col: usize,
    dist: &mut Vec<i64>,
    next_step: &mut Vec<u8>,
    heap: &mut Vec<(i64, usize)>,
)
    requires
        nrow >= 2,
        ncol >= 2,
        row < nrow - 1,
        col < ncol - 1,
        grid_ok(horizontal@, vertical@, nrow as int, ncol as int),
        signed_amount != i32::MIN,
        route_edges_ok(horizontal@, signed_amount as int),
        route_edges_ok(vertical@, signed_amount as int),
        search_ok(
            horizontal@,
            vertical@,
            ncol as int,
            (nrow - 1) * (ncol - 1),
            old(dist)@,
            old(next_step)@,
            old(heap)@,
        ),
    ensures
        search_ok(
            horizontal@,
            vertical@,
            ncol as int,
            (nrow - 1) * (ncol - 1),
            final(dist)@,
            final(next_step)@,
            final(heap)@,
        ),
        (final(dist)@, final(next_step)@, final(heap)@) == seeded(
            horizontal@,
            vertical@,
            nrow as int,
            ncol as int,
            signed_amount as int,
            row as int,
            col as int,
            (old(dist)@, old(next_step)@, old(heap)@),
        ),
{
    let prn = nrow - 1;
    let pcn = ncol - 1;
    let hl = horizontal.len();
    let vl = vertical.len();
    assert(prn * pcn + pcn == nrow * pcn) by (nonlinear_arith)
        requires
            prn + 1 == nrow,
    ;
    let plaquette_count = prn * pcn;
    proof {
        lemma_plaquette_coords(row as int, col as int, prn as int, pcn as int);
        lemma_index_bounds(0, col as int, nrow as int, pcn as int);
        lemma_index_bounds(nrow - 1, col as int, nrow as int, pcn as int);
        lemma_index_bounds(row as int, 0, prn as int, ncol as int);
        lemma_index_bounds(row as int, ncol - 1, prn as int, ncol as int);
        assert((row + 1) * pcn == row * pcn + pcn) by (nonlinear_arith);
    }
    let node = plaquette_index(row, col, ncol);
    if row == 0 {
        let slot = horizontal[horizontal_index(0, col, ncol)];
        relax_across(horizontal, vertical, ncol, plaquette_count, node, 0, slot, ROUTE_UP, signed_amount, dist, next_step, heap);
    }
    if row + 1 == prn {
        let slot = horizontal[horizontal_index(nrow - 1, col, ncol)];
        relax_across(horizontal, vertical, ncol, plaquette_count, node, 0, slot, ROUTE_DOWN, signed_amount, dist, next_step, heap);
    }
    if col == 0 {
        let slot = vertical[vertical_index(row, 0, ncol)];
        relax_across(horizontal, vertical, ncol, plaquette_count, node, 0, slot, ROUTE_LEFT, signed_amount, dist, next_step, heap);
    }
    if col + 1 == pcn {
        let slot = vertical[vertical_index(row, ncol - 1, ncol)];
        relax_across(horizontal, vertical, ncol, plaquette_count, node, 0, slot, ROUTE_RIGHT, signed_amount, dist, next_step, heap);
    }
}

/// Relaxes the four neighbours of plaquette `node`, reached at `cost`.
fn expand_route_node(
    horizontal: &[Option<EdgeDatum>],
    vertical: &[Option<EdgeDatum>],
    nrow: usize,
    ncol: usize,
    signed_amount: i32,
    node: usize,
    cost: i64,
    dist: &mut Vec<i64>,
    next_step: &mut Vec<u8>,
    heap: &mut Vec<(i64, usize)>,
)
    requires
        nrow >= 2,
        ncol >= 2,
        grid_ok(horizontal@, vertical@, nrow as int, ncol as int),
        signed_amount != i32::MIN,
        route_edges_ok(horizontal@, signed_amount as int),
        route_edges_ok(vertical@, signed_amount as int),
        search_ok(
            horizontal@,
            vertical@,
            ncol as int,
            (nrow - 1) * (ncol - 1),
            old(dist)@,
            old(next_step)@,
            old(heap)@,
        ),
        (node as int) < (nrow - 1) * (ncol - 1),
        cost >= 0,
    ensures
        search_ok(
            horizontal@,
            vertical@,
            ncol as int,
            (nrow - 1) * (ncol - 1),
            final(dist)@,
            final(next_step)@,
            final(heap)@,
        ),
        final(heap)@.len() + dist_sum(final(dist)@, (nrow - 1) * (ncol - 1)) <= old(heap)@.len()
            + dist_sum(old(dist)@, (nrow - 1) * (ncol - 1)),
        (final(dist)@, final(next_step)@, final(heap)@) == expanded(
            horizontal@,
            vertical@,
            nrow as int,
            ncol as int,
            signed_amount as int,
            node as int,
            cost as int,
            (old(dist)@, old(next_step)@, old(heap)@),
        ),
{
    let prn = nrow - 1;
    let pcn = ncol - 1;
    let hl = horizontal.len();
    let vl = vertical.len();
    assert(prn * pcn + pcn == nrow * pcn) by (nonlinear_arith)
        requires
            prn + 1 == nrow,
    ;
    let plaquette_count = prn * pcn;
        let row = node / pcn;
        proof {
            vstd::arithmetic::div_mod::lemma_fundamental_div_mod(node as int, pcn as int);
            assert(row * pcn == pcn * row) by (nonlinear_arith);
        }
        let col = node - row * pcn;
        proof {
            assert(row < prn) by (nonlinear_arith)
                requires
                    node == pcn * row + node % pcn,
                    node < prn * pcn,
                    0 <= node % pcn,
                    pcn >= 1,
            ;
            assert(row * pcn == pcn * row) by (nonlinear_arith);
            assert(col == node % pcn);
            lemma_plaquette_coords(row as int, col as int, prn as int, pcn as int);
            lemma_index_bounds(row as int, col as int, nrow as int, pcn as int);
            lemma_index_bounds(row + 1, col as int, nrow as int, pcn as int);
            lemma_index_bounds(row as int, col as int, prn as int, ncol as int);
            lemma_index_bounds(row as int, col + 1, prn as int, ncol as int);
        }
        if row > 0 {
            proof {
                lemma_plaquette_coords(row - 1, col as int, prn as int, pcn as int);
                assert((row - 1) * pcn + pcn == row * pcn) by (nonlinear_arith);
            }
            let target = plaquette_index(row - 1, col, ncol);
            let slot = horizontal[horizontal_index(row, col, ncol)];
            relax_across(horizontal, vertical, ncol, plaquette_count, target, cost, slot, ROUTE_DOWN, signed_amount, dist, next_step, heap);
        }
        if row + 1 < prn {
            proof {
                lemma_plaquette_coords(row + 1, col as int, prn as int, pcn as int);
                assert((row + 1) * pcn == row * pcn + pcn) by (nonlinear_arith);
            }
            let target = plaquette_index(row + 1, col, ncol);
            let slot = horizontal[horizontal_index(row + 1, col, ncol)];
            relax_across(horizontal, vertical, ncol, plaquette_count, target, cost, slot, ROUTE_UP, signed_amount, dist, next_step, heap);
        }
        if col > 0 {
            proof {
                lemma_plaquette_coords(row as int, col - 1, prn as int, pcn as int);
            }
            let target = plaquette_index(row, col - 1, ncol);
            let slot = vertical[vertical_index(row, col, ncol)];
            relax_across(horizontal, vertical, ncol, plaquette_count, target, cost, slot, ROUTE_RIGHT, signed_amount, dist, next_step, heap);
        }
        if col + 1 < pcn {
            proof {
                lemma_plaquette_coords(row as int, col + 1, prn as int, pcn as int);
            }
            let target = plaquette_index(row, col + 1, ncol);
            let slot = vertical[vertical_index(row, col + 1, ncol)];
            relax_across(horizontal, vertical, ncol, plaquette_count, target, cost, slot, ROUTE_LEFT, signed_amount, dist, next_step, heap);
        }
    
}

/// Relaxes `target` across the edge in `slot`, when it is present, with the
/// cost of the step added to `cost`.
fn relax_across(
    horizontal: &[Option<EdgeDatum>],
    vertical: &[Option<EdgeDatum>],
    ncol: usize,
    n: usize,
    target: usize,
    cost: i64,
    slot: Option<EdgeDatum>,
    dir: u8,
    signed_amount: i32,
    dist: &mut Vec<i64>,
    next_step: &mut Vec<u8>,
    heap: &mut Vec<(i64, usize)>,
)
    requires
        search_ok(horizontal@, vertical@, ncol as int, n as int, old(dist)@, old(next_step)@, old(heap)@),
        target < n,
        cost >= 0,
        dir <= ROUTE_LEFT,
        slot == route_edge(horizontal@, vertical@, ncol as int, target as int, dir),
        signed_amount != i32::MIN,
        slot matches Some(e) ==> route_cost_ok(e, signed_amount as int) && route_cost_ok(
            e,
            -(signed_amount as int),
        ) && route_cost_ok(e, 0),
    ensures
        search_ok(horizontal@, vertical@, ncol as int, n as int, final(dist)@, final(next_step)@, final(heap)@),
        final(heap)@.len() + dist_sum(final(dist)@, n as int) <= old(heap)@.len() + dist_sum(
            old(dist)@,
            n as int,
        ),
        (final(dist)@, final(next_step)@, final(heap)@) == relaxed_across(
            horizontal@,
            vertical@,
            ncol as int,
            signed_amount as int,
            (old(dist)@, old(next_step)@, old(heap)@),
            target as int,
            cost as int,
            dir,
        ),
{
    if let Some(edge) = slot {
        let step = route_step_increment(edge, dir, signed_amount);
        relax_checked(target, cost, step, dir, dist, next_step, heap);
    }
}

/// Relaxes `target` with `cost + step_cost`, skipping a sum that leaves
/// `i64`. Never raises the number of queued entries plus the sum of the
/// distances.
fn relax_checked(
    target: usize,
    cost: i64,
    step_cost: i64,
    first_step: u8,
    dist: &mut Vec<i64>,
    next_step: &mut Vec<u8>,
    heap: &mut Vec<(i64, usize)>,
)
    requires
        target < old(dist)@.len(),
        target < old(next_step)@.len(),
        cost >= 0,
        step_cost >= 0,
    ensures
        final(dist)@.len() == old(dist)@.len(),
        final(heap)@.len() + dist_sum(final(dist)@, old(dist)@.len() as int) <= old(heap)@.len()
            + dist_sum(old(dist)@, old(dist)@.len() as int),
        (final(dist)@ == old(dist)@ && final(next_step)@ == old(next_step)@ && final(heap)@ == old(
            heap,
        )@) || (exists|c: i64|
            c >= 0 && final(dist)@ == old(dist)@.update(target as int, c) && final(next_step)@ == old(
                next_step,
            )@.update(target as int, first_step) && final(heap)@ == old(heap)@.push((c, target))),
        (final(dist)@, final(next_step)@, final(heap)@) == relaxed(
            (old(dist)@, old(next_step)@, old(heap)@),
            target as int,
            cost + step_cost,
            first_step,
        ),
{
    match cost.checked_add(step_cost) {
        Some(c) => {
            if c < dist[target] {
                proof {
                    lemma_dist_sum_update(dist@, target as int, c, dist@.len() as int);
                }
                relax_route(target, c, first_step, dist, next_step, heap);
            }
        },
        None => {},
    }
}

/// The edge family and slot that a step in direction `d` from plaquette `p`
/// crosses.
pub open spec fn route_slot(p: int, ncol: int, d: u8) -> (bool, int) {
    if d == ROUTE_UP {
        (true, p)
    } else if d == ROUTE_RIGHT {
        (false, left_of(p, ncol) + 1)
    } else if d == ROUTE_DOWN {
        (true, p + ncol - 1)
    } else {
        (false, left_of(p, ncol))
    }
}

/// The edge arrays after a step in direction `d` from plaquette `p` carrying `amount`.
pub open spec fn route_step_spec(
    h: Seq<Option<EdgeDatum>>,
    v: Seq<Option<EdgeDatum>>,
    ncol: int,
    p: int,
    d: u8,
    amount: int,
) -> (Seq<Option<EdgeDatum>>, Seq<Option<EdgeDatum>>) {
    let slot = route_slot(p, ncol, d);
    let delta = step_delta(d, amount);
    if d > ROUTE_LEFT {
        (h, v)
    } else if slot.0 {
        (h.update(slot.1, crate::edges::corrected(h[slot.1], delta)), v)
    } else {
        (h, v.update(slot.1, crate::edges::corrected(v[slot.1], delta)))
    }
}

/// Pushes `signed_amount` across the edge that the step `step` from plaquette
/// `(row, col)` crosses, and returns the plaquette reached, or `None` when the
/// step leaves the grid (or is no step).
pub fn apply_route_step(
    horizontal: &mut Vec<Option<EdgeDatum>>,
    vertical: &mut Vec<Option<EdgeDatum>>,
    nrow: usize,
    ncol: usize,
    row: usize,
    col: usize,
    step: u8,
    signed_amount: i32,
) -> (r: Option<(usize, usize)>)
    requires
        nrow >= 2,
        ncol >= 2,
        row < nrow - 1,
        col < ncol - 1,
        grid_ok(old(horizontal)@, old(vertical)@, nrow as int, ncol as int),
        signed_amount != i32::MIN,
        step <= ROUTE_LEFT ==> correction_ok(
            route_edge(
                old(horizontal)@,
                old(vertical)@,
                ncol as int,
                p_index(row as int, col as int, ncol as int),
                step,
            ),
            step_delta(step, signed_amount as int),
        ),
    ensures
        slot_in_range(
            old(horizontal)@,
            old(vertical)@,
            ncol as int,
            p_index(row as int, col as int, ncol as int),
            step,
        ),
        (final(horizontal)@, final(vertical)@) == route_step_spec(
            old(horizontal)@,
            old(vertical)@,
            ncol as int,
            p_index(row as int, col as int, ncol as int),
            step,
            signed_amount as int,
        ),
        r == (if step == ROUTE_UP && row > 0 {
            Some(((row - 1) as usize, col))
        } else if step == ROUTE_RIGHT && col + 1 < ncol - 1 {
            Some((row, (col + 1) as usize))
        } else if step == ROUTE_DOWN && row + 1 < nrow - 1 {
            Some(((row + 1) as usize, col))
        } else if step == ROUTE_LEFT && col > 0 {
            Some((row, (col - 1) as usize))
        } else {
            None
        }),
{
    let prn = nrow - 1;
    let pcn = ncol - 1;
    let hl = horizontal.len();
    let vl = vertical.len();
    proof {
        lemma_plaquette_coords(row as int, col as int, prn as int, pcn as int);
        lemma_index_bounds(row as int, col as int, nrow as int, pcn as int);
        lemma_index_bounds(row + 1, col as int, nrow as int, pcn as int);
        lemma_index_bounds(row as int, col as int, prn as int, ncol as int);
        lemma_index_bounds(row as int, col + 1, prn as int, ncol as int);
        assert((row + 1) * pcn == row * pcn + pcn) by (nonlinear_arith);
    }
    if step == ROUTE_UP {
        let idx = horizontal_index(row, col, ncol);
        let mut e = horizontal[idx];
        apply_edge_correction(&mut e, -signed_amount);
        horizontal.set(idx, e);
        if row > 0 {
            Some((row - 1, col))
        } else {
            None
        }
    } else if step == ROUTE_RIGHT {
        let idx = vertical_index(row, col + 1, ncol);
        let mut e = vertical[idx];
        apply_edge_correction(&mut e, -signed_amount);
        vertical.set(idx, e);
        if col + 1 < ncol - 1 {
            Some((row, col + 1))
        } else {
            None
        }
    } else if step == ROUTE_DOWN {
        let idx = horizontal_index(row + 1, col, ncol);
        let mut e = horizontal[idx];
        apply_edge_correction(&mut e, signed_amount);
        horizontal.set(idx, e);
        if row + 1 < nrow - 1 {
            Some((row + 1, col))
        } else {
            None
        }
    } else if step == ROUTE_LEFT {
        let idx = vertical_index(row, col, ncol);
        let mut e = vertical[idx];
        apply_edge_correction(&mut e, signed_amount);
        vertical.set(idx, e);
        if col > 0 {
            Some((row, col - 1))
        } else {
            None
        }
    } else {
        None
    }
}

/// Number of cell rows of a grid whose horizontal edge array has `hl` slots.
pub open spec fn rows_of(hl: int, ncol: int) -> int {
    hl / (ncol - 1)
}

/// Residue of plaquette `(row, col)`: top plus right minus bottom minus left
/// label difference. `None` when one of its edges is absent, or the residue
/// leaves the range of `i32`.
pub fn plaquette_curl(
    horizontal: &[Option<EdgeDatum>],
    vertical: &[Option<EdgeDatum>],
    ncol: usize,
    row: usize,
    col: usize,
) -> (r: Option<i32>)
    requires
        ncol >= 2,
        grid_ok(horizontal@, vertical@, rows_of(horizontal@.len() as int, ncol as int), ncol as int),
        rows_of(horizontal@.len() as int, ncol as int) >= 2,
        row + 1 < rows_of(horizontal@.len() as int, ncol as int),
        col < ncol - 1,
    ensures
        ({
            let p = p_index(row as int, col as int, ncol as int);
            let present = horizontal@[p] is Some && vertical@[left_of(p, ncol as int) + 1] is Some
                && horizontal@[p + ncol - 1] is Some && vertical@[left_of(p, ncol as int)] is Some;
            r == if present && in_i32(residue_at(horizontal@, vertical@, ncol as int, p)) {
                Some(residue_at(horizontal@, vertical@, ncol as int, p) as i32)
            } else {
                None
            }
        }),
{
    let pcn = ncol - 1;
    let nrow = horizontal.len() / pcn;
    let prn = nrow - 1;
    let hl = horizontal.len();
    let vl = vertical.len();
    proof {
        lemma_plaquette_coords(row as int, col as int, prn as int, pcn as int);
        lemma_index_bounds(row as int, col as int, nrow as int, pcn as int);
        lemma_index_bounds(row + 1, col as int, nrow as int, pcn as int);
        lemma_index_bounds(row as int, col as int, prn as int, ncol as int);
        lemma_index_bounds(row as int, col + 1, prn as int, ncol as int);
        assert((row + 1) * pcn == row * pcn + pcn) by (nonlinear_arith);
    }
    let top = horizontal[horizontal_index(row, col, ncol)];
    let right = vertical[vertical_index(row, col + 1, ncol)];
    let bottom = horizontal[horizontal_index(row + 1, col, ncol)];
    let left = vertical[vertical_index(row, col, ncol)];
    match (top, right, bottom, left) {
        (Some(t), Some(r), Some(b), Some(l)) => {
            let total: i64 = t.desired_delta as i64 + r.desired_delta as i64 - b.desired_delta as i64
                - l.desired_delta as i64;
            if total < i32::MIN as i64 || total > i32::MAX as i64 {
                None
            } else {
                Some(total as i32)
            }
        },
        _ => None,
    }
}

/// Whether a correction of `delta` keeps the edge's numbers within `i32`.
pub fn correction_in_range(edge: Option<EdgeDatum>, delta: i32) -> (r: bool)
    ensures
        r == correction_ok(edge, delta as int),
{
    match edge {
        Some(e) => {
            assert(-0x4000_0000_0000_0000 <= (e.flow_sign as int) * (delta as int)
                <= 0x4000_0000_0000_0000) by (nonlinear_arith)
                requires
                    -0x8000_0000 <= e.flow_sign <= 0x7fff_ffff,
                    -0x8000_0000 <= delta <= 0x7fff_ffff,
            ;
            let d = e.desired_delta as i64 + delta as i64;
            let f = (e.flow_sign as i64) * (delta as i64);
            let g = e.flow as i64 + f;
            i32::MIN as i64 <= d && d <= i32::MAX as i64 && i32::MIN as i64 <= f && f
                <= i32::MAX as i64 && i32::MIN as i64 <= g && g <= i32::MAX as i64
        },
        None => true,
    }
}

/// Whether every present edge can be priced for a change of `amount` either way.
pub fn route_edges_in_range(s: &[Option<EdgeDatum>], amount: i32) -> (r: bool)
    requires
        amount != i32::MIN,
    ensures
        r == route_edges_ok(s@, amount as int),
{
    let mut i: usize = 0;
    while i < s.len()
        invariant
            i <= s@.len(),
            amount != i32::MIN,
            forall|j: int|
                0 <= j < i ==> (#[trigger] s@[j] matches Some(e) ==> route_cost_ok(e, amount as int)
                    && route_cost_ok(e, -(amount as int)) && route_cost_ok(e, 0)),
        decreases s.len() - i,
    {
        if let Some(e) = s[i] {
            if !route_cost_in_range(e, amount) || !route_cost_in_range(e, -amount)
                || !route_cost_in_range(e, 0) {
                return false;
            }
        }
        i = i + 1;
    }
    true
}

/// Whether the cost model can price a change of `d` on the edge.
pub fn route_cost_in_range(e: EdgeDatum, d: i32) -> (r: bool)
    ensures
        r == route_cost_ok(e, d as int),
{
    assert(-0x4000_0000_0000_0000 <= (e.flow_sign as int) * (d as int) <= 0x4000_0000_0000_0000)
        by (nonlinear_arith)
        requires
            -0x8000_0000 <= e.flow_sign <= 0x7fff_ffff,
            -0x8000_0000 <= d <= 0x7fff_ffff,
    ;
    let f = (e.flow_sign as i64) * (d as i64);
    let g = e.flow as i64 + f;
    if f < i32::MIN as i64 || f > i32::MAX as i64 || g < i32::MIN as i64 || g > i32::MAX as i64 {
        return false;
    }
    dz_exact(e, e.flow as i64) <= DZ_LIMIT as i128 && dz_exact(e, g) <= DZ_LIMIT as i128
}

/// The edges after visiting the first `k` plaquettes in row-major order and
/// pushing each one's residue, when it is neither zero nor `i32::MIN`, along
/// `pos_routes` (positive residue) or `neg_routes` (negative residue); see
/// `route_walk`.
pub open spec fn route_pass(
    h: Seq<Option<EdgeDatum>>,
    v: Seq<Option<EdgeDatum>>,
    nrow: int,
    ncol: int,
    pos_routes: Seq<u8>,
    neg_routes: Seq<u8>,
    k: int,
) -> (Seq<Option<EdgeDatum>>, Seq<Option<EdgeDatum>>)
    decreases k,
{
    if k <= 0 {
        (h, v)
    } else {
        let (h1, v1) = route_pass(h, v, nrow, ncol, pos_routes, neg_routes, k - 1);
        let p = plaquette_at(ncol, k - 1);
        match curl_spec(h1, v1, ncol, p) {
            Some(c) => if c != 0 && c != i32::MIN {
                let routes = if c > 0 {
                    pos_routes
                } else {
                    neg_routes
                };
                route_walk(h1, v1, nrow, ncol, routes, p, c, routes.len() as int + 1)
            } else {
                (h1, v1)
            },
            None => (h1, v1),
        }
    }
}

/// `routes` is a route table of the grid: one valid entry per plaquette.
pub open spec fn route_table_ok(h: Seq<Option<EdgeDatum>>, v: Seq<Option<EdgeDatum>>, nrow: int, ncol: int, routes: Seq<u8>) -> bool {
    &&& routes.len() == (nrow - 1) * (ncol - 1)
    &&& forall|p: int| 0 <= p < routes.len() ==> route_entry_ok(h, v, ncol, p, #[trigger] routes[p])
}

/// Routes every non-zero residue to the grid boundary: the route tables for
/// a positive and a negative residue are computed once, then each plaquette's
/// current residue is pushed along its route, one edge correction per step,
/// until the route leaves the grid or ends. Does nothing on a grid without
/// plaquettes or whose edges cannot be priced; stops a route where an edge's
/// numbers would leave `i32`.
pub fn route_residue_to_boundary(
    horizontal: &mut Vec<Option<EdgeDatum>>,
    vertical: &mut Vec<Option<EdgeDatum>>,
    nrow: usize,
    ncol: usize,
)
    requires
        grid_ok(old(horizontal)@, old(vertical)@, nrow as int, ncol as int),
    ensures
        !(nrow >= 2 && ncol >= 2 && route_edges_ok(old(horizontal)@, 1) && route_edges_ok(old(vertical)@, 1))
            ==> final(horizontal)@ == old(horizontal)@ && final(vertical)@ == old(vertical)@,
        nrow >= 2 && ncol >= 2 && route_edges_ok(old(horizontal)@, 1) && route_edges_ok(old(vertical)@, 1)
            ==> exists|pos_routes: Seq<u8>, neg_routes: Seq<u8>|
            route_table_ok(old(horizontal)@, old(vertical)@, nrow as int, ncol as int, pos_routes)
                && route_table_ok(old(horizontal)@, old(vertical)@, nrow as int, ncol as int, neg_routes)
                && routes_cheapest(old(horizontal)@, old(vertical)@, nrow as int, ncol as int, 1, pos_routes)
                && routes_cheapest(old(horizontal)@, old(vertical)@, nrow as int, ncol as int, -1, neg_routes)
                && (final(horizontal)@, final(vertical)@) == #[trigger] route_pass(
                old(horizontal)@,
                old(vertical)@,
                nrow as int,
                ncol as int,
                pos_routes,
                neg_routes,
                pass_count(nrow as int, ncol as int),
            ),
        same_slots(old(horizontal)@, final(horizontal)@),
        same_slots(old(vertical)@, final(vertical)@),
        residue_magnitude(final(horizontal)@, final(vertical)@, nrow as int, ncol as int)
            <= residue_magnitude(old(horizontal)@, old(vertical)@, nrow as int, ncol as int),
{
    if nrow < 2 || ncol < 2 {
        return;
    }
    if !route_edges_in_range(horizontal, 1) || !route_edges_in_range(vertical, 1) {
        return;
    }
    let routes_pos = compute_boundary_routes_for_amount(horizontal, vertical, nrow, ncol, 1);
    let routes_neg = compute_boundary_routes_for_amount(horizontal, vertical, nrow, ncol, -1);
    let prn = nrow - 1;
    let pcn = ncol - 1;
    let hl = horizontal.len();
    assert(prn * pcn + pcn == nrow * pcn) by (nonlinear_arith)
        requires
            prn + 1 == nrow,
    ;
    proof {
        assert(hl as int / (pcn as int) == nrow as int) by {
            vstd::arithmetic::div_mod::lemma_fundamental_div_mod_converse(
                hl as int,
                pcn as int,
                nrow as int,
                0,
            );
            assert(hl as int == pcn * nrow) by (nonlinear_arith)
                requires
                    hl == nrow * pcn,
            ;
        }
    }
    let ghost h0 = horizontal@;
    let ghost v0 = vertical@;
    let mut row: usize = 0;
    while row < prn
        invariant
            row <= prn,
            prn == nrow - 1,
            pcn == ncol - 1,
            nrow >= 2,
            ncol >= 2,
            hl == nrow * pcn,
            hl as int / (pcn as int) == nrow as int,
            routes_pos@.len() == prn * pcn,
            routes_neg@.len() == prn * pcn,
            grid_ok(horizontal@, vertical@, nrow as int, ncol as int),
            same_slots(h0, horizontal@),
            same_slots(v0, vertical@),
            h0 == old(horizontal)@,
            v0 == old(vertical)@,
            forall|p: int| 0 <= p < routes_pos@.len() ==> route_entry_ok(h0, v0, ncol as int, p, #[trigger] routes_pos@[p]),
            forall|p: int| 0 <= p < routes_neg@.len() ==> route_entry_ok(h0, v0, ncol as int, p, #[trigger] routes_neg@[p]),
            residue_magnitude(horizontal@, vertical@, nrow as int, ncol as int) <= residue_magnitude(
                h0,
                v0,
                nrow as int,
                ncol as int,
            ),
            (horizontal@, vertical@) == route_pass(h0, v0, nrow as int, ncol as int, routes_pos@, routes_neg@, row * pcn),
        decreases prn - row,
    {
        let mut col: usize = 0;
        while col < pcn
            invariant
                row < prn,
                col <= pcn,
                prn == nrow - 1,
                pcn == ncol - 1,
                nrow >= 2,
                ncol >= 2,
                hl == nrow * pcn,
                hl as int / (pcn as int) == nrow as int,
                routes_pos@.len() == prn * pcn,
                routes_neg@.len() == prn * pcn,
                grid_ok(horizontal@, vertical@, nrow as int, ncol as int),
                same_slots(h0, horizontal@),
                same_slots(v0, vertical@),
                h0 == old(horizontal)@,
                v0 == old(vertical)@,
                forall|p: int| 0 <= p < routes_pos@.len() ==> route_entry_ok(h0, v0, ncol as int, p, #[trigger] routes_pos@[p]),
                forall|p: int| 0 <= p < routes_neg@.len() ==> route_entry_ok(h0, v0, ncol as int, p, #[trigger] routes_neg@[p]),
                residue_magnitude(horizontal@, vertical@, nrow as int, ncol as int) <= residue_magnitude(
                    h0,
                    v0,
                    nrow as int,
                    ncol as int,
                ),
                (horizontal@, vertical@) == route_pass(
                    h0,
                    v0,
                    nrow as int,
                    ncol as int,
                    routes_pos@,
                    routes_neg@,
                    row * pcn + col,
                ),
            decreases pcn - col,
        {
            proof {
                lemma_plaquette_at(row as int, col as int, pcn as int);
            }
            match plaquette_curl(horizontal, vertical, ncol, row, col) {
                Some(curl) => {
                    if curl != 0 && curl != i32::MIN {
                        let routes = if curl > 0 {
                            &routes_pos
                        } else {
                            &routes_neg
                        };
                        let ghost hb = horizontal@;
                        let ghost vb = vertical@;
                        proof {
                            lemma_routes_kept(h0, v0, hb, vb, nrow as int, ncol as int, routes@);
                        }
                        walk_route(horizontal, vertical, nrow, ncol, routes, row, col, curl);
                        proof {
                            lemma_slots_trans(h0, hb, horizontal@);
                            lemma_slots_trans(v0, vb, vertical@);
                        }
                    }
                },
                None => {},
            }
            col = col + 1;
        }
        proof {
            assert((row + 1) * pcn == row * pcn + pcn) by (nonlinear_arith);
        }
        row = row + 1;
    }
    proof {
        assert(pass_count(nrow as int, ncol as int) == prn * pcn);
        assert(route_table_ok(h0, v0, nrow as int, ncol as int, routes_pos@));
        assert(route_table_ok(h0, v0, nrow as int, ncol as int, routes_neg@));
        assert(routes_cheapest(h0, v0, nrow as int, ncol as int, 1, routes_pos@));
        assert(routes_cheapest(h0, v0, nrow as int, ncol as int, -1, routes_neg@));
        assert((horizontal@, vertical@) == route_pass(
            h0,
            v0,
            nrow as int,
            ncol as int,
            routes_pos@,
            routes_neg@,
            pass_count(nrow as int, ncol as int),
        ));
    }
}

/// The slot that a step crosses exists in its family.
pub open spec fn slot_in_range(
    h: Seq<Option<EdgeDatum>>,
    v: Seq<Option<EdgeDatum>>,
    ncol: int,
    p: int,
    d: u8,
) -> bool {
    d <= ROUTE_LEFT ==> {
        let slot = route_slot(p, ncol, d);
        &&& slot.0 ==> 0 <= slot.1 < h.len()
        &&& !slot.0 ==> 0 <= slot.1 < v.len()
    }
}

proof fn lemma_route_step_slots(
    h: Seq<Option<EdgeDatum>>,
    v: Seq<Option<EdgeDatum>>,
    ncol: int,
    p: int,
    d: u8,
    amount: int,
)
    requires
        slot_in_range(h, v, ncol, p, d),
    ensures
        same_slots(h, route_step_spec(h, v, ncol, p, d, amount).0),
        same_slots(v, route_step_spec(h, v, ncol, p, d, amount).1),
{
    let r = route_step_spec(h, v, ncol, p, d, amount);
    assert forall|i: int| 0 <= i < h.len() implies (#[trigger] h[i] is Some <==> r.0[i] is Some) by {
        if d <= ROUTE_LEFT && route_slot(p, ncol, d).0 && i == route_slot(p, ncol, d).1 {
        }
    }
    assert forall|i: int| 0 <= i < v.len() implies (#[trigger] v[i] is Some <==> r.1[i] is Some) by {
        if d <= ROUTE_LEFT && !route_slot(p, ncol, d).0 && i == route_slot(p, ncol, d).1 {
        }
    }
}

/// The edge that a step in direction `step` from plaquette `(row, col)` crosses.
fn route_slot_value(
    horizontal: &Vec<Option<EdgeDatum>>,
    vertical: &Vec<Option<EdgeDatum>>,
    nrow: usize,
    ncol: usize,
    row: usize,
    col: usize,
    step: u8,
) -> (r: Option<EdgeDatum>)
    requires
        nrow >= 2,
        ncol >= 2,
        row < nrow - 1,
        col < ncol - 1,
        step <= ROUTE_LEFT,
        grid_ok(horizontal@, vertical@, nrow as int, ncol as int),
    ensures
        r == route_edge(
            horizontal@,
            vertical@,
            ncol as int,
            p_index(row as int, col as int, ncol as int),
            step,
        ),
{
    let prn = nrow - 1;
    let pcn = ncol - 1;
    let hl = horizontal.len();
    let vl = vertical.len();
    proof {
        lemma_plaquette_coords(row as int, col as int, prn as int, pcn as int);
        lemma_index_bounds(row as int, col as int, nrow as int, pcn as int);
        lemma_index_bounds(row + 1, col as int, nrow as int, pcn as int);
        lemma_index_bounds(row as int, col as int, prn as int, ncol as int);
        lemma_index_bounds(row as int, col + 1, prn as int, ncol as int);
        assert((row + 1) * pcn == row * pcn + pcn) by (nonlinear_arith);
    }
    if step == ROUTE_UP {
        horizontal[horizontal_index(row, col, ncol)]
    } else if step == ROUTE_RIGHT {
        vertical[vertical_index(row, col + 1, ncol)]
    } else if step == ROUTE_DOWN {
        horizontal[horizontal_index(row + 1, col, ncol)]
    } else {
        vertical[vertical_index(row, col, ncol)]
    }
}

/// The edges after pushing `amount` along the route table `routes` from
/// plaquette `pos`, for at most `fuel` steps: each step corrects the edge it
/// crosses; the walk ends where the table has no step, where the edge's
/// numbers would leave `i32`, or once a step leaves the grid.
pub open spec fn route_walk(
    h: Seq<Option<EdgeDatum>>,
    v: Seq<Option<EdgeDatum>>,
    nrow: int,
    ncol: int,
    routes: Seq<u8>,
    pos: (int, int),
    amount: int,
    fuel: int,
) -> (Seq<Option<EdgeDatum>>, Seq<Option<EdgeDatum>>)
    decreases fuel,
{
    if fuel <= 0 {
        (h, v)
    } else {
        let d = routes[pidx(ncol, pos)];
        if !step_carries(h, v, ncol, pos, d, amount) {
            (h, v)
        } else {
            let (h2, v2) = step_applied(h, v, ncol, pos, d, amount);
            match step_target(nrow, ncol, pos, d) {
                Some(n) => route_walk(h2, v2, nrow, ncol, routes, n, amount, fuel - 1),
                None => (h2, v2),
            }
        }
    }
}

/// Pushes `curl` along the route table from plaquette `(row, col)`, for at
/// most one step per plaquette and one more, until the route ends, leaves the
/// grid, or an edge's numbers would leave `i32`. When `curl` is the residue of
/// `(row, col)`, it is carried whole to where the walk stops, or out of the
/// grid, so the total residue magnitude does not grow.
fn walk_route(
    horizontal: &mut Vec<Option<EdgeDatum>>,
    vertical: &mut Vec<Option<EdgeDatum>>,
    nrow: usize,
    ncol: usize,
    routes: &Vec<u8>,
    row: usize,
    col: usize,
    curl: i32,
)
    requires
        nrow >= 2,
        ncol >= 2,
        row < nrow - 1,
        col < ncol - 1,
        curl != i32::MIN,
        routes@.len() == (nrow - 1) * (ncol - 1),
        grid_ok(old(horizontal)@, old(vertical)@, nrow as int, ncol as int),
        forall|p: int|
            0 <= p < routes@.len() ==> route_entry_ok(
                old(horizontal)@,
                old(vertical)@,
                ncol as int,
                p,
                #[trigger] routes@[p],
            ),
        curl == residue_at(old(horizontal)@, old(vertical)@, ncol as int, p_index(row as int, col as int, ncol as int)),
    ensures
        (final(horizontal)@, final(vertical)@) == route_walk(
            old(horizontal)@,
            old(vertical)@,
            nrow as int,
            ncol as int,
            routes@,
            (row as int, col as int),
            curl as int,
            routes@.len() + 1 as int,
        ),
        grid_ok(final(horizontal)@, final(vertical)@, nrow as int, ncol as int),
        same_slots(old(horizontal)@, final(horizontal)@),
        same_slots(old(vertical)@, final(vertical)@),
        residue_magnitude(final(horizontal)@, final(vertical)@, nrow as int, ncol as int)
            <= residue_magnitude(old(horizontal)@, old(vertical)@, nrow as int, ncol as int),
{
    let prn = nrow - 1;
    let pcn = ncol - 1;
    let hl = horizontal.len();
    let ghost h0 = horizontal@;
    let ghost v0 = vertical@;
    let ghost s = p_index(row as int, col as int, ncol as int);
    let ghost fuel: int = routes@.len() as int + 1;
    let ghost walk = route_walk(h0, v0, nrow as int, ncol as int, routes@, (row as int, col as int), curl as int, fuel);
    let ghost mut inside = true;
    let mut current_row = row;
    let mut current_col = col;
    let mut guard: usize = 0;
    let mut going = true;
    assert(prn * pcn + pcn == nrow * pcn) by (nonlinear_arith)
        requires
            prn + 1 == nrow,
    ;
    proof {
        lemma_plaquette_coords(row as int, col as int, prn as int, pcn as int);
    }
    while going && guard <= routes.len()
        invariant
            prn == nrow - 1,
            pcn == ncol - 1,
            nrow >= 2,
            ncol >= 2,
            hl == nrow * pcn,
            routes@.len() == prn * pcn,
            routes@.len() < hl,
            current_row < prn,
            current_col < pcn,
            curl != i32::MIN,
            h0 == old(horizontal)@,
            v0 == old(vertical)@,
            grid_ok(horizontal@, vertical@, nrow as int, ncol as int),
            same_slots(h0, horizontal@),
            same_slots(v0, vertical@),
            forall|p: int| 0 <= p < routes@.len() ==> route_entry_ok(h0, v0, ncol as int, p, #[trigger] routes@[p]),
            0 <= s < plaquette_count(nrow as int, ncol as int),
            curl == residue_at(h0, v0, ncol as int, s),
            !inside ==> !going,
            fuel == routes@.len() + 1,
            guard <= fuel,
            going ==> walk == route_walk(
                horizontal@,
                vertical@,
                nrow as int,
                ncol as int,
                routes@,
                (current_row as int, current_col as int),
                curl as int,
                fuel - guard,
            ),
            !going ==> walk == (horizontal@, vertical@),
            forall|q: int|
                0 <= q < plaquette_count(nrow as int, ncol as int) ==> #[trigger] residue_at(
                    horizontal@,
                    vertical@,
                    ncol as int,
                    q,
                ) == residue_at(h0, v0, ncol as int, q) - carried(q == s, curl as int) + carried(
                    inside && q == p_index(current_row as int, current_col as int, ncol as int),
                    curl as int,
                ),
        decreases routes@.len() + 1 - guard, (if going { 1int } else { 0 }),
    {
        guard = guard + 1;
        proof {
            lemma_plaquette_coords(current_row as int, current_col as int, prn as int, pcn as int);
        }
        let route_ix = plaquette_index(current_row, current_col, ncol);
        let step = routes[route_ix];
        proof {
            assert(p_index(current_row as int, current_col as int, ncol as int) == pidx(
                ncol as int,
                (current_row as int, current_col as int),
            ));
        }
        if step > ROUTE_LEFT {
            going = false;
        } else {
            let slot = route_slot_value(horizontal, vertical, nrow, ncol, current_row, current_col, step);
            let delta = if step == ROUTE_UP || step == ROUTE_RIGHT {
                -curl
            } else {
                curl
            };
            proof {
                lemma_route_step_is_step(
                    horizontal@,
                    vertical@,
                    nrow as int,
                    ncol as int,
                    current_row as int,
                    current_col as int,
                    step,
                    curl as int,
                );
            }
            if !correction_in_range(slot, delta) {
                going = false;
            } else {
                let ghost hb = horizontal@;
                let ghost vb = vertical@;
                let ghost p = p_index(current_row as int, current_col as int, ncol as int);
                let ghost pos = (current_row as int, current_col as int);
                proof {
                    lemma_route_step_is_step(hb, vb, nrow as int, ncol as int, pos.0, pos.1, step, curl as int);
                    lemma_route_step_is_step(h0, v0, nrow as int, ncol as int, pos.0, pos.1, step, curl as int);
                    assert(route_entry_ok(h0, v0, ncol as int, p, routes@[p]));
                    lemma_slot_kept(h0, v0, hb, vb, nrow as int, ncol as int, pos, step);
                    assert(step_carries(hb, vb, ncol as int, pos, step, curl as int));
                }
                let next = apply_route_step(
                    horizontal,
                    vertical,
                    nrow,
                    ncol,
                    current_row,
                    current_col,
                    step,
                    curl,
                );
                proof {
                    assert forall|q: int| 0 <= q < plaquette_count(nrow as int, ncol as int) implies #[trigger] residue_at(
                        horizontal@,
                        vertical@,
                        ncol as int,
                        q,
                    ) == residue_at(hb, vb, ncol as int, q) - carried(q == p, curl as int) + carried(
                        step_target(nrow as int, ncol as int, pos, step) matches Some(n) && q == pidx(
                            ncol as int,
                            n,
                        ),
                        curl as int,
                    ) by {
                        lemma_step_moves_residue(hb, vb, nrow as int, ncol as int, pos, step, curl as int, q);
                    }
                }
                match next {
                    Some((next_row, next_col)) => {
                        current_row = next_row;
                        current_col = next_col;
                    },
                    None => {
                        going = false;
                        proof {
                            inside = false;
                        }
                    },
                }
                proof {
                    lemma_route_step_slots(hb, vb, ncol as int, p, step, curl as int);
                    lemma_slots_trans(h0, hb, horizontal@);
                    lemma_slots_trans(v0, vb, vertical@);
                }
            }
        }
    }
    proof {
        let t = if inside {
            p_index(current_row as int, current_col as int, ncol as int)
        } else {
            -1
        };
        lemma_whole_move_never_grows(
            h0,
            v0,
            horizontal@,
            vertical@,
            nrow as int,
            ncol as int,
            s,
            t,
            curl as int,
        );
    }
}

/// Route-table entries stay valid while the edge slots stay the same.
proof fn lemma_routes_kept(
    h0: Seq<Option<EdgeDatum>>,
    v0: Seq<Option<EdgeDatum>>,
    h: Seq<Option<EdgeDatum>>,
    v: Seq<Option<EdgeDatum>>,
    nrow: int,
    ncol: int,
    routes: Seq<u8>,
)
    requires
        nrow >= 2,
        ncol >= 2,
        grid_ok(h0, v0, nrow, ncol),
        same_slots(h0, h),
        same_slots(v0, v),
        routes.len() == (nrow - 1) * (ncol - 1),
        forall|p: int| 0 <= p < routes.len() ==> route_entry_ok(h0, v0, ncol, p, #[trigger] routes[p]),
    ensures
        forall|p: int| 0 <= p < routes.len() ==> route_entry_ok(h, v, ncol, p, #[trigger] routes[p]),
{
    let pcn = ncol - 1;
    let prn = nrow - 1;
    assert forall|p: int| 0 <= p < routes.len() implies route_entry_ok(h, v, ncol, p, #[trigger] routes[p]) by {
        let d = routes[p];
        if d != ROUTE_NONE {
            let r = p / pcn;
            let c = p % pcn;
            vstd::arithmetic::div_mod::lemma_fundamental_div_mod(p, pcn);
            assert(p == r * pcn + c) by (nonlinear_arith)
                requires
                    p == pcn * (p / pcn) + p % pcn,
                    r == p / pcn,
                    c == p % pcn,
            ;
            assert(0 <= r < prn) by {
                if r >= prn {
                    assert(r * pcn >= prn * pcn) by (nonlinear_arith)
                        requires
                            r >= prn,
                            pcn >= 1,
                    ;
                }
                if r < 0 {
                    assert(r * pcn <= -pcn) by (nonlinear_arith)
                        requires
                            r < 0,
                            pcn >= 1,
                    ;
                }
            }
            lemma_route_step_is_step(h0, v0, nrow, ncol, r, c, d, 0);
            lemma_route_step_is_step(h, v, nrow, ncol, r, c, d, 0);
            lemma_slot_kept(h0, v0, h, v, nrow, ncol, (r, c), d);
        }
    }
}

/// The edge that a step crosses is present while the edge slots stay the same.
proof fn lemma_slot_kept(
    h0: Seq<Option<EdgeDatum>>,
    v0: Seq<Option<EdgeDatum>>,
    h: Seq<Option<EdgeDatum>>,
    v: Seq<Option<EdgeDatum>>,
    nrow: int,
    ncol: int,
    pos: (int, int),
    d: u8,
)
    requires
        grid_ok(h0, v0, nrow, ncol),
        same_slots(h0, h),
        same_slots(v0, v),
        nrow >= 2,
        ncol >= 2,
        0 <= pos.0 < nrow - 1,
        0 <= pos.1 < ncol - 1,
        d <= ROUTE_LEFT,
        step_edge(h0, v0, ncol, pos, d) is Some,
    ensures
        step_edge(h, v, ncol, pos, d) is Some,
{
    let pcn = ncol - 1;
    lemma_plaquette_coords(pos.0, pos.1, nrow - 1, pcn);
    assert((pos.0 + 1) * pcn == pos.0 * pcn + pcn) by (nonlinear_arith);
    let sl = step_slot(ncol, pos, d);
    if sl.0 {
        assert(h0[sl.1] is Some <==> h[sl.1] is Some);
    } else {
        assert(v0[sl.1] is Some <==> v[sl.1] is Some);
    }
}

} // verus!
