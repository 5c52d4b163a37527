//! Initial flows that carry the plaquette residues along a shortest-path tree
//! of the dual grid, with unit step weights taken from the cost model.
use vstd::prelude::*;
use crate::edges::{
    apply_edge_correction, correction_ok, corrected, defo_edge_cost, edge_cost_at, edge_dz_ok,
    horizontal_index, vertical_index, h_index, v_index, EdgeDatum,
};
use crate::flow_schedule::dual_node_count;
use crate::residual::{grid_ok, h_len, v_len};
use crate::tree_cycle::dual_nodes;
use crate::incr_cost::dz_exact;
use crate::edges::DZ_LIMIT;

verus! {

/// The cost model can price flows of -1, 0 and 1 on the edge.
pub open spec fn mst_weight_ok(e: EdgeDatum) -> bool {
    &&& edge_dz_ok(e, 0)
    &&& edge_dz_ok(e, 1)
    &&& edge_dz_ok(e, -1)
}

pub open spec fn edges_weight_ok(s: Seq<Option<EdgeDatum>>) -> bool {
    forall|i: int| 0 <= i < s.len() ==> (#[trigger] s[i] matches Some(e) ==> mst_weight_ok(e))
}

/// The smaller cost increase of a unit flow either way, clamped to `1..=1000`.
pub open spec fn mst_weight_spec(e: EdgeDatum) -> int {
    let base = edge_cost_at(e, 0);
    let pos = edge_cost_at(e, 1) - base;
    let neg = edge_cost_at(e, -1) - base;
    let m = if pos <= neg { pos } else { neg };
    if m < 1 {
        1
    } else if m > 1000 {
        1000
    } else {
        m
    }
}

/// `x` clamped to `1..=1000`.
pub open spec fn clamp_weight(x: int) -> int {
    if x < 1 {
        1
    } else if x > 1000 {
        1000
    } else {
        x
    }
}

/// The step weight is the cheaper of the two unit increments of the edge
/// (a unit more flow, a unit less flow), clamped to `1..=1000`: it is one of
/// the two clamped increments and exceeds neither.
pub proof fn law_mst_weight_is_cheaper_increment(e: EdgeDatum)
    ensures
        mst_weight_spec(e) <= clamp_weight(edge_cost_at(e, 1) - edge_cost_at(e, 0)),
        mst_weight_spec(e) <= clamp_weight(edge_cost_at(e, -1) - edge_cost_at(e, 0)),
        mst_weight_spec(e) == clamp_weight(edge_cost_at(e, 1) - edge_cost_at(e, 0))
            || mst_weight_spec(e) == clamp_weight(edge_cost_at(e, -1) - edge_cost_at(e, 0)),
        1 <= mst_weight_spec(e) <= 1000,
{
}

/// Step weight of an edge for the shortest-path tree.
pub fn mst_scalar_weight(edge: EdgeDatum) -> (r: i32)
    requires
        mst_weight_ok(edge),
    ensures
        r == mst_weight_spec(edge),
        1 <= r <= 1000,
        r <= clamp_weight(edge_cost_at(edge, 1) - edge_cost_at(edge, 0)),
        r <= clamp_weight(edge_cost_at(edge, -1) - edge_cost_at(edge, 0)),
        r == clamp_weight(edge_cost_at(edge, 1) - edge_cost_at(edge, 0))
            || r == clamp_weight(edge_cost_at(edge, -1) - edge_cost_at(edge, 0)),
{
    proof {
        law_mst_weight_is_cheaper_increment(edge);
    }
    let base = defo_edge_cost(edge.cost, edge.offset, edge.dzmax, edge.laycost, edge.nshortcycle, 0);
    let up = defo_edge_cost(edge.cost, edge.offset, edge.dzmax, edge.laycost, edge.nshortcycle, 1);
    let down = defo_edge_cost(
        edge.cost,
        edge.offset,
        edge.dzmax,
        edge.laycost,
        edge.nshortcycle,
        -1,
    );
    proof {
        crate::edges::lemma_cost_range(edge, 0);
        crate::edges::lemma_cost_range(edge, 1);
        crate::edges::lemma_cost_range(edge, -1);
    }
    let pos = up - base;
    let neg = down - base;
    let m = if pos <= neg {
        pos
    } else {
        neg
    };
    let clamped = if m < 1 {
        1
    } else if m > 1000 {
        1000
    } else {
        m
    };
    clamped as i32
}

/// A row flow that can be taken off the edge without leaving `i32`.
pub open spec fn row_flow_ok(e: Option<EdgeDatum>, f: i32) -> bool {
    &&& f != i32::MIN
    &&& correction_ok(e, -(f as int))
}

/// Applies the row flows to the vertical edges (with the opposite sign) and
/// the column flows to the horizontal edges, slot by slot.
pub fn apply_mst_flows(
    horizontal: &mut Vec<Option<EdgeDatum>>,
    vertical: &mut Vec<Option<EdgeDatum>>,
    nrow: usize,
    ncol: usize,
    rowflow: &[i32],
    colflow: &[i32],
)
    requires
        grid_ok(old(horizontal)@, old(vertical)@, nrow as int, ncol as int),
        rowflow@.len() >= old(vertical)@.len(),
        colflow@.len() >= old(horizontal)@.len(),
        forall|i: int|
            0 <= i < old(vertical)@.len() ==> row_flow_ok(#[trigger] old(vertical)@[i], rowflow@[i]),
        forall|i: int|
            0 <= i < old(horizontal)@.len() ==> correction_ok(
                #[trigger] old(horizontal)@[i],
                colflow@[i] as int,
            ),
    ensures
        final(horizontal)@.len() == old(horizontal)@.len(),
        final(vertical)@.len() == old(vertical)@.len(),
        forall|i: int|
            0 <= i < old(vertical)@.len() ==> #[trigger] final(vertical)@[i] == corrected(
                old(vertical)@[i],
                -(rowflow@[i] as int),
            ),
        forall|i: int|
            0 <= i < old(horizontal)@.len() ==> #[trigger] final(horizontal)@[i] == corrected(
                old(horizontal)@[i],
                colflow@[i] as int,
            ),
{
    let prn = if nrow >= 1 { nrow - 1 } else { 0 };
    let pcn = if ncol >= 1 { ncol - 1 } else { 0 };
    let vl = vertical.len();
    let hl = horizontal.len();
    let mut row: usize = 0;
    assert(row * ncol == 0) by (nonlinear_arith)
        requires
            row == 0,
    ;
    while row < prn
        invariant
            row <= prn,
            prn == (if nrow >= 1 { nrow - 1 } else { 0 }),
            vl == old(vertical)@.len(),
            vl == prn * ncol,
            vertical@.len() == vl,
            rowflow@.len() >= vl,
            forall|i: int|
                0 <= i < vl ==> row_flow_ok(#[trigger] old(vertical)@[i], rowflow@[i]),
            forall|i: int|
                0 <= i < row * ncol ==> #[trigger] vertical@[i] == corrected(
                    old(vertical)@[i],
                    -(rowflow@[i] as int),
                ),
            forall|i: int| row * ncol <= i < vl ==> #[trigger] vertical@[i] == old(vertical)@[i],
        decreases prn - row,
    {
        proof {
            lemma_row_block(row as int, prn as int, ncol as int);
        }
        let mut col: usize = 0;
        while col < ncol
            invariant
                row < prn,
                col <= ncol,
                vl == old(vertical)@.len(),
                vl == prn * ncol,
                (row + 1) * ncol <= vl,
                row * ncol + ncol == (row + 1) * ncol,
                vertical@.len() == vl,
                rowflow@.len() >= vl,
                forall|i: int|
                    0 <= i < vl ==> row_flow_ok(#[trigger] old(vertical)@[i], rowflow@[i]),
                forall|i: int|
                    0 <= i < row * ncol + col ==> #[trigger] vertical@[i] == corrected(
                        old(vertical)@[i],
                        -(rowflow@[i] as int),
                    ),
                forall|i: int| row * ncol + col <= i < vl ==> #[trigger] vertical@[i] == old(vertical)@[i],
            decreases ncol - col,
        {
            let idx = vertical_index(row, col, ncol);
            let flow = rowflow[row * ncol + col];
            let mut e = vertical[idx];
            apply_edge_correction(&mut e, -flow);
            vertical.set(idx, e);
            col = col + 1;
        }
        row = row + 1;
    }
    row = 0;
    assert(row * pcn == 0) by (nonlinear_arith)
        requires
            row == 0,
    ;
    while row < nrow
        invariant
            row <= nrow,
            pcn == (if ncol >= 1 { ncol - 1 } else { 0 }),
            hl == old(horizontal)@.len(),
            hl == nrow * pcn,
            horizontal@.len() == hl,
            colflow@.len() >= hl,
            forall|i: int|
                0 <= i < hl ==> correction_ok(#[trigger] old(horizontal)@[i], colflow@[i] as int),
            forall|i: int|
                0 <= i < row * pcn ==> #[trigger] horizontal@[i] == corrected(
                    old(horizontal)@[i],
                    colflow@[i] as int,
                ),
            forall|i: int| row * pcn <= i < hl ==> #[trigger] horizontal@[i] == old(horizontal)@[i],
        decreases nrow - row,
    {
        proof {
            lemma_row_block(row as int, nrow as int, pcn as int);
        }
        let mut col: usize = 0;
        while col < pcn
            invariant
                row < nrow,
                col <= pcn,
                pcn == (if ncol >= 1 { ncol - 1 } else { 0 }),
                hl == old(horizontal)@.len(),
                hl == nrow * pcn,
                (row + 1) * pcn <= hl,
                row * pcn + pcn == (row + 1) * pcn,
                horizontal@.len() == hl,
                colflow@.len() >= hl,
                forall|i: int|
                    0 <= i < hl ==> correction_ok(#[trigger] old(horizontal)@[i], colflow@[i] as int),
                forall|i: int|
                    0 <= i < row * pcn + col ==> #[trigger] horizontal@[i] == corrected(
                        old(horizontal)@[i],
                        colflow@[i] as int,
                    ),
                forall|i: int| row * pcn + col <= i < hl ==> #[trigger] horizontal@[i] == old(horizontal)@[i],
            decreases pcn - col,
        {
            let idx = horizontal_index(row, col, ncol);
            let flow = colflow[row * pcn + col];
            let mut e = horizontal[idx];
            apply_edge_correction(&mut e, flow);
            horizontal.set(idx, e);
            col = col + 1;
        }
        row = row + 1;
    }
    proof {
        lemma_row_block(prn as int, prn as int, ncol as int);
    }
}

proof fn lemma_row_block(row: int, rows: int, width: int)
    requires
        0 <= row <= rows,
        0 <= width,
    ensures
        row < rows ==> (row + 1) * width <= rows * width,
        row * width + width == (row + 1) * width,
        0 <= row * width <= rows * width,
{
    assert(row * width + width == (row + 1) * width) by (nonlinear_arith);
    assert(0 <= row * width <= rows * width) by (nonlinear_arith)
        requires
            0 <= row <= rows,
            0 <= width,
    ;
    if row < rows {
        assert((row + 1) * width <= rows * width) by (nonlinear_arith)
            requires
                row + 1 <= rows,
                0 <= width,
        ;
    }
}

/// One flow update along a dual edge: the row flow of a vertical edge or the
/// column flow of a horizontal edge, scaled by `coeff`.
#[derive(Clone, Copy, Debug, PartialEq, Eq)]
pub struct Action {
    pub is_row: bool,
    pub index: usize,
    pub coeff: i32,
}

/// The tree link of a node: its parent and the flow update that crosses to it.
#[derive(Clone, Copy, Debug, PartialEq, Eq)]
pub struct Prev {
    pub from: usize,
    pub action: Action,
}

/// Adds `coeff * signed_amount` to the flow that `action` names.
pub fn apply_action(rowflow: &mut Vec<i32>, colflow: &mut Vec<i32>, action: Action, signed_amount: i32)
    requires
        action.coeff == 1 || action.coeff == -1,
        action.is_row ==> action.index < old(rowflow)@.len() && i32::MIN <= old(rowflow)@[action.index as int] + action.coeff * signed_amount <= i32::MAX,
        !action.is_row ==> action.index < old(colflow)@.len() && i32::MIN <= old(colflow)@[action.index as int] + action.coeff * signed_amount <= i32::MAX,
    ensures
        action.is_row ==> final(rowflow)@ == old(rowflow)@.update(
            action.index as int,
            (old(rowflow)@[action.index as int] + action.coeff * signed_amount) as i32,
        ) && final(colflow)@ == old(colflow)@,
        !action.is_row ==> final(colflow)@ == old(colflow)@.update(
            action.index as int,
            (old(colflow)@[action.index as int] + action.coeff * signed_amount) as i32,
        ) && final(rowflow)@ == old(rowflow)@,
{
    if action.is_row {
        assert(action.coeff * signed_amount == if action.coeff == 1 {
            signed_amount as int
        } else {
            -(signed_amount as int)
        }) by (nonlinear_arith)
            requires
                action.coeff == 1 || action.coeff == -1,
        ;
        let value = if action.coeff == 1 {
            rowflow[action.index] + signed_amount
        } else {
            rowflow[action.index] - signed_amount
        };
        rowflow.set(action.index, value);
    } else {
        assert(action.coeff * signed_amount == if action.coeff == 1 {
            signed_amount as int
        } else {
            -(signed_amount as int)
        }) by (nonlinear_arith)
            requires
                action.coeff == 1 || action.coeff == -1,
        ;
        let value = if action.coeff == 1 {
            colflow[action.index] + signed_amount
        } else {
            colflow[action.index] - signed_amount
        };
        colflow.set(action.index, value);
    }
}

/// A neighbour entry `(to, weight, action)`: `to` is a dual node, and the
/// action names a present edge whose step weight is `weight`.
pub open spec fn neighbor_ok(
    h: Seq<Option<EdgeDatum>>,
    v: Seq<Option<EdgeDatum>>,
    node_count: int,
    e: (usize, i64, Action),
) -> bool {
    &&& (e.0 as int) < node_count
    &&& (e.2.coeff == 1 || e.2.coeff == -1)
    &&& if e.2.is_row {
        &&& (e.2.index as int) < v.len()
        &&& v[e.2.index as int] matches Some(d) && e.1 == mst_weight_spec(d)
    } else {
        &&& (e.2.index as int) < h.len()
        &&& h[e.2.index as int] matches Some(d) && e.1 == mst_weight_spec(d)
    }
}

pub open spec fn neighbors_ok(
    h: Seq<Option<EdgeDatum>>,
    v: Seq<Option<EdgeDatum>>,
    node_count: int,
    s: Seq<(usize, i64, Action)>,
) -> bool {
    forall|i: int| 0 <= i < s.len() ==> neighbor_ok(h, v, node_count, #[trigger] s[i])
}

/// The neighbour entry for `to` across the edge that `a` updates: one entry
/// with the edge's step weight when the edge is present, none otherwise.
pub open spec fn offer_neighbor(
    h: Seq<Option<EdgeDatum>>,
    v: Seq<Option<EdgeDatum>>,
    to: usize,
    a: Action,
) -> Seq<(usize, i64, Action)> {
    let slot = if a.is_row {
        v[a.index as int]
    } else {
        h[a.index as int]
    };
    match slot {
        Some(d) => seq![(to, mst_weight_spec(d) as i64, a)],
        None => Seq::empty(),
    }
}

fn push_neighbor(
    out: &mut Vec<(usize, i64, Action)>,
    horizontal: &[Option<EdgeDatum>],
    vertical: &[Option<EdgeDatum>],
    node_count: usize,
    to: usize,
    action: Action,
)
    requires
        neighbors_ok(horizontal@, vertical@, node_count as int, old(out)@),
        to < node_count,
        action.coeff == 1 || action.coeff == -1,
        action.is_row ==> action.index < vertical@.len(),
        !action.is_row ==> action.index < horizontal@.len(),
        edges_weight_ok(horizontal@),
        edges_weight_ok(vertical@),
    ensures
        neighbors_ok(horizontal@, vertical@, node_count as int, final(out)@),
        final(out)@.len() <= old(out)@.len() + 1,
        final(out)@ == old(out)@ + offer_neighbor(horizontal@, vertical@, to, action),
{
    let slot = if action.is_row {
        vertical[action.index]
    } else {
        horizontal[action.index]
    };
    if let Some(edge) = slot {
        let w = mst_scalar_weight(edge);
        out.push((to, w as i64, action));
        proof {
            assert(out@ =~= old(out)@ + offer_neighbor(horizontal@, vertical@, to, action));
        }
    } else {
        proof {
            assert(out@ =~= old(out)@ + offer_neighbor(horizontal@, vertical@, to, action));
        }
    }
}

proof fn lemma_cell_index(row: int, col: int, rows: int, cols: int)
    requires
        0 <= row < rows,
        0 <= col < cols,
    ensures
        0 <= row * cols + col < rows * cols,
        row * cols <= row * cols + col,
{
    assert(0 <= row * cols) by (nonlinear_arith)
        requires
            0 <= row,
            0 <= cols,
    ;
    assert((row + 1) * cols <= rows * cols) by (nonlinear_arith)
        requires
            row + 1 <= rows,
            0 <= cols,
    ;
    assert((row + 1) * cols == row * cols + cols) by (nonlinear_arith);
}

/// The ground node's neighbour entries from the first `k` plaquette rows:
/// the left and right boundary plaquettes of each row.
pub open spec fn ground_row_offers(h: Seq<Option<EdgeDatum>>, v: Seq<Option<EdgeDatum>>, ncol: int, k: int) -> Seq<
    (usize, i64, Action),
>
    decreases k,
{
    if k <= 0 {
        Seq::empty()
    } else {
        let row = k - 1;
        let pcn = ncol - 1;
        ground_row_offers(h, v, ncol, k - 1) + offer_neighbor(
            h,
            v,
            (row * pcn) as usize,
            Action { is_row: true, index: v_index(row, 0, ncol) as usize, coeff: 1i32 },
        ) + offer_neighbor(
            h,
            v,
            (row * pcn + (pcn - 1)) as usize,
            Action { is_row: true, index: v_index(row, ncol - 1, ncol) as usize, coeff: -1i32 },
        )
    }
}

/// The ground node's neighbour entries from the first `k` plaquette columns:
/// the top and bottom boundary plaquettes of each column.
pub open spec fn ground_col_offers(
    h: Seq<Option<EdgeDatum>>,
    v: Seq<Option<EdgeDatum>>,
    nrow: int,
    ncol: int,
    k: int,
) -> Seq<(usize, i64, Action)>
    decreases k,
{
    if k <= 0 {
        Seq::empty()
    } else {
        let col = k - 1;
        let pcn = ncol - 1;
        let prn = nrow - 1;
        ground_col_offers(h, v, nrow, ncol, k - 1) + offer_neighbor(
            h,
            v,
            col as usize,
            Action { is_row: false, index: h_index(0, col, ncol) as usize, coeff: 1i32 },
        ) + offer_neighbor(
            h,
            v,
            ((prn - 1) * pcn + col) as usize,
            Action { is_row: false, index: h_index(nrow - 1, col, ncol) as usize, coeff: -1i32 },
        )
    }
}

/// The neighbour entries of plaquette `node`, in the order left, right, up,
/// down; a side on the grid boundary leads to the ground node.
pub open spec fn plaquette_offers(
    h: Seq<Option<EdgeDatum>>,
    v: Seq<Option<EdgeDatum>>,
    nrow: int,
    ncol: int,
    node: int,
) -> Seq<(usize, i64, Action)> {
    let pcn = ncol - 1;
    let prn = nrow - 1;
    let ground = (prn * pcn) as usize;
    let row = node / pcn;
    let col = node % pcn;
    offer_neighbor(
        h,
        v,
        if col > 0 { (node - 1) as usize } else { ground },
        Action { is_row: true, index: v_index(row, col, ncol) as usize, coeff: -1i32 },
    ) + offer_neighbor(
        h,
        v,
        if col + 1 < pcn { (node + 1) as usize } else { ground },
        Action { is_row: true, index: v_index(row, col + 1, ncol) as usize, coeff: 1i32 },
    ) + offer_neighbor(
        h,
        v,
        if row > 0 { (node - pcn) as usize } else { ground },
        Action { is_row: false, index: h_index(row, col, ncol) as usize, coeff: -1i32 },
    ) + offer_neighbor(
        h,
        v,
        if row + 1 < prn { (node + pcn) as usize } else { ground },
        Action { is_row: false, index: h_index(row + 1, col, ncol) as usize, coeff: 1i32 },
    )
}

/// The dual neighbours of `node` as `visit_neighbors` lists them.
pub open spec fn dual_neighbors(
    h: Seq<Option<EdgeDatum>>,
    v: Seq<Option<EdgeDatum>>,
    nrow: int,
    ncol: int,
    node: int,
) -> Seq<(usize, i64, Action)> {
    if nrow < 2 || ncol < 2 {
        Seq::empty()
    } else if node == (nrow - 1) * (ncol - 1) {
        ground_row_offers(h, v, ncol, nrow - 1) + ground_col_offers(h, v, nrow, ncol, ncol - 1)
    } else {
        plaquette_offers(h, v, nrow, ncol, node)
    }
}

/// The dual neighbours of `node` across present edges, with step weights and
/// the flow update that crosses each edge toward the neighbour. The ground
/// node (the last one) borders every boundary plaquette.
#[verifier::rlimit(60)]
pub fn visit_neighbors(
    node: usize,
    horizontal: &[Option<EdgeDatum>],
    vertical: &[Option<EdgeDatum>],
    nrow: usize,
    ncol: usize,
) -> (r: Vec<(usize, i64, Action)>)
    requires
        (nrow >= 2 && ncol >= 2) || (nrow <= 1 && ncol <= 1),
        grid_ok(horizontal@, vertical@, nrow as int, ncol as int),
        (node as int) < dual_node_count(nrow as int, ncol as int),
        edges_weight_ok(horizontal@),
        edges_weight_ok(vertical@),
    ensures
        neighbors_ok(horizontal@, vertical@, dual_node_count(nrow as int, ncol as int), r@),
        r@ == dual_neighbors(horizontal@, vertical@, nrow as int, ncol as int, node as int),
{
    if nrow < 2 || ncol < 2 {
        return Vec::new();
    }
    let prn = nrow - 1;
    let pcn = ncol - 1;
    let ghost nc = dual_node_count(nrow as int, ncol as int);
    assert(prn * pcn <= nrow * pcn) by (nonlinear_arith)
        requires
            prn <= nrow,
    ;
    let hl = horizontal.len();
    let vl = vertical.len();
    assert(prn * pcn + pcn == nrow * pcn) by (nonlinear_arith)
        requires
            prn + 1 == nrow,
    ;
    let ground = prn * pcn;
    let node_count = ground + 1;
    assert(node_count == nc);
    let mut out: Vec<(usize, i64, Action)> = Vec::new();
    if node == ground {
        let mut row: usize = 0;
        while row < prn
            invariant
                nrow >= 2,
                ncol >= 2,
                row <= prn,
                prn == nrow - 1,
                pcn == ncol - 1,
                ground == prn * pcn,
                node_count == ground + 1,
                hl == horizontal@.len(),
                vl == vertical@.len(),
                grid_ok(horizontal@, vertical@, nrow as int, ncol as int),
                edges_weight_ok(horizontal@),
                edges_weight_ok(vertical@),
                neighbors_ok(horizontal@, vertical@, node_count as int, out@),
                out@ == ground_row_offers(horizontal@, vertical@, ncol as int, row as int),
            decreases prn - row,
        {
            proof {
                lemma_cell_index(row as int, 0, prn as int, pcn as int);
                lemma_cell_index(row as int, pcn - 1, prn as int, pcn as int);
                lemma_cell_index(row as int, 0, prn as int, ncol as int);
                lemma_cell_index(row as int, ncol - 1, prn as int, ncol as int);
            }
            push_neighbor(
                &mut out,
                horizontal,
                vertical,
                node_count,
                row * pcn,
                Action { is_row: true, index: vertical_index(row, 0, ncol), coeff: 1 },
            );
            push_neighbor(
                &mut out,
                horizontal,
                vertical,
                node_count,
                row * pcn + (pcn - 1),
                Action { is_row: true, index: vertical_index(row, ncol - 1, ncol), coeff: -1 },
            );
            row = row + 1;
        }
        let mut col: usize = 0;
        while col < pcn
            invariant
                nrow >= 2,
                ncol >= 2,
                col <= pcn,
                prn == nrow - 1,
                pcn == ncol - 1,
                ground == prn * pcn,
                node_count == ground + 1,
                hl == horizontal@.len(),
                vl == vertical@.len(),
                grid_ok(horizontal@, vertical@, nrow as int, ncol as int),
                edges_weight_ok(horizontal@),
                edges_weight_ok(vertical@),
                neighbors_ok(horizontal@, vertical@, node_count as int, out@),
                out@ == ground_row_offers(horizontal@, vertical@, ncol as int, prn as int) + ground_col_offers(
                    horizontal@,
                    vertical@,
                    nrow as int,
                    ncol as int,
                    col as int,
                ),
            decreases pcn - col,
        {
            proof {
                lemma_cell_index(0, col as int, prn as int, pcn as int);
                lemma_cell_index(prn - 1, col as int, prn as int, pcn as int);
                lemma_cell_index(0, col as int, nrow as int, pcn as int);
                lemma_cell_index(nrow - 1, col as int, nrow as int, pcn as int);
            }
            push_neighbor(
                &mut out,
                horizontal,
                vertical,
                node_count,
                col,
                Action { is_row: false, index: horizontal_index(0, col, ncol), coeff: 1 },
            );
            push_neighbor(
                &mut out,
                horizontal,
                vertical,
                node_count,
                (prn - 1) * pcn + col,
                Action { is_row: false, index: horizontal_index(nrow - 1, col, ncol), coeff: -1 },
            );
            proof {
                let a = ground_row_offers(horizontal@, vertical@, ncol as int, prn as int);
                let b = ground_col_offers(horizontal@, vertical@, nrow as int, ncol as int, col as int);
                assert(out@ =~= a + ground_col_offers(horizontal@, vertical@, nrow as int, ncol as int, col + 1));
            }
            col = col + 1;
        }
        return out;
    }
    let row = node / pcn;
    let col = node % pcn;
    proof {
        vstd::arithmetic::div_mod::lemma_fundamental_div_mod(node as int, pcn as int);
        assert(row < prn) by (nonlinear_arith)
            requires
                node == pcn * row + col,
                node < prn * pcn,
                0 <= col,
                pcn >= 1,
        ;
        lemma_cell_index(row as int, col as int, prn as int, pcn as int);
        lemma_cell_index(row as int, col as int, prn as int, ncol as int);
        lemma_cell_index(row as int, col + 1, prn as int, ncol as int);
        lemma_cell_index(row as int, 0, prn as int, ncol as int);
        lemma_cell_index(row as int, ncol - 1, prn as int, ncol as int);
        lemma_cell_index(row as int, col as int, nrow as int, pcn as int);
        lemma_cell_index(row + 1, col as int, nrow as int, pcn as int);
        lemma_cell_index(0, col as int, nrow as int, pcn as int);
        lemma_cell_index(nrow - 1, col as int, nrow as int, pcn as int);
        assert(node == row * pcn + col) by (nonlinear_arith)
            requires
                node == pcn * row + col,
        ;
    }
    if col > 0 {
        push_neighbor(
            &mut out,
            horizontal,
            vertical,
            node_count,
            node - 1,
            Action { is_row: true, index: vertical_index(row, col, ncol), coeff: -1 },
        );
    } else {
        push_neighbor(
            &mut out,
            horizontal,
            vertical,
            node_count,
            ground,
            Action { is_row: true, index: vertical_index(row, 0, ncol), coeff: -1 },
        );
    }
    if col + 1 < pcn {
        push_neighbor(
            &mut out,
            horizontal,
            vertical,
            node_count,
            node + 1,
            Action { is_row: true, index: vertical_index(row, col + 1, ncol), coeff: 1 },
        );
    } else {
        push_neighbor(
            &mut out,
            horizontal,
            vertical,
            node_count,
            ground,
            Action { is_row: true, index: vertical_index(row, ncol - 1, ncol), coeff: 1 },
        );
    }
    if row > 0 {
        proof {
            lemma_cell_index(row - 1, col as int, prn as int, pcn as int);
            assert((row - 1) * pcn + pcn == row * pcn) by (nonlinear_arith);
        }
        push_neighbor(
            &mut out,
            horizontal,
            vertical,
            node_count,
            node - pcn,
            Action { is_row: false, index: horizontal_index(row, col, ncol), coeff: -1 },
        );
    } else {
        push_neighbor(
            &mut out,
            horizontal,
            vertical,
            node_count,
            ground,
            Action { is_row: false, index: horizontal_index(0, col, ncol), coeff: -1 },
        );
    }
    if row + 1 < prn {
        proof {
            lemma_cell_index(row + 1, col as int, prn as int, pcn as int);
            assert((row + 1) * pcn == row * pcn + pcn) by (nonlinear_arith);
        }
        push_neighbor(
            &mut out,
            horizontal,
            vertical,
            node_count,
            node + pcn,
            Action { is_row: false, index: horizontal_index(row + 1, col, ncol), coeff: 1 },
        );
    } else {
        push_neighbor(
            &mut out,
            horizontal,
            vertical,
            node_count,
            ground,
            Action { is_row: false, index: horizontal_index(nrow - 1, col, ncol), coeff: 1 },
        );
    }
    proof {
        assert(node as int != ground as int);
        assert(out@ =~= plaquette_offers(horizontal@, vertical@, nrow as int, ncol as int, node as int));
    }
    out
}

/// Sum of the first `k` entries.
pub open spec fn prefix_sum(s: Seq<i32>, k: int) -> int
    decreases k,
{
    if k <= 0 {
        0
    } else {
        prefix_sum(s, k - 1) + s[k - 1]
    }
}

/// Sum of the first `k` distances.
pub open spec fn dist_sum(s: Seq<i64>, k: int) -> int
    decreases k,
{
    if k <= 0 {
        0
    } else {
        dist_sum(s, k - 1) + s[k - 1]
    }
}

pub proof fn lemma_dist_sum_update(s: Seq<i64>, i: int, x: i64, k: int)
    requires
        0 <= i < s.len(),
        0 <= k <= s.len(),
    ensures
        dist_sum(s.update(i, x), k) == dist_sum(s, k) + (if i < k { x - s[i] } else { 0 }),
    decreases k,
{
    if k > 0 {
        lemma_dist_sum_update(s, i, x, k - 1);
    }
}

pub proof fn lemma_dist_sum_nonneg(s: Seq<i64>, k: int)
    requires
        0 <= k <= s.len(),
        forall|j: int| 0 <= j < s.len() ==> #[trigger] s[j] >= 0,
    ensures
        dist_sum(s, k) >= 0,
    decreases k,
{
    if k > 0 {
        lemma_dist_sum_nonneg(s, k - 1);
    }
}

/// Sum of the first `k` counts.
pub open spec fn count_sum(s: Seq<usize>, k: int) -> int
    decreases k,
{
    if k <= 0 {
        0
    } else {
        count_sum(s, k - 1) + s[k - 1]
    }
}

proof fn lemma_count_sum_update(s: Seq<usize>, i: int, x: usize, k: int)
    requires
        0 <= i < s.len(),
        0 <= k <= s.len(),
    ensures
        count_sum(s.update(i, x), k) == count_sum(s, k) + (if i < k { x - s[i] } else { 0 }),
    decreases k,
{
    if k > 0 {
        lemma_count_sum_update(s, i, x, k - 1);
    }
}

proof fn lemma_count_sum_nonneg(s: Seq<usize>, k: int)
    requires
        0 <= k <= s.len(),
    ensures
        count_sum(s, k) >= 0,
    decreases k,
{
    if k > 0 {
        lemma_count_sum_nonneg(s, k - 1);
    }
}

/// Number of nodes without a tree link among the first `k`.
pub open spec fn unlinked(s: Seq<Option<Prev>>, k: int) -> int
    decreases k,
{
    if k <= 0 {
        0
    } else {
        unlinked(s, k - 1) + (if s[k - 1] is None { 1int } else { 0 })
    }
}

proof fn lemma_unlinked_update(s: Seq<Option<Prev>>, i: int, x: Prev, k: int)
    requires
        0 <= i < s.len(),
        0 <= k <= s.len(),
        s[i] is None,
    ensures
        unlinked(s.update(i, Some(x)), k) == unlinked(s, k) - (if i < k { 1int } else { 0 }),
    decreases k,
{
    if k > 0 {
        lemma_unlinked_update(s, i, x, k - 1);
    }
}

proof fn lemma_unlinked_bounds(s: Seq<Option<Prev>>, k: int)
    requires
        0 <= k <= s.len(),
    ensures
        0 <= unlinked(s, k) <= k,
    decreases k,
{
    if k > 0 {
        lemma_unlinked_bounds(s, k - 1);
    }
}

/// A link whose parent is a node and whose action names a flow slot.
pub open spec fn link_ok(p: Option<Prev>, n: int, vl: int, hl: int) -> bool {
    p matches Some(l) ==> {
        &&& (l.from as int) < n
        &&& (l.action.coeff == 1 || l.action.coeff == -1)
        &&& l.action.is_row ==> (l.action.index as int) < vl
        &&& !l.action.is_row ==> (l.action.index as int) < hl
    }
}

pub open spec fn links_ok(s: Seq<Option<Prev>>, n: int, vl: int, hl: int) -> bool {
    forall|i: int| 0 <= i < s.len() ==> link_ok(#[trigger] s[i], n, vl, hl)
}

fn zeros_i32(n: usize) -> (r: Vec<i32>)
    ensures
        r@.len() == n,
        forall|i: int| 0 <= i < n ==> #[trigger] r@[i] == 0,
{
    let mut out: Vec<i32> = Vec::new();
    let mut i: usize = 0;
    while i < n
        invariant
            i <= n,
            out@.len() == i,
            forall|j: int| 0 <= j < i ==> #[trigger] out@[j] == 0,
        decreases n - i,
    {
        out.push(0);
        i = i + 1;
    }
    out
}

fn no_links(n: usize) -> (r: Vec<Option<Prev>>)
    ensures
        r@.len() == n,
        forall|i: int| 0 <= i < n ==> #[trigger] r@[i] is None,
{
    let mut out: Vec<Option<Prev>> = Vec::new();
    let mut i: usize = 0;
    while i < n
        invariant
            i <= n,
            out@.len() == i,
            forall|j: int| 0 <= j < i ==> #[trigger] out@[j] is None,
        decreases n - i,
    {
        out.push(None);
        i = i + 1;
    }
    out
}

/// `(cost, node)` entry `a` comes before `b`: lower cost, then lower node.
pub open spec fn entry_lt(a: (i64, usize), b: (i64, usize)) -> bool {
    a.0 < b.0 || (a.0 == b.0 && a.1 < b.1)
}

/// Index of the least `(cost, node)` entry of a non-empty queue: the first
/// of the least entries.
pub(crate) fn min_entry(heap: &Vec<(i64, usize)>) -> (r: usize)
    requires
        heap@.len() > 0,
    ensures
        r < heap@.len(),
        forall|j: int| 0 <= j < heap@.len() ==> !entry_lt(#[trigger] heap@[j], heap@[r as int]),
        forall|j: int| 0 <= j < r ==> entry_lt(heap@[r as int], #[trigger] heap@[j]),
{
    let mut best: usize = 0;
    let mut i: usize = 1;
    while i < heap.len()
        invariant
            1 <= i <= heap@.len(),
            best < i,
            forall|j: int| 0 <= j < i ==> !entry_lt(#[trigger] heap@[j], heap@[best as int]),
            forall|j: int| 0 <= j < best ==> entry_lt(heap@[best as int], #[trigger] heap@[j]),
        decreases heap@.len() - i,
    {
        let (c, n) = heap[i];
        let (bc, bn) = heap[best];
        if c < bc || (c == bc && n < bn) {
            best = i;
        }
        i = i + 1;
    }
    best
}

/// Initial flows for the dual grid: the same as `shortest_path_initial_flows`.
pub fn mst_initial_flows(
    residue: &[i32],
    horizontal: &[Option<EdgeDatum>],
    vertical: &[Option<EdgeDatum>],
    nrow: usize,
    ncol: usize,
) -> (r: (Vec<i32>, Vec<i32>))
    requires
        grid_ok(horizontal@, vertical@, nrow as int, ncol as int),
        edges_weight_ok(horizontal@),
        edges_weight_ok(vertical@),
        residue_sums_ok(residue@, dual_node_count(nrow as int, ncol as int) - 1),
    ensures
        r.0@.len() == v_len(nrow as int, ncol as int),
        r.1@.len() == h_len(nrow as int, ncol as int),
        (forall|i: int|
            0 <= i < residue@.len() && i < dual_node_count(nrow as int, ncol as int) - 1
                ==> #[trigger] residue@[i] == 0) ==> (forall|i: int|
            0 <= i < r.0@.len() ==> #[trigger] r.0@[i] == 0) && (forall|i: int|
            0 <= i < r.1@.len() ==> #[trigger] r.1@[i] == 0),
{
    shortest_path_initial_flows(residue, horizontal, vertical, nrow, ncol)
}

/// Every running total of the charges handed to the ground node fits in `i32`.
pub open spec fn residue_sums_ok(residue: Seq<i32>, ground: int) -> bool {
    forall|k: int|
        0 <= k <= residue.len() && k <= ground ==> i32::MIN <= -#[trigger] prefix_sum(residue, k)
            <= i32::MAX
}

/// Routes every plaquette residue (the first `ground` entries of `residue`,
/// balanced by the ground node) along a shortest-path tree grown from the
/// first charged node, with `mst_scalar_weight` as step weights. Each tree
/// link carries the total charge below it; returns the row flows of the
/// vertical edges and the column flows of the horizontal edges. Stops adding
/// flow where a charge or flow would leave the range of `i32`.
pub fn shortest_path_initial_flows(
    residue: &[i32],
    horizontal: &[Option<EdgeDatum>],
    vertical: &[Option<EdgeDatum>],
    nrow: usize,
    ncol: usize,
) -> (r: (Vec<i32>, Vec<i32>))
    requires
        grid_ok(horizontal@, vertical@, nrow as int, ncol as int),
        edges_weight_ok(horizontal@),
        edges_weight_ok(vertical@),
        residue_sums_ok(residue@, dual_node_count(nrow as int, ncol as int) - 1),
    ensures
        r.0@.len() == v_len(nrow as int, ncol as int),
        r.1@.len() == h_len(nrow as int, ncol as int),
        (forall|i: int|
            0 <= i < residue@.len() && i < dual_node_count(nrow as int, ncol as int) - 1
                ==> #[trigger] residue@[i] == 0) ==> (forall|i: int|
            0 <= i < r.0@.len() ==> #[trigger] r.0@[i] == 0) && (forall|i: int|
            0 <= i < r.1@.len() ==> #[trigger] r.1@[i] == 0),
{
    let node_count = dual_nodes(horizontal, nrow, ncol);
    let ground = node_count - 1;
    let vl = vertical.len();
    let hl = horizontal.len();
    let mut rowflow = zeros_i32(vl);
    let mut colflow = zeros_i32(hl);
    let ghost nn = node_count as int;
    let mut charge = zeros_i32(node_count);
    let take = if residue.len() < ground {
        residue.len()
    } else {
        ground
    };
    let mut index: usize = 0;
    while index < take
        invariant
            index <= take,
            take <= residue@.len(),
            take <= ground,
            ground + 1 == node_count,
            charge@.len() == node_count,
            residue_sums_ok(residue@, ground as int),
            charge@[ground as int] == -prefix_sum(residue@, index as int),
            forall|j: int| 0 <= j < index ==> #[trigger] charge@[j] == residue@[j],
            forall|j: int| index <= j < ground ==> #[trigger] charge@[j] == 0,
        decreases take - index,
    {
        let value = residue[index];
        charge.set(index, value);
        proof {
            assert(i32::MIN <= -prefix_sum(residue@, index + 1) <= i32::MAX);
        }
        let g = charge[ground] - value;
        charge.set(ground, g);
        index = index + 1;
    }
    let mut any = false;
    let mut root: usize = 0;
    let mut i: usize = 0;
    while i < node_count
        invariant
            i <= node_count,
            charge@.len() == node_count,
            any ==> root < node_count && charge@[root as int] != 0,
            !any ==> forall|j: int| 0 <= j < i ==> #[trigger] charge@[j] == 0,
        decreases node_count - i,
    {
        if !any && charge[i] != 0 {
            any = true;
            root = i;
        }
        i = i + 1;
    }
    if !any {
        return (rowflow, colflow);
    }
    proof {
        // A charge sits on some plaquette: some residue among the first
        // `ground` entries is not zero.
        if forall|j: int| 0 <= j < residue@.len() && j < ground ==> #[trigger] residue@[j] == 0 {
            lemma_zero_prefix(residue@, take as int);
            assert(charge@[ground as int] == 0);
            assert forall|j: int| 0 <= j < node_count implies #[trigger] charge@[j] == 0 by {
                if j < take {
                    assert(residue@[j] == 0);
                }
            }
            assert(charge@[root as int] == 0);
        }
    }
    let mut terminals: Vec<bool> = Vec::new();
    i = 0;
    while i < node_count
        invariant
            i <= node_count,
            charge@.len() == node_count,
            terminals@.len() == i,
        decreases node_count - i,
    {
        terminals.push(charge[i] != 0);
        i = i + 1;
    }
    let mut dist: Vec<i64> = Vec::new();
    i = 0;
    while i < node_count
        invariant
            i <= node_count,
            dist@.len() == i,
            forall|j: int| 0 <= j < i ==> #[trigger] dist@[j] == i64::MAX,
        decreases node_count - i,
    {
        dist.push(i64::MAX);
        i = i + 1;
    }
    let mut prev = no_links(node_count);
    let mut heap: Vec<(i64, usize)> = Vec::new();
    dist.set(root, 0);
    heap.push((0, root));
    proof {
        assert(nrow >= 2 && ncol >= 2) by {
            if nrow < 2 || ncol < 2 {
                assert(nn == 1) by (nonlinear_arith)
                    requires
                        nn == (if nrow >= 1 { nrow - 1 } else { 0 }) * (if ncol >= 1 { ncol - 1 } else { 0 }) + 1,
                        nrow < 2 || ncol < 2,
                ;
                assert(ground == 0);
                assert(charge@[0] == 0);
            }
        }
    }
    while heap.len() > 0
        invariant
            nrow >= 2,
            ncol >= 2,
            nn == node_count,
            nn == dual_node_count(nrow as int, ncol as int),
            grid_ok(horizontal@, vertical@, nrow as int, ncol as int),
            edges_weight_ok(horizontal@),
            edges_weight_ok(vertical@),
            vl == vertical@.len(),
            hl == horizontal@.len(),
            dist@.len() == nn,
            prev@.len() == nn,
            forall|j: int| 0 <= j < nn ==> #[trigger] dist@[j] >= 0,
            forall|q: int|
                0 <= q < heap@.len() ==> (#[trigger] heap@[q]).0 >= 0 && (heap@[q].1 as int) < nn,
            links_ok(prev@, nn, vl as int, hl as int),
        decreases heap@.len() + dist_sum(dist@, nn),
    {
        proof {
            lemma_dist_sum_nonneg(dist@, nn);
        }
        let ghost before = heap@.len() + dist_sum(dist@, nn);
        let at = min_entry(&heap);
        let (cost, node) = heap.swap_remove(at);
        proof {
            assert(heap@.len() + dist_sum(dist@, nn) == before - 1);
        }
        if cost == dist[node] {
            let nbrs = visit_neighbors(node, horizontal, vertical, nrow, ncol);
            let mut j: usize = 0;
            while j < nbrs.len()
                invariant
                    nn == node_count,
                    node < node_count,
                    cost >= 0,
                    neighbors_ok(horizontal@, vertical@, nn, nbrs@),
                    j <= nbrs@.len(),
                    vl == vertical@.len(),
                    hl == horizontal@.len(),
                    dist@.len() == nn,
                    prev@.len() == nn,
                    forall|q: int| 0 <= q < nn ==> #[trigger] dist@[q] >= 0,
                    forall|q: int|
                        0 <= q < heap@.len() ==> (#[trigger] heap@[q]).0 >= 0 && (heap@[q].1 as int)
                            < nn,
                    links_ok(prev@, nn, vl as int, hl as int),
                    heap@.len() + dist_sum(dist@, nn) <= before - 1,
                decreases nbrs@.len() - j,
            {
                let (to, weight, action) = nbrs[j];
                proof {
                    assert(neighbor_ok(horizontal@, vertical@, nn, nbrs@[j as int]));
                }
                match cost.checked_add(weight) {
                    Some(next_cost) => {
                        if next_cost < dist[to] {
                            proof {
                                lemma_dist_sum_update(dist@, to as int, next_cost, nn);
                            }
                            dist.set(to, next_cost);
                            prev.set(to, Some(Prev { from: node, action }));
                            heap.push((next_cost, to));
                        }
                    },
                    None => {},
                }
                j = j + 1;
            }
        }
        proof {
            lemma_dist_sum_nonneg(dist@, nn);
        }
    }
    let mut parent = no_links(node_count);
    let mut target: usize = 0;
    while target < node_count
        invariant
            target <= node_count,
            nn == node_count,
            root < node_count,
            terminals@.len() == nn,
            dist@.len() == nn,
            prev@.len() == nn,
            parent@.len() == nn,
            links_ok(prev@, nn, vl as int, hl as int),
            links_ok(parent@, nn, vl as int, hl as int),
        decreases node_count - target,
    {
        if terminals[target] && target != root && dist[target] != i64::MAX {
            let mut node = target;
            let mut stop = false;
            while node != root && !stop && parent[node].is_none()
                invariant
                    nn == node_count,
                    node < node_count,
                    prev@.len() == nn,
                    parent@.len() == nn,
                    links_ok(prev@, nn, vl as int, hl as int),
                    links_ok(parent@, nn, vl as int, hl as int),
                decreases unlinked(parent@, nn) + (if stop { 0int } else { 1 }),
            {
                proof {
                    lemma_unlinked_bounds(parent@, nn);
                }
                match prev[node] {
                    Some(link) => {
                        proof {
                            assert(link_ok(prev@[node as int], nn, vl as int, hl as int));
                            lemma_unlinked_update(parent@, node as int, link, nn);
                            lemma_unlinked_bounds(parent@.update(node as int, Some(link)), nn);
                        }
                        parent.set(node, Some(link));
                        node = link.from;
                    },
                    None => {
                        stop = true;
                    },
                }
            }
        }
        target = target + 1;
    }
    let mut child_count: Vec<usize> = Vec::new();
    i = 0;
    while i < node_count
        invariant
            i <= node_count,
            child_count@.len() == i,
            forall|j: int| 0 <= j < i ==> #[trigger] child_count@[j] == 0,
        decreases node_count - i,
    {
        child_count.push(0);
        i = i + 1;
    }
    i = 0;
    while i < node_count
        invariant
            i <= node_count,
            nn == node_count,
            child_count@.len() == nn,
            parent@.len() == nn,
            links_ok(parent@, nn, vl as int, hl as int),
            forall|j: int| 0 <= j < nn ==> #[trigger] child_count@[j] <= i,
        decreases node_count - i,
    {
        match parent[i] {
            Some(link) => {
                proof {
                    assert(link_ok(parent@[i as int], nn, vl as int, hl as int));
                }
                let c = child_count[link.from] + 1;
                child_count.set(link.from, c);
            },
            None => {},
        }
        i = i + 1;
    }
    let mut pending: Vec<usize> = Vec::new();
    i = 0;
    while i < node_count
        invariant
            i <= node_count,
            nn == node_count,
            child_count@.len() == nn,
            parent@.len() == nn,
            forall|q: int| 0 <= q < pending@.len() ==> (#[trigger] pending@[q] as int) < nn,
        decreases node_count - i,
    {
        if parent[i].is_some() && child_count[i] == 0 {
            pending.push(i);
        }
        i = i + 1;
    }
    let mut subtree_charge = charge;
    let mut done = false;
    while pending.len() > 0 && !done
        invariant
            nn == node_count,
            root < node_count,
            child_count@.len() == nn,
            parent@.len() == nn,
            subtree_charge@.len() == nn,
            rowflow@.len() == vl,
            colflow@.len() == hl,
            links_ok(parent@, nn, vl as int, hl as int),
            forall|q: int| 0 <= q < pending@.len() ==> (#[trigger] pending@[q] as int) < nn,
        decreases pending@.len() + 2 * count_sum(child_count@, nn) + (if done { 0int } else { 1 }),
    {
        proof {
            lemma_count_sum_nonneg(child_count@, nn);
        }
        let node = match pending.pop() {
            Some(x) => x,
            None => {
                break;
            },
        };
        match parent[node] {
            Some(link) => {
                proof {
                    assert(link_ok(parent@[node as int], nn, vl as int, hl as int));
                }
                let amount = subtree_charge[node];
                let from = link.from;
                let slot = if link.action.is_row {
                    rowflow[link.action.index]
                } else {
                    colflow[link.action.index]
                };
                let moved = if link.action.coeff == 1 {
                    (slot as i64) - (amount as i64)
                } else {
                    (slot as i64) + (amount as i64)
                };
                assert(link.action.coeff * (-(amount as int)) == (if link.action.coeff == 1 {
                    -(amount as int)
                } else {
                    amount as int
                })) by (nonlinear_arith)
                    requires
                        link.action.coeff == 1 || link.action.coeff == -1,
                ;
                let total = (subtree_charge[from] as i64) + (amount as i64);
                if amount == i32::MIN || moved < i32::MIN as i64 || moved > i32::MAX as i64 || total
                    < i32::MIN as i64 || total > i32::MAX as i64 {
                    done = true;
                } else {
                    apply_action(&mut rowflow, &mut colflow, link.action, -amount);
                    subtree_charge.set(from, total as i32);
                    if child_count[from] > 0 {
                        proof {
                            lemma_count_sum_update(
                                child_count@,
                                from as int,
                                (child_count@[from as int] - 1) as usize,
                                nn,
                            );
                        }
                        let c = child_count[from] - 1;
                        child_count.set(from, c);
                        if from != root && c == 0 {
                            pending.push(from);
                        }
                    }
                }
            },
            None => {},
        }
        proof {
            lemma_count_sum_nonneg(child_count@, nn);
        }
    }
    (rowflow, colflow)
}

proof fn lemma_zero_prefix(s: Seq<i32>, k: int)
    requires
        0 <= k <= s.len(),
        forall|j: int| 0 <= j < k ==> #[trigger] s[j] == 0,
    ensures
        prefix_sum(s, k) == 0,
    decreases k,
{
    if k > 0 {
        lemma_zero_prefix(s, k - 1);
    }
}

/// Whether every present edge can be given a step weight.
pub fn edges_weight_in_range(s: &[Option<EdgeDatum>]) -> (r: bool)
    ensures
        r == edges_weight_ok(s@),
{
    let mut i: usize = 0;
    while i < s.len()
        invariant
            i <= s@.len(),
            forall|j: int| 0 <= j < i ==> (#[trigger] s@[j] matches Some(e) ==> mst_weight_ok(e)),
        decreases s.len() - i,
    {
        if let Some(e) = s[i] {
            if dz_exact(e, 0) > DZ_LIMIT as i128 || dz_exact(e, 1) > DZ_LIMIT as i128 || dz_exact(
                e,
                -1,
            ) > DZ_LIMIT as i128 {
                return false;
            }
        }
        i = i + 1;
    }
    true
}

} // verus!
