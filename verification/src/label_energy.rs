//! The label objective: the summed cost of every edge given the integer
//! cycle labels of the grid cells.
use vstd::prelude::*;
use crate::edges::{
    edge_label_energy, in_i32, label_energy, label_energy_ok, EdgeDatum, COST_MAX, COST_MIN,
    DZ_LIMIT,
};
use crate::incr_cost::dz_exact;
use crate::residual::{grid_ok, h_len, v_len};

verus! {

/// Cell on the left of horizontal edge `i`.
pub open spec fn h_cell(i: int, ncol: int) -> int {
    (i / (ncol - 1)) * ncol + i % (ncol - 1)
}

/// Cost of horizontal edge `i` under `labels` (0 when absent).
pub open spec fn h_energy(labels: Seq<i32>, h: Seq<Option<EdgeDatum>>, ncol: int, i: int) -> int {
    match h[i] {
        Some(e) => label_energy(e, labels[h_cell(i, ncol)] as int, labels[h_cell(i, ncol) + 1] as int),
        None => 0,
    }
}

/// Cost of vertical edge `i` under `labels` (0 when absent).
pub open spec fn v_energy(labels: Seq<i32>, v: Seq<Option<EdgeDatum>>, ncol: int, i: int) -> int {
    match v[i] {
        Some(e) => label_energy(e, labels[i] as int, labels[i + ncol] as int),
        None => 0,
    }
}

pub open spec fn h_energy_sum(labels: Seq<i32>, h: Seq<Option<EdgeDatum>>, ncol: int, k: int) -> int
    decreases k,
{
    if k <= 0 { 0 } else { h_energy_sum(labels, h, ncol, k - 1) + h_energy(labels, h, ncol, k - 1) }
}

pub open spec fn v_energy_sum(labels: Seq<i32>, v: Seq<Option<EdgeDatum>>, ncol: int, k: int) -> int
    decreases k,
{
    if k <= 0 { 0 } else { v_energy_sum(labels, v, ncol, k - 1) + v_energy(labels, v, ncol, k - 1) }
}

/// Total cost of all present edges under `labels`.
pub open spec fn label_objective_spec(
    labels: Seq<i32>,
    h: Seq<Option<EdgeDatum>>,
    v: Seq<Option<EdgeDatum>>,
    ncol: int,
) -> int {
    h_energy_sum(labels, h, ncol, h.len() as int) + v_energy_sum(labels, v, ncol, v.len() as int)
}

/// Every present edge's cost under `labels` can be computed within machine range.
pub open spec fn labels_ok(
    labels: Seq<i32>,
    h: Seq<Option<EdgeDatum>>,
    v: Seq<Option<EdgeDatum>>,
    ncol: int,
) -> bool {
    &&& forall|i: int|
        0 <= i < h.len() ==> (#[trigger] h[i] matches Some(e) ==> label_energy_ok(
            e,
            labels[h_cell(i, ncol)] as int,
            labels[h_cell(i, ncol) + 1] as int,
        ))
    &&& forall|i: int|
        0 <= i < v.len() ==> (#[trigger] v[i] matches Some(e) ==> label_energy_ok(
            e,
            labels[i] as int,
            labels[i + ncol] as int,
        ))
}

/// Labels for every cell of an `nrow` by `ncol` grid, with edge arrays to match.
pub open spec fn label_grid_ok(
    labels: Seq<i32>,
    h: Seq<Option<EdgeDatum>>,
    v: Seq<Option<EdgeDatum>>,
    nrow: int,
    ncol: int,
) -> bool {
    &&& grid_ok(h, v, nrow, ncol)
    &&& labels.len() == nrow * ncol
    &&& nrow >= 1
    &&& ncol >= 1
    &&& h.len() + v.len() <= 0x4000_0000
}

pub proof fn lemma_h_cell_bounds(i: int, nrow: int, ncol: int)
    requires
        ncol >= 2,
        0 <= i < h_len(nrow, ncol),
    ensures
        0 <= h_cell(i, ncol),
        h_cell(i, ncol) + 1 < nrow * ncol,
        h_cell(i, ncol) % ncol < ncol - 1,
        h_cell(i, ncol) / ncol == i / (ncol - 1),
{
    let w = ncol - 1;
    vstd::arithmetic::div_mod::lemma_fundamental_div_mod(i, w);
    let r = i / w;
    let c = i % w;
    assert(0 <= c < w);
    assert(i == r * w + c) by (nonlinear_arith)
        requires
            i == w * r + c,
    ;
    assert(0 <= r) by (nonlinear_arith)
        requires
            i == r * w + c,
            0 <= i,
            0 <= c < w,
    ;
    assert(r < nrow) by (nonlinear_arith)
        requires
            i == r * w + c,
            i < nrow * w,
            0 <= c < w,
    ;
    assert(r * ncol + c + 1 < nrow * ncol) by (nonlinear_arith)
        requires
            0 <= r < nrow,
            0 <= c < w,
            w == ncol - 1,
    ;
    assert(0 <= r * ncol) by (nonlinear_arith)
        requires
            0 <= r,
            0 <= ncol,
    ;
    vstd::arithmetic::div_mod::lemma_fundamental_div_mod_converse(r * ncol + c, ncol, r, c);
}

/// Cost of horizontal edge `i` under `labels`.
pub fn h_edge_energy(
    labels: &[i32],
    horizontal: &[Option<EdgeDatum>],
    nrow: usize,
    ncol: usize,
    i: usize,
) -> (r: i64)
    requires
        ncol >= 2,
        labels@.len() == nrow * ncol,
        horizontal@.len() == h_len(nrow as int, ncol as int),
        i < horizontal@.len(),
        horizontal@[i as int] matches Some(e) ==> label_energy_ok(
            e,
            labels@[h_cell(i as int, ncol as int)] as int,
            labels@[h_cell(i as int, ncol as int) + 1] as int,
        ),
    ensures
        r == h_energy(labels@, horizontal@, ncol as int, i as int),
{
    match horizontal[i] {
        Some(e) => {
            proof {
                lemma_h_cell_bounds(i as int, nrow as int, ncol as int);
            }
            let ll = labels.len();
            let row = i / (ncol - 1);
            let col = i % (ncol - 1);
            assert(row as int == (i as int) / ((ncol as int) - 1));
            assert(col as int == (i as int) % ((ncol as int) - 1));
            assert(h_cell(i as int, ncol as int) == (row as int) * (ncol as int) + col as int);
            assert(row * ncol <= row * ncol + col);
            assert(row * ncol + col + 1 < ll);
            let a = row * ncol + col;
            edge_label_energy(e, labels[a], labels[a + 1])
        },
        None => 0,
    }
}

/// Cost of vertical edge `i` under `labels`.
pub fn v_edge_energy(
    labels: &[i32],
    vertical: &[Option<EdgeDatum>],
    nrow: usize,
    ncol: usize,
    i: usize,
) -> (r: i64)
    requires
        labels@.len() == nrow * ncol,
        vertical@.len() == v_len(nrow as int, ncol as int),
        i < vertical@.len(),
        vertical@[i as int] matches Some(e) ==> label_energy_ok(
            e,
            labels@[i as int] as int,
            labels@[i + ncol] as int,
        ),
    ensures
        r == v_energy(labels@, vertical@, ncol as int, i as int),
{
    match vertical[i] {
        Some(e) => {
            assert(i + ncol < nrow * ncol) by (nonlinear_arith)
                requires
                    i < (if nrow >= 1 { nrow - 1 } else { 0 }) * ncol,
            ;
            edge_label_energy(e, labels[i], labels[i + ncol])
        },
        None => 0,
    }
}

/// Total cost of all present edges under `labels`.
pub fn label_objective(
    labels: &[i32],
    horizontal: &[Option<EdgeDatum>],
    vertical: &[Option<EdgeDatum>],
    nrow: usize,
    ncol: usize,
) -> (r: i128)
    requires
        label_grid_ok(labels@, horizontal@, vertical@, nrow as int, ncol as int),
        labels_ok(labels@, horizontal@, vertical@, ncol as int),
    ensures
        r == label_objective_spec(labels@, horizontal@, vertical@, ncol as int),
{
    let mut total: i128 = 0;
    let mut i: usize = 0;
    while i < horizontal.len()
        invariant
            i <= horizontal@.len(),
            label_grid_ok(labels@, horizontal@, vertical@, nrow as int, ncol as int),
            labels_ok(labels@, horizontal@, vertical@, ncol as int),
            total == h_energy_sum(labels@, horizontal@, ncol as int, i as int),
            (i as int) * COST_MIN <= total <= (i as int) * COST_MAX,
        decreases horizontal.len() - i,
    {
        proof {
            if ncol < 2 {
                assert(horizontal@.len() == 0) by (nonlinear_arith)
                    requires
                        ncol < 2,
                        ncol >= 1,
                        horizontal@.len() == nrow * (ncol - 1),
                ;
            }
        }
        let e = h_edge_energy(labels, horizontal, nrow, ncol, i);
        proof {
            if let Some(d) = horizontal@[i as int] {
                crate::edges::lemma_cost_range(d, crate::edges::label_flow(
                    d,
                    labels@[h_cell(i as int, ncol as int)] as int,
                    labels@[h_cell(i as int, ncol as int) + 1] as int,
                ));
            }
            assert((i as int + 1) * COST_MAX == (i as int) * COST_MAX + COST_MAX) by (nonlinear_arith);
            assert((i as int + 1) * COST_MIN == (i as int) * COST_MIN + COST_MIN) by (nonlinear_arith);
            assert((i as int + 1) * COST_MAX <= 0x4000_0000 * COST_MAX) by (nonlinear_arith)
                requires
                    i + 1 <= 0x4000_0000,
            ;
            assert((i as int + 1) * COST_MIN >= 0x4000_0000 * COST_MIN) by (nonlinear_arith)
                requires
                    i + 1 <= 0x4000_0000,
            ;
        }
        total = total + e as i128;
        i = i + 1;
    }
    let mut vtotal: i128 = 0;
    let mut j: usize = 0;
    while j < vertical.len()
        invariant
            j <= vertical@.len(),
            label_grid_ok(labels@, horizontal@, vertical@, nrow as int, ncol as int),
            labels_ok(labels@, horizontal@, vertical@, ncol as int),
            total == h_energy_sum(labels@, horizontal@, ncol as int, horizontal@.len() as int),
            (horizontal@.len() as int) * COST_MIN <= total <= (horizontal@.len() as int) * COST_MAX,
            vtotal == v_energy_sum(labels@, vertical@, ncol as int, j as int),
            (j as int) * COST_MIN <= vtotal <= (j as int) * COST_MAX,
        decreases vertical.len() - j,
    {
        let e = v_edge_energy(labels, vertical, nrow, ncol, j);
        proof {
            if let Some(d) = vertical@[j as int] {
                crate::edges::lemma_cost_range(d, crate::edges::label_flow(
                    d,
                    labels@[j as int] as int,
                    labels@[j + ncol] as int,
                ));
            }
            assert((j as int + 1) * COST_MAX == (j as int) * COST_MAX + COST_MAX) by (nonlinear_arith);
            assert((j as int + 1) * COST_MIN == (j as int) * COST_MIN + COST_MIN) by (nonlinear_arith);
            assert((j as int + 1) * COST_MAX <= 0x4000_0000 * COST_MAX) by (nonlinear_arith)
                requires
                    j + 1 <= 0x4000_0000,
            ;
            assert((j as int + 1) * COST_MIN >= 0x4000_0000 * COST_MIN) by (nonlinear_arith)
                requires
                    j + 1 <= 0x4000_0000,
            ;
        }
        vtotal = vtotal + e as i128;
        j = j + 1;
    }
    assert((horizontal@.len() as int) * COST_MAX <= 0x4000_0000 * COST_MAX) by (nonlinear_arith)
        requires
            horizontal@.len() <= 0x4000_0000,
    ;
    assert((horizontal@.len() as int) * COST_MIN >= 0x4000_0000 * COST_MIN) by (nonlinear_arith)
        requires
            horizontal@.len() <= 0x4000_0000,
    ;
    total + vtotal
}

/// Whether the cost of edge `e` between labels `a` and `b` can be computed in range.
pub fn label_energy_in_range(e: EdgeDatum, a: i32, b: i32) -> (r: bool)
    ensures
        r == label_energy_ok(e, a as int, b as int),
{
    let delta: i64 = b as i64 - a as i64;
    if delta < i32::MIN as i64 || delta > i32::MAX as i64 {
        return false;
    }
    let rel: i64 = delta - e.desired_delta as i64;
    if rel < i32::MIN as i64 || rel > i32::MAX as i64 {
        return false;
    }
    assert(-0x4000_0000_0000_0000 <= (e.flow_sign as int) * (rel as int) <= 0x4000_0000_0000_0000)
        by (nonlinear_arith)
        requires
            -0x8000_0000 <= e.flow_sign <= 0x7fff_ffff,
            -0x8000_0000 <= rel <= 0x7fff_ffff,
    ;
    let moved: i64 = e.flow_sign as i64 * rel;
    if moved < i32::MIN as i64 || moved > i32::MAX as i64 {
        return false;
    }
    let flow: i64 = e.flow as i64 + moved;
    if flow < i32::MIN as i64 || flow > i32::MAX as i64 {
        return false;
    }
    dz_exact(e, flow) <= DZ_LIMIT as i128
}

/// Whether every present edge's cost under `labels` can be computed in range.
pub fn labels_in_range(
    labels: &[i32],
    horizontal: &[Option<EdgeDatum>],
    vertical: &[Option<EdgeDatum>],
    nrow: usize,
    ncol: usize,
) -> (r: bool)
    requires
        label_grid_ok(labels@, horizontal@, vertical@, nrow as int, ncol as int),
    ensures
        r == labels_ok(labels@, horizontal@, vertical@, ncol as int),
{
    let mut i: usize = 0;
    while i < horizontal.len()
        invariant
            i <= horizontal@.len(),
            label_grid_ok(labels@, horizontal@, vertical@, nrow as int, ncol as int),
            forall|k: int|
                0 <= k < i ==> (#[trigger] horizontal@[k] matches Some(e) ==> label_energy_ok(
                    e,
                    labels@[h_cell(k, ncol as int)] as int,
                    labels@[h_cell(k, ncol as int) + 1] as int,
                )),
        decreases horizontal.len() - i,
    {
        if let Some(e) = horizontal[i] {
            proof {
                if ncol < 2 {
                    assert(horizontal@.len() == 0) by (nonlinear_arith)
                        requires
                            ncol < 2,
                            ncol >= 1,
                            horizontal@.len() == nrow * (ncol - 1),
                    ;
                }
                lemma_h_cell_bounds(i as int, nrow as int, ncol as int);
            }
            let ll = labels.len();
            let row = i / (ncol - 1);
            let col = i % (ncol - 1);
            assert(row as int == (i as int) / ((ncol as int) - 1));
            assert(col as int == (i as int) % ((ncol as int) - 1));
            assert(h_cell(i as int, ncol as int) == (row as int) * (ncol as int) + col as int);
            assert(row * ncol <= row * ncol + col);
            assert(row * ncol + col + 1 < ll);
            let a = row * ncol + col;
            if !label_energy_in_range(e, labels[a], labels[a + 1]) {
                return false;
            }
        }
        i = i + 1;
    }
    let mut j: usize = 0;
    while j < vertical.len()
        invariant
            j <= vertical@.len(),
            label_grid_ok(labels@, horizontal@, vertical@, nrow as int, ncol as int),
            forall|k: int|
                0 <= k < horizontal@.len() ==> (#[trigger] horizontal@[k] matches Some(e)
                    ==> label_energy_ok(
                    e,
                    labels@[h_cell(k, ncol as int)] as int,
                    labels@[h_cell(k, ncol as int) + 1] as int,
                )),
            forall|k: int|
                0 <= k < j ==> (#[trigger] vertical@[k] matches Some(e) ==> label_energy_ok(
                    e,
                    labels@[k] as int,
                    labels@[k + ncol] as int,
                )),
        decreases vertical.len() - j,
    {
        if let Some(e) = vertical[j] {
            assert(j + ncol < nrow * ncol) by (nonlinear_arith)
                requires
                    j < (if nrow >= 1 { nrow - 1 } else { 0 }) * ncol,
            ;
            if !label_energy_in_range(e, labels[j], labels[j + ncol]) {
                return false;
            }
        }
        j = j + 1;
    }
    true
}

} // verus!
