//! Edges of the unwrapping grid and the deformation cost model.
use vstd::prelude::*;

verus! {

/// Sentinel cost marking an edge that carries no cost.
pub const NO_COST: i32 = 32000;
/// Sentinel layover cost meaning "no layover shelf".
pub const NO_LAYCOST: i32 = -32000;
/// Largest `|flow * nshortcycle + offset|` whose square fits in an `i64`.
pub const DZ_LIMIT: i64 = 3037000499;

/// One grid edge with its statistical cost parameters and current flow.
/// `desired_delta` is the rounded label difference that the edge asks for.
#[derive(Clone, Copy, Debug, PartialEq, Eq)]
pub struct EdgeDatum {
    pub cost: i32,
    pub desired_delta: i32,
    pub offset: i32,
    pub dzmax: i32,
    pub laycost: i32,
    pub nshortcycle: i32,
    pub flow_sign: i32,
    pub flow: i32,
}

pub open spec fn abs_int(x: int) -> int {
    if x < 0 { -x } else { x }
}

pub open spec fn in_i32(x: int) -> bool {
    i32::MIN <= x <= i32::MAX
}

/// The phase-difference magnitude that a flow induces on an edge.
pub open spec fn dz_spec(nshortcycle: int, offset: int, flow: int) -> int {
    abs_int(flow * nshortcycle + offset)
}

/// The cost of an edge as a function of its flow (deformation mode).
pub open spec fn defo_cost_spec(
    cost: int,
    offset: int,
    dzmax: int,
    laycost: int,
    nshortcycle: int,
    flow: int,
) -> int {
    if cost == 32000 {
        0
    } else {
        let sigsq = if cost >= 1 { cost } else { 1 };
        let dz = dz_spec(nshortcycle, offset, flow);
        let dzm = if laycost == -32000 { 32000 } else if dzmax >= 0 { dzmax } else { 0 };
        if dz > dzm {
            (dz - dzm) * (dz - dzm) / (2 * sigsq) + laycost
        } else {
            let c = dz * dz / sigsq;
            if laycost != -32000 && c > laycost { laycost } else { c }
        }
    }
}

/// The cost of a layover edge past its layover threshold never drops below
/// the layover cost: for `dz > dzmax` the cost is at least `laycost`.
pub proof fn law_layover_shelf(cost: int, offset: int, dzmax: int, laycost: int, nshortcycle: int, flow: int)
    requires
        cost != 32000,
        laycost != -32000,
        dz_spec(nshortcycle, offset, flow) > (if dzmax >= 0 { dzmax } else { 0 }),
    ensures
        defo_cost_spec(cost, offset, dzmax, laycost, nshortcycle, flow) >= laycost,
{
    let sigsq = if cost >= 1 { cost } else { 1 };
    let dzm = if dzmax >= 0 { dzmax } else { 0 };
    let dz = dz_spec(nshortcycle, offset, flow);
    assert((dz - dzm) * (dz - dzm) >= 0) by (nonlinear_arith);
    vstd::arithmetic::div_mod::lemma_div_pos_is_pos((dz - dzm) * (dz - dzm), 2 * sigsq);
}

/// Up to its layover threshold a layover edge costs no more than the
/// layover cost, and never less than zero or `laycost` where that is lower.
pub proof fn law_layover_cap(cost: int, offset: int, dzmax: int, laycost: int, nshortcycle: int, flow: int)
    requires
        cost != 32000,
        laycost != -32000,
        dz_spec(nshortcycle, offset, flow) <= (if dzmax >= 0 { dzmax } else { 0 }),
    ensures
        defo_cost_spec(cost, offset, dzmax, laycost, nshortcycle, flow) <= laycost,
        defo_cost_spec(cost, offset, dzmax, laycost, nshortcycle, flow) >= (if laycost < 0 { laycost } else { 0 }),
{
    let sigsq = if cost >= 1 { cost } else { 1 };
    let dz = dz_spec(nshortcycle, offset, flow);
    assert(dz * dz >= 0) by (nonlinear_arith);
    vstd::arithmetic::div_mod::lemma_div_pos_is_pos(dz * dz, sigsq);
}

/// On a layover edge the cost never falls as the phase difference grows:
/// a flow whose `dz` is at least another's costs at least as much (below
/// the threshold the quadratic cost capped at `laycost`, past it `laycost`
/// plus the falloff).
pub proof fn law_layover_cost_monotone(
    cost: int,
    offset: int,
    dzmax: int,
    laycost: int,
    nshortcycle: int,
    f1: int,
    f2: int,
)
    requires
        laycost != -32000,
        dz_spec(nshortcycle, offset, f1) <= dz_spec(nshortcycle, offset, f2),
    ensures
        defo_cost_spec(cost, offset, dzmax, laycost, nshortcycle, f1) <= defo_cost_spec(
            cost,
            offset,
            dzmax,
            laycost,
            nshortcycle,
            f2,
        ),
{
    if cost != 32000 {
        let sigsq = if cost >= 1 { cost } else { 1 };
        let dzm = if dzmax >= 0 { dzmax } else { 0 };
        let a = dz_spec(nshortcycle, offset, f1);
        let b = dz_spec(nshortcycle, offset, f2);
        assert(a >= 0 && b >= 0);
        if a > dzm {
            assert((a - dzm) * (a - dzm) <= (b - dzm) * (b - dzm)) by (nonlinear_arith)
                requires
                    0 < a - dzm <= b - dzm,
            ;
            vstd::arithmetic::div_mod::lemma_div_is_ordered((a - dzm) * (a - dzm), (b - dzm) * (b - dzm), 2 * sigsq);
        } else if b > dzm {
            law_layover_shelf(cost, offset, dzmax, laycost, nshortcycle, f2);
        } else {
            assert(a * a <= b * b) by (nonlinear_arith)
                requires
                    0 <= a <= b,
            ;
            vstd::arithmetic::div_mod::lemma_div_is_ordered(a * a, b * b, sigsq);
        }
    }
}

/// The cost of edge `e` carrying flow `flow`.
pub open spec fn edge_cost_at(e: EdgeDatum, flow: int) -> int {
    defo_cost_spec(
        e.cost as int,
        e.offset as int,
        e.dzmax as int,
        e.laycost as int,
        e.nshortcycle as int,
        flow,
    )
}

/// The cost computation for `flow` stays within `i64`.
pub open spec fn dz_ok(nshortcycle: int, offset: int, flow: int) -> bool {
    dz_spec(nshortcycle, offset, flow) <= DZ_LIMIT
}

pub open spec fn edge_dz_ok(e: EdgeDatum, flow: int) -> bool {
    dz_ok(e.nshortcycle as int, e.offset as int, flow)
}

/// Index of the horizontal edge right of cell `(row, col)`.
pub open spec fn h_index(row: int, col: int, ncol: int) -> int {
    row * (ncol - 1) + col
}

/// Index of the vertical edge below cell `(row, col)`.
pub open spec fn v_index(row: int, col: int, ncol: int) -> int {
    row * ncol + col
}

proof fn lemma_mul_i32_bound(a: int, b: int)
    requires
        in_i32(a),
        in_i32(b),
    ensures
        -0x4000_0000_0000_0000 <= a * b <= 0x4000_0000_0000_0000,
{
    assert(-0x4000_0000_0000_0000 <= a * b <= 0x4000_0000_0000_0000) by (nonlinear_arith)
        requires
            -0x8000_0000 <= a <= 0x7fff_ffff,
            -0x8000_0000 <= b <= 0x7fff_ffff,
    ;
}

/// Index of the horizontal edge joining cells `(row, col)` and `(row, col + 1)`.
pub fn horizontal_index(row: usize, col: usize, ncol: usize) -> (r: usize)
    requires
        ncol >= 1,
        row * (ncol - 1) + col <= usize::MAX,
    ensures
        r == h_index(row as int, col as int, ncol as int),
{
    row * (ncol - 1) + col
}

/// Index of the vertical edge joining cells `(row, col)` and `(row + 1, col)`.
pub fn vertical_index(row: usize, col: usize, ncol: usize) -> (r: usize)
    requires
        row * ncol + col <= usize::MAX,
    ensures
        r == v_index(row as int, col as int, ncol as int),
{
    row * ncol + col
}

/// Deformation-mode cost of an edge carrying `flow` cycles.
pub fn defo_edge_cost(
    cost: i32,
    offset: i32,
    dzmax: i32,
    laycost: i32,
    nshortcycle: i32,
    flow: i32,
) -> (r: i64)
    requires
        dz_ok(nshortcycle as int, offset as int, flow as int),
    ensures
        r == defo_cost_spec(
            cost as int,
            offset as int,
            dzmax as int,
            laycost as int,
            nshortcycle as int,
            flow as int,
        ),
{
    if cost == 32000 {
        return 0;
    }
    let sigsq: i64 = if cost >= 1 { cost as i64 } else { 1 };
    proof {
        lemma_mul_i32_bound(flow as int, nshortcycle as int);
    }
    let raw: i64 = (flow as i64) * (nshortcycle as i64) + (offset as i64);
    let dz: i64 = if raw < 0 { -raw } else { raw };
    let laycost_i64: i64 = laycost as i64;
    let dzm: i64 = if laycost == -32000 {
        32000
    } else if dzmax >= 0 {
        dzmax as i64
    } else {
        0
    };
    if dz > dzm {
        let falloff_dz: i64 = dz - dzm;
        assert(falloff_dz * falloff_dz <= DZ_LIMIT * DZ_LIMIT) by (nonlinear_arith)
            requires
                0 <= falloff_dz <= DZ_LIMIT,
        ;
        assert(falloff_dz * falloff_dz >= 0) by (nonlinear_arith);
        let sq: i64 = falloff_dz * falloff_dz;
        let q: i64 = sq / (2 * sigsq);
        assert(q as int <= sq as int) by (nonlinear_arith)
            requires
                q as int == (sq as int) / (2 * (sigsq as int)),
                sq >= 0,
                sigsq >= 1,
        ;
        q + laycost_i64
    } else {
        assert(dz * dz <= DZ_LIMIT * DZ_LIMIT) by (nonlinear_arith)
            requires
                0 <= dz <= DZ_LIMIT,
        ;
        assert(dz * dz >= 0) by (nonlinear_arith);
        let sq: i64 = dz * dz;
        let mut c: i64 = sq / sigsq;
        if laycost != -32000 && c > laycost_i64 {
            c = laycost_i64;
        }
        c
    }
}

/// The flow that edge `e` carries once its end labels are `from_label` and `to_label`.
pub open spec fn label_flow(e: EdgeDatum, from_label: int, to_label: int) -> int {
    e.flow + e.flow_sign * ((to_label - from_label) - e.desired_delta)
}

/// Every step of the label-energy computation stays within its machine type.
pub open spec fn label_energy_ok(e: EdgeDatum, from_label: int, to_label: int) -> bool {
    &&& in_i32(to_label - from_label)
    &&& in_i32((to_label - from_label) - e.desired_delta)
    &&& in_i32(e.flow_sign * ((to_label - from_label) - e.desired_delta))
    &&& in_i32(label_flow(e, from_label, to_label))
    &&& edge_dz_ok(e, label_flow(e, from_label, to_label))
}

/// Cost of edge `e` when its end cells carry the given labels.
pub open spec fn label_energy(e: EdgeDatum, from_label: int, to_label: int) -> int {
    edge_cost_at(e, label_flow(e, from_label, to_label))
}

/// The edge after a correction of `delta` cycles.
pub open spec fn corrected_datum(e: EdgeDatum, delta: int) -> EdgeDatum {
    EdgeDatum {
        desired_delta: (e.desired_delta + delta) as i32,
        flow: (e.flow + e.flow_sign * delta) as i32,
        ..e
    }
}

pub open spec fn corrected(edge: Option<EdgeDatum>, delta: int) -> Option<EdgeDatum> {
    match edge {
        Some(e) => Some(corrected_datum(e, delta)),
        None => None,
    }
}

/// A correction of `delta` keeps the edge's numbers within `i32`.
pub open spec fn correction_ok(edge: Option<EdgeDatum>, delta: int) -> bool {
    match edge {
        Some(e) => {
            &&& in_i32(e.desired_delta + delta)
            &&& in_i32(e.flow_sign * delta)
            &&& in_i32(e.flow + e.flow_sign * delta)
        },
        None => true,
    }
}

/// The rounded label difference that the edge asks for.
pub fn rounded_delta(edge: EdgeDatum) -> (r: i32)
    ensures
        r == edge.desired_delta,
{
    edge.desired_delta
}

/// Adds `delta` cycles to the edge's desired difference and the matching flow.
pub fn apply_edge_correction(edge: &mut Option<EdgeDatum>, delta: i32)
    requires
        correction_ok(*old(edge), delta as int),
    ensures
        *final(edge) == corrected(*old(edge), delta as int),
{
    if let Some(datum) = edge {
        datum.desired_delta = datum.desired_delta + delta;
        datum.flow = datum.flow + datum.flow_sign * delta;
    }
}

/// Change of the edge cost when its label difference moves by `desired_delta`.
pub fn edge_increment_cost(edge: EdgeDatum, desired_delta: i32) -> (r: i64)
    requires
        in_i32(edge.flow_sign * desired_delta),
        in_i32(edge.flow + edge.flow_sign * desired_delta),
        edge_dz_ok(edge, edge.flow as int),
        edge_dz_ok(edge, edge.flow + edge.flow_sign * desired_delta),
    ensures
        r == edge_cost_at(edge, edge.flow + edge.flow_sign * desired_delta) - edge_cost_at(
            edge,
            edge.flow as int,
        ),
{
    let flow_delta = edge.flow_sign * desired_delta;
    let before = defo_edge_cost(
        edge.cost,
        edge.offset,
        edge.dzmax,
        edge.laycost,
        edge.nshortcycle,
        edge.flow,
    );
    let after = defo_edge_cost(
        edge.cost,
        edge.offset,
        edge.dzmax,
        edge.laycost,
        edge.nshortcycle,
        edge.flow + flow_delta,
    );
    proof {
        lemma_cost_range(edge, edge.flow as int);
        lemma_cost_range(edge, edge.flow + edge.flow_sign * desired_delta);
    }
    after - before
}

/// Every edge cost lies between `-2^31` and `DZ_LIMIT^2 + 2^31`.
pub proof fn lemma_cost_range(e: EdgeDatum, flow: int)
    requires
        edge_dz_ok(e, flow),
    ensures
        COST_MIN <= edge_cost_at(e, flow) <= COST_MAX,
{
    let dz = dz_spec(e.nshortcycle as int, e.offset as int, flow);
    let sigsq: int = if e.cost >= 1 { e.cost as int } else { 1 };
    let dzm: int = if e.laycost == -32000 { 32000 } else if e.dzmax >= 0 { e.dzmax as int } else { 0 };
    if e.cost != 32000 {
        if dz > dzm {
            let f = dz - dzm;
            assert(0 <= f * f / (2 * sigsq) <= DZ_LIMIT * DZ_LIMIT) by (nonlinear_arith)
                requires
                    0 <= f <= DZ_LIMIT,
                    sigsq >= 1,
            ;
        } else {
            assert(0 <= dz * dz / sigsq <= DZ_LIMIT * DZ_LIMIT) by (nonlinear_arith)
                requires
                    0 <= dz <= DZ_LIMIT,
                    sigsq >= 1,
            ;
        }
    }
}

/// Smallest value that an edge cost can take.
pub const COST_MIN: i64 = -2147483648;
/// Largest value that an edge cost can take.
pub const COST_MAX: i64 = 9223372033073732649;

/// Cost of the edge when its end cells carry `from_label` and `to_label`.
pub fn edge_label_energy(edge: EdgeDatum, from_label: i32, to_label: i32) -> (r: i64)
    requires
        label_energy_ok(edge, from_label as int, to_label as int),
    ensures
        r == label_energy(edge, from_label as int, to_label as int),
{
    let label_delta = to_label - from_label;
    let flow = edge.flow + edge.flow_sign * (label_delta - rounded_delta(edge));
    defo_edge_cost(edge.cost, edge.offset, edge.dzmax, edge.laycost, edge.nshortcycle, flow)
}

} // verus!
