//! Incremental costs of pushing `nflow` more or fewer cycles through an edge.
use vstd::prelude::*;
use crate::edges::{
    abs_int, defo_edge_cost, dz_spec, edge_cost_at, edge_dz_ok, in_i32, lemma_cost_range,
    EdgeDatum, DZ_LIMIT,
};

verus! {

/// Costs of raising (`pos`) and lowering (`neg`) an edge's flow by one step.
#[derive(Clone, Copy, Debug, PartialEq, Eq)]
pub struct IncrementalCost {
    pub pos: i16,
    pub neg: i16,
}

pub open spec fn clamp_short(x: int) -> int {
    if x < -32000 { -32000 } else if x > 32000 { 32000 } else { x }
}

/// A cost change divided by `nflow^2`, rounded up when it is positive and
/// down when it is negative, then clipped to `[-32000, 32000]`.
pub open spec fn scale_spec(value: int, nflow: int) -> int {
    let d = nflow * nflow;
    clamp_short(if value >= 0 { (value + d - 1) / d } else { value / d })
}

/// Scaling `value` by `nflow` stays within `i64`.
pub open spec fn scale_ok(value: int, nflow: int) -> bool {
    &&& 1 <= nflow <= i32::MAX
    &&& i64::MIN < value
    &&& value + nflow * nflow - 1 <= i64::MAX
}

/// The step that a requested `nflow` stands for.
pub open spec fn step_of(nflow: int) -> int {
    let a = abs_int(nflow);
    if a >= 1 { a } else { 1 }
}

pub open spec fn incr_pos_spec(e: EdgeDatum, n: int) -> int {
    edge_cost_at(e, e.flow + n) - edge_cost_at(e, e.flow as int)
}

pub open spec fn incr_neg_spec(e: EdgeDatum, n: int) -> int {
    edge_cost_at(e, e.flow - n) - edge_cost_at(e, e.flow as int)
}

/// The incremental costs of `e` for a step of `n` cycles.
pub open spec fn incremental_spec(e: EdgeDatum, n: int) -> IncrementalCost {
    IncrementalCost {
        pos: scale_spec(incr_pos_spec(e, n), n) as i16,
        neg: scale_spec(incr_neg_spec(e, n), n) as i16,
    }
}

/// What a scaled cost change is: within `[-32000, 32000]`, of the same sign
/// as the change, and, unless clipped, at least the change per `nflow^2`
/// when the change rises and at most it when the change falls.
pub proof fn lemma_scale_meaning(value: int, n: int)
    requires
        1 <= n,
    ensures
        -32000 <= scale_spec(value, n) <= 32000,
        (scale_spec(value, n) > 0) == (value > 0),
        (scale_spec(value, n) < 0) == (value < 0),
        value >= 0 && scale_spec(value, n) < 32000 ==> scale_spec(value, n) * (n * n) >= value,
        value < 0 && scale_spec(value, n) > -32000 ==> scale_spec(value, n) * (n * n) <= value,
        n == 1 ==> scale_spec(value, n) == clamp_short(value),
{
    let d = n * n;
    assert(d >= 1) by (nonlinear_arith)
        requires
            1 <= n,
            d == n * n,
    ;
    if value >= 0 {
        let q = (value + d - 1) / d;
        vstd::arithmetic::div_mod::lemma_fundamental_div_mod(value + d - 1, d);
        let r = (value + d - 1) % d;
        assert(q * d == d * q) by (nonlinear_arith);
        assert(q * d >= value);
        if value > 0 {
            assert(q >= 1) by (nonlinear_arith)
                requires
                    q * d + r == value + d - 1,
                    0 <= r < d,
                    value > 0,
                    d >= 1,
            ;
        } else {
            assert(q == 0) by (nonlinear_arith)
                requires
                    q * d + r == d - 1,
                    0 <= r < d,
                    d >= 1,
            ;
        }
    } else {
        let q = value / d;
        vstd::arithmetic::div_mod::lemma_fundamental_div_mod(value, d);
        assert(q * d == d * q) by (nonlinear_arith);
        assert(q < 0) by (nonlinear_arith)
            requires
                q * d + value % d == value,
                0 <= value % d < d,
                value < 0,
                d >= 1,
        ;
    }
    if n == 1 {
        assert(d == 1);
        vstd::arithmetic::div_mod::lemma_fundamental_div_mod(value, 1);
        assert(value / 1 == value);
    }
}

/// The incremental costs of an edge mean what they say: each lies in
/// `[-32000, 32000]`; `pos` has the sign of the cost change when the flow
/// rises by `n` and `neg` that of the change when it falls by `n`; unclipped,
/// each is at least the change per `n^2` when the change is an increase and
/// at most it when a decrease; for `n == 1` each is that change, clipped.
pub proof fn law_incremental_costs(e: EdgeDatum, n: int)
    requires
        1 <= n,
    ensures
        ({
            let up = edge_cost_at(e, e.flow + n) - edge_cost_at(e, e.flow as int);
            let down = edge_cost_at(e, e.flow - n) - edge_cost_at(e, e.flow as int);
            let c = incremental_spec(e, n);
            &&& -32000 <= c.pos <= 32000
            &&& -32000 <= c.neg <= 32000
            &&& (c.pos > 0) == (up > 0) && (c.pos < 0) == (up < 0)
            &&& (c.neg > 0) == (down > 0) && (c.neg < 0) == (down < 0)
            &&& up >= 0 && c.pos < 32000 ==> c.pos * (n * n) >= up
            &&& up < 0 && c.pos > -32000 ==> c.pos * (n * n) <= up
            &&& down >= 0 && c.neg < 32000 ==> c.neg * (n * n) >= down
            &&& down < 0 && c.neg > -32000 ==> c.neg * (n * n) <= down
            &&& n == 1 ==> c.pos == clamp_short(up) && c.neg == clamp_short(down)
        }),
{
    let up = edge_cost_at(e, e.flow + n) - edge_cost_at(e, e.flow as int);
    let down = edge_cost_at(e, e.flow - n) - edge_cost_at(e, e.flow as int);
    lemma_scale_meaning(up, n);
    lemma_scale_meaning(down, n);
    assert(incremental_spec(e, n).pos == scale_spec(up, n));
    assert(incremental_spec(e, n).neg == scale_spec(down, n));
}

/// Every computation of the incremental costs for a step of `n` stays in range.
pub open spec fn incremental_ok(e: EdgeDatum, n: int) -> bool {
    &&& 1 <= n <= i32::MAX
    &&& in_i32(e.flow + n)
    &&& in_i32(e.flow - n)
    &&& edge_dz_ok(e, e.flow as int)
    &&& edge_dz_ok(e, e.flow + n)
    &&& edge_dz_ok(e, e.flow - n)
    &&& scale_ok(incr_pos_spec(e, n), n)
    &&& scale_ok(incr_neg_spec(e, n), n)
}

proof fn lemma_square_bound(n: int)
    requires
        1 <= n <= i32::MAX,
    ensures
        1 <= n * n <= 0x4000_0000_0000_0000,
{
    assert(1 <= n * n <= 0x4000_0000_0000_0000) by (nonlinear_arith)
        requires
            1 <= n <= 0x7fff_ffff,
    ;
}

/// Divides a cost change by `nflow^2` (up for gains, down for savings) and
/// clips the result to the short range.
pub fn scale_increment(value: i64, nflow: i32) -> (r: i16)
    requires
        scale_ok(value as int, nflow as int),
    ensures
        r == scale_spec(value as int, nflow as int),
{
    proof {
        lemma_square_bound(nflow as int);
    }
    let divisor: i64 = (nflow as i64) * (nflow as i64);
    let scaled: i64 = if value >= 0 {
        (value + (divisor - 1)) / divisor
    } else {
        match value.checked_div_euclid(divisor) {
            Some(q) => q,
            None => {
                assert(false) by (nonlinear_arith)
                    requires
                        value < 0,
                        divisor >= 1,
                        i64::MIN < value,
                        !(i64::MIN <= (value as int) / (divisor as int) <= i64::MAX),
                ;
                0
            },
        }
    };
    if scaled < -32000 {
        -32000
    } else if scaled > 32000 {
        32000
    } else {
        scaled as i16
    }
}

/// Costs of moving the edge's flow `nflow` cycles up and down, each scaled by
/// `nflow^2` and clipped as `scale_increment` does.
pub fn defo_incremental_costs(edge: EdgeDatum, nflow: i32) -> (r: IncrementalCost)
    requires
        nflow != i32::MIN,
        incremental_ok(edge, step_of(nflow as int)),
    ensures
        r == incremental_spec(edge, step_of(nflow as int)),
        (r.pos > 0) == (edge_cost_at(edge, edge.flow + step_of(nflow as int)) > edge_cost_at(edge, edge.flow as int)),
        (r.pos < 0) == (edge_cost_at(edge, edge.flow + step_of(nflow as int)) < edge_cost_at(edge, edge.flow as int)),
        (r.neg > 0) == (edge_cost_at(edge, edge.flow - step_of(nflow as int)) > edge_cost_at(edge, edge.flow as int)),
        (r.neg < 0) == (edge_cost_at(edge, edge.flow - step_of(nflow as int)) < edge_cost_at(edge, edge.flow as int)),
{
    proof {
        law_incremental_costs(edge, step_of(nflow as int));
    }
    let a = if nflow < 0 { -nflow } else { nflow };
    let nflow = if a >= 1 { a } else { 1 };
    let base = defo_edge_cost(
        edge.cost,
        edge.offset,
        edge.dzmax,
        edge.laycost,
        edge.nshortcycle,
        edge.flow,
    );
    let up = defo_edge_cost(
        edge.cost,
        edge.offset,
        edge.dzmax,
        edge.laycost,
        edge.nshortcycle,
        edge.flow + nflow,
    );
    let down = defo_edge_cost(
        edge.cost,
        edge.offset,
        edge.dzmax,
        edge.laycost,
        edge.nshortcycle,
        edge.flow - nflow,
    );
    proof {
        lemma_cost_range(edge, edge.flow as int);
        lemma_cost_range(edge, edge.flow + nflow);
        lemma_cost_range(edge, edge.flow - nflow);
    }
    let pos = up - base;
    let neg = down - base;
    IncrementalCost { pos: scale_increment(pos, nflow), neg: scale_increment(neg, nflow) }
}

/// `|flow * nshortcycle + offset|`, computed exactly.
pub fn dz_exact(e: EdgeDatum, flow: i64) -> (r: i128)
    requires
        -0x1_0000_0000 <= flow <= 0x1_0000_0000,
    ensures
        r == dz_spec(e.nshortcycle as int, e.offset as int, flow as int),
{
    assert(-0x80_0000_0000_0000_0000 <= (flow as int) * (e.nshortcycle as int) <= 0x80_0000_0000_0000_0000)
        by (nonlinear_arith)
        requires
            -0x1_0000_0000 <= flow <= 0x1_0000_0000,
            -0x8000_0000 <= e.nshortcycle <= 0x7fff_ffff,
    ;
    let raw: i128 = (flow as i128) * (e.nshortcycle as i128) + (e.offset as i128);
    if raw < 0 { -raw } else { raw }
}

/// Whether every computation of `defo_incremental_costs` for a step of `n`
/// stays in range.
pub fn incremental_in_range(e: EdgeDatum, n: i32) -> (r: bool)
    requires
        1 <= n,
    ensures
        r == incremental_ok(e, n as int),
{
    let up: i64 = e.flow as i64 + n as i64;
    let down: i64 = e.flow as i64 - n as i64;
    if up > i32::MAX as i64 || down < i32::MIN as i64 {
        return false;
    }
    if dz_exact(e, e.flow as i64) > DZ_LIMIT as i128 || dz_exact(e, up) > DZ_LIMIT as i128
        || dz_exact(e, down) > DZ_LIMIT as i128 {
        return false;
    }
    let base = defo_edge_cost(e.cost, e.offset, e.dzmax, e.laycost, e.nshortcycle, e.flow);
    let c_up = defo_edge_cost(e.cost, e.offset, e.dzmax, e.laycost, e.nshortcycle, up as i32);
    let c_down = defo_edge_cost(e.cost, e.offset, e.dzmax, e.laycost, e.nshortcycle, down as i32);
    proof {
        lemma_cost_range(e, e.flow as int);
        lemma_cost_range(e, up as int);
        lemma_cost_range(e, down as int);
        lemma_square_bound(n as int);
    }
    let pos: i128 = c_up as i128 - base as i128;
    let neg: i128 = c_down as i128 - base as i128;
    let sq: i128 = (n as i128) * (n as i128);
    pos > i64::MIN as i128 && pos + sq - 1 <= i64::MAX as i128 && neg > i64::MIN as i128 && neg
        + sq - 1 <= i64::MAX as i128
}

} // verus!
