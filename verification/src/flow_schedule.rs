//! The flow-step schedule and the cycle budgets of the flow optimizer.
use vstd::prelude::*;
use crate::edges::{abs_int, defo_edge_cost, edge_cost_at, edge_dz_ok, EdgeDatum};

verus! {

/// Largest flow step that the optimizer tries.
pub const DEFAULT_MAX_FLOW: i32 = 4;
/// Smallest cycle budget of one flow step.
pub const MIN_FLOW_TREE_CYCLE_LIMIT: usize = 28;
/// Dual-node count up to which capped batches keep going.
pub const FLOW_BATCH_CONTINUE_NODE_LIMIT: usize = 8192;
/// Number of capped batches allowed on larger grids.
pub const LARGE_FLOW_BATCH_LIMIT: usize = 3;
/// One cycle is allowed per this many grid cells.
pub const CELLS_PER_CYCLE: u128 = 100000;

/// The largest flow step tried when the largest flow seen is `most_flow`.
pub open spec fn flow_upper(most_flow: int) -> int {
    if most_flow < 1 { 1 } else if most_flow > 4 { 4 } else { most_flow }
}

/// Flow steps `1, 2, ..., min(max(most_flow, 1), 4)`, in increasing order.
pub fn snaphu_flow_increments(most_flow: i32) -> (r: Vec<i32>)
    ensures
        r@.len() == flow_upper(most_flow as int),
        forall|i: int| 0 <= i < r@.len() ==> r@[i] == i + 1,
{
    let upper: i32 = if most_flow < 1 {
        1
    } else if most_flow > DEFAULT_MAX_FLOW {
        DEFAULT_MAX_FLOW
    } else {
        most_flow
    };
    let mut out: Vec<i32> = Vec::new();
    let mut step: i32 = 1;
    while step <= upper
        invariant
            1 <= step <= upper + 1,
            upper == flow_upper(most_flow as int),
            out@.len() == step - 1,
            forall|i: int| 0 <= i < out@.len() ==> out@[i] == i + 1,
        decreases upper + 1 - step,
    {
        out.push(step);
        step = step + 1;
    }
    out
}

/// The step that follows `nflow`: one more, or back to 1 once the step
/// reaches the default maximum or the largest flow seen (or is not positive).
pub open spec fn next_flow_spec(nflow: int, most_flow: int) -> int {
    if nflow < 1 || nflow >= 4 || nflow >= most_flow { 1 } else { nflow + 1 }
}

/// The next flow step after `nflow` when the largest flow seen is `most_flow`.
pub fn next_flow_increment(nflow: i32, most_flow: i32) -> (r: i32)
    ensures
        r == next_flow_spec(nflow as int, most_flow as int),
        1 <= r <= 4,
{
    if nflow >= DEFAULT_MAX_FLOW || nflow >= most_flow {
        1
    } else if nflow < 1 {
        1
    } else {
        nflow + 1
    }
}

/// `ceil(nrow * ncol / 100000)`, at least 1, at most `usize::MAX`.
pub open spec fn max_nflow_cycles_spec(nrow: int, ncol: int) -> int {
    let c = (nrow * ncol + 99999) / 100000;
    if c < 1 { 1 } else if c > usize::MAX { usize::MAX as int } else { c }
}

/// How many cycles one flow step may cancel on an `nrow` by `ncol` grid.
pub fn snaphu_max_nflow_cycles(nrow: usize, ncol: usize) -> (r: usize)
    ensures
        r == max_nflow_cycles_spec(nrow as int, ncol as int),
{
    assert((nrow as int) * (ncol as int) <= (usize::MAX as int) * (usize::MAX as int))
        by (nonlinear_arith)
        requires
            0 <= nrow <= usize::MAX,
            0 <= ncol <= usize::MAX,
    ;
    assert((nrow as int) * (ncol as int) >= 0) by (nonlinear_arith)
        requires
            0 <= nrow,
            0 <= ncol,
    ;
    let cells: u128 = (nrow as u128) * (ncol as u128);
    let c: u128 = (cells + 99999) / CELLS_PER_CYCLE;
    if c < 1 {
        1
    } else if c > usize::MAX as u128 {
        usize::MAX
    } else {
        c as usize
    }
}

/// The cycle budget of one flow-step batch: four times the cycle allowance,
/// at least 28.
pub open spec fn tree_cycle_limit_spec(nrow: int, ncol: int) -> int {
    let c = max_nflow_cycles_spec(nrow, ncol) * 4;
    if c < 28 { 28 } else { c }
}

/// The per-batch cycle budget of the flow optimizer.
pub fn snaphu_flow_tree_cycle_limit(nrow: usize, ncol: usize) -> (r: usize)
    requires
        max_nflow_cycles_spec(nrow as int, ncol as int) * 4 <= usize::MAX,
    ensures
        r == tree_cycle_limit_spec(nrow as int, ncol as int),
{
    let c = snaphu_max_nflow_cycles(nrow, ncol) * 4;
    if c < MIN_FLOW_TREE_CYCLE_LIMIT {
        MIN_FLOW_TREE_CYCLE_LIMIT
    } else {
        c
    }
}

/// Number of nodes of the dual grid: one per plaquette plus the ground node.
pub open spec fn dual_node_count(nrow: int, ncol: int) -> int {
    let prn = if nrow >= 1 { nrow - 1 } else { 0 };
    let pcn = if ncol >= 1 { ncol - 1 } else { 0 };
    prn * pcn + 1
}

/// Whether batches that hit the cycle budget keep going (small dual grids).
pub fn snaphu_continue_capped_batches(nrow: usize, ncol: usize) -> (r: bool)
    requires
        dual_node_count(nrow as int, ncol as int) <= usize::MAX,
    ensures
        r == (dual_node_count(nrow as int, ncol as int) <= 8192),
{
    let prn = if nrow >= 1 { nrow - 1 } else { 0 };
    let pcn = if ncol >= 1 { ncol - 1 } else { 0 };
    prn * pcn + 1 <= FLOW_BATCH_CONTINUE_NODE_LIMIT
}

/// How many capped batches one flow step may run.
pub fn snaphu_capped_batch_limit(nrow: usize, ncol: usize) -> (r: usize)
    requires
        dual_node_count(nrow as int, ncol as int) <= usize::MAX,
    ensures
        r == (if dual_node_count(nrow as int, ncol as int) <= 8192 {
            usize::MAX as int
        } else {
            3
        }),
{
    if snaphu_continue_capped_batches(nrow, ncol) {
        usize::MAX
    } else {
        LARGE_FLOW_BATCH_LIMIT
    }
}

/// Largest `|flow|` among the present edges of `s`, or -1 when none is present.
pub open spec fn seq_max_abs_flow(s: Seq<Option<EdgeDatum>>) -> int
    decreases s.len(),
{
    if s.len() == 0 {
        -1
    } else {
        let rest = seq_max_abs_flow(s.drop_last());
        match s.last() {
            Some(e) => {
                let a = abs_int(e.flow as int);
                if a > rest { a } else { rest }
            },
            None => rest,
        }
    }
}

pub open spec fn max_abs_flow_spec(h: Seq<Option<EdgeDatum>>, v: Seq<Option<EdgeDatum>>) -> int {
    let a = seq_max_abs_flow(h);
    let b = seq_max_abs_flow(v);
    let m = if a > b { a } else { b };
    if m < 0 { 1 } else { m }
}

pub open spec fn no_min_flow(s: Seq<Option<EdgeDatum>>) -> bool {
    forall|i: int| 0 <= i < s.len() ==> (#[trigger] s[i] matches Some(e) ==> e.flow != i32::MIN)
}

fn seq_max_abs_flow_exec(s: &[Option<EdgeDatum>]) -> (r: i32)
    requires
        no_min_flow(s@),
    ensures
        r == seq_max_abs_flow(s@),
{
    let mut best: i32 = -1;
    let mut i: usize = 0;
    while i < s.len()
        invariant
            i <= s@.len(),
            no_min_flow(s@),
            best == seq_max_abs_flow(s@.subrange(0, i as int)),
        decreases s.len() - i,
    {
        proof {
            assert(s@.subrange(0, i + 1).drop_last() =~= s@.subrange(0, i as int));
        }
        if let Some(e) = s[i] {
            let a = if e.flow < 0 { -e.flow } else { e.flow };
            if a > best {
                best = a;
            }
        }
        i = i + 1;
    }
    assert(s@.subrange(0, s@.len() as int) =~= s@);
    best
}

/// The largest absolute flow on any present edge, or 1 when no edge is present.
pub fn max_abs_edge_flow(horizontal: &[Option<EdgeDatum>], vertical: &[Option<EdgeDatum>]) -> (r: i32)
    requires
        no_min_flow(horizontal@),
        no_min_flow(vertical@),
    ensures
        r == max_abs_flow_spec(horizontal@, vertical@),
{
    let a = seq_max_abs_flow_exec(horizontal);
    let b = seq_max_abs_flow_exec(vertical);
    let m = if a > b { a } else { b };
    if m < 0 { 1 } else { m }
}

/// Total cost of the present edges of `s` at their current flows.
pub open spec fn seq_flow_cost(s: Seq<Option<EdgeDatum>>) -> int
    decreases s.len(),
{
    if s.len() == 0 {
        0
    } else {
        seq_flow_cost(s.drop_last()) + match s.last() {
            Some(e) => edge_cost_at(e, e.flow as int),
            None => 0,
        }
    }
}

pub open spec fn in_i64(x: int) -> bool {
    i64::MIN <= x <= i64::MAX
}

/// Every present edge's cost at its flow can be computed.
pub open spec fn flows_priced(s: Seq<Option<EdgeDatum>>) -> bool {
    forall|i: int| 0 <= i < s.len() ==> (#[trigger] s[i] matches Some(e) ==> edge_dz_ok(e, e.flow as int))
}

/// Adding the costs of `s` one by one to `base` stays within `i64`.
pub open spec fn running_sum_fits(base: int, s: Seq<Option<EdgeDatum>>) -> bool {
    forall|k: int| 0 <= k <= s.len() ==> in_i64(base + seq_flow_cost(#[trigger] s.take(k)))
}

fn add_flow_costs(s: &[Option<EdgeDatum>], base: i64) -> (r: i64)
    requires
        flows_priced(s@),
        running_sum_fits(base as int, s@),
    ensures
        r == base + seq_flow_cost(s@),
{
    let mut total = base;
    let mut i: usize = 0;
    proof {
        assert(s@.take(0) =~= Seq::<Option<EdgeDatum>>::empty());
    }
    while i < s.len()
        invariant
            i <= s@.len(),
            flows_priced(s@),
            running_sum_fits(base as int, s@),
            total == base + seq_flow_cost(s@.take(i as int)),
        decreases s.len() - i,
    {
        proof {
            assert(s@.take(i + 1).drop_last() =~= s@.take(i as int));
            assert(in_i64(base + seq_flow_cost(s@.take(i + 1))));
        }
        if let Some(e) = s[i] {
            total = total + defo_edge_cost(e.cost, e.offset, e.dzmax, e.laycost, e.nshortcycle, e.flow);
        }
        i = i + 1;
    }
    assert(s@.take(s@.len() as int) =~= s@);
    total
}

/// Total cost of all present edges at their current flows, the horizontal
/// edges first. `requires` keeps every running total within `i64`.
pub fn edge_flow_objective(horizontal: &[Option<EdgeDatum>], vertical: &[Option<EdgeDatum>]) -> (r: i64)
    requires
        flows_priced(horizontal@),
        flows_priced(vertical@),
        running_sum_fits(0, horizontal@),
        running_sum_fits(seq_flow_cost(horizontal@), vertical@),
    ensures
        r == seq_flow_cost(horizontal@) + seq_flow_cost(vertical@),
{
    let a = add_flow_costs(horizontal, 0);
    add_flow_costs(vertical, a)
}

} // verus!
