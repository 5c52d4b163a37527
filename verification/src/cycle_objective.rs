//! What cancelling a residual cycle does to the flow objective.
use vstd::prelude::*;
use crate::edges::{corrected, corrected_datum, edge_cost_at, EdgeDatum};
use crate::flow_schedule::seq_flow_cost;
use crate::residual::{apply_arc_spec, apply_cycle_spec, cycle_cost_spec, edge_at, ResidualArc};

verus! {

/// Cost of one edge slot at its current flow (0 when absent).
pub open spec fn slot_cost(o: Option<EdgeDatum>) -> int {
    match o {
        Some(e) => edge_cost_at(e, e.flow as int),
        None => 0,
    }
}

/// The flow objective of both edge families.
pub open spec fn flow_objective(h: Seq<Option<EdgeDatum>>, v: Seq<Option<EdgeDatum>>) -> int {
    seq_flow_cost(h) + seq_flow_cost(v)
}

/// Replacing one slot changes the family's cost by the change of that slot.
pub proof fn lemma_flow_cost_update(s: Seq<Option<EdgeDatum>>, i: int, x: Option<EdgeDatum>)
    requires
        0 <= i < s.len(),
    ensures
        seq_flow_cost(s.update(i, x)) == seq_flow_cost(s) - slot_cost(s[i]) + slot_cost(x),
    decreases s.len(),
{
    let t = s.update(i, x);
    if i == s.len() - 1 {
        assert(t.drop_last() =~= s.drop_last());
    } else {
        assert(t.drop_last() =~= s.drop_last().update(i, x));
        lemma_flow_cost_update(s.drop_last(), i, x);
    }
}

/// Arc `a` names a present edge of the state `(h, v)` with flow sign 1 or
/// -1, moves its flow by one step inside `i32`, and its cost is exactly the
/// change of that edge's cost.
pub open spec fn arc_prices_exactly(h: Seq<Option<EdgeDatum>>, v: Seq<Option<EdgeDatum>>, a: ResidualArc) -> bool {
    let ei = a.edge_index as int;
    let d = a.correction_delta as int;
    &&& (if a.is_horizontal { 0 <= ei < h.len() } else { 0 <= ei < v.len() })
    &&& edge_at(h, v, a.is_horizontal, ei) matches Some(e) && {
        &&& e.flow_sign == 1 || e.flow_sign == -1
        &&& i32::MIN <= e.flow + e.flow_sign * d <= i32::MAX
        &&& a.cost == edge_cost_at(e, e.flow + e.flow_sign * d) - edge_cost_at(e, e.flow as int)
    }
}

/// The arcs of `cycle` at positions `i < j` lie on different edges.
pub open spec fn distinct_edges(arcs: Seq<ResidualArc>, cycle: Seq<usize>) -> bool {
    forall|i: int, j: int|
        0 <= i < j < cycle.len() ==> (#[trigger] arcs[cycle[i] as int]).is_horizontal != (#[trigger] arcs[cycle[j] as int]).is_horizontal
            || arcs[cycle[i] as int].edge_index != arcs[cycle[j] as int].edge_index
}

/// One arc changes the objective by its cost.
proof fn lemma_arc_objective(h: Seq<Option<EdgeDatum>>, v: Seq<Option<EdgeDatum>>, a: ResidualArc)
    requires
        arc_prices_exactly(h, v, a),
    ensures
        flow_objective(apply_arc_spec(h, v, a).0, apply_arc_spec(h, v, a).1) == flow_objective(h, v) + a.cost,
{
    let ei = a.edge_index as int;
    let d = a.correction_delta as int;
    let e = edge_at(h, v, a.is_horizontal, ei).unwrap();
    let c = corrected_datum(e, d);
    assert(c.flow == e.flow + e.flow_sign * d);
    assert(edge_cost_at(c, c.flow as int) == edge_cost_at(e, e.flow + e.flow_sign * d));
    assert(slot_cost(Some(c)) - slot_cost(Some(e)) == a.cost);
    if a.is_horizontal {
        assert(corrected(h[ei], d) == Some(c));
        lemma_flow_cost_update(h, ei, corrected(h[ei], d));
    } else {
        assert(corrected(v[ei], d) == Some(c));
        lemma_flow_cost_update(v, ei, corrected(v[ei], d));
    }
}

/// Arc `a` names an edge slot that exists in families of lengths `hl` and `vl`.
pub open spec fn arc_in_range(hl: int, vl: int, a: ResidualArc) -> bool {
    if a.is_horizontal { 0 <= a.edge_index < hl } else { 0 <= a.edge_index < vl }
}

/// Arcs on edges that no earlier arc touched still see the edges of the
/// starting state.
proof fn lemma_untouched(
    h: Seq<Option<EdgeDatum>>,
    v: Seq<Option<EdgeDatum>>,
    arcs: Seq<ResidualArc>,
    cycle: Seq<usize>,
    k: int,
    is_h: bool,
    ei: int,
)
    requires
        0 <= k <= cycle.len(),
        if is_h { 0 <= ei < h.len() } else { 0 <= ei < v.len() },
        forall|i: int| 0 <= i < k ==> arc_in_range(h.len() as int, v.len() as int, #[trigger] arcs[cycle[i] as int]),
        forall|i: int| 0 <= i < k ==> (#[trigger] arcs[cycle[i] as int]).is_horizontal != is_h || arcs[cycle[i] as int].edge_index != ei,
    ensures
        apply_cycle_spec(h, v, arcs, cycle, k).0.len() == h.len(),
        apply_cycle_spec(h, v, arcs, cycle, k).1.len() == v.len(),
        edge_at(apply_cycle_spec(h, v, arcs, cycle, k).0, apply_cycle_spec(h, v, arcs, cycle, k).1, is_h, ei)
            == edge_at(h, v, is_h, ei),
    decreases k,
{
    if k > 0 {
        lemma_untouched(h, v, arcs, cycle, k - 1, is_h, ei);
        let a = arcs[cycle[k - 1] as int];
        assert(arc_in_range(h.len() as int, v.len() as int, a));
        assert(a.is_horizontal != is_h || a.edge_index != ei);
    }
}

/// Applying a cycle of arcs on distinct edges, each pricing its edge
/// exactly, changes the flow objective by the cycle's cost.
proof fn lemma_cycle_objective_upto(
    h: Seq<Option<EdgeDatum>>,
    v: Seq<Option<EdgeDatum>>,
    arcs: Seq<ResidualArc>,
    cycle: Seq<usize>,
    k: int,
)
    requires
        0 <= k <= cycle.len(),
        forall|i: int| 0 <= i < cycle.len() ==> arc_prices_exactly(h, v, #[trigger] arcs[cycle[i] as int]),
        distinct_edges(arcs, cycle),
    ensures
        flow_objective(apply_cycle_spec(h, v, arcs, cycle, k).0, apply_cycle_spec(h, v, arcs, cycle, k).1)
            == flow_objective(h, v) + cycle_cost_spec(arcs, cycle, k),
    decreases k,
{
    if k > 0 {
        lemma_cycle_objective_upto(h, v, arcs, cycle, k - 1);
        let a = arcs[cycle[k - 1] as int];
        assert forall|i: int| 0 <= i < k - 1 implies (#[trigger] arcs[cycle[i] as int]).is_horizontal != a.is_horizontal
            || arcs[cycle[i] as int].edge_index != a.edge_index by {
            assert(distinct_edges(arcs, cycle));
            assert(arcs[cycle[i] as int] == arcs[cycle[i] as int] && arcs[cycle[k - 1] as int] == a);
        }
        assert forall|i: int| 0 <= i < k - 1 implies arc_in_range(h.len() as int, v.len() as int, #[trigger] arcs[cycle[i] as int]) by {
            assert(arc_prices_exactly(h, v, arcs[cycle[i] as int]));
        }
        assert(arc_prices_exactly(h, v, a));
        lemma_untouched(h, v, arcs, cycle, k - 1, a.is_horizontal, a.edge_index as int);
        let prev = apply_cycle_spec(h, v, arcs, cycle, k - 1);
        assert(arc_prices_exactly(h, v, a));
        assert(arc_prices_exactly(prev.0, prev.1, a));
        lemma_arc_objective(prev.0, prev.1, a);
    }
}

/// Cancelling a cycle lowers the flow objective by its cost: when the arcs
/// of `cycle` lie on distinct edges of the state `(h, v)` and each prices
/// its edge exactly (a step of one cycle, an edge of flow sign 1 or -1, no
/// clamped cost), the edges after the cycle's corrections have flow
/// objective `flow_objective(h, v) + cycle cost`; a negative cycle lowers it.
/// (The cycle keeps every residue: see `law_cycle_preserves_residues`.)
pub proof fn law_cycle_changes_objective_by_cost(
    h: Seq<Option<EdgeDatum>>,
    v: Seq<Option<EdgeDatum>>,
    arcs: Seq<ResidualArc>,
    cycle: Seq<usize>,
)
    requires
        forall|i: int| 0 <= i < cycle.len() ==> (#[trigger] cycle[i] as int) < arcs.len(),
        forall|i: int| 0 <= i < cycle.len() ==> arc_prices_exactly(h, v, #[trigger] arcs[cycle[i] as int]),
        distinct_edges(arcs, cycle),
    ensures
        flow_objective(
            apply_cycle_spec(h, v, arcs, cycle, cycle.len() as int).0,
            apply_cycle_spec(h, v, arcs, cycle, cycle.len() as int).1,
        ) == flow_objective(h, v) + cycle_cost_spec(arcs, cycle, cycle.len() as int),
        cycle_cost_spec(arcs, cycle, cycle.len() as int) < 0 ==> flow_objective(
            apply_cycle_spec(h, v, arcs, cycle, cycle.len() as int).0,
            apply_cycle_spec(h, v, arcs, cycle, cycle.len() as int).1,
        ) < flow_objective(h, v),
{
    lemma_cycle_objective_upto(h, v, arcs, cycle, cycle.len() as int);
}

} // verus!
