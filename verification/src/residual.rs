//! The residual graph over the dual grid: one node per plaquette plus a ground
//! node, and for every present edge a pair of opposite arcs that move the
//! edge's flow by one step in either direction.
use vstd::prelude::*;
use crate::edges::{abs_int, apply_edge_correction, correction_ok, corrected, in_i32, EdgeDatum};
use crate::flow_schedule::dual_node_count;
use crate::incr_cost::{
    defo_incremental_costs, incremental_in_range, incremental_ok, incremental_spec, step_of,
};

verus! {

/// One directed arc of the residual graph.
#[derive(Clone, Copy, Debug, PartialEq, Eq)]
pub struct ResidualArc {
    pub from: usize,
    pub to: usize,
    pub cost: i32,
    pub is_horizontal: bool,
    pub edge_index: usize,
    pub correction_delta: i32,
}

pub open spec fn h_len(nrow: int, ncol: int) -> int {
    nrow * (if ncol >= 1 { ncol - 1 } else { 0 })
}

pub open spec fn v_len(nrow: int, ncol: int) -> int {
    (if nrow >= 1 { nrow - 1 } else { 0 }) * ncol
}

/// Edge arrays of the right size for an `nrow` by `ncol` grid.
pub open spec fn grid_ok(
    h: Seq<Option<EdgeDatum>>,
    v: Seq<Option<EdgeDatum>>,
    nrow: int,
    ncol: int,
) -> bool {
    &&& h.len() == h_len(nrow, ncol)
    &&& v.len() == v_len(nrow, ncol)
}

/// Index of the ground node of the dual grid.
pub open spec fn ground_node(nrow: int, ncol: int) -> int {
    dual_node_count(nrow, ncol) - 1
}

/// Dual node from which the forward arc of an edge leaves.
pub open spec fn fwd_from(is_h: bool, ei: int, nrow: int, ncol: int) -> int {
    let g = ground_node(nrow, ncol);
    if is_h {
        if ei >= ncol - 1 { ei - (ncol - 1) } else { g }
    } else {
        let row = ei / ncol;
        let col = ei % ncol;
        if col == ncol - 1 { g } else { row * (ncol - 1) + col }
    }
}

/// Dual node at which the forward arc of an edge arrives.
pub open spec fn fwd_to(is_h: bool, ei: int, nrow: int, ncol: int) -> int {
    let g = ground_node(nrow, ncol);
    if is_h {
        if ei < g { ei } else { g }
    } else {
        let row = ei / ncol;
        let col = ei % ncol;
        if col == 0 { g } else { row * (ncol - 1) + col - 1 }
    }
}

pub open spec fn edge_at(
    h: Seq<Option<EdgeDatum>>,
    v: Seq<Option<EdgeDatum>>,
    is_h: bool,
    ei: int,
) -> Option<EdgeDatum> {
    if is_h { h[ei] } else { v[ei] }
}

/// Cost of an arc that corrects `e` by `d`.
pub open spec fn arc_cost_spec(e: EdgeDatum, d: int) -> int {
    let fd = e.flow_sign * d;
    let c = incremental_spec(e, step_of(d));
    if fd > 0 { c.pos as int } else if fd < 0 { c.neg as int } else { 0 }
}

/// The arc of `e` (edge `ei` of the given family) in the forward or reverse direction.
pub open spec fn make_arc(
    is_h: bool,
    ei: int,
    e: EdgeDatum,
    forward: bool,
    nrow: int,
    ncol: int,
    step: int,
) -> ResidualArc {
    let f = fwd_from(is_h, ei, nrow, ncol);
    let t = fwd_to(is_h, ei, nrow, ncol);
    let d = if forward { step } else { -step };
    ResidualArc {
        from: (if forward { f } else { t }) as usize,
        to: (if forward { t } else { f }) as usize,
        cost: arc_cost_spec(e, d) as i32,
        is_horizontal: is_h,
        edge_index: ei as usize,
        correction_delta: d as i32,
    }
}

/// Arcs of the first `k` edges of one family, in index order, two per present edge.
pub open spec fn family_arcs(
    s: Seq<Option<EdgeDatum>>,
    is_h: bool,
    k: int,
    nrow: int,
    ncol: int,
    step: int,
) -> Seq<ResidualArc>
    decreases k,
{
    if k <= 0 {
        Seq::empty()
    } else {
        let prefix = family_arcs(s, is_h, k - 1, nrow, ncol, step);
        match s[k - 1] {
            Some(e) => prefix.push(make_arc(is_h, k - 1, e, true, nrow, ncol, step)).push(
                make_arc(is_h, k - 1, e, false, nrow, ncol, step),
            ),
            None => prefix,
        }
    }
}

/// The materialized residual graph: horizontal edges first, then vertical ones.
pub open spec fn residual_arcs_spec(
    h: Seq<Option<EdgeDatum>>,
    v: Seq<Option<EdgeDatum>>,
    nrow: int,
    ncol: int,
    step: int,
) -> Seq<ResidualArc> {
    if nrow < 2 || ncol < 2 {
        Seq::empty()
    } else {
        family_arcs(h, true, h.len() as int, nrow, ncol, step) + family_arcs(
            v,
            false,
            v.len() as int,
            nrow,
            ncol,
            step,
        )
    }
}

/// An edge whose arcs for a step of `step` can be priced without overflow.
pub open spec fn edge_arc_ok(e: EdgeDatum, step: int) -> bool {
    &&& in_i32(e.flow_sign * step)
    &&& in_i32(e.flow_sign * (-step))
    &&& incremental_ok(e, step)
}

pub open spec fn edges_arc_ok(s: Seq<Option<EdgeDatum>>, step: int) -> bool {
    forall|i: int| 0 <= i < s.len() ==> (#[trigger] s[i] matches Some(e) ==> edge_arc_ok(e, step))
}

/// An arc that belongs to the residual graph of the grid for a step of `step`:
/// it names an existing edge and runs between that edge's dual endpoints.
pub open spec fn arc_geom_ok(a: ResidualArc, nrow: int, ncol: int, step: int) -> bool {
    let f = fwd_from(a.is_horizontal, a.edge_index as int, nrow, ncol);
    let t = fwd_to(a.is_horizontal, a.edge_index as int, nrow, ncol);
    &&& nrow >= 2
    &&& ncol >= 2
    &&& 1 <= step <= i32::MAX
    &&& if a.is_horizontal {
        a.edge_index < h_len(nrow, ncol)
    } else {
        a.edge_index < v_len(nrow, ncol)
    }
    &&& ((a.from == f && a.to == t && a.correction_delta == step) || (a.from == t && a.to == f
        && a.correction_delta == -step))
}

/// Every arc of `arcs` belongs to the grid's residual graph and names a present edge.
pub open spec fn arcs_valid(
    arcs: Seq<ResidualArc>,
    h: Seq<Option<EdgeDatum>>,
    v: Seq<Option<EdgeDatum>>,
    nrow: int,
    ncol: int,
    step: int,
) -> bool {
    forall|i: int|
        0 <= i < arcs.len() ==> {
            &&& arc_geom_ok(#[trigger] arcs[i], nrow, ncol, step)
            &&& edge_at(h, v, arcs[i].is_horizontal, arcs[i].edge_index as int) is Some
        }
}

/// Cost of an arc that moves `edge`'s label difference by `correction_delta`:
/// the scaled incremental cost in the direction in which the flow moves.
pub fn residual_arc_cost(edge: EdgeDatum, correction_delta: i32) -> (r: i32)
    requires
        correction_delta != i32::MIN,
        in_i32(edge.flow_sign * correction_delta),
        incremental_ok(edge, step_of(correction_delta as int)),
    ensures
        r == arc_cost_spec(edge, correction_delta as int),
{
    let flow_delta = edge.flow_sign * correction_delta;
    let costs = defo_incremental_costs(edge, correction_delta);
    if flow_delta > 0 {
        costs.pos as i32
    } else if flow_delta < 0 {
        costs.neg as i32
    } else {
        0
    }
}

proof fn lemma_family_arcs_len(
    s: Seq<Option<EdgeDatum>>,
    is_h: bool,
    k: int,
    nrow: int,
    ncol: int,
    step: int,
)
    requires
        0 <= k,
    ensures
        family_arcs(s, is_h, k, nrow, ncol, step).len() <= 2 * k,
    decreases k,
{
    if k > 0 {
        lemma_family_arcs_len(s, is_h, k - 1, nrow, ncol, step);
    }
}

fn push_arc_pair(
    arcs: &mut Vec<ResidualArc>,
    from: usize,
    to: usize,
    is_horizontal: bool,
    edge_index: usize,
    edge: EdgeDatum,
    correction_step: i32,
)
    requires
        1 <= correction_step,
        edge_arc_ok(edge, correction_step as int),
    ensures
        final(arcs)@ == old(arcs)@.push(
            ResidualArc {
                from,
                to,
                cost: arc_cost_spec(edge, correction_step as int) as i32,
                is_horizontal,
                edge_index,
                correction_delta: correction_step,
            },
        ).push(
            ResidualArc {
                from: to,
                to: from,
                cost: arc_cost_spec(edge, -correction_step) as i32,
                is_horizontal,
                edge_index,
                correction_delta: (-correction_step) as i32,
            },
        ),
{
    arcs.push(
        ResidualArc {
            from,
            to,
            cost: residual_arc_cost(edge, correction_step),
            is_horizontal,
            edge_index,
            correction_delta: correction_step,
        },
    );
    arcs.push(
        ResidualArc {
            from: to,
            to: from,
            cost: residual_arc_cost(edge, -correction_step),
            is_horizontal,
            edge_index,
            correction_delta: -correction_step,
        },
    );
}

/// The residual graph for the unit step.
pub fn build_unit_residual_arcs(
    horizontal: &[Option<EdgeDatum>],
    vertical: &[Option<EdgeDatum>],
    nrow: usize,
    ncol: usize,
) -> (r: Vec<ResidualArc>)
    requires
        grid_ok(horizontal@, vertical@, nrow as int, ncol as int),
        edges_arc_ok(horizontal@, 1),
        edges_arc_ok(vertical@, 1),
    ensures
        r@ == residual_arcs_spec(horizontal@, vertical@, nrow as int, ncol as int, 1),
{
    build_residual_arcs_with_nflow(horizontal, vertical, nrow, ncol, 1)
}

/// The residual graph for a step of `|nflow|` (at least 1): for every present
/// horizontal edge in index order, then every present vertical edge, the
/// forward arc followed by its reverse.
pub fn build_residual_arcs_with_nflow(
    horizontal: &[Option<EdgeDatum>],
    vertical: &[Option<EdgeDatum>],
    nrow: usize,
    ncol: usize,
    nflow: i32,
) -> (r: Vec<ResidualArc>)
    requires
        nflow != i32::MIN,
        grid_ok(horizontal@, vertical@, nrow as int, ncol as int),
        edges_arc_ok(horizontal@, step_of(nflow as int)),
        edges_arc_ok(vertical@, step_of(nflow as int)),
    ensures
        r@ == residual_arcs_spec(
            horizontal@,
            vertical@,
            nrow as int,
            ncol as int,
            step_of(nflow as int),
        ),
{
    let prn = if nrow >= 1 { nrow - 1 } else { 0 };
    let pcn = if ncol >= 1 { ncol - 1 } else { 0 };
    if prn == 0 || pcn == 0 {
        return Vec::new();
    }
    let a = if nflow < 0 { -nflow } else { nflow };
    let correction_step = if a >= 1 { a } else { 1 };
    let ghost step = step_of(nflow as int);
    assert(prn * pcn <= nrow * pcn) by (nonlinear_arith)
        requires
            prn <= nrow,
            0 <= pcn,
    ;
    let hl = horizontal.len();
    assert(nrow * pcn == hl);
    assert(prn * pcn <= usize::MAX);
    let ground = prn * pcn;
    let mut arcs: Vec<ResidualArc> = Vec::new();
    let mut i: usize = 0;
    while i < horizontal.len()
        invariant
            i <= horizontal@.len(),
            nrow >= 2,
            ncol >= 2,
            pcn == ncol - 1,
            prn == nrow - 1,
            ground == ground_node(nrow as int, ncol as int),
            correction_step == step,
            step == step_of(nflow as int),
            1 <= step <= i32::MAX,
            edges_arc_ok(horizontal@, step),
            arcs@ == family_arcs(horizontal@, true, i as int, nrow as int, ncol as int, step),
        decreases horizontal.len() - i,
    {
        if let Some(edge) = horizontal[i] {
            assert(horizontal@[i as int] matches Some(e) ==> edge_arc_ok(e, step));
            let from = if i >= pcn { i - pcn } else { ground };
            let to = if i < ground { i } else { ground };
            push_arc_pair(&mut arcs, from, to, true, i, edge, correction_step);
        }
        i = i + 1;
    }
    let mut j: usize = 0;
    while j < vertical.len()
        invariant
            j <= vertical@.len(),
            nrow >= 2,
            ncol >= 2,
            pcn == ncol - 1,
            prn == nrow - 1,
            ground == ground_node(nrow as int, ncol as int),
            vertical@.len() == prn * ncol,
            correction_step == step,
            step == step_of(nflow as int),
            1 <= step <= i32::MAX,
            edges_arc_ok(vertical@, step),
            arcs@ == family_arcs(horizontal@, true, horizontal@.len() as int, nrow as int, ncol as int, step)
                + family_arcs(vertical@, false, j as int, nrow as int, ncol as int, step),
        decreases vertical.len() - j,
    {
        if let Some(edge) = vertical[j] {
            assert(vertical@[j as int] matches Some(e) ==> edge_arc_ok(e, step));
            let row = j / ncol;
            let col = j % ncol;
            assert(row < prn && row * pcn + col <= ground) by (nonlinear_arith)
                requires
                    row == j / ncol,
                    col == j % ncol,
                    j < prn * ncol,
                    ncol >= 2,
                    pcn == ncol - 1,
                    ground == prn * pcn,
            ;
            let from = if col == ncol - 1 { ground } else { row * pcn + col };
            let to = if col == 0 { ground } else { row * pcn + col - 1 };
            push_arc_pair(&mut arcs, from, to, false, j, edge, correction_step);
            proof {
                let fam = family_arcs(horizontal@, true, horizontal@.len() as int, nrow as int, ncol as int, step);
                assert(family_arcs(vertical@, false, j + 1, nrow as int, ncol as int, step)
                    == family_arcs(vertical@, false, j as int, nrow as int, ncol as int, step).push(
                        make_arc(false, j as int, edge, true, nrow as int, ncol as int, step)).push(
                        make_arc(false, j as int, edge, false, nrow as int, ncol as int, step)));
                assert(arcs@ =~= fam + family_arcs(vertical@, false, j + 1, nrow as int, ncol as int, step));
            }
        } else {
            proof {
                assert(family_arcs(vertical@, false, j + 1, nrow as int, ncol as int, step)
                    == family_arcs(vertical@, false, j as int, nrow as int, ncol as int, step));
            }
        }
        j = j + 1;
    }
    arcs
}

/// Every arc of the materialized residual graph belongs to the grid's residual
/// graph and names a present edge.
pub proof fn lemma_residual_arcs_valid(
    h: Seq<Option<EdgeDatum>>,
    v: Seq<Option<EdgeDatum>>,
    nrow: int,
    ncol: int,
    step: int,
)
    requires
        grid_ok(h, v, nrow, ncol),
        1 <= step <= i32::MAX,
        h.len() <= usize::MAX,
        v.len() <= usize::MAX,
    ensures
        arcs_valid(residual_arcs_spec(h, v, nrow, ncol, step), h, v, nrow, ncol, step),
{
    if nrow >= 2 && ncol >= 2 {
        lemma_family_valid(h, v, true, h.len() as int, nrow, ncol, step);
        lemma_family_valid(h, v, false, v.len() as int, nrow, ncol, step);
        let a = family_arcs(h, true, h.len() as int, nrow, ncol, step);
        let b = family_arcs(v, false, v.len() as int, nrow, ncol, step);
        assert forall|i: int| 0 <= i < (a + b).len() implies {
            &&& arc_geom_ok(#[trigger] (a + b)[i], nrow, ncol, step)
            &&& edge_at(h, v, (a + b)[i].is_horizontal, (a + b)[i].edge_index as int) is Some
        } by {
            if i < a.len() {
                assert((a + b)[i] == a[i]);
            } else {
                assert((a + b)[i] == b[i - a.len()]);
            }
        }
    }
}

proof fn lemma_family_valid(
    h: Seq<Option<EdgeDatum>>,
    v: Seq<Option<EdgeDatum>>,
    is_h: bool,
    k: int,
    nrow: int,
    ncol: int,
    step: int,
)
    requires
        grid_ok(h, v, nrow, ncol),
        nrow >= 2,
        ncol >= 2,
        1 <= step <= i32::MAX,
        0 <= k <= (if is_h { h.len() } else { v.len() }),
        h.len() <= usize::MAX,
        v.len() <= usize::MAX,
    ensures
        arcs_valid(
            family_arcs(if is_h { h } else { v }, is_h, k, nrow, ncol, step),
            h,
            v,
            nrow,
            ncol,
            step,
        ),
    decreases k,
{
    let s = if is_h { h } else { v };
    if k > 0 {
        lemma_family_valid(h, v, is_h, k - 1, nrow, ncol, step);
        let prefix = family_arcs(s, is_h, k - 1, nrow, ncol, step);
        let cur = family_arcs(s, is_h, k, nrow, ncol, step);
        assert forall|i: int| 0 <= i < cur.len() implies {
            &&& arc_geom_ok(#[trigger] cur[i], nrow, ncol, step)
            &&& edge_at(h, v, cur[i].is_horizontal, cur[i].edge_index as int) is Some
        } by {
            if i < prefix.len() {
                assert(cur[i] == prefix[i]);
            } else {
                lemma_fwd_bounds(is_h, k - 1, nrow, ncol);
                assert(ground_node(nrow, ncol) <= h.len()) by (nonlinear_arith)
                    requires
                        ground_node(nrow, ncol) == (nrow - 1) * (ncol - 1),
                        h.len() == nrow * (ncol - 1),
                        nrow >= 2,
                        ncol >= 2,
                ;
            }
        }
    }
}

/// The desired label difference of an edge slot (0 when the edge is absent).
pub open spec fn dd(e: Option<EdgeDatum>) -> int {
    match e {
        Some(x) => x.desired_delta as int,
        None => 0,
    }
}

/// Index of the left vertical edge of plaquette `p`.
pub open spec fn left_of(p: int, ncol: int) -> int {
    (p / (ncol - 1)) * ncol + p % (ncol - 1)
}

/// Residue (curl of the desired label differences) of plaquette `p`: top plus
/// right minus bottom minus left, absent edges counting as zero.
pub open spec fn residue_at(
    h: Seq<Option<EdgeDatum>>,
    v: Seq<Option<EdgeDatum>>,
    ncol: int,
    p: int,
) -> int {
    dd(h[p]) + dd(v[left_of(p, ncol) + 1]) - dd(h[p + (ncol - 1)]) - dd(v[left_of(p, ncol)])
}

/// The edge arrays after one arc's correction.
pub open spec fn apply_arc_spec(
    h: Seq<Option<EdgeDatum>>,
    v: Seq<Option<EdgeDatum>>,
    a: ResidualArc,
) -> (Seq<Option<EdgeDatum>>, Seq<Option<EdgeDatum>>) {
    let ei = a.edge_index as int;
    let d = a.correction_delta as int;
    if a.is_horizontal {
        (h.update(ei, corrected(h[ei], d)), v)
    } else {
        (h, v.update(ei, corrected(v[ei], d)))
    }
}

/// The edge arrays after the corrections of the first `k` arcs of `cycle`, in order.
pub open spec fn apply_cycle_spec(
    h: Seq<Option<EdgeDatum>>,
    v: Seq<Option<EdgeDatum>>,
    arcs: Seq<ResidualArc>,
    cycle: Seq<usize>,
    k: int,
) -> (Seq<Option<EdgeDatum>>, Seq<Option<EdgeDatum>>)
    decreases k,
{
    if k <= 0 {
        (h, v)
    } else {
        let prev = apply_cycle_spec(h, v, arcs, cycle, k - 1);
        apply_arc_spec(prev.0, prev.1, arcs[cycle[k - 1] as int])
    }
}

pub open spec fn ind(b: bool) -> int {
    if b { 1 } else { 0 }
}

/// Arrivals minus departures at node `p` over the first `k` arcs of `cycle`.
pub open spec fn net_flow(arcs: Seq<ResidualArc>, cycle: Seq<usize>, k: int, p: int) -> int
    decreases k,
{
    if k <= 0 {
        0
    } else {
        let a = arcs[cycle[k - 1] as int];
        net_flow(arcs, cycle, k - 1, p) + ind(a.to == p) - ind(a.from == p)
    }
}

/// Each arc of `cycle` starts where the previous one ends, and the last one
/// ends where the first one starts.
pub open spec fn is_closed_walk(arcs: Seq<ResidualArc>, cycle: Seq<usize>) -> bool {
    &&& cycle.len() >= 1
    &&& forall|i: int| 0 <= i < cycle.len() ==> #[trigger] cycle[i] < arcs.len()
    &&& forall|i: int|
        0 <= i < cycle.len() - 1 ==> arcs[#[trigger] cycle[i] as int].to == arcs[cycle[i
            + 1] as int].from
    &&& arcs[cycle[cycle.len() - 1] as int].to == arcs[cycle[0] as int].from
}

/// Room for `m` more units of correction on every present edge.
pub open spec fn edges_headroom(s: Seq<Option<EdgeDatum>>, m: int) -> bool {
    forall|i: int|
        0 <= i < s.len() ==> (#[trigger] s[i] matches Some(e) ==> {
            &&& -1 <= e.flow_sign <= 1
            &&& in_i32(e.desired_delta + m)
            &&& in_i32(e.desired_delta - m)
            &&& in_i32(e.flow + m)
            &&& in_i32(e.flow - m)
        })
}

/// Two edge arrays hold the same edges up to their desired differences and flows,
/// which differ by at most `m`.
pub open spec fn same_edges_within(s: Seq<Option<EdgeDatum>>, t: Seq<Option<EdgeDatum>>, m: int) -> bool {
    &&& s.len() == t.len()
    &&& forall|i: int|
        0 <= i < s.len() ==> match (#[trigger] s[i], t[i]) {
            (Some(a), Some(b)) => {
                &&& a.cost == b.cost
                &&& a.offset == b.offset
                &&& a.dzmax == b.dzmax
                &&& a.laycost == b.laycost
                &&& a.nshortcycle == b.nshortcycle
                &&& a.flow_sign == b.flow_sign
                &&& -m <= b.desired_delta - a.desired_delta <= m
                &&& -m <= b.flow - a.flow <= m
            },
            (None, None) => true,
            _ => false,
        }
}

proof fn lemma_divmod_unique(a1: int, b1: int, a2: int, b2: int, w: int)
    requires
        w > 0,
        0 <= b1 < w,
        0 <= b2 < w,
        a1 * w + b1 == a2 * w + b2,
    ensures
        a1 == a2,
        b1 == b2,
{
    let x = a1 * w + b1;
    vstd::arithmetic::div_mod::lemma_fundamental_div_mod_converse(x, w, a1, b1);
    vstd::arithmetic::div_mod::lemma_fundamental_div_mod_converse(x, w, a2, b2);
}

proof fn lemma_decomp(x: int, d: int)
    requires
        d > 0,
        x >= 0,
    ensures
        x == (x / d) * d + x % d,
        0 <= x % d < d,
        0 <= x / d,
        (x / d) * d <= x,
{
    vstd::arithmetic::div_mod::lemma_fundamental_div_mod(x, d);
    let q = x / d;
    let r = x % d;
    assert(0 <= r < d);
    assert(q * d == d * q) by (nonlinear_arith);
    assert(0 <= q) by (nonlinear_arith)
        requires
            x == q * d + r,
            0 <= x,
            0 <= r < d,
    ;
}

proof fn lemma_plaquette_bounds(p: int, nrow: int, ncol: int)
    requires
        nrow >= 2,
        ncol >= 2,
        0 <= p < ground_node(nrow, ncol),
    ensures
        p / (ncol - 1) < nrow - 1,
        0 <= p % (ncol - 1) < ncol - 1,
        p == (p / (ncol - 1)) * (ncol - 1) + p % (ncol - 1),
        left_of(p, ncol) == (p / (ncol - 1)) * ncol + p % (ncol - 1),
        0 <= left_of(p, ncol),
        left_of(p, ncol) + 1 < v_len(nrow, ncol),
        p + (ncol - 1) < h_len(nrow, ncol),
        0 <= p / (ncol - 1),
{
    let w = ncol - 1;
    lemma_decomp(p, w);
    let r = p / w;
    let c = p % w;
    assert(ground_node(nrow, ncol) == (nrow - 1) * w);
    assert(r < nrow - 1) by (nonlinear_arith)
        requires
            p == r * w + c,
            p < (nrow - 1) * w,
            0 <= c < w,
    ;
    assert(r * ncol + c + 1 < (nrow - 1) * ncol) by (nonlinear_arith)
        requires
            0 <= r < nrow - 1,
            0 <= c < w,
            w == ncol - 1,
    ;
    assert(0 <= r * ncol + c) by (nonlinear_arith)
        requires
            0 <= r,
            0 <= c,
            ncol >= 2,
    ;
    assert(p + w < nrow * w) by (nonlinear_arith)
        requires
            p < (nrow - 1) * w,
    ;
}

/// The forward endpoints of every edge are dual nodes.
pub proof fn lemma_fwd_bounds(is_h: bool, ei: int, nrow: int, ncol: int)
    requires
        nrow >= 2,
        ncol >= 2,
        0 <= ei,
        if is_h { ei < h_len(nrow, ncol) } else { ei < v_len(nrow, ncol) },
    ensures
        0 <= fwd_from(is_h, ei, nrow, ncol) <= ground_node(nrow, ncol),
        0 <= fwd_to(is_h, ei, nrow, ncol) <= ground_node(nrow, ncol),
        fwd_from(is_h, ei, nrow, ncol) != fwd_to(is_h, ei, nrow, ncol),
{
    let w = ncol - 1;
    let g = ground_node(nrow, ncol);
    assert(g == (nrow - 1) * w);
    assert(w <= g) by (nonlinear_arith)
        requires
            g == (nrow - 1) * w,
            nrow >= 2,
            w >= 1,
    ;
    if is_h {
        assert(ei - w < g) by (nonlinear_arith)
            requires
                ei < nrow * w,
                g == (nrow - 1) * w,
        ;
    } else {
        lemma_decomp(ei, ncol);
        let row = ei / ncol;
        let col = ei % ncol;
        assert(row < nrow - 1) by (nonlinear_arith)
            requires
                ei == row * ncol + col,
                ei < (nrow - 1) * ncol,
                0 <= col < ncol,
        ;
        assert(row * w + col <= g) by (nonlinear_arith)
            requires
                0 <= row < nrow - 1,
                0 <= col <= w,
                g == (nrow - 1) * w,
        ;
        assert(0 <= row * w) by (nonlinear_arith)
            requires
                0 <= row,
                0 <= w,
        ;
        if col != ncol - 1 && col != 0 {
            assert(row * w + col < g) by (nonlinear_arith)
                requires
                    0 <= row < nrow - 1,
                    0 <= col < w,
                    g == (nrow - 1) * w,
            ;
        }
        if col == ncol - 1 && col != 0 {
            vstd::arithmetic::mul::lemma_mul_inequality(row + 1, nrow - 1, w);
            assert((row + 1) * w == row * w + w) by (nonlinear_arith);
        }
        if col == 0 && col != ncol - 1 {
            assert(row * w + col < g) by (nonlinear_arith)
                requires
                    0 <= row < nrow - 1,
                    0 <= col < w,
                    g == (nrow - 1) * w,
            ;
        }
    }
}

/// Correcting the edge of arc `a` changes the residue of plaquette `p` by
/// `step` where the arc arrives and by `-step` where it leaves.
pub proof fn lemma_arc_residue_effect(
    h: Seq<Option<EdgeDatum>>,
    v: Seq<Option<EdgeDatum>>,
    nrow: int,
    ncol: int,
    a: ResidualArc,
    step: int,
    p: int,
)
    requires
        grid_ok(h, v, nrow, ncol),
        arc_geom_ok(a, nrow, ncol, step),
        edge_at(h, v, a.is_horizontal, a.edge_index as int) is Some,
        correction_ok(edge_at(h, v, a.is_horizontal, a.edge_index as int), a.correction_delta as int),
        0 <= p < ground_node(nrow, ncol),
    ensures
        residue_at(apply_arc_spec(h, v, a).0, apply_arc_spec(h, v, a).1, ncol, p) == residue_at(
            h,
            v,
            ncol,
            p,
        ) + step * (ind(a.to == p) - ind(a.from == p)),
{
    lemma_plaquette_bounds(p, nrow, ncol);
    lemma_fwd_bounds(a.is_horizontal, a.edge_index as int, nrow, ncol);
    let ei = a.edge_index as int;
    let d = a.correction_delta as int;
    let w = ncol - 1;
    let g = ground_node(nrow, ncol);
    let f = fwd_from(a.is_horizontal, ei, nrow, ncol);
    let t = fwd_to(a.is_horizontal, ei, nrow, ncol);
    let h2 = apply_arc_spec(h, v, a).0;
    let v2 = apply_arc_spec(h, v, a).1;
    let lp = left_of(p, ncol);
    let pr = p / w;
    let pc = p % w;
    assert(g == (nrow - 1) * w);
    let base = residue_at(h, v, ncol, p);
    if a.is_horizontal {
        assert(v2 == v);
        assert(dd(h2[ei]) == dd(h[ei]) + d);
        assert(h_len(nrow, ncol) == nrow * w);
        assert(ei - w < g) by (nonlinear_arith)
            requires
                ei < nrow * w,
                g == (nrow - 1) * w,
        ;
        let top: int = if p == ei { d } else { 0 };
        let bot: int = if p + w == ei { d } else { 0 };
        if p == ei {
            assert(dd(h2[p]) == dd(h[p]) + d);
        } else {
            assert(h2[p] == h[p]);
        }
        if p + w == ei {
            assert(dd(h2[p + w]) == dd(h[p + w]) + d);
        } else {
            assert(h2[p + w] == h[p + w]);
        }
        assert(residue_at(h2, v2, ncol, p) == base + top - bot);
        assert(ind(p == t) == ind(p == ei));
        assert(ind(p == f) == ind(p + w == ei));
        lemma_effect_combine(a, f, t, step, p, top, bot);
    } else {
        assert(h2 == h);
        assert(dd(v2[ei]) == dd(v[ei]) + d);
        lemma_decomp(ei, ncol);
        let row = ei / ncol;
        let col = ei % ncol;
        let top: int = if lp + 1 == ei { d } else { 0 };
        let bot: int = if lp == ei { d } else { 0 };
        if lp == ei {
            assert(dd(v2[lp]) == dd(v[lp]) + d);
        } else {
            assert(v2[lp] == v[lp]);
        }
        if lp + 1 == ei {
            assert(dd(v2[lp + 1]) == dd(v[lp + 1]) + d);
        } else {
            assert(v2[lp + 1] == v[lp + 1]);
        }
        assert(residue_at(h2, v2, ncol, p) == base + top - bot);
        assert(lp == pr * ncol + pc);
        assert(ind(p == f) == ind(lp == ei)) by {
            if lp == ei {
                lemma_divmod_unique(pr, pc, row, col, ncol);
                assert(col != ncol - 1);
                assert(f == row * w + col);
            }
            if p == f && col != ncol - 1 {
                lemma_divmod_unique(pr, pc, row, col, w);
            }
            if col == ncol - 1 {
                assert(f == g);
            }
        }
        assert(ind(p == t) == ind(lp + 1 == ei)) by {
            if lp + 1 == ei {
                lemma_divmod_unique(pr, pc + 1, row, col, ncol);
                assert(col != 0);
                assert(t == row * w + col - 1);
            }
            if p == t && col != 0 {
                lemma_divmod_unique(pr, pc, row, col - 1, w);
            }
            if col == 0 {
                assert(t == g);
            }
        }
        lemma_effect_combine(a, f, t, step, p, top, bot);
    }
}

proof fn lemma_effect_combine(a: ResidualArc, f: int, t: int, step: int, p: int, top: int, bot: int)
    requires
        (a.from == f && a.to == t && a.correction_delta == step) || (a.from == t && a.to == f
            && a.correction_delta == -step),
        top == (if p == t { a.correction_delta as int } else { 0 }),
        bot == (if p == f { a.correction_delta as int } else { 0 }),
        f != t,
    ensures
        top - bot == step * (ind(a.to == p) - ind(a.from == p)),
{
    if p == t {
        assert(p != f);
        if a.to == t {
            assert(step * (ind(a.to == p) - ind(a.from == p)) == step * 1);
        } else {
            assert(step * (ind(a.to == p) - ind(a.from == p)) == step * (-1));
        }
    } else if p == f {
        if a.to == t {
            assert(step * (ind(a.to == p) - ind(a.from == p)) == step * (-1));
        } else {
            assert(step * (ind(a.to == p) - ind(a.from == p)) == step * 1);
        }
    } else {
        assert(step * (ind(a.to == p) - ind(a.from == p)) == step * 0);
    }
}

/// Every index of `cycle` names an arc of `arcs`.
pub open spec fn cycle_indices_ok(arcs: Seq<ResidualArc>, cycle: Seq<usize>) -> bool {
    forall|i: int| 0 <= i < cycle.len() ==> #[trigger] cycle[i] < arcs.len()
}

/// `(k + 1) * step` unfolds.
pub proof fn lemma_step_mul(k: int, step: int)
    ensures
        (k + 1) * step == k * step + step,
{
    assert((k + 1) * step == k * step + step) by (nonlinear_arith);
}

/// One more correction of `d` (a step either way) on a present edge stays in
/// range and keeps the edges within `(k + 1) * step` of where they started.
pub proof fn lemma_correction_within(
    s0: Seq<Option<EdgeDatum>>,
    s1: Seq<Option<EdgeDatum>>,
    i: int,
    k: int,
    n: int,
    step: int,
    d: int,
)
    requires
        0 <= i < s0.len(),
        0 <= k < n,
        1 <= step,
        d == step || d == -step,
        same_edges_within(s0, s1, k * step),
        edges_headroom(s0, n * step),
        s0[i] is Some,
    ensures
        s1[i] is Some,
        correction_ok(s1[i], d),
        same_edges_within(s0, s1.update(i, corrected(s1[i], d)), (k + 1) * step),
{
    lemma_step_mul(k, step);
    assert((k + 1) * step <= n * step) by (nonlinear_arith)
        requires
            k + 1 <= n,
            1 <= step,
    ;
    assert(s0[i] matches Some(e) ==> {
        &&& -1 <= e.flow_sign <= 1
        &&& in_i32(e.desired_delta + n * step)
        &&& in_i32(e.desired_delta - n * step)
        &&& in_i32(e.flow + n * step)
        &&& in_i32(e.flow - n * step)
    });
    let e0 = s0[i]->0;
    assert(match (s0[i], s1[i]) {
        (Some(a), Some(b)) => {
            &&& a.flow_sign == b.flow_sign
            &&& -(k * step) <= b.desired_delta - a.desired_delta <= k * step
            &&& -(k * step) <= b.flow - a.flow <= k * step
        },
        (None, None) => true,
        _ => false,
    });
    let e1 = s1[i]->0;
    let sd = e1.flow_sign * d;
    let fs = e1.flow_sign as int;
    if fs == 1 {
        assert(fs * d == d) by (nonlinear_arith)
            requires
                fs == 1,
        ;
    } else if fs == 0 {
        assert(fs * d == 0) by (nonlinear_arith)
            requires
                fs == 0,
        ;
    } else {
        assert(fs * d == -d) by (nonlinear_arith)
            requires
                fs == -1,
        ;
    }
    assert(correction_ok(s1[i], d));
    let s2 = s1.update(i, corrected(s1[i], d));
    assert forall|j: int| 0 <= j < s0.len() implies match (#[trigger] s0[j], s2[j]) {
        (Some(a), Some(b)) => {
            &&& a.cost == b.cost
            &&& a.offset == b.offset
            &&& a.dzmax == b.dzmax
            &&& a.laycost == b.laycost
            &&& a.nshortcycle == b.nshortcycle
            &&& a.flow_sign == b.flow_sign
            &&& -((k + 1) * step) <= b.desired_delta - a.desired_delta <= (k + 1) * step
            &&& -((k + 1) * step) <= b.flow - a.flow <= (k + 1) * step
        },
        (None, None) => true,
        _ => false,
    } by {
        assert(match (s0[j], s1[j]) {
            (Some(a), Some(b)) => {
                &&& a.cost == b.cost
                &&& a.offset == b.offset
                &&& a.dzmax == b.dzmax
                &&& a.laycost == b.laycost
                &&& a.nshortcycle == b.nshortcycle
                &&& a.flow_sign == b.flow_sign
                &&& -(k * step) <= b.desired_delta - a.desired_delta <= k * step
                &&& -(k * step) <= b.flow - a.flow <= k * step
            },
            (None, None) => true,
            _ => false,
        });
        if j != i {
            assert(s2[j] == s1[j]);
        }
    }
}

/// The edges after the first `k` arcs of a cycle, their residues, and how far
/// they moved: every arc shifts the residue of its head by `step` and of its
/// tail by `-step`.
pub proof fn lemma_cycle_prefix(
    h: Seq<Option<EdgeDatum>>,
    v: Seq<Option<EdgeDatum>>,
    nrow: int,
    ncol: int,
    arcs: Seq<ResidualArc>,
    cycle: Seq<usize>,
    step: int,
    k: int,
)
    requires
        grid_ok(h, v, nrow, ncol),
        1 <= step <= i32::MAX,
        arcs_valid(arcs, h, v, nrow, ncol, step),
        cycle_indices_ok(arcs, cycle),
        edges_headroom(h, cycle.len() * step),
        edges_headroom(v, cycle.len() * step),
        0 <= k <= cycle.len(),
    ensures
        same_edges_within(h, apply_cycle_spec(h, v, arcs, cycle, k).0, k * step),
        same_edges_within(v, apply_cycle_spec(h, v, arcs, cycle, k).1, k * step),
        forall|p: int|
            0 <= p < ground_node(nrow, ncol) ==> #[trigger] residue_at(
                apply_cycle_spec(h, v, arcs, cycle, k).0,
                apply_cycle_spec(h, v, arcs, cycle, k).1,
                ncol,
                p,
            ) == residue_at(h, v, ncol, p) + step * net_flow(arcs, cycle, k, p),
    decreases k,
{
    if k == 0 {
        assert forall|p: int| 0 <= p < ground_node(nrow, ncol) implies #[trigger] residue_at(
            h,
            v,
            ncol,
            p,
        ) == residue_at(h, v, ncol, p) + step * net_flow(arcs, cycle, 0, p) by {
            assert(step * 0 == 0);
        }
        assert(same_edges_within(h, h, 0 * step));
        assert(same_edges_within(v, v, 0 * step));
    } else {
        lemma_cycle_prefix(h, v, nrow, ncol, arcs, cycle, step, k - 1);
        let prev = apply_cycle_spec(h, v, arcs, cycle, k - 1);
        let a = arcs[cycle[k - 1] as int];
        let ei = a.edge_index as int;
        let d = a.correction_delta as int;
        assert(arc_geom_ok(a, nrow, ncol, step));
        assert(edge_at(h, v, a.is_horizontal, ei) is Some);
        if a.is_horizontal {
            lemma_correction_within(h, prev.0, ei, k - 1, cycle.len() as int, step, d);
            assert(same_edges_within(v, prev.1, k * step)) by {
                lemma_step_mul(k - 1, step);
            }
        } else {
            lemma_correction_within(v, prev.1, ei, k - 1, cycle.len() as int, step, d);
            assert(same_edges_within(h, prev.0, k * step)) by {
                lemma_step_mul(k - 1, step);
            }
        }
        assert(grid_ok(prev.0, prev.1, nrow, ncol));
        assert forall|p: int| 0 <= p < ground_node(nrow, ncol) implies #[trigger] residue_at(
            apply_cycle_spec(h, v, arcs, cycle, k).0,
            apply_cycle_spec(h, v, arcs, cycle, k).1,
            ncol,
            p,
        ) == residue_at(h, v, ncol, p) + step * net_flow(arcs, cycle, k, p) by {
            lemma_arc_residue_effect(prev.0, prev.1, nrow, ncol, a, step, p);
            let x = net_flow(arcs, cycle, k - 1, p);
            let y = ind(a.to == p) - ind(a.from == p);
            assert(step * (x + y) == step * x + step * y) by (nonlinear_arith);
        }
    }
}

/// Arrivals and departures balance at every node of a closed walk.
pub proof fn lemma_closed_walk_net(arcs: Seq<ResidualArc>, cycle: Seq<usize>, p: int)
    requires
        is_closed_walk(arcs, cycle),
    ensures
        net_flow(arcs, cycle, cycle.len() as int, p) == 0,
{
    lemma_walk_prefix_net(arcs, cycle, cycle.len() as int, p);
}

proof fn lemma_walk_prefix_net(arcs: Seq<ResidualArc>, cycle: Seq<usize>, k: int, p: int)
    requires
        is_closed_walk(arcs, cycle),
        1 <= k <= cycle.len(),
    ensures
        net_flow(arcs, cycle, k, p) == ind(arcs[cycle[k - 1] as int].to == p) - ind(
            arcs[cycle[0] as int].from == p,
        ),
    decreases k,
{
    assert(net_flow(arcs, cycle, 0, p) == 0);
    if k > 1 {
        lemma_walk_prefix_net(arcs, cycle, k - 1, p);
        assert(arcs[cycle[k - 2] as int].to == arcs[cycle[k - 1] as int].from);
    }
}

/// Each arc of `cycle` ends where the previous one starts, and the first one
/// ends where the last one starts: a closed walk listed backwards.
pub open spec fn is_closed_walk_rev(arcs: Seq<ResidualArc>, cycle: Seq<usize>) -> bool {
    &&& cycle.len() >= 1
    &&& forall|i: int| 0 <= i < cycle.len() ==> #[trigger] cycle[i] < arcs.len()
    &&& forall|i: int|
        0 <= i < cycle.len() - 1 ==> arcs[#[trigger] cycle[i] as int].from == arcs[cycle[i
            + 1] as int].to
    &&& arcs[cycle[cycle.len() - 1] as int].from == arcs[cycle[0] as int].to
}

/// The residual graph `arcs` holds a closed walk of negative total cost.
pub open spec fn has_negative_walk(arcs: Seq<ResidualArc>) -> bool {
    exists|c: Seq<usize>| is_closed_walk_rev(arcs, c) && cycle_cost_spec(arcs, c, c.len() as int) < 0
}

/// Arrivals and departures balance at every node of a closed walk listed backwards.
pub proof fn lemma_closed_walk_rev_net(arcs: Seq<ResidualArc>, cycle: Seq<usize>, p: int)
    requires
        is_closed_walk_rev(arcs, cycle),
    ensures
        net_flow(arcs, cycle, cycle.len() as int, p) == 0,
{
    lemma_walk_rev_prefix_net(arcs, cycle, cycle.len() as int, p);
}

proof fn lemma_walk_rev_prefix_net(arcs: Seq<ResidualArc>, cycle: Seq<usize>, k: int, p: int)
    requires
        is_closed_walk_rev(arcs, cycle),
        1 <= k <= cycle.len(),
    ensures
        net_flow(arcs, cycle, k, p) == ind(arcs[cycle[0] as int].to == p) - ind(
            arcs[cycle[k - 1] as int].from == p,
        ),
    decreases k,
{
    assert(net_flow(arcs, cycle, 0, p) == 0);
    if k > 1 {
        lemma_walk_rev_prefix_net(arcs, cycle, k - 1, p);
        assert(arcs[cycle[k - 2] as int].from == arcs[cycle[k - 1] as int].to);
    }
}

/// Either orientation of a closed walk.
pub open spec fn is_cycle_walk(arcs: Seq<ResidualArc>, cycle: Seq<usize>) -> bool {
    is_closed_walk(arcs, cycle) || is_closed_walk_rev(arcs, cycle)
}

/// Law: pushing flow around a closed walk of the residual graph leaves the
/// residue of every plaquette unchanged.
pub proof fn law_cycle_preserves_residues(
    h: Seq<Option<EdgeDatum>>,
    v: Seq<Option<EdgeDatum>>,
    nrow: int,
    ncol: int,
    arcs: Seq<ResidualArc>,
    cycle: Seq<usize>,
    step: int,
)
    requires
        grid_ok(h, v, nrow, ncol),
        1 <= step <= i32::MAX,
        arcs_valid(arcs, h, v, nrow, ncol, step),
        is_cycle_walk(arcs, cycle),
        edges_headroom(h, cycle.len() * step),
        edges_headroom(v, cycle.len() * step),
    ensures
        forall|p: int|
            0 <= p < ground_node(nrow, ncol) ==> #[trigger] residue_at(
                apply_cycle_spec(h, v, arcs, cycle, cycle.len() as int).0,
                apply_cycle_spec(h, v, arcs, cycle, cycle.len() as int).1,
                ncol,
                p,
            ) == residue_at(h, v, ncol, p),
{
    lemma_cycle_prefix(h, v, nrow, ncol, arcs, cycle, step, cycle.len() as int);
    assert forall|p: int| 0 <= p < ground_node(nrow, ncol) implies #[trigger] residue_at(
        apply_cycle_spec(h, v, arcs, cycle, cycle.len() as int).0,
        apply_cycle_spec(h, v, arcs, cycle, cycle.len() as int).1,
        ncol,
        p,
    ) == residue_at(h, v, ncol, p) by {
        if is_closed_walk(arcs, cycle) {
            lemma_closed_walk_net(arcs, cycle, p);
        } else {
            lemma_closed_walk_rev_net(arcs, cycle, p);
        }
        assert(step * 0 == 0);
    }
}

/// Sum of `|correction_delta|` over the first `k` arcs of `cycle`.
pub open spec fn total_correction(arcs: Seq<ResidualArc>, cycle: Seq<usize>, k: int) -> int
    decreases k,
{
    if k <= 0 {
        0
    } else {
        total_correction(arcs, cycle, k - 1) + abs_int(arcs[cycle[k - 1] as int].correction_delta as int)
    }
}

/// Every arc names an edge slot that exists in its family.
pub open spec fn arcs_target_ok(arcs: Seq<ResidualArc>, hl: int, vl: int) -> bool {
    forall|i: int|
        0 <= i < arcs.len() ==> if (#[trigger] arcs[i]).is_horizontal {
            arcs[i].edge_index < hl
        } else {
            arcs[i].edge_index < vl
        }
}

proof fn lemma_total_correction_nonneg(arcs: Seq<ResidualArc>, cycle: Seq<usize>, k: int)
    ensures
        0 <= total_correction(arcs, cycle, k),
    decreases k,
{
    if k > 0 {
        lemma_total_correction_nonneg(arcs, cycle, k - 1);
    }
}

proof fn lemma_total_correction_mono(arcs: Seq<ResidualArc>, cycle: Seq<usize>, k: int, n: int)
    requires
        0 <= k <= n,
    ensures
        total_correction(arcs, cycle, k) <= total_correction(arcs, cycle, n),
    decreases n - k,
{
    if k < n {
        lemma_total_correction_mono(arcs, cycle, k, n - 1);
    }
}

proof fn lemma_general_correction_within(
    s0: Seq<Option<EdgeDatum>>,
    s1: Seq<Option<EdgeDatum>>,
    i: int,
    m: int,
    big: int,
    d: int,
)
    requires
        0 <= i < s0.len(),
        0 <= m,
        m + abs_int(d) <= big,
        same_edges_within(s0, s1, m),
        edges_headroom(s0, big),
    ensures
        correction_ok(s1[i], d),
        same_edges_within(s0, s1.update(i, corrected(s1[i], d)), m + abs_int(d)),
{
    let m2 = m + abs_int(d);
    assert(s0[i] matches Some(e) ==> {
        &&& -1 <= e.flow_sign <= 1
        &&& in_i32(e.desired_delta + big)
        &&& in_i32(e.desired_delta - big)
        &&& in_i32(e.flow + big)
        &&& in_i32(e.flow - big)
    });
    assert(match (s0[i], s1[i]) {
        (Some(a), Some(b)) => {
            &&& a.flow_sign == b.flow_sign
            &&& -m <= b.desired_delta - a.desired_delta <= m
            &&& -m <= b.flow - a.flow <= m
        },
        (None, None) => true,
        _ => false,
    });
    if s1[i] is Some {
        let e1 = s1[i]->0;
        let fs = e1.flow_sign as int;
        if fs == 1 {
            assert(fs * d == d) by (nonlinear_arith)
                requires
                    fs == 1,
            ;
        } else if fs == 0 {
            assert(fs * d == 0) by (nonlinear_arith)
                requires
                    fs == 0,
            ;
        } else {
            assert(fs * d == -d) by (nonlinear_arith)
                requires
                    fs == -1,
            ;
        }
    }
    let s2 = s1.update(i, corrected(s1[i], d));
    assert forall|j: int| 0 <= j < s0.len() implies match (#[trigger] s0[j], s2[j]) {
        (Some(a), Some(b)) => {
            &&& a.cost == b.cost
            &&& a.offset == b.offset
            &&& a.dzmax == b.dzmax
            &&& a.laycost == b.laycost
            &&& a.nshortcycle == b.nshortcycle
            &&& a.flow_sign == b.flow_sign
            &&& -m2 <= b.desired_delta - a.desired_delta <= m2
            &&& -m2 <= b.flow - a.flow <= m2
        },
        (None, None) => true,
        _ => false,
    } by {
        assert(match (s0[j], s1[j]) {
            (Some(a), Some(b)) => {
                &&& a.cost == b.cost
                &&& a.offset == b.offset
                &&& a.dzmax == b.dzmax
                &&& a.laycost == b.laycost
                &&& a.nshortcycle == b.nshortcycle
                &&& a.flow_sign == b.flow_sign
                &&& -m <= b.desired_delta - a.desired_delta <= m
                &&& -m <= b.flow - a.flow <= m
            },
            (None, None) => true,
            _ => false,
        });
        if j != i {
            assert(s2[j] == s1[j]);
        }
    }
}

/// Applies the corrections of the arcs of `cycle`, in order, to their edges.
pub fn apply_residual_cycle(
    horizontal: &mut Vec<Option<EdgeDatum>>,
    vertical: &mut Vec<Option<EdgeDatum>>,
    arcs: &[ResidualArc],
    cycle: &[usize],
)
    requires
        cycle_indices_ok(arcs@, cycle@),
        arcs_target_ok(arcs@, old(horizontal)@.len() as int, old(vertical)@.len() as int),
        edges_headroom(old(horizontal)@, total_correction(arcs@, cycle@, cycle@.len() as int)),
        edges_headroom(old(vertical)@, total_correction(arcs@, cycle@, cycle@.len() as int)),
    ensures
        (final(horizontal)@, final(vertical)@) == apply_cycle_spec(
            old(horizontal)@,
            old(vertical)@,
            arcs@,
            cycle@,
            cycle@.len() as int,
        ),
{
    let ghost h0 = horizontal@;
    let ghost v0 = vertical@;
    let ghost big = total_correction(arcs@, cycle@, cycle@.len() as int);
    let mut k: usize = 0;
    while k < cycle.len()
        invariant
            k <= cycle@.len(),
            cycle_indices_ok(arcs@, cycle@),
            arcs_target_ok(arcs@, h0.len() as int, v0.len() as int),
            big == total_correction(arcs@, cycle@, cycle@.len() as int),
            edges_headroom(h0, big),
            edges_headroom(v0, big),
            same_edges_within(h0, horizontal@, total_correction(arcs@, cycle@, k as int)),
            same_edges_within(v0, vertical@, total_correction(arcs@, cycle@, k as int)),
            (horizontal@, vertical@) == apply_cycle_spec(h0, v0, arcs@, cycle@, k as int),
        decreases cycle.len() - k,
    {
        let arc = arcs[cycle[k]];
        let ghost m = total_correction(arcs@, cycle@, k as int);
        proof {
            let d = arc.correction_delta as int;
            lemma_total_correction_nonneg(arcs@, cycle@, k as int);
            lemma_total_correction_mono(arcs@, cycle@, k + 1, cycle@.len() as int);
            assert(arcs@[cycle@[k as int] as int] == arc);
            assert(total_correction(arcs@, cycle@, k + 1) == m + abs_int(d));
            if arc.is_horizontal {
                lemma_general_correction_within(h0, horizontal@, arc.edge_index as int, m, big, d);
                assert(same_edges_within(v0, vertical@, m + abs_int(d)));
            } else {
                lemma_general_correction_within(v0, vertical@, arc.edge_index as int, m, big, d);
                assert(same_edges_within(h0, horizontal@, m + abs_int(d)));
            }
        }
        if arc.is_horizontal {
            let mut e = horizontal[arc.edge_index];
            apply_edge_correction(&mut e, arc.correction_delta);
            horizontal.set(arc.edge_index, e);
        } else {
            let mut e = vertical[arc.edge_index];
            apply_edge_correction(&mut e, arc.correction_delta);
            vertical.set(arc.edge_index, e);
        }
        k = k + 1;
    }
}

/// Total cost of the first `k` arcs of `cycle`.
pub open spec fn cycle_cost_spec(arcs: Seq<ResidualArc>, cycle: Seq<usize>, k: int) -> int
    decreases k,
{
    if k <= 0 {
        0
    } else {
        cycle_cost_spec(arcs, cycle, k - 1) + arcs[cycle[k - 1] as int].cost
    }
}

/// Every running total of the cycle's cost fits in an `i32`.
pub open spec fn cycle_cost_fits(arcs: Seq<ResidualArc>, cycle: Seq<usize>) -> bool {
    forall|k: int| 0 <= k <= cycle.len() ==> in_i32(#[trigger] cycle_cost_spec(arcs, cycle, k))
}

/// Total cost of the arcs of `cycle`.
pub fn residual_cycle_cost(arcs: &[ResidualArc], cycle: &[usize]) -> (r: i32)
    requires
        cycle_indices_ok(arcs@, cycle@),
        cycle_cost_fits(arcs@, cycle@),
    ensures
        r == cycle_cost_spec(arcs@, cycle@, cycle@.len() as int),
{
    let mut total: i32 = 0;
    let mut k: usize = 0;
    while k < cycle.len()
        invariant
            k <= cycle@.len(),
            cycle_indices_ok(arcs@, cycle@),
            cycle_cost_fits(arcs@, cycle@),
            total == cycle_cost_spec(arcs@, cycle@, k as int),
        decreases cycle.len() - k,
    {
        assert(in_i32(cycle_cost_spec(arcs@, cycle@, k + 1)));
        total = total + arcs[cycle[k]].cost;
        k = k + 1;
    }
    total
}

/// Total cost of the arcs of `cycle`, summed without overflow.
pub fn residual_cycle_cost_wide(arcs: &[ResidualArc], cycle: &[usize]) -> (r: i128)
    requires
        cycle_indices_ok(arcs@, cycle@),
    ensures
        r == cycle_cost_spec(arcs@, cycle@, cycle@.len() as int),
{
    let mut total: i128 = 0;
    let mut k: usize = 0;
    let n = cycle.len();
    while k < n
        invariant
            k <= n,
            n == cycle@.len(),
            cycle_indices_ok(arcs@, cycle@),
            total == cycle_cost_spec(arcs@, cycle@, k as int),
            -(k as int) * 0x8000_0000 <= total <= (k as int) * 0x8000_0000,
        decreases n - k,
    {
        let c = arcs[cycle[k]].cost;
        assert((k + 1) * 0x8000_0000 <= 0x1_0000_0000_0000_0000 * 0x8000_0000) by (nonlinear_arith)
            requires
                k + 1 <= 0x1_0000_0000_0000_0000,
        ;
        total = total + c as i128;
        k = k + 1;
    }
    total
}

/// Bellman-Ford on the residual graph from a virtual source joined to every
/// node. When some node is still relaxed after `node_count` rounds, walks the
/// predecessor chain back `node_count` steps and reads off the cycle found
/// there; it is returned when its cost is negative. The arcs of the result are
/// listed against the walk's direction: each arc ends where the previous one
/// starts.
pub fn find_negative_unit_cycle(arcs: &[ResidualArc], node_count: usize) -> (r: Option<Vec<usize>>)
    requires
        (node_count as int) * (arcs@.len() as int) <= 0x1_0000_0000_0000_0000_0000_0000,
    ensures
        r matches Some(c) ==> {
            &&& is_closed_walk_rev(arcs@, c@)
            &&& c@.len() <= arcs@.len() + 1
            &&& cycle_cost_spec(arcs@, c@, c@.len() as int) < 0
        },
{
    if node_count == 0 {
        return None;
    }
    let m = arcs.len();
    let mut dist: Vec<i128> = Vec::new();
    let mut pred_node: Vec<Option<usize>> = Vec::new();
    let mut pred_arc: Vec<Option<usize>> = Vec::new();
    let mut i: usize = 0;
    while i < node_count
        invariant
            i <= node_count,
            dist@.len() == i,
            pred_node@.len() == i,
            pred_arc@.len() == i,
            forall|j: int| 0 <= j < i ==> dist@[j] == 0,
            forall|j: int| 0 <= j < i ==> pred_node@[j] is None,
            forall|j: int| 0 <= j < i ==> pred_arc@[j] is None,
        decreases node_count - i,
    {
        dist.push(0);
        pred_node.push(None);
        pred_arc.push(None);
        i = i + 1;
    }
    let mut relaxed: Option<usize> = None;
    let mut round: usize = 0;
    let ghost mut count: int = 0;
    while round < node_count
        invariant
            round <= node_count,
            m == arcs@.len(),
            (node_count as int) * (m as int) <= 0x1_0000_0000_0000_0000_0000_0000,
            dist@.len() == node_count,
            pred_node@.len() == node_count,
            pred_arc@.len() == node_count,
            0 <= count <= (round as int) * (m as int),
            forall|j: int| 0 <= j < node_count ==> -count * 0x8000_0000 <= #[trigger] dist@[j] <= 0,
            forall|j: int|
                0 <= j < node_count ==> (#[trigger] pred_arc@[j] matches Some(a) ==> {
                    &&& a < m
                    &&& arcs@[a as int].to == j
                    &&& arcs@[a as int].from < node_count
                    &&& pred_node@[j] == Some(arcs@[a as int].from)
                }),
            relaxed matches Some(x) ==> x < node_count && pred_arc@[x as int] is Some,
            round > 0 ==> relaxed is Some,
            forall|j: int|
                0 <= j < node_count ==> (#[trigger] pred_node@[j] matches Some(p) ==> p < node_count),
        decreases node_count - round,
    {
        relaxed = None;
        let mut index: usize = 0;
        while index < m
            invariant
                index <= m,
                round < node_count,
                m == arcs@.len(),
                (node_count as int) * (m as int) <= 0x1_0000_0000_0000_0000_0000_0000,
                dist@.len() == node_count,
                pred_node@.len() == node_count,
                pred_arc@.len() == node_count,
                0 <= count <= (round as int) * (m as int) + index,
                forall|j: int| 0 <= j < node_count ==> -count * 0x8000_0000 <= #[trigger] dist@[j] <= 0,
                forall|j: int|
                    0 <= j < node_count ==> (#[trigger] pred_arc@[j] matches Some(a) ==> {
                        &&& a < m
                        &&& arcs@[a as int].to == j
                        &&& arcs@[a as int].from < node_count
                        &&& pred_node@[j] == Some(arcs@[a as int].from)
                    }),
                relaxed matches Some(x) ==> x < node_count && pred_arc@[x as int] is Some,
                forall|j: int|
                    0 <= j < node_count ==> (#[trigger] pred_node@[j] matches Some(p) ==> p < node_count),
            decreases m - index,
        {
            let arc = arcs[index];
            if arc.from < node_count && arc.to < node_count {
                assert((round as int) * (m as int) + index + 1 <= (node_count as int) * (m as int))
                    by (nonlinear_arith)
                    requires
                        round < node_count,
                        index < m,
                ;
                let ghost c0 = count;
                assert(-c0 * 0x8000_0000 <= dist@[arc.from as int]);
                assert((c0 + 1) * 0x8000_0000 <= 0x1_0000_0000_0000_0000_0000_0000 * 0x8000_0000) by (nonlinear_arith)
                    requires
                        c0 + 1 <= 0x1_0000_0000_0000_0000_0000_0000,
                ;
                let next = dist[arc.from] + arc.cost as i128;
                if next < dist[arc.to] {
                    proof {
                        count = count + 1;
                        assert(-count * 0x8000_0000 == -c0 * 0x8000_0000 - 0x8000_0000) by (nonlinear_arith)
                            requires
                                count == c0 + 1,
                        ;
                        assert(next <= 0);
                    }
                    dist.set(arc.to, next);
                    pred_node.set(arc.to, Some(arc.from));
                    pred_arc.set(arc.to, Some(index));
                    relaxed = Some(arc.to);
                    proof {
                        assert forall|j: int| 0 <= j < node_count implies -count * 0x8000_0000
                            <= #[trigger] dist@[j] <= 0 by {
                            assert(-c0 * 0x8000_0000 >= -count * 0x8000_0000);
                        }
                    }
                }
            }
            index = index + 1;
        }
        if relaxed.is_none() {
            return None;
        }
        assert((round as int + 1) * (m as int) == (round as int) * (m as int) + m) by (nonlinear_arith);
        round = round + 1;
    }
    let mut node: usize = match relaxed {
        Some(x) => x,
        None => {
            return None;
        },
    };
    let mut step: usize = 0;
    while step < node_count
        invariant
            step <= node_count,
            node < node_count,
            pred_node@.len() == node_count,
            pred_arc@.len() == node_count,
            forall|j: int|
                0 <= j < node_count ==> (#[trigger] pred_arc@[j] matches Some(a) ==> {
                    &&& a < m
                    &&& arcs@[a as int].to == j
                    &&& arcs@[a as int].from < node_count
                    &&& pred_node@[j] == Some(arcs@[a as int].from)
                }),
            forall|j: int|
                0 <= j < node_count ==> (#[trigger] pred_node@[j] matches Some(p) ==> p < node_count),
        decreases node_count - step,
    {
        node = match pred_node[node] {
            Some(p) => p,
            None => {
                return None;
            },
        };
        step = step + 1;
    }
    let start = node;
    let mut cycle: Vec<usize> = Vec::new();
    loop
        invariant_except_break
            cycle@.len() <= m,
            cycle@.len() == 0 ==> node == start,
        invariant
            node < node_count,
            start < node_count,
            m == arcs@.len(),
            pred_node@.len() == node_count,
            pred_arc@.len() == node_count,
            forall|j: int|
                0 <= j < node_count ==> (#[trigger] pred_arc@[j] matches Some(a) ==> {
                    &&& a < m
                    &&& arcs@[a as int].to == j
                    &&& arcs@[a as int].from < node_count
                    &&& pred_node@[j] == Some(arcs@[a as int].from)
                }),
            cycle@.len() > 0 ==> {
                &&& forall|i: int| 0 <= i < cycle@.len() ==> #[trigger] cycle@[i] < m
                &&& forall|i: int|
                    0 <= i < cycle@.len() - 1 ==> arcs@[#[trigger] cycle@[i] as int].from
                        == arcs@[cycle@[i + 1] as int].to
                &&& arcs@[cycle@[0] as int].to == start
                &&& arcs@[cycle@[cycle@.len() - 1] as int].from == node
            },
        ensures
            cycle@.len() <= m + 1,
            cycle@.len() > 0,
            node == start,
        decreases m + 1 - cycle@.len(),
    {
        let arc = match pred_arc[node] {
            Some(a) => a,
            None => {
                return None;
            },
        };
        cycle.push(arc);
        node = match pred_node[node] {
            Some(p) => p,
            None => {
                return None;
            },
        };
        if node == start {
            break;
        }
        if cycle.len() > m {
            return None;
        }
    }
    proof {
        assert(is_closed_walk_rev(arcs@, cycle@));
    }
    assert(m as int <= (node_count as int) * (m as int)) by (nonlinear_arith)
        requires
            node_count >= 1,
            m >= 0,
    ;
    let cost = residual_cycle_cost_wide(arcs, &cycle);
    if cost < 0 {
        Some(cycle)
    } else {
        None
    }
}

/// Whether every present edge of `s` can be priced for a step of `step`.
pub fn edges_arc_in_range(s: &[Option<EdgeDatum>], step: i32) -> (r: bool)
    requires
        1 <= step,
    ensures
        r == edges_arc_ok(s@, step as int),
{
    let mut i: usize = 0;
    while i < s.len()
        invariant
            i <= s@.len(),
            1 <= step,
            forall|j: int|
                0 <= j < i ==> (#[trigger] s@[j] matches Some(e) ==> edge_arc_ok(e, step as int)),
        decreases s.len() - i,
    {
        if let Some(e) = s[i] {
            assert(-0x4000_0000_0000_0000 <= (e.flow_sign as int) * (step as int) <= 0x4000_0000_0000_0000)
                by (nonlinear_arith)
                requires
                    -0x8000_0000 <= e.flow_sign <= 0x7fff_ffff,
                    1 <= step <= 0x7fff_ffff,
            ;
            let a: i64 = (e.flow_sign as i64) * (step as i64);
            if a > i32::MAX as i64 || a < i32::MIN as i64 || -a > i32::MAX as i64 || -a
                < i32::MIN as i64 {
                assert(!edge_arc_ok(e, step as int)) by {
                    assert((e.flow_sign as int) * (-(step as int)) == -((e.flow_sign as int) * (
                    step as int))) by (nonlinear_arith);
                }
                return false;
            }
            if !incremental_in_range(e, step) {
                return false;
            }
            assert((e.flow_sign as int) * (-(step as int)) == -((e.flow_sign as int) * (
            step as int))) by (nonlinear_arith);
        }
        i = i + 1;
    }
    true
}

/// Whether every present edge of `s` has room for `m` more units of correction.
pub fn edges_headroom_in_range(s: &[Option<EdgeDatum>], m: i64) -> (r: bool)
    requires
        0 <= m <= 0x1_0000_0000,
    ensures
        r == edges_headroom(s@, m as int),
{
    let mut i: usize = 0;
    while i < s.len()
        invariant
            i <= s@.len(),
            0 <= m <= 0x1_0000_0000,
            forall|j: int|
                0 <= j < i ==> (#[trigger] s@[j] matches Some(e) ==> {
                    &&& -1 <= e.flow_sign <= 1
                    &&& in_i32(e.desired_delta + m)
                    &&& in_i32(e.desired_delta - m)
                    &&& in_i32(e.flow + m)
                    &&& in_i32(e.flow - m)
                }),
        decreases s.len() - i,
    {
        if let Some(e) = s[i] {
            if e.flow_sign < -1 || e.flow_sign > 1 {
                return false;
            }
            let dd = e.desired_delta as i64;
            let fl = e.flow as i64;
            if dd + m > i32::MAX as i64 || dd - m < i32::MIN as i64 || fl + m > i32::MAX as i64
                || fl - m < i32::MIN as i64 {
                return false;
            }
        }
        i = i + 1;
    }
    true
}

/// With every arc moving its edge by `step`, the total correction of `k` arcs is `k * step`.
pub proof fn lemma_total_correction_uniform(
    arcs: Seq<ResidualArc>,
    cycle: Seq<usize>,
    k: int,
    h: Seq<Option<EdgeDatum>>,
    v: Seq<Option<EdgeDatum>>,
    nrow: int,
    ncol: int,
    step: int,
)
    requires
        arcs_valid(arcs, h, v, nrow, ncol, step),
        cycle_indices_ok(arcs, cycle),
        0 <= k <= cycle.len(),
    ensures
        total_correction(arcs, cycle, k) == k * step,
    decreases k,
{
    if k == 0 {
        assert(0 * step == 0) by (nonlinear_arith);
    } else {
        lemma_total_correction_uniform(arcs, cycle, k - 1, h, v, nrow, ncol, step);
        assert(arc_geom_ok(arcs[cycle[k - 1] as int], nrow, ncol, step));
        lemma_step_mul(k - 1, step);
    }
}

/// Two edge arrays hold edges at the same slots.
pub open spec fn same_slots(s: Seq<Option<EdgeDatum>>, t: Seq<Option<EdgeDatum>>) -> bool {
    &&& s.len() == t.len()
    &&& forall|i: int| 0 <= i < s.len() ==> (#[trigger] s[i] is Some <==> t[i] is Some)
}

/// The residues of every plaquette.
pub open spec fn residues_equal(
    h: Seq<Option<EdgeDatum>>,
    v: Seq<Option<EdgeDatum>>,
    h2: Seq<Option<EdgeDatum>>,
    v2: Seq<Option<EdgeDatum>>,
    nrow: int,
    ncol: int,
) -> bool {
    forall|p: int|
        0 <= p < ground_node(nrow, ncol) ==> #[trigger] residue_at(h2, v2, ncol, p) == residue_at(
            h,
            v,
            ncol,
            p,
        )
}

/// Edges that stay within a bound of each other keep their slots.
pub proof fn lemma_within_slots(s: Seq<Option<EdgeDatum>>, t: Seq<Option<EdgeDatum>>, m: int)
    requires
        same_edges_within(s, t, m),
    ensures
        same_slots(s, t),
{
    assert forall|i: int| 0 <= i < s.len() implies (#[trigger] s[i] is Some <==> t[i] is Some) by {
        assert(match (s[i], t[i]) {
            (Some(a), Some(b)) => true,
            (None, None) => true,
            _ => false,
        });
    }
}

pub proof fn lemma_slots_trans(a: Seq<Option<EdgeDatum>>, b: Seq<Option<EdgeDatum>>, c: Seq<Option<EdgeDatum>>)
    requires
        same_slots(a, b),
        same_slots(b, c),
    ensures
        same_slots(a, c),
{
    assert forall|i: int| 0 <= i < a.len() implies (#[trigger] a[i] is Some <==> c[i] is Some) by {
        assert(a[i] is Some <==> b[i] is Some);
        assert(b[i] is Some <==> c[i] is Some);
    }
}

/// What applying a closed walk of the materialized residual graph gives: the
/// walk is within range for `apply_residual_cycle`, the edges keep their slots
/// and the residues stay the same.
pub proof fn lemma_apply_valid_cycle(
    h: Seq<Option<EdgeDatum>>,
    v: Seq<Option<EdgeDatum>>,
    nrow: int,
    ncol: int,
    arcs: Seq<ResidualArc>,
    cycle: Seq<usize>,
    step: int,
)
    requires
        grid_ok(h, v, nrow, ncol),
        h.len() <= usize::MAX,
        v.len() <= usize::MAX,
        1 <= step <= i32::MAX,
        arcs == residual_arcs_spec(h, v, nrow, ncol, step),
        is_cycle_walk(arcs, cycle),
        edges_headroom(h, cycle.len() * step),
        edges_headroom(v, cycle.len() * step),
    ensures
        cycle_indices_ok(arcs, cycle),
        arcs_target_ok(arcs, h.len() as int, v.len() as int),
        total_correction(arcs, cycle, cycle.len() as int) == cycle.len() * step,
        same_slots(h, apply_cycle_spec(h, v, arcs, cycle, cycle.len() as int).0),
        same_slots(v, apply_cycle_spec(h, v, arcs, cycle, cycle.len() as int).1),
        grid_ok(
            apply_cycle_spec(h, v, arcs, cycle, cycle.len() as int).0,
            apply_cycle_spec(h, v, arcs, cycle, cycle.len() as int).1,
            nrow,
            ncol,
        ),
        residues_equal(
            h,
            v,
            apply_cycle_spec(h, v, arcs, cycle, cycle.len() as int).0,
            apply_cycle_spec(h, v, arcs, cycle, cycle.len() as int).1,
            nrow,
            ncol,
        ),
{
    lemma_residual_arcs_valid(h, v, nrow, ncol, step);
    assert(cycle_indices_ok(arcs, cycle));
    lemma_total_correction_uniform(arcs, cycle, cycle.len() as int, h, v, nrow, ncol, step);
    assert forall|i: int| 0 <= i < arcs.len() implies if (#[trigger] arcs[i]).is_horizontal {
        arcs[i].edge_index < h.len()
    } else {
        arcs[i].edge_index < v.len()
    } by {
        assert(arc_geom_ok(arcs[i], nrow, ncol, step));
    }
    law_cycle_preserves_residues(h, v, nrow, ncol, arcs, cycle, step);
    lemma_cycle_prefix(h, v, nrow, ncol, arcs, cycle, step, cycle.len() as int);
    let fin = apply_cycle_spec(h, v, arcs, cycle, cycle.len() as int);
    lemma_within_slots(h, fin.0, cycle.len() * step);
    lemma_within_slots(v, fin.1, cycle.len() * step);
}

/// Repeatedly finds a negative cycle of the residual graph for a step of
/// `|nflow|` (at least 1) with `find_negative_unit_cycle` and pushes flow
/// around it, at most `max_cycles` times. Returns the number of cycles
/// applied. Stops early where an edge's numbers would leave their machine
/// range.
pub fn cancel_negative_cycles_with_nflow(
    horizontal: &mut Vec<Option<EdgeDatum>>,
    vertical: &mut Vec<Option<EdgeDatum>>,
    nrow: usize,
    ncol: usize,
    nflow: i32,
    max_cycles: usize,
) -> (applied: usize)
    requires
        nflow != i32::MIN,
        grid_ok(old(horizontal)@, old(vertical)@, nrow as int, ncol as int),
        dual_node_count(nrow as int, ncol as int) * (2 * (old(horizontal)@.len()
            + old(vertical)@.len())) <= 0x1_0000_0000_0000_0000_0000_0000,
        dual_node_count(nrow as int, ncol as int) <= usize::MAX,
    ensures
        applied <= max_cycles,
        same_slots(old(horizontal)@, final(horizontal)@),
        same_slots(old(vertical)@, final(vertical)@),
        residues_equal(
            old(horizontal)@,
            old(vertical)@,
            final(horizontal)@,
            final(vertical)@,
            nrow as int,
            ncol as int,
        ),
        applied == 0 ==> final(horizontal)@ == old(horizontal)@ && final(vertical)@ == old(vertical)@,
        applied > 0 ==> has_negative_walk(
            residual_arcs_spec(old(horizontal)@, old(vertical)@, nrow as int, ncol as int, step_of(nflow as int)),
        ),
{
    let prn = if nrow >= 1 { nrow - 1 } else { 0 };
    let pcn = if ncol >= 1 { ncol - 1 } else { 0 };
    let hl = horizontal.len();
    assert(prn * pcn <= nrow * pcn) by (nonlinear_arith)
        requires
            prn <= nrow,
            0 <= pcn,
    ;
    assert(dual_node_count(nrow as int, ncol as int) == prn * pcn + 1);
    let node_count = prn * pcn + 1;
    let a = if nflow < 0 { -nflow } else { nflow };
    let step = if a >= 1 { a } else { 1 };
    let ghost h0 = horizontal@;
    let ghost v0 = vertical@;
    let mut applied: usize = 0;
    while applied < max_cycles
        invariant
            applied <= max_cycles,
            step == step_of(nflow as int),
            1 <= step <= i32::MAX,
            nflow != i32::MIN,
            node_count == dual_node_count(nrow as int, ncol as int),
            grid_ok(horizontal@, vertical@, nrow as int, ncol as int),
            dual_node_count(nrow as int, ncol as int) * (2 * (horizontal@.len()
                + vertical@.len())) <= 0x1_0000_0000_0000_0000_0000_0000,
            same_slots(h0, horizontal@),
            same_slots(v0, vertical@),
            residues_equal(h0, v0, horizontal@, vertical@, nrow as int, ncol as int),
            applied == 0 ==> horizontal@ == h0 && vertical@ == v0,
            applied > 0 ==> has_negative_walk(residual_arcs_spec(h0, v0, nrow as int, ncol as int, step_of(nflow as int))),
        decreases max_cycles - applied,
    {
        if !edges_arc_in_range(horizontal, step) || !edges_arc_in_range(vertical, step) {
            break;
        }
        let arcs = build_residual_arcs_with_nflow(horizontal, vertical, nrow, ncol, nflow);
        let hl2 = horizontal.len();
        let vl2 = vertical.len();
        proof {
            lemma_family_arcs_len(horizontal@, true, horizontal@.len() as int, nrow as int, ncol as int, step as int);
            lemma_family_arcs_len(vertical@, false, vertical@.len() as int, nrow as int, ncol as int, step as int);
            assert(arcs@.len() <= 2 * (horizontal@.len() + vertical@.len()));
            assert((node_count as int) * (arcs@.len() as int) <= (node_count as int) * (2 * (
            horizontal@.len() + vertical@.len()))) by (nonlinear_arith)
                requires
                    arcs@.len() <= 2 * (horizontal@.len() + vertical@.len()),
                    node_count >= 0,
            ;
        }
        let cycle = match find_negative_unit_cycle(&arcs, node_count) {
            Some(c) => c,
            None => {
                break;
            },
        };
        let clen = cycle.len();
        assert((clen as int) * (step as int) <= 0x1_0000_0000_0000_0000 * 0x8000_0000) by (nonlinear_arith)
            requires
                clen <= 0x1_0000_0000_0000_0000,
                step <= 0x7fff_ffff,
                0 <= clen,
                1 <= step,
        ;
        let need_wide: u128 = (clen as u128) * (step as u128);
        if need_wide > 0x1_0000_0000u128 {
            break;
        }
        let need: i64 = need_wide as i64;
        if !edges_headroom_in_range(horizontal, need) || !edges_headroom_in_range(vertical, need) {
            break;
        }
        let ghost hb = horizontal@;
        let ghost vb = vertical@;
        proof {
            if applied == 0 {
                assert(is_closed_walk_rev(arcs@, cycle@) && cycle_cost_spec(arcs@, cycle@, cycle@.len() as int) < 0);
                assert(has_negative_walk(residual_arcs_spec(h0, v0, nrow as int, ncol as int, step_of(nflow as int))));
            }
        }
        proof {
            lemma_apply_valid_cycle(hb, vb, nrow as int, ncol as int, arcs@, cycle@, step as int);
        }
        apply_residual_cycle(horizontal, vertical, &arcs, &cycle);
        proof {
            lemma_slots_trans(h0, hb, horizontal@);
            lemma_slots_trans(v0, vb, vertical@);
        }
        applied = applied + 1;
    }
    applied
}

fn slot_delta(e: Option<EdgeDatum>) -> (r: i64)
    ensures
        r == dd(e),
{
    match e {
        Some(x) => x.desired_delta as i64,
        None => 0,
    }
}

/// The residue of every plaquette, in row-major plaquette order.
pub fn edge_residues(
    horizontal: &[Option<EdgeDatum>],
    vertical: &[Option<EdgeDatum>],
    nrow: usize,
    ncol: usize,
) -> (r: Vec<i64>)
    requires
        grid_ok(horizontal@, vertical@, nrow as int, ncol as int),
    ensures
        r@.len() == ground_node(nrow as int, ncol as int),
        forall|p: int|
            0 <= p < r@.len() ==> #[trigger] r@[p] == residue_at(horizontal@, vertical@, ncol as int, p),
{
    let mut out: Vec<i64> = Vec::new();
    if nrow < 2 || ncol < 2 {
        assert(ground_node(nrow as int, ncol as int) == 0) by (nonlinear_arith)
            requires
                nrow < 2 || ncol < 2,
                ground_node(nrow as int, ncol as int) == (if nrow >= 1 { nrow - 1 } else { 0 }) * (
                if ncol >= 1 { ncol - 1 } else { 0 }),
        ;
        return out;
    }
    let vl = vertical.len();
    let prn = nrow - 1;
    let pcn = ncol - 1;
    let hl = horizontal.len();
    assert(prn * pcn <= nrow * pcn) by (nonlinear_arith)
        requires
            prn <= nrow,
            0 <= pcn,
    ;
    let g = prn * pcn;
    let mut p: usize = 0;
    while p < g
        invariant
            p <= g,
            nrow >= 2,
            ncol >= 2,
            prn == nrow - 1,
            pcn == ncol - 1,
            g == ground_node(nrow as int, ncol as int),
            grid_ok(horizontal@, vertical@, nrow as int, ncol as int),
            vl == vertical@.len(),
            out@.len() == p,
            forall|q: int|
                0 <= q < p ==> #[trigger] out@[q] == residue_at(horizontal@, vertical@, ncol as int, q),
        decreases g - p,
    {
        proof {
            lemma_plaquette_bounds(p as int, nrow as int, ncol as int);
        }
        let row = p / pcn;
        let col = p % pcn;
        assert(row as int == (p as int) / ((ncol as int) - 1));
        assert(col as int == (p as int) % ((ncol as int) - 1));
        assert(left_of(p as int, ncol as int) == (row as int) * (ncol as int) + col as int);
        assert(vl as int == v_len(nrow as int, ncol as int));
        assert(row * ncol <= row * ncol + col);
        assert(row * ncol + col + 1 < vl);
        let left = row * ncol + col;
        let value = slot_delta(horizontal[p]) + slot_delta(vertical[left + 1]) - slot_delta(
            horizontal[p + pcn],
        ) - slot_delta(vertical[left]);
        out.push(value);
        p = p + 1;
    }
    out
}

/// Cancels negative unit-step cycles, at most `max_cycles` of them.
pub fn cancel_negative_unit_cycles(
    horizontal: &mut Vec<Option<EdgeDatum>>,
    vertical: &mut Vec<Option<EdgeDatum>>,
    nrow: usize,
    ncol: usize,
    max_cycles: usize,
) -> (applied: usize)
    requires
        grid_ok(old(horizontal)@, old(vertical)@, nrow as int, ncol as int),
        dual_node_count(nrow as int, ncol as int) * (2 * (old(horizontal)@.len()
            + old(vertical)@.len())) <= 0x1_0000_0000_0000_0000_0000_0000,
        dual_node_count(nrow as int, ncol as int) <= usize::MAX,
    ensures
        applied <= max_cycles,
        same_slots(old(horizontal)@, final(horizontal)@),
        same_slots(old(vertical)@, final(vertical)@),
        residues_equal(
            old(horizontal)@,
            old(vertical)@,
            final(horizontal)@,
            final(vertical)@,
            nrow as int,
            ncol as int,
        ),
        applied == 0 ==> final(horizontal)@ == old(horizontal)@ && final(vertical)@ == old(vertical)@,
        applied > 0 ==> has_negative_walk(residual_arcs_spec(old(horizontal)@, old(vertical)@, nrow as int, ncol as int, 1)),
{
    cancel_negative_cycles_with_nflow(horizontal, vertical, nrow, ncol, 1, max_cycles)
}

} // verus!
