//! The residual graph of the grid read in place: arc `k` is the forward
//! (even `k`) or reverse (odd `k`) arc of edge slot `k / 2`, the horizontal
//! slots first, and no arc list is built.
use vstd::prelude::*;
use crate::edges::{apply_edge_correction, horizontal_index, vertical_index, EdgeDatum};
use crate::flow_schedule::dual_node_count;
use crate::incr_cost::step_of;
use crate::residual::{
    apply_arc_spec, apply_cycle_spec, arc_cost_spec, arc_geom_ok, arcs_valid, cycle_indices_ok,
    edge_at, edges_arc_ok, edges_headroom, family_arcs, fwd_from, fwd_to, grid_ok, ground_node,
    h_len, is_cycle_walk, law_cycle_preserves_residues, lemma_correction_within, lemma_cycle_prefix,
    lemma_within_slots, make_arc, residual_arc_cost, residual_arcs_spec, residues_equal,
    same_edges_within, same_slots, v_len, ResidualArc,
};

verus! {

pub open spec fn sat_dec(x: int) -> int {
    if x >= 1 {
        x - 1
    } else {
        0
    }
}

/// Number of arcs a view of an `nrow` by `ncol` grid addresses: two per edge slot.
pub open spec fn view_arc_count(nrow: int, ncol: int) -> int {
    2 * (h_len(nrow, ncol) + v_len(nrow, ncol))
}

/// The arc and node counts of the grid fit in `usize`.
pub open spec fn view_dims_ok(nrow: int, ncol: int) -> bool {
    &&& 0 <= nrow
    &&& 0 <= ncol
    &&& view_arc_count(nrow, ncol) <= usize::MAX
    &&& dual_node_count(nrow, ncol) <= usize::MAX
}

/// Slot `i` of an edge array, absent past its end.
pub open spec fn opt_edge(s: Seq<Option<EdgeDatum>>, i: int) -> Option<EdgeDatum> {
    if 0 <= i < s.len() {
        s[i]
    } else {
        None
    }
}

/// Tail and head of the forward arc of edge slot `ei`: horizontal edges run
/// from the plaquette above (or the ground node on the top row) to the one
/// below (or the ground node on the bottom row); vertical edges run from the
/// plaquette on their right (or the ground node on the right border) to the
/// one on their left (or the ground node on the left border).
pub open spec fn view_ends(is_h: bool, ei: int, nrow: int, ncol: int) -> (int, int) {
    let pcn = sat_dec(ncol);
    let g = ground_node(nrow, ncol);
    if is_h {
        let row = ei / pcn;
        let col = ei % pcn;
        if row == 0 {
            (g, col)
        } else if row + 1 == nrow {
            ((row - 1) * pcn + col, g)
        } else {
            ((row - 1) * pcn + col, row * pcn + col)
        }
    } else {
        let row = ei / ncol;
        let col = ei % ncol;
        if col == 0 {
            (row * pcn, g)
        } else if col + 1 == ncol {
            (g, row * pcn + col - 1)
        } else {
            (row * pcn + col, row * pcn + col - 1)
        }
    }
}

/// Arc `k` of the view over edge arrays `h` and `v` for a step of `step`:
/// `None` past the last arc or where the edge slot is empty.
#[verifier::opaque]
pub open spec fn view_arc_spec(
    h: Seq<Option<EdgeDatum>>,
    v: Seq<Option<EdgeDatum>>,
    nrow: int,
    ncol: int,
    step: int,
    k: int,
) -> Option<ResidualArc> {
    if k < 0 || k >= view_arc_count(nrow, ncol) {
        None
    } else {
        let pair = k / 2;
        let reverse = k % 2 == 1;
        let is_h = pair < h_len(nrow, ncol);
        let ei = if is_h {
            pair
        } else {
            pair - h_len(nrow, ncol)
        };
        match opt_edge(if is_h { h } else { v }, ei) {
            None => None,
            Some(e) => {
                let f = view_ends(is_h, ei, nrow, ncol).0;
                let t = view_ends(is_h, ei, nrow, ncol).1;
                let d = if reverse { -step } else { step };
                Some(
                    ResidualArc {
                        from: (if reverse { t } else { f }) as usize,
                        to: (if reverse { f } else { t }) as usize,
                        cost: arc_cost_spec(e, d) as i32,
                        is_horizontal: is_h,
                        edge_index: ei as usize,
                        correction_delta: d as i32,
                    },
                )
            },
        }
    }
}

/// The present arcs among the first `k` arc indices of the view, each with
/// its index, in index order.
pub open spec fn view_present(
    h: Seq<Option<EdgeDatum>>,
    v: Seq<Option<EdgeDatum>>,
    nrow: int,
    ncol: int,
    step: int,
    k: int,
) -> Seq<(usize, ResidualArc)>
    decreases k,
{
    if k <= 0 {
        Seq::empty()
    } else {
        let prev = view_present(h, v, nrow, ncol, step, k - 1);
        match view_arc_spec(h, v, nrow, ncol, step, k - 1) {
            Some(a) => prev.push(((k - 1) as usize, a)),
            None => prev,
        }
    }
}

pub open spec fn arcs_of(s: Seq<(usize, ResidualArc)>) -> Seq<ResidualArc> {
    s.map_values(|x: (usize, ResidualArc)| x.1)
}

/// A view of the residual graph of an `nrow` by `ncol` grid for corrections
/// of `correction_step`.
pub struct CompactResidualView<'a> {
    pub horizontal: &'a [Option<EdgeDatum>],
    pub vertical: &'a [Option<EdgeDatum>],
    pub nrow: usize,
    pub ncol: usize,
    pub horizontal_pairs: usize,
    pub correction_step: i32,
}

impl<'a> CompactResidualView<'a> {
    /// The counts fit, the step is positive and every present edge can be
    /// priced for it.
    pub open spec fn wf(&self) -> bool {
        &&& view_dims_ok(self.nrow as int, self.ncol as int)
        &&& self.horizontal_pairs == h_len(self.nrow as int, self.ncol as int)
        &&& 1 <= self.correction_step
        &&& edges_arc_ok(self.horizontal@, self.correction_step as int)
        &&& edges_arc_ok(self.vertical@, self.correction_step as int)
    }

    /// Arc `k` of this view.
    #[verifier::opaque]
    pub open spec fn arc_at(&self, k: int) -> Option<ResidualArc> {
        view_arc_spec(
            self.horizontal@,
            self.vertical@,
            self.nrow as int,
            self.ncol as int,
            self.correction_step as int,
            k,
        )
    }

    /// The view for the unit step.
    pub fn new(
        horizontal: &'a [Option<EdgeDatum>],
        vertical: &'a [Option<EdgeDatum>],
        nrow: usize,
        ncol: usize,
    ) -> (r: Self)
        requires
            view_dims_ok(nrow as int, ncol as int),
            edges_arc_ok(horizontal@, 1),
            edges_arc_ok(vertical@, 1),
        ensures
            r.wf(),
            r.horizontal@ == horizontal@,
            r.vertical@ == vertical@,
            r.nrow == nrow,
            r.ncol == ncol,
            r.correction_step == 1,
    {
        Self::with_nflow(horizontal, vertical, nrow, ncol, 1)
    }

    /// The view for a step of `|nflow|`, at least 1.
    pub fn with_nflow(
        horizontal: &'a [Option<EdgeDatum>],
        vertical: &'a [Option<EdgeDatum>],
        nrow: usize,
        ncol: usize,
        nflow: i32,
    ) -> (r: Self)
        requires
            nflow != i32::MIN,
            view_dims_ok(nrow as int, ncol as int),
            edges_arc_ok(horizontal@, step_of(nflow as int)),
            edges_arc_ok(vertical@, step_of(nflow as int)),
        ensures
            r.wf(),
            r.horizontal@ == horizontal@,
            r.vertical@ == vertical@,
            r.nrow == nrow,
            r.ncol == ncol,
            r.correction_step == step_of(nflow as int),
    {
        let pcn = if ncol >= 1 { ncol - 1 } else { 0 };
        let prn = if nrow >= 1 { nrow - 1 } else { 0 };
        proof {
            assert(nrow * pcn <= view_arc_count(nrow as int, ncol as int)) by (nonlinear_arith)
                requires
                    0 <= nrow * pcn,
                    0 <= prn * ncol,
                    view_arc_count(nrow as int, ncol as int) == 2 * (nrow * pcn + prn * ncol),
            ;
        }
        let a = if nflow < 0 { -nflow } else { nflow };
        let correction_step = if a >= 1 { a } else { 1 };
        CompactResidualView {
            horizontal,
            vertical,
            nrow,
            ncol,
            horizontal_pairs: nrow * pcn,
            correction_step,
        }
    }

    /// Number of dual nodes: one per plaquette plus the ground node.
    pub fn node_count(&self) -> (r: usize)
        requires
            self.wf(),
        ensures
            r == dual_node_count(self.nrow as int, self.ncol as int),
            r >= 1,
    {
        let prn = if self.nrow >= 1 { self.nrow - 1 } else { 0 };
        let pcn = if self.ncol >= 1 { self.ncol - 1 } else { 0 };
        proof {
            assert(0 <= prn * pcn) by (nonlinear_arith)
                requires
                    0 <= prn,
                    0 <= pcn,
            ;
        }
        prn * pcn + 1
    }

    /// Number of arcs the view addresses: two per edge slot, present or not.
    pub fn arc_count(&self) -> (r: usize)
        requires
            self.wf(),
        ensures
            r == view_arc_count(self.nrow as int, self.ncol as int),
    {
        let prn = if self.nrow >= 1 { self.nrow - 1 } else { 0 };
        proof {
            assert(0 <= prn * self.ncol) by (nonlinear_arith)
                requires
                    0 <= prn,
                    0 <= self.ncol,
            ;
        }
        (self.horizontal_pairs + prn * self.ncol) * 2
    }

    /// Arc `arc_index`, or `None` past the last arc or where its edge is absent.
    pub fn arc(&self, arc_index: usize) -> (r: Option<ResidualArc>)
        requires
            self.wf(),
        ensures
            r == self.arc_at(arc_index as int),
            r is Some ==> (arc_index as int) < view_arc_count(self.nrow as int, self.ncol as int),
    {
        proof {
            reveal(CompactResidualView::arc_at);
            reveal(view_arc_spec);
        }
        if arc_index >= self.arc_count() {
            return None;
        }
        let pair = arc_index / 2;
        let reverse = arc_index % 2 == 1;
        let found = if pair < self.horizontal_pairs {
            self.horizontal_arc(pair)
        } else {
            self.vertical_arc(pair - self.horizontal_pairs)
        };
        let (from, to, is_horizontal, edge_index, edge) = match found {
            Some(x) => x,
            None => {
                return None;
            },
        };
        let correction_delta = if reverse {
            -self.correction_step
        } else {
            self.correction_step
        };
        proof {
            let s = if is_horizontal { self.horizontal@ } else { self.vertical@ };
            assert(s[edge_index as int] matches Some(e) ==> crate::residual::edge_arc_ok(
                e,
                self.correction_step as int,
            ));
        }
        Some(
            ResidualArc {
                from: if reverse {
                    to
                } else {
                    from
                },
                to: if reverse {
                    from
                } else {
                    to
                },
                cost: residual_arc_cost(edge, correction_delta),
                is_horizontal,
                edge_index,
                correction_delta,
            },
        )
    }

    /// Every present arc with its index, in index order.
    pub fn present_arcs(&self) -> (r: Vec<(usize, ResidualArc)>)
        requires
            self.wf(),
        ensures
            r@ == view_present(
                self.horizontal@,
                self.vertical@,
                self.nrow as int,
                self.ncol as int,
                self.correction_step as int,
                view_arc_count(self.nrow as int, self.ncol as int),
            ),
    {
        proof {
            reveal(view_arc_spec);
        }
        let count = self.arc_count();
        let mut out: Vec<(usize, ResidualArc)> = Vec::new();
        let mut index: usize = 0;
        while index < count
            invariant
                self.wf(),
                count == view_arc_count(self.nrow as int, self.ncol as int),
                index <= count,
                out@ == view_present(
                    self.horizontal@,
                    self.vertical@,
                    self.nrow as int,
                    self.ncol as int,
                    self.correction_step as int,
                    index as int,
                ),
            decreases count - index,
        {
            let found = self.arc(index);
            proof {
                reveal(CompactResidualView::arc_at);
                reveal(view_arc_spec);
            }
            match found {
                Some(arc) => {
                    out.push((index, arc));
                },
                None => {},
            }
            index = index + 1;
        }
        out
    }

    fn horizontal_arc(&self, pair: usize) -> (r: Option<(usize, usize, bool, usize, EdgeDatum)>)
        requires
            self.wf(),
            pair < self.horizontal_pairs,
        ensures
            r == (match opt_edge(self.horizontal@, pair as int) {
                None => None::<(usize, usize, bool, usize, EdgeDatum)>,
                Some(e) => Some(
                    (
                        view_ends(true, pair as int, self.nrow as int, self.ncol as int).0 as usize,
                        view_ends(true, pair as int, self.nrow as int, self.ncol as int).1 as usize,
                        true,
                        pair,
                        e,
                    ),
                ),
            }),
    {
        proof {
            reveal(view_arc_spec);
        }
        let pcn = if self.ncol >= 1 { self.ncol - 1 } else { 0 };
        if pcn == 0 {
            return None;
        }
        let row = pair / pcn;
        let col = pair % pcn;
        let ghost nrow = self.nrow as int;
        proof {
            lemma_div_mod_pos(pair as int, pcn as int);
            assert(row < nrow) by (nonlinear_arith)
                requires
                    pair == row * pcn + col,
                    pair < nrow * pcn,
                    0 <= col < pcn,
            ;
        }
        if row >= self.nrow {
            return None;
        }
        let edge_index = horizontal_index(row, col, self.ncol);
        let edge = if edge_index < self.horizontal.len() {
            match self.horizontal[edge_index] {
                Some(e) => e,
                None => {
                    return None;
                },
            }
        } else {
            return None;
        };
        let ground = self.node_count() - 1;
        proof {
            let prn = nrow - 1;
            assert(ground == prn * pcn);
            assert(row * pcn + col <= ground || row + 1 == nrow) by (nonlinear_arith)
                requires
                    0 <= row < nrow,
                    0 <= col < pcn,
                    prn == nrow - 1,
                    ground == prn * pcn,
            ;
            assert(row >= 1 ==> (row - 1) * pcn + col < ground) by (nonlinear_arith)
                requires
                    0 <= row < nrow,
                    0 <= col < pcn,
                    prn == nrow - 1,
                    ground == prn * pcn,
            ;
        }
        let (from, to) = if row == 0 {
            (ground, col)
        } else if row + 1 == self.nrow {
            ((row - 1) * pcn + col, ground)
        } else {
            ((row - 1) * pcn + col, row * pcn + col)
        };
        Some((from, to, true, edge_index, edge))
    }

    fn vertical_arc(&self, pair: usize) -> (r: Option<(usize, usize, bool, usize, EdgeDatum)>)
        requires
            self.wf(),
            pair < v_len(self.nrow as int, self.ncol as int),
        ensures
            r == (match opt_edge(self.vertical@, pair as int) {
                None => None::<(usize, usize, bool, usize, EdgeDatum)>,
                Some(e) => Some(
                    (
                        view_ends(false, pair as int, self.nrow as int, self.ncol as int).0 as usize,
                        view_ends(false, pair as int, self.nrow as int, self.ncol as int).1 as usize,
                        false,
                        pair,
                        e,
                    ),
                ),
            }),
    {
        proof {
            reveal(view_arc_spec);
        }
        let prn = if self.nrow >= 1 { self.nrow - 1 } else { 0 };
        let pcn = if self.ncol >= 1 { self.ncol - 1 } else { 0 };
        if prn == 0 || self.ncol == 0 {
            return None;
        }
        let row = pair / self.ncol;
        let col = pair % self.ncol;
        let ghost ncol = self.ncol as int;
        proof {
            lemma_div_mod_pos(pair as int, ncol);
            assert(row < prn) by (nonlinear_arith)
                requires
                    pair == row * ncol + col,
                    pair < prn * ncol,
                    0 <= col < ncol,
            ;
        }
        if row >= prn {
            return None;
        }
        let edge_index = vertical_index(row, col, self.ncol);
        let edge = if edge_index < self.vertical.len() {
            match self.vertical[edge_index] {
                Some(e) => e,
                None => {
                    return None;
                },
            }
        } else {
            return None;
        };
        let ground = self.node_count() - 1;
        proof {
            assert(ground == prn * pcn);
            assert(row * pcn + col <= ground + 1) by (nonlinear_arith)
                requires
                    0 <= row < prn,
                    0 <= col < ncol,
                    pcn == ncol - 1,
                    ground == prn * pcn,
            ;
            assert(col < ncol - 1 ==> row * pcn + col < ground) by (nonlinear_arith)
                requires
                    0 <= row < prn,
                    0 <= col < ncol,
                    pcn == ncol - 1,
                    ground == prn * pcn,
            ;
            assert(0 <= row * pcn) by (nonlinear_arith)
                requires
                    0 <= row,
                    0 <= pcn,
            ;
        }
        let (from, to) = if col == 0 {
            (row * pcn, ground)
        } else if col + 1 == self.ncol {
            (ground, row * pcn + col - 1)
        } else {
            (row * pcn + col, row * pcn + col - 1)
        };
        Some((from, to, false, edge_index, edge))
    }
}

/// The edge arrays after the corrections of the arcs named by the first `k`
/// indices of `cycle`, each read from the view of the arrays as they stand,
/// indices that name no arc skipped.
pub open spec fn view_apply(
    h: Seq<Option<EdgeDatum>>,
    v: Seq<Option<EdgeDatum>>,
    nrow: int,
    ncol: int,
    step: int,
    cycle: Seq<usize>,
    k: int,
) -> (Seq<Option<EdgeDatum>>, Seq<Option<EdgeDatum>>)
    decreases k,
{
    if k <= 0 {
        (h, v)
    } else {
        let prev = view_apply(h, v, nrow, ncol, step, cycle, k - 1);
        match view_arc_spec(prev.0, prev.1, nrow, ncol, step, cycle[k - 1] as int) {
            Some(a) => apply_arc_spec(prev.0, prev.1, a),
            None => prev,
        }
    }
}

/// The arcs of the view named by `cycle`, in order.
pub open spec fn view_cycle_arcs(
    h: Seq<Option<EdgeDatum>>,
    v: Seq<Option<EdgeDatum>>,
    nrow: int,
    ncol: int,
    step: int,
    cycle: Seq<usize>,
) -> Seq<ResidualArc> {
    Seq::new(cycle.len(), |i: int| view_arc_spec(h, v, nrow, ncol, step, cycle[i] as int)->0)
}

pub open spec fn index_seq(n: nat) -> Seq<usize> {
    Seq::new(n, |i: int| i as usize)
}

/// Every index of `cycle` names a present arc of the view, and the arcs form
/// a closed walk in one orientation or the other.
#[verifier::opaque]
pub open spec fn view_cycle_ok(
    h: Seq<Option<EdgeDatum>>,
    v: Seq<Option<EdgeDatum>>,
    nrow: int,
    ncol: int,
    step: int,
    cycle: Seq<usize>,
) -> bool {
    &&& forall|i: int|
        0 <= i < cycle.len() ==> view_arc_spec(h, v, nrow, ncol, step, #[trigger] cycle[i] as int) is Some
    &&& is_cycle_walk(view_cycle_arcs(h, v, nrow, ncol, step, cycle), index_seq(cycle.len()))
}

/// The edge and the correction of arc `index` of the view, without pricing it.
fn arc_target(
    horizontal: &Vec<Option<EdgeDatum>>,
    vertical: &Vec<Option<EdgeDatum>>,
    nrow: usize,
    ncol: usize,
    step: i32,
    index: usize,
) -> (r: Option<(bool, usize, i32)>)
    requires
        view_dims_ok(nrow as int, ncol as int),
        1 <= step,
    ensures
        r == (match view_arc_spec(
            horizontal@,
            vertical@,
            nrow as int,
            ncol as int,
            step as int,
            index as int,
        ) {
            Some(a) => Some((a.is_horizontal, a.edge_index, a.correction_delta)),
            None => None::<(bool, usize, i32)>,
        }),
{
    proof {
        reveal(view_arc_spec);
    }
    let pcn = if ncol >= 1 { ncol - 1 } else { 0 };
    let prn = if nrow >= 1 { nrow - 1 } else { 0 };
    proof {
        assert(nrow * pcn + prn * ncol <= view_arc_count(nrow as int, ncol as int)) by (nonlinear_arith)
            requires
                0 <= nrow * pcn,
                0 <= prn * ncol,
                view_arc_count(nrow as int, ncol as int) == 2 * (nrow * pcn + prn * ncol),
        ;
    }
    let hp = nrow * pcn;
    let count = (hp + prn * ncol) * 2;
    if index >= count {
        return None;
    }
    let pair = index / 2;
    let reverse = index % 2 == 1;
    let delta = if reverse {
        -step
    } else {
        step
    };
    if pair < hp {
        if pair < horizontal.len() && horizontal[pair].is_some() {
            Some((true, pair, delta))
        } else {
            None
        }
    } else {
        let ei = pair - hp;
        if ei < vertical.len() && vertical[ei].is_some() {
            Some((false, ei, delta))
        } else {
            None
        }
    }
}

proof fn lemma_within_mono(s: Seq<Option<EdgeDatum>>, t: Seq<Option<EdgeDatum>>, m: int, m2: int)
    requires
        same_edges_within(s, t, m),
        m <= m2,
    ensures
        same_edges_within(s, t, m2),
{
    assert forall|i: int| 0 <= i < s.len() implies match (#[trigger] s[i], t[i]) {
        (Some(a), Some(b)) => {
            &&& a.cost == b.cost
            &&& a.offset == b.offset
            &&& a.dzmax == b.dzmax
            &&& a.laycost == b.laycost
            &&& a.nshortcycle == b.nshortcycle
            &&& a.flow_sign == b.flow_sign
            &&& -m2 <= b.desired_delta - a.desired_delta <= m2
            &&& -m2 <= b.flow - a.flow <= m2
        },
        (None, None) => true,
        _ => false,
    } by {
        assert(match (s[i], t[i]) {
            (Some(a), Some(b)) => {
                &&& a.cost == b.cost
                &&& a.offset == b.offset
                &&& a.dzmax == b.dzmax
                &&& a.laycost == b.laycost
                &&& a.nshortcycle == b.nshortcycle
                &&& a.flow_sign == b.flow_sign
                &&& -m <= b.desired_delta - a.desired_delta <= m
                &&& -m <= b.flow - a.flow <= m
            },
            (None, None) => true,
            _ => false,
        });
    }
}

/// Unit-step form of `apply_compact_residual_cycle_with_nflow`.
pub fn apply_compact_residual_cycle(
    horizontal: &mut Vec<Option<EdgeDatum>>,
    vertical: &mut Vec<Option<EdgeDatum>>,
    nrow: usize,
    ncol: usize,
    cycle: &[usize],
)
    requires
        view_dims_ok(nrow as int, ncol as int),
        edges_headroom(old(horizontal)@, cycle@.len() as int),
        edges_headroom(old(vertical)@, cycle@.len() as int),
    ensures
        (final(horizontal)@, final(vertical)@) == view_apply(
            old(horizontal)@,
            old(vertical)@,
            nrow as int,
            ncol as int,
            1,
            cycle@,
            cycle@.len() as int,
        ),
{
    proof {
        assert(step_of(1) == 1);
        assert(cycle@.len() * 1 == cycle@.len());
    }
    apply_compact_residual_cycle_with_nflow(horizontal, vertical, nrow, ncol, cycle, 1);
}

/// For each index of `cycle`, in order, corrects the edge of the view's arc
/// at that index, read from the arrays as they stand, by the arc's step of
/// `|nflow|` (at least 1); indices that name no arc are skipped.
pub fn apply_compact_residual_cycle_with_nflow(
    horizontal: &mut Vec<Option<EdgeDatum>>,
    vertical: &mut Vec<Option<EdgeDatum>>,
    nrow: usize,
    ncol: usize,
    cycle: &[usize],
    nflow: i32,
)
    requires
        nflow != i32::MIN,
        view_dims_ok(nrow as int, ncol as int),
        edges_headroom(old(horizontal)@, cycle@.len() * step_of(nflow as int)),
        edges_headroom(old(vertical)@, cycle@.len() * step_of(nflow as int)),
    ensures
        (final(horizontal)@, final(vertical)@) == view_apply(
            old(horizontal)@,
            old(vertical)@,
            nrow as int,
            ncol as int,
            step_of(nflow as int),
            cycle@,
            cycle@.len() as int,
        ),
{
    proof {
        reveal(view_arc_spec);
    }
    let ghost h0 = horizontal@;
    let ghost v0 = vertical@;
    let ghost step = step_of(nflow as int);
    let ghost n = cycle@.len() as int;
    let a = if nflow < 0 { -nflow } else { nflow };
    let correction_step = if a >= 1 { a } else { 1 };
    let mut k: usize = 0;
    proof {
        assert(same_edges_within(h0, h0, 0));
        assert(same_edges_within(v0, v0, 0));
        assert(0 * step == 0);
    }
    while k < cycle.len()
        invariant
            view_dims_ok(nrow as int, ncol as int),
            correction_step == step,
            1 <= step <= i32::MAX,
            n == cycle@.len(),
            k <= n,
            edges_headroom(h0, n * step),
            edges_headroom(v0, n * step),
            same_edges_within(h0, horizontal@, k * step),
            same_edges_within(v0, vertical@, k * step),
            (horizontal@, vertical@) == view_apply(h0, v0, nrow as int, ncol as int, step, cycle@, k as int),
        decreases n - k,
    {
        let ghost prev_h = horizontal@;
        let ghost prev_v = vertical@;
        proof {
            reveal(view_arc_spec);
            crate::residual::lemma_step_mul(k as int, step);
            assert(k * step <= (k + 1) * step);
        }
        match arc_target(horizontal, vertical, nrow, ncol, correction_step, cycle[k]) {
            Some((is_h, ei, d)) => {
                if is_h {
                    proof {
                        assert(match (h0[ei as int], prev_h[ei as int]) {
                            (Some(x), Some(y)) => true,
                            (None, None) => true,
                            _ => false,
                        });
                        lemma_correction_within(h0, prev_h, ei as int, k as int, n, step, d as int);
                        lemma_within_mono(v0, prev_v, k * step, (k + 1) * step);
                    }
                    let mut e = horizontal[ei];
                    apply_edge_correction(&mut e, d);
                    horizontal.set(ei, e);
                } else {
                    proof {
                        assert(match (v0[ei as int], prev_v[ei as int]) {
                            (Some(x), Some(y)) => true,
                            (None, None) => true,
                            _ => false,
                        });
                        lemma_correction_within(v0, prev_v, ei as int, k as int, n, step, d as int);
                        lemma_within_mono(h0, prev_h, k * step, (k + 1) * step);
                    }
                    let mut e = vertical[ei];
                    apply_edge_correction(&mut e, d);
                    vertical.set(ei, e);
                }
            },
            None => {
                proof {
                    lemma_within_mono(h0, prev_h, k * step, (k + 1) * step);
                    lemma_within_mono(v0, prev_v, k * step, (k + 1) * step);
                }
            },
        }
        k = k + 1;
    }
}

/// Law: pushing flow around a closed walk of present arcs of the view leaves
/// the residue of every plaquette, and the slots of the edges, unchanged.
pub proof fn law_view_cycle_preserves_residues(
    h: Seq<Option<EdgeDatum>>,
    v: Seq<Option<EdgeDatum>>,
    nrow: int,
    ncol: int,
    step: int,
    cycle: Seq<usize>,
)
    requires
        grid_ok(h, v, nrow, ncol),
        nrow >= 2,
        ncol >= 2,
        1 <= step <= i32::MAX,
        cycle.len() <= usize::MAX,
        view_dims_ok(nrow, ncol),
        view_cycle_ok(h, v, nrow, ncol, step, cycle),
        edges_headroom(h, cycle.len() * step),
        edges_headroom(v, cycle.len() * step),
    ensures
        residues_equal(
            h,
            v,
            view_apply(h, v, nrow, ncol, step, cycle, cycle.len() as int).0,
            view_apply(h, v, nrow, ncol, step, cycle, cycle.len() as int).1,
            nrow,
            ncol,
        ),
        same_slots(h, view_apply(h, v, nrow, ncol, step, cycle, cycle.len() as int).0),
        same_slots(v, view_apply(h, v, nrow, ncol, step, cycle, cycle.len() as int).1),
{
    reveal(view_cycle_ok);
    let used = view_cycle_arcs(h, v, nrow, ncol, step, cycle);
    let n = cycle.len() as int;
    let ident = index_seq(cycle.len());
    lemma_view_cycle_arcs_valid(h, v, nrow, ncol, step, cycle);
    assert(arcs_valid(used, h, v, nrow, ncol, step));
    assert(cycle_indices_ok(used, ident));
    assert(ident.len() == n);
    law_cycle_preserves_residues(h, v, nrow, ncol, used, ident, step);
    lemma_view_apply_matches(h, v, nrow, ncol, step, cycle, n);
    lemma_cycle_prefix(h, v, nrow, ncol, used, ident, step, n);
    lemma_within_slots(h, apply_cycle_spec(h, v, used, ident, n).0, n * step);
    lemma_within_slots(v, apply_cycle_spec(h, v, used, ident, n).1, n * step);
}

/// The arcs named by the indices of a cycle of present view arcs belong to
/// the residual graph of the grid.
proof fn lemma_view_cycle_arcs_valid(
    h: Seq<Option<EdgeDatum>>,
    v: Seq<Option<EdgeDatum>>,
    nrow: int,
    ncol: int,
    step: int,
    cycle: Seq<usize>,
)
    requires
        grid_ok(h, v, nrow, ncol),
        nrow >= 2,
        ncol >= 2,
        1 <= step <= i32::MAX,
        view_dims_ok(nrow, ncol),
        forall|i: int|
            0 <= i < cycle.len() ==> view_arc_spec(h, v, nrow, ncol, step, #[trigger] cycle[i] as int)
                is Some,
    ensures
        arcs_valid(view_cycle_arcs(h, v, nrow, ncol, step, cycle), h, v, nrow, ncol, step),
{
    reveal(view_arc_spec);
    let used = view_cycle_arcs(h, v, nrow, ncol, step, cycle);
    assert forall|i: int| 0 <= i < used.len() implies {
        &&& arc_geom_ok(#[trigger] used[i], nrow, ncol, step)
        &&& edge_at(h, v, used[i].is_horizontal, used[i].edge_index as int) is Some
    } by {
        assert(view_arc_spec(h, v, nrow, ncol, step, cycle[i] as int) is Some);
        let k = cycle[i] as int;
        let pair = k / 2;
        let is_h = pair < h_len(nrow, ncol);
        let ei = if is_h { pair } else { pair - h_len(nrow, ncol) };
        assert(view_arc_count(nrow, ncol) == 2 * (h_len(nrow, ncol) + v_len(nrow, ncol)));
        assert(0 <= pair < h_len(nrow, ncol) + v_len(nrow, ncol));
        lemma_view_ends_match(is_h, ei, nrow, ncol);
        crate::residual::lemma_fwd_bounds(is_h, ei, nrow, ncol);
        assert(ground_node(nrow, ncol) < dual_node_count(nrow, ncol));
        assert(used[i] == view_arc_spec(h, v, nrow, ncol, step, k)->0);
    }
}

proof fn lemma_view_apply_matches(
    h: Seq<Option<EdgeDatum>>,
    v: Seq<Option<EdgeDatum>>,
    nrow: int,
    ncol: int,
    step: int,
    cycle: Seq<usize>,
    k: int,
)
    requires
        grid_ok(h, v, nrow, ncol),
        nrow >= 2,
        ncol >= 2,
        1 <= step <= i32::MAX,
        cycle.len() <= usize::MAX,
        arcs_valid(view_cycle_arcs(h, v, nrow, ncol, step, cycle), h, v, nrow, ncol, step),
        forall|i: int|
            0 <= i < cycle.len() ==> view_arc_spec(h, v, nrow, ncol, step, #[trigger] cycle[i] as int)
                is Some,
        edges_headroom(h, cycle.len() * step),
        edges_headroom(v, cycle.len() * step),
        0 <= k <= cycle.len(),
    ensures
        view_apply(h, v, nrow, ncol, step, cycle, k) == apply_cycle_spec(
            h,
            v,
            view_cycle_arcs(h, v, nrow, ncol, step, cycle),
            index_seq(cycle.len()),
            k,
        ),
    decreases k,
{
    reveal(view_arc_spec);
    let used = view_cycle_arcs(h, v, nrow, ncol, step, cycle);
    let ident = index_seq(cycle.len());
    if k > 0 {
        lemma_view_apply_matches(h, v, nrow, ncol, step, cycle, k - 1);
        assert(cycle_indices_ok(used, ident));
        lemma_cycle_prefix(h, v, nrow, ncol, used, ident, step, k - 1);
        let prev = apply_cycle_spec(h, v, used, ident, k - 1);
        lemma_within_slots(h, prev.0, (k - 1) * step);
        lemma_within_slots(v, prev.1, (k - 1) * step);
        let c = cycle[k - 1] as int;
        assert(view_arc_spec(h, v, nrow, ncol, step, c) is Some);
        assert(ident[k - 1] == (k - 1) as usize);
        let a = used[k - 1];
        assert(view_arc_spec(h, v, nrow, ncol, step, c) == Some(a));
        let pair = c / 2;
        let is_h = pair < h_len(nrow, ncol);
        let ei = if is_h { pair } else { pair - h_len(nrow, ncol) };
        assert(prev.0.len() == h.len() && prev.1.len() == v.len());
        if is_h {
            assert(h[ei] is Some <==> prev.0[ei] is Some);
        } else {
            assert(v[ei] is Some <==> prev.1[ei] is Some);
        }
        let b = view_arc_spec(prev.0, prev.1, nrow, ncol, step, c)->0;
        assert(view_arc_spec(prev.0, prev.1, nrow, ncol, step, c) == Some(b));
        assert(b.is_horizontal == a.is_horizontal && b.edge_index == a.edge_index
            && b.correction_delta == a.correction_delta);
        assert(apply_arc_spec(prev.0, prev.1, b) == apply_arc_spec(prev.0, prev.1, a));
    }
}

/// Where arc `t` of the view over `h` and `v` is present, both its ends are
/// dual nodes.
#[verifier::opaque]
pub open spec fn arc_in_nodes_spec(
    h: Seq<Option<EdgeDatum>>,
    v: Seq<Option<EdgeDatum>>,
    nrow: int,
    ncol: int,
    step: int,
    t: int,
) -> bool {
    view_arc_spec(h, v, nrow, ncol, step, t) matches Some(a) ==> (a.from as int) < dual_node_count(
        nrow,
        ncol,
    ) && (a.to as int) < dual_node_count(nrow, ncol)
}

/// Arc `k` has the same presence, ends, edge and correction in two views
/// whose edges sit in the same slots.
pub proof fn lemma_view_arc_same_slots(
    h1: Seq<Option<EdgeDatum>>,
    v1: Seq<Option<EdgeDatum>>,
    h2: Seq<Option<EdgeDatum>>,
    v2: Seq<Option<EdgeDatum>>,
    nrow: int,
    ncol: int,
    step: int,
    k: int,
)
    requires
        same_slots(h1, h2),
        same_slots(v1, v2),
    ensures
        (view_arc_spec(h1, v1, nrow, ncol, step, k) is Some) == (view_arc_spec(
            h2,
            v2,
            nrow,
            ncol,
            step,
            k,
        ) is Some),
        view_arc_spec(h1, v1, nrow, ncol, step, k) is Some ==> {
            let a = view_arc_spec(h1, v1, nrow, ncol, step, k)->0;
            let b = view_arc_spec(h2, v2, nrow, ncol, step, k)->0;
            &&& a.from == b.from
            &&& a.to == b.to
            &&& a.is_horizontal == b.is_horizontal
            &&& a.edge_index == b.edge_index
            &&& a.correction_delta == b.correction_delta
        },
{
    reveal(view_arc_spec);
    if 0 <= k < view_arc_count(nrow, ncol) {
        let pair = k / 2;
        let is_h = pair < h_len(nrow, ncol);
        let ei = if is_h { pair } else { pair - h_len(nrow, ncol) };
        if is_h {
            if 0 <= ei < h1.len() {
                assert(h1[ei] is Some <==> h2[ei] is Some);
            }
        } else {
            if 0 <= ei < v1.len() {
                assert(v1[ei] is Some <==> v2[ei] is Some);
            }
        }
    }
}

/// A cycle of present view arcs stays one when the edges keep their slots.
pub proof fn lemma_view_cycle_ok_same_slots(
    h1: Seq<Option<EdgeDatum>>,
    v1: Seq<Option<EdgeDatum>>,
    h2: Seq<Option<EdgeDatum>>,
    v2: Seq<Option<EdgeDatum>>,
    nrow: int,
    ncol: int,
    step: int,
    cycle: Seq<usize>,
)
    requires
        same_slots(h1, h2),
        same_slots(v1, v2),
        view_cycle_ok(h1, v1, nrow, ncol, step, cycle),
    ensures
        view_cycle_ok(h2, v2, nrow, ncol, step, cycle),
{
    reveal(view_cycle_ok);
    reveal(view_arc_spec);
    let a1 = view_cycle_arcs(h1, v1, nrow, ncol, step, cycle);
    let a2 = view_cycle_arcs(h2, v2, nrow, ncol, step, cycle);
    assert forall|i: int| 0 <= i < cycle.len() implies (#[trigger] a1[i]).from == a2[i].from && a1[i].to
        == a2[i].to && view_arc_spec(h2, v2, nrow, ncol, step, cycle[i] as int) is Some by {
        assert(view_arc_spec(h1, v1, nrow, ncol, step, cycle[i] as int) is Some);
        lemma_view_arc_same_slots(h1, v1, h2, v2, nrow, ncol, step, cycle[i] as int);
    }
    lemma_walk_same_ends(a1, a2, index_seq(cycle.len()));
}

/// A closed walk stays one when every arc keeps its ends.
proof fn lemma_walk_same_ends(a1: Seq<ResidualArc>, a2: Seq<ResidualArc>, ident: Seq<usize>)
    requires
        a1.len() == a2.len(),
        forall|i: int| 0 <= i < a1.len() ==> (#[trigger] a1[i]).from == a2[i].from && a1[i].to == a2[i].to,
        is_cycle_walk(a1, ident),
    ensures
        is_cycle_walk(a2, ident),
{
    if crate::residual::is_closed_walk(a1, ident) {
        assert forall|i: int| 0 <= i < ident.len() - 1 implies a2[#[trigger] ident[i] as int].to
            == a2[ident[i + 1] as int].from by {
            assert(a1[ident[i] as int].to == a1[ident[i + 1] as int].from);
            assert(ident[i] < a1.len() && ident[i + 1] < a1.len());
            let j1 = ident[i] as int;
            let j2 = ident[i + 1] as int;
            assert(a1[j1].to == a2[j1].to);
            assert(a1[j2].from == a2[j2].from);
        }
        let last = ident[ident.len() - 1] as int;
        assert(ident[ident.len() - 1] < a1.len());
        assert(a1[last].to == a2[last].to);
        assert(a1[ident[0] as int].from == a2[ident[0] as int].from);
        assert(crate::residual::is_closed_walk(a2, ident));
    } else {
        assert forall|i: int| 0 <= i < ident.len() - 1 implies a2[#[trigger] ident[i] as int].from
            == a2[ident[i + 1] as int].to by {
            assert(a1[ident[i] as int].from == a1[ident[i + 1] as int].to);
            assert(a1[ident[i] as int].from == a2[ident[i] as int].from);
            assert(a1[ident[i + 1] as int].to == a2[ident[i + 1] as int].to);
        }
        let last = ident[ident.len() - 1] as int;
        assert(a1[last].from == a2[last].from);
        assert(a1[ident[0] as int].to == a2[ident[0] as int].to);
        assert(crate::residual::is_closed_walk_rev(a2, ident));
    }
}

/// Applying view arcs keeps every edge in its slot.
pub proof fn lemma_view_apply_slots(
    h: Seq<Option<EdgeDatum>>,
    v: Seq<Option<EdgeDatum>>,
    nrow: int,
    ncol: int,
    step: int,
    cycle: Seq<usize>,
    k: int,
)
    ensures
        same_slots(h, view_apply(h, v, nrow, ncol, step, cycle, k).0),
        same_slots(v, view_apply(h, v, nrow, ncol, step, cycle, k).1),
    decreases k,
{
    reveal(view_arc_spec);
    if k > 0 {
        lemma_view_apply_slots(h, v, nrow, ncol, step, cycle, k - 1);
        let prev = view_apply(h, v, nrow, ncol, step, cycle, k - 1);
        let cur = view_apply(h, v, nrow, ncol, step, cycle, k);
        match view_arc_spec(prev.0, prev.1, nrow, ncol, step, cycle[k - 1] as int) {
            Some(a) => {
                let ei = a.edge_index as int;
                assert forall|i: int| 0 <= i < h.len() implies (#[trigger] h[i] is Some <==> cur.0[i] is Some) by {
                    assert(h[i] is Some <==> prev.0[i] is Some);
                }
                assert forall|i: int| 0 <= i < v.len() implies (#[trigger] v[i] is Some <==> cur.1[i] is Some) by {
                    assert(v[i] is Some <==> prev.1[i] is Some);
                }
            },
            None => {},
        }
    }
}

/// On a grid of at least two rows and two columns the view's ends of an edge
/// are those of the materialized residual graph.
pub proof fn lemma_view_ends_match(is_h: bool, ei: int, nrow: int, ncol: int)
    requires
        nrow >= 2,
        ncol >= 2,
        0 <= ei,
        if is_h { ei < h_len(nrow, ncol) } else { ei < v_len(nrow, ncol) },
    ensures
        view_ends(is_h, ei, nrow, ncol).0 == fwd_from(is_h, ei, nrow, ncol),
        view_ends(is_h, ei, nrow, ncol).1 == fwd_to(is_h, ei, nrow, ncol),
{
    let pcn = ncol - 1;
    let g = ground_node(nrow, ncol);
    assert(g == (nrow - 1) * pcn);
    if is_h {
        lemma_div_mod_pos(ei, pcn);
        let row = ei / pcn;
        let col = ei % pcn;
        assert(row < nrow) by (nonlinear_arith)
            requires
                ei == row * pcn + col,
                ei < nrow * pcn,
                0 <= col < pcn,
        ;
        assert(ei >= pcn <==> row >= 1) by (nonlinear_arith)
            requires
                ei == row * pcn + col,
                0 <= col < pcn,
                0 <= row,
        ;
        assert(ei < g <==> row < nrow - 1) by (nonlinear_arith)
            requires
                ei == row * pcn + col,
                0 <= col < pcn,
                0 <= row,
                g == (nrow - 1) * pcn,
        ;
        assert(ei - pcn == (row - 1) * pcn + col) by (nonlinear_arith)
            requires
                ei == row * pcn + col,
        ;
        assert(row == 0 ==> ei == col) by (nonlinear_arith)
            requires
                ei == row * pcn + col,
        ;
    } else {
        lemma_div_mod_pos(ei, ncol);
    }
}

/// Law: scanning the view yields exactly the arcs of the materialized
/// residual graph, in the same order, on a grid of at least two rows and two
/// columns.
pub proof fn law_view_scan_matches_materialized(
    h: Seq<Option<EdgeDatum>>,
    v: Seq<Option<EdgeDatum>>,
    nrow: int,
    ncol: int,
    step: int,
)
    requires
        grid_ok(h, v, nrow, ncol),
        nrow >= 2,
        ncol >= 2,
    ensures
        arcs_of(view_present(h, v, nrow, ncol, step, view_arc_count(nrow, ncol)))
            == residual_arcs_spec(h, v, nrow, ncol, step),
{
    let hl = h_len(nrow, ncol);
    let vl = v_len(nrow, ncol);
    lemma_present_h(h, v, nrow, ncol, step, hl);
    lemma_present_v(h, v, nrow, ncol, step, vl);
    assert(view_arc_count(nrow, ncol) == 2 * (hl + vl));
}

proof fn lemma_present_h(
    h: Seq<Option<EdgeDatum>>,
    v: Seq<Option<EdgeDatum>>,
    nrow: int,
    ncol: int,
    step: int,
    q: int,
)
    requires
        grid_ok(h, v, nrow, ncol),
        nrow >= 2,
        ncol >= 2,
        0 <= q <= h_len(nrow, ncol),
    ensures
        arcs_of(view_present(h, v, nrow, ncol, step, 2 * q)) == family_arcs(h, true, q, nrow, ncol, step),
    decreases q,
{
    reveal(view_arc_spec);
    if q > 0 {
        lemma_present_h(h, v, nrow, ncol, step, q - 1);
        let ei = q - 1;
        lemma_view_ends_match(true, ei, nrow, ncol);
        let prev = view_present(h, v, nrow, ncol, step, 2 * ei);
        assert(view_arc_count(nrow, ncol) == 2 * (h_len(nrow, ncol) + v_len(nrow, ncol)));
        assert((2 * ei) / 2 == ei);
        assert((2 * ei + 1) / 2 == ei);
        assert((2 * ei) % 2 == 0);
        assert((2 * ei + 1) % 2 == 1);
        let mid = view_present(h, v, nrow, ncol, step, 2 * ei + 1);
        match h[ei] {
            Some(e) => {
                let fa = make_arc(true, ei, e, true, nrow, ncol, step);
                let ra = make_arc(true, ei, e, false, nrow, ncol, step);
                assert(view_arc_spec(h, v, nrow, ncol, step, 2 * ei) == Some(fa));
                assert(view_arc_spec(h, v, nrow, ncol, step, 2 * ei + 1) == Some(ra));
                assert(arcs_of(mid) =~= arcs_of(prev).push(fa));
                assert(arcs_of(view_present(h, v, nrow, ncol, step, 2 * q)) =~= arcs_of(mid).push(ra));
            },
            None => {
                assert(view_arc_spec(h, v, nrow, ncol, step, 2 * ei) is None);
                assert(view_arc_spec(h, v, nrow, ncol, step, 2 * ei + 1) is None);
            },
        }
    }
}

proof fn lemma_present_v(
    h: Seq<Option<EdgeDatum>>,
    v: Seq<Option<EdgeDatum>>,
    nrow: int,
    ncol: int,
    step: int,
    q: int,
)
    requires
        grid_ok(h, v, nrow, ncol),
        nrow >= 2,
        ncol >= 2,
        0 <= q <= v_len(nrow, ncol),
    ensures
        arcs_of(view_present(h, v, nrow, ncol, step, 2 * (h_len(nrow, ncol) + q))) == family_arcs(
            h,
            true,
            h_len(nrow, ncol),
            nrow,
            ncol,
            step,
        ) + family_arcs(v, false, q, nrow, ncol, step),
    decreases q,
{
    reveal(view_arc_spec);
    let hl = h_len(nrow, ncol);
    if q == 0 {
        lemma_present_h(h, v, nrow, ncol, step, hl);
        assert(family_arcs(v, false, 0, nrow, ncol, step) =~= Seq::<ResidualArc>::empty());
        assert(family_arcs(h, true, hl, nrow, ncol, step) + family_arcs(v, false, 0, nrow, ncol, step)
            =~= family_arcs(h, true, hl, nrow, ncol, step));
    } else {
        lemma_present_v(h, v, nrow, ncol, step, q - 1);
        let ei = q - 1;
        let k = 2 * (hl + ei);
        lemma_view_ends_match(false, ei, nrow, ncol);
        let fam = family_arcs(h, true, hl, nrow, ncol, step);
        let prev = view_present(h, v, nrow, ncol, step, k);
        assert(view_arc_count(nrow, ncol) == 2 * (h_len(nrow, ncol) + v_len(nrow, ncol)));
        assert(k / 2 == hl + ei);
        assert((k + 1) / 2 == hl + ei);
        assert(k % 2 == 0);
        assert((k + 1) % 2 == 1);
        let mid = view_present(h, v, nrow, ncol, step, k + 1);
        assert(2 * (hl + q) == k + 2);
        match v[ei] {
            Some(e) => {
                let fa = make_arc(false, ei, e, true, nrow, ncol, step);
                let ra = make_arc(false, ei, e, false, nrow, ncol, step);
                assert(view_arc_spec(h, v, nrow, ncol, step, k) == Some(fa));
                assert(view_arc_spec(h, v, nrow, ncol, step, k + 1) == Some(ra));
                assert(arcs_of(mid) =~= arcs_of(prev).push(fa));
                assert(arcs_of(view_present(h, v, nrow, ncol, step, k + 2)) =~= arcs_of(mid).push(ra));
                assert(family_arcs(v, false, q, nrow, ncol, step) == family_arcs(
                    v,
                    false,
                    ei,
                    nrow,
                    ncol,
                    step,
                ).push(fa).push(ra));
                assert(fam + family_arcs(v, false, q, nrow, ncol, step) =~= (fam + family_arcs(
                    v,
                    false,
                    ei,
                    nrow,
                    ncol,
                    step,
                )).push(fa).push(ra));
            },
            None => {
                assert(view_arc_spec(h, v, nrow, ncol, step, k) is None);
                assert(view_arc_spec(h, v, nrow, ncol, step, k + 1) is None);
                assert(family_arcs(v, false, q, nrow, ncol, step) == family_arcs(
                    v,
                    false,
                    ei,
                    nrow,
                    ncol,
                    step,
                ));
            },
        }
    }
}

proof fn lemma_div_mod_pos(x: int, d: int)
    requires
        0 <= x,
        d > 0,
    ensures
        x == (x / d) * d + x % d,
        0 <= x % d < d,
        0 <= x / d,
{
    vstd::arithmetic::div_mod::lemma_fundamental_div_mod(x, d);
    assert((x / d) * d == d * (x / d)) by (nonlinear_arith);
    assert(0 <= x / d) by (nonlinear_arith)
        requires
            x == d * (x / d) + x % d,
            0 <= x,
            0 <= x % d < d,
    ;
}

} // verus!
