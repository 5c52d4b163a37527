//! Terms of the binary label-shift energy as arcs of an s-t cut network, and
//! the indexing of the cells of a rectangular window.
use vstd::prelude::*;
use crate::edges::{
    edge_label_energy, horizontal_index, label_energy, label_energy_ok, lemma_cost_range, vertical_index,
    EdgeDatum,
};
use crate::residual::grid_ok;

verus! {

/// One arc of the cut network. `pairwise` marks the arc of a pairwise term.
#[derive(Clone, Copy, Debug, PartialEq, Eq)]
pub struct CutArc {
    pub from: usize,
    pub to: usize,
    pub capacity: i64,
    pub pairwise: bool,
}

/// The arcs of an s-t cut network, in the order they were added.
pub struct CutGraph {
    pub arcs: Vec<CutArc>,
}

impl CutGraph {
    /// A network without arcs.
    pub fn new() -> (r: Self)
        ensures
            r.arcs@.len() == 0,
    {
        CutGraph { arcs: Vec::new() }
    }

    /// Adds an arc of a unary term.
    pub fn add_arc(&mut self, from: usize, to: usize, capacity: i64)
        ensures
            final(self).arcs@ == old(self).arcs@.push(
                CutArc { from, to, capacity, pairwise: false },
            ),
    {
        self.arcs.push(CutArc { from, to, capacity, pairwise: false });
    }

    /// Adds the arc of a pairwise term between two cells.
    pub fn add_cut_edge(&mut self, from: usize, to: usize, capacity: i64)
        ensures
            final(self).arcs@ == old(self).arcs@.push(
                CutArc { from, to, capacity, pairwise: true },
            ),
    {
        self.arcs.push(CutArc { from, to, capacity, pairwise: true });
    }
}

pub open spec fn in_i64(x: int) -> bool {
    i64::MIN <= x <= i64::MAX
}

pub open spec fn max0(x: int) -> int {
    if x > 0 {
        x
    } else {
        0
    }
}

/// A unary term with cost `d0` for keeping `node` and `d1` for shifting it:
/// the source arc carries what shifting costs beyond the cheaper choice, the
/// sink arc what keeping costs beyond it.
pub fn add_unary(graph: &mut CutGraph, source: usize, sink: usize, node: usize, d0: i64, d1: i64)
    requires
        in_i64(d1 - d0),
        in_i64(d0 - d1),
    ensures
        final(graph).arcs@ == old(graph).arcs@.push(
            CutArc { from: source, to: node, capacity: max0(d1 - d0) as i64, pairwise: false },
        ).push(CutArc { from: node, to: sink, capacity: max0(d0 - d1) as i64, pairwise: false }),
{
    let base = if d0 <= d1 {
        d0
    } else {
        d1
    };
    graph.add_arc(source, node, d1 - base);
    graph.add_arc(node, sink, d0 - base);
}

/// A unary term that costs `coeff` for shifting `node` and nothing for keeping it.
pub fn add_unary_delta(graph: &mut CutGraph, source: usize, sink: usize, node: usize, coeff: i64)
    requires
        coeff != i64::MIN,
    ensures
        final(graph).arcs@ == old(graph).arcs@.push(
            CutArc { from: source, to: node, capacity: max0(coeff as int) as i64, pairwise: false },
        ).push(CutArc { from: node, to: sink, capacity: max0(-coeff) as i64, pairwise: false }),
{
    add_unary(graph, source, sink, node, 0, coeff);
}

/// The coupling weight of a pairwise term with costs `[e00, e10, e01, e11]`.
pub open spec fn pair_weight(c: Seq<i64>) -> int {
    c[1] + c[2] - c[0] - c[3]
}

/// Every number that `add_pair` forms stays in `i64`.
pub open spec fn pair_terms_ok(c: Seq<i64>) -> bool {
    let w = pair_weight(c);
    &&& c.len() == 4
    &&& in_i64(c[1] + c[2])
    &&& in_i64(c[1] + c[2] - c[0])
    &&& in_i64(w)
    &&& in_i64(c[1] - c[0])
    &&& in_i64(c[2] - c[0])
    &&& in_i64(2 * (c[1] - c[0]))
    &&& in_i64(2 * (c[2] - c[0]))
    &&& in_i64(2 * (c[1] - c[0]) - w)
    &&& in_i64(2 * (c[2] - c[0]) - w)
    &&& 2 * (c[1] - c[0]) - w != i64::MIN
    &&& 2 * (c[2] - c[0]) - w != i64::MIN
}

/// A pairwise term between `from` and `to` with costs `[e00, e10, e01, e11]`
/// (the first index for `from`, the second for `to`, 1 meaning shifted). A
/// term with negative coupling is left out; otherwise each end gets a unary
/// term and the pair a cut arc of the coupling weight.
pub fn add_pair(
    graph: &mut CutGraph,
    source: usize,
    sink: usize,
    from: usize,
    to: usize,
    costs: [i64; 4],
)
    requires
        pair_terms_ok(costs@),
    ensures
        pair_weight(costs@) < 0 ==> final(graph).arcs@ == old(graph).arcs@,
        pair_weight(costs@) >= 0 ==> {
            let w = pair_weight(costs@);
            let a = 2 * (costs@[1] - costs@[0]) - w;
            let b = 2 * (costs@[2] - costs@[0]) - w;
            final(graph).arcs@ == old(graph).arcs@.push(
                CutArc { from: source, to: from, capacity: max0(a) as i64, pairwise: false },
            ).push(CutArc { from: from, to: sink, capacity: max0(-a) as i64, pairwise: false }).push(
                CutArc { from: source, to: to, capacity: max0(b) as i64, pairwise: false },
            ).push(CutArc { from: to, to: sink, capacity: max0(-b) as i64, pairwise: false }).push(
                CutArc { from: from, to: to, capacity: w as i64, pairwise: true },
            )
        },
{
    let e00 = costs[0];
    let e10 = costs[1];
    let e01 = costs[2];
    let e11 = costs[3];
    let w = e10 + e01 - e00 - e11;
    if w < 0 {
        return;
    }
    add_unary_delta(graph, source, sink, from, 2 * (e10 - e00) - w);
    add_unary_delta(graph, source, sink, to, 2 * (e01 - e00) - w);
    graph.add_cut_edge(from, to, w);
}

/// Position of cell `(row, col)` in a window with top-left cell
/// `(row0, col0)` and `width` columns, row by row.
pub fn local_index(row: usize, col: usize, row0: usize, col0: usize, width: usize) -> (r: usize)
    requires
        row0 <= row,
        col0 <= col,
        (row - row0) * width + (col - col0) <= usize::MAX,
    ensures
        r == (row - row0) * width + (col - col0),
{
    (row - row0) * width + (col - col0)
}

/// Shift of cell `(row, col)` when the cells of window `patch =
/// (row0, col0, height, width)` marked in `selected` move by `shift`: `shift`
/// for a marked cell of the window, 0 otherwise.
pub fn cell_delta(
    selected: Option<&[bool]>,
    row: usize,
    col: usize,
    patch: (usize, usize, usize, usize),
    shift: i32,
) -> (r: i32)
    requires
        patch.0 + patch.2 <= usize::MAX,
        patch.1 + patch.3 <= usize::MAX,
        patch.0 <= row < patch.0 + patch.2 && patch.1 <= col < patch.1 + patch.3 ==> (row
            - patch.0) * patch.3 + (col - patch.1) <= usize::MAX,
    ensures
        r == ({
            let (row0, col0, height, width) = patch;
            let inside = row0 <= row < row0 + height && col0 <= col < col0 + width;
            let idx = (row - row0) * width + (col - col0);
            if inside && (selected matches Some(s) && 0 <= idx < s@.len() && s@[idx]) {
                shift
            } else {
                0
            }
        }),
{
    let (row0, col0, height, width) = patch;
    if row < row0 || row >= row0 + height || col < col0 || col >= col0 + width {
        return 0;
    }
    let idx = local_index(row, col, row0, col0, width);
    match selected {
        Some(values) => {
            if idx < values.len() && values[idx] {
                shift
            } else {
                0
            }
        },
        None => 0,
    }
}

/// Cell `cell` lies in window `patch = (row0, col0, height, width)`.
pub open spec fn in_window(patch: (usize, usize, usize, usize), cell: (usize, usize)) -> bool {
    patch.0 <= cell.0 < patch.0 + patch.2 && patch.1 <= cell.1 < patch.1 + patch.3
}

/// Position of `cell` among the cells of window `patch`, row by row.
pub open spec fn window_index(patch: (usize, usize, usize, usize), cell: (usize, usize)) -> int {
    (cell.0 - patch.0) * patch.3 + (cell.1 - patch.1)
}

/// The two arcs of a unary term (see `add_unary`).
pub open spec fn unary_arcs(source: usize, sink: usize, node: usize, d0: int, d1: int) -> Seq<CutArc> {
    seq![
        CutArc { from: source, to: node, capacity: max0(d1 - d0) as i64, pairwise: false },
        CutArc { from: node, to: sink, capacity: max0(d0 - d1) as i64, pairwise: false },
    ]
}

/// The arcs of a pairwise term (see `add_pair`).
pub open spec fn pair_arcs(source: usize, sink: usize, from: usize, to: usize, c: Seq<i64>) -> Seq<CutArc> {
    let w = pair_weight(c);
    let a = 2 * (c[1] - c[0]) - w;
    let b = 2 * (c[2] - c[0]) - w;
    if w < 0 {
        Seq::empty()
    } else {
        seq![
            CutArc { from: source, to: from, capacity: max0(a) as i64, pairwise: false },
            CutArc { from: from, to: sink, capacity: max0(-a) as i64, pairwise: false },
            CutArc { from: source, to: to, capacity: max0(b) as i64, pairwise: false },
            CutArc { from: to, to: sink, capacity: max0(-b) as i64, pairwise: false },
            CutArc { from: from, to: to, capacity: w as i64, pairwise: true },
        ]
    }
}

/// Costs of an edge under its end labels `fl` and `tl`, each end kept or
/// shifted by `shift`: `[e00, e10, e01, e11]`.
pub open spec fn shift_energies(e: EdgeDatum, fl: int, tl: int, shift: int) -> Seq<i64> {
    seq![
        label_energy(e, fl, tl) as i64,
        label_energy(e, fl + shift, tl) as i64,
        label_energy(e, fl, tl + shift) as i64,
        label_energy(e, fl + shift, tl + shift) as i64,
    ]
}

/// The label of cell `cell` in a grid of `ncol` columns.
pub open spec fn label_at(labels: Seq<i32>, ncol: int, cell: (usize, usize)) -> int {
    labels[cell.0 * ncol + cell.1] as int
}

/// The cut-network arcs of the energy of edge `e` between cells `from` and
/// `to` when the cells of window `patch` may shift by `shift`: a pairwise
/// term when both ends lie in the window, a unary term (of twice the costs)
/// when one does, nothing otherwise.
pub open spec fn edge_terms(
    labels: Seq<i32>,
    source: usize,
    sink: usize,
    e: EdgeDatum,
    from: (usize, usize),
    to: (usize, usize),
    patch: (usize, usize, usize, usize),
    ncol: int,
    shift: int,
) -> Seq<CutArc> {
    let fl = label_at(labels, ncol, from);
    let tl = label_at(labels, ncol, to);
    if in_window(patch, from) && in_window(patch, to) {
        pair_arcs(
            source,
            sink,
            window_index(patch, from) as usize,
            window_index(patch, to) as usize,
            shift_energies(e, fl, tl, shift),
        )
    } else if in_window(patch, from) {
        unary_arcs(
            source,
            sink,
            window_index(patch, from) as usize,
            2 * label_energy(e, fl, tl),
            2 * label_energy(e, fl + shift, tl),
        )
    } else if in_window(patch, to) {
        unary_arcs(
            source,
            sink,
            window_index(patch, to) as usize,
            2 * label_energy(e, fl, tl),
            2 * label_energy(e, fl, tl + shift),
        )
    } else {
        Seq::empty()
    }
}

/// A unary term with costs `d0` and `d1` can be formed in `i64`.
pub open spec fn unary_ok(d0: int, d1: int) -> bool {
    in_i64(d0) && in_i64(d1) && in_i64(d1 - d0) && in_i64(d0 - d1)
}

/// Every number that `add_edge_terms` forms stays within its machine type.
pub open spec fn edge_terms_ok(
    labels: Seq<i32>,
    e: EdgeDatum,
    from: (usize, usize),
    to: (usize, usize),
    patch: (usize, usize, usize, usize),
    ncol: int,
    shift: int,
) -> bool {
    let fl = label_at(labels, ncol, from);
    let tl = label_at(labels, ncol, to);
    &&& 0 <= from.0 * ncol + from.1 < labels.len()
    &&& 0 <= to.0 * ncol + to.1 < labels.len()
    &&& patch.0 + patch.2 <= usize::MAX
    &&& patch.1 + patch.3 <= usize::MAX
    &&& in_window(patch, from) ==> window_index(patch, from) <= usize::MAX
    &&& in_window(patch, to) ==> window_index(patch, to) <= usize::MAX
    &&& (in_window(patch, from) || in_window(patch, to)) ==> label_energy_ok(e, fl, tl)
    &&& in_window(patch, from) ==> in_i32(fl + shift) && label_energy_ok(e, fl + shift, tl)
    &&& in_window(patch, to) ==> in_i32(tl + shift) && label_energy_ok(e, fl, tl + shift)
    &&& (in_window(patch, from) && in_window(patch, to)) ==> label_energy_ok(e, fl + shift, tl + shift)
        && pair_terms_ok(shift_energies(e, fl, tl, shift))
    &&& (in_window(patch, from) && !in_window(patch, to)) ==> unary_ok(
        2 * label_energy(e, fl, tl),
        2 * label_energy(e, fl + shift, tl),
    )
    &&& (!in_window(patch, from) && in_window(patch, to)) ==> unary_ok(
        2 * label_energy(e, fl, tl),
        2 * label_energy(e, fl, tl + shift),
    )
}

pub open spec fn in_i32(x: int) -> bool {
    i32::MIN <= x <= i32::MAX
}

/// Adds the cut-network terms of edge `edge` between cells `from` and `to`
/// (see `edge_terms`).
pub fn add_edge_terms(
    graph: &mut CutGraph,
    labels: &[i32],
    source: usize,
    sink: usize,
    edge: EdgeDatum,
    from: (usize, usize),
    to: (usize, usize),
    patch: (usize, usize, usize, usize),
    ncol: usize,
    shift: i32,
)
    requires
        edge_terms_ok(labels@, edge, from, to, patch, ncol as int, shift as int),
    ensures
        final(graph).arcs@ == old(graph).arcs@ + edge_terms(
            labels@,
            source,
            sink,
            edge,
            from,
            to,
            patch,
            ncol as int,
            shift as int,
        ),
{
    let (row0, col0, height, width) = patch;
    let from_in = from.0 >= row0 && from.0 < row0 + height && from.1 >= col0 && from.1 < col0 + width;
    let to_in = to.0 >= row0 && to.0 < row0 + height && to.1 >= col0 && to.1 < col0 + width;
    let n = labels.len();
    let from_label = labels[from.0 * ncol + from.1];
    let to_label = labels[to.0 * ncol + to.1];
    let ghost old_arcs = graph.arcs@;
    if from_in && to_in {
        let from_ix = local_index(from.0, from.1, row0, col0, width);
        let to_ix = local_index(to.0, to.1, row0, col0, width);
        let e00 = edge_label_energy(edge, from_label, to_label);
        let e10 = edge_label_energy(edge, from_label + shift, to_label);
        let e01 = edge_label_energy(edge, from_label, to_label + shift);
        let e11 = edge_label_energy(edge, from_label + shift, to_label + shift);
        proof {
            lemma_cost_range(edge, crate::edges::label_flow(edge, from_label as int, to_label as int));
            lemma_cost_range(edge, crate::edges::label_flow(edge, from_label + shift, to_label as int));
            lemma_cost_range(edge, crate::edges::label_flow(edge, from_label as int, to_label + shift));
            lemma_cost_range(edge, crate::edges::label_flow(edge, from_label + shift, to_label + shift));
        }
        let costs = [e00, e10, e01, e11];
        assert(costs@ == shift_energies(edge, from_label as int, to_label as int, shift as int));
        add_pair(graph, source, sink, from_ix, to_ix, costs);
        proof {
            assert(graph.arcs@ =~= old_arcs + pair_arcs(
                source,
                sink,
                from_ix,
                to_ix,
                shift_energies(edge, from_label as int, to_label as int, shift as int),
            ));
        }
    } else if from_in {
        let node = local_index(from.0, from.1, row0, col0, width);
        let d0 = edge_label_energy(edge, from_label, to_label);
        let d1 = edge_label_energy(edge, from_label + shift, to_label);
        add_unary(graph, source, sink, node, 2 * d0, 2 * d1);
        proof {
            assert(graph.arcs@ =~= old_arcs + unary_arcs(source, sink, node, 2 * d0, 2 * d1));
        }
    } else if to_in {
        let node = local_index(to.0, to.1, row0, col0, width);
        let d0 = edge_label_energy(edge, from_label, to_label);
        let d1 = edge_label_energy(edge, from_label, to_label + shift);
        add_unary(graph, source, sink, node, 2 * d0, 2 * d1);
        proof {
            assert(graph.arcs@ =~= old_arcs + unary_arcs(source, sink, node, 2 * d0, 2 * d1));
        }
    } else {
        assert(graph.arcs@ =~= old_arcs + Seq::<CutArc>::empty());
    }
}

/// Sum of `f(i)` over `a <= i < b`.
pub open spec fn range_sum(f: spec_fn(int) -> int, a: int, b: int) -> int
    decreases b - a,
{
    if a >= b {
        0
    } else {
        range_sum(f, a, b - 1) + f(b - 1)
    }
}

/// The selection as a sequence.
pub open spec fn selection_view(selected: Option<&[bool]>) -> Option<Seq<bool>> {
    match selected {
        Some(s) => Some(s@),
        None => None,
    }
}

/// The shift of cell `(row, col)` (see `cell_delta`).
pub open spec fn delta_at(
    selected: Option<Seq<bool>>,
    row: int,
    col: int,
    patch: (usize, usize, usize, usize),
    shift: int,
) -> int {
    let (row0, col0, height, width) = patch;
    let inside = row0 <= row < row0 + height && col0 <= col < col0 + width;
    let idx = (row - row0) * width + (col - col0);
    if inside && (selected matches Some(s) && 0 <= idx < s.len() && s[idx]) {
        shift
    } else {
        0
    }
}

/// The label of cell `(row, col)` after the window's shift.
pub open spec fn shifted_label(
    labels: Seq<i32>,
    selected: Option<Seq<bool>>,
    ncol: int,
    patch: (usize, usize, usize, usize),
    shift: int,
    row: int,
    col: int,
) -> int {
    labels[row * ncol + col] + delta_at(selected, row, col, patch, shift)
}

/// Cost of the horizontal edge right of cell `(row, col)` under the shifted
/// labels, 0 when absent.
pub open spec fn h_term(
    labels: Seq<i32>,
    selected: Option<Seq<bool>>,
    h: Seq<Option<EdgeDatum>>,
    ncol: int,
    patch: (usize, usize, usize, usize),
    shift: int,
    row: int,
    col: int,
) -> int {
    match h[row * (ncol - 1) + col] {
        Some(e) => label_energy(
            e,
            shifted_label(labels, selected, ncol, patch, shift, row, col),
            shifted_label(labels, selected, ncol, patch, shift, row, col + 1),
        ),
        None => 0,
    }
}

/// Cost of the vertical edge below cell `(row, col)` under the shifted
/// labels, 0 when absent.
pub open spec fn v_term(
    labels: Seq<i32>,
    selected: Option<Seq<bool>>,
    v: Seq<Option<EdgeDatum>>,
    ncol: int,
    patch: (usize, usize, usize, usize),
    shift: int,
    row: int,
    col: int,
) -> int {
    match v[row * ncol + col] {
        Some(e) => label_energy(
            e,
            shifted_label(labels, selected, ncol, patch, shift, row, col),
            shifted_label(labels, selected, ncol, patch, shift, row + 1, col),
        ),
        None => 0,
    }
}

/// The columns of the horizontal edges that touch the window.
pub open spec fn h_cols(patch: (usize, usize, usize, usize), ncol: int) -> (int, int) {
    (if patch.1 >= 1 { patch.1 - 1 } else { 0 }, if patch.1 + patch.3 < ncol - 1 {
        patch.1 + patch.3
    } else if ncol >= 1 {
        ncol - 1
    } else {
        0
    })
}

/// The rows of the vertical edges that touch the window.
pub open spec fn v_rows(patch: (usize, usize, usize, usize), nrow: int) -> (int, int) {
    (if patch.0 >= 1 { patch.0 - 1 } else { 0 }, if patch.0 + patch.2 < nrow - 1 {
        patch.0 + patch.2
    } else if nrow >= 1 {
        nrow - 1
    } else {
        0
    })
}

/// Sum of the horizontal terms of row `row` up to column `col`.
pub open spec fn h_row_sum(
    labels: Seq<i32>,
    selected: Option<Seq<bool>>,
    h: Seq<Option<EdgeDatum>>,
    ncol: int,
    patch: (usize, usize, usize, usize),
    shift: int,
    row: int,
    col: int,
) -> int {
    range_sum(|c: int| h_term(labels, selected, h, ncol, patch, shift, row, c), h_cols(patch, ncol).0, col)
}

/// Sum of the vertical terms of row `row` up to column `col`.
pub open spec fn v_row_sum(
    labels: Seq<i32>,
    selected: Option<Seq<bool>>,
    v: Seq<Option<EdgeDatum>>,
    ncol: int,
    patch: (usize, usize, usize, usize),
    shift: int,
    row: int,
    col: int,
) -> int {
    range_sum(|c: int| v_term(labels, selected, v, ncol, patch, shift, row, c), patch.1 as int, col)
}

/// Horizontal part of the window energy over the rows before `row`.
pub open spec fn h_part(
    labels: Seq<i32>,
    selected: Option<Seq<bool>>,
    h: Seq<Option<EdgeDatum>>,
    ncol: int,
    patch: (usize, usize, usize, usize),
    shift: int,
    row: int,
) -> int {
    range_sum(
        |r: int| h_row_sum(labels, selected, h, ncol, patch, shift, r, h_cols(patch, ncol).1),
        patch.0 as int,
        row,
    )
}

/// Vertical part of the window energy over the rows before `row`.
pub open spec fn v_part(
    labels: Seq<i32>,
    selected: Option<Seq<bool>>,
    v: Seq<Option<EdgeDatum>>,
    nrow: int,
    ncol: int,
    patch: (usize, usize, usize, usize),
    shift: int,
    row: int,
) -> int {
    range_sum(
        |r: int| v_row_sum(labels, selected, v, ncol, patch, shift, r, (patch.1 + patch.3) as int),
        v_rows(patch, nrow).0,
        row,
    )
}

/// Every term of the window energy can be computed: the shifted labels stay
/// in `i32` and the edge costs in range.
pub open spec fn window_terms_ok(
    labels: Seq<i32>,
    selected: Option<Seq<bool>>,
    h: Seq<Option<EdgeDatum>>,
    v: Seq<Option<EdgeDatum>>,
    nrow: int,
    ncol: int,
    patch: (usize, usize, usize, usize),
    shift: int,
) -> bool {
    &&& forall|row: int, col: int|
        patch.0 <= row < patch.0 + patch.2 && h_cols(patch, ncol).0 <= col < h_cols(patch, ncol).1 ==> (
        #[trigger] h[row * (ncol - 1) + col] matches Some(e) ==> {
            let a = shifted_label(labels, selected, ncol, patch, shift, row, col);
            let b = shifted_label(labels, selected, ncol, patch, shift, row, col + 1);
            in_i32(a) && in_i32(b) && label_energy_ok(e, a, b)
        })
    &&& forall|row: int, col: int|
        v_rows(patch, nrow).0 <= row < v_rows(patch, nrow).1 && patch.1 <= col < patch.1 + patch.3 ==> (
        #[trigger] v[row * ncol + col] matches Some(e) ==> {
            let a = shifted_label(labels, selected, ncol, patch, shift, row, col);
            let b = shifted_label(labels, selected, ncol, patch, shift, row + 1, col);
            in_i32(a) && in_i32(b) && label_energy_ok(e, a, b)
        })
}

/// Every running total of the window energy, summed row by row, horizontal
/// edges first, stays in `i64`.
pub open spec fn window_sums_fit(
    labels: Seq<i32>,
    selected: Option<Seq<bool>>,
    h: Seq<Option<EdgeDatum>>,
    v: Seq<Option<EdgeDatum>>,
    nrow: int,
    ncol: int,
    patch: (usize, usize, usize, usize),
    shift: int,
) -> bool {
    let hp = h_part(labels, selected, h, ncol, patch, shift, (patch.0 + patch.2) as int);
    &&& forall|row: int, col: int|
        patch.0 <= row < patch.0 + patch.2 && h_cols(patch, ncol).0 <= col <= h_cols(patch, ncol).1 ==> in_i64(
            h_part(labels, selected, h, ncol, patch, shift, row) + #[trigger] h_row_sum(
                labels,
                selected,
                h,
                ncol,
                patch,
                shift,
                row,
                col,
            ),
        )
    &&& forall|row: int, col: int|
        v_rows(patch, nrow).0 <= row < v_rows(patch, nrow).1 && patch.1 <= col <= patch.1 + patch.3 ==> in_i64(
            hp + v_part(labels, selected, v, nrow, ncol, patch, shift, row) + #[trigger] v_row_sum(
                labels,
                selected,
                v,
                ncol,
                patch,
                shift,
                row,
                col,
            ),
        )
    &&& in_i64(hp)
    &&& in_i64(hp + v_part(labels, selected, v, nrow, ncol, patch, shift, v_rows(patch, nrow).1))
}

/// The energy of the edges touching window `patch = (row0, col0, height,
/// width)` once the window's cells marked in `selected` move by `shift`
/// (none when `selected` is `None`): the horizontal edges of the window's
/// rows, from the column left of it, then the vertical edges of its columns,
/// from the row above it.
pub fn window_energy(
    labels: &[i32],
    selected: Option<&[bool]>,
    horizontal: &[Option<EdgeDatum>],
    vertical: &[Option<EdgeDatum>],
    nrow: usize,
    ncol: usize,
    patch: (usize, usize, usize, usize),
    shift: i32,
) -> (r: i64)
    requires
        grid_ok(horizontal@, vertical@, nrow as int, ncol as int),
        labels@.len() == nrow * ncol,
        patch.0 + patch.2 <= nrow,
        patch.1 + patch.3 <= ncol,
        window_terms_ok(
            labels@,
            selection_view(selected),
            horizontal@,
            vertical@,
            nrow as int,
            ncol as int,
            patch,
            shift as int,
        ),
        window_sums_fit(
            labels@,
            selection_view(selected),
            horizontal@,
            vertical@,
            nrow as int,
            ncol as int,
            patch,
            shift as int,
        ),
    ensures
        r == h_part(
            labels@,
            selection_view(selected),
            horizontal@,
            ncol as int,
            patch,
            shift as int,
            (patch.0 + patch.2) as int,
        ) + v_part(
            labels@,
            selection_view(selected),
            vertical@,
            nrow as int,
            ncol as int,
            patch,
            shift as int,
            v_rows(patch, nrow as int).1,
        ),
{
    let ghost sel = selection_view(selected);
    let ghost lv = labels@;
    let ghost hv = horizontal@;
    let ghost vv = vertical@;
    let (row0, col0, height, width) = patch;
    let row1 = row0 + height;
    let col1 = col0 + width;
    let n = labels.len();
    let hl = horizontal.len();
    let vl = vertical.len();
    let cs = if col0 >= 1 {
        col0 - 1
    } else {
        0
    };
    let ce = if ncol >= 1 && col1 < ncol - 1 {
        col1
    } else if ncol >= 1 {
        ncol - 1
    } else {
        0
    };
    proof {
        assert(height * width <= nrow * ncol) by (nonlinear_arith)
            requires
                height <= nrow,
                width <= ncol,
        ;
    }
    let mut total: i64 = 0;
    let mut row = row0;
    while row < row1
        invariant
            row0 <= row <= row1,
            row1 == patch.0 + patch.2,
            (cs as int, ce as int) == h_cols(patch, ncol as int),
            patch == (row0, col0, height, width),
            row1 <= nrow,
            col1 == col0 + width,
            col1 <= ncol,
            n == nrow * ncol,
            n == labels@.len(),
            height * width <= nrow * ncol,
            sel == selection_view(selected),
            lv == labels@,
            hv == horizontal@,
            grid_ok(hv, vv, nrow as int, ncol as int),
            hl == hv.len(),
            window_terms_ok(lv, sel, hv, vv, nrow as int, ncol as int, patch, shift as int),
            window_sums_fit(lv, sel, hv, vv, nrow as int, ncol as int, patch, shift as int),
            total == h_part(lv, sel, hv, ncol as int, patch, shift as int, row as int),
        decreases row1 - row,
    {
        let mut col = cs;
        while col < ce
            invariant
                row0 <= row < row1,
                cs <= col <= ce,
                row1 == patch.0 + patch.2,
                (cs as int, ce as int) == h_cols(patch, ncol as int),
                patch == (row0, col0, height, width),
                row1 <= nrow,
                col1 == col0 + width,
                col1 <= ncol,
                n == nrow * ncol,
                n == labels@.len(),
            n == labels@.len(),
                height * width <= nrow * ncol,
                sel == selection_view(selected),
                lv == labels@,
                hv == horizontal@,
                grid_ok(hv, vv, nrow as int, ncol as int),
                hl == hv.len(),
                window_terms_ok(lv, sel, hv, vv, nrow as int, ncol as int, patch, shift as int),
                window_sums_fit(lv, sel, hv, vv, nrow as int, ncol as int, patch, shift as int),
                total == h_part(lv, sel, hv, ncol as int, patch, shift as int, row as int) + h_row_sum(
                    lv,
                    sel,
                    hv,
                    ncol as int,
                    patch,
                    shift as int,
                    row as int,
                    col as int,
                ),
            decreases ce - col,
        {
            proof {
                crate::route::lemma_index_bounds(row as int, col as int, nrow as int, ncol - 1);
                crate::route::lemma_index_bounds(row as int, col as int, nrow as int, ncol as int);
                crate::route::lemma_index_bounds(row as int, col + 1, nrow as int, ncol as int);
                lemma_window_cell_index(row as int, col as int, patch);
                lemma_window_cell_index(row as int, col + 1, patch);
                assert(in_i64(h_part(lv, sel, hv, ncol as int, patch, shift as int, row as int) + h_row_sum(
                    lv,
                    sel,
                    hv,
                    ncol as int,
                    patch,
                    shift as int,
                    row as int,
                    col + 1,
                )));
            }
            if let Some(edge) = horizontal[horizontal_index(row, col, ncol)] {
                let left = labels[row * ncol + col] + cell_delta(selected, row, col, patch, shift);
                let right = labels[row * ncol + col + 1] + cell_delta(selected, row, col + 1, patch, shift);
                let e = edge_label_energy(edge, left, right);
                total = total + e;
            }
            col = col + 1;
        }
        row = row + 1;
    }
    let ghost hp = total as int;
    let rs = if row0 >= 1 {
        row0 - 1
    } else {
        0
    };
    let re = if nrow >= 1 && row1 < nrow - 1 {
        row1
    } else if nrow >= 1 {
        nrow - 1
    } else {
        0
    };
    let mut row = rs;
    while row < re
        invariant
            rs <= row <= re,
            (rs as int, re as int) == v_rows(patch, nrow as int),
            row1 == patch.0 + patch.2,
            patch == (row0, col0, height, width),
            row1 <= nrow,
            col1 == col0 + width,
            col1 <= ncol,
            n == nrow * ncol,
            n == labels@.len(),
            height * width <= nrow * ncol,
            sel == selection_view(selected),
            lv == labels@,
            vv == vertical@,
            grid_ok(hv, vv, nrow as int, ncol as int),
            vl == vv.len(),
            window_terms_ok(lv, sel, hv, vv, nrow as int, ncol as int, patch, shift as int),
            window_sums_fit(lv, sel, hv, vv, nrow as int, ncol as int, patch, shift as int),
            hp == h_part(lv, sel, hv, ncol as int, patch, shift as int, row1 as int),
            total == hp + v_part(lv, sel, vv, nrow as int, ncol as int, patch, shift as int, row as int),
        decreases re - row,
    {
        let mut col = col0;
        while col < col1
            invariant
                rs <= row < re,
                col0 <= col <= col1,
                (rs as int, re as int) == v_rows(patch, nrow as int),
                row1 == patch.0 + patch.2,
                patch == (row0, col0, height, width),
                row1 <= nrow,
                col1 == col0 + width,
                col1 <= ncol,
                n == nrow * ncol,
                n == labels@.len(),
            n == labels@.len(),
                height * width <= nrow * ncol,
                sel == selection_view(selected),
                lv == labels@,
                vv == vertical@,
                grid_ok(hv, vv, nrow as int, ncol as int),
                vl == vv.len(),
                window_terms_ok(lv, sel, hv, vv, nrow as int, ncol as int, patch, shift as int),
                window_sums_fit(lv, sel, hv, vv, nrow as int, ncol as int, patch, shift as int),
                hp == h_part(lv, sel, hv, ncol as int, patch, shift as int, row1 as int),
                total == hp + v_part(lv, sel, vv, nrow as int, ncol as int, patch, shift as int, row as int)
                    + v_row_sum(lv, sel, vv, ncol as int, patch, shift as int, row as int, col as int),
            decreases col1 - col,
        {
            proof {
                crate::route::lemma_index_bounds(row as int, col as int, nrow - 1, ncol as int);
                crate::route::lemma_index_bounds(row as int, col as int, nrow as int, ncol as int);
                crate::route::lemma_index_bounds(row + 1, col as int, nrow as int, ncol as int);
                lemma_window_cell_index(row as int, col as int, patch);
                lemma_window_cell_index(row + 1, col as int, patch);
                assert(in_i64(hp + v_part(lv, sel, vv, nrow as int, ncol as int, patch, shift as int, row as int)
                    + v_row_sum(lv, sel, vv, ncol as int, patch, shift as int, row as int, col + 1)));
            }
            if let Some(edge) = vertical[vertical_index(row, col, ncol)] {
                let upper = labels[row * ncol + col] + cell_delta(selected, row, col, patch, shift);
                let lower = labels[(row + 1) * ncol + col] + cell_delta(selected, row + 1, col, patch, shift);
                let e = edge_label_energy(edge, upper, lower);
                total = total + e;
            }
            col = col + 1;
        }
        row = row + 1;
    }
    total
}

/// A cell of the window has an index below the window's size.
proof fn lemma_window_cell_index(row: int, col: int, patch: (usize, usize, usize, usize))
    ensures
        (patch.0 <= row < patch.0 + patch.2 && patch.1 <= col < patch.1 + patch.3) ==> 0 <= (row - patch.0)
            * patch.3 + (col - patch.1) < patch.2 * patch.3,
{
    if patch.0 <= row < patch.0 + patch.2 && patch.1 <= col < patch.1 + patch.3 {
        crate::route::lemma_index_bounds(row - patch.0, col - patch.1, patch.2 as int, patch.3 as int);
    }
}

} // verus!
