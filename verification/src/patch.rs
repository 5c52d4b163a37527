//! Label refinement by small patches: the costliest edges name candidate
//! windows of up to six cells, and a window's labels move by -1, 0 or +1 per
//! cell when some such move lowers the cost of the edges around it.
use vstd::prelude::*;
use crate::edges::{edge_label_energy, label_energy, label_energy_ok, EdgeDatum, COST_MAX, COST_MIN};
use crate::label_energy::label_energy_in_range;
use crate::residual::{grid_ok, h_len, v_len};
use crate::grid_sum::{at, block_sum, cell, lemma_lin_rect, lin_sum, span_sum};
use crate::label_energy::{
    h_cell, h_energy, h_energy_sum, label_objective_spec, labels_ok, v_energy, v_energy_sum,
};

verus! {

/// Most cells of one patch.
pub const MAX_PATCH_CELLS: usize = 6;
/// Most candidate edges kept on a large grid.
pub const LARGE_GRID_CANDIDATES: usize = 20000;

/// A candidate edge: `(energy, axis, row, col)`, axis 1 for horizontal edges
/// and 2 for vertical ones.
pub open spec fn cand_lt(a: (i64, u8, usize, usize), b: (i64, u8, usize, usize)) -> bool {
    a.0 < b.0 || (a.0 == b.0 && (a.1 < b.1 || (a.1 == b.1 && (a.2 < b.2 || (a.2 == b.2 && a.3
        < b.3)))))
}

/// `heap[m]` is a least candidate of `heap`.
pub open spec fn is_least(heap: Seq<(i64, u8, usize, usize)>, m: int) -> bool {
    &&& 0 <= m < heap.len()
    &&& forall|j: int| 0 <= j < heap.len() ==> !cand_lt(#[trigger] heap[j], heap[m])
}

/// `heap[m]` is the first least candidate of `heap`: least, and strictly
/// below every candidate before it.
pub open spec fn first_least_at(heap: Seq<(i64, u8, usize, usize)>, m: int) -> bool {
    &&& is_least(heap, m)
    &&& forall|j: int| 0 <= j < m ==> cand_lt(heap[m], #[trigger] heap[j])
}

/// Position of the first least candidate of a non-empty list.
pub open spec fn first_least(heap: Seq<(i64, u8, usize, usize)>) -> int {
    choose|m: int| first_least_at(heap, m)
}

/// At most one position is the first least candidate.
proof fn lemma_first_least_unique(heap: Seq<(i64, u8, usize, usize)>, m: int)
    requires
        first_least_at(heap, m),
    ensures
        first_least(heap) == m,
{
    let k = first_least(heap);
    assert(first_least_at(heap, k));
    if k < m {
        assert(cand_lt(heap[m], heap[k]));
        assert(!cand_lt(heap[m], heap[k]));
    } else if m < k {
        assert(cand_lt(heap[k], heap[m]));
        assert(!cand_lt(heap[k], heap[m]));
    }
}

/// The candidates after offering `item` to a list kept to `limit` entries:
/// a candidate with positive energy joins while there is room, and
/// otherwise replaces the first least candidate when its energy is lower.
pub open spec fn cand_insert(
    heap: Seq<(i64, u8, usize, usize)>,
    limit: int,
    item: (i64, u8, usize, usize),
) -> Seq<(i64, u8, usize, usize)> {
    if item.0 <= 0 || limit <= 0 {
        heap
    } else if heap.len() < limit {
        heap.push(item)
    } else if item.0 > heap[first_least(heap)].0 {
        heap.update(first_least(heap), item)
    } else {
        heap
    }
}

/// Index of the first least candidate of a non-empty list.
fn least_candidate(heap: &Vec<(i64, u8, usize, usize)>) -> (r: usize)
    requires
        heap@.len() > 0,
    ensures
        is_least(heap@, r as int),
        first_least_at(heap@, r as int),
        first_least(heap@) == r,
{
    let mut best: usize = 0;
    let mut i: usize = 1;
    while i < heap.len()
        invariant
            1 <= i <= heap@.len(),
            best < i,
            forall|j: int| 0 <= j < i ==> !cand_lt(#[trigger] heap@[j], heap@[best as int]),
            forall|j: int| 0 <= j < best ==> cand_lt(heap@[best as int], #[trigger] heap@[j]),
        decreases heap@.len() - i,
    {
        let a = heap[i];
        let b = heap[best];
        if a.0 < b.0 || (a.0 == b.0 && (a.1 < b.1 || (a.1 == b.1 && (a.2 < b.2 || (a.2 == b.2
            && a.3 < b.3))))) {
            best = i;
        }
        i = i + 1;
    }
    proof {
        lemma_first_least_unique(heap@, best as int);
    }
    best
}

/// Keeps the `limit` costliest candidates: a candidate with positive energy
/// joins while there is room, and otherwise replaces a least candidate whose
/// energy is lower.
pub fn insert_candidate(
    heap: &mut Vec<(i64, u8, usize, usize)>,
    limit: usize,
    energy: i64,
    axis: u8,
    row: usize,
    col: usize,
)
    ensures
        final(heap)@ == cand_insert(old(heap)@, limit as int, (energy, axis, row, col)),
        energy <= 0 || limit == 0 ==> final(heap)@ == old(heap)@,
        energy > 0 && limit > 0 && old(heap)@.len() < limit ==> final(heap)@ == old(heap)@.push(
            (energy, axis, row, col),
        ),
        energy > 0 && limit > 0 && old(heap)@.len() >= limit ==> (final(heap)@ == old(heap)@ && (
        forall|m: int| is_least(old(heap)@, m) ==> old(heap)@[m].0 >= energy)) || (exists|m: int|
            is_least(old(heap)@, m) && old(heap)@[m].0 < energy && final(heap)@ == old(
                heap,
            )@.update(m, (energy, axis, row, col))),
{
    if energy <= 0 || limit == 0 {
        return;
    }
    let item = (energy, axis, row, col);
    if heap.len() < limit {
        heap.push(item);
    } else {
        let m = least_candidate(heap);
        if energy > heap[m].0 {
            heap.set(m, item);
        } else {
            proof {
                assert forall|k: int| is_least(old(heap)@, k) implies old(heap)@[k].0 >= energy by {
                    assert(!cand_lt(heap@[m as int], heap@[k]));
                    assert(!cand_lt(heap@[k], heap@[m as int]));
                }
            }
        }
    }
}

/// A window `(row0, col0, height, width)` inside an `nrow` by `ncol` grid.
pub open spec fn patch_in_grid(p: (usize, usize, usize, usize), nrow: int, ncol: int) -> bool {
    &&& p.0 + p.2 <= nrow
    &&& p.1 + p.3 <= ncol
}

/// A window that `candidate_patches` may propose for candidate edge
/// `(axis, row, col)`: 2 to 6 cells, at most 3 by 3, inside the grid and
/// covering both cells of the edge.
pub open spec fn patch_ok(
    p: (usize, usize, usize, usize),
    axis: u8,
    row: int,
    col: int,
    nrow: int,
    ncol: int,
) -> bool {
    let row_max = if axis == 1 { row } else { row + 1 };
    let col_max = if axis == 1 { col + 1 } else { col };
    &&& 1 <= p.2 <= 3
    &&& 1 <= p.3 <= 3
    &&& 2 <= p.2 * p.3 <= 6
    &&& patch_in_grid(p, nrow, ncol)
    &&& p.0 <= row
    &&& row_max < p.0 + p.2
    &&& p.1 <= col
    &&& col_max < p.1 + p.3
}

/// Windows listed before size `(h, w)` and start `(r, c)`: by height, then
/// width, then start row, then start column.
pub open spec fn window_before(p: (usize, usize, usize, usize), h: int, w: int, r: int, c: int) -> bool {
    ||| p.2 < h
    ||| p.2 == h && p.3 < w
    ||| p.2 == h && p.3 == w && p.0 < r
    ||| p.2 == h && p.3 == w && p.0 == r && p.1 < c
}

/// Every window of `patch_ok` listed before `(h, w, r, c)` is in `out`.
pub open spec fn windows_covered(
    out: Seq<(usize, usize, usize, usize)>,
    axis: u8,
    row: int,
    col: int,
    nrow: int,
    ncol: int,
    h: int,
    w: int,
    r: int,
    c: int,
) -> bool {
    forall|p: (usize, usize, usize, usize)|
        #[trigger] patch_ok(p, axis, row, col, nrow, ncol) && window_before(p, h, w, r, c) ==> out.contains(p)
}

/// The windows of 2 to 6 cells, at most 3 by 3, inside the grid that cover
/// both cells of candidate edge `(axis, row, col)`, each listed once, by size
/// and then position.
pub fn candidate_patches(axis: u8, row: usize, col: usize, nrow: usize, ncol: usize) -> (r: Vec<
    (usize, usize, usize, usize),
>)
    requires
        row + 2 <= usize::MAX,
        col + 2 <= usize::MAX,
    ensures
        forall|i: int|
            0 <= i < r@.len() ==> patch_ok(#[trigger] r@[i], axis, row as int, col as int, nrow as int, ncol as int),
        forall|i: int, j: int| 0 <= i < j < r@.len() ==> r@[i] != r@[j],
        forall|p: (usize, usize, usize, usize)|
            #[trigger] patch_ok(p, axis, row as int, col as int, nrow as int, ncol as int) ==> r@.contains(p),
{
    let row_min = row;
    let row_max = if axis == 1 {
        row
    } else {
        row + 1
    };
    let col_min = col;
    let col_max = if axis == 1 {
        col + 1
    } else {
        col
    };
    let mut out: Vec<(usize, usize, usize, usize)> = Vec::new();
    let mut height: usize = 1;
    while height <= 3
        invariant
            1 <= height <= 4,
            row_min == row,
            col_min == col,
            row_max == (if axis == 1 { row as int } else { row + 1 }),
            col_max == (if axis == 1 { col + 1 } else { col as int }),
            row + 2 <= usize::MAX,
            col + 2 <= usize::MAX,
            forall|i: int|
                0 <= i < out@.len() ==> patch_ok(#[trigger] out@[i], axis, row as int, col as int, nrow as int, ncol as int),
            forall|i: int, j: int| 0 <= i < j < out@.len() ==> out@[i] != out@[j],
            windows_covered(out@, axis, row as int, col as int, nrow as int, ncol as int, height as int, 0, 0, 0),
        decreases 4 - height,
    {
        let mut width: usize = 1;
        while width <= 3
            invariant
                1 <= height <= 3,
                1 <= width <= 4,
                row_min == row,
                col_min == col,
                row_max == (if axis == 1 { row as int } else { row + 1 }),
                col_max == (if axis == 1 { col + 1 } else { col as int }),
                row + 2 <= usize::MAX,
                col + 2 <= usize::MAX,
                forall|i: int|
                    0 <= i < out@.len() ==> patch_ok(#[trigger] out@[i], axis, row as int, col as int, nrow as int, ncol as int),
                forall|i: int, j: int| 0 <= i < j < out@.len() ==> out@[i] != out@[j],
                windows_covered(out@, axis, row as int, col as int, nrow as int, ncol as int, height as int, width as int, 0, 0),
            decreases 4 - width,
        {
            assert(height * width <= 9) by (nonlinear_arith)
                requires
                    1 <= height <= 3,
                    1 <= width <= 3,
            ;
            let cells = height * width;
            if cells <= MAX_PATCH_CELLS && cells >= 2 && height <= nrow && width <= ncol {
                let row_start_min = if row_max + 1 >= height {
                    row_max + 1 - height
                } else {
                    0
                };
                let row_start_max = if row_min < nrow - height {
                    row_min
                } else {
                    nrow - height
                };
                let col_start_min = if col_max + 1 >= width {
                    col_max + 1 - width
                } else {
                    0
                };
                let col_start_max = if col_min < ncol - width {
                    col_min
                } else {
                    ncol - width
                };
                if row_start_min <= row_start_max && col_start_min <= col_start_max {
                    let mut patch_row = row_start_min;
                    while patch_row <= row_start_max
                        invariant
                            1 <= height <= 3,
                            1 <= width <= 3,
                            2 <= height * width <= 6,
                            height <= nrow,
                            width <= ncol,
                            row_start_min <= patch_row,
                            patch_row <= row_start_max + 1,
                            row_start_max <= row,
                            row_start_max + height <= nrow,
                            row_max + 1 <= row_start_min + height,
                            col_start_min <= col_start_max,
                            col_start_max <= col,
                            col_start_max + width <= ncol,
                            col_max + 1 <= col_start_min + width,
                            row_max == (if axis == 1 { row as int } else { row + 1 }),
                            col_max == (if axis == 1 { col + 1 } else { col as int }),
                            forall|i: int|
                                0 <= i < out@.len() ==> patch_ok(#[trigger] out@[i], axis, row as int, col as int, nrow as int, ncol as int),
                            forall|i: int, j: int| 0 <= i < j < out@.len() ==> out@[i] != out@[j],
                            windows_covered(out@, axis, row as int, col as int, nrow as int, ncol as int, height as int, width as int, patch_row as int, 0),
                            (forall|p: (usize, usize, usize, usize)|
                                #[trigger] patch_ok(p, axis, row as int, col as int, nrow as int, ncol as int) && p.2 == height && p.3 == width
                                    ==> row_start_min <= p.0 <= row_start_max && col_start_min <= p.1 <= col_start_max),
                        decreases row_start_max + 1 - patch_row,
                    {
                        let mut patch_col = col_start_min;
                        while patch_col <= col_start_max
                            invariant
                                1 <= height <= 3,
                                1 <= width <= 3,
                                2 <= height * width <= 6,
                                row_start_min <= patch_row <= row_start_max,
                                row_start_max <= row,
                                row_start_max + height <= nrow,
                                row_max + 1 <= row_start_min + height,
                                col_start_min <= patch_col,
                                patch_col <= col_start_max + 1,
                                col_start_max <= col,
                                col_start_max + width <= ncol,
                                col_max + 1 <= col_start_min + width,
                                row_max == (if axis == 1 { row as int } else { row + 1 }),
                                col_max == (if axis == 1 { col + 1 } else { col as int }),
                                forall|i: int|
                                    0 <= i < out@.len() ==> patch_ok(#[trigger] out@[i], axis, row as int, col as int, nrow as int, ncol as int),
                                forall|i: int, j: int| 0 <= i < j < out@.len() ==> out@[i] != out@[j],
                                windows_covered(out@, axis, row as int, col as int, nrow as int, ncol as int, height as int, width as int, patch_row as int, patch_col as int),
                                (forall|p: (usize, usize, usize, usize)|
                                    #[trigger] patch_ok(p, axis, row as int, col as int, nrow as int, ncol as int) && p.2 == height && p.3 == width
                                        ==> row_start_min <= p.0 <= row_start_max && col_start_min <= p.1 <= col_start_max),
                            decreases col_start_max + 1 - patch_col,
                        {
                            let patch = (patch_row, patch_col, height, width);
                            let ghost o0 = out@;
                            if !contains_patch(&out, patch) {
                                out.push(patch);
                            }
                            proof {
                                broadcast use vstd::seq_lib::lemma_seq_contains_after_push;
                                assert(out@.contains(patch)) by {
                                    if o0.contains(patch) {
                                        assert(out@ == o0);
                                    } else {
                                        assert(out@[o0.len() as int] == patch);
                                    }
                                }
                                assert forall|p: (usize, usize, usize, usize)|
                                    #[trigger] patch_ok(p, axis, row as int, col as int, nrow as int, ncol as int) && window_before(
                                        p,
                                        height as int,
                                        width as int,
                                        patch_row as int,
                                        patch_col + 1,
                                    ) implies out@.contains(p) by {
                                    if window_before(p, height as int, width as int, patch_row as int, patch_col as int) {
                                        assert(o0.contains(p));
                                    } else {
                                        assert(p == patch);
                                    }
                                }
                            }
                            patch_col = patch_col + 1;
                        }
                        proof {
                            assert forall|p: (usize, usize, usize, usize)|
                                #[trigger] patch_ok(p, axis, row as int, col as int, nrow as int, ncol as int) && window_before(
                                    p,
                                    height as int,
                                    width as int,
                                    patch_row + 1,
                                    0,
                                ) implies out@.contains(p) by {
                                if p.2 == height && p.3 == width && p.0 == patch_row {
                                    assert(window_before(p, height as int, width as int, patch_row as int, patch_col as int));
                                }
                            }
                        }
                        patch_row = patch_row + 1;
                    }
                    proof {
                        assert forall|p: (usize, usize, usize, usize)|
                            #[trigger] patch_ok(p, axis, row as int, col as int, nrow as int, ncol as int) && window_before(
                                p,
                                height as int,
                                width as int + 1,
                                0,
                                0,
                            ) implies out@.contains(p) by {
                            if p.2 == height && p.3 == width {
                                assert(window_before(p, height as int, width as int, row_start_max + 1, 0));
                            }
                        }
                    }
                } else {
                    proof {
                        assert forall|p: (usize, usize, usize, usize)|
                            #[trigger] patch_ok(p, axis, row as int, col as int, nrow as int, ncol as int) && window_before(
                                p,
                                height as int,
                                width as int + 1,
                                0,
                                0,
                            ) implies out@.contains(p) by {
                            if p.2 == height && p.3 == width {
                                assert(row_start_min <= p.0 <= row_start_max && col_start_min <= p.1 <= col_start_max);
                            }
                        }
                    }
                }
            } else {
                proof {
                    assert forall|p: (usize, usize, usize, usize)|
                        #[trigger] patch_ok(p, axis, row as int, col as int, nrow as int, ncol as int) && window_before(
                            p,
                            height as int,
                            width as int + 1,
                            0,
                            0,
                        ) implies out@.contains(p) by {
                        if p.2 == height && p.3 == width {
                            assert(p.2 * p.3 == cells);
                        }
                    }
                }
            }
            width = width + 1;
        }
        height = height + 1;
    }
    out
}

/// Whether `patch` is listed in `list`.
fn contains_patch(list: &Vec<(usize, usize, usize, usize)>, patch: (usize, usize, usize, usize)) -> (r:
    bool)
    ensures
        r == list@.contains(patch),
{
    let mut i: usize = 0;
    while i < list.len()
        invariant
            i <= list@.len(),
            forall|j: int| 0 <= j < i ==> #[trigger] list@[j] != patch,
        decreases list@.len() - i,
    {
        let q = list[i];
        if q.0 == patch.0 && q.1 == patch.1 && q.2 == patch.2 && q.3 == patch.3 {
            return true;
        }
        i = i + 1;
    }
    false
}

/// Cell `(r, c)` lies in window `p`.
pub open spec fn in_patch(p: (usize, usize, usize, usize), r: int, c: int) -> bool {
    p.0 <= r < p.0 + p.2 && p.1 <= c < p.1 + p.3
}

/// Label of cell `(r, c)` once the window's cells move by `deltas` (row by row).
pub open spec fn shifted_label(
    labels: Seq<i32>,
    deltas: Seq<i32>,
    p: (usize, usize, usize, usize),
    ncol: int,
    r: int,
    c: int,
) -> int {
    labels[r * ncol + c] + (if in_patch(p, r, c) {
        deltas[(r - p.0) * p.3 + (c - p.1)] as int
    } else {
        0
    })
}

/// The edge between cells `a` and `b` can be priced with the moved labels.
pub open spec fn pair_cost_ok(
    labels: Seq<i32>,
    deltas: Seq<i32>,
    p: (usize, usize, usize, usize),
    ncol: int,
    e: EdgeDatum,
    a: (int, int),
    b: (int, int),
) -> bool {
    let la = shifted_label(labels, deltas, p, ncol, a.0, a.1);
    let lb = shifted_label(labels, deltas, p, ncol, b.0, b.1);
    &&& i32::MIN <= la <= i32::MAX
    &&& i32::MIN <= lb <= i32::MAX
    &&& label_energy_ok(e, la, lb)
}

/// Cost of the edge between cells `a` and `b` with the moved labels.
pub open spec fn pair_cost(
    labels: Seq<i32>,
    deltas: Seq<i32>,
    p: (usize, usize, usize, usize),
    ncol: int,
    e: EdgeDatum,
    a: (int, int),
    b: (int, int),
) -> int {
    label_energy(
        e,
        shifted_label(labels, deltas, p, ncol, a.0, a.1),
        shifted_label(labels, deltas, p, ncol, b.0, b.1),
    )
}

/// The window's deltas cover its cells.
pub open spec fn deltas_fit(deltas: Seq<i32>, p: (usize, usize, usize, usize)) -> bool {
    deltas.len() >= p.2 * p.3
}

proof fn lemma_local_index(r: int, c: int, p: (usize, usize, usize, usize))
    requires
        in_patch(p, r, c),
    ensures
        0 <= (r - p.0) * p.3 + (c - p.1) < p.2 * p.3,
{
    assert(0 <= (r - p.0) * p.3 + (c - p.1) < p.2 * p.3) by (nonlinear_arith)
        requires
            0 <= r - p.0 < p.2,
            0 <= c - p.1 < p.3,
    ;
}

/// Label of cell `(r, c)` once the window's cells move by `deltas`.
fn shifted_cell_label(
    labels: &[i32],
    deltas: &[i32],
    patch: (usize, usize, usize, usize),
    ncol: usize,
    r: usize,
    c: usize,
) -> (v: i64)
    requires
        r * ncol + c < labels@.len(),
        deltas_fit(deltas@, patch),
        patch.0 + patch.2 <= usize::MAX,
        patch.1 + patch.3 <= usize::MAX,
        patch.2 * patch.3 <= usize::MAX,
    ensures
        v == shifted_label(labels@, deltas@, patch, ncol as int, r as int, c as int),
{
    let (row0, col0, height, width) = patch;
    let n = labels.len();
    let base = labels[r * ncol + c] as i64;
    if r >= row0 && r < row0 + height && c >= col0 && c < col0 + width {
        proof {
            lemma_local_index(r as int, c as int, patch);
        }
        base + deltas[(r - row0) * width + (c - col0)] as i64
    } else {
        base
    }
}

/// Cost of the edge between cells `from` and `to` once the window's cells
/// move by `deltas`; `None` when a label or the cost would leave its range.
pub fn edge_patch_cost(
    labels: &[i32],
    deltas: &[i32],
    patch: (usize, usize, usize, usize),
    ncol: usize,
    edge: EdgeDatum,
    from: (usize, usize),
    to: (usize, usize),
) -> (r: Option<i64>)
    requires
        from.0 * ncol + from.1 < labels@.len(),
        to.0 * ncol + to.1 < labels@.len(),
        deltas_fit(deltas@, patch),
        patch.0 + patch.2 <= usize::MAX,
        patch.1 + patch.3 <= usize::MAX,
        patch.2 * patch.3 <= usize::MAX,
    ensures
        r is Some <==> pair_cost_ok(
            labels@,
            deltas@,
            patch,
            ncol as int,
            edge,
            (from.0 as int, from.1 as int),
            (to.0 as int, to.1 as int),
        ),
        r matches Some(x) ==> x == pair_cost(
            labels@,
            deltas@,
            patch,
            ncol as int,
            edge,
            (from.0 as int, from.1 as int),
            (to.0 as int, to.1 as int),
        ),
{
    let a = shifted_cell_label(labels, deltas, patch, ncol, from.0, from.1);
    let b = shifted_cell_label(labels, deltas, patch, ncol, to.0, to.1);
    if a < i32::MIN as i64 || a > i32::MAX as i64 || b < i32::MIN as i64 || b > i32::MAX as i64 {
        return None;
    }
    let a32 = a as i32;
    let b32 = b as i32;
    if !label_energy_in_range(edge, a32, b32) {
        return None;
    }
    Some(edge_label_energy(edge, a32, b32))
}

/// Cost of horizontal edge `(r, c)` (between cells `(r, c)` and `(r, c + 1)`)
/// with the moved labels; 0 when absent.
pub open spec fn h_cost_at(
    labels: Seq<i32>,
    deltas: Seq<i32>,
    h: Seq<Option<EdgeDatum>>,
    p: (usize, usize, usize, usize),
    ncol: int,
    r: int,
    c: int,
) -> int {
    match h[r * (ncol - 1) + c] {
        Some(e) => pair_cost(labels, deltas, p, ncol, e, (r, c), (r, c + 1)),
        None => 0,
    }
}

pub open spec fn h_ok_at(
    labels: Seq<i32>,
    deltas: Seq<i32>,
    h: Seq<Option<EdgeDatum>>,
    p: (usize, usize, usize, usize),
    ncol: int,
    r: int,
    c: int,
) -> bool {
    match h[r * (ncol - 1) + c] {
        Some(e) => pair_cost_ok(labels, deltas, p, ncol, e, (r, c), (r, c + 1)),
        None => true,
    }
}

/// Cost of vertical edge `(r, c)` (between cells `(r, c)` and `(r + 1, c)`)
/// with the moved labels; 0 when absent.
pub open spec fn v_cost_at(
    labels: Seq<i32>,
    deltas: Seq<i32>,
    v: Seq<Option<EdgeDatum>>,
    p: (usize, usize, usize, usize),
    ncol: int,
    r: int,
    c: int,
) -> int {
    match v[r * ncol + c] {
        Some(e) => pair_cost(labels, deltas, p, ncol, e, (r, c), (r + 1, c)),
        None => 0,
    }
}

pub open spec fn v_ok_at(
    labels: Seq<i32>,
    deltas: Seq<i32>,
    v: Seq<Option<EdgeDatum>>,
    p: (usize, usize, usize, usize),
    ncol: int,
    r: int,
    c: int,
) -> bool {
    match v[r * ncol + c] {
        Some(e) => pair_cost_ok(labels, deltas, p, ncol, e, (r, c), (r + 1, c)),
        None => true,
    }
}

/// Which edges a window's cost covers: `(first row, end row, first col, end
/// col)` of the horizontal edges (`.0`) and of the vertical edges (`.1`).
pub open spec fn window_bounds(p: (usize, usize, usize, usize), nrow: int, ncol: int) -> (
    (int, int, int, int),
    (int, int, int, int),
) {
    let row_end = p.0 + p.2;
    let col_end = p.1 + p.3;
    let hcols = if ncol >= 1 { ncol - 1 } else { 0 };
    let vrows = if nrow >= 1 { nrow - 1 } else { 0 };
    (
        (
            p.0 as int,
            if row_end < nrow { row_end } else { nrow },
            if p.1 >= 1 { p.1 - 1 } else { 0 },
            if col_end < hcols { col_end } else { hcols },
        ),
        (
            if p.0 >= 1 { p.0 - 1 } else { 0 },
            if row_end < vrows { row_end } else { vrows },
            p.1 as int,
            if col_end < ncol { col_end } else { ncol },
        ),
    )
}

/// Sum of `cost(r, c)` over `c0 <= c < c` for the horizontal (`is_h`) or
/// vertical edges.
pub open spec fn row_sum(
    labels: Seq<i32>,
    deltas: Seq<i32>,
    s: Seq<Option<EdgeDatum>>,
    is_h: bool,
    p: (usize, usize, usize, usize),
    ncol: int,
    r: int,
    c0: int,
    c: int,
) -> int
    decreases c - c0,
{
    if c <= c0 {
        0
    } else {
        row_sum(labels, deltas, s, is_h, p, ncol, r, c0, c - 1) + (if is_h {
            h_cost_at(labels, deltas, s, p, ncol, r, c - 1)
        } else {
            v_cost_at(labels, deltas, s, p, ncol, r, c - 1)
        })
    }
}

pub open spec fn rect_sum(
    labels: Seq<i32>,
    deltas: Seq<i32>,
    s: Seq<Option<EdgeDatum>>,
    is_h: bool,
    p: (usize, usize, usize, usize),
    ncol: int,
    b: (int, int, int, int),
    r: int,
) -> int
    decreases r - b.0,
{
    if r <= b.0 {
        0
    } else {
        rect_sum(labels, deltas, s, is_h, p, ncol, b, r - 1) + row_sum(
            labels,
            deltas,
            s,
            is_h,
            p,
            ncol,
            r - 1,
            b.2,
            b.3,
        )
    }
}

pub open spec fn rect_ok(
    labels: Seq<i32>,
    deltas: Seq<i32>,
    s: Seq<Option<EdgeDatum>>,
    is_h: bool,
    p: (usize, usize, usize, usize),
    ncol: int,
    b: (int, int, int, int),
) -> bool {
    forall|r: int, c: int|
        b.0 <= r < b.1 && b.2 <= c < b.3 ==> (if is_h {
            h_ok_at(labels, deltas, s, p, ncol, r, c)
        } else {
            v_ok_at(labels, deltas, s, p, ncol, r, c)
        })
}

/// Cost of the edges that touch window `p`, with its cells moved by `deltas`.
pub open spec fn patch_energy_spec(
    labels: Seq<i32>,
    deltas: Seq<i32>,
    h: Seq<Option<EdgeDatum>>,
    v: Seq<Option<EdgeDatum>>,
    nrow: int,
    ncol: int,
    p: (usize, usize, usize, usize),
) -> int {
    let b = window_bounds(p, nrow, ncol);
    rect_sum(labels, deltas, h, true, p, ncol, b.0, b.0.1) + rect_sum(
        labels,
        deltas,
        v,
        false,
        p,
        ncol,
        b.1,
        b.1.1,
    )
}

/// Every edge that touches window `p` can be priced with its cells moved by `deltas`.
pub open spec fn patch_costs_ok(
    labels: Seq<i32>,
    deltas: Seq<i32>,
    h: Seq<Option<EdgeDatum>>,
    v: Seq<Option<EdgeDatum>>,
    nrow: int,
    ncol: int,
    p: (usize, usize, usize, usize),
) -> bool {
    let b = window_bounds(p, nrow, ncol);
    rect_ok(labels, deltas, h, true, p, ncol, b.0) && rect_ok(labels, deltas, v, false, p, ncol, b.1)
}

/// Inputs for which the window cost can be taken.
pub open spec fn window_ok(
    labels: Seq<i32>,
    deltas: Seq<i32>,
    h: Seq<Option<EdgeDatum>>,
    v: Seq<Option<EdgeDatum>>,
    nrow: int,
    ncol: int,
    p: (usize, usize, usize, usize),
) -> bool {
    &&& grid_ok(h, v, nrow, ncol)
    &&& labels.len() == nrow * ncol
    &&& 1 <= p.2 <= MAX_PATCH_CELLS
    &&& 1 <= p.3 <= MAX_PATCH_CELLS
    &&& p.2 * p.3 <= MAX_PATCH_CELLS
    &&& deltas_fit(deltas, p)
    &&& p.0 + p.2 <= nrow
    &&& p.1 + p.3 <= ncol
}

proof fn lemma_cell_in_grid(r: int, c: int, nrow: int, ncol: int)
    requires
        0 <= r < nrow,
        0 <= c < ncol,
    ensures
        0 <= r * ncol + c < nrow * ncol,
{
    assert(0 <= r * ncol + c < nrow * ncol) by (nonlinear_arith)
        requires
            0 <= r < nrow,
            0 <= c < ncol,
    ;
}

/// Cost of the edges of one family in row `r`, columns `c0..c1`, with the
/// window's cells moved by `deltas`; `None` when one cannot be priced.
fn window_row_energy(
    labels: &[i32],
    deltas: &[i32],
    s: &[Option<EdgeDatum>],
    is_h: bool,
    nrow: usize,
    ncol: usize,
    patch: (usize, usize, usize, usize),
    r: usize,
    c0: usize,
    c1: usize,
) -> (res: Option<i128>)
    requires
        labels@.len() == nrow * ncol,
        deltas_fit(deltas@, patch),
        patch.0 + patch.2 <= usize::MAX,
        patch.1 + patch.3 <= usize::MAX,
        patch.2 * patch.3 <= usize::MAX,
        c0 <= c1,
        c1 - c0 <= 8,
        is_h ==> r < nrow && c1 + 1 <= ncol && s@.len() == nrow * (ncol - 1),
        !is_h ==> r + 1 < nrow && c1 <= ncol && s@.len() == (nrow - 1) * ncol,
    ensures
        res is Some <==> forall|c: int|
            c0 <= c < c1 ==> (if is_h {
                h_ok_at(labels@, deltas@, s@, patch, ncol as int, r as int, c)
            } else {
                v_ok_at(labels@, deltas@, s@, patch, ncol as int, r as int, c)
            }),
        res matches Some(t) ==> t == row_sum(
            labels@,
            deltas@,
            s@,
            is_h,
            patch,
            ncol as int,
            r as int,
            c0 as int,
            c1 as int,
        ) && -0x4_0000_0000_0000_0000 <= t <= 0x4_0000_0000_0000_0000,
{
    let mut total: i128 = 0;
    let mut c = c0;
    let sl = s.len();
    let ll = labels.len();
    while c < c1
        invariant
            sl == s@.len(),
            ll == labels@.len(),
            c0 <= c <= c1,
            c1 - c0 <= 8,
            labels@.len() == nrow * ncol,
            deltas_fit(deltas@, patch),
            patch.0 + patch.2 <= usize::MAX,
            patch.1 + patch.3 <= usize::MAX,
            patch.2 * patch.3 <= usize::MAX,
            is_h ==> r < nrow && c1 + 1 <= ncol && s@.len() == nrow * (ncol - 1),
            !is_h ==> r + 1 < nrow && c1 <= ncol && s@.len() == (nrow - 1) * ncol,
            forall|k: int|
                c0 <= k < c ==> (if is_h {
                    h_ok_at(labels@, deltas@, s@, patch, ncol as int, r as int, k)
                } else {
                    v_ok_at(labels@, deltas@, s@, patch, ncol as int, r as int, k)
                }),
            total == row_sum(labels@, deltas@, s@, is_h, patch, ncol as int, r as int, c0 as int, c as int),
            -(c - c0) * 0x8000_0000_0000_0000 <= total <= (c - c0) * 0x8000_0000_0000_0000,
        decreases c1 - c,
    {
        let ghost rr = r as int;
        let ghost cc = c as int;
        let ghost nc = ncol as int;
        let ghost nr = nrow as int;
        let slot_index: usize;
        let to: (usize, usize);
        if is_h {
            proof {
                lemma_cell_in_grid(rr, cc, nr, nc - 1);
                lemma_cell_in_grid(rr, cc + 1, nr, nc);
            }
            slot_index = r * (ncol - 1) + c;
            to = (r, c + 1);
        } else {
            proof {
                lemma_cell_in_grid(rr, cc, nr - 1, nc);
                lemma_cell_in_grid(rr + 1, cc, nr, nc);
            }
            slot_index = r * ncol + c;
            to = (r + 1, c);
        }
        proof {
            lemma_cell_in_grid(rr, cc, nr, nc);
        }
        match s[slot_index] {
            Some(edge) => {
                match edge_patch_cost(labels, deltas, patch, ncol, edge, (r, c), to) {
                    Some(x) => {
                        proof {
                            let la = shifted_label(labels@, deltas@, patch, nc, rr, cc);
                            let lb = shifted_label(labels@, deltas@, patch, nc, to.0 as int, to.1 as int);
                            crate::edges::lemma_cost_range(edge, crate::edges::label_flow(edge, la, lb));
                        }
                        total = total + x as i128;
                    },
                    None => {
                        proof {
                            if is_h {
                                assert(!h_ok_at(labels@, deltas@, s@, patch, ncol as int, r as int, c as int));
                            } else {
                                assert(!v_ok_at(labels@, deltas@, s@, patch, ncol as int, r as int, c as int));
                            }
                        }
                        return None;
                    },
                }
            },
            None => {},
        }
        c = c + 1;
    }
    Some(total)
}

/// Cost of the edges of one family over rows `b.0..b.1` and columns
/// `b.2..b.3`; `None` when one cannot be priced.
fn window_rect_energy(
    labels: &[i32],
    deltas: &[i32],
    s: &[Option<EdgeDatum>],
    is_h: bool,
    nrow: usize,
    ncol: usize,
    patch: (usize, usize, usize, usize),
    b: (usize, usize, usize, usize),
) -> (res: Option<i128>)
    requires
        labels@.len() == nrow * ncol,
        deltas_fit(deltas@, patch),
        patch.0 + patch.2 <= usize::MAX,
        patch.1 + patch.3 <= usize::MAX,
        patch.2 * patch.3 <= usize::MAX,
        b.0 <= b.1,
        b.1 - b.0 <= 8,
        b.2 <= b.3,
        b.3 - b.2 <= 8,
        is_h ==> b.1 <= nrow && b.3 + 1 <= ncol && s@.len() == nrow * (ncol - 1),
        !is_h ==> b.1 + 1 <= nrow && b.3 <= ncol && s@.len() == (nrow - 1) * ncol,
    ensures
        res is Some <==> rect_ok(
            labels@,
            deltas@,
            s@,
            is_h,
            patch,
            ncol as int,
            (b.0 as int, b.1 as int, b.2 as int, b.3 as int),
        ),
        res matches Some(t) ==> t == rect_sum(
            labels@,
            deltas@,
            s@,
            is_h,
            patch,
            ncol as int,
            (b.0 as int, b.1 as int, b.2 as int, b.3 as int),
            b.1 as int,
        ) && -0x20_0000_0000_0000_0000 <= t <= 0x20_0000_0000_0000_0000,
{
    let ghost bb = (b.0 as int, b.1 as int, b.2 as int, b.3 as int);
    let mut total: i128 = 0;
    let mut r = b.0;
    while r < b.1
        invariant
            b.0 <= r <= b.1,
            b.1 - b.0 <= 8,
            b.2 <= b.3,
            b.3 - b.2 <= 8,
            bb == (b.0 as int, b.1 as int, b.2 as int, b.3 as int),
            labels@.len() == nrow * ncol,
            deltas_fit(deltas@, patch),
            patch.0 + patch.2 <= usize::MAX,
            patch.1 + patch.3 <= usize::MAX,
            patch.2 * patch.3 <= usize::MAX,
            is_h ==> b.1 <= nrow && b.3 + 1 <= ncol && s@.len() == nrow * (ncol - 1),
            !is_h ==> b.1 + 1 <= nrow && b.3 <= ncol && s@.len() == (nrow - 1) * ncol,
            forall|rr: int, cc: int|
                b.0 <= rr < r && b.2 <= cc < b.3 ==> (if is_h {
                    h_ok_at(labels@, deltas@, s@, patch, ncol as int, rr, cc)
                } else {
                    v_ok_at(labels@, deltas@, s@, patch, ncol as int, rr, cc)
                }),
            total == rect_sum(labels@, deltas@, s@, is_h, patch, ncol as int, bb, r as int),
            -(r - b.0) * 0x4_0000_0000_0000_0000 <= total <= (r - b.0) * 0x4_0000_0000_0000_0000,
        decreases b.1 - r,
    {
        match window_row_energy(labels, deltas, s, is_h, nrow, ncol, patch, r, b.2, b.3) {
            Some(t) => {
                total = total + t;
            },
            None => {
                proof {
                    let cc = choose|cc: int|
                        b.2 <= cc < b.3 && !(if is_h {
                            h_ok_at(labels@, deltas@, s@, patch, ncol as int, r as int, cc)
                        } else {
                            v_ok_at(labels@, deltas@, s@, patch, ncol as int, r as int, cc)
                        });
                    assert(b.0 <= r < b.1 && b.2 <= cc < b.3);
                }
                return None;
            },
        }
        r = r + 1;
    }
    Some(total)
}

/// Cost of the edges that touch window `patch` once its cells move by
/// `deltas`: horizontal edges of its rows from the column left of it, vertical
/// edges of its columns from the row above it, clipped to the grid. `None`
/// when one of them cannot be priced.
pub fn patch_energy(
    labels: &[i32],
    deltas: &[i32],
    horizontal: &[Option<EdgeDatum>],
    vertical: &[Option<EdgeDatum>],
    nrow: usize,
    ncol: usize,
    patch: (usize, usize, usize, usize),
) -> (res: Option<i128>)
    requires
        window_ok(labels@, deltas@, horizontal@, vertical@, nrow as int, ncol as int, patch),
    ensures
        res is Some <==> patch_costs_ok(
            labels@,
            deltas@,
            horizontal@,
            vertical@,
            nrow as int,
            ncol as int,
            patch,
        ),
        res matches Some(t) ==> t == patch_energy_spec(
            labels@,
            deltas@,
            horizontal@,
            vertical@,
            nrow as int,
            ncol as int,
            patch,
        ),
{
    let (row0, col0, height, width) = patch;
    let row_end = row0 + height;
    let col_end = col0 + width;
    let hcols = ncol - 1;
    let vrows = nrow - 1;
    let hb = (
        row0,
        if row_end < nrow {
            row_end
        } else {
            nrow
        },
        if col0 >= 1 {
            col0 - 1
        } else {
            0
        },
        if col_end < hcols {
            col_end
        } else {
            hcols
        },
    );
    let vb = (
        if row0 >= 1 {
            row0 - 1
        } else {
            0
        },
        if row_end < vrows {
            row_end
        } else {
            vrows
        },
        col0,
        if col_end < ncol {
            col_end
        } else {
            ncol
        },
    );
    proof {
        assert(height * width <= usize::MAX);
    }
    let hpart = match window_rect_energy(labels, deltas, horizontal, true, nrow, ncol, patch, hb) {
        Some(t) => t,
        None => {
            return None;
        },
    };
    let vpart = match window_rect_energy(labels, deltas, vertical, false, nrow, ncol, patch, vb) {
        Some(t) => t,
        None => {
            return None;
        },
    };
    Some(hpart + vpart)
}

/// The moved label of the `q`-th cell of the window fits in `i32`.
pub open spec fn cell_fits(
    labels: Seq<i32>,
    d: Seq<i32>,
    p: (usize, usize, usize, usize),
    ncol: int,
    q: int,
) -> bool {
    let r = p.0 + q / (p.3 as int);
    let c = p.1 + q % (p.3 as int);
    i32::MIN <= shifted_label(labels, d, p, ncol, r, c) <= i32::MAX
}

/// Every delta is -1, 0 or +1, one per cell of the window.
pub open spec fn deltas_choice(d: Seq<i32>, p: (usize, usize, usize, usize)) -> bool {
    &&& d.len() == p.2 * p.3
    &&& forall|i: int| 0 <= i < d.len() ==> -1 <= #[trigger] d[i] <= 1
}

/// No move: a zero delta for every cell of the window.
pub open spec fn zero_deltas(p: (usize, usize, usize, usize)) -> Seq<i32> {
    Seq::new((p.2 * p.3) as nat, |i: int| 0i32)
}

/// `new` holds `old` with the window's cells moved by `d`.
pub open spec fn moved_by(
    old: Seq<i32>,
    new: Seq<i32>,
    d: Seq<i32>,
    p: (usize, usize, usize, usize),
    nrow: int,
    ncol: int,
) -> bool {
    &&& new.len() == old.len()
    &&& forall|r: int, c: int|
        0 <= r < nrow && 0 <= c < ncol ==> #[trigger] new[r * ncol + c] == shifted_label(
            old,
            d,
            p,
            ncol,
            r,
            c,
        )
}

/// The delta of a base-3 digit: 0, 1, 2 mean -1, 0, +1.
pub open spec fn digit_delta(d: int) -> i32 {
    if d == 0 {
        -1i32
    } else if d == 1 {
        0i32
    } else {
        1i32
    }
}

/// The deltas that code `code` stands for, one base-3 digit per cell, the
/// lowest digit first.
pub open spec fn code_deltas(code: int, cells: int) -> Seq<i32>
    decreases cells,
{
    if cells <= 0 {
        Seq::empty()
    } else {
        seq![digit_delta(code % 3)] + code_deltas(code / 3, cells - 1)
    }
}

/// `3` to the power `n`: the number of codes of `n` cells.
pub open spec fn pow3(n: int) -> int
    decreases n,
{
    if n <= 0 {
        1
    } else {
        3 * pow3(n - 1)
    }
}

/// The deltas that code `code` stands for, digit by digit in base 3
/// (0, 1, 2 meaning -1, 0, +1).
fn decode_deltas(code: usize, cells: usize) -> (r: Vec<i32>)
    ensures
        r@.len() == cells,
        forall|i: int| 0 <= i < r@.len() ==> -1 <= #[trigger] r@[i] <= 1,
        r@ == code_deltas(code as int, cells as int),
{
    let mut out: Vec<i32> = Vec::new();
    let mut rest = code;
    let mut i: usize = 0;
    while i < cells
        invariant
            i <= cells,
            out@.len() == i,
            forall|j: int| 0 <= j < i ==> -1 <= #[trigger] out@[j] <= 1,
            out@ + code_deltas(rest as int, cells - i) == code_deltas(code as int, cells as int),
        decreases cells - i,
    {
        let ghost o0 = out@;
        let ghost r0 = rest as int;
        let digit = rest % 3;
        out.push(
            if digit == 0 {
                -1
            } else if digit == 1 {
                0
            } else {
                1
            },
        );
        rest = rest / 3;
        i = i + 1;
        proof {
            assert(code_deltas(r0, cells - i + 1) == seq![digit_delta(r0 % 3)] + code_deltas(r0 / 3, cells - i));
            assert(out@ == o0.push(digit_delta(r0 % 3)));
            assert(out@ + code_deltas(rest as int, cells - i) =~= o0 + (seq![digit_delta(r0 % 3)] + code_deltas(
                r0 / 3,
                cells - i,
            )));
        }
    }
    proof {
        assert(out@ + code_deltas(rest as int, 0) =~= out@);
    }
    out
}

fn zero_vec(cells: usize) -> (r: Vec<i32>)
    ensures
        r@.len() == cells,
        forall|i: int| 0 <= i < cells ==> #[trigger] r@[i] == 0,
{
    let mut out: Vec<i32> = Vec::new();
    let mut i: usize = 0;
    while i < cells
        invariant
            i <= cells,
            out@.len() == i,
            forall|j: int| 0 <= j < i ==> #[trigger] out@[j] == 0,
        decreases cells - i,
    {
        out.push(0);
        i = i + 1;
    }
    out
}

proof fn lemma_patch_cell(k: int, p: (usize, usize, usize, usize), ncol: int)
    requires
        0 <= k < p.2 * p.3,
        p.3 >= 1,
        p.1 + p.3 <= ncol,
    ensures
        in_patch(p, p.0 + k / (p.3 as int), p.1 + k % (p.3 as int)),
        (k / (p.3 as int)) * p.3 + k % (p.3 as int) == k,
        p.1 + k % (p.3 as int) < ncol,
{
    vstd::arithmetic::div_mod::lemma_fundamental_div_mod(k, p.3 as int);
    assert(k / (p.3 as int) < p.2) by (nonlinear_arith)
        requires
            k == (p.3 as int) * (k / (p.3 as int)) + k % (p.3 as int),
            0 <= k % (p.3 as int),
            k < p.2 * p.3,
            p.3 >= 1,
    ;
    assert(0 <= k / (p.3 as int)) by (nonlinear_arith)
        requires
            k == (p.3 as int) * (k / (p.3 as int)) + k % (p.3 as int),
            k % (p.3 as int) < p.3,
            0 <= k,
            p.3 >= 1,
    ;
    assert((k / (p.3 as int)) * p.3 == (p.3 as int) * (k / (p.3 as int))) by (nonlinear_arith);
}

proof fn lemma_cell_injective(r1: int, c1: int, r2: int, c2: int, ncol: int)
    requires
        0 <= c1 < ncol,
        0 <= c2 < ncol,
        r1 * ncol + c1 == r2 * ncol + c2,
    ensures
        r1 == r2,
        c1 == c2,
{
    assert(r1 == r2) by (nonlinear_arith)
        requires
            0 <= c1 < ncol,
            0 <= c2 < ncol,
            r1 * ncol + c1 == r2 * ncol + c2,
    ;
}

/// Cost of the edges around window `p` after the move that code `code`
/// stands for, when the cost model can price it.
pub open spec fn code_energy(
    labels: Seq<i32>,
    h: Seq<Option<EdgeDatum>>,
    v: Seq<Option<EdgeDatum>>,
    nrow: int,
    ncol: int,
    p: (usize, usize, usize, usize),
    code: int,
) -> Option<int> {
    let d = code_deltas(code, p.2 * p.3);
    if patch_costs_ok(labels, d, h, v, nrow, ncol, p) {
        Some(patch_energy_spec(labels, d, h, v, nrow, ncol, p))
    } else {
        None
    }
}

/// Code `c` is the best move among codes `1..k`: it prices below `base`, no
/// code there prices lower, and every code before it prices higher.
pub open spec fn best_code(
    labels: Seq<i32>,
    h: Seq<Option<EdgeDatum>>,
    v: Seq<Option<EdgeDatum>>,
    nrow: int,
    ncol: int,
    p: (usize, usize, usize, usize),
    base: int,
    c: int,
    k: int,
) -> bool {
    &&& 1 <= c < k
    &&& code_energy(labels, h, v, nrow, ncol, p, c) is Some
    &&& code_energy(labels, h, v, nrow, ncol, p, c)->0 < base
    &&& forall|c2: int|
        1 <= c2 < k && #[trigger] code_energy(labels, h, v, nrow, ncol, p, c2) is Some ==> code_energy(
            labels,
            h,
            v,
            nrow,
            ncol,
            p,
            c,
        )->0 <= code_energy(labels, h, v, nrow, ncol, p, c2)->0
    &&& forall|c2: int|
        1 <= c2 < c && #[trigger] code_energy(labels, h, v, nrow, ncol, p, c2) is Some ==> code_energy(
            labels,
            h,
            v,
            nrow,
            ncol,
            p,
            c,
        )->0 < code_energy(labels, h, v, nrow, ncol, p, c2)->0
}

/// No code among `1..k` prices below `base`.
pub open spec fn none_better(
    labels: Seq<i32>,
    h: Seq<Option<EdgeDatum>>,
    v: Seq<Option<EdgeDatum>>,
    nrow: int,
    ncol: int,
    p: (usize, usize, usize, usize),
    base: int,
    k: int,
) -> bool {
    forall|c2: int|
        1 <= c2 < k && #[trigger] code_energy(labels, h, v, nrow, ncol, p, c2) is Some ==> code_energy(
            labels,
            h,
            v,
            nrow,
            ncol,
            p,
            c2,
        )->0 >= base
}

/// Every cell of window `p` keeps an `i32` label under the move `d`.
pub open spec fn all_fit(labels: Seq<i32>, d: Seq<i32>, p: (usize, usize, usize, usize), ncol: int) -> bool {
    forall|q: int| 0 <= q < p.2 * p.3 ==> #[trigger] cell_fits(labels, d, p, ncol, q)
}

/// Tries every move of the window's cells by -1, 0 or +1 and applies the one
/// that lowers the cost of the edges around the window the most (the first
/// such in code order). False, leaving the labels alone, for a window of more
/// than `MAX_PATCH_CELLS` cells, when no move lowers that cost, or when a cost
/// or label would leave its range.
pub fn try_patch(
    labels: &mut Vec<i32>,
    horizontal: &[Option<EdgeDatum>],
    vertical: &[Option<EdgeDatum>],
    nrow: usize,
    ncol: usize,
    patch: (usize, usize, usize, usize),
) -> (changed: bool)
    requires
        grid_ok(horizontal@, vertical@, nrow as int, ncol as int),
        old(labels)@.len() == nrow * ncol,
        patch_in_grid(patch, nrow as int, ncol as int),
    ensures
        final(labels)@.len() == old(labels)@.len(),
        !changed ==> final(labels)@ == old(labels)@,
        changed ==> exists|d: Seq<i32>|
            {
                &&& deltas_choice(d, patch)
                &&& patch_costs_ok(old(labels)@, d, horizontal@, vertical@, nrow as int, ncol as int, patch)
                &&& patch_costs_ok(old(labels)@, zero_deltas(patch), horizontal@, vertical@, nrow as int, ncol as int, patch)
                &&& patch_energy_spec(old(labels)@, d, horizontal@, vertical@, nrow as int, ncol as int, patch)
                    < patch_energy_spec(old(labels)@, zero_deltas(patch), horizontal@, vertical@, nrow as int, ncol as int, patch)
                &&& moved_by(old(labels)@, final(labels)@, d, patch, nrow as int, ncol as int)
            },
        changed ==> exists|c: int|
            #[trigger] best_code(
                old(labels)@,
                horizontal@,
                vertical@,
                nrow as int,
                ncol as int,
                patch,
                patch_energy_spec(old(labels)@, zero_deltas(patch), horizontal@, vertical@, nrow as int, ncol as int, patch),
                c,
                pow3(patch.2 * patch.3),
            ) && moved_by(
                old(labels)@,
                final(labels)@,
                code_deltas(c, patch.2 * patch.3),
                patch,
                nrow as int,
                ncol as int,
            ),
        !changed ==> {
            ||| patch.2 == 0 || patch.3 == 0 || patch.2 * patch.3 > MAX_PATCH_CELLS
            ||| !patch_costs_ok(old(labels)@, zero_deltas(patch), horizontal@, vertical@, nrow as int, ncol as int, patch)
            ||| none_better(
                old(labels)@,
                horizontal@,
                vertical@,
                nrow as int,
                ncol as int,
                patch,
                patch_energy_spec(old(labels)@, zero_deltas(patch), horizontal@, vertical@, nrow as int, ncol as int, patch),
                pow3(patch.2 * patch.3),
            )
            ||| exists|c: int|
                #[trigger] best_code(
                    old(labels)@,
                    horizontal@,
                    vertical@,
                    nrow as int,
                    ncol as int,
                    patch,
                    patch_energy_spec(old(labels)@, zero_deltas(patch), horizontal@, vertical@, nrow as int, ncol as int, patch),
                    c,
                    pow3(patch.2 * patch.3),
                ) && !all_fit(old(labels)@, code_deltas(c, patch.2 * patch.3), patch, ncol as int)
        },
{
    let (row0, col0, height, width) = patch;
    let ghost l_in = labels@;
    if height == 0 || width == 0 || height > MAX_PATCH_CELLS || width > MAX_PATCH_CELLS {
        proof {
            if height > 0 && width > 0 {
                assert(height * width > 6) by (nonlinear_arith)
                    requires
                        height >= 1,
                        width >= 1,
                        height > 6 || width > 6,
                ;
            }
        }
        return false;
    }
    assert(height * width <= 36) by (nonlinear_arith)
        requires
            1 <= height <= 6,
            1 <= width <= 6,
    ;
    let cell_count = height * width;
    if cell_count > MAX_PATCH_CELLS {
        return false;
    }
    let zero = zero_vec(cell_count);
    proof {
        assert(zero@ == zero_deltas(patch));
    }
    let baseline = match patch_energy(labels, &zero, horizontal, vertical, nrow, ncol, patch) {
        Some(t) => t,
        None => {
            return false;
        },
    };
    let mut combinations: usize = 1;
    let mut k: usize = 0;
    while k < cell_count
        invariant
            k <= cell_count,
            cell_count <= 6,
            1 <= combinations <= 729,
            k <= 1 ==> combinations <= 3,
            combinations <= (if k == 0 { 1int } else if k == 1 { 3 } else if k == 2 { 9 } else if k == 3 { 27 } else if k == 4 { 81 } else if k == 5 { 243 } else { 729 }),
            combinations == pow3(k as int),
        decreases cell_count - k,
    {
        combinations = combinations * 3;
        k = k + 1;
    }
    let mut best = baseline;
    let mut best_deltas = zero_vec(cell_count);
    let mut found = false;
    let mut code: usize = 1;
    let ghost mut best_c: int = 0;
    let ghost hh = horizontal@;
    let ghost vv = vertical@;
    let ghost nr = nrow as int;
    let ghost nc = ncol as int;
    while code < combinations
        invariant
            patch == (row0, col0, height, width),
            1 <= code <= combinations,
            combinations == pow3(cell_count as int),
            labels@ == l_in,
            hh == horizontal@,
            vv == vertical@,
            nr == nrow,
            nc == ncol,
            baseline == patch_energy_spec(l_in, zero_deltas(patch), hh, vv, nr, nc, patch),
            !found ==> none_better(l_in, hh, vv, nr, nc, patch, baseline as int, code as int),
            found ==> best_code(l_in, hh, vv, nr, nc, patch, baseline as int, best_c, code as int)
                && best_deltas@ == code_deltas(best_c, cell_count as int) && best as int == code_energy(
                l_in,
                hh,
                vv,
                nr,
                nc,
                patch,
                best_c,
            )->0,
            combinations <= 729,
            cell_count == height * width,
            window_ok(labels@, zero@, horizontal@, vertical@, nrow as int, ncol as int, patch),
            best_deltas@.len() == cell_count,
            !found ==> best == baseline,
            found ==> {
                &&& deltas_choice(best_deltas@, patch)
                &&& patch_costs_ok(labels@, best_deltas@, horizontal@, vertical@, nrow as int, ncol as int, patch)
                &&& best == patch_energy_spec(labels@, best_deltas@, horizontal@, vertical@, nrow as int, ncol as int, patch)
                &&& best < baseline
            },
        decreases combinations - code,
    {
        let deltas = decode_deltas(code, cell_count);
        let ghost e_opt = code_energy(l_in, hh, vv, nr, nc, patch, code as int);
        match patch_energy(labels, &deltas, horizontal, vertical, nrow, ncol, patch) {
            Some(energy) => {
                if energy < best {
                    proof {
                        best_c = code as int;
                    }
                    best = energy;
                    best_deltas = deltas;
                    found = true;
                }
            },
            None => {},
        }
        proof {
            assert(code_energy(l_in, hh, vv, nr, nc, patch, code as int) == e_opt);
        }
        code = code + 1;
    }
    if !found {
        return false;
    }
    let n = labels.len();
    let mut j: usize = 0;
    while j < cell_count
        invariant
            patch == (row0, col0, height, width),
            j <= cell_count,
            cell_count == height * width,
            1 <= width,
            n == labels@.len(),
            labels@.len() == nrow * ncol,
            patch_in_grid(patch, nrow as int, ncol as int),
            best_deltas@.len() == cell_count,
            forall|q: int| 0 <= q < j ==> #[trigger] cell_fits(labels@, best_deltas@, patch, ncol as int, q),
            labels@ == l_in,
            labels@.len() == l_in.len(),
            hh == horizontal@,
            vv == vertical@,
            nr == nrow,
            nc == ncol,
            combinations == pow3(cell_count as int),
            baseline == patch_energy_spec(l_in, zero_deltas(patch), hh, vv, nr, nc, patch),
            best_deltas@ == code_deltas(best_c, cell_count as int),
            best_code(l_in, hh, vv, nr, nc, patch, baseline as int, best_c, combinations as int),
        decreases cell_count - j,
    {
        proof {
            lemma_patch_cell(j as int, patch, ncol as int);
            lemma_cell_in_grid(row0 + j / width, col0 + j % width, nrow as int, ncol as int);
        }
        let value = shifted_cell_label(labels, &best_deltas, patch, ncol, row0 + j / width, col0 + j % width);
        if value < i32::MIN as i64 || value > i32::MAX as i64 {
            proof {
                assert(!cell_fits(labels@, best_deltas@, patch, ncol as int, j as int));
                assert(!all_fit(l_in, code_deltas(best_c, cell_count as int), patch, ncol as int));
                assert(best_code(l_in, hh, vv, nr, nc, patch, baseline as int, best_c, combinations as int));
            }
            return false;
        }
        j = j + 1;
    }
    let ghost l0 = labels@;
    j = 0;
    while j < cell_count
        invariant
            patch == (row0, col0, height, width),
            j <= cell_count,
            cell_count == height * width,
            1 <= width,
            labels@.len() == l0.len(),
            l0.len() == nrow * ncol,
            n == l0.len(),
            patch_in_grid(patch, nrow as int, ncol as int),
            best_deltas@.len() == cell_count,
            forall|q: int| 0 <= q < cell_count ==> #[trigger] cell_fits(l0, best_deltas@, patch, ncol as int, q),
            l0 == l_in,
            labels@.len() == l_in.len(),
            hh == horizontal@,
            vv == vertical@,
            nr == nrow,
            nc == ncol,
            combinations == pow3(cell_count as int),
            baseline == patch_energy_spec(l_in, zero_deltas(patch), hh, vv, nr, nc, patch),
            best_deltas@ == code_deltas(best_c, cell_count as int),
            best_code(l_in, hh, vv, nr, nc, patch, baseline as int, best_c, combinations as int),

            forall|r: int, c: int|
                0 <= r < nrow && 0 <= c < ncol ==> #[trigger] labels@[r * ncol + c] == if in_patch(patch, r, c)
                    && (r - row0) * width + (c - col0) < j {
                    shifted_label(l0, best_deltas@, patch, ncol as int, r, c) as i32
                } else {
                    l0[r * ncol + c]
                },
        decreases cell_count - j,
    {
        let ghost rr = row0 + j / width;
        let ghost cc = col0 + j % width;
        proof {
            lemma_patch_cell(j as int, patch, ncol as int);
            lemma_cell_in_grid(rr, cc, nrow as int, ncol as int);
        }
        let idx = (row0 + j / width) * ncol + col0 + j % width;
        let ghost lp = labels@;
        proof {
            assert((rr - row0) * (width as int) + (cc - col0) == j);
            assert(idx == rr * ncol + cc);
            assert(lp[rr * ncol + cc] == l0[rr * ncol + cc]);
            assert(cell_fits(l0, best_deltas@, patch, ncol as int, j as int));
            assert(shifted_label(l0, best_deltas@, patch, ncol as int, rr, cc) == l0[idx as int]
                + best_deltas@[j as int]);
        }
        let value = labels[idx] as i64 + best_deltas[j] as i64;
        labels.set(idx, value as i32);
        proof {
            assert forall|r: int, c: int|
                0 <= r < nrow && 0 <= c < ncol implies #[trigger] labels@[r * ncol + c] == if in_patch(patch, r, c)
                    && (r - row0) * width + (c - col0) < j + 1 {
                    shifted_label(l0, best_deltas@, patch, ncol as int, r, c) as i32
                } else {
                    l0[r * ncol + c]
                } by {
                lemma_cell_in_grid(r, c, nrow as int, ncol as int);
                if r * ncol + c == idx {
                    lemma_cell_injective(r, c, rr, cc, ncol as int);
                    assert(r == rr && c == cc);
                    assert(labels@[r * ncol + c] == value as i32);
                } else {
                    assert(labels@[r * ncol + c] == lp[r * ncol + c]);
                    if in_patch(patch, r, c) && (r - row0) * width + (c - col0) == j {
                        lemma_patch_cell(j as int, patch, ncol as int);
                        assert(r == rr && c == cc) by (nonlinear_arith)
                            requires
                                (r - row0) * width + (c - col0) == j,
                                rr == row0 + j / width,
                                cc == col0 + j % width,
                                (j / width) * width + j % width == j,
                                0 <= c - col0 < width,
                                0 <= j % width < width,
                        ;
                    }
                }
            }
        }
        j = j + 1;
    }
    proof {
        assert forall|r: int, c: int|
            0 <= r < nrow && 0 <= c < ncol implies #[trigger] labels@[r * ncol + c] == shifted_label(l0, best_deltas@, patch, ncol as int, r, c) by {
            if in_patch(patch, r, c) {
                lemma_local_index(r, c, patch);
                let q = (r - row0) * width + (c - col0);
                vstd::arithmetic::div_mod::lemma_fundamental_div_mod_converse(
                    q,
                    width as int,
                    r - row0,
                    c - col0,
                );
                assert(cell_fits(l0, best_deltas@, patch, ncol as int, q));
            }
        }
    }
    true
}

/// Width of the row-major index of one edge family.
pub open spec fn fam_width(is_h: bool, ncol: int) -> int {
    if is_h {
        ncol - 1
    } else {
        ncol
    }
}

pub open spec fn fam_cost_at(
    labels: Seq<i32>,
    d: Seq<i32>,
    s: Seq<Option<EdgeDatum>>,
    is_h: bool,
    p: (usize, usize, usize, usize),
    ncol: int,
    r: int,
    c: int,
) -> int {
    if is_h {
        h_cost_at(labels, d, s, p, ncol, r, c)
    } else {
        v_cost_at(labels, d, s, p, ncol, r, c)
    }
}

/// Change of the cost of edge `i` of one family when the window's cells move by `d`.
pub open spec fn change_fn(
    labels: Seq<i32>,
    d: Seq<i32>,
    s: Seq<Option<EdgeDatum>>,
    is_h: bool,
    p: (usize, usize, usize, usize),
    ncol: int,
) -> spec_fn(int) -> int {
    |i: int|
        fam_cost_at(labels, d, s, is_h, p, ncol, i / fam_width(is_h, ncol), i % fam_width(is_h, ncol))
            - fam_cost_at(
            labels,
            zero_deltas(p),
            s,
            is_h,
            p,
            ncol,
            i / fam_width(is_h, ncol),
            i % fam_width(is_h, ncol),
        )
}

proof fn lemma_row_col(r: int, c: int, w: int)
    requires
        0 <= c < w,
        0 <= r,
    ensures
        (r * w + c) / w == r,
        (r * w + c) % w == c,
{
    vstd::arithmetic::div_mod::lemma_fundamental_div_mod_converse(r * w + c, w, r, c);
}

/// The change of a family's rectangle sum is the sum of the per-edge changes.
proof fn lemma_rect_change(
    labels: Seq<i32>,
    d: Seq<i32>,
    s: Seq<Option<EdgeDatum>>,
    is_h: bool,
    p: (usize, usize, usize, usize),
    ncol: int,
    b: (int, int, int, int),
    r: int,
)
    requires
        0 <= b.0 <= r,
        0 <= b.2 <= b.3 <= fam_width(is_h, ncol),
    ensures
        block_sum(change_fn(labels, d, s, is_h, p, ncol), fam_width(is_h, ncol), b.0, r, b.2, b.3)
            == rect_sum(labels, d, s, is_h, p, ncol, b, r) - rect_sum(
            labels,
            zero_deltas(p),
            s,
            is_h,
            p,
            ncol,
            b,
            r,
        ),
    decreases r - b.0,
{
    if r > b.0 {
        lemma_rect_change(labels, d, s, is_h, p, ncol, b, r - 1);
        lemma_row_change(labels, d, s, is_h, p, ncol, r - 1, b.2, b.3);
    }
}

proof fn lemma_row_change(
    labels: Seq<i32>,
    d: Seq<i32>,
    s: Seq<Option<EdgeDatum>>,
    is_h: bool,
    p: (usize, usize, usize, usize),
    ncol: int,
    r: int,
    c0: int,
    c: int,
)
    requires
        0 <= r,
        0 <= c0 <= c <= fam_width(is_h, ncol),
    ensures
        span_sum(change_fn(labels, d, s, is_h, p, ncol), r * fam_width(is_h, ncol), c0, c) == row_sum(
            labels,
            d,
            s,
            is_h,
            p,
            ncol,
            r,
            c0,
            c,
        ) - row_sum(labels, zero_deltas(p), s, is_h, p, ncol, r, c0, c),
    decreases c - c0,
{
    if c > c0 {
        lemma_row_change(labels, d, s, is_h, p, ncol, r, c0, c - 1);
        let w = fam_width(is_h, ncol);
        lemma_row_col(r, c - 1, w);
        assert(r * w + c - 1 == r * w + (c - 1));
    }
}

/// Moving the window's cells by zero changes no label.
proof fn lemma_zero_shift(labels: Seq<i32>, p: (usize, usize, usize, usize), ncol: int, r: int, c: int)
    ensures
        shifted_label(labels, zero_deltas(p), p, ncol, r, c) == labels[r * ncol + c],
{
    if in_patch(p, r, c) {
        lemma_local_index(r, c, p);
    }
}

/// Law: moving a window's cells changes the label objective by exactly the
/// change of the window cost (the cost of the edges that touch the window),
/// and the moved labels stay within the cost model's range.
pub proof fn law_patch_move_objective(
    old: Seq<i32>,
    new: Seq<i32>,
    d: Seq<i32>,
    h: Seq<Option<EdgeDatum>>,
    v: Seq<Option<EdgeDatum>>,
    nrow: int,
    ncol: int,
    p: (usize, usize, usize, usize),
)
    requires
        grid_ok(h, v, nrow, ncol),
        old.len() == nrow * ncol,
        nrow >= 1,
        ncol >= 1,
        patch_in_grid(p, nrow, ncol),
        deltas_choice(d, p),
        labels_ok(old, h, v, ncol),
        patch_costs_ok(old, d, h, v, nrow, ncol, p),
        moved_by(old, new, d, p, nrow, ncol),
    ensures
        label_objective_spec(new, h, v, ncol) - label_objective_spec(old, h, v, ncol)
            == patch_energy_spec(old, d, h, v, nrow, ncol, p) - patch_energy_spec(
            old,
            zero_deltas(p),
            h,
            v,
            nrow,
            ncol,
            p,
        ),
        labels_ok(new, h, v, ncol),
{
    let b = window_bounds(p, nrow, ncol);
    let fh = change_fn(old, d, h, true, p, ncol);
    let fv = change_fn(old, d, v, false, p, ncol);
    let w = ncol - 1;
    // Horizontal edges.
    assert forall|i: int|
        #![trigger fh(i)]
        #![trigger h[i]]
        0 <= i < h.len() implies h_energy(new, h, ncol, i) - h_energy(old, h, ncol, i)
        == fh(i) && (h[i] matches Some(e) ==> label_energy_ok(
        e,
        new[h_cell(i, ncol)] as int,
        new[h_cell(i, ncol) + 1] as int,
    )) by {
        assert(ncol >= 2) by (nonlinear_arith)
            requires
                0 <= i < h.len(),
                h.len() == nrow * (if ncol >= 1 { ncol - 1 } else { 0 }),
                ncol >= 1,
        ;
        crate::label_energy::lemma_h_cell_bounds(i, nrow, ncol);
        vstd::arithmetic::div_mod::lemma_fundamental_div_mod(i, w);
        let r = i / w;
        let c = i % w;
        assert(i == r * w + c) by (nonlinear_arith)
            requires
                i == w * r + c,
        ;
        assert(0 <= r < nrow) by (nonlinear_arith)
            requires
                i == r * w + c,
                0 <= c < w,
                0 <= i < nrow * w,
        ;
        assert(h_cell(i, ncol) == r * ncol + c);
        assert(r * ncol + c + 1 == r * ncol + (c + 1));
        lemma_zero_shift(old, p, ncol, r, c);
        lemma_zero_shift(old, p, ncol, r, c + 1);
        assert(new[r * ncol + c] == shifted_label(old, d, p, ncol, r, c));
        assert(new[r * ncol + (c + 1)] == shifted_label(old, d, p, ncol, r, c + 1));
        if !(b.0.0 <= r < b.0.1 && b.0.2 <= c < b.0.3) {
            assert(!in_patch(p, r, c) && !in_patch(p, r, c + 1));
        } else {
            assert(h_ok_at(old, d, h, p, ncol, r, c));
        }
    }
    lemma_sum_change_h(old, new, h, ncol, fh, h.len() as int);
    assert forall|r: int, c: int|
        0 <= r < nrow && 0 <= c < w && !(b.0.0 <= r < b.0.1 && b.0.2 <= c < b.0.3) implies #[trigger] cell(
        fh,
        w,
        r,
        c,
    ) == 0 by {
        lemma_row_col(r, c, w);
        assert(!in_patch(p, r, c) && !in_patch(p, r, c + 1));
        lemma_zero_shift(old, p, ncol, r, c);
        lemma_zero_shift(old, p, ncol, r, c + 1);
    }
    lemma_lin_rect(fh, w, nrow, b.0.0, b.0.1, b.0.2, b.0.3);
    assert(h.len() == nrow * w);
    lemma_rect_change(old, d, h, true, p, ncol, b.0, b.0.1);
    // Vertical edges.
    assert forall|i: int|
        #![trigger fv(i)]
        #![trigger v[i]]
        0 <= i < v.len() implies v_energy(new, v, ncol, i) - v_energy(old, v, ncol, i)
        == fv(i) && (v[i] matches Some(e) ==> label_energy_ok(
        e,
        new[i] as int,
        new[i + ncol] as int,
    )) by {
        vstd::arithmetic::div_mod::lemma_fundamental_div_mod(i, ncol);
        let r = i / ncol;
        let c = i % ncol;
        assert(i == r * ncol + c) by (nonlinear_arith)
            requires
                i == ncol * r + c,
        ;
        assert(0 <= r < nrow - 1) by (nonlinear_arith)
            requires
                i == r * ncol + c,
                0 <= c < ncol,
                0 <= i < (nrow - 1) * ncol,
        ;
        assert(i + ncol == (r + 1) * ncol + c) by (nonlinear_arith)
            requires
                i == r * ncol + c,
        ;
        lemma_zero_shift(old, p, ncol, r, c);
        lemma_zero_shift(old, p, ncol, r + 1, c);
        assert(new[r * ncol + c] == shifted_label(old, d, p, ncol, r, c));
        assert(new[(r + 1) * ncol + c] == shifted_label(old, d, p, ncol, r + 1, c));
        if !(b.1.0 <= r < b.1.1 && b.1.2 <= c < b.1.3) {
            assert(!in_patch(p, r, c) && !in_patch(p, r + 1, c));
        } else {
            assert(v_ok_at(old, d, v, p, ncol, r, c));
        }
    }
    lemma_sum_change_v(old, new, v, ncol, fv, v.len() as int);
    assert forall|r: int, c: int|
        0 <= r < nrow - 1 && 0 <= c < ncol && !(b.1.0 <= r < b.1.1 && b.1.2 <= c < b.1.3) implies #[trigger] cell(
        fv,
        ncol,
        r,
        c,
    ) == 0 by {
        lemma_row_col(r, c, ncol);
        assert(!in_patch(p, r, c) && !in_patch(p, r + 1, c));
        lemma_zero_shift(old, p, ncol, r, c);
        lemma_zero_shift(old, p, ncol, r + 1, c);
    }
    lemma_lin_rect(fv, ncol, nrow - 1, b.1.0, b.1.1, b.1.2, b.1.3);
    lemma_rect_change(old, d, v, false, p, ncol, b.1, b.1.1);
    assert(v.len() == (nrow - 1) * ncol);
    assert(h_energy_sum(new, h, ncol, h.len() as int) - h_energy_sum(old, h, ncol, h.len() as int)
        == rect_sum(old, d, h, true, p, ncol, b.0, b.0.1) - rect_sum(
        old,
        zero_deltas(p),
        h,
        true,
        p,
        ncol,
        b.0,
        b.0.1,
    ));
    assert(v_energy_sum(new, v, ncol, v.len() as int) - v_energy_sum(old, v, ncol, v.len() as int)
        == rect_sum(old, d, v, false, p, ncol, b.1, b.1.1) - rect_sum(
        old,
        zero_deltas(p),
        v,
        false,
        p,
        ncol,
        b.1,
        b.1.1,
    ));
}

proof fn lemma_sum_change_h(
    old: Seq<i32>,
    new: Seq<i32>,
    h: Seq<Option<EdgeDatum>>,
    ncol: int,
    f: spec_fn(int) -> int,
    k: int,
)
    requires
        0 <= k <= h.len(),
        forall|i: int| 0 <= i < h.len() ==> h_energy(new, h, ncol, i) - h_energy(old, h, ncol, i) == #[trigger] f(i),
    ensures
        h_energy_sum(new, h, ncol, k) - h_energy_sum(old, h, ncol, k) == lin_sum(f, k),
    decreases k,
{
    if k > 0 {
        lemma_sum_change_h(old, new, h, ncol, f, k - 1);
        assert(f(k - 1) == h_energy(new, h, ncol, k - 1) - h_energy(old, h, ncol, k - 1));
    }
}

proof fn lemma_sum_change_v(
    old: Seq<i32>,
    new: Seq<i32>,
    v: Seq<Option<EdgeDatum>>,
    ncol: int,
    f: spec_fn(int) -> int,
    k: int,
)
    requires
        0 <= k <= v.len(),
        forall|i: int| 0 <= i < v.len() ==> v_energy(new, v, ncol, i) - v_energy(old, v, ncol, i) == #[trigger] f(i),
    ensures
        v_energy_sum(new, v, ncol, k) - v_energy_sum(old, v, ncol, k) == lin_sum(f, k),
    decreases k,
{
    if k > 0 {
        lemma_sum_change_v(old, new, v, ncol, f, k - 1);
        assert(f(k - 1) == v_energy(new, v, ncol, k - 1) - v_energy(old, v, ncol, k - 1));
    }
}

/// A candidate edge `(axis, row, col)` of an `nrow` by `ncol` grid.
pub open spec fn candidate_ok(e: (u8, usize, usize), nrow: int, ncol: int) -> bool {
    &&& e.0 == 1 ==> e.1 < nrow && e.2 + 1 < ncol
    &&& e.0 == 2 ==> e.1 + 1 < nrow && e.2 < ncol
    &&& e.0 == 1 || e.0 == 2
    &&& e.1 + 2 <= usize::MAX
    &&& e.2 + 2 <= usize::MAX
}

pub open spec fn heap_ok(heap: Seq<(i64, u8, usize, usize)>, nrow: int, ncol: int) -> bool {
    forall|i: int|
        0 <= i < heap.len() ==> candidate_ok(
            ((#[trigger] heap[i]).1, heap[i].2, heap[i].3),
            nrow,
            ncol,
        )
}

/// The candidate of horizontal edge slot `k`, when the edge is present.
pub open spec fn h_candidate(labels: Seq<i32>, h: Seq<Option<EdgeDatum>>, ncol: int, k: int) -> Option<
    (i64, u8, usize, usize),
> {
    let row = k / (ncol - 1);
    let col = k % (ncol - 1);
    match h[k] {
        Some(e) => Some(
            (
                label_energy(e, labels[row * ncol + col] as int, labels[row * ncol + col + 1] as int) as i64,
                1u8,
                row as usize,
                col as usize,
            ),
        ),
        None => None,
    }
}

/// The candidate of vertical edge slot `k`, when the edge is present.
pub open spec fn v_candidate(labels: Seq<i32>, v: Seq<Option<EdgeDatum>>, ncol: int, k: int) -> Option<
    (i64, u8, usize, usize),
> {
    match v[k] {
        Some(e) => Some(
            (
                label_energy(e, labels[k] as int, labels[k + ncol] as int) as i64,
                2u8,
                (k / ncol) as usize,
                (k % ncol) as usize,
            ),
        ),
        None => None,
    }
}

/// `cand_insert` of a present candidate.
pub open spec fn offer(
    heap: Seq<(i64, u8, usize, usize)>,
    limit: int,
    c: Option<(i64, u8, usize, usize)>,
) -> Seq<(i64, u8, usize, usize)> {
    match c {
        Some(t) => cand_insert(heap, limit, t),
        None => heap,
    }
}

/// The kept candidates after offering horizontal edge slots `0..k` in order.
pub open spec fn h_scan(labels: Seq<i32>, h: Seq<Option<EdgeDatum>>, ncol: int, limit: int, k: int) -> Seq<
    (i64, u8, usize, usize),
>
    decreases k,
{
    if k <= 0 {
        Seq::empty()
    } else {
        offer(h_scan(labels, h, ncol, limit, k - 1), limit, h_candidate(labels, h, ncol, k - 1))
    }
}

/// The kept candidates after offering vertical edge slots `0..k` in order,
/// starting from `start`.
pub open spec fn v_scan(
    labels: Seq<i32>,
    v: Seq<Option<EdgeDatum>>,
    ncol: int,
    limit: int,
    start: Seq<(i64, u8, usize, usize)>,
    k: int,
) -> Seq<(i64, u8, usize, usize)>
    decreases k,
{
    if k <= 0 {
        start
    } else {
        offer(v_scan(labels, v, ncol, limit, start, k - 1), limit, v_candidate(labels, v, ncol, k - 1))
    }
}

/// How many candidates are kept: every edge on a grid of at most 4096
/// cells, at most `LARGE_GRID_CANDIDATES` otherwise.
pub open spec fn candidate_limit(cells: int, edges: int) -> int {
    if cells <= 4096 {
        edges
    } else if LARGE_GRID_CANDIDATES < edges {
        LARGE_GRID_CANDIDATES as int
    } else {
        edges
    }
}

/// The kept candidates of `collect_candidates`, in the order it lists them.
pub open spec fn kept_candidates(
    labels: Seq<i32>,
    h: Seq<Option<EdgeDatum>>,
    v: Seq<Option<EdgeDatum>>,
    ncol: int,
) -> Seq<(i64, u8, usize, usize)> {
    let edges: int = if h.len() + v.len() <= usize::MAX { (h.len() + v.len()) as int } else { usize::MAX as int };
    let limit = candidate_limit(labels.len() as int, edges);
    v_scan(labels, v, ncol, limit, h_scan(labels, h, ncol, limit, h.len() as int), v.len() as int)
}

/// The costliest edges under `labels`: all edges with positive cost on a grid
/// of at most 4096 cells, at most `LARGE_GRID_CANDIDATES` otherwise, as
/// `(axis, row, col)` with axis 1 for horizontal and 2 for vertical edges.
pub fn collect_candidates(
    labels: &[i32],
    horizontal: &[Option<EdgeDatum>],
    vertical: &[Option<EdgeDatum>],
    nrow: usize,
    ncol: usize,
) -> (r: Vec<(u8, usize, usize)>)
    requires
        grid_ok(horizontal@, vertical@, nrow as int, ncol as int),
        labels@.len() == nrow * ncol,
        labels_ok(labels@, horizontal@, vertical@, ncol as int),
    ensures
        forall|i: int| 0 <= i < r@.len() ==> candidate_ok(#[trigger] r@[i], nrow as int, ncol as int),
        r@ == kept_candidates(labels@, horizontal@, vertical@, ncol as int).map_values(
            |t: (i64, u8, usize, usize)| (t.1, t.2, t.3),
        ),
{
    let hl = horizontal.len();
    let vl = vertical.len();
    let ll = labels.len();
    let edge_count: usize = if hl <= usize::MAX - vl {
        hl + vl
    } else {
        usize::MAX
    };
    let limit = if labels.len() <= 4096 {
        edge_count
    } else if LARGE_GRID_CANDIDATES < edge_count {
        LARGE_GRID_CANDIDATES
    } else {
        edge_count
    };
    let mut heap: Vec<(i64, u8, usize, usize)> = Vec::new();
    let ghost lim = limit as int;
    let ghost nc = ncol as int;
    assert(lim == candidate_limit(
        labels@.len() as int,
        if hl + vl <= usize::MAX { (hl + vl) as int } else { usize::MAX as int },
    ));
    let pcn = if ncol >= 1 {
        ncol - 1
    } else {
        0
    };
    let prn = if nrow >= 1 {
        nrow - 1
    } else {
        0
    };
    let mut row: usize = 0;
    while row < nrow
        invariant
            row <= nrow,
            hl == horizontal@.len(),
            ll == labels@.len(),
            pcn == (if ncol >= 1 { ncol - 1 } else { 0 }),
            grid_ok(horizontal@, vertical@, nrow as int, ncol as int),
            labels@.len() == nrow * ncol,
            labels_ok(labels@, horizontal@, vertical@, ncol as int),
            heap_ok(heap@, nrow as int, ncol as int),
            lim == limit,
            nc == ncol,
            heap@ == h_scan(labels@, horizontal@, nc, lim, row * pcn),
        decreases nrow - row,
    {
        let mut col: usize = 0;
        while col < pcn
            invariant
                row < nrow,
                col <= pcn,
                hl == horizontal@.len(),
                ll == labels@.len(),
                pcn == (if ncol >= 1 { ncol - 1 } else { 0 }),
                grid_ok(horizontal@, vertical@, nrow as int, ncol as int),
                labels@.len() == nrow * ncol,
                labels_ok(labels@, horizontal@, vertical@, ncol as int),
                heap_ok(heap@, nrow as int, ncol as int),
                lim == limit,
                nc == ncol,
                heap@ == h_scan(labels@, horizontal@, nc, lim, row * pcn + col),
            decreases pcn - col,
        {
            proof {
                lemma_cell_in_grid(row as int, col as int, nrow as int, pcn as int);
                lemma_cell_in_grid(row as int, col + 1, nrow as int, ncol as int);
                lemma_row_col(row as int, col as int, pcn as int);
                assert(ncol as int * 1 <= ll) by (nonlinear_arith)
                    requires
                        ll == nrow * ncol,
                        nrow >= 1,
                        ncol >= 0,
                ;
                assert(nrow as int * 2 <= ll) by (nonlinear_arith)
                    requires
                        ll == nrow * ncol,
                        ncol >= 2,
                        nrow >= 0,
                ;
            }
            let index = row * pcn + col;
            match horizontal[index] {
                Some(edge) => {
                    proof {
                        assert(crate::label_energy::h_cell(index as int, ncol as int) == row * ncol + col);
                    }
                    let left = labels[row * ncol + col];
                    let right = labels[row * ncol + col + 1];
                    let energy = edge_label_energy(edge, left, right);
                    assert(h_candidate(labels@, horizontal@, nc, index as int) == Some((energy, 1u8, row, col)));
                    insert_candidate(&mut heap, limit, energy, 1, row, col);
                },
                None => {},
            }
            col = col + 1;
        }
        proof {
            assert((row + 1) * pcn == row * pcn + pcn) by (nonlinear_arith);
        }
        row = row + 1;
    }
    let ghost hs = heap@;
    proof {
        assert(hl == nrow * pcn);
    }
    row = 0;
    while row < prn
        invariant
            row <= prn,
            prn == (if nrow >= 1 { nrow - 1 } else { 0 }),
            vl == vertical@.len(),
            ll == labels@.len(),
            grid_ok(horizontal@, vertical@, nrow as int, ncol as int),
            labels@.len() == nrow * ncol,
            labels_ok(labels@, horizontal@, vertical@, ncol as int),
            heap_ok(heap@, nrow as int, ncol as int),
            lim == limit,
            nc == ncol,
            hs == h_scan(labels@, horizontal@, nc, lim, hl as int),
            heap@ == v_scan(labels@, vertical@, nc, lim, hs, row * ncol),
        decreases prn - row,
    {
        let mut col: usize = 0;
        while col < ncol
            invariant
                row < prn,
                col <= ncol,
                prn == (if nrow >= 1 { nrow - 1 } else { 0 }),
                vl == vertical@.len(),
                ll == labels@.len(),
                grid_ok(horizontal@, vertical@, nrow as int, ncol as int),
                labels@.len() == nrow * ncol,
                labels_ok(labels@, horizontal@, vertical@, ncol as int),
                heap_ok(heap@, nrow as int, ncol as int),
                lim == limit,
                nc == ncol,
                heap@ == v_scan(labels@, vertical@, nc, lim, hs, row * ncol + col),
            decreases ncol - col,
        {
            proof {
                lemma_cell_in_grid(row as int, col as int, prn as int, ncol as int);
                lemma_cell_in_grid(row + 1, col as int, nrow as int, ncol as int);
                assert((row + 1) * ncol == row * ncol + ncol) by (nonlinear_arith);
                lemma_row_col(row as int, col as int, ncol as int);
                assert(nrow as int * 1 <= ll) by (nonlinear_arith)
                    requires
                        ll == nrow * ncol,
                        ncol >= 1,
                        nrow >= 0,
                ;
                assert(ncol as int * 2 <= ll) by (nonlinear_arith)
                    requires
                        ll == nrow * ncol,
                        nrow >= 2,
                        ncol >= 0,
                ;
            }
            let index = row * ncol + col;
            match vertical[index] {
                Some(edge) => {
                    let upper = labels[row * ncol + col];
                    let lower = labels[(row + 1) * ncol + col];
                    let energy = edge_label_energy(edge, upper, lower);
                    assert(v_candidate(labels@, vertical@, nc, index as int) == Some((energy, 2u8, row, col)));
                    insert_candidate(&mut heap, limit, energy, 2, row, col);
                },
                None => {},
            }
            col = col + 1;
        }
        proof {
            assert((row + 1) * ncol == row * ncol + ncol) by (nonlinear_arith);
        }
        row = row + 1;
    }
    proof {
        assert(vl == prn * ncol);
        assert(heap@ == kept_candidates(labels@, horizontal@, vertical@, nc));
    }
    let mut out: Vec<(u8, usize, usize)> = Vec::new();
    let mut i: usize = 0;
    while i < heap.len()
        invariant
            i <= heap@.len(),
            heap_ok(heap@, nrow as int, ncol as int),
            out@.len() == i,
            forall|j: int| 0 <= j < i ==> candidate_ok(#[trigger] out@[j], nrow as int, ncol as int),
            forall|j: int| 0 <= j < i ==> #[trigger] out@[j] == (heap@[j].1, heap@[j].2, heap@[j].3),
            heap@ == kept_candidates(labels@, horizontal@, vertical@, nc),
            nc == ncol,
        decreases heap@.len() - i,
    {
        let (_energy, axis, row, col) = heap[i];
        proof {
            assert(candidate_ok((heap@[i as int].1, heap@[i as int].2, heap@[i as int].3), nrow as int, ncol as int));
        }
        out.push((axis, row, col));
        i = i + 1;
    }
    proof {
        assert(out@ =~= heap@.map_values(|t: (i64, u8, usize, usize)| (t.1, t.2, t.3)));
    }
    out
}

/// `try_patch` moves window `p` of `labels`: the window has 1 to
/// `MAX_PATCH_CELLS` cells, its edges can be priced as they are, some move
/// lowers their cost, and the best such move keeps every label in `i32`.
pub open spec fn patch_moves(
    labels: Seq<i32>,
    h: Seq<Option<EdgeDatum>>,
    v: Seq<Option<EdgeDatum>>,
    nrow: int,
    ncol: int,
    p: (usize, usize, usize, usize),
) -> bool {
    let base = patch_energy_spec(labels, zero_deltas(p), h, v, nrow, ncol, p);
    let k = pow3(p.2 * p.3);
    &&& p.2 > 0 && p.3 > 0 && p.2 * p.3 <= MAX_PATCH_CELLS
    &&& patch_costs_ok(labels, zero_deltas(p), h, v, nrow, ncol, p)
    &&& !none_better(labels, h, v, nrow, ncol, p, base, k)
    &&& forall|c: int|
        #[trigger] best_code(labels, h, v, nrow, ncol, p, base, c, k) ==> all_fit(
            labels,
            code_deltas(c, p.2 * p.3),
            p,
            ncol,
        )
}

/// No window of any candidate edge of `labels` (see `collect_candidates` and
/// `candidate_patches`) admits a move that lowers its cost.
pub open spec fn patch_stable(
    labels: Seq<i32>,
    h: Seq<Option<EdgeDatum>>,
    v: Seq<Option<EdgeDatum>>,
    nrow: int,
    ncol: int,
) -> bool {
    let cands = kept_candidates(labels, h, v, ncol);
    forall|i: int, p: (usize, usize, usize, usize)|
        0 <= i < cands.len() && #[trigger] patch_ok(p, cands[i].1, cands[i].2 as int, cands[i].3 as int, nrow, ncol)
            ==> !patch_moves(labels, h, v, nrow, ncol, p)
}

/// Up to two passes over the candidate edges: for each, every candidate
/// window is tried in turn with `try_patch`. Stops early after a pass that
/// changes nothing. The label objective never rises.
pub fn refine_labels_by_patch_shifts(
    labels: &mut Vec<i32>,
    horizontal: &[Option<EdgeDatum>],
    vertical: &[Option<EdgeDatum>],
    nrow: usize,
    ncol: usize,
)
    requires
        grid_ok(horizontal@, vertical@, nrow as int, ncol as int),
        old(labels)@.len() == nrow * ncol,
        labels_ok(old(labels)@, horizontal@, vertical@, ncol as int),
    ensures
        final(labels)@.len() == old(labels)@.len(),
        labels_ok(final(labels)@, horizontal@, vertical@, ncol as int),
        label_objective_spec(final(labels)@, horizontal@, vertical@, ncol as int)
            <= label_objective_spec(old(labels)@, horizontal@, vertical@, ncol as int),
        label_objective_spec(final(labels)@, horizontal@, vertical@, ncol as int)
            < label_objective_spec(old(labels)@, horizontal@, vertical@, ncol as int) || (final(labels)@ == old(
            labels,
        )@ && patch_stable(final(labels)@, horizontal@, vertical@, nrow as int, ncol as int)),
{
    if labels.len() == 0 || nrow == 0 || ncol == 0 {
        proof {
            assert(horizontal@.len() == 0 && vertical@.len() == 0) by (nonlinear_arith)
                requires
                    horizontal@.len() == nrow * (if ncol >= 1 { ncol - 1 } else { 0 }),
                    vertical@.len() == (if nrow >= 1 { nrow - 1 } else { 0 }) * ncol,
                    nrow == 0 || ncol == 0 || nrow * ncol == 0,
            ;
            assert(kept_candidates(labels@, horizontal@, vertical@, ncol as int).len() == 0);
        }
        return;
    }
    let ghost start = label_objective_spec(labels@, horizontal@, vertical@, ncol as int);
    let ghost l_init = labels@;
    let ghost hh = horizontal@;
    let ghost vv = vertical@;
    let ghost nr = nrow as int;
    let ghost nc = ncol as int;
    let mut pass: usize = 0;
    let mut go_on = true;
    while pass < 2 && go_on
        invariant
            nrow >= 1,
            ncol >= 1,
            grid_ok(horizontal@, vertical@, nrow as int, ncol as int),
            labels@.len() == nrow * ncol,
            labels_ok(labels@, horizontal@, vertical@, ncol as int),
            label_objective_spec(labels@, horizontal@, vertical@, ncol as int) <= start,
            start == label_objective_spec(l_init, hh, vv, nc),
            hh == horizontal@,
            vv == vertical@,
            nr == nrow,
            nc == ncol,
            go_on ==> (pass == 0 && labels@ == l_init) || label_objective_spec(labels@, hh, vv, nc) < start,
            !go_on ==> (labels@ == l_init && patch_stable(labels@, hh, vv, nr, nc)) || label_objective_spec(
                labels@,
                hh,
                vv,
                nc,
            ) < start,
        decreases 2 - pass,
    {
        let mut changed = false;
        let ghost ls = labels@;
        let candidates = collect_candidates(labels, horizontal, vertical, nrow, ncol);
        let ghost cands = kept_candidates(ls, hh, vv, nc);
        let mut k: usize = 0;
        while k < candidates.len()
            invariant
                nrow >= 1,
                ncol >= 1,
                k <= candidates@.len(),
                forall|i: int|
                    0 <= i < candidates@.len() ==> candidate_ok(#[trigger] candidates@[i], nrow as int, ncol as int),
                grid_ok(horizontal@, vertical@, nrow as int, ncol as int),
                labels@.len() == nrow * ncol,
                labels_ok(labels@, horizontal@, vertical@, ncol as int),
                label_objective_spec(labels@, horizontal@, vertical@, ncol as int) <= start,
                hh == horizontal@,
                vv == vertical@,
                nr == nrow,
                nc == ncol,
                candidates@ == cands.map_values(|c: (i64, u8, usize, usize)| (c.1, c.2, c.3)),
                cands == kept_candidates(ls, hh, vv, nc),
                !changed ==> labels@ == ls,
                changed ==> label_objective_spec(labels@, hh, vv, nc) < label_objective_spec(ls, hh, vv, nc),
                !changed ==> forall|i: int, p: (usize, usize, usize, usize)|
                    0 <= i < k && #[trigger] patch_ok(p, cands[i].1, cands[i].2 as int, cands[i].3 as int, nr, nc)
                        ==> !patch_moves(ls, hh, vv, nr, nc, p),
            decreases candidates@.len() - k,
        {
            let (axis, row, col) = candidates[k];
            proof {
                assert(candidate_ok(candidates@[k as int], nrow as int, ncol as int));
                assert(candidates@[k as int] == (cands[k as int].1, cands[k as int].2, cands[k as int].3));
            }
            let patches = candidate_patches(axis, row, col, nrow, ncol);
            let mut t: usize = 0;
            while t < patches.len()
                invariant
                    nrow >= 1,
                    ncol >= 1,
                    t <= patches@.len(),
                    forall|i: int|
                        0 <= i < patches@.len() ==> patch_ok(#[trigger] patches@[i], axis, row as int, col as int, nrow as int, ncol as int),
                    grid_ok(horizontal@, vertical@, nrow as int, ncol as int),
                    labels@.len() == nrow * ncol,
                    labels_ok(labels@, horizontal@, vertical@, ncol as int),
                    label_objective_spec(labels@, horizontal@, vertical@, ncol as int) <= start,
                    hh == horizontal@,
                    vv == vertical@,
                    nr == nrow,
                    nc == ncol,
                    k < cands.len(),
                    (axis, row, col) == (cands[k as int].1, cands[k as int].2, cands[k as int].3),
                    forall|p: (usize, usize, usize, usize)|
                        #[trigger] patch_ok(p, axis, row as int, col as int, nrow as int, ncol as int) ==> patches@.contains(p),
                    !changed ==> labels@ == ls,
                    changed ==> label_objective_spec(labels@, hh, vv, nc) < label_objective_spec(ls, hh, vv, nc),
                    !changed ==> forall|i: int, p: (usize, usize, usize, usize)|
                        0 <= i < k && #[trigger] patch_ok(p, cands[i].1, cands[i].2 as int, cands[i].3 as int, nr, nc)
                            ==> !patch_moves(ls, hh, vv, nr, nc, p),
                    !changed ==> forall|q: int| 0 <= q < t ==> !patch_moves(ls, hh, vv, nr, nc, #[trigger] patches@[q]),
                decreases patches@.len() - t,
            {
                let patch = patches[t];
                proof {
                    assert(patch_ok(patches@[t as int], axis, row as int, col as int, nrow as int, ncol as int));
                }
                let ghost before = labels@;
                let moved = try_patch(labels, horizontal, vertical, nrow, ncol, patch);
                proof {
                    if moved {
                        let d = choose|d: Seq<i32>|
                            {
                                &&& deltas_choice(d, patch)
                                &&& patch_costs_ok(before, d, horizontal@, vertical@, nrow as int, ncol as int, patch)
                                &&& patch_costs_ok(before, zero_deltas(patch), horizontal@, vertical@, nrow as int, ncol as int, patch)
                                &&& patch_energy_spec(before, d, horizontal@, vertical@, nrow as int, ncol as int, patch)
                                    < patch_energy_spec(before, zero_deltas(patch), horizontal@, vertical@, nrow as int, ncol as int, patch)
                                &&& moved_by(before, labels@, d, patch, nrow as int, ncol as int)
                            };
                        law_patch_move_objective(
                            before,
                            labels@,
                            d,
                            horizontal@,
                            vertical@,
                            nrow as int,
                            ncol as int,
                            patch,
                        );
                    }
                }
                changed = changed || moved;
                t = t + 1;
            }
            proof {
                if !changed {
                    assert forall|i: int, p: (usize, usize, usize, usize)|
                        0 <= i < k + 1 && #[trigger] patch_ok(p, cands[i].1, cands[i].2 as int, cands[i].3 as int, nr, nc)
                            implies !patch_moves(ls, hh, vv, nr, nc, p) by {
                        if i == k {
                            assert(patches@.contains(p));
                            let q = choose|q: int| 0 <= q < patches@.len() && patches@[q] == p;
                            assert(!patch_moves(ls, hh, vv, nr, nc, patches@[q]));
                        }
                    }
                }
            }
            k = k + 1;
        }
        proof {
            if !changed {
                assert(labels@ == ls);
                assert(patch_stable(ls, hh, vv, nr, nc));
            }
        }
        if !changed {
            go_on = false;
        }
        pass = pass + 1;
    }
}

} // verus!
