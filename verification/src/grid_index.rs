//! Indexing between scattered points and the unwrapping grid: column-major
//! numbering of masked grid cells, extraction and selection of grid values,
//! validation of index lists, and the patch masks of merged points.
use vstd::prelude::*;
use crate::residue_pairing::lemma_split_unique;

verus! {

/// Why a grid lookup fails.
#[derive(Clone, Copy, Debug, PartialEq, Eq, Structural)]
pub enum GridIndexError {
    /// A 1-based entry lies outside the grid or the table it indexes.
    EntryOutOfRange,
    /// The selected column is not a column of the table.
    ColumnOutOfRange,
}

/// Why an index list is refused.
#[derive(Clone, Copy, Debug, PartialEq, Eq, Structural)]
pub enum IndexError {
    /// An entry is negative.
    Negative,
    /// An entry is not below the bound; it is carried.
    TooLarge(usize),
}

/// The cell at column-major position `q` of an `nrow` by `ncol` grid, as a
/// row-major offset.
pub open spec fn cm_cell(nrow: int, ncol: int, q: int) -> int {
    (q % nrow) * ncol + q / nrow
}

/// Number of masked cells before column-major position `q`.
pub open spec fn masked_rank(mask: Seq<bool>, nrow: int, ncol: int, q: int) -> int
    decreases q,
{
    if q <= 0 {
        0
    } else {
        masked_rank(mask, nrow, ncol, q - 1) + if mask[cm_cell(nrow, ncol, q - 1)] {
            1int
        } else {
            0
        }
    }
}

/// The grid id of cell `(row, col)`: masked cells are numbered from 1 in
/// column-major order, other cells get 0.
pub open spec fn grid_id(mask: Seq<bool>, nrow: int, ncol: int, row: int, col: int) -> int {
    if mask[row * ncol + col] {
        masked_rank(mask, nrow, ncol, col * nrow + row) + 1
    } else {
        0
    }
}

/// The values of the masked cells in column-major order, up to position `q`.
pub open spec fn masked_values<T>(values: Seq<T>, mask: Seq<bool>, nrow: int, ncol: int, q: int) -> Seq<T>
    decreases q,
{
    if q <= 0 {
        Seq::empty()
    } else {
        masked_values(values, mask, nrow, ncol, q - 1) + if mask[cm_cell(nrow, ncol, q - 1)] {
            seq![values[cm_cell(nrow, ncol, q - 1)]]
        } else {
            Seq::empty()
        }
    }
}

/// `p` is a 1-based `(row, col)` of an `nrow` by `ncol` grid.
pub open spec fn one_based_cell(nrow: int, ncol: int, p: (i64, i64)) -> bool {
    1 <= p.0 <= nrow && 1 <= p.1 <= ncol
}

proof fn lemma_cm_position(row: int, col: int, nrow: int, ncol: int)
    requires
        0 <= row < nrow,
        0 <= col < ncol,
    ensures
        cm_cell(nrow, ncol, col * nrow + row) == row * ncol + col,
        0 <= col * nrow + row < nrow * ncol,
        0 <= row * ncol + col < nrow * ncol,
{
    vstd::arithmetic::div_mod::lemma_fundamental_div_mod_converse(col * nrow + row, nrow, col, row);
    crate::route::lemma_index_bounds(col, row, ncol, nrow);
    crate::route::lemma_index_bounds(row, col, nrow, ncol);
    assert(ncol * nrow == nrow * ncol) by (nonlinear_arith);
}

proof fn lemma_rank_bound(mask: Seq<bool>, nrow: int, ncol: int, q: int)
    ensures
        0 <= masked_rank(mask, nrow, ncol, q) <= if q > 0 { q } else { 0 },
    decreases q,
{
    if q > 0 {
        lemma_rank_bound(mask, nrow, ncol, q - 1);
    }
}

/// The grid ids of all cells (see `grid_id`), row-major.
fn grid_ids(mask: &[bool], nrow: usize, ncol: usize) -> (ids: Vec<i64>)
    requires
        mask@.len() == nrow * ncol,
        mask@.len() < i64::MAX,
    ensures
        ids@.len() == nrow * ncol,
        forall|row: int, col: int|
            0 <= row < nrow && 0 <= col < ncol ==> #[trigger] ids@[row * ncol + col] == grid_id(
                mask@,
                nrow as int,
                ncol as int,
                row,
                col,
            ),
{
    let cells = mask.len();
    let mut ids: Vec<i64> = Vec::new();
    while ids.len() < cells
        invariant
            ids@.len() <= cells,
            forall|i: int| 0 <= i < ids@.len() ==> #[trigger] ids@[i] == 0,
        decreases cells - ids@.len(),
    {
        ids.push(0);
    }
    let ghost m = mask@;
    let ghost nr = nrow as int;
    let ghost nc = ncol as int;
    proof {
        assert forall|r: int, c: int| 0 <= r < nrow && 0 <= c < ncol implies #[trigger] ids@[r * nc + c] == 0 by {
            crate::route::lemma_index_bounds(r, c, nr, nc);
        }
    }
    let mut next_id: i64 = 1;
    let mut col: usize = 0;
    while col < ncol
        invariant
            col <= ncol,
            cells == nrow * ncol,
            m == mask@,
            mask@.len() == cells,
            cells < i64::MAX,
            ids@.len() == cells,
            nr == nrow,
            nc == ncol,
            next_id == masked_rank(m, nr, nc, col * nr) + 1,
            forall|r: int, c: int|
                0 <= r < nrow && 0 <= c < ncol ==> #[trigger] ids@[r * nc + c] == if c < col {
                    grid_id(m, nr, nc, r, c)
                } else {
                    0
                },
        decreases ncol - col,
    {
        let mut row: usize = 0;
        while row < nrow
            invariant
                row <= nrow,
                col < ncol,
                cells == nrow * ncol,
                m == mask@,
                mask@.len() == cells,
                cells < i64::MAX,
                ids@.len() == cells,
                nr == nrow,
                nc == ncol,
                next_id == masked_rank(m, nr, nc, col * nr + row) + 1,
                forall|r: int, c: int|
                    0 <= r < nrow && 0 <= c < ncol ==> #[trigger] ids@[r * nc + c] == if c < col || (c == col
                        && r < row) {
                        grid_id(m, nr, nc, r, c)
                    } else {
                        0
                    },
            decreases nrow - row,
        {
            proof {
                lemma_cm_position(row as int, col as int, nr, nc);
                lemma_rank_bound(m, nr, nc, col * nr + row + 1);
            }
            let offset = row * ncol + col;
            if mask[offset] {
                let ghost before = ids@;
                let id = next_id;
                ids.set(offset, id);
                next_id = id + 1;
                proof {
                    assert forall|r: int, c: int| 0 <= r < nrow && 0 <= c < ncol implies #[trigger] ids@[r * nc
                        + c] == if c < col || (c == col && r < row + 1) {
                        grid_id(m, nr, nc, r, c)
                    } else {
                        0
                    } by {
                        crate::route::lemma_index_bounds(r, c, nr, nc);
                        if r * nc + c == offset {
                            lemma_split_unique(r, c, row as int, col as int, nc);
                            assert(ids@[r * nc + c] == id);
                        } else {
                            assert(ids@[r * nc + c] == before[r * nc + c]);
                        }
                    }
                }
            } else {
                proof {
                    assert forall|r: int, c: int| 0 <= r < nrow && 0 <= c < ncol implies #[trigger] ids@[r * nc
                        + c] == if c < col || (c == col && r < row + 1) {
                        grid_id(m, nr, nc, r, c)
                    } else {
                        0
                    } by {
                        crate::route::lemma_index_bounds(r, c, nr, nc);
                        if r == row && c == col {
                            assert(grid_id(m, nr, nc, r, c) == 0);
                        }
                    }
                }
            }
            row = row + 1;
        }
        proof {
            assert((col + 1) * nr == col * nr + nr) by (nonlinear_arith);
        }
        col = col + 1;
    }
    ids
}

/// The grid id (see `grid_id`) of the cell of each point, given by its
/// 1-based `(row, col)`. Errors when a point lies outside the grid.
pub fn ps_grid_indices(mask: &[bool], nrow: usize, ncol: usize, grid_ij: &[(i64, i64)]) -> (r: Result<
    Vec<i64>,
    GridIndexError,
>)
    requires
        mask@.len() == nrow * ncol,
        mask@.len() < i64::MAX,
    ensures
        r is Ok <==> forall|i: int| 0 <= i < grid_ij@.len() ==> one_based_cell(nrow as int, ncol as int, #[trigger] grid_ij@[i]),
        r is Err ==> r == Err::<Vec<i64>, GridIndexError>(GridIndexError::EntryOutOfRange),
        r matches Ok(v) ==> v@.len() == grid_ij@.len() && forall|i: int|
            0 <= i < grid_ij@.len() ==> #[trigger] v@[i] == grid_id(
                mask@,
                nrow as int,
                ncol as int,
                grid_ij@[i].0 - 1,
                grid_ij@[i].1 - 1,
            ),
{
    let cells = mask.len();
    let ids = grid_ids(mask, nrow, ncol);
    let mut out: Vec<i64> = Vec::new();
    let mut i: usize = 0;
    while i < grid_ij.len()
        invariant
            i <= grid_ij@.len(),
            ids@.len() == nrow * ncol,
            cells == nrow * ncol,
            forall|row: int, col: int|
                0 <= row < nrow && 0 <= col < ncol ==> #[trigger] ids@[row * ncol + col] == grid_id(
                    mask@,
                    nrow as int,
                    ncol as int,
                    row,
                    col,
                ),
            out@.len() == i,
            forall|j: int| 0 <= j < i ==> one_based_cell(nrow as int, ncol as int, #[trigger] grid_ij@[j]),
            forall|j: int|
                0 <= j < i ==> #[trigger] out@[j] == grid_id(
                    mask@,
                    nrow as int,
                    ncol as int,
                    grid_ij@[j].0 - 1,
                    grid_ij@[j].1 - 1,
                ),
        decreases grid_ij@.len() - i,
    {
        let (row_one, col_one) = grid_ij[i];
        if row_one <= 0 || col_one <= 0 || row_one as u64 > nrow as u64 || col_one as u64 > ncol as u64 {
            return Err(GridIndexError::EntryOutOfRange);
        }
        let row = (row_one - 1) as usize;
        let col = (col_one - 1) as usize;
        proof {
            crate::route::lemma_index_bounds(row as int, col as int, nrow as int, ncol as int);
        }
        out.push(ids[row * ncol + col]);
        i = i + 1;
    }
    Ok(out)
}

/// The values of the masked cells, taken column by column (see
/// `masked_values`).
pub fn extract_grid_values<T: Copy>(values: &[T], mask: &[bool], nrow: usize, ncol: usize) -> (r: Vec<T>)
    requires
        values@.len() == nrow * ncol,
        mask@.len() == nrow * ncol,
    ensures
        r@ == masked_values(values@, mask@, nrow as int, ncol as int, (nrow * ncol) as int),
{
    let ghost nr = nrow as int;
    let ghost nc = ncol as int;
    let cells = mask.len();
    let mut out: Vec<T> = Vec::new();
    let mut col: usize = 0;
    while col < ncol
        invariant
            col <= ncol,
            cells == nrow * ncol,
            values@.len() == cells,
            mask@.len() == cells,
            nr == nrow,
            nc == ncol,
            out@ == masked_values(values@, mask@, nr, nc, col * nr),
        decreases ncol - col,
    {
        let mut row: usize = 0;
        while row < nrow
            invariant
                row <= nrow,
                col < ncol,
                cells == nrow * ncol,
                values@.len() == cells,
                mask@.len() == cells,
                nr == nrow,
                nc == ncol,
                out@ == masked_values(values@, mask@, nr, nc, col * nr + row),
            decreases nrow - row,
        {
            proof {
                lemma_cm_position(row as int, col as int, nr, nc);
            }
            let offset = row * ncol + col;
            if mask[offset] {
                out.push(values[offset]);
            }
            row = row + 1;
        }
        proof {
            assert((col + 1) * nr == col * nr + nr) by (nonlinear_arith);
        }
        col = col + 1;
    }
    proof {
        assert(ncol * nr == nr * nc) by (nonlinear_arith)
            requires
                nr == nrow,
                nc == ncol,
        ;
    }
    out
}

/// The 1-based entry `z` names a row of a table with `n_rows` rows.
pub open spec fn row_entry_ok(n_rows: int, z: i64) -> bool {
    1 <= z <= n_rows
}

/// The value in column `col` of the row that each entry of `z` names
/// (1-based) in a row-major table of `n_rows` by `n_cols`. Errors when the
/// column is outside the table, then when an entry names no row.
pub fn select_ifgw<T: Copy>(values: &[T], n_rows: usize, n_cols: usize, col: usize, z: &[i64]) -> (r: Result<
    Vec<T>,
    GridIndexError,
>)
    requires
        values@.len() == n_rows * n_cols,
    ensures
        col >= n_cols ==> r == Err::<Vec<T>, GridIndexError>(GridIndexError::ColumnOutOfRange),
        col < n_cols ==> (r is Ok <==> forall|i: int| 0 <= i < z@.len() ==> row_entry_ok(n_rows as int, #[trigger] z@[i])),
        col < n_cols && r is Err ==> r == Err::<Vec<T>, GridIndexError>(GridIndexError::EntryOutOfRange),
        r matches Ok(v) ==> v@.len() == z@.len() && forall|i: int|
            0 <= i < z@.len() ==> #[trigger] v@[i] == values@[(z@[i] - 1) * n_cols + col],
{
    if col >= n_cols {
        return Err(GridIndexError::ColumnOutOfRange);
    }
    let cells = values.len();
    let mut out: Vec<T> = Vec::new();
    let mut i: usize = 0;
    while i < z.len()
        invariant
            i <= z@.len(),
            col < n_cols,
            cells == values@.len(),
            values@.len() == n_rows * n_cols,
            out@.len() == i,
            forall|j: int| 0 <= j < i ==> row_entry_ok(n_rows as int, #[trigger] z@[j]),
            forall|j: int| 0 <= j < i ==> #[trigger] out@[j] == values@[(z@[j] - 1) * n_cols + col],
        decreases z@.len() - i,
    {
        let entry = z[i];
        if entry <= 0 || entry as u64 > n_rows as u64 {
            return Err(GridIndexError::EntryOutOfRange);
        }
        let row = (entry - 1) as usize;
        proof {
            crate::route::lemma_index_bounds(row as int, col as int, n_rows as int, n_cols as int);
        }
        out.push(values[row * n_cols + col]);
        i = i + 1;
    }
    Ok(out)
}

/// `v` is a valid index below `upper`.
pub open spec fn index_ok(v: i64, upper: int) -> bool {
    0 <= v < upper
}

/// The entries of `values` as indices below `upper_bound`. Errors on the
/// first entry that is not: `Negative` for a negative one, `TooLarge` with the
/// entry for one at or above the bound.
pub fn parse_indices(values: &[i64], upper_bound: usize) -> (r: Result<Vec<usize>, IndexError>)
    ensures
        r is Ok <==> forall|i: int| 0 <= i < values@.len() ==> index_ok(#[trigger] values@[i], upper_bound as int),
        r matches Ok(out) ==> out@.len() == values@.len() && forall|i: int|
            0 <= i < values@.len() ==> #[trigger] out@[i] == values@[i],
        r matches Err(e) ==> exists|k: int|
            0 <= k < values@.len() && (forall|i: int| 0 <= i < k ==> index_ok(#[trigger] values@[i], upper_bound as int))
                && !index_ok(values@[k], upper_bound as int) && e == (if values@[k] < 0 {
                IndexError::Negative
            } else {
                IndexError::TooLarge(values@[k] as usize)
            }),
{
    let mut out: Vec<usize> = Vec::new();
    let mut i: usize = 0;
    while i < values.len()
        invariant
            i <= values@.len(),
            out@.len() == i,
            forall|j: int| 0 <= j < i ==> index_ok(#[trigger] values@[j], upper_bound as int),
            forall|j: int| 0 <= j < i ==> #[trigger] out@[j] == values@[j],
        decreases values@.len() - i,
    {
        let value = values[i];
        if value < 0 {
            return Err(IndexError::Negative);
        }
        if value as u64 >= upper_bound as u64 {
            return Err(IndexError::TooLarge(value as usize));
        }
        out.push(value as usize);
        i = i + 1;
    }
    Ok(out)
}

/// Point `(col, patch_row)` lies inside the patch bounds `(row_min, row_max,
/// col_min, col_max)` (1-based, inclusive), or there are no bounds.
pub open spec fn in_patch(bounds: Option<(i64, i64, i64, i64)>, p: (i64, i64)) -> bool {
    match bounds {
        Some((row_min, row_max, col_min, col_max)) => p.0 >= col_min - 1 && p.0 <= col_max - 1 && p.1
            >= row_min - 1 && p.1 <= row_max - 1,
        None => true,
    }
}

/// Position of the first of the first `k` merged points equal to `p`.
pub open spec fn first_match(merged: Seq<(i64, i64)>, p: (i64, i64), k: int) -> Option<int>
    decreases k,
{
    if k <= 0 {
        None
    } else {
        match first_match(merged, p, k - 1) {
            Some(m) => Some(m),
            None => if merged[k - 1] == p {
                Some(k - 1)
            } else {
                None
            },
        }
    }
}

/// Whether point `p` stays in the patch: always inside the bounds, and
/// outside them only when no merged point equals it.
pub open spec fn keeps_point(merged: Seq<(i64, i64)>, bounds: Option<(i64, i64, i64, i64)>, p: (i64, i64)) -> bool {
    in_patch(bounds, p) || first_match(merged, p, merged.len() as int) is None
}

/// The merged indices to remove for the first `k` points: for each point
/// inside the bounds that equals a merged point, the index of the first such
/// merged point.
pub open spec fn removed_upto(
    ij: Seq<(i64, i64)>,
    merged: Seq<(i64, i64)>,
    merged_indices: Seq<i64>,
    bounds: Option<(i64, i64, i64, i64)>,
    k: int,
) -> Seq<i64>
    decreases k,
{
    if k <= 0 {
        Seq::empty()
    } else {
        removed_upto(ij, merged, merged_indices, bounds, k - 1) + match first_match(
            merged,
            ij[k - 1],
            merged.len() as int,
        ) {
            Some(m) => if in_patch(bounds, ij[k - 1]) {
                seq![merged_indices[m]]
            } else {
                Seq::empty()
            },
            None => Seq::empty(),
        }
    }
}

/// The first merged point equal to `p` (see `first_match`).
fn find_merged(merged: &[(i64, i64)], p: (i64, i64)) -> (r: Option<usize>)
    ensures
        r matches Some(m) ==> m < merged@.len() && first_match(merged@, p, merged@.len() as int) == Some(m as int),
        r is None ==> first_match(merged@, p, merged@.len() as int) is None,
{
    let mut m: usize = 0;
    while m < merged.len()
        invariant
            m <= merged@.len(),
            first_match(merged@, p, m as int) is None,
        decreases merged@.len() - m,
    {
        if merged[m].0 == p.0 && merged[m].1 == p.1 {
            proof {
                lemma_first_match_stays(merged@, p, m + 1, merged@.len() as int);
            }
            return Some(m);
        }
        m = m + 1;
    }
    None
}

proof fn lemma_first_match_stays(merged: Seq<(i64, i64)>, p: (i64, i64), k: int, n: int)
    requires
        0 <= k <= n <= merged.len(),
        first_match(merged, p, k) is Some,
    ensures
        first_match(merged, p, n) == first_match(merged, p, k),
    decreases n - k,
{
    if n > k {
        lemma_first_match_stays(merged, p, k, n - 1);
    }
}

/// Which points keep their patch (see `keeps_point`) and which merged points
/// to remove (see `removed_upto`). Each point is `(col, patch_row)`.
pub fn patch_keep_mask(
    ij: &[(i64, i64)],
    merged: &[(i64, i64)],
    merged_indices: &[i64],
    bounds: Option<(i64, i64, i64, i64)>,
) -> (r: (Vec<bool>, Vec<i64>))
    requires
        merged_indices@.len() == merged@.len(),
    ensures
        r.0@.len() == ij@.len(),
        forall|i: int| 0 <= i < ij@.len() ==> #[trigger] r.0@[i] == keeps_point(merged@, bounds, ij@[i]),
        r.1@ == removed_upto(ij@, merged@, merged_indices@, bounds, ij@.len() as int),
{
    let mut keep: Vec<bool> = Vec::new();
    let mut remove: Vec<i64> = Vec::new();
    let mut i: usize = 0;
    while i < ij.len()
        invariant
            i <= ij@.len(),
            merged_indices@.len() == merged@.len(),
            keep@.len() == i,
            forall|j: int| 0 <= j < i ==> #[trigger] keep@[j] == keeps_point(merged@, bounds, ij@[j]),
            remove@ == removed_upto(ij@, merged@, merged_indices@, bounds, i as int),
        decreases ij@.len() - i,
    {
        let (col, patch_row) = ij[i];
        let inside = match bounds {
            Some((row_min, row_max, col_min, col_max)) => (col as i128) >= (col_min as i128) - 1 && (col
                as i128) <= (col_max as i128) - 1 && (patch_row as i128) >= (row_min as i128) - 1
                && (patch_row as i128) <= (row_max as i128) - 1,
            None => true,
        };
        let found = find_merged(merged, (col, patch_row));
        if inside {
            if let Some(m) = found {
                remove.push(merged_indices[m]);
            }
            keep.push(true);
        } else {
            keep.push(found.is_none());
        }
        i = i + 1;
    }
    (keep, remove)
}

} // verus!
