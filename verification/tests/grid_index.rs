use stamps_native::grid_index::{
    extract_grid_values, parse_indices, patch_keep_mask, ps_grid_indices, select_ifgw,
    GridIndexError, IndexError,
};

const MASK: [bool; 6] = [true, false, true, false, true, true];

#[test]
fn grid_ids_number_masked_cells_column_by_column() {
    assert_eq!(ps_grid_indices(&MASK, 2, 3, &[(1, 1), (2, 3), (1, 2)]), Ok(vec![1, 4, 0]));
    assert_eq!(ps_grid_indices(&MASK, 2, 3, &[(2, 2), (1, 3)]), Ok(vec![2, 3]));
}

#[test]
fn grid_ids_reject_points_outside_the_grid() {
    assert_eq!(ps_grid_indices(&MASK, 2, 3, &[(1, 1), (3, 1)]), Err(GridIndexError::EntryOutOfRange));
    assert_eq!(ps_grid_indices(&MASK, 2, 3, &[(0, 1)]), Err(GridIndexError::EntryOutOfRange));
}

#[test]
fn masked_values_come_out_column_by_column() {
    let values: [f32; 6] = [1.0, 2.0, 3.0, 4.0, 5.0, 6.0];
    assert_eq!(extract_grid_values(&values, &MASK, 2, 3), vec![1.0, 5.0, 3.0, 6.0]);
}

#[test]
fn selection_reads_one_column_of_the_named_rows() {
    let values = [10, 11, 20, 21, 30, 31];
    assert_eq!(select_ifgw(&values, 3, 2, 1, &[3, 1, 3]), Ok(vec![31, 11, 31]));
    assert_eq!(select_ifgw(&values, 3, 2, 2, &[1]), Err(GridIndexError::ColumnOutOfRange));
    assert_eq!(select_ifgw(&values, 3, 2, 0, &[1, 0]), Err(GridIndexError::EntryOutOfRange));
    assert_eq!(select_ifgw(&values, 3, 2, 0, &[4]), Err(GridIndexError::EntryOutOfRange));
}

#[test]
fn index_lists_are_checked_entry_by_entry() {
    assert_eq!(parse_indices(&[0, 2, 1], 3), Ok(vec![0, 2, 1]));
    assert_eq!(parse_indices(&[0, -1, 5], 3), Err(IndexError::Negative));
    assert_eq!(parse_indices(&[0, 5, -1], 3), Err(IndexError::TooLarge(5)));
}

#[test]
fn patch_mask_removes_merged_points_inside_the_bounds() {
    let ij = [(5, 2), (10, 3), (7, 7)];
    let merged = [(10, 3), (5, 2), (10, 3)];
    let indices = [100, 200, 300];

    let (keep, remove) = patch_keep_mask(&ij, &merged, &indices, Some((1, 4, 1, 8)));
    assert_eq!(keep, vec![true, false, true]);
    assert_eq!(remove, vec![200]);

    let (keep, remove) = patch_keep_mask(&ij, &merged, &indices, None);
    assert_eq!(keep, vec![true, true, true]);
    assert_eq!(remove, vec![200, 100]);
}
