use stamps_native::ifg_index::{
    select_ifg_index, single_master_ifg_geometry, unwrap_ifg_sets, weed_ifg_index, IfgIndexError,
};

#[test]
fn single_master_selection_skips_the_master_and_renumbers_later_ones() {
    assert_eq!(select_ifg_index(5, 2, &[4], false), Ok(vec![1, 2, 4]));
}

#[test]
fn small_baseline_selection_keeps_every_undropped_interferogram() {
    assert_eq!(select_ifg_index(4, 0, &[2], true), Ok(vec![1, 3, 4]));
}

#[test]
fn selection_rejects_a_negative_count_and_a_master_outside_the_stack() {
    assert_eq!(select_ifg_index(-1, 1, &[], false), Err(IfgIndexError::NegativeCount));
    assert_eq!(select_ifg_index(3, 0, &[], false), Err(IfgIndexError::MasterOutOfRange));
    assert_eq!(select_ifg_index(3, 4, &[], false), Err(IfgIndexError::MasterOutOfRange));
}

#[test]
fn weeding_drops_the_listed_interferograms() {
    assert_eq!(weed_ifg_index(4, &[1, 3]), Ok(vec![2, 4]));
    assert_eq!(weed_ifg_index(0, &[1]), Ok(vec![]));
    assert_eq!(weed_ifg_index(-2, &[]), Err(IfgIndexError::NegativeCount));
}

#[test]
fn unwrap_sets_solve_without_the_master() {
    let (unwrap, solve) = unwrap_ifg_sets(4, 2, &[3], false).unwrap();
    assert_eq!(unwrap, vec![1, 2, 4]);
    assert_eq!(solve, vec![1, 4]);
    let (unwrap, solve) = unwrap_ifg_sets(3, 9, &[], true).unwrap();
    assert_eq!(unwrap, vec![1, 2, 3]);
    assert_eq!(solve, vec![1, 2, 3]);
    assert_eq!(unwrap_ifg_sets(3, 9, &[], false), Err(IfgIndexError::MasterOutOfRange));
}

#[test]
fn single_master_geometry_pairs_the_master_with_each_other_acquisition() {
    assert_eq!(single_master_ifg_geometry(3, 2), Ok((vec![1, 3], vec![2, 1, 2, 3])));
    assert_eq!(single_master_ifg_geometry(3, 0), Err(IfgIndexError::MasterOutOfRange));
    assert_eq!(single_master_ifg_geometry(-3, 1), Err(IfgIndexError::NegativeCount));
}
