use stamps_native::edges::EdgeDatum;
use stamps_native::flow_schedule::{
    edge_flow_objective, next_flow_increment, snaphu_capped_batch_limit, snaphu_continue_capped_batches,
    snaphu_flow_increments, snaphu_flow_tree_cycle_limit, snaphu_max_nflow_cycles,
};

#[test]
fn stage6_flow_increment_schedule_matches_snaphu_default() {
    assert_eq!(snaphu_flow_increments(0), vec![1]);
    assert_eq!(snaphu_flow_increments(2), vec![1, 2]);
    assert_eq!(snaphu_flow_increments(3), vec![1, 2, 3]);
    assert_eq!(snaphu_flow_increments(9), vec![1, 2, 3, 4]);
}

#[test]
fn stage6_flow_cycle_threshold_matches_snaphu_default_fraction() {
    assert_eq!(snaphu_max_nflow_cycles(3, 3), 1);
    assert_eq!(snaphu_max_nflow_cycles(1773, 4378), 78);
}

#[test]
fn stage6_flow_tree_cycle_limit_allows_one_default_maxflow_sweep() {
    assert_eq!(snaphu_flow_tree_cycle_limit(3, 3), 28);
    assert_eq!(snaphu_flow_tree_cycle_limit(1773, 4378), 312);
}

#[test]
fn stage6_flow_increment_tracks_a_growing_maximum_flow() {
    assert_eq!(next_flow_increment(1, 2), 2);
    assert_eq!(next_flow_increment(2, 3), 3);
    assert_eq!(next_flow_increment(3, 3), 1);
    assert_eq!(next_flow_increment(4, 9), 1);
}

#[test]
fn flow_increments_start_at_one_for_negative_maximum() {
    assert_eq!(snaphu_flow_increments(-5), vec![1]);
    assert_eq!(next_flow_increment(0, 5), 1);
}

#[test]
fn capped_batches_continue_only_on_small_grids() {
    assert!(snaphu_continue_capped_batches(3, 3));
    assert_eq!(snaphu_capped_batch_limit(3, 3), usize::MAX);
    assert!(!snaphu_continue_capped_batches(200, 200));
    assert_eq!(snaphu_capped_batch_limit(200, 200), 3);
}

#[test]
fn max_nflow_cycles_is_at_least_one() {
    assert_eq!(snaphu_max_nflow_cycles(0, 0), 1);
    assert_eq!(snaphu_max_nflow_cycles(1, 1), 1);
}

#[test]
fn flow_objective_sums_the_costs_of_present_edges() {
    let e = EdgeDatum {
        cost: 1,
        desired_delta: 0,
        offset: 0,
        dzmax: 32000,
        laycost: -32000,
        nshortcycle: 1,
        flow_sign: 1,
        flow: 2,
    };
    let horizontal = vec![Some(e), None, Some(EdgeDatum { cost: 32000, ..e })];
    let vertical = vec![Some(EdgeDatum { flow: -3, ..e })];

    assert_eq!(edge_flow_objective(&horizontal, &vertical), 13);
}
