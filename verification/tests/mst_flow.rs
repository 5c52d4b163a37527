use stamps_native::edges::{horizontal_index, vertical_index, EdgeDatum};
use stamps_native::mst_flow::{
    apply_action, apply_mst_flows, mst_initial_flows, mst_scalar_weight,
    shortest_path_initial_flows, visit_neighbors, Action,
};

fn edge(cost: i32) -> EdgeDatum {
    EdgeDatum {
        cost,
        desired_delta: 0,
        offset: 0,
        dzmax: 32000,
        laycost: -32000,
        nshortcycle: 200,
        flow_sign: 1,
        flow: 0,
    }
}

fn signed_edge(flow_sign: i32) -> EdgeDatum {
    EdgeDatum {
        cost: 1000,
        desired_delta: 0,
        offset: 0,
        dzmax: 32000,
        laycost: -32000,
        nshortcycle: 200,
        flow_sign,
        flow: 0,
    }
}

#[test]
fn mst_scalar_weight_matches_snaphu_unit_defo_increment() {
    assert_eq!(mst_scalar_weight(signed_edge(1)), 40);
}

#[test]
fn mst_scalar_weight_clips_to_snaphu_range() {
    let mut low = signed_edge(1);
    low.cost = 32000;
    assert_eq!(mst_scalar_weight(low), 1);

    let mut high = signed_edge(1);
    high.cost = 1;
    assert_eq!(mst_scalar_weight(high), 1000);
}

#[test]
fn apply_mst_flows_uses_snaphu_row_and_column_signs() {
    let nrow = 2;
    let ncol = 2;
    let mut horizontal = vec![Some(signed_edge(1)); nrow * (ncol - 1)];
    let mut vertical = vec![Some(signed_edge(-1)); (nrow - 1) * ncol];

    apply_mst_flows(&mut horizontal, &mut vertical, nrow, ncol, &[1, -2], &[3, -4]);

    let upper_left = vertical[vertical_index(0, 0, ncol)].unwrap();
    assert_eq!(upper_left.flow, 1);
    assert_eq!(upper_left.desired_delta, -1);

    let upper_right = vertical[vertical_index(0, 1, ncol)].unwrap();
    assert_eq!(upper_right.flow, -2);
    assert_eq!(upper_right.desired_delta, 2);

    let left = horizontal[horizontal_index(0, 0, ncol)].unwrap();
    assert_eq!(left.flow, 3);
    assert_eq!(left.desired_delta, 3);

    let lower_left = horizontal[horizontal_index(1, 0, ncol)].unwrap();
    assert_eq!(lower_left.flow, -4);
    assert_eq!(lower_left.desired_delta, -4);
}

#[test]
fn mst_initial_flows_pair_adjacent_opposite_residues() {
    let nrow = 2;
    let ncol = 3;
    let horizontal = vec![Some(edge(1000)); nrow * (ncol - 1)];
    let vertical = vec![Some(edge(1000)); (nrow - 1) * ncol];

    let (rowflow, colflow) = mst_initial_flows(&[1, -1], &horizontal, &vertical, nrow, ncol);

    assert_eq!(rowflow, vec![0, 1, 0]);
    assert_eq!(colflow, vec![0, 0, 0, 0]);
}

#[test]
fn mst_initial_flows_routes_single_residue_to_cheapest_boundary() {
    let nrow = 2;
    let ncol = 2;
    let mut horizontal = vec![Some(edge(1)); nrow * (ncol - 1)];
    let mut vertical = vec![Some(edge(1)); (nrow - 1) * ncol];
    horizontal[horizontal_index(0, 0, ncol)] = Some(edge(1));
    horizontal[horizontal_index(1, 0, ncol)] = Some(edge(1));
    vertical[vertical_index(0, 0, ncol)] = Some(edge(1000));
    vertical[vertical_index(0, 1, ncol)] = Some(edge(1));

    let (rowflow, colflow) = mst_initial_flows(&[1], &horizontal, &vertical, nrow, ncol);

    assert_eq!(rowflow, vec![-1, 0]);
    assert_eq!(colflow, vec![0, 0]);
}

#[test]
fn mst_initial_flows_returns_zero_for_balanced_empty_residue_grid() {
    let nrow = 2;
    let ncol = 2;
    let horizontal = vec![Some(edge(1000)); nrow * (ncol - 1)];
    let vertical = vec![Some(edge(1000)); (nrow - 1) * ncol];

    let (rowflow, colflow) = mst_initial_flows(&[0], &horizontal, &vertical, nrow, ncol);

    assert_eq!(rowflow, vec![0, 0]);
    assert_eq!(colflow, vec![0, 0]);
}

#[test]
fn shortest_path_initial_flows_matches_simple_adjacent_residue_contract() {
    let nrow = 2;
    let ncol = 3;
    let horizontal = vec![Some(edge(1000)); nrow * (ncol - 1)];
    let vertical = vec![Some(edge(1000)); (nrow - 1) * ncol];

    let (rowflow, colflow) =
        shortest_path_initial_flows(&[1, -1], &horizontal, &vertical, nrow, ncol);

    assert_eq!(rowflow, vec![0, 1, 0]);
    assert_eq!(colflow, vec![0, 0, 0, 0]);
}

#[test]
fn apply_action_moves_the_named_flow_only() {
    let mut rowflow = vec![0, 5];
    let mut colflow = vec![7];
    apply_action(
        &mut rowflow,
        &mut colflow,
        Action { is_row: true, index: 1, coeff: -1 },
        3,
    );
    assert_eq!(rowflow, vec![0, 2]);
    assert_eq!(colflow, vec![7]);
    apply_action(
        &mut rowflow,
        &mut colflow,
        Action { is_row: false, index: 0, coeff: 1 },
        -2,
    );
    assert_eq!(colflow, vec![5]);
}

#[test]
fn ground_node_borders_every_boundary_plaquette() {
    let nrow = 2;
    let ncol = 3;
    let horizontal = vec![Some(edge(1000)); nrow * (ncol - 1)];
    let vertical = vec![Some(edge(1000)); (nrow - 1) * ncol];
    let ground = 2;
    let around_ground = visit_neighbors(ground, &horizontal, &vertical, nrow, ncol);
    let targets: Vec<usize> = around_ground.iter().map(|entry| entry.0).collect();
    assert_eq!(targets, vec![0, 1, 0, 0, 1, 1]);
    let around_first = visit_neighbors(0, &horizontal, &vertical, nrow, ncol);
    let targets: Vec<usize> = around_first.iter().map(|entry| entry.0).collect();
    assert_eq!(targets, vec![ground, 1, ground, ground]);
    assert!(around_first.iter().all(|entry| entry.1 == 40));
}
