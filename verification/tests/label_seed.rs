use stamps_native::edges::{horizontal_index, vertical_index, EdgeDatum};
use stamps_native::label_seed::{
    build_adjacency, reseed_labels_from_edge_deltas, seed_labels_from_adjacency,
};

fn edge(cost: i32, offset: i32, flow_sign: i32, flow: i32) -> EdgeDatum {
    EdgeDatum {
        cost,
        desired_delta: 0,
        offset,
        dzmax: 32000,
        laycost: -32000,
        nshortcycle: 200,
        flow_sign,
        flow,
    }
}

fn oriented_grid() -> (Vec<Option<EdgeDatum>>, Vec<Option<EdgeDatum>>) {
    let nrow = 2;
    let ncol = 2;
    let mut horizontal = vec![Some(edge(7, 0, 1, 0)); nrow * (ncol - 1)];
    let mut vertical = vec![Some(edge(11, 0, -1, 0)); (nrow - 1) * ncol];
    horizontal[horizontal_index(0, 0, ncol)].as_mut().unwrap().desired_delta = 1;
    horizontal[horizontal_index(1, 0, ncol)].as_mut().unwrap().desired_delta = 1;
    vertical[vertical_index(0, 0, ncol)].as_mut().unwrap().desired_delta = 2;
    vertical[vertical_index(0, 1, ncol)].as_mut().unwrap().desired_delta = 2;
    (horizontal, vertical)
}

#[test]
fn label_reseed_follows_grid_edge_delta_orientation() {
    let nrow = 2;
    let ncol = 2;
    let mut labels = vec![5, 5, 5, 5];
    let (horizontal, vertical) = oriented_grid();

    reseed_labels_from_edge_deltas(&mut labels, &horizontal, &vertical, nrow, ncol);

    assert_eq!(labels, [5, 6, 7, 8]);
}

#[test]
fn reseed_ignores_labels_of_the_wrong_length() {
    let (horizontal, vertical) = oriented_grid();
    let mut labels = vec![5, 5, 5];

    reseed_labels_from_edge_deltas(&mut labels, &horizontal, &vertical, 2, 2);

    assert_eq!(labels, [5, 5, 5]);
}

#[test]
fn adjacency_lists_cell_edges_up_down_left_right() {
    let (horizontal, vertical) = oriented_grid();

    let adjacency = build_adjacency(&horizontal, &vertical, 2, 2);

    assert_eq!(adjacency.len(), 4);
    let first: Vec<(usize, usize, i32, i32)> = adjacency[0]
        .iter()
        .map(|e| (e.from, e.to, e.desired_delta, e.flow_sign))
        .collect();
    assert_eq!(first, vec![(0, 2, 2, -1), (0, 1, 1, 1)]);
    let last: Vec<(usize, usize, i32, i32)> = adjacency[3]
        .iter()
        .map(|e| (e.from, e.to, e.desired_delta, e.flow_sign))
        .collect();
    assert_eq!(last, vec![(3, 1, -2, 1), (3, 2, -1, -1)]);
    assert_eq!(adjacency[1][0].cost, 11);
}

#[test]
fn seeded_labels_start_from_zero_and_follow_cheapest_edges() {
    let (horizontal, vertical) = oriented_grid();
    let adjacency = build_adjacency(&horizontal, &vertical, 2, 2);

    let labels = seed_labels_from_adjacency(4, &adjacency);

    assert_eq!(labels, vec![0, 1, 2, 3]);
}

#[test]
fn seeding_starts_a_new_tree_in_each_disconnected_part() {
    let nrow = 1;
    let ncol = 3;
    let mut horizontal = vec![None; nrow * (ncol - 1)];
    let vertical: Vec<Option<EdgeDatum>> = vec![];
    let mut right = edge(3, 0, 1, 0);
    right.desired_delta = -4;
    horizontal[horizontal_index(0, 1, ncol)] = Some(right);
    let mut labels = vec![9, 9, 9];

    reseed_labels_from_edge_deltas(&mut labels, &horizontal, &vertical, nrow, ncol);

    assert_eq!(labels, [9, 9, 5]);
}
