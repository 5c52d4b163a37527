use stamps_native::edges::{edge_label_energy, EdgeDatum};
use stamps_native::patch::{
    candidate_patches, collect_candidates, insert_candidate, patch_energy,
    refine_labels_by_patch_shifts, try_patch,
};

fn edge(desired_delta: i32) -> EdgeDatum {
    EdgeDatum {
        cost: 1000,
        desired_delta,
        offset: 0,
        dzmax: 32000,
        laycost: -32000,
        nshortcycle: 200,
        flow_sign: 1,
        flow: 0,
    }
}

fn row_objective(labels: &[i32], horizontal: &[Option<EdgeDatum>]) -> i64 {
    horizontal
        .iter()
        .enumerate()
        .filter_map(|(col, slot)| slot.map(|e| edge_label_energy(e, labels[col], labels[col + 1])))
        .sum()
}

#[test]
fn candidate_heap_keeps_the_costliest_edges() {
    let mut heap = Vec::new();
    insert_candidate(&mut heap, 2, 5, 1, 0, 0);
    insert_candidate(&mut heap, 2, 3, 1, 0, 1);
    assert_eq!(heap, vec![(5, 1, 0, 0), (3, 1, 0, 1)]);
    insert_candidate(&mut heap, 2, 4, 2, 1, 1);
    assert_eq!(heap, vec![(5, 1, 0, 0), (4, 2, 1, 1)]);
    insert_candidate(&mut heap, 2, 1, 2, 0, 0);
    insert_candidate(&mut heap, 2, 0, 2, 0, 1);
    assert_eq!(heap, vec![(5, 1, 0, 0), (4, 2, 1, 1)]);
}

#[test]
fn candidate_windows_cover_the_edge() {
    assert_eq!(
        candidate_patches(1, 0, 0, 2, 2),
        vec![(0, 0, 1, 2), (0, 0, 2, 2)]
    );
    assert_eq!(
        candidate_patches(1, 0, 0, 1, 3),
        vec![(0, 0, 1, 2), (0, 0, 1, 3)]
    );
}

#[test]
fn window_cost_counts_the_touching_edges() {
    let horizontal = vec![Some(edge(1)), Some(edge(1))];
    let vertical: Vec<Option<EdgeDatum>> = Vec::new();
    let labels = vec![0, 0, 0];
    assert_eq!(
        patch_energy(&labels, &[0, 0], &horizontal, &vertical, 1, 3, (0, 1, 1, 2)),
        Some(80)
    );
    assert_eq!(
        patch_energy(&labels, &[0, 1], &horizontal, &vertical, 1, 3, (0, 1, 1, 2)),
        Some(40)
    );
}

#[test]
fn patch_move_takes_the_first_cheapest_code() {
    let horizontal = vec![Some(edge(1)), Some(edge(1))];
    let vertical: Vec<Option<EdgeDatum>> = Vec::new();
    let mut labels = vec![0, 0, 0];
    assert!(try_patch(&mut labels, &horizontal, &vertical, 1, 3, (0, 1, 1, 2)));
    assert_eq!(labels, vec![0, 0, 1]);
    assert_eq!(row_objective(&labels, &horizontal), 40);
}

#[test]
fn patch_refinement_lowers_the_objective() {
    let horizontal = vec![Some(edge(1)), Some(edge(1))];
    let vertical: Vec<Option<EdgeDatum>> = Vec::new();
    let mut labels = vec![0, 0, 0];
    let before = row_objective(&labels, &horizontal);
    assert_eq!(collect_candidates(&labels, &horizontal, &vertical, 1, 3).len(), 2);

    refine_labels_by_patch_shifts(&mut labels, &horizontal, &vertical, 1, 3);

    assert!(row_objective(&labels, &horizontal) < before);
    assert_eq!(row_objective(&labels, &horizontal), 0);
    assert_eq!(labels[1] - labels[0], 1);
    assert_eq!(labels[2] - labels[1], 1);
}

#[test]
fn candidates_list_the_positive_cost_edges_in_scan_order() {
    // 2 x 2 grid: the two horizontal edges want a step of one cycle, the
    // vertical edges want none, so only the horizontal edges cost anything.
    let horizontal = vec![Some(edge(1)), Some(edge(1))];
    let vertical = vec![Some(edge(0)), Some(edge(0))];
    let labels = vec![0, 0, 0, 0];
    assert_eq!(
        collect_candidates(&labels, &horizontal, &vertical, 2, 2),
        vec![(1, 0, 0), (1, 1, 0)]
    );
}
