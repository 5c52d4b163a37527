use stamps_native::edges::{horizontal_index, EdgeDatum};
use stamps_native::incr_cost::defo_incremental_costs;
use stamps_native::residual::{apply_residual_cycle, build_unit_residual_arcs, edge_residues};
use stamps_native::residual_view::{
    apply_compact_residual_cycle, apply_compact_residual_cycle_with_nflow, CompactResidualView,
};
use stamps_native::tree_path::TreePathCosts;

fn edge(cost: i32, flow_sign: i32, flow: i32) -> EdgeDatum {
    EdgeDatum {
        cost,
        desired_delta: 0,
        offset: 0,
        dzmax: 32000,
        laycost: -32000,
        nshortcycle: 200,
        flow_sign,
        flow,
    }
}

#[test]
fn compact_residual_view_matches_materialized_arcs_for_full_grid() {
    let nrow = 3;
    let ncol = 3;
    let horizontal = vec![Some(edge(1000, 1, 1)); nrow * (ncol - 1)];
    let vertical = vec![Some(edge(2000, -1, -1)); (nrow - 1) * ncol];
    let materialized = build_unit_residual_arcs(&horizontal, &vertical, nrow, ncol);
    let compact = CompactResidualView::new(&horizontal, &vertical, nrow, ncol);

    assert_eq!(compact.node_count(), (nrow - 1) * (ncol - 1) + 1);
    assert_eq!(compact.arc_count(), materialized.len());
    for (index, expected) in materialized.iter().copied().enumerate() {
        assert_eq!(compact.arc(index), Some(expected));
    }
}

#[test]
fn compact_residual_view_skips_missing_edges() {
    let nrow = 2;
    let ncol = 2;
    let horizontal = vec![None, Some(edge(1000, 1, 0))];
    let vertical = vec![Some(edge(1000, -1, 0)), None];
    let compact = CompactResidualView::new(&horizontal, &vertical, nrow, ncol);

    assert_eq!(compact.arc_count(), 8);
    assert!(compact.arc(0).is_none());
    assert!(compact.arc(1).is_none());
    assert!(compact.arc(2).is_some());
    assert!(compact.arc(3).is_some());
    assert!(compact.arc(4).is_some());
    assert!(compact.arc(5).is_some());
    assert!(compact.arc(6).is_none());
    assert!(compact.arc(7).is_none());
}

#[test]
fn compact_residual_view_scans_present_arcs_without_materializing() {
    let nrow = 3;
    let ncol = 3;
    let mut horizontal = vec![Some(edge(1000, 1, 1)); nrow * (ncol - 1)];
    let vertical = vec![Some(edge(2000, -1, -1)); (nrow - 1) * ncol];
    horizontal[2] = None;
    let materialized = build_unit_residual_arcs(&horizontal, &vertical, nrow, ncol);
    let compact = CompactResidualView::new(&horizontal, &vertical, nrow, ncol);
    let mut scanned = 0_usize;
    let mut cost_sum = 0_i32;

    for (_index, arc) in compact.present_arcs() {
        scanned += 1;
        cost_sum += arc.cost;
    }

    assert_eq!(scanned, materialized.len());
    assert_eq!(
        cost_sum,
        materialized.iter().map(|arc| arc.cost).sum::<i32>()
    );
}

#[test]
fn compact_residual_view_can_expose_larger_flow_steps() {
    let nrow = 2;
    let ncol = 2;
    let horizontal = vec![Some(edge(1000, 1, 0)), None];
    let vertical = vec![None, None];
    let compact = CompactResidualView::with_nflow(&horizontal, &vertical, nrow, ncol, 4);
    let arc = compact.arc(0).unwrap();

    assert_eq!(arc.correction_delta, 4);
    assert_eq!(
        arc.cost,
        i32::from(defo_incremental_costs(edge(1000, 1, 0), 4).pos)
    );
}

#[test]
fn compact_scan_lists_materialized_arcs_in_order_with_indices() {
    let nrow = 3;
    let ncol = 4;
    let mut horizontal = vec![Some(edge(1000, 1, 0)); nrow * (ncol - 1)];
    let mut vertical = vec![Some(edge(1500, -1, 2)); (nrow - 1) * ncol];
    horizontal[4] = None;
    vertical[0] = None;
    vertical[7] = None;
    let materialized = build_unit_residual_arcs(&horizontal, &vertical, nrow, ncol);
    let compact = CompactResidualView::new(&horizontal, &vertical, nrow, ncol);
    let scanned = compact.present_arcs();

    assert_eq!(scanned.len(), materialized.len());
    for ((index, arc), expected) in scanned.iter().zip(materialized.iter()) {
        assert_eq!(arc, expected);
        assert_eq!(compact.arc(*index), Some(*arc));
    }
    let horizontal_arc_count = 2 * (nrow * (ncol - 1) - 1);
    assert_eq!(scanned[horizontal_arc_count].0, 2 * nrow * (ncol - 1) + 2);
}

#[test]
fn compact_view_of_a_single_row_uses_the_ground_node_on_both_sides() {
    let horizontal = vec![Some(edge(1000, 1, 0)); 2];
    let vertical: Vec<Option<EdgeDatum>> = Vec::new();
    let compact = CompactResidualView::new(&horizontal, &vertical, 1, 3);

    assert_eq!(compact.node_count(), 1);
    assert_eq!(compact.arc_count(), 4);
    let second = compact.arc(2).unwrap();
    assert_eq!((second.from, second.to), (0, 1));
    assert!(build_unit_residual_arcs(&horizontal, &vertical, 1, 3).is_empty());
}

#[test]
fn compact_cycle_application_matches_materialized_cycle() {
    let nrow = 3;
    let ncol = 3;
    let mut horizontal = vec![Some(edge(1000, 1, 0)); nrow * (ncol - 1)];
    let mut vertical = vec![Some(edge(1000, -1, 0)); (nrow - 1) * ncol];
    horizontal[horizontal_index(1, 0, ncol)] = Some(edge(1000, 1, 1));
    let arcs = build_unit_residual_arcs(&horizontal, &vertical, nrow, ncol);
    let position = |from: usize, to: usize| {
        arcs.iter()
            .position(|arc| arc.from == from && arc.to == to)
            .unwrap()
    };
    let cycle = vec![position(4, 0), position(0, 2), position(2, 4)];
    let before = edge_residues(&horizontal, &vertical, nrow, ncol);

    let mut compact_h = horizontal.clone();
    let mut compact_v = vertical.clone();
    apply_compact_residual_cycle(&mut compact_h, &mut compact_v, nrow, ncol, &cycle);
    apply_residual_cycle(&mut horizontal, &mut vertical, &arcs, &cycle);

    assert_eq!(compact_h, horizontal);
    assert_eq!(compact_v, vertical);
    assert_eq!(edge_residues(&compact_h, &compact_v, nrow, ncol), before);
    assert_eq!(compact_h[horizontal_index(0, 0, ncol)].unwrap().flow, 1);
}

#[test]
fn compact_cycle_application_skips_missing_arcs_and_scales_by_nflow() {
    let nrow = 2;
    let ncol = 2;
    let mut horizontal = vec![Some(edge(1000, 1, 0)), None];
    let mut vertical = vec![None, None];
    apply_compact_residual_cycle_with_nflow(&mut horizontal, &mut vertical, nrow, ncol, &[0, 2, 9], -3);

    assert_eq!(horizontal[0].unwrap().flow, 3);
    assert_eq!(horizontal[0].unwrap().desired_delta, 3);
    assert_eq!(horizontal[1], None);
}

#[test]
fn compact_tree_path_costs_match_materialized_tree_path_costs() {
    let nrow = 3;
    let ncol = 3;
    let horizontal = vec![Some(edge(1000, 1, 1)); nrow * (ncol - 1)];
    let vertical = vec![Some(edge(2000, -1, -1)); (nrow - 1) * ncol];
    let arcs = build_unit_residual_arcs(&horizontal, &vertical, nrow, ncol);
    let compact = CompactResidualView::new(&horizontal, &vertical, nrow, ncol);
    let position = |from: usize, to: usize| {
        arcs.iter()
            .position(|arc| arc.from == from && arc.to == to)
            .unwrap()
    };
    let tree = [position(0, 1), position(1, 3), position(2, 3), position(4, 0)];

    let materialized = TreePathCosts::new(&arcs, 5, &tree).unwrap();
    let from_view = TreePathCosts::new_compact(&compact, &tree).unwrap();

    for from in 0..5 {
        for to in 0..5 {
            assert_eq!(from_view.path_cost(from, to), materialized.path_cost(from, to));
        }
    }
    assert_eq!(from_view.path_cost(2, 2), Some(0));
}
