use stamps_native::edges::{defo_edge_cost, horizontal_index, vertical_index, EdgeDatum};
use stamps_native::residual::{
    apply_residual_cycle, build_unit_residual_arcs, edge_residues, residual_cycle_cost,
    ResidualArc,
};
use stamps_native::tree_cycle::{
    cancel_negative_tree_cycles_with_tree, find_negative_tree_cycle,
    find_negative_tree_cycle_fast, optimize_tree_cycles, reverse_arc_index, same_primal_edge,
    spanning_tree_arc_indices, tree_adjacency, tree_cycle_for_arc, tree_edge_mask, DisjointSet,
};

fn edge(cost: i32, flow_sign: i32, flow: i32) -> EdgeDatum {
    EdgeDatum {
        cost,
        desired_delta: 0,
        offset: 0,
        dzmax: 32000,
        laycost: -32000,
        nshortcycle: 200,
        flow_sign,
        flow,
    }
}

fn objective(horizontal: &[Option<EdgeDatum>], vertical: &[Option<EdgeDatum>]) -> i64 {
    horizontal
        .iter()
        .chain(vertical.iter())
        .filter_map(|edge| *edge)
        .map(|edge| {
            defo_edge_cost(
                edge.cost,
                edge.offset,
                edge.dzmax,
                edge.laycost,
                edge.nshortcycle,
                edge.flow,
            )
        })
        .sum()
}

fn arc_index(arcs: &[ResidualArc], from: usize, to: usize) -> usize {
    arcs.iter()
        .position(|arc| arc.from == from && arc.to == to)
        .unwrap()
}

fn sample_tree(arcs: &[ResidualArc]) -> [usize; 4] {
    [
        arc_index(arcs, 0, 1),
        arc_index(arcs, 1, 3),
        arc_index(arcs, 2, 3),
        arc_index(arcs, 4, 0),
    ]
}

#[test]
fn tree_cycle_for_arc_uses_tree_path_back_to_source() {
    let nrow = 3;
    let ncol = 3;
    let horizontal = vec![Some(edge(32000, 1, 0)); nrow * (ncol - 1)];
    let vertical = vec![Some(edge(32000, -1, 0)); (nrow - 1) * ncol];
    let arcs = build_unit_residual_arcs(&horizontal, &vertical, nrow, ncol);
    let tree = sample_tree(&arcs);
    let non_tree = arc_index(&arcs, 2, 0);

    let cycle = tree_cycle_for_arc(&arcs, 5, &tree, non_tree).unwrap();
    let endpoints: Vec<(usize, usize)> = cycle
        .iter()
        .map(|&index| (arcs[index].from, arcs[index].to))
        .collect();

    assert_eq!(endpoints, vec![(2, 0), (0, 1), (1, 3), (3, 2)]);
}

#[test]
fn negative_tree_cycle_reduces_objective_and_preserves_residues() {
    let nrow = 3;
    let ncol = 3;
    let mut horizontal = vec![Some(edge(32000, 1, 0)); nrow * (ncol - 1)];
    let mut vertical = vec![Some(edge(32000, -1, 0)); (nrow - 1) * ncol];
    horizontal[horizontal_index(1, 0, ncol)] = Some(edge(1000, 1, 1));
    vertical[vertical_index(0, 1, ncol)] = Some(edge(32000, -1, 0));
    let before_residue = edge_residues(&horizontal, &vertical, nrow, ncol);
    let before_objective = objective(&horizontal, &vertical);
    let arcs = build_unit_residual_arcs(&horizontal, &vertical, nrow, ncol);
    let tree = sample_tree(&arcs);

    let cycle = find_negative_tree_cycle(&arcs, 5, &tree).unwrap();

    assert!(residual_cycle_cost(&arcs, &cycle) < 0);
    apply_residual_cycle(&mut horizontal, &mut vertical, &arcs, &cycle);
    assert_eq!(
        edge_residues(&horizontal, &vertical, nrow, ncol),
        before_residue
    );
    assert!(objective(&horizontal, &vertical) < before_objective);
}

#[test]
fn fast_negative_tree_cycle_matches_tree_cycle_cost() {
    let nrow = 3;
    let ncol = 3;
    let mut horizontal = vec![Some(edge(32000, 1, 0)); nrow * (ncol - 1)];
    let mut vertical = vec![Some(edge(32000, -1, 0)); (nrow - 1) * ncol];
    horizontal[horizontal_index(1, 0, ncol)] = Some(edge(1000, 1, 1));
    vertical[vertical_index(0, 1, ncol)] = Some(edge(32000, -1, 0));
    let arcs = build_unit_residual_arcs(&horizontal, &vertical, nrow, ncol);
    let tree = sample_tree(&arcs);

    let cycle = find_negative_tree_cycle_fast(&arcs, 5, &tree).unwrap();

    assert!(residual_cycle_cost(&arcs, &cycle) < 0);
}

#[test]
fn spanning_tree_arc_indices_connects_all_dual_nodes() {
    let nrow = 3;
    let ncol = 3;
    let horizontal = vec![Some(edge(32000, 1, 0)); nrow * (ncol - 1)];
    let vertical = vec![Some(edge(32000, -1, 0)); (nrow - 1) * ncol];
    let arcs = build_unit_residual_arcs(&horizontal, &vertical, nrow, ncol);

    let tree = spanning_tree_arc_indices(&arcs, 5);

    assert_eq!(tree.len(), 4);
}

#[test]
fn tree_edge_mask_marks_both_residual_directions() {
    let nrow = 3;
    let ncol = 3;
    let horizontal = vec![Some(edge(32000, 1, 0)); nrow * (ncol - 1)];
    let vertical = vec![Some(edge(32000, -1, 0)); (nrow - 1) * ncol];
    let arcs = build_unit_residual_arcs(&horizontal, &vertical, nrow, ncol);
    let tree = [arc_index(&arcs, 0, 1)];

    let mask = tree_edge_mask(&arcs, &tree);

    assert!(mask[arc_index(&arcs, 0, 1)]);
    assert!(mask[arc_index(&arcs, 1, 0)]);
    assert!(!mask[arc_index(&arcs, 2, 0)]);
}

#[test]
fn tree_cycle_cancellation_stops_at_tree_local_optimum() {
    let nrow = 3;
    let ncol = 3;
    let mut horizontal = vec![Some(edge(32000, 1, 0)); nrow * (ncol - 1)];
    let mut vertical = vec![Some(edge(32000, -1, 0)); (nrow - 1) * ncol];
    horizontal[horizontal_index(1, 0, ncol)] = Some(edge(1000, 1, 1));
    let before = objective(&horizontal, &vertical);
    let arcs = build_unit_residual_arcs(&horizontal, &vertical, nrow, ncol);
    let tree = sample_tree(&arcs);

    let applied =
        cancel_negative_tree_cycles_with_tree(&mut horizontal, &mut vertical, nrow, ncol, &tree, 8);
    let arcs = build_unit_residual_arcs(&horizontal, &vertical, nrow, ncol);

    assert_eq!(applied, 1);
    assert!(objective(&horizontal, &vertical) < before);
    assert!(find_negative_tree_cycle(&arcs, 5, &tree).is_none());
}

#[test]
fn optimize_tree_cycles_builds_tree_and_reduces_objective() {
    let nrow = 3;
    let ncol = 3;
    let mut horizontal = vec![Some(edge(32000, 1, 0)); nrow * (ncol - 1)];
    let mut vertical = vec![Some(edge(32000, -1, 0)); (nrow - 1) * ncol];
    horizontal[horizontal_index(1, 0, ncol)] = Some(edge(1000, 1, 1));
    let before = objective(&horizontal, &vertical);

    let applied = optimize_tree_cycles(&mut horizontal, &mut vertical, nrow, ncol, 8);

    assert_eq!(applied, 1);
    assert!(objective(&horizontal, &vertical) < before);
}

#[test]
fn disjoint_set_joins_and_reports_repeated_unions() {
    let mut sets = DisjointSet::new(4);
    assert!(sets.union(0, 1));
    assert!(sets.union(2, 3));
    assert!(!sets.union(1, 0));
    assert_ne!(sets.find(0), sets.find(2));
    assert!(sets.union(1, 3));
    assert_eq!(sets.find(0), sets.find(3));
    assert_eq!(sets.find(2), sets.find(1));
}

#[test]
fn reverse_arc_is_the_partner_on_the_same_edge() {
    let nrow = 2;
    let ncol = 2;
    let horizontal = vec![Some(edge(1000, 1, 0)); nrow * (ncol - 1)];
    let vertical = vec![Some(edge(1000, -1, 0)); (nrow - 1) * ncol];
    let arcs = build_unit_residual_arcs(&horizontal, &vertical, nrow, ncol);

    assert_eq!(reverse_arc_index(&arcs, 0), Some(1));
    assert_eq!(reverse_arc_index(&arcs, 1), Some(0));
    assert_eq!(reverse_arc_index(&arcs, arcs.len()), None);
    assert!(same_primal_edge(arcs[0], arcs[1]));
    assert!(!same_primal_edge(arcs[0], arcs[2]));
}

#[test]
fn tree_adjacency_lists_tree_arcs_both_ways() {
    let nrow = 2;
    let ncol = 2;
    let horizontal = vec![Some(edge(1000, 1, 0)); nrow * (ncol - 1)];
    let vertical = vec![Some(edge(1000, -1, 0)); (nrow - 1) * ncol];
    let arcs = build_unit_residual_arcs(&horizontal, &vertical, nrow, ncol);

    let adjacency = tree_adjacency(&arcs, 2, &[0]);

    assert_eq!(adjacency[arcs[0].from], vec![(arcs[0].to, 0)]);
    assert_eq!(adjacency[arcs[0].to], vec![(arcs[0].from, 1)]);
}

#[test]
fn tree_cycle_is_absent_for_an_arc_outside_the_nodes() {
    let nrow = 3;
    let ncol = 3;
    let horizontal = vec![Some(edge(32000, 1, 0)); nrow * (ncol - 1)];
    let vertical = vec![Some(edge(32000, -1, 0)); (nrow - 1) * ncol];
    let arcs = build_unit_residual_arcs(&horizontal, &vertical, nrow, ncol);
    let tree = sample_tree(&arcs);

    assert!(tree_cycle_for_arc(&arcs, 3, &tree, arc_index(&arcs, 4, 0)).is_none());
    assert!(tree_cycle_for_arc(&arcs, 5, &tree, arcs.len()).is_none());
}
