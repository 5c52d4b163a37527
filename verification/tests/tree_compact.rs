use stamps_native::edges::{defo_edge_cost, horizontal_index, vertical_index, EdgeDatum};
use stamps_native::residual::{build_unit_residual_arcs, edge_residues, ResidualArc};
use stamps_native::residual_view::{
    apply_compact_residual_cycle, apply_compact_residual_cycle_with_nflow, CompactResidualView,
};
use stamps_native::tree_basis::{push_candidate, CompactTreeBasis};
use stamps_native::tree_compact::{
    compact_cycle_cost, compact_tree_edge_mask, find_negative_tree_cycle_compact,
    optimize_large_tree_cycles, pivot_compact_tree_on_cycle, spanning_tree_arc_indices_compact,
    spanning_tree_arc_indices_compact_with_order, ArcOrder,
};
use stamps_native::tree_cycle::{spanning_tree_arc_indices, tree_edge_mask};

fn edge(cost: i32, flow_sign: i32, flow: i32) -> EdgeDatum {
    EdgeDatum {
        cost,
        desired_delta: 0,
        offset: 0,
        dzmax: 32000,
        laycost: -32000,
        nshortcycle: 200,
        flow_sign,
        flow,
    }
}

fn objective(horizontal: &[Option<EdgeDatum>], vertical: &[Option<EdgeDatum>]) -> i64 {
    horizontal
        .iter()
        .chain(vertical.iter())
        .filter_map(|edge| *edge)
        .map(|edge| {
            defo_edge_cost(
                edge.cost,
                edge.offset,
                edge.dzmax,
                edge.laycost,
                edge.nshortcycle,
                edge.flow,
            )
        })
        .sum()
}

fn arc_index(arcs: &[ResidualArc], from: usize, to: usize) -> usize {
    arcs.iter()
        .position(|arc| arc.from == from && arc.to == to)
        .unwrap()
}

#[test]
fn compact_spanning_tree_matches_materialized_tree() {
    let nrow = 3;
    let ncol = 3;
    let horizontal = vec![Some(edge(32000, 1, 0)); nrow * (ncol - 1)];
    let vertical = vec![Some(edge(32000, -1, 0)); (nrow - 1) * ncol];
    let arcs = build_unit_residual_arcs(&horizontal, &vertical, nrow, ncol);
    let view = CompactResidualView::new(&horizontal, &vertical, nrow, ncol);

    assert_eq!(
        spanning_tree_arc_indices_compact(&view),
        spanning_tree_arc_indices(&arcs, view.node_count())
    );
}

#[test]
fn compact_tree_pivot_replaces_tree_arc_with_entering_cycle_arc() {
    let nrow = 3;
    let ncol = 3;
    let mut horizontal = vec![Some(edge(32000, 1, 0)); nrow * (ncol - 1)];
    let vertical = vec![Some(edge(32000, -1, 0)); (nrow - 1) * ncol];
    horizontal[horizontal_index(1, 0, ncol)] = Some(edge(1000, 1, 1));
    let view = CompactResidualView::new(&horizontal, &vertical, nrow, ncol);
    let mut tree = spanning_tree_arc_indices_compact(&view);
    let cycle = find_negative_tree_cycle_compact(&view, &tree).expect("negative cycle");
    let entering_pair = cycle[0] / 2;

    assert!(pivot_compact_tree_on_cycle(&view, &mut tree, &cycle));

    assert_eq!(tree.len() + 1, view.node_count());
    assert!(tree.iter().any(|&index| index / 2 == entering_pair));
    assert!(CompactTreeBasis::new(&view, &tree).is_some());
}

#[test]
fn compact_tree_basis_returns_candidate_batch_from_one_scan() {
    let nrow = 3;
    let ncol = 3;
    let mut horizontal = [-3, 1, -1, 3, -2, 0]
        .into_iter()
        .map(|flow| Some(edge(1000, 1, flow)))
        .collect::<Vec<_>>();
    let mut vertical = [2, 2, 3, 2, -1, 1]
        .into_iter()
        .map(|flow| Some(edge(1000, -1, flow)))
        .collect::<Vec<_>>();
    let before_residue = edge_residues(&horizontal, &vertical, nrow, ncol);
    let before_objective = objective(&horizontal, &vertical);
    let view = CompactResidualView::new(&horizontal, &vertical, nrow, ncol);
    let tree = spanning_tree_arc_indices_compact(&view);
    let basis = CompactTreeBasis::new(&view, &tree).expect("connected test tree");
    let cycles = basis.negative_cycles(&view, 3);

    assert_eq!(cycles.len(), 3);
    for cycle in &cycles {
        apply_compact_residual_cycle_with_nflow(
            &mut horizontal,
            &mut vertical,
            nrow,
            ncol,
            cycle,
            1,
        );
    }
    assert_eq!(
        edge_residues(&horizontal, &vertical, nrow, ncol),
        before_residue
    );
    assert!(objective(&horizontal, &vertical) < before_objective);
}

#[test]
fn cached_compact_tree_basis_matches_uncached_cycle_search_after_cost_change() {
    let nrow = 3;
    let ncol = 3;
    let mut horizontal = vec![Some(edge(32000, 1, 0)); nrow * (ncol - 1)];
    let vertical = vec![Some(edge(32000, -1, 0)); (nrow - 1) * ncol];
    horizontal[horizontal_index(1, 0, ncol)] = Some(edge(1000, 1, 1));
    let view = CompactResidualView::new(&horizontal, &vertical, nrow, ncol);
    let tree = spanning_tree_arc_indices_compact(&view);
    let basis = CompactTreeBasis::new(&view, &tree).expect("connected test tree");

    assert_eq!(
        basis.find_negative_cycle(&view).is_some(),
        find_negative_tree_cycle_compact(&view, &tree).is_some()
    );

    horizontal[horizontal_index(1, 0, ncol)] = Some(edge(1000, 1, -1));
    let changed_view = CompactResidualView::new(&horizontal, &vertical, nrow, ncol);
    assert_eq!(
        basis.find_negative_cycle(&changed_view).is_some(),
        find_negative_tree_cycle_compact(&changed_view, &tree).is_some()
    );
}

#[test]
fn compact_tree_edge_mask_matches_materialized_mask() {
    let nrow = 3;
    let ncol = 3;
    let horizontal = vec![Some(edge(32000, 1, 0)); nrow * (ncol - 1)];
    let vertical = vec![Some(edge(32000, -1, 0)); (nrow - 1) * ncol];
    let arcs = build_unit_residual_arcs(&horizontal, &vertical, nrow, ncol);
    let compact = CompactResidualView::new(&horizontal, &vertical, nrow, ncol);
    let tree = [
        arc_index(&arcs, 0, 1),
        arc_index(&arcs, 1, 3),
        arc_index(&arcs, 2, 3),
        arc_index(&arcs, 4, 0),
    ];

    assert_eq!(
        compact_tree_edge_mask(&compact, &tree),
        tree_edge_mask(&arcs, &tree)
    );
}

#[test]
fn compact_negative_tree_cycle_matches_materialized_cost() {
    let nrow = 3;
    let ncol = 3;
    let mut horizontal = vec![Some(edge(32000, 1, 0)); nrow * (ncol - 1)];
    let mut vertical = vec![Some(edge(32000, -1, 0)); (nrow - 1) * ncol];
    horizontal[horizontal_index(1, 0, ncol)] = Some(edge(1000, 1, 1));
    vertical[vertical_index(0, 1, ncol)] = Some(edge(32000, -1, 0));
    let arcs = build_unit_residual_arcs(&horizontal, &vertical, nrow, ncol);
    let compact = CompactResidualView::new(&horizontal, &vertical, nrow, ncol);
    let tree = [
        arc_index(&arcs, 0, 1),
        arc_index(&arcs, 1, 3),
        arc_index(&arcs, 2, 3),
        arc_index(&arcs, 4, 0),
    ];

    let compact_cycle = find_negative_tree_cycle_compact(&compact, &tree).unwrap();

    let cost: i32 = compact_cycle
        .iter()
        .map(|&index| compact.arc(index).unwrap().cost)
        .sum();
    assert!(cost < 0);
}

#[test]
fn compact_cycle_application_reduces_objective_and_preserves_residues() {
    let nrow = 3;
    let ncol = 3;
    let mut horizontal = vec![Some(edge(32000, 1, 0)); nrow * (ncol - 1)];
    let mut vertical = vec![Some(edge(32000, -1, 0)); (nrow - 1) * ncol];
    horizontal[horizontal_index(1, 0, ncol)] = Some(edge(1000, 1, 1));
    vertical[vertical_index(0, 1, ncol)] = Some(edge(32000, -1, 0));
    let before_residue = edge_residues(&horizontal, &vertical, nrow, ncol);
    let before_objective = objective(&horizontal, &vertical);
    let arcs = build_unit_residual_arcs(&horizontal, &vertical, nrow, ncol);
    let tree = [
        arc_index(&arcs, 0, 1),
        arc_index(&arcs, 1, 3),
        arc_index(&arcs, 2, 3),
        arc_index(&arcs, 4, 0),
    ];
    let compact_cycle = {
        let compact = CompactResidualView::new(&horizontal, &vertical, nrow, ncol);
        find_negative_tree_cycle_compact(&compact, &tree).unwrap()
    };

    apply_compact_residual_cycle(&mut horizontal, &mut vertical, nrow, ncol, &compact_cycle);

    assert_eq!(
        edge_residues(&horizontal, &vertical, nrow, ncol),
        before_residue
    );
    assert!(objective(&horizontal, &vertical) < before_objective);
}

#[test]
fn tree_basis_path_walks_up_to_the_meeting_node_and_down() {
    let nrow = 3;
    let ncol = 3;
    let horizontal = vec![Some(edge(1000, 1, 0)); nrow * (ncol - 1)];
    let vertical = vec![Some(edge(1000, -1, 0)); (nrow - 1) * ncol];
    let arcs = build_unit_residual_arcs(&horizontal, &vertical, nrow, ncol);
    let view = CompactResidualView::new(&horizontal, &vertical, nrow, ncol);
    let tree = [
        arc_index(&arcs, 0, 1),
        arc_index(&arcs, 1, 3),
        arc_index(&arcs, 2, 3),
        arc_index(&arcs, 4, 0),
    ];
    let basis = CompactTreeBasis::new(&view, &tree).unwrap();

    assert_eq!(basis.lca(3, 4), Some(0));
    assert_eq!(basis.lca(2, 1), Some(1));
    assert_eq!(basis.lca(2, 2), Some(2));
    assert_eq!(basis.lca(5, 0), None);
    let path = basis.path_arcs(2, 4).unwrap();
    let nodes: Vec<(usize, usize)> = path
        .iter()
        .map(|&index| {
            let arc = view.arc(index).unwrap();
            (arc.from, arc.to)
        })
        .collect();
    assert_eq!(nodes, vec![(2, 3), (3, 1), (1, 0), (0, 4)]);
    let (up, down) = basis.root_costs(&view).unwrap();
    let expected: i64 = path
        .iter()
        .map(|&index| i64::from(view.arc(index).unwrap().cost))
        .sum();
    assert_eq!(basis.path_cost_with(2, 4, &up, &down), Some(expected));
}

#[test]
fn negative_cycles_respect_the_limit_and_come_cheapest_first() {
    let nrow = 3;
    let ncol = 3;
    let horizontal = [-3, 1, -1, 3, -2, 0]
        .into_iter()
        .map(|flow| Some(edge(1000, 1, flow)))
        .collect::<Vec<_>>();
    let vertical = [2, 2, 3, 2, -1, 1]
        .into_iter()
        .map(|flow| Some(edge(1000, -1, flow)))
        .collect::<Vec<_>>();
    let view = CompactResidualView::new(&horizontal, &vertical, nrow, ncol);
    let tree = spanning_tree_arc_indices_compact(&view);
    let basis = CompactTreeBasis::new(&view, &tree).unwrap();

    assert!(basis.negative_cycles(&view, 0).is_empty());
    let all = basis.negative_cycles(&view, 100);
    let two = basis.negative_cycles(&view, 2);
    assert_eq!(two.len(), 2.min(all.len()));
    assert_eq!(two[..], all[..two.len()]);
    let costs: Vec<i64> = all
        .iter()
        .map(|cycle| compact_cycle_cost(&view, cycle).unwrap())
        .collect();
    for pair in costs.windows(2) {
        assert!(pair[0] <= pair[1]);
    }
    assert!(costs.iter().all(|&cost| cost < 0));
    let best = basis.find_negative_cycle(&view).unwrap();
    assert_eq!(best, all[0]);
}

#[test]
fn push_candidate_keeps_the_cheapest_in_order() {
    let mut candidates = Vec::new();
    push_candidate(&mut candidates, (-5, 7), 2);
    push_candidate(&mut candidates, (-9, 3), 2);
    push_candidate(&mut candidates, (-5, 2), 2);
    assert_eq!(candidates, vec![(-9, 3), (-5, 2)]);
    push_candidate(&mut candidates, (-1, 0), 2);
    assert_eq!(candidates, vec![(-9, 3), (-5, 2)]);
}

#[test]
fn negative_first_tree_starts_with_the_cheapest_negative_arc() {
    let nrow = 3;
    let ncol = 3;
    let horizontal = [-3, 1, -1, 3, -2, 0]
        .into_iter()
        .map(|flow| Some(edge(1000, 1, flow)))
        .collect::<Vec<_>>();
    let vertical = [2, 2, 3, 2, -1, 1]
        .into_iter()
        .map(|flow| Some(edge(1000, -1, flow)))
        .collect::<Vec<_>>();
    let view = CompactResidualView::new(&horizontal, &vertical, nrow, ncol);
    let tree = spanning_tree_arc_indices_compact_with_order(&view, ArcOrder::NegativeFirst);
    let mut cheapest: Option<(i32, usize)> = None;
    for (index, arc) in view.present_arcs() {
        if arc.cost < 0 && cheapest.map_or(true, |best| (arc.cost, index) < best) {
            cheapest = Some((arc.cost, index));
        }
    }

    assert_eq!(tree.len() + 1, view.node_count());
    if let Some((_cost, index)) = cheapest {
        assert_eq!(tree[0], index);
    }
    assert!(CompactTreeBasis::new(&view, &tree).is_some());
    assert_eq!(
        spanning_tree_arc_indices_compact_with_order(&view, ArcOrder::Forward),
        spanning_tree_arc_indices_compact(&view)
    );
}

fn batch_grid() -> (Vec<Option<EdgeDatum>>, Vec<Option<EdgeDatum>>) {
    let horizontal = [-3, 1, -1, 3, -2, 0]
        .into_iter()
        .map(|flow| Some(edge(1000, 1, flow)))
        .collect::<Vec<_>>();
    let vertical = [2, 2, 3, 2, -1, 1]
        .into_iter()
        .map(|flow| Some(edge(1000, -1, flow)))
        .collect::<Vec<_>>();
    (horizontal, vertical)
}

#[test]
fn large_tree_optimizer_rebases_on_each_cycle_and_keeps_residues() {
    let nrow = 3;
    let ncol = 3;
    let (mut horizontal, mut vertical) = batch_grid();
    let before_residue = edge_residues(&horizontal, &vertical, nrow, ncol);
    let before_objective = objective(&horizontal, &vertical);
    let tree = {
        let view = CompactResidualView::new(&horizontal, &vertical, nrow, ncol);
        spanning_tree_arc_indices_compact(&view)
    };

    let applied = optimize_large_tree_cycles(&mut horizontal, &mut vertical, nrow, ncol, 1, 8, 5, tree);

    assert!(applied >= 1 && applied <= 8);
    assert_eq!(edge_residues(&horizontal, &vertical, nrow, ncol), before_residue);
    assert!(objective(&horizontal, &vertical) < before_objective);
}

#[test]
fn large_tree_optimizer_takes_batches_on_large_graphs() {
    let nrow = 3;
    let ncol = 3;
    let (mut horizontal, mut vertical) = batch_grid();
    let before_residue = edge_residues(&horizontal, &vertical, nrow, ncol);
    let before_objective = objective(&horizontal, &vertical);
    let tree = {
        let view = CompactResidualView::new(&horizontal, &vertical, nrow, ncol);
        spanning_tree_arc_indices_compact(&view)
    };

    let applied = optimize_large_tree_cycles(&mut horizontal, &mut vertical, nrow, ncol, 1, 3, 10_000, tree);

    assert!(applied >= 1 && applied <= 3);
    assert_eq!(edge_residues(&horizontal, &vertical, nrow, ncol), before_residue);
    assert!(objective(&horizontal, &vertical) < before_objective);
}

#[test]
fn large_tree_optimizer_applies_nothing_without_budget() {
    let nrow = 3;
    let ncol = 3;
    let (mut horizontal, mut vertical) = batch_grid();
    let before = (horizontal.clone(), vertical.clone());
    let tree = {
        let view = CompactResidualView::new(&horizontal, &vertical, nrow, ncol);
        spanning_tree_arc_indices_compact(&view)
    };

    assert_eq!(optimize_large_tree_cycles(&mut horizontal, &mut vertical, nrow, ncol, 1, 0, 5, tree), 0);
    assert_eq!((horizontal, vertical), before);
}
