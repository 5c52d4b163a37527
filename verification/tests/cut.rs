use stamps_native::cut::{
    add_edge_terms, add_pair, add_unary, add_unary_delta, cell_delta, local_index, window_energy,
    CutArc, CutGraph,
};
use stamps_native::edges::EdgeDatum;

fn quadratic_edge() -> EdgeDatum {
    EdgeDatum {
        cost: 1000,
        desired_delta: 0,
        offset: 0,
        dzmax: 32000,
        laycost: -32000,
        nshortcycle: 200,
        flow_sign: 1,
        flow: 0,
    }
}

#[test]
fn unary_term_charges_the_dearer_side_only() {
    let mut graph = CutGraph::new();
    add_unary(&mut graph, 10, 11, 3, 7, 4);
    assert_eq!(
        graph.arcs,
        vec![
            CutArc { from: 10, to: 3, capacity: 0, pairwise: false },
            CutArc { from: 3, to: 11, capacity: 3, pairwise: false },
        ]
    );
    add_unary_delta(&mut graph, 10, 11, 5, 6);
    assert_eq!(graph.arcs[2], CutArc { from: 10, to: 5, capacity: 6, pairwise: false });
    assert_eq!(graph.arcs[3], CutArc { from: 5, to: 11, capacity: 0, pairwise: false });
}

#[test]
fn pair_term_adds_unary_parts_and_a_cut_arc() {
    let mut graph = CutGraph::new();
    add_pair(&mut graph, 8, 9, 0, 1, [0, 5, 5, 0]);
    assert_eq!(graph.arcs.len(), 5);
    assert_eq!(graph.arcs[0], CutArc { from: 8, to: 0, capacity: 0, pairwise: false });
    assert_eq!(graph.arcs[4], CutArc { from: 0, to: 1, capacity: 10, pairwise: true });
}

#[test]
fn pair_term_with_negative_coupling_is_left_out() {
    let mut graph = CutGraph::new();
    add_pair(&mut graph, 8, 9, 0, 1, [5, 0, 0, 5]);
    assert!(graph.arcs.is_empty());
}

#[test]
fn window_cells_are_indexed_row_by_row() {
    assert_eq!(local_index(4, 7, 3, 5, 4), 6);
    let selected = [false, true, false, false];
    let patch = (2, 3, 2, 2);
    assert_eq!(cell_delta(Some(&selected), 2, 4, patch, 5), 5);
    assert_eq!(cell_delta(Some(&selected), 2, 3, patch, 5), 0);
    assert_eq!(cell_delta(Some(&selected), 9, 9, patch, 5), 0);
    assert_eq!(cell_delta(None, 2, 4, patch, 5), 0);
}

#[test]
fn window_energy_counts_the_edges_touching_the_window() {
    let nrow = 2;
    let ncol = 3;
    let labels = vec![0; nrow * ncol];
    let horizontal = vec![Some(quadratic_edge()); nrow * (ncol - 1)];
    let vertical = vec![Some(quadratic_edge()); (nrow - 1) * ncol];
    let patch = (0, 1, 1, 1);

    let before = window_energy(&labels, None, &horizontal, &vertical, nrow, ncol, patch, 1);
    let selected = [true];
    let after = window_energy(&labels, Some(&selected[..]), &horizontal, &vertical, nrow, ncol, patch, 1);

    assert_eq!(before, 0);
    assert_eq!(after, 120);
}

#[test]
fn edge_inside_the_window_becomes_a_pair_term() {
    let labels = vec![0, 0, 0];
    let mut graph = CutGraph::new();

    add_edge_terms(&mut graph, &labels, 2, 3, quadratic_edge(), (0, 0), (0, 1), (0, 0, 1, 2), 3, 1);

    assert_eq!(
        graph.arcs,
        vec![
            CutArc { from: 2, to: 0, capacity: 0, pairwise: false },
            CutArc { from: 0, to: 3, capacity: 0, pairwise: false },
            CutArc { from: 2, to: 1, capacity: 0, pairwise: false },
            CutArc { from: 1, to: 3, capacity: 0, pairwise: false },
            CutArc { from: 0, to: 1, capacity: 80, pairwise: true },
        ]
    );
}

#[test]
fn edge_leaving_the_window_becomes_a_unary_term() {
    let labels = vec![0, 0, 0];
    let mut graph = CutGraph::new();

    add_edge_terms(&mut graph, &labels, 2, 3, quadratic_edge(), (0, 0), (0, 1), (0, 0, 1, 1), 3, 1);
    add_edge_terms(&mut graph, &labels, 2, 3, quadratic_edge(), (0, 1), (0, 2), (0, 0, 1, 1), 3, 1);

    assert_eq!(
        graph.arcs,
        vec![
            CutArc { from: 2, to: 0, capacity: 80, pairwise: false },
            CutArc { from: 0, to: 3, capacity: 0, pairwise: false },
        ]
    );
}
