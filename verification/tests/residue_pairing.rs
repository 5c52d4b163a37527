use stamps_native::edges::EdgeDatum;
use stamps_native::residue_pairing::{
    apply_pair_steps, balance_local_curl, balance_plaquette, candidate_order, carry_step,
    collect_local_pairs, pair_global_residues, pair_neighbor_residues, PairCandidate,
};
use stamps_native::route::{plaquette_curl, ROUTE_DOWN, ROUTE_RIGHT, ROUTE_UP};

fn free_edge() -> EdgeDatum {
    EdgeDatum {
        cost: 32000,
        desired_delta: 0,
        offset: 0,
        dzmax: 32000,
        laycost: -32000,
        nshortcycle: 1,
        flow_sign: 1,
        flow: 0,
    }
}

fn with_cost(cost: i32) -> EdgeDatum {
    EdgeDatum { cost, ..free_edge() }
}

fn curls(h: &[Option<EdgeDatum>], v: &[Option<EdgeDatum>], nrow: usize, ncol: usize) -> Vec<i32> {
    let mut out = Vec::new();
    for row in 0..nrow - 1 {
        for col in 0..ncol - 1 {
            out.push(plaquette_curl(h, v, ncol, row, col).unwrap());
        }
    }
    out
}

fn total(values: &[i32]) -> i32 {
    values.iter().map(|x| x.abs()).sum()
}

#[test]
fn neighbouring_opposite_residues_cancel_across_their_shared_edge() {
    let nrow = 2;
    let ncol = 3;
    let mut horizontal = vec![Some(free_edge()); nrow * (ncol - 1)];
    let mut vertical = vec![Some(free_edge()); (nrow - 1) * ncol];
    vertical[1].as_mut().unwrap().desired_delta = 1;
    assert_eq!(curls(&horizontal, &vertical, nrow, ncol), vec![1, -1]);

    pair_neighbor_residues(&mut horizontal, &mut vertical, nrow, ncol);

    assert_eq!(vertical[1].unwrap().desired_delta, 0);
    assert_eq!(vertical[1].unwrap().flow, -1);
    assert_eq!(curls(&horizontal, &vertical, nrow, ncol), vec![0, 0]);
}

#[test]
fn distant_opposite_residues_meet_along_a_route() {
    let nrow = 2;
    let ncol = 4;
    let mut horizontal = vec![Some(free_edge()); nrow * (ncol - 1)];
    let mut vertical = vec![Some(free_edge()); (nrow - 1) * ncol];
    horizontal[0].as_mut().unwrap().desired_delta = 1;
    horizontal[2].as_mut().unwrap().desired_delta = -1;
    assert_eq!(curls(&horizontal, &vertical, nrow, ncol), vec![1, 0, -1]);

    let changed = pair_global_residues(&mut horizontal, &mut vertical, nrow, ncol);

    assert!(changed);
    assert_eq!(vertical[1].unwrap().desired_delta, -1);
    assert_eq!(vertical[2].unwrap().desired_delta, -1);
    assert_eq!(curls(&horizontal, &vertical, nrow, ncol), vec![0, 0, 0]);
}

#[test]
fn pairing_rounds_clear_distant_residues() {
    let nrow = 2;
    let ncol = 4;
    let mut horizontal = vec![Some(free_edge()); nrow * (ncol - 1)];
    let mut vertical = vec![Some(free_edge()); (nrow - 1) * ncol];
    horizontal[0].as_mut().unwrap().desired_delta = 1;
    horizontal[2].as_mut().unwrap().desired_delta = -1;

    pair_neighbor_residues(&mut horizontal, &mut vertical, nrow, ncol);

    assert_eq!(curls(&horizontal, &vertical, nrow, ncol), vec![0, 0, 0]);
    assert_eq!(vertical[1].unwrap().flow, -1);
    assert_eq!(vertical[2].unwrap().flow, -1);
}

#[test]
fn pairing_without_opposite_residues_changes_nothing() {
    let nrow = 2;
    let ncol = 4;
    let mut horizontal = vec![Some(free_edge()); nrow * (ncol - 1)];
    let mut vertical = vec![Some(free_edge()); (nrow - 1) * ncol];
    horizontal[0].as_mut().unwrap().desired_delta = 1;
    horizontal[2].as_mut().unwrap().desired_delta = 2;
    let before = (horizontal.clone(), vertical.clone());

    let changed = pair_global_residues(&mut horizontal, &mut vertical, nrow, ncol);
    pair_neighbor_residues(&mut horizontal, &mut vertical, nrow, ncol);

    assert!(!changed);
    assert_eq!((horizontal, vertical), before);
}

#[test]
fn local_pair_candidates_record_route_costs() {
    let nrow = 2;
    let ncol = 4;
    let mut horizontal = vec![Some(with_cost(1)); nrow * (ncol - 1)];
    let vertical = vec![Some(with_cost(1)); (nrow - 1) * ncol];
    horizontal[0].as_mut().unwrap().desired_delta = 1;
    horizontal[2].as_mut().unwrap().desired_delta = -1;
    let mut candidates = Vec::new();

    collect_local_pairs(&horizontal, &vertical, nrow, ncol, (0, 0), &mut candidates);

    assert_eq!(
        candidates,
        vec![PairCandidate { cost: 2, source: (0, 0), target: (0, 2) }]
    );
}

#[test]
fn candidates_are_tried_cheapest_first_keeping_ties_in_order() {
    let candidate = |cost: i128| PairCandidate { cost, source: (0, 0), target: (0, 1) };
    let candidates = vec![candidate(5), candidate(3), candidate(5), candidate(1)];

    assert_eq!(candidate_order(&candidates), vec![3, 1, 0, 2]);
}

#[test]
fn pair_steps_correct_each_crossed_edge() {
    let nrow = 3;
    let ncol = 3;
    let mut horizontal = vec![Some(free_edge()); nrow * (ncol - 1)];
    let mut vertical = vec![Some(free_edge()); (nrow - 1) * ncol];

    apply_pair_steps(&mut horizontal, &mut vertical, nrow, ncol, (0, 0), &[ROUTE_RIGHT, 7, ROUTE_DOWN], 2);

    assert_eq!(vertical[1].unwrap().desired_delta, -2);
    assert_eq!(horizontal[3].unwrap().desired_delta, 2);
    assert_eq!(horizontal[3].unwrap().flow, 2);
    assert_eq!(curls(&horizontal, &vertical, nrow, ncol), vec![-2, 0, 0, 2]);
}

#[test]
fn pair_steps_stop_at_the_grid_boundary() {
    let nrow = 3;
    let ncol = 3;
    let mut horizontal = vec![Some(free_edge()); nrow * (ncol - 1)];
    let mut vertical = vec![Some(free_edge()); (nrow - 1) * ncol];
    let before = (horizontal.clone(), vertical.clone());

    apply_pair_steps(&mut horizontal, &mut vertical, nrow, ncol, (0, 0), &[ROUTE_UP, ROUTE_RIGHT], 1);

    assert_eq!((horizontal, vertical), before);
}

#[test]
fn a_step_through_the_boundary_carries_residue_out_of_the_grid() {
    let nrow = 2;
    let ncol = 2;
    let mut horizontal = vec![Some(free_edge()); nrow * (ncol - 1)];
    let mut vertical = vec![Some(free_edge()); (nrow - 1) * ncol];
    horizontal[0].as_mut().unwrap().desired_delta = 3;

    let applied = carry_step(&mut horizontal, &mut vertical, nrow, ncol, (0, 0), ROUTE_UP, 3);

    assert!(applied);
    assert_eq!(horizontal[0].unwrap().desired_delta, 0);
    assert_eq!(curls(&horizontal, &vertical, nrow, ncol), vec![0]);
}

#[test]
fn balance_sends_a_residue_across_its_lightest_edge() {
    let nrow = 2;
    let ncol = 2;
    let mut horizontal = vec![Some(with_cost(5)), Some(with_cost(3))];
    let mut vertical = vec![Some(with_cost(9)), Some(with_cost(-9))];
    horizontal[0].as_mut().unwrap().desired_delta = 2;

    let applied = balance_plaquette(&mut horizontal, &mut vertical, nrow, ncol, (0, 0));

    assert!(applied);
    assert_eq!(vertical[1].unwrap().desired_delta, -2);
    assert_eq!(vertical[0].unwrap().desired_delta, 0);
    assert_eq!(curls(&horizontal, &vertical, nrow, ncol), vec![0]);
}

#[test]
fn local_balancing_clears_every_readable_residue_without_growing_the_total() {
    let nrow = 3;
    let ncol = 4;
    let mut horizontal = vec![Some(with_cost(4)); nrow * (ncol - 1)];
    let mut vertical = vec![Some(with_cost(4)); (nrow - 1) * ncol];
    horizontal[0].as_mut().unwrap().desired_delta = 2;
    horizontal[4].as_mut().unwrap().desired_delta = -1;
    vertical[6].as_mut().unwrap().desired_delta = 1;
    let before = total(&curls(&horizontal, &vertical, nrow, ncol));

    balance_local_curl(&mut horizontal, &mut vertical, nrow, ncol);

    let after = curls(&horizontal, &vertical, nrow, ncol);
    assert!(total(&after) <= before);
    assert_eq!(after, vec![0; 6]);
}
