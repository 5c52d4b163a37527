use stamps_native::edges::{horizontal_index, vertical_index, EdgeDatum};
use stamps_native::route::{
    apply_route_step, compute_boundary_routes_for_amount, plaquette_curl, plaquette_index,
    route_residue_to_boundary, ROUTE_LEFT, ROUTE_NONE, ROUTE_RIGHT, ROUTE_UP,
};

fn edge(cost: i32, laycost: i32, flow_sign: i32) -> EdgeDatum {
    EdgeDatum {
        cost,
        desired_delta: 0,
        offset: 0,
        dzmax: 32000,
        laycost,
        nshortcycle: 200,
        flow_sign,
        flow: 0,
    }
}

#[test]
fn boundary_routes_use_defo_increment_costs() {
    let nrow = 2;
    let ncol = 3;
    let mut horizontal = vec![None; nrow * (ncol - 1)];
    let mut vertical = vec![None; (nrow - 1) * ncol];
    horizontal[horizontal_index(0, 0, ncol)] = Some(edge(1000, -32000, 1));
    vertical[vertical_index(0, 0, ncol)] = Some(edge(1, 1, -1));

    let routes = compute_boundary_routes_for_amount(&horizontal, &vertical, nrow, ncol, 1);

    assert_eq!(routes[plaquette_index(0, 0, ncol)], ROUTE_LEFT);
}

#[test]
fn plaquette_without_boundary_edges_has_no_route() {
    let nrow = 2;
    let ncol = 3;
    let mut horizontal = vec![None; nrow * (ncol - 1)];
    let vertical = vec![None; (nrow - 1) * ncol];
    horizontal[horizontal_index(0, 0, ncol)] = Some(edge(1000, -32000, 1));

    let routes = compute_boundary_routes_for_amount(&horizontal, &vertical, nrow, ncol, 1);

    assert_eq!(routes, vec![ROUTE_UP, ROUTE_NONE]);
}

#[test]
fn route_step_up_corrects_the_top_edge_and_leaves_the_grid() {
    let nrow = 2;
    let ncol = 2;
    let mut horizontal = vec![Some(edge(1000, -32000, 1)); nrow * (ncol - 1)];
    let mut vertical = vec![Some(edge(1000, -32000, 1)); (nrow - 1) * ncol];

    let next = apply_route_step(&mut horizontal, &mut vertical, nrow, ncol, 0, 0, ROUTE_UP, 2);

    assert_eq!(next, None);
    assert_eq!(horizontal[0].unwrap().desired_delta, -2);
    assert_eq!(horizontal[0].unwrap().flow, -2);
    assert_eq!(horizontal[1].unwrap().desired_delta, 0);
}

#[test]
fn plaquette_curl_sums_the_four_edges() {
    let nrow = 2;
    let ncol = 2;
    let mut horizontal = vec![Some(edge(1000, -32000, 1)); nrow * (ncol - 1)];
    let mut vertical = vec![Some(edge(1000, -32000, 1)); (nrow - 1) * ncol];
    horizontal[0].as_mut().unwrap().desired_delta = 3;
    vertical[1].as_mut().unwrap().desired_delta = 2;
    horizontal[1].as_mut().unwrap().desired_delta = 1;
    vertical[0].as_mut().unwrap().desired_delta = 4;

    assert_eq!(plaquette_curl(&horizontal, &vertical, ncol, 0, 0), Some(0));
    vertical[0] = None;
    assert_eq!(plaquette_curl(&horizontal, &vertical, ncol, 0, 0), None);
}

#[test]
fn routing_clears_a_single_residue_through_the_boundary() {
    let nrow = 2;
    let ncol = 2;
    let mut horizontal = vec![Some(edge(1000, -32000, 1)); nrow * (ncol - 1)];
    let mut vertical = vec![Some(edge(1000, -32000, 1)); (nrow - 1) * ncol];
    horizontal[0].as_mut().unwrap().desired_delta = 1;

    route_residue_to_boundary(&mut horizontal, &mut vertical, nrow, ncol);

    assert_eq!(plaquette_curl(&horizontal, &vertical, ncol, 0, 0), Some(0));
}

#[test]
fn boundary_route_takes_two_cheap_steps_over_one_dear_exit() {
    let nrow = 2;
    let ncol = 4;
    let mut horizontal = vec![None; nrow * (ncol - 1)];
    let mut vertical = vec![None; (nrow - 1) * ncol];
    horizontal[horizontal_index(0, 0, ncol)] = Some(edge(1000, -32000, 1));
    vertical[vertical_index(0, 0, ncol)] = Some(edge(1000, -32000, 1));
    vertical[vertical_index(0, 1, ncol)] = Some(edge(1, 1, -1));
    horizontal[horizontal_index(0, 1, ncol)] = Some(edge(1, 1, -1));

    let routes = compute_boundary_routes_for_amount(&horizontal, &vertical, nrow, ncol, 1);

    assert_eq!(routes, vec![ROUTE_RIGHT, ROUTE_UP, ROUTE_NONE]);
}
