use stamps_native::edges::EdgeDatum;
use stamps_native::pair_route::route_path;
use stamps_native::route::{ROUTE_DOWN, ROUTE_RIGHT, ROUTE_UP};

fn free_edge() -> EdgeDatum {
    EdgeDatum {
        cost: 32000,
        desired_delta: 0,
        offset: 0,
        dzmax: 32000,
        laycost: -32000,
        nshortcycle: 1,
        flow_sign: 1,
        flow: 0,
    }
}

fn priced_edge() -> EdgeDatum {
    EdgeDatum { cost: 1, ..free_edge() }
}

#[test]
fn route_between_plaquettes_prefers_the_first_cheapest_l_shape() {
    let nrow = 3;
    let ncol = 3;
    let horizontal = vec![Some(free_edge()); nrow * (ncol - 1)];
    let vertical = vec![Some(free_edge()); (nrow - 1) * ncol];

    let route = route_path(&horizontal, &vertical, nrow, ncol, (0, 0), (1, 1), 1);

    assert_eq!(route, Some((0, vec![ROUTE_RIGHT, ROUTE_DOWN])));
}

#[test]
fn route_between_plaquettes_detours_around_a_costly_edge() {
    let nrow = 4;
    let ncol = 4;
    let horizontal = vec![Some(free_edge()); nrow * (ncol - 1)];
    let mut vertical = vec![Some(free_edge()); (nrow - 1) * ncol];
    vertical[5] = Some(priced_edge());

    let route = route_path(&horizontal, &vertical, nrow, ncol, (1, 0), (1, 1), 1);

    assert_eq!(route, Some((0, vec![ROUTE_UP, ROUTE_RIGHT, ROUTE_DOWN])));
}

#[test]
fn route_cost_is_the_sum_of_the_step_cost_changes() {
    let nrow = 4;
    let ncol = 4;
    let horizontal = vec![Some(priced_edge()); nrow * (ncol - 1)];
    let vertical = vec![Some(priced_edge()); (nrow - 1) * ncol];

    let route = route_path(&horizontal, &vertical, nrow, ncol, (0, 0), (2, 1), 1);

    assert_eq!(route, Some((3, vec![ROUTE_RIGHT, ROUTE_DOWN, ROUTE_DOWN])));
}

#[test]
fn route_between_plaquettes_fails_through_absent_edges() {
    let nrow = 2;
    let ncol = 4;
    let horizontal = vec![Some(free_edge()); nrow * (ncol - 1)];
    let mut vertical = vec![Some(free_edge()); (nrow - 1) * ncol];
    vertical[1] = None;

    let route = route_path(&horizontal, &vertical, nrow, ncol, (0, 0), (0, 2), 1);

    assert_eq!(route, None);
}
