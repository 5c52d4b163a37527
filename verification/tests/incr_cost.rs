use stamps_native::edges::EdgeDatum;
use stamps_native::incr_cost::{defo_incremental_costs, scale_increment, IncrementalCost};

fn edge(cost: i32, flow: i32) -> EdgeDatum {
    EdgeDatum {
        cost,
        desired_delta: 0,
        offset: 0,
        dzmax: 32000,
        laycost: -32000,
        nshortcycle: 200,
        flow_sign: 1,
        flow,
    }
}

fn shelf_edge(flow: i32) -> EdgeDatum {
    EdgeDatum {
        cost: 1,
        desired_delta: 0,
        offset: -1000,
        dzmax: 1000,
        laycost: 1,
        nshortcycle: 200,
        flow_sign: 1,
        flow,
    }
}

#[test]
fn defo_incremental_costs_match_snaphu_unit_increments() {
    assert_eq!(
        defo_incremental_costs(edge(1000, 0), 1),
        IncrementalCost { pos: 40, neg: 40 }
    );
}

#[test]
fn defo_incremental_costs_can_be_negative_around_existing_flow() {
    assert_eq!(
        defo_incremental_costs(edge(1000, 1), 1),
        IncrementalCost { pos: 120, neg: -40 }
    );
}

#[test]
fn defo_incremental_costs_scale_by_flow_increment_squared() {
    assert_eq!(
        defo_incremental_costs(edge(1000, 0), 2),
        IncrementalCost { pos: 40, neg: 40 }
    );
}

#[test]
fn defo_incremental_costs_clip_to_short_range() {
    assert_eq!(
        defo_incremental_costs(edge(1, 0), 1),
        IncrementalCost {
            pos: 32000,
            neg: 32000
        }
    );
}

#[test]
fn negative_scaled_increment_uses_floor_division() {
    assert_eq!(defo_incremental_costs(shelf_edge(7), 2).neg, -1);
}

#[test]
fn scale_increment_divides_by_the_square_of_the_step() {
    assert_eq!(scale_increment(400, 2), 100);
    assert_eq!(scale_increment(-5, 2), -2);
    assert_eq!(scale_increment(1_000_000, 1), 32000);
    assert_eq!(scale_increment(-1_000_000, 1), -32000);
}
