//! Short routes between two plaquettes of the grid: the two L-shaped routes
//! and, when both plaquettes share a row or a column, U-shaped detours around
//! it. Every route is priced step by step with the edge cost model on the
//! edges as they stand, and the cheapest candidate is kept.
use vstd::prelude::*;
use crate::edges::{edge_cost_at, edge_increment_cost, horizontal_index, vertical_index, EdgeDatum};
use crate::residual::grid_ok;
use crate::route::{
    lemma_index_bounds, route_cost_in_range, route_cost_ok, step_delta, ROUTE_DOWN, ROUTE_LEFT,
    ROUTE_RIGHT, ROUTE_UP,
};

verus! {

/// How far a detour may leave the shared row or column.
pub const DETOUR_MARGIN: usize = 16;

pub open spec fn in_i128(x: int) -> bool {
    i128::MIN <= x <= i128::MAX
}

/// A plaquette position as a pair of integers.
pub open spec fn at(p: (usize, usize)) -> (int, int) {
    (p.0 as int, p.1 as int)
}

/// The plaquette reached by a step in direction `d` from `pos`, when it stays
/// inside the `(nrow - 1)` by `(ncol - 1)` plaquette grid.
pub open spec fn step_target(nrow: int, ncol: int, pos: (int, int), d: u8) -> Option<(int, int)> {
    if d == ROUTE_UP && pos.0 > 0 {
        Some((pos.0 - 1, pos.1))
    } else if d == ROUTE_RIGHT && pos.1 + 1 < ncol - 1 {
        Some((pos.0, pos.1 + 1))
    } else if d == ROUTE_DOWN && pos.0 + 1 < nrow - 1 {
        Some((pos.0 + 1, pos.1))
    } else if d == ROUTE_LEFT && pos.1 > 0 {
        Some((pos.0, pos.1 - 1))
    } else {
        None
    }
}

/// The edge that a step in direction `d` from plaquette `pos` crosses: its
/// family (`true` for the horizontal array) and slot.
pub open spec fn step_slot(ncol: int, pos: (int, int), d: u8) -> (bool, int) {
    if d == ROUTE_UP {
        (true, pos.0 * (ncol - 1) + pos.1)
    } else if d == ROUTE_RIGHT {
        (false, pos.0 * ncol + pos.1 + 1)
    } else if d == ROUTE_DOWN {
        (true, (pos.0 + 1) * (ncol - 1) + pos.1)
    } else {
        (false, pos.0 * ncol + pos.1)
    }
}

pub open spec fn step_edge(
    h: Seq<Option<EdgeDatum>>,
    v: Seq<Option<EdgeDatum>>,
    ncol: int,
    pos: (int, int),
    d: u8,
) -> Option<EdgeDatum> {
    let s = step_slot(ncol, pos, d);
    if s.0 {
        h[s.1]
    } else {
        v[s.1]
    }
}

/// Change of the cost of edge `e` when a step in direction `d` carries
/// `amount` across it.
pub open spec fn step_cost(e: EdgeDatum, d: u8, amount: int) -> int {
    edge_cost_at(e, e.flow + e.flow_sign * step_delta(d, amount)) - edge_cost_at(e, e.flow as int)
}

/// One priced step from `pos` with running cost `cost`: the plaquette reached
/// and the new running cost. `None` when the step leaves the plaquette grid,
/// crosses an absent edge, cannot be priced within machine range, or takes the
/// running cost out of `i128`.
pub open spec fn walk_step(
    h: Seq<Option<EdgeDatum>>,
    v: Seq<Option<EdgeDatum>>,
    nrow: int,
    ncol: int,
    pos: (int, int),
    cost: int,
    d: u8,
    amount: int,
) -> Option<((int, int), int)> {
    match step_target(nrow, ncol, pos, d) {
        Some(next) => match step_edge(h, v, ncol, pos, d) {
            Some(e) => if route_cost_ok(e, step_delta(d, amount)) && in_i128(
                cost + step_cost(e, d, amount),
            ) {
                Some((next, cost + step_cost(e, d, amount)))
            } else {
                None
            },
            None => None,
        },
        None => None,
    }
}

/// The steps taken one after another from `start` with running cost `cost`:
/// the plaquette reached and the total cost, or `None` when a step fails.
pub open spec fn walk(
    h: Seq<Option<EdgeDatum>>,
    v: Seq<Option<EdgeDatum>>,
    nrow: int,
    ncol: int,
    start: (int, int),
    cost: int,
    steps: Seq<u8>,
    amount: int,
) -> Option<((int, int), int)>
    decreases steps.len(),
{
    if steps.len() == 0 {
        Some((start, cost))
    } else {
        match walk(h, v, nrow, ncol, start, cost, steps.drop_last(), amount) {
            Some((p, c)) => walk_step(h, v, nrow, ncol, p, c, steps.last(), amount),
            None => None,
        }
    }
}

/// `n` steps in direction `d`.
pub open spec fn run(d: u8, n: int) -> Seq<u8> {
    Seq::new(n as nat, |i: int| d)
}

pub open spec fn abs_diff(a: int, b: int) -> int {
    if a < b {
        b - a
    } else {
        a - b
    }
}

/// The steps of a straight segment from `from` to `to`: the row moves and the
/// column moves, the row moves first when `vertical_first`.
pub open spec fn seg_steps(from: (int, int), to: (int, int), vertical_first: bool) -> Seq<u8> {
    let rows = run(if to.0 < from.0 { ROUTE_UP } else { ROUTE_DOWN }, abs_diff(from.0, to.0));
    let cols = run(if to.1 < from.1 { ROUTE_LEFT } else { ROUTE_RIGHT }, abs_diff(from.1, to.1));
    if vertical_first {
        rows + cols
    } else {
        cols + rows
    }
}

/// Steps before a walk's result.
pub open spec fn prepend(
    s: Seq<u8>,
    r: Option<((int, int), int, Seq<u8>)>,
) -> Option<((int, int), int, Seq<u8>)> {
    match r {
        Some((e, c, rest)) => Some((e, c, s + rest)),
        None => None,
    }
}

/// A route through the waypoints `points` from `pos`: each straight segment
/// starts where the previous one ended. The end, the total cost and the steps,
/// or `None` when a step fails.
pub open spec fn route_plan(
    h: Seq<Option<EdgeDatum>>,
    v: Seq<Option<EdgeDatum>>,
    nrow: int,
    ncol: int,
    pos: (int, int),
    cost: int,
    points: Seq<(int, int)>,
    vertical_first: bool,
    amount: int,
) -> Option<((int, int), int, Seq<u8>)>
    decreases points.len(),
{
    if points.len() == 0 {
        Some((pos, cost, Seq::empty()))
    } else {
        let seg = seg_steps(pos, points[0], vertical_first);
        match walk(h, v, nrow, ncol, pos, cost, seg, amount) {
            Some((q, c)) => prepend(
                seg,
                route_plan(h, v, nrow, ncol, q, c, points.drop_first(), vertical_first, amount),
            ),
            None => None,
        }
    }
}

/// Walking `s` then `t` is walking `s + t`.
pub proof fn lemma_walk_concat(
    h: Seq<Option<EdgeDatum>>,
    v: Seq<Option<EdgeDatum>>,
    nrow: int,
    ncol: int,
    start: (int, int),
    cost: int,
    s: Seq<u8>,
    t: Seq<u8>,
    amount: int,
)
    ensures
        walk(h, v, nrow, ncol, start, cost, s + t, amount) == match walk(
            h,
            v,
            nrow,
            ncol,
            start,
            cost,
            s,
            amount,
        ) {
            Some((p, c)) => walk(h, v, nrow, ncol, p, c, t, amount),
            None => None,
        },
    decreases t.len(),
{
    if t.len() == 0 {
        assert(s + t =~= s);
    } else {
        lemma_walk_concat(h, v, nrow, ncol, start, cost, s, t.drop_last(), amount);
        assert((s + t).drop_last() =~= s + t.drop_last());
        assert((s + t).last() == t.last());
    }
}

/// Walking one more step.
pub proof fn lemma_walk_push(
    h: Seq<Option<EdgeDatum>>,
    v: Seq<Option<EdgeDatum>>,
    nrow: int,
    ncol: int,
    start: (int, int),
    cost: int,
    s: Seq<u8>,
    d: u8,
    amount: int,
)
    ensures
        walk(h, v, nrow, ncol, start, cost, s.push(d), amount) == match walk(
            h,
            v,
            nrow,
            ncol,
            start,
            cost,
            s,
            amount,
        ) {
            Some((p, c)) => walk_step(h, v, nrow, ncol, p, c, d, amount),
            None => None,
        },
{
    assert(s.push(d).drop_last() =~= s);
}

/// Prices the step `step` from plaquette `(row, col)`, adds its cost to
/// `cost`, records it in `steps` and moves to the plaquette reached. Returns
/// `false`, changing nothing, when the step fails (see `walk_step`).
fn push_step_cost(
    horizontal: &[Option<EdgeDatum>],
    vertical: &[Option<EdgeDatum>],
    nrow: usize,
    ncol: usize,
    row: &mut usize,
    col: &mut usize,
    step: u8,
    signed_amount: i32,
    steps: &mut Vec<u8>,
    cost: &mut i128,
) -> (ok: bool)
    requires
        grid_ok(horizontal@, vertical@, nrow as int, ncol as int),
        nrow >= 2,
        ncol >= 2,
        *old(row) < nrow - 1,
        *old(col) < ncol - 1,
        signed_amount != i32::MIN,
    ensures
        ok == walk_step(
            horizontal@,
            vertical@,
            nrow as int,
            ncol as int,
            (*old(row) as int, *old(col) as int),
            *old(cost) as int,
            step,
            signed_amount as int,
        ) is Some,
        ok ==> walk_step(
            horizontal@,
            vertical@,
            nrow as int,
            ncol as int,
            (*old(row) as int, *old(col) as int),
            *old(cost) as int,
            step,
            signed_amount as int,
        ) == Some(((*final(row) as int, *final(col) as int), *final(cost) as int)),
        ok ==> final(steps)@ == old(steps)@.push(step),
        !ok ==> *final(row) == *old(row) && *final(col) == *old(col) && *final(cost) == *old(cost)
            && final(steps)@ == old(steps)@,
        *final(row) < nrow - 1,
        *final(col) < ncol - 1,
{
    let r = *row;
    let c = *col;
    let pcn = ncol - 1;
    let hl = horizontal.len();
    let vl = vertical.len();
    proof {
        lemma_index_bounds(r as int, c as int, nrow as int, pcn as int);
        lemma_index_bounds(r + 1, c as int, nrow as int, pcn as int);
        lemma_index_bounds(r as int, c as int, nrow - 1, ncol as int);
        lemma_index_bounds(r as int, c + 1, nrow - 1, ncol as int);
    }
    let edge = if step == ROUTE_UP && r > 0 {
        horizontal[horizontal_index(r, c, ncol)]
    } else if step == ROUTE_RIGHT && c + 1 < ncol - 1 {
        vertical[vertical_index(r, c + 1, ncol)]
    } else if step == ROUTE_DOWN && r + 1 < nrow - 1 {
        horizontal[horizontal_index(r + 1, c, ncol)]
    } else if step == ROUTE_LEFT && c > 0 {
        vertical[vertical_index(r, c, ncol)]
    } else {
        return false;
    };
    let e = match edge {
        Some(e) => e,
        None => {
            return false;
        },
    };
    let delta = if step == ROUTE_UP || step == ROUTE_RIGHT {
        -signed_amount
    } else {
        signed_amount
    };
    if !route_cost_in_range(e, delta) {
        return false;
    }
    let inc = edge_increment_cost(e, delta) as i128;
    let total = *cost;
    if (inc > 0 && total > i128::MAX - inc) || (inc < 0 && total < i128::MIN - inc) {
        return false;
    }
    *cost = total + inc;
    if step == ROUTE_UP {
        *row = r - 1;
    } else if step == ROUTE_RIGHT {
        *col = c + 1;
    } else if step == ROUTE_DOWN {
        *row = r + 1;
    } else {
        *col = c - 1;
    }
    steps.push(step);
    true
}

/// Takes `count` steps in direction `step`; see `push_step_cost`. Returns
/// whether all of them succeeded.
fn push_run(
    horizontal: &[Option<EdgeDatum>],
    vertical: &[Option<EdgeDatum>],
    nrow: usize,
    ncol: usize,
    from: &mut (usize, usize),
    step: u8,
    count: usize,
    signed_amount: i32,
    steps: &mut Vec<u8>,
    cost: &mut i128,
) -> (ok: bool)
    requires
        grid_ok(horizontal@, vertical@, nrow as int, ncol as int),
        nrow >= 2,
        ncol >= 2,
        old(from).0 < nrow - 1,
        old(from).1 < ncol - 1,
        signed_amount != i32::MIN,
    ensures
        ok == walk(
            horizontal@,
            vertical@,
            nrow as int,
            ncol as int,
            at(*old(from)),
            *old(cost) as int,
            run(step, count as int),
            signed_amount as int,
        ) is Some,
        ok ==> walk(
            horizontal@,
            vertical@,
            nrow as int,
            ncol as int,
            at(*old(from)),
            *old(cost) as int,
            run(step, count as int),
            signed_amount as int,
        ) == Some((at(*final(from)), *final(cost) as int)),
        ok ==> final(steps)@ == old(steps)@ + run(step, count as int),
        final(from).0 < nrow - 1,
        final(from).1 < ncol - 1,
{
    let ghost h = horizontal@;
    let ghost v = vertical@;
    let ghost start = at(*from);
    let ghost c0 = *cost as int;
    let ghost s0 = steps@;
    let ghost a = signed_amount as int;
    let mut i: usize = 0;
    while i < count
        invariant
            i <= count,
            grid_ok(h, v, nrow as int, ncol as int),
            h == horizontal@,
            v == vertical@,
            nrow >= 2,
            ncol >= 2,
            from.0 < nrow - 1,
            from.1 < ncol - 1,
            signed_amount != i32::MIN,
            a == signed_amount as int,
            start == at(*old(from)),
            c0 == *old(cost) as int,
            s0 == old(steps)@,
            walk(h, v, nrow as int, ncol as int, start, c0, run(step, i as int), a) == Some(
                (at(*from), *cost as int),
            ),
            steps@ == s0 + run(step, i as int),
        decreases count - i,
    {
        let ghost pb = at(*from);
        let ghost cb = *cost as int;
        let ok = push_step_cost(
            horizontal,
            vertical,
            nrow,
            ncol,
            &mut from.0,
            &mut from.1,
            step,
            signed_amount,
            steps,
            cost,
        );
        proof {
            assert(run(step, i + 1) =~= run(step, i as int).push(step));
            lemma_walk_push(h, v, nrow as int, ncol as int, start, c0, run(step, i as int), step, a);
        }
        if !ok {
            proof {
                assert(walk_step(h, v, nrow as int, ncol as int, pb, cb, step, a) is None);
                assert(walk(h, v, nrow as int, ncol as int, start, c0, run(step, i + 1), a) is None);
                assert(run(step, count as int) =~= run(step, i + 1) + run(
                    step,
                    count - i - 1,
                ));
                lemma_walk_concat(
                    h,
                    v,
                    nrow as int,
                    ncol as int,
                    start,
                    c0,
                    run(step, i + 1),
                    run(step, count - i - 1),
                    a,
                );
                assert(walk(h, v, nrow as int, ncol as int, start, c0, run(step, count as int), a) is None);
            }
            return false;
        }
        proof {
            assert(steps@ =~= s0 + run(step, i + 1));
        }
        i = i + 1;
    }
    true
}

/// Walks the straight segment from `from` to `target` (see `seg_steps`).
/// Returns whether every step succeeded.
fn route_segment(
    horizontal: &[Option<EdgeDatum>],
    vertical: &[Option<EdgeDatum>],
    nrow: usize,
    ncol: usize,
    from: &mut (usize, usize),
    target: (usize, usize),
    signed_amount: i32,
    vertical_first: bool,
    steps: &mut Vec<u8>,
    cost: &mut i128,
) -> (ok: bool)
    requires
        grid_ok(horizontal@, vertical@, nrow as int, ncol as int),
        nrow >= 2,
        ncol >= 2,
        old(from).0 < nrow - 1,
        old(from).1 < ncol - 1,
        signed_amount != i32::MIN,
    ensures
        ok == walk(
            horizontal@,
            vertical@,
            nrow as int,
            ncol as int,
            at(*old(from)),
            *old(cost) as int,
            seg_steps(at(*old(from)), at(target), vertical_first),
            signed_amount as int,
        ) is Some,
        ok ==> walk(
            horizontal@,
            vertical@,
            nrow as int,
            ncol as int,
            at(*old(from)),
            *old(cost) as int,
            seg_steps(at(*old(from)), at(target), vertical_first),
            signed_amount as int,
        ) == Some((at(*final(from)), *final(cost) as int)),
        ok ==> final(steps)@ == old(steps)@ + seg_steps(at(*old(from)), at(target), vertical_first),
        final(from).0 < nrow - 1,
        final(from).1 < ncol - 1,
{
    let ghost h = horizontal@;
    let ghost v = vertical@;
    let ghost start = at(*from);
    let ghost c0 = *cost as int;
    let ghost s0 = steps@;
    let ghost a = signed_amount as int;
    let row_step = if target.0 < from.0 {
        ROUTE_UP
    } else {
        ROUTE_DOWN
    };
    let col_step = if target.1 < from.1 {
        ROUTE_LEFT
    } else {
        ROUTE_RIGHT
    };
    let row_count = if target.0 < from.0 {
        from.0 - target.0
    } else {
        target.0 - from.0
    };
    let col_count = if target.1 < from.1 {
        from.1 - target.1
    } else {
        target.1 - from.1
    };
    let (first_step, first_count, second_step, second_count) = if vertical_first {
        (row_step, row_count, col_step, col_count)
    } else {
        (col_step, col_count, row_step, row_count)
    };
    let ghost first = run(first_step, first_count as int);
    let ghost second = run(second_step, second_count as int);
    assert(seg_steps(start, at(target), vertical_first) == first + second);
    proof {
        lemma_walk_concat(h, v, nrow as int, ncol as int, start, c0, first, second, a);
    }
    if !push_run(
        horizontal,
        vertical,
        nrow,
        ncol,
        from,
        first_step,
        first_count,
        signed_amount,
        steps,
        cost,
    ) {
        return false;
    }
    let ghost mid = at(*from);
    let ghost c1 = *cost as int;
    let ok = push_run(
        horizontal,
        vertical,
        nrow,
        ncol,
        from,
        second_step,
        second_count,
        signed_amount,
        steps,
        cost,
    );
    proof {
        if ok {
            assert(steps@ =~= s0 + (first + second));
        }
    }
    ok
}

/// Waypoints as pairs of integers.
pub open spec fn pts(points: Seq<(usize, usize)>) -> Seq<(int, int)> {
    points.map_values(|p: (usize, usize)| at(p))
}

/// The cost and steps of a route, dropping its end.
pub open spec fn plan_result(r: Option<((int, int), int, Seq<u8>)>) -> Option<(int, Seq<u8>)> {
    match r {
        Some((_, c, s)) => Some((c, s)),
        None => None,
    }
}

/// A priced route as a cost and a sequence of steps.
pub open spec fn route_view(r: Option<(i128, Vec<u8>)>) -> Option<(int, Seq<u8>)> {
    match r {
        Some((c, s)) => Some((c as int, s@)),
        None => None,
    }
}

/// The better of the best so far and a candidate: the candidate when there
/// is no best yet or it is strictly cheaper.
pub open spec fn keep_best_spec(
    best: Option<(int, Seq<u8>)>,
    candidate: Option<(int, Seq<u8>)>,
) -> Option<(int, Seq<u8>)> {
    match candidate {
        Some((c, _)) => match best {
            Some((b, _)) => if c < b {
                candidate
            } else {
                best
            },
            None => candidate,
        },
        None => best,
    }
}

/// Number of candidate routes between two plaquettes.
pub open spec fn candidate_count() -> int {
    2 + 4 * DETOUR_MARGIN
}

/// The `i`-th candidate route from `source` to `target`, as waypoints and
/// whether each segment moves along the rows first: the two L-shaped routes,
/// then, for plaquettes on one row, detours through the rows `1..=16` above
/// and below (alternating), then, for plaquettes on one column, detours
/// through the columns left and right. `None` for a detour that does not
/// apply or leaves the grid.
pub open spec fn candidate_plan(
    nrow: int,
    ncol: int,
    source: (int, int),
    target: (int, int),
    i: int,
) -> Option<(Seq<(int, int)>, bool)> {
    if i == 0 {
        Some((seq![target], false))
    } else if i == 1 {
        Some((seq![target], true))
    } else if i < 2 + 2 * DETOUR_MARGIN {
        let j = i - 2;
        let d = j / 2 + 1;
        let row = if j % 2 == 0 {
            source.0 - d
        } else {
            source.0 + d
        };
        if source.0 == target.0 && 0 <= row < nrow - 1 {
            Some((seq![(row, source.1), (row, target.1), target], true))
        } else {
            None
        }
    } else if i < candidate_count() {
        let j = i - 2 - 2 * DETOUR_MARGIN;
        let d = j / 2 + 1;
        let col = if j % 2 == 0 {
            source.1 - d
        } else {
            source.1 + d
        };
        if source.1 == target.1 && 0 <= col < ncol - 1 {
            Some((seq![(source.0, col), (target.0, col), target], false))
        } else {
            None
        }
    } else {
        None
    }
}

/// Cost and steps of the `i`-th candidate route, `None` when it does not
/// apply or one of its steps fails.
pub open spec fn candidate(
    h: Seq<Option<EdgeDatum>>,
    v: Seq<Option<EdgeDatum>>,
    nrow: int,
    ncol: int,
    source: (int, int),
    target: (int, int),
    amount: int,
    i: int,
) -> Option<(int, Seq<u8>)> {
    match candidate_plan(nrow, ncol, source, target, i) {
        Some((points, vertical_first)) => plan_result(
            route_plan(h, v, nrow, ncol, source, 0, points, vertical_first, amount),
        ),
        None => None,
    }
}

/// The best of the first `k` candidates, earlier ones winning ties.
pub open spec fn best_upto(
    h: Seq<Option<EdgeDatum>>,
    v: Seq<Option<EdgeDatum>>,
    nrow: int,
    ncol: int,
    source: (int, int),
    target: (int, int),
    amount: int,
    k: int,
) -> Option<(int, Seq<u8>)>
    decreases k,
{
    if k <= 0 {
        None
    } else {
        keep_best_spec(
            best_upto(h, v, nrow, ncol, source, target, amount, k - 1),
            candidate(h, v, nrow, ncol, source, target, amount, k - 1),
        )
    }
}

/// Walks the route from `source` through the waypoints `points` (see
/// `route_plan`): its total cost and steps, or `None` when a step fails.
fn route_points(
    horizontal: &[Option<EdgeDatum>],
    vertical: &[Option<EdgeDatum>],
    nrow: usize,
    ncol: usize,
    source: (usize, usize),
    points: &[(usize, usize)],
    signed_amount: i32,
    vertical_first: bool,
) -> (r: Option<(i128, Vec<u8>)>)
    requires
        grid_ok(horizontal@, vertical@, nrow as int, ncol as int),
        nrow >= 2,
        ncol >= 2,
        source.0 < nrow - 1,
        source.1 < ncol - 1,
        signed_amount != i32::MIN,
    ensures
        route_view(r) == plan_result(
            route_plan(
                horizontal@,
                vertical@,
                nrow as int,
                ncol as int,
                at(source),
                0,
                pts(points@),
                vertical_first,
                signed_amount as int,
            ),
        ),
{
    let ghost h = horizontal@;
    let ghost v = vertical@;
    let ghost a = signed_amount as int;
    let ghost all = pts(points@);
    let mut current = source;
    let mut steps: Vec<u8> = Vec::new();
    let mut cost: i128 = 0;
    let mut k: usize = 0;
    proof {
        assert(all.skip(0) =~= all);
        assert(steps@ + Seq::<u8>::empty() =~= Seq::<u8>::empty());
        lemma_prepend_empty(route_plan(h, v, nrow as int, ncol as int, at(source), 0, all, vertical_first, a));
    }
    while k < points.len()
        invariant
            k <= points@.len(),
            h == horizontal@,
            v == vertical@,
            a == signed_amount as int,
            all == pts(points@),
            grid_ok(h, v, nrow as int, ncol as int),
            nrow >= 2,
            ncol >= 2,
            current.0 < nrow - 1,
            current.1 < ncol - 1,
            signed_amount != i32::MIN,
            route_plan(h, v, nrow as int, ncol as int, at(source), 0, all, vertical_first, a)
                == prepend(
                steps@,
                route_plan(
                    h,
                    v,
                    nrow as int,
                    ncol as int,
                    at(current),
                    cost as int,
                    all.skip(k as int),
                    vertical_first,
                    a,
                ),
            ),
        decreases points@.len() - k,
    {
        let ghost cur = at(current);
        let ghost c0 = cost as int;
        let ghost s0 = steps@;
        let ghost seg = seg_steps(cur, at(points@[k as int]), vertical_first);
        proof {
            assert(all.skip(k as int)[0] == at(points@[k as int]));
            assert(all.skip(k as int).drop_first() =~= all.skip(k + 1));
        }
        if !route_segment(
            horizontal,
            vertical,
            nrow,
            ncol,
            &mut current,
            points[k],
            signed_amount,
            vertical_first,
            &mut steps,
            &mut cost,
        ) {
            return None;
        }
        proof {
            lemma_prepend_assoc(
                s0,
                seg,
                route_plan(
                    h,
                    v,
                    nrow as int,
                    ncol as int,
                    at(current),
                    cost as int,
                    all.skip(k + 1),
                    vertical_first,
                    a,
                ),
            );
        }
        k = k + 1;
    }
    proof {
        assert(all.skip(k as int) =~= Seq::<(int, int)>::empty());
        assert(steps@ + Seq::<u8>::empty() =~= steps@);
    }
    Some((cost, steps))
}

proof fn lemma_prepend_empty(r: Option<((int, int), int, Seq<u8>)>)
    ensures
        prepend(Seq::empty(), r) == r,
{
    if let Some((e, c, rest)) = r {
        assert(Seq::<u8>::empty() + rest =~= rest);
    }
}

proof fn lemma_prepend_assoc(s: Seq<u8>, t: Seq<u8>, r: Option<((int, int), int, Seq<u8>)>)
    ensures
        prepend(s, prepend(t, r)) == prepend(s + t, r),
{
    if let Some((e, c, rest)) = r {
        assert(s + (t + rest) =~= (s + t) + rest);
    }
}

/// Keeps `candidate` in `best` when there is no best yet or it is strictly
/// cheaper.
fn keep_best(best: &mut Option<(i128, Vec<u8>)>, candidate: Option<(i128, Vec<u8>)>)
    ensures
        route_view(*final(best)) == keep_best_spec(route_view(*old(best)), route_view(candidate)),
{
    if let Some((cost, steps)) = candidate {
        let replace = match best {
            Some(b) => cost < b.0,
            None => true,
        };
        if replace {
            *best = Some((cost, steps));
        }
    }
}

/// Cheapest route from plaquette `source` to plaquette `target` carrying
/// `signed_amount`: the first of the cheapest among the candidate routes (see
/// `candidate_plan`), with its total cost change and its steps, or `None`
/// when every candidate fails. The steps lead from `source` to `target`.
#[verifier::rlimit(40)]
pub fn route_path(
    horizontal: &[Option<EdgeDatum>],
    vertical: &[Option<EdgeDatum>],
    nrow: usize,
    ncol: usize,
    source: (usize, usize),
    target: (usize, usize),
    signed_amount: i32,
) -> (r: Option<(i128, Vec<u8>)>)
    requires
        grid_ok(horizontal@, vertical@, nrow as int, ncol as int),
        source.0 + 1 < nrow,
        source.1 + 1 < ncol,
        signed_amount != i32::MIN,
    ensures
        route_view(r) == best_upto(
            horizontal@,
            vertical@,
            nrow as int,
            ncol as int,
            at(source),
            at(target),
            signed_amount as int,
            candidate_count(),
        ),
        r is None <==> forall|i: int|
            0 <= i < candidate_count() ==> #[trigger] candidate(
                horizontal@,
                vertical@,
                nrow as int,
                ncol as int,
                at(source),
                at(target),
                signed_amount as int,
                i,
            ) is None,
        r matches Some((c, s)) ==> walk(
            horizontal@,
            vertical@,
            nrow as int,
            ncol as int,
            at(source),
            0,
            s@,
            signed_amount as int,
        ) == Some((at(target), c as int)),
        r matches Some((c, _)) ==> forall|i: int|
            0 <= i < candidate_count() ==> (#[trigger] candidate(
                horizontal@,
                vertical@,
                nrow as int,
                ncol as int,
                at(source),
                at(target),
                signed_amount as int,
                i,
            ) matches Some((ci, _)) ==> c <= ci),
{
    let ghost h = horizontal@;
    let ghost v = vertical@;
    let ghost a = signed_amount as int;
    let ghost src = at(source);
    let ghost tgt = at(target);
    let mut best: Option<(i128, Vec<u8>)> = None;
    let direct = vec![target];
    proof {
        assert(pts(direct@) =~= seq![tgt]);
        reveal_with_fuel(best_upto, 3);
    }
    keep_best(
        &mut best,
        route_points(horizontal, vertical, nrow, ncol, source, direct.as_slice(), signed_amount, false),
    );
    keep_best(
        &mut best,
        route_points(horizontal, vertical, nrow, ncol, source, direct.as_slice(), signed_amount, true),
    );
    let mut detour: usize = 1;
    while detour <= DETOUR_MARGIN
        invariant
            1 <= detour <= DETOUR_MARGIN + 1,
            h == horizontal@,
            v == vertical@,
            a == signed_amount as int,
            src == at(source),
            tgt == at(target),
            grid_ok(h, v, nrow as int, ncol as int),
            source.0 + 1 < nrow,
            source.1 + 1 < ncol,
            signed_amount != i32::MIN,
            route_view(best) == best_upto(h, v, nrow as int, ncol as int, src, tgt, a, 2 * detour),
        decreases DETOUR_MARGIN + 1 - detour,
    {
        let ghost j = 2 * detour - 2;
        proof {
            assert(j / 2 + 1 == detour && j % 2 == 0) by {
                vstd::arithmetic::div_mod::lemma_fundamental_div_mod_converse(j, 2, detour - 1, 0);
            }
            assert((j + 1) / 2 + 1 == detour && (j + 1) % 2 == 1) by {
                vstd::arithmetic::div_mod::lemma_fundamental_div_mod_converse(j + 1, 2, detour - 1, 1);
            }
        }
        let ghost before = route_view(best);
        let ghost i0 = 2 * detour as int;
        proof {
            let c0 = candidate_plan(nrow as int, ncol as int, src, tgt, i0);
            let c1 = candidate_plan(nrow as int, ncol as int, src, tgt, i0 + 1);
            assert(c0 == (if source.0 == target.0 && detour <= source.0 {
                Some((seq![(src.0 - detour, src.1), (src.0 - detour, tgt.1), tgt], true))
            } else {
                None
            }));
            assert(c1 == (if source.0 == target.0 && detour < nrow - 1 - source.0 {
                Some((seq![(src.0 + detour, src.1), (src.0 + detour, tgt.1), tgt], true))
            } else {
                None
            }));
        }
        if source.0 == target.0 && detour <= source.0 {
            let row = source.0 - detour;
            let points = vec![(row, source.1), (row, target.1), target];
            proof {
                assert(pts(points@) =~= seq![(row as int, src.1), (row as int, tgt.1), tgt]);
            }
            keep_best(
                &mut best,
                route_points(horizontal, vertical, nrow, ncol, source, points.as_slice(), signed_amount, true),
            );
        }
        if source.0 == target.0 && detour < nrow - 1 - source.0 {
            let row = source.0 + detour;
            let points = vec![(row, source.1), (row, target.1), target];
            proof {
                assert(pts(points@) =~= seq![(row as int, src.1), (row as int, tgt.1), tgt]);
            }
            keep_best(
                &mut best,
                route_points(horizontal, vertical, nrow, ncol, source, points.as_slice(), signed_amount, true),
            );
        }
        proof {
            reveal_with_fuel(best_upto, 2);
        }
        detour = detour + 1;
    }
    let mut detour: usize = 1;
    while detour <= DETOUR_MARGIN
        invariant
            1 <= detour <= DETOUR_MARGIN + 1,
            h == horizontal@,
            v == vertical@,
            a == signed_amount as int,
            src == at(source),
            tgt == at(target),
            grid_ok(h, v, nrow as int, ncol as int),
            source.0 + 1 < nrow,
            source.1 + 1 < ncol,
            signed_amount != i32::MIN,
            route_view(best) == best_upto(
                h,
                v,
                nrow as int,
                ncol as int,
                src,
                tgt,
                a,
                2 * DETOUR_MARGIN + 2 * detour,
            ),
        decreases DETOUR_MARGIN + 1 - detour,
    {
        let ghost j = 2 * detour - 2;
        proof {
            assert(j / 2 + 1 == detour && j % 2 == 0) by {
                vstd::arithmetic::div_mod::lemma_fundamental_div_mod_converse(j, 2, detour - 1, 0);
            }
            assert((j + 1) / 2 + 1 == detour && (j + 1) % 2 == 1) by {
                vstd::arithmetic::div_mod::lemma_fundamental_div_mod_converse(j + 1, 2, detour - 1, 1);
            }
        }
        let ghost before = route_view(best);
        let ghost i0 = 2 * DETOUR_MARGIN + 2 * detour as int;
        proof {
            let c0 = candidate_plan(nrow as int, ncol as int, src, tgt, i0);
            let c1 = candidate_plan(nrow as int, ncol as int, src, tgt, i0 + 1);
            assert(c0 == (if source.1 == target.1 && detour <= source.1 {
                Some((seq![(src.0, src.1 - detour), (tgt.0, src.1 - detour), tgt], false))
            } else {
                None
            }));
            assert(c1 == (if source.1 == target.1 && detour < ncol - 1 - source.1 {
                Some((seq![(src.0, src.1 + detour), (tgt.0, src.1 + detour), tgt], false))
            } else {
                None
            }));
        }
        if source.1 == target.1 && detour <= source.1 {
            let col = source.1 - detour;
            let points = vec![(source.0, col), (target.0, col), target];
            proof {
                assert(pts(points@) =~= seq![(src.0, col as int), (tgt.0, col as int), tgt]);
            }
            keep_best(
                &mut best,
                route_points(horizontal, vertical, nrow, ncol, source, points.as_slice(), signed_amount, false),
            );
        }
        if source.1 == target.1 && detour < ncol - 1 - source.1 {
            let col = source.1 + detour;
            let points = vec![(source.0, col), (target.0, col), target];
            proof {
                assert(pts(points@) =~= seq![(src.0, col as int), (tgt.0, col as int), tgt]);
            }
            keep_best(
                &mut best,
                route_points(horizontal, vertical, nrow, ncol, source, points.as_slice(), signed_amount, false),
            );
        }
        proof {
            reveal_with_fuel(best_upto, 2);
        }
        detour = detour + 1;
    }
    proof {
        let k = candidate_count();
        lemma_best_upto(h, v, nrow as int, ncol as int, src, tgt, a, k);
        if let Some((c, s)) = best_upto(h, v, nrow as int, ncol as int, src, tgt, a, k) {
            let w = choose|i: int|
                0 <= i < k && #[trigger] candidate(h, v, nrow as int, ncol as int, src, tgt, a, i)
                    == Some((c, s));
            lemma_candidate_end(h, v, nrow as int, ncol as int, src, tgt, a, w);
        }
    }
    best
}

/// The plaquette `n` steps in direction `d` away from `pos`.
pub open spec fn shifted(pos: (int, int), d: u8, n: int) -> (int, int) {
    if d == ROUTE_UP {
        (pos.0 - n, pos.1)
    } else if d == ROUTE_DOWN {
        (pos.0 + n, pos.1)
    } else if d == ROUTE_LEFT {
        (pos.0, pos.1 - n)
    } else {
        (pos.0, pos.1 + n)
    }
}

/// A walk of `n` steps in one direction that succeeds ends `n` plaquettes away.
pub proof fn lemma_run_end(
    h: Seq<Option<EdgeDatum>>,
    v: Seq<Option<EdgeDatum>>,
    nrow: int,
    ncol: int,
    pos: (int, int),
    cost: int,
    d: u8,
    n: int,
    amount: int,
)
    requires
        n >= 0,
        walk(h, v, nrow, ncol, pos, cost, run(d, n), amount) is Some,
    ensures
        walk(h, v, nrow, ncol, pos, cost, run(d, n), amount) matches Some((q, _)) && q == shifted(
            pos,
            d,
            n,
        ),
    decreases n,
{
    if n > 0 {
        assert(run(d, n).drop_last() =~= run(d, n - 1));
        lemma_run_end(h, v, nrow, ncol, pos, cost, d, n - 1, amount);
    }
}

/// A straight segment that succeeds ends at its target.
pub proof fn lemma_seg_end(
    h: Seq<Option<EdgeDatum>>,
    v: Seq<Option<EdgeDatum>>,
    nrow: int,
    ncol: int,
    pos: (int, int),
    cost: int,
    to: (int, int),
    vertical_first: bool,
    amount: int,
)
    requires
        walk(h, v, nrow, ncol, pos, cost, seg_steps(pos, to, vertical_first), amount) is Some,
    ensures
        walk(h, v, nrow, ncol, pos, cost, seg_steps(pos, to, vertical_first), amount) matches Some(
            (q, _),
        ) && q == to,
{
    let rd: u8 = if to.0 < pos.0 {
        ROUTE_UP
    } else {
        ROUTE_DOWN
    };
    let cd: u8 = if to.1 < pos.1 {
        ROUTE_LEFT
    } else {
        ROUTE_RIGHT
    };
    let rows = run(rd, abs_diff(pos.0, to.0));
    let cols = run(cd, abs_diff(pos.1, to.1));
    if vertical_first {
        lemma_walk_concat(h, v, nrow, ncol, pos, cost, rows, cols, amount);
        let (q, c) = walk(h, v, nrow, ncol, pos, cost, rows, amount)->0;
        lemma_run_end(h, v, nrow, ncol, pos, cost, rd, abs_diff(pos.0, to.0), amount);
        lemma_run_end(h, v, nrow, ncol, q, c, cd, abs_diff(pos.1, to.1), amount);
    } else {
        lemma_walk_concat(h, v, nrow, ncol, pos, cost, cols, rows, amount);
        let (q, c) = walk(h, v, nrow, ncol, pos, cost, cols, amount)->0;
        lemma_run_end(h, v, nrow, ncol, pos, cost, cd, abs_diff(pos.1, to.1), amount);
        lemma_run_end(h, v, nrow, ncol, q, c, rd, abs_diff(pos.0, to.0), amount);
    }
}

/// A route through waypoints that succeeds is a walk of its steps, ending at
/// the last waypoint.
pub proof fn lemma_plan_end(
    h: Seq<Option<EdgeDatum>>,
    v: Seq<Option<EdgeDatum>>,
    nrow: int,
    ncol: int,
    pos: (int, int),
    cost: int,
    points: Seq<(int, int)>,
    vertical_first: bool,
    amount: int,
)
    requires
        route_plan(h, v, nrow, ncol, pos, cost, points, vertical_first, amount) is Some,
    ensures
        ({
            let (e, c, s) = route_plan(h, v, nrow, ncol, pos, cost, points, vertical_first, amount)->0;
            &&& walk(h, v, nrow, ncol, pos, cost, s, amount) == Some((e, c))
            &&& points.len() > 0 ==> e == points.last()
        }),
    decreases points.len(),
{
    if points.len() > 0 {
        let seg = seg_steps(pos, points[0], vertical_first);
        let (q, c1) = walk(h, v, nrow, ncol, pos, cost, seg, amount)->0;
        lemma_seg_end(h, v, nrow, ncol, pos, cost, points[0], vertical_first, amount);
        let rest = points.drop_first();
        lemma_plan_end(h, v, nrow, ncol, q, c1, rest, vertical_first, amount);
        let (e, c, t) = route_plan(h, v, nrow, ncol, q, c1, rest, vertical_first, amount)->0;
        lemma_walk_concat(h, v, nrow, ncol, pos, cost, seg, t, amount);
        if rest.len() == 0 {
            assert(t.len() == 0);
        } else {
            assert(rest.last() == points.last());
        }
    }
}

/// Every candidate route that succeeds leads from `source` to `target`.
pub proof fn lemma_candidate_end(
    h: Seq<Option<EdgeDatum>>,
    v: Seq<Option<EdgeDatum>>,
    nrow: int,
    ncol: int,
    source: (int, int),
    target: (int, int),
    amount: int,
    i: int,
)
    requires
        candidate(h, v, nrow, ncol, source, target, amount, i) is Some,
    ensures
        ({
            let (c, s) = candidate(h, v, nrow, ncol, source, target, amount, i)->0;
            walk(h, v, nrow, ncol, source, 0, s, amount) == Some((target, c))
        }),
{
    let (points, vf) = candidate_plan(nrow, ncol, source, target, i)->0;
    lemma_plan_end(h, v, nrow, ncol, source, 0, points, vf, amount);
}

/// The best of the first `k` candidates is one of them and costs no more
/// than any of them; there is none only when all of them fail.
pub proof fn lemma_best_upto(
    h: Seq<Option<EdgeDatum>>,
    v: Seq<Option<EdgeDatum>>,
    nrow: int,
    ncol: int,
    source: (int, int),
    target: (int, int),
    amount: int,
    k: int,
)
    ensures
        best_upto(h, v, nrow, ncol, source, target, amount, k) is None <==> forall|i: int|
            0 <= i < k ==> #[trigger] candidate(h, v, nrow, ncol, source, target, amount, i) is None,
        best_upto(h, v, nrow, ncol, source, target, amount, k) matches Some((c, s)) ==> exists|i: int|
            0 <= i < k && #[trigger] candidate(h, v, nrow, ncol, source, target, amount, i) == Some((c, s)),
        best_upto(h, v, nrow, ncol, source, target, amount, k) matches Some((c, s)) ==> forall|i: int|
            0 <= i < k ==> (#[trigger] candidate(h, v, nrow, ncol, source, target, amount, i) matches Some(
                (ci, _),
            ) ==> c <= ci),
    decreases k,
{
    if k > 0 {
        lemma_best_upto(h, v, nrow, ncol, source, target, amount, k - 1);
        let last = candidate(h, v, nrow, ncol, source, target, amount, k - 1);
        let prev = best_upto(h, v, nrow, ncol, source, target, amount, k - 1);
        if let Some((c, s)) = best_upto(h, v, nrow, ncol, source, target, amount, k) {
            if best_upto(h, v, nrow, ncol, source, target, amount, k) == last {
                assert(candidate(h, v, nrow, ncol, source, target, amount, k - 1) == Some((c, s)));
            } else {
                let w = choose|i: int|
                    0 <= i < k - 1 && #[trigger] candidate(
                        h,
                        v,
                        nrow,
                        ncol,
                        source,
                        target,
                        amount,
                        i,
                    ) == Some((c, s));
                assert(candidate(h, v, nrow, ncol, source, target, amount, w) == Some((c, s)));
            }
        }
    }
}

} // verus!
