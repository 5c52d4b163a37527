//! What the boundary route search establishes: a distance for every
//! plaquette that no single step can undercut (a potential), with every
//! recorded step tight against it. Such a table gives each plaquette the
//! first step of a cheapest route to the boundary.
use vstd::prelude::*;
use crate::edges::EdgeDatum;
use crate::pair_route::step_target;
use crate::route::{
    expanded, lemma_plaquette_coords, p_index, relaxed_across, route_edge, route_entry_ok, search_ok,
    seeded, step_cost_spec, ROUTE_DOWN, ROUTE_LEFT, ROUTE_NONE, ROUTE_RIGHT, ROUTE_UP,
};

verus! {

/// The plaquette that a step in direction `d` from plaquette `p` enters;
/// `None` when the step leaves the grid through the boundary.
pub open spec fn plaquette_step(nrow: int, ncol: int, p: int, d: u8) -> Option<int> {
    match step_target(nrow, ncol, (p / (ncol - 1), p % (ncol - 1)), d) {
        Some(t) => Some(p_index(t.0, t.1, ncol)),
        None => None,
    }
}

/// The direction back.
pub open spec fn opposite(d: u8) -> u8 {
    if d == ROUTE_UP {
        ROUTE_DOWN
    } else if d == ROUTE_DOWN {
        ROUTE_UP
    } else if d == ROUTE_LEFT {
        ROUTE_RIGHT
    } else {
        ROUTE_LEFT
    }
}

/// No step from `p` in direction `d` undercuts `dist[p]`: leaving the grid
/// costs at least `dist[p]`, and stepping into `q` costs at least
/// `dist[p] - dist[q]` (where that sum stays below `i64::MAX`, the mark of an
/// unreached plaquette).
pub open spec fn bound_ok(
    h: Seq<Option<EdgeDatum>>,
    v: Seq<Option<EdgeDatum>>,
    nrow: int,
    ncol: int,
    amount: int,
    dist: Seq<i64>,
    p: int,
    d: u8,
) -> bool {
    match route_edge(h, v, ncol, p, d) {
        Some(e) => {
            let c = step_cost_spec(e, d, amount);
            match plaquette_step(nrow, ncol, p, d) {
                None => dist[p] <= c,
                Some(q) => dist[q] + c < i64::MAX ==> dist[p] <= dist[q] + c,
            }
        },
        None => true,
    }
}

/// `bound_ok` in all four directions.
pub open spec fn bounds_ok(
    h: Seq<Option<EdgeDatum>>,
    v: Seq<Option<EdgeDatum>>,
    nrow: int,
    ncol: int,
    amount: int,
    dist: Seq<i64>,
    p: int,
) -> bool {
    &&& bound_ok(h, v, nrow, ncol, amount, dist, p, ROUTE_UP)
    &&& bound_ok(h, v, nrow, ncol, amount, dist, p, ROUTE_RIGHT)
    &&& bound_ok(h, v, nrow, ncol, amount, dist, p, ROUTE_DOWN)
    &&& bound_ok(h, v, nrow, ncol, amount, dist, p, ROUTE_LEFT)
}

/// The recorded step of `p`, if any, is tight: it crosses a present edge and
/// `dist[p]` is at least its cost plus the distance of the plaquette it
/// enters (plus nothing when it leaves the grid).
pub open spec fn tight_ok(
    h: Seq<Option<EdgeDatum>>,
    v: Seq<Option<EdgeDatum>>,
    nrow: int,
    ncol: int,
    amount: int,
    dist: Seq<i64>,
    next: Seq<u8>,
    p: int,
) -> bool {
    next[p] != ROUTE_NONE ==> match route_edge(h, v, ncol, p, next[p]) {
        Some(e) => {
            let c = step_cost_spec(e, next[p], amount);
            match plaquette_step(nrow, ncol, p, next[p]) {
                None => dist[p] >= c,
                Some(q) => 0 <= q < dist.len() && dist[q] < i64::MAX && dist[p] >= dist[q] + c,
            }
        },
        None => false,
    }
}

/// `routes` holds, for a residue of `amount`, the first step of a cheapest
/// route to the boundary from every plaquette: some distance table `dist`
/// marks exactly the plaquettes without a route by `i64::MAX`, no step
/// undercuts it, and every recorded step is tight against it.
pub open spec fn routes_certified(
    h: Seq<Option<EdgeDatum>>,
    v: Seq<Option<EdgeDatum>>,
    nrow: int,
    ncol: int,
    amount: int,
    dist: Seq<i64>,
    routes: Seq<u8>,
) -> bool {
    &&& dist.len() == routes.len()
    &&& forall|p: int| 0 <= p < routes.len() ==> (#[trigger] routes[p] == ROUTE_NONE <==> dist[p] == i64::MAX)
    &&& forall|p: int| 0 <= p < routes.len() ==> #[trigger] tight_ok(h, v, nrow, ncol, amount, dist, routes, p)
    &&& forall|p: int| 0 <= p < routes.len() ==> #[trigger] bounds_ok(h, v, nrow, ncol, amount, dist, p)
}

/// Some distance table certifies `routes` as cheapest first steps.
pub open spec fn routes_cheapest(
    h: Seq<Option<EdgeDatum>>,
    v: Seq<Option<EdgeDatum>>,
    nrow: int,
    ncol: int,
    amount: int,
    routes: Seq<u8>,
) -> bool {
    exists|dist: Seq<i64>| routes_certified(h, v, nrow, ncol, amount, dist, routes)
}

/// The neighbour `q` of `p` in direction `d` can reach `p` no cheaper than
/// through `p`: the step back from `q` does not undercut `dist[q]`.
pub open spec fn nb_ok(
    h: Seq<Option<EdgeDatum>>,
    v: Seq<Option<EdgeDatum>>,
    nrow: int,
    ncol: int,
    amount: int,
    dist: Seq<i64>,
    p: int,
    d: u8,
) -> bool {
    plaquette_step(nrow, ncol, p, d) matches Some(q) ==> match route_edge(h, v, ncol, q, opposite(d)) {
        Some(e) => {
            let c = step_cost_spec(e, opposite(d), amount);
            dist[p] + c < i64::MAX ==> dist[q] <= dist[p] + c
        },
        None => true,
    }
}

/// Plaquette `p` has been expanded at its current distance.
pub open spec fn settled(
    h: Seq<Option<EdgeDatum>>,
    v: Seq<Option<EdgeDatum>>,
    nrow: int,
    ncol: int,
    amount: int,
    dist: Seq<i64>,
    p: int,
) -> bool {
    &&& nb_ok(h, v, nrow, ncol, amount, dist, p, ROUTE_UP)
    &&& nb_ok(h, v, nrow, ncol, amount, dist, p, ROUTE_RIGHT)
    &&& nb_ok(h, v, nrow, ncol, amount, dist, p, ROUTE_DOWN)
    &&& nb_ok(h, v, nrow, ncol, amount, dist, p, ROUTE_LEFT)
}

/// The exits of `p` through the boundary do not undercut `dist[p]`.
pub open spec fn exits_ok(
    h: Seq<Option<EdgeDatum>>,
    v: Seq<Option<EdgeDatum>>,
    nrow: int,
    ncol: int,
    amount: int,
    dist: Seq<i64>,
    p: int,
) -> bool {
    &&& plaquette_step(nrow, ncol, p, ROUTE_UP) is None ==> bound_ok(h, v, nrow, ncol, amount, dist, p, ROUTE_UP)
    &&& plaquette_step(nrow, ncol, p, ROUTE_RIGHT) is None ==> bound_ok(h, v, nrow, ncol, amount, dist, p, ROUTE_RIGHT)
    &&& plaquette_step(nrow, ncol, p, ROUTE_DOWN) is None ==> bound_ok(h, v, nrow, ncol, amount, dist, p, ROUTE_DOWN)
    &&& plaquette_step(nrow, ncol, p, ROUTE_LEFT) is None ==> bound_ok(h, v, nrow, ncol, amount, dist, p, ROUTE_LEFT)
}

#[verifier::opaque]
/// The invariant of the route search: plaquettes below `upto` have had their
/// exits offered; every reached plaquette but `except` is queued at its
/// distance or settled; queued entries never undercut the distances.
pub open spec fn search_inv(
    h: Seq<Option<EdgeDatum>>,
    v: Seq<Option<EdgeDatum>>,
    nrow: int,
    ncol: int,
    amount: int,
    st: (Seq<i64>, Seq<u8>, Seq<(i64, usize)>),
    upto: int,
    except: int,
) -> bool {
    let n = (nrow - 1) * (ncol - 1);
    &&& nrow >= 2
    &&& ncol >= 2
    &&& 0 <= upto <= n
    &&& n <= usize::MAX
    &&& search_ok(h, v, ncol, n, st.0, st.1, st.2)
    &&& forall|p: int| 0 <= p < n ==> (#[trigger] st.1[p] == ROUTE_NONE <==> st.0[p] == i64::MAX)
    &&& forall|p: int| 0 <= p < n ==> #[trigger] tight_ok(h, v, nrow, ncol, amount, st.0, st.1, p)
    &&& forall|k: int| 0 <= k < st.2.len() ==> (#[trigger] st.2[k]).0 >= st.0[st.2[k].1 as int] && st.2[k].0 < i64::MAX
    &&& forall|q: int|
        0 <= q < n && q != except && #[trigger] st.0[q] < i64::MAX ==> (st.2.contains((st.0[q], q as usize))
            || settled(h, v, nrow, ncol, amount, st.0, q))
    &&& forall|p: int| 0 <= p < upto ==> #[trigger] exits_ok(h, v, nrow, ncol, amount, st.0, p)
}

/// Every distance of `b` is at most that of `a`.
pub open spec fn dist_le(a: Seq<i64>, b: Seq<i64>) -> bool {
    &&& a.len() == b.len()
    &&& forall|j: int| 0 <= j < a.len() ==> #[trigger] b[j] <= a[j]
}

/// A step from `p` stays on the plaquette grid or leaves it; where it stays,
/// the plaquette entered steps back to `p` in the opposite direction.
pub proof fn lemma_step_back(nrow: int, ncol: int, p: int, d: u8)
    requires
        nrow >= 2,
        ncol >= 2,
        0 <= p < (nrow - 1) * (ncol - 1),
        d <= ROUTE_LEFT,
    ensures
        plaquette_step(nrow, ncol, p, d) matches Some(q) ==> {
            &&& 0 <= q < (nrow - 1) * (ncol - 1)
            &&& q != p
            &&& plaquette_step(nrow, ncol, q, opposite(d)) == Some(p)
        },
        opposite(opposite(d)) == d,
        opposite(d) <= ROUTE_LEFT,
{
    let pcn = ncol - 1;
    let prn = nrow - 1;
    let r = p / pcn;
    let c = p % pcn;
    vstd::arithmetic::div_mod::lemma_fundamental_div_mod(p, pcn);
    assert(r * pcn == pcn * r) by (nonlinear_arith);
    assert(0 <= r < prn) by (nonlinear_arith)
        requires
            p == pcn * r + c,
            0 <= c < pcn,
            0 <= p < prn * pcn,
            pcn >= 1,
    ;
    lemma_plaquette_coords(r, c, prn, pcn);
    assert(p == p_index(r, c, ncol));
    match step_target(nrow, ncol, (r, c), d) {
        Some(t) => {
            lemma_plaquette_coords(t.0, t.1, prn, pcn);
            let q = p_index(t.0, t.1, ncol);
            assert(q / pcn == t.0 && q % pcn == t.1);
            assert(step_target(nrow, ncol, (t.0, t.1), opposite(d)) == Some((r, c)));
            if t.0 == r {
                assert(q != p);
            } else {
                assert(t.0 * pcn != r * pcn) by (nonlinear_arith)
                    requires
                        t.0 != r,
                        pcn >= 1,
                ;
            }
        },
        None => {},
    }
}

/// Offering `p` the distance `cost` plus the step cost in direction `d`,
/// where `cost` is 0 for a step that leaves the grid and the distance of the
/// plaquette entered otherwise, keeps the invariant, lowers no distance but
/// `p`'s, and leaves that step not undercutting `p`.
pub proof fn lemma_relax_inv(
    h: Seq<Option<EdgeDatum>>,
    v: Seq<Option<EdgeDatum>>,
    nrow: int,
    ncol: int,
    amount: int,
    st: (Seq<i64>, Seq<u8>, Seq<(i64, usize)>),
    upto: int,
    except: int,
    p: int,
    cost: int,
    d: u8,
)
    requires
        search_inv(h, v, nrow, ncol, amount, st, upto, except),
        0 <= p < (nrow - 1) * (ncol - 1),
        d <= ROUTE_LEFT,
        cost >= 0,
        match plaquette_step(nrow, ncol, p, d) {
            None => cost == 0,
            Some(q) => q != p && 0 <= q < (nrow - 1) * (ncol - 1) && st.0[q] == cost && cost < i64::MAX,
        },
        route_edge(h, v, ncol, p, d) matches Some(e) ==> step_cost_spec(e, d, amount) >= 0,
    ensures
        search_inv(h, v, nrow, ncol, amount, relaxed_across(h, v, ncol, amount, st, p, cost, d), upto, except),
        dist_le(st.0, relaxed_across(h, v, ncol, amount, st, p, cost, d).0),
        st.0.len() == (nrow - 1) * (ncol - 1),
        forall|j: int| 0 <= j < st.0.len() && j != p ==> #[trigger] relaxed_across(h, v, ncol, amount, st, p, cost, d).0[j] == st.0[j],
        bound_ok(h, v, nrow, ncol, amount, relaxed_across(h, v, ncol, amount, st, p, cost, d).0, p, d),
{
    reveal(search_inv);
    let n = (nrow - 1) * (ncol - 1);
    let s2 = relaxed_across(h, v, ncol, amount, st, p, cost, d);
    match route_edge(h, v, ncol, p, d) {
        Some(e) => {
            let c = step_cost_spec(e, d, amount);
            let total = cost + c;
            if total <= i64::MAX && total < st.0[p] {
                let nd = st.0.update(p, total as i64);
                let nn = st.1.update(p, d);
                let nh = st.2.push((total as i64, p as usize));
                assert(s2 == (nd, nn, nh));
                assert(route_edge(h, v, ncol, p, d) is Some);
                assert(search_ok(h, v, ncol, n, nd, nn, nh)) by {
                    assert forall|q: int| 0 <= q < nh.len() implies (#[trigger] nh[q]).0 >= 0 && (nh[q].1 as int) < n by {
                        if q < st.2.len() {
                            assert(nh[q] == st.2[q]);
                        }
                    }
                    assert forall|j: int| 0 <= j < n implies #[trigger] nd[j] >= 0 by {
                        if j != p {
                            assert(nd[j] == st.0[j]);
                        }
                    }
                    assert forall|j: int| 0 <= j < n implies route_entry_ok(h, v, ncol, j, #[trigger] nn[j]) by {
                        if j != p {
                            assert(nn[j] == st.1[j]);
                        }
                    }
                }
                assert forall|j: int| 0 <= j < n implies (#[trigger] nn[j] == ROUTE_NONE <==> nd[j] == i64::MAX) by {
                    if j != p {
                        assert(nn[j] == st.1[j] && nd[j] == st.0[j]);
                    }
                }
                assert forall|j: int| 0 <= j < n implies #[trigger] tight_ok(h, v, nrow, ncol, amount, nd, nn, j) by {
                    assert(tight_ok(h, v, nrow, ncol, amount, st.0, st.1, j));
                    if j != p {
                        assert(nn[j] == st.1[j] && nd[j] == st.0[j]);
                        if nn[j] != ROUTE_NONE {
                            match plaquette_step(nrow, ncol, j, nn[j]) {
                                Some(q) => {
                                    if q == p {
                                        assert(nd[q] == total);
                                    } else {
                                        assert(nd[q] == st.0[q]);
                                    }
                                },
                                None => {},
                            }
                        }
                    } else {
                        assert(nn[j] == d && nd[j] == total);
                        match plaquette_step(nrow, ncol, p, d) {
                            Some(q) => {
                                assert(nd[q] == st.0[q]);
                            },
                            None => {},
                        }
                    }
                }
                assert forall|k: int| 0 <= k < nh.len() implies (#[trigger] nh[k]).0 >= nd[nh[k].1 as int] && nh[k].0 < i64::MAX by {
                    if k < st.2.len() {
                        assert(nh[k] == st.2[k]);
                        assert(st.2[k].0 >= st.0[st.2[k].1 as int]);
                        let t = st.2[k].1 as int;
                        assert(0 <= t < n);
                        if t != p {
                            assert(nd[t] == st.0[t]);
                        }
                    } else {
                        assert(nh[k] == (total as i64, p as usize));
                        assert(nd[p] == total);
                    }
                }
                assert forall|q: int|
                    0 <= q < n && q != except && #[trigger] nd[q] < i64::MAX implies (nh.contains((nd[q], q as usize))
                        || settled(h, v, nrow, ncol, amount, nd, q)) by {
                    if q == p {
                        assert(nh[nh.len() - 1] == (nd[q], q as usize));
                    } else {
                        assert(nd[q] == st.0[q]);
                        if st.2.contains((st.0[q], q as usize)) {
                            let k = choose|k: int| 0 <= k < st.2.len() && st.2[k] == (st.0[q], q as usize);
                            assert(nh[k] == (nd[q], q as usize));
                        } else {
                            assert(settled(h, v, nrow, ncol, amount, st.0, q));
                            lemma_settled_lower(h, v, nrow, ncol, amount, st.0, nd, q, p);
                        }
                    }
                }
                assert forall|j: int| 0 <= j < upto implies #[trigger] exits_ok(h, v, nrow, ncol, amount, nd, j) by {
                    assert(exits_ok(h, v, nrow, ncol, amount, st.0, j));
                    if j != p {
                        assert(nd[j] == st.0[j]);
                    }
                }
                match plaquette_step(nrow, ncol, p, d) {
                    Some(q) => {
                        assert(nd[q] == st.0[q]);
                    },
                    None => {},
                }
            } else {
                assert(s2 == st);
                assert(st.0[p] <= total) by {
                    if total > i64::MAX {
                        assert(st.0[p] <= i64::MAX);
                    }
                }
            }
        },
        None => {
            assert(s2 == st);
        },
    }
}

/// Lowering the distance of `p` alone keeps plaquette `q != p` settled.
pub proof fn lemma_settled_lower(
    h: Seq<Option<EdgeDatum>>,
    v: Seq<Option<EdgeDatum>>,
    nrow: int,
    ncol: int,
    amount: int,
    a: Seq<i64>,
    b: Seq<i64>,
    q: int,
    p: int,
)
    requires
        settled(h, v, nrow, ncol, amount, a, q),
        nrow >= 2,
        ncol >= 2,
        a.len() == (nrow - 1) * (ncol - 1),
        b.len() == a.len(),
        0 <= q < a.len(),
        q != p,
        b[q] == a[q],
        forall|j: int| 0 <= j < a.len() ==> #[trigger] b[j] <= a[j],
    ensures
        settled(h, v, nrow, ncol, amount, b, q),
{
    lemma_step_back(nrow, ncol, q, ROUTE_UP);
    lemma_step_back(nrow, ncol, q, ROUTE_RIGHT);
    lemma_step_back(nrow, ncol, q, ROUTE_DOWN);
    lemma_step_back(nrow, ncol, q, ROUTE_LEFT);
}

/// Before any seeding: nothing reached, nothing queued.
pub proof fn lemma_search_init(
    h: Seq<Option<EdgeDatum>>,
    v: Seq<Option<EdgeDatum>>,
    nrow: int,
    ncol: int,
    amount: int,
    st: (Seq<i64>, Seq<u8>, Seq<(i64, usize)>),
)
    requires
        nrow >= 2,
        ncol >= 2,
        (nrow - 1) * (ncol - 1) <= usize::MAX,
        st.0.len() == (nrow - 1) * (ncol - 1),
        st.1.len() == (nrow - 1) * (ncol - 1),
        st.2.len() == 0,
        forall|j: int| 0 <= j < st.0.len() ==> #[trigger] st.0[j] == i64::MAX,
        forall|j: int| 0 <= j < st.1.len() ==> #[trigger] st.1[j] == ROUTE_NONE,
    ensures
        search_inv(h, v, nrow, ncol, amount, st, 0, -1),
{
    reveal(search_inv);
    assert(0 <= (nrow - 1) * (ncol - 1)) by (nonlinear_arith)
        requires
            nrow >= 2,
            ncol >= 2,
    ;
}

/// What the invariant says of the table sizes.
pub proof fn lemma_inv_basics(
    h: Seq<Option<EdgeDatum>>,
    v: Seq<Option<EdgeDatum>>,
    nrow: int,
    ncol: int,
    amount: int,
    st: (Seq<i64>, Seq<u8>, Seq<(i64, usize)>),
    upto: int,
    except: int,
)
    requires
        search_inv(h, v, nrow, ncol, amount, st, upto, except),
    ensures
        nrow >= 2,
        ncol >= 2,
        0 <= upto <= (nrow - 1) * (ncol - 1),
        (nrow - 1) * (ncol - 1) <= usize::MAX,
        search_ok(h, v, ncol, (nrow - 1) * (ncol - 1), st.0, st.1, st.2),
        forall|k: int| 0 <= k < st.2.len() ==> (#[trigger] st.2[k]).0 >= st.0[st.2[k].1 as int] && st.2[k].0 < i64::MAX,
{
    reveal(search_inv);
}

/// One more plaquette with its exits settled.
pub proof fn lemma_inv_extend(
    h: Seq<Option<EdgeDatum>>,
    v: Seq<Option<EdgeDatum>>,
    nrow: int,
    ncol: int,
    amount: int,
    st: (Seq<i64>, Seq<u8>, Seq<(i64, usize)>),
    upto: int,
)
    requires
        search_inv(h, v, nrow, ncol, amount, st, upto, -1),
        upto < (nrow - 1) * (ncol - 1),
        exits_ok(h, v, nrow, ncol, amount, st.0, upto),
    ensures
        search_inv(h, v, nrow, ncol, amount, st, upto + 1, -1),
{
    reveal(search_inv);
    assert forall|p: int| 0 <= p < upto + 1 implies #[trigger] exits_ok(h, v, nrow, ncol, amount, st.0, p) by {
        if p < upto {
            assert(exits_ok(h, v, nrow, ncol, amount, st.0, p));
        }
    }
}

/// A settled `except` needs no exception.
pub proof fn lemma_inv_release(
    h: Seq<Option<EdgeDatum>>,
    v: Seq<Option<EdgeDatum>>,
    nrow: int,
    ncol: int,
    amount: int,
    st: (Seq<i64>, Seq<u8>, Seq<(i64, usize)>),
    upto: int,
    node: int,
)
    requires
        search_inv(h, v, nrow, ncol, amount, st, upto, node),
        settled(h, v, nrow, ncol, amount, st.0, node),
    ensures
        search_inv(h, v, nrow, ncol, amount, st, upto, -1),
{
    reveal(search_inv);
}

/// Seeding plaquette `(row, col)` from its boundary edges keeps the
/// invariant and settles the exits of that plaquette.
pub proof fn lemma_seeded_inv(
    h: Seq<Option<EdgeDatum>>,
    v: Seq<Option<EdgeDatum>>,
    nrow: int,
    ncol: int,
    amount: int,
    st: (Seq<i64>, Seq<u8>, Seq<(i64, usize)>),
    row: int,
    col: int,
)
    requires
        0 <= row < nrow - 1,
        0 <= col < ncol - 1,
        search_inv(h, v, nrow, ncol, amount, st, p_index(row, col, ncol), -1),
    ensures
        search_inv(h, v, nrow, ncol, amount, seeded(h, v, nrow, ncol, amount, row, col, st), p_index(row, col, ncol) + 1, -1),
{
    let prn = nrow - 1;
    let pcn = ncol - 1;
    let node = p_index(row, col, ncol);
    lemma_inv_basics(h, v, nrow, ncol, amount, st, node, -1);
    lemma_plaquette_coords(row, col, prn, pcn);
    assert(node / pcn == row && node % pcn == col);
    let s1 = if row == 0 { relaxed_across(h, v, ncol, amount, st, node, 0, ROUTE_UP) } else { st };
    if row == 0 {
        lemma_relax_inv(h, v, nrow, ncol, amount, st, node, -1, node, 0, ROUTE_UP);
    }
    let s2 = if row + 1 == nrow - 1 { relaxed_across(h, v, ncol, amount, s1, node, 0, ROUTE_DOWN) } else { s1 };
    if row + 1 == nrow - 1 {
        lemma_relax_inv(h, v, nrow, ncol, amount, s1, node, -1, node, 0, ROUTE_DOWN);
    }
    let s3 = if col == 0 { relaxed_across(h, v, ncol, amount, s2, node, 0, ROUTE_LEFT) } else { s2 };
    if col == 0 {
        lemma_relax_inv(h, v, nrow, ncol, amount, s2, node, -1, node, 0, ROUTE_LEFT);
    }
    let s4 = if col + 1 == ncol - 1 { relaxed_across(h, v, ncol, amount, s3, node, 0, ROUTE_RIGHT) } else { s3 };
    if col + 1 == ncol - 1 {
        lemma_relax_inv(h, v, nrow, ncol, amount, s3, node, -1, node, 0, ROUTE_RIGHT);
    }
    assert(s4 == seeded(h, v, nrow, ncol, amount, row, col, st));
    assert(s4.0[node] <= s3.0[node] <= s2.0[node] <= s1.0[node]);
    assert(exits_ok(h, v, nrow, ncol, amount, s4.0, node));
    lemma_inv_extend(h, v, nrow, ncol, amount, s4, node);
}

/// Expanding plaquette `node` at its own distance keeps the invariant and
/// settles `node`.
pub proof fn lemma_expanded_inv(
    h: Seq<Option<EdgeDatum>>,
    v: Seq<Option<EdgeDatum>>,
    nrow: int,
    ncol: int,
    amount: int,
    st: (Seq<i64>, Seq<u8>, Seq<(i64, usize)>),
    node: int,
    cost: int,
)
    requires
        search_inv(h, v, nrow, ncol, amount, st, (nrow - 1) * (ncol - 1), node),
        0 <= node < (nrow - 1) * (ncol - 1),
        cost == st.0[node],
        cost < i64::MAX,
    ensures
        search_inv(h, v, nrow, ncol, amount, expanded(h, v, nrow, ncol, amount, node, cost, st), (nrow - 1) * (ncol - 1), -1),
{
    let prn = nrow - 1;
    let pcn = ncol - 1;
    let n = prn * pcn;
    lemma_inv_basics(h, v, nrow, ncol, amount, st, n, node);
    let row = node / pcn;
    let col = node % pcn;
    vstd::arithmetic::div_mod::lemma_fundamental_div_mod(node, pcn);
    assert(row * pcn == pcn * row) by (nonlinear_arith);
    assert(0 <= row < prn) by (nonlinear_arith)
        requires
            node == pcn * row + col,
            0 <= col < pcn,
            0 <= node < prn * pcn,
            pcn >= 1,
    ;
    lemma_step_back(nrow, ncol, node, ROUTE_UP);
    lemma_step_back(nrow, ncol, node, ROUTE_DOWN);
    lemma_step_back(nrow, ncol, node, ROUTE_LEFT);
    lemma_step_back(nrow, ncol, node, ROUTE_RIGHT);
    let p1 = p_index(row - 1, col, ncol);
    let p2 = p_index(row + 1, col, ncol);
    let p3 = p_index(row, col - 1, ncol);
    let p4 = p_index(row, col + 1, ncol);
    let s1 = if row > 0 { relaxed_across(h, v, ncol, amount, st, p1, cost, ROUTE_DOWN) } else { st };
    if row > 0 {
        assert(plaquette_step(nrow, ncol, node, ROUTE_UP) == Some(p1));
        lemma_relax_inv(h, v, nrow, ncol, amount, st, n, node, p1, cost, ROUTE_DOWN);
    }
    let s2 = if row + 1 < nrow - 1 { relaxed_across(h, v, ncol, amount, s1, p2, cost, ROUTE_UP) } else { s1 };
    if row + 1 < nrow - 1 {
        assert(plaquette_step(nrow, ncol, node, ROUTE_DOWN) == Some(p2));
        lemma_relax_inv(h, v, nrow, ncol, amount, s1, n, node, p2, cost, ROUTE_UP);
    }
    let s3 = if col > 0 { relaxed_across(h, v, ncol, amount, s2, p3, cost, ROUTE_RIGHT) } else { s2 };
    if col > 0 {
        assert(plaquette_step(nrow, ncol, node, ROUTE_LEFT) == Some(p3));
        lemma_relax_inv(h, v, nrow, ncol, amount, s2, n, node, p3, cost, ROUTE_RIGHT);
    }
    let s4 = if col + 1 < ncol - 1 { relaxed_across(h, v, ncol, amount, s3, p4, cost, ROUTE_LEFT) } else { s3 };
    if col + 1 < ncol - 1 {
        assert(plaquette_step(nrow, ncol, node, ROUTE_RIGHT) == Some(p4));
        lemma_relax_inv(h, v, nrow, ncol, amount, s3, n, node, p4, cost, ROUTE_LEFT);
    }
    assert(s4 == expanded(h, v, nrow, ncol, amount, node, cost, st));
    assert(s4.0[node] == cost);
    assert(nb_ok(h, v, nrow, ncol, amount, s4.0, node, ROUTE_UP)) by {
        if row > 0 {
            assert(s4.0[p1] <= s1.0[p1]);
        }
    }
    assert(nb_ok(h, v, nrow, ncol, amount, s4.0, node, ROUTE_DOWN)) by {
        if row + 1 < nrow - 1 {
            assert(s4.0[p2] <= s2.0[p2]);
        }
    }
    assert(nb_ok(h, v, nrow, ncol, amount, s4.0, node, ROUTE_LEFT)) by {
        if col > 0 {
            assert(s4.0[p3] <= s3.0[p3]);
        }
    }
    assert(nb_ok(h, v, nrow, ncol, amount, s4.0, node, ROUTE_RIGHT));
    assert(settled(h, v, nrow, ncol, amount, s4.0, node));
    lemma_inv_release(h, v, nrow, ncol, amount, s4, n, node);
}

/// Taking the entry at `at` off the queue keeps the invariant for every
/// plaquette but the one the entry names, and for that one too unless the
/// entry carried its current distance.
pub proof fn lemma_pop_inv(
    h: Seq<Option<EdgeDatum>>,
    v: Seq<Option<EdgeDatum>>,
    nrow: int,
    ncol: int,
    amount: int,
    st: (Seq<i64>, Seq<u8>, Seq<(i64, usize)>),
    at: int,
)
    requires
        search_inv(h, v, nrow, ncol, amount, st, (nrow - 1) * (ncol - 1), -1),
        0 <= at < st.2.len(),
    ensures
        search_inv(
            h,
            v,
            nrow,
            ncol,
            amount,
            (st.0, st.1, st.2.update(at, st.2.last()).drop_last()),
            (nrow - 1) * (ncol - 1),
            st.2[at].1 as int,
        ),
        st.2[at].0 != st.0[st.2[at].1 as int] ==> search_inv(
            h,
            v,
            nrow,
            ncol,
            amount,
            (st.0, st.1, st.2.update(at, st.2.last()).drop_last()),
            (nrow - 1) * (ncol - 1),
            -1,
        ),
{
    reveal(search_inv);
    let n = (nrow - 1) * (ncol - 1);
    let old_h = st.2;
    let nh = old_h.update(at, old_h.last()).drop_last();
    let e = old_h[at];
    assert forall|k: int| 0 <= k < nh.len() implies nh[k] == (if k == at { old_h[old_h.len() - 1] } else { old_h[k] }) by {}
    assert(search_ok(h, v, ncol, n, st.0, st.1, nh)) by {
        assert forall|q: int| 0 <= q < nh.len() implies (#[trigger] nh[q]).0 >= 0 && (nh[q].1 as int) < n by {
            if q == at {
                assert(nh[q] == old_h[old_h.len() - 1]);
            } else {
                assert(nh[q] == old_h[q]);
            }
        }
    }
    assert forall|k: int| 0 <= k < nh.len() implies (#[trigger] nh[k]).0 >= st.0[nh[k].1 as int] && nh[k].0 < i64::MAX by {
        if k == at {
            assert(nh[k] == old_h[old_h.len() - 1]);
        } else {
            assert(nh[k] == old_h[k]);
        }
    }
    assert forall|q: int|
        0 <= q < n && (q != e.1 as int || e.0 != st.0[e.1 as int]) && #[trigger] st.0[q] < i64::MAX implies (
        nh.contains((st.0[q], q as usize)) || settled(h, v, nrow, ncol, amount, st.0, q)) by {
        if old_h.contains((st.0[q], q as usize)) {
            let k = choose|k: int| 0 <= k < old_h.len() && old_h[k] == (st.0[q], q as usize);
            assert(k != at);
            if k == old_h.len() - 1 {
                assert(nh[at] == (st.0[q], q as usize));
            } else {
                assert(nh[k] == (st.0[q], q as usize));
            }
        }
    }
}

/// With the queue empty, the distances certify the recorded steps.
pub proof fn lemma_search_done(
    h: Seq<Option<EdgeDatum>>,
    v: Seq<Option<EdgeDatum>>,
    nrow: int,
    ncol: int,
    amount: int,
    st: (Seq<i64>, Seq<u8>, Seq<(i64, usize)>),
)
    requires
        search_inv(h, v, nrow, ncol, amount, st, (nrow - 1) * (ncol - 1), -1),
        st.2.len() == 0,
    ensures
        routes_certified(h, v, nrow, ncol, amount, st.0, st.1),
{
    reveal(search_inv);
    let n = (nrow - 1) * (ncol - 1);
    assert forall|p: int| 0 <= p < n implies #[trigger] bounds_ok(h, v, nrow, ncol, amount, st.0, p) by {
        assert(exits_ok(h, v, nrow, ncol, amount, st.0, p));
        lemma_bound_from_settled(h, v, nrow, ncol, amount, st, p, ROUTE_UP);
        lemma_bound_from_settled(h, v, nrow, ncol, amount, st, p, ROUTE_RIGHT);
        lemma_bound_from_settled(h, v, nrow, ncol, amount, st, p, ROUTE_DOWN);
        lemma_bound_from_settled(h, v, nrow, ncol, amount, st, p, ROUTE_LEFT);
    }
    assert forall|p: int| 0 <= p < n implies (#[trigger] st.1[p] == ROUTE_NONE <==> st.0[p] == i64::MAX) by {}
    assert forall|p: int| 0 <= p < n implies #[trigger] tight_ok(h, v, nrow, ncol, amount, st.0, st.1, p) by {}
}

proof fn lemma_bound_from_settled(
    h: Seq<Option<EdgeDatum>>,
    v: Seq<Option<EdgeDatum>>,
    nrow: int,
    ncol: int,
    amount: int,
    st: (Seq<i64>, Seq<u8>, Seq<(i64, usize)>),
    p: int,
    d: u8,
)
    requires
        search_inv(h, v, nrow, ncol, amount, st, (nrow - 1) * (ncol - 1), -1),
        st.2.len() == 0,
        0 <= p < (nrow - 1) * (ncol - 1),
        d <= ROUTE_LEFT,
        exits_ok(h, v, nrow, ncol, amount, st.0, p),
    ensures
        bound_ok(h, v, nrow, ncol, amount, st.0, p, d),
{
    reveal(search_inv);
    lemma_step_back(nrow, ncol, p, d);
    match plaquette_step(nrow, ncol, p, d) {
        Some(q) => {
            if st.0[q] < i64::MAX {
                assert(!st.2.contains((st.0[q], q as usize)));
                assert(settled(h, v, nrow, ncol, amount, st.0, q));
                let od = opposite(d);
                assert(nb_ok(h, v, nrow, ncol, amount, st.0, q, od));
            }
        },
        None => {},
    }
}

/// Cost of the route that starts at plaquette `p` and takes the steps
/// `dirs` in order, each across a present edge, until its last step leaves
/// the grid; `None` when the steps do not form such a route.
pub open spec fn route_cost(
    h: Seq<Option<EdgeDatum>>,
    v: Seq<Option<EdgeDatum>>,
    nrow: int,
    ncol: int,
    amount: int,
    p: int,
    dirs: Seq<u8>,
) -> Option<int>
    decreases dirs.len(),
{
    if dirs.len() == 0 || dirs[0] > ROUTE_LEFT {
        None
    } else {
        match route_edge(h, v, ncol, p, dirs[0]) {
            Some(e) => {
                let c = step_cost_spec(e, dirs[0], amount);
                match plaquette_step(nrow, ncol, p, dirs[0]) {
                    None => if dirs.len() == 1 { Some(c) } else { None },
                    Some(q) => match route_cost(h, v, nrow, ncol, amount, q, dirs.drop_first()) {
                        Some(rest) => Some(c + rest),
                        None => None,
                    },
                }
            },
            None => None,
        }
    }
}

/// Certified route tables give cheapest routes: no route from `p` to the
/// boundary costs less than `dist[p]` (among routes cheaper than
/// `i64::MAX`), and a plaquette with any such route has a recorded step.
pub proof fn law_routes_cheapest(
    h: Seq<Option<EdgeDatum>>,
    v: Seq<Option<EdgeDatum>>,
    nrow: int,
    ncol: int,
    amount: int,
    dist: Seq<i64>,
    routes: Seq<u8>,
    p: int,
    dirs: Seq<u8>,
)
    requires
        nrow >= 2,
        ncol >= 2,
        routes.len() == (nrow - 1) * (ncol - 1),
        routes_certified(h, v, nrow, ncol, amount, dist, routes),
        0 <= p < routes.len(),
        route_cost(h, v, nrow, ncol, amount, p, dirs) matches Some(c) && c < i64::MAX,
    ensures
        dist[p] <= route_cost(h, v, nrow, ncol, amount, p, dirs).unwrap(),
        routes[p] != ROUTE_NONE,
    decreases dirs.len(),
{
    let d = dirs[0];
    let e = route_edge(h, v, ncol, p, d).unwrap();
    let c0 = step_cost_spec(e, d, amount);
    assert(bounds_ok(h, v, nrow, ncol, amount, dist, p));
    assert(bound_ok(h, v, nrow, ncol, amount, dist, p, d));
    lemma_step_back(nrow, ncol, p, d);
    match plaquette_step(nrow, ncol, p, d) {
        Some(q) => {
            law_routes_cheapest(h, v, nrow, ncol, amount, dist, routes, q, dirs.drop_first());
        },
        None => {},
    }
    assert(routes[p] == ROUTE_NONE <==> dist[p] == i64::MAX);
}

} // verus!
