//! Cancelling plaquette residues in pairs: neighbouring residues of opposite
//! sign meet across their shared edge, and farther pairs along the cheapest
//! short route between them. Every move carries part of a residue toward a
//! residue of opposite sign, so the total residue magnitude never grows.
use vstd::prelude::*;
use crate::edges::{apply_edge_correction, corrected, correction_ok, horizontal_index, in_i32, vertical_index, EdgeDatum};
use crate::residual::{dd, grid_ok, left_of, residue_at, same_slots};
use crate::route::{
    lemma_plaquette_coords, p_index, plaquette_curl, route_edge, route_step_spec, rows_of, step_delta,
    ROUTE_DOWN, ROUTE_LEFT, ROUTE_RIGHT, ROUTE_UP,
};
use crate::pair_route::{at, best_upto, candidate_count, route_path, step_edge, step_slot, step_target};

verus! {

/// Index of plaquette `pos` in a grid with `ncol` columns of cells.
pub open spec fn pidx(ncol: int, pos: (int, int)) -> int {
    pos.0 * (ncol - 1) + pos.1
}

/// `amount` when `b` holds, else nothing.
pub open spec fn carried(b: bool, amount: int) -> int {
    if b {
        amount
    } else {
        0
    }
}

/// Number of plaquettes of an `nrow` by `ncol` grid.
pub open spec fn plaquette_count(nrow: int, ncol: int) -> int {
    (nrow - 1) * (ncol - 1)
}

/// The edge arrays after a step in direction `d` from plaquette `pos`
/// carrying `amount`: the crossed edge's difference moves by
/// `step_delta(d, amount)`.
pub open spec fn step_applied(
    h: Seq<Option<EdgeDatum>>,
    v: Seq<Option<EdgeDatum>>,
    ncol: int,
    pos: (int, int),
    d: u8,
    amount: int,
) -> (Seq<Option<EdgeDatum>>, Seq<Option<EdgeDatum>>) {
    let s = step_slot(ncol, pos, d);
    let delta = step_delta(d, amount);
    if s.0 {
        (h.update(s.1, corrected(h[s.1], delta)), v)
    } else {
        (h, v.update(s.1, corrected(v[s.1], delta)))
    }
}

/// The step can carry `amount`: a direction, across a present edge whose
/// numbers stay within `i32`.
pub open spec fn step_carries(
    h: Seq<Option<EdgeDatum>>,
    v: Seq<Option<EdgeDatum>>,
    ncol: int,
    pos: (int, int),
    d: u8,
    amount: int,
) -> bool {
    &&& d <= ROUTE_LEFT
    &&& step_edge(h, v, ncol, pos, d) is Some
    &&& correction_ok(step_edge(h, v, ncol, pos, d), step_delta(d, amount))
}

/// `a * n + b == c * n + d` with both remainders below `n` fixes both parts.
pub proof fn lemma_split_unique(a: int, b: int, c: int, d: int, n: int)
    requires
        n > 0,
        0 <= b < n,
        0 <= d < n,
        a * n + b == c * n + d,
    ensures
        a == c,
        b == d,
{
    vstd::arithmetic::div_mod::lemma_fundamental_div_mod_converse(a * n + b, n, a, b);
    vstd::arithmetic::div_mod::lemma_fundamental_div_mod_converse(c * n + d, n, c, d);
}

/// A step carries `amount` of residue out of its plaquette and into the
/// plaquette it reaches; leaving the grid, it carries it out of the grid.
/// No other plaquette's residue changes.
pub proof fn lemma_step_moves_residue(
    h: Seq<Option<EdgeDatum>>,
    v: Seq<Option<EdgeDatum>>,
    nrow: int,
    ncol: int,
    pos: (int, int),
    d: u8,
    amount: int,
    q: int,
)
    requires
        grid_ok(h, v, nrow, ncol),
        nrow >= 2,
        ncol >= 2,
        0 <= pos.0 < nrow - 1,
        0 <= pos.1 < ncol - 1,
        step_carries(h, v, ncol, pos, d, amount),
        0 <= q < plaquette_count(nrow, ncol),
    ensures
        ({
            let (h2, v2) = step_applied(h, v, ncol, pos, d, amount);
            residue_at(h2, v2, ncol, q) == residue_at(h, v, ncol, q) - carried(
                q == pidx(ncol, pos),
                amount,
            ) + carried(
                step_target(nrow, ncol, pos, d) matches Some(n) && q == pidx(ncol, n),
                amount,
            )
        }),
{
    let pcn = ncol - 1;
    let prn = nrow - 1;
    let qr = q / pcn;
    let qc = q % pcn;
    vstd::arithmetic::div_mod::lemma_fundamental_div_mod(q, pcn);
    assert(0 <= qc < pcn);
    assert(q == qr * pcn + qc) by (nonlinear_arith)
        requires
            q == pcn * (q / pcn) + q % pcn,
            qr == q / pcn,
            qc == q % pcn,
    ;
    assert(0 <= qr < prn) by {
        if qr < 0 {
            assert(qr * pcn <= -pcn) by (nonlinear_arith)
                requires
                    qr < 0,
                    pcn > 0,
            ;
        }
        if qr >= prn {
            assert(qr * pcn >= prn * pcn) by (nonlinear_arith)
                requires
                    qr >= prn,
                    pcn > 0,
            ;
        }
    }
    lemma_plaquette_coords(qr, qc, prn, pcn);
    lemma_plaquette_coords(pos.0, pos.1, prn, pcn);
    let lq = left_of(q, ncol);
    assert(lq == qr * ncol + qc);
    let (h2, v2) = step_applied(h, v, ncol, pos, d, amount);
    let s = step_slot(ncol, pos, d);
    let delta = step_delta(d, amount);
    let e = step_edge(h, v, ncol, pos, d)->0;
    assert(dd(corrected(step_edge(h, v, ncol, pos, d), delta)) == e.desired_delta + delta);
    assert((pos.0 + 1) * pcn == pos.0 * pcn + pcn) by (nonlinear_arith);
    assert((qr + 1) * pcn == qr * pcn + pcn) by (nonlinear_arith);
    assert(q + pcn < h.len()) by {
        assert((qr + 1) * pcn + qc < nrow * pcn) by (nonlinear_arith)
            requires
                qr + 1 < nrow,
                0 <= qc < pcn,
        ;
    }
    assert(lq + 1 < v.len()) by {
        assert(qr * ncol + qc + 1 < prn * ncol) by (nonlinear_arith)
            requires
                0 <= qr < prn,
                0 <= qc,
                qc + 1 < ncol,
        ;
    }
    let in_h = |i: int| dd(h2[i]) - dd(h[i]) == carried(s.0 && i == s.1, delta);
    let in_v = |i: int| dd(v2[i]) - dd(v[i]) == carried(!s.0 && i == s.1, delta);
    assert(in_h(q));
    assert(in_h(q + pcn));
    assert(in_v(lq));
    assert(in_v(lq + 1));
    let moved_out = carried(q == pidx(ncol, pos), amount);
    let moved_in = carried(
        step_target(nrow, ncol, pos, d) matches Some(n) && q == pidx(ncol, n),
        amount,
    );
    if let Some(n) = step_target(nrow, ncol, pos, d) {
        if q == pidx(ncol, n) {
            lemma_split_unique(qr, qc, n.0, n.1, pcn);
        }
    }
    if q == pidx(ncol, pos) {
        lemma_split_unique(qr, qc, pos.0, pos.1, pcn);
    }
    if d == ROUTE_UP {
        assert(s.1 == pidx(ncol, pos));
        if q + pcn == s.1 {
            lemma_split_unique(qr + 1, qc, pos.0, pos.1, pcn);
        }
        assert(carried(s.0 && q == s.1, delta) == -moved_out);
        assert(carried(s.0 && q + pcn == s.1, delta) == -moved_in);
    } else if d == ROUTE_DOWN {
        assert(s.1 == pidx(ncol, pos) + pcn);
        if q == s.1 {
            lemma_split_unique(qr, qc, pos.0 + 1, pos.1, pcn);
        }
        assert(carried(s.0 && q == s.1, delta) == moved_in);
        assert(carried(s.0 && q + pcn == s.1, delta) == moved_out);
    } else if d == ROUTE_RIGHT {
        assert(s.1 == pos.0 * ncol + pos.1 + 1);
        if lq + 1 == s.1 {
            lemma_split_unique(qr, qc, pos.0, pos.1, ncol);
        }
        if lq == s.1 {
            lemma_split_unique(qr, qc, pos.0, pos.1 + 1, ncol);
        }
        assert(carried(!s.0 && lq + 1 == s.1, delta) == -moved_out);
        assert(carried(!s.0 && lq == s.1, delta) == -moved_in);
    } else {
        assert(s.1 == pos.0 * ncol + pos.1);
        if lq == s.1 {
            lemma_split_unique(qr, qc, pos.0, pos.1, ncol);
        }
        if lq + 1 == s.1 {
            if pos.1 == 0 {
                lemma_split_unique(qr, qc + 1, pos.0, 0, ncol);
            } else {
                lemma_split_unique(qr, qc, pos.0, pos.1 - 1, ncol);
            }
        }
        assert(carried(!s.0 && lq == s.1, delta) == moved_out);
        assert(carried(!s.0 && lq + 1 == s.1, delta) == moved_in);
    }
}

/// The edge arrays and the plaquette reached after taking `steps` from `pos`
/// carrying `amount`, one edge correction per step. A step that is no
/// direction is passed over; the walk stops at a step that leaves the
/// plaquette grid or cannot carry `amount` (see `step_carries`).
pub open spec fn pair_walk(
    h: Seq<Option<EdgeDatum>>,
    v: Seq<Option<EdgeDatum>>,
    nrow: int,
    ncol: int,
    pos: (int, int),
    steps: Seq<u8>,
    amount: int,
) -> (Seq<Option<EdgeDatum>>, Seq<Option<EdgeDatum>>, (int, int))
    decreases steps.len(),
{
    if steps.len() == 0 {
        (h, v, pos)
    } else if steps[0] > ROUTE_LEFT {
        pair_walk(h, v, nrow, ncol, pos, steps.drop_first(), amount)
    } else {
        match step_target(nrow, ncol, pos, steps[0]) {
            Some(next) => if step_carries(h, v, ncol, pos, steps[0], amount) {
                let (h2, v2) = step_applied(h, v, ncol, pos, steps[0], amount);
                pair_walk(h2, v2, nrow, ncol, next, steps.drop_first(), amount)
            } else {
                (h, v, pos)
            },
            None => (h, v, pos),
        }
    }
}

pub open spec fn abs(x: int) -> int {
    if x < 0 {
        -x
    } else {
        x
    }
}

/// Sum of `|f(q)|` over `0 <= q < n`.
pub open spec fn abs_sum(f: spec_fn(int) -> int, n: int) -> int
    decreases n,
{
    if n <= 0 {
        0
    } else {
        abs_sum(f, n - 1) + abs(f(n - 1))
    }
}

/// Total magnitude of the residues of all plaquettes.
pub open spec fn residue_magnitude(
    h: Seq<Option<EdgeDatum>>,
    v: Seq<Option<EdgeDatum>>,
    nrow: int,
    ncol: int,
) -> int {
    abs_sum(|q: int| residue_at(h, v, ncol, q), plaquette_count(nrow, ncol))
}

/// `amount` has the sign of `residue` and is no larger: taking it away
/// brings the residue toward zero.
pub open spec fn carries_part_of(residue: int, amount: int) -> bool {
    (0 <= amount <= residue) || (residue <= amount <= 0)
}

/// A step keeps the edge slots.
pub proof fn lemma_step_slots(
    h: Seq<Option<EdgeDatum>>,
    v: Seq<Option<EdgeDatum>>,
    nrow: int,
    ncol: int,
    pos: (int, int),
    d: u8,
    amount: int,
)
    requires
        grid_ok(h, v, nrow, ncol),
        nrow >= 2,
        ncol >= 2,
        0 <= pos.0 < nrow - 1,
        0 <= pos.1 < ncol - 1,
        d <= ROUTE_LEFT,
    ensures
        same_slots(h, step_applied(h, v, ncol, pos, d, amount).0),
        same_slots(v, step_applied(h, v, ncol, pos, d, amount).1),
{
    let pcn = ncol - 1;
    let prn = nrow - 1;
    lemma_plaquette_coords(pos.0, pos.1, prn, pcn);
    assert((pos.0 + 1) * pcn == pos.0 * pcn + pcn) by (nonlinear_arith);
    let s = step_slot(ncol, pos, d);
    let (h2, v2) = step_applied(h, v, ncol, pos, d, amount);
    assert(s.0 ==> 0 <= s.1 < h.len());
    assert(!s.0 ==> 0 <= s.1 < v.len());
    assert forall|i: int| 0 <= i < h.len() implies (#[trigger] h[i] is Some <==> h2[i] is Some) by {}
    assert forall|i: int| 0 <= i < v.len() implies (#[trigger] v[i] is Some <==> v2[i] is Some) by {}
}

/// A walk carries `amount` of residue from its start to the plaquette where
/// it ends; no other plaquette's residue changes, and the edge slots stay.
pub proof fn lemma_pair_walk_moves(
    h: Seq<Option<EdgeDatum>>,
    v: Seq<Option<EdgeDatum>>,
    nrow: int,
    ncol: int,
    pos: (int, int),
    steps: Seq<u8>,
    amount: int,
)
    requires
        grid_ok(h, v, nrow, ncol),
        nrow >= 2,
        ncol >= 2,
        0 <= pos.0 < nrow - 1,
        0 <= pos.1 < ncol - 1,
    ensures
        ({
            let (h2, v2, e) = pair_walk(h, v, nrow, ncol, pos, steps, amount);
            &&& grid_ok(h2, v2, nrow, ncol)
            &&& same_slots(h, h2)
            &&& same_slots(v, v2)
            &&& 0 <= e.0 < nrow - 1
            &&& 0 <= e.1 < ncol - 1
            &&& forall|q: int|
                0 <= q < plaquette_count(nrow, ncol) ==> #[trigger] residue_at(h2, v2, ncol, q)
                    == residue_at(h, v, ncol, q) - carried(q == pidx(ncol, pos), amount) + carried(
                    q == pidx(ncol, e),
                    amount,
                )
        }),
    decreases steps.len(),
{
    if steps.len() == 0 {
    } else if steps[0] > ROUTE_LEFT {
        lemma_pair_walk_moves(h, v, nrow, ncol, pos, steps.drop_first(), amount);
    } else {
        let d = steps[0];
        match step_target(nrow, ncol, pos, d) {
            Some(next) => {
                if step_carries(h, v, ncol, pos, d, amount) {
                    let (h1, v1) = step_applied(h, v, ncol, pos, d, amount);
                    lemma_step_slots(h, v, nrow, ncol, pos, d, amount);
                    lemma_pair_walk_moves(h1, v1, nrow, ncol, next, steps.drop_first(), amount);
                    let (h2, v2, e) = pair_walk(h1, v1, nrow, ncol, next, steps.drop_first(), amount);
                    crate::residual::lemma_slots_trans(h, h1, h2);
                    crate::residual::lemma_slots_trans(v, v1, v2);
                    assert forall|q: int| 0 <= q < plaquette_count(nrow, ncol) implies #[trigger] residue_at(
                        h2,
                        v2,
                        ncol,
                        q,
                    ) == residue_at(h, v, ncol, q) - carried(q == pidx(ncol, pos), amount) + carried(
                        q == pidx(ncol, e),
                        amount,
                    ) by {
                        lemma_step_moves_residue(h, v, nrow, ncol, pos, d, amount, q);
                        assert(residue_at(h2, v2, ncol, q) == residue_at(h1, v1, ncol, q) - carried(
                            q == pidx(ncol, next),
                            amount,
                        ) + carried(q == pidx(ncol, e), amount));
                    }
                }
            },
            None => {},
        }
    }
}

/// Changing `f` at two places changes the sum of magnitudes there only.
proof fn lemma_abs_sum_move(
    f: spec_fn(int) -> int,
    g: spec_fn(int) -> int,
    n: int,
    s: int,
    t: int,
    amount: int,
)
    requires
        forall|q: int| 0 <= q < n ==> #[trigger] g(q) == f(q) - carried(q == s, amount) + carried(q == t, amount),
        s != t,
    ensures
        abs_sum(g, n) == abs_sum(f, n) + carried(0 <= s < n, abs(f(s) - amount) - abs(f(s))) + carried(
            0 <= t < n,
            abs(f(t) + amount) - abs(f(t)),
        ),
    decreases n,
{
    if n > 0 {
        lemma_abs_sum_move(f, g, n - 1, s, t, amount);
        assert(g(n - 1) == f(n - 1) - carried(n - 1 == s, amount) + carried(n - 1 == t, amount));
    }
}

/// Carrying part of a plaquette's residue, with its sign and at most its
/// size, to any plaquette never increases the total residue magnitude; when
/// it reaches a residue of opposite sign at least as large, the total drops by
/// twice the amount carried.
pub proof fn law_carrying_residue_never_grows(
    h: Seq<Option<EdgeDatum>>,
    v: Seq<Option<EdgeDatum>>,
    nrow: int,
    ncol: int,
    pos: (int, int),
    steps: Seq<u8>,
    amount: int,
)
    requires
        grid_ok(h, v, nrow, ncol),
        nrow >= 2,
        ncol >= 2,
        0 <= pos.0 < nrow - 1,
        0 <= pos.1 < ncol - 1,
        carries_part_of(residue_at(h, v, ncol, pidx(ncol, pos)), amount),
    ensures
        ({
            let (h2, v2, e) = pair_walk(h, v, nrow, ncol, pos, steps, amount);
            &&& residue_magnitude(h2, v2, nrow, ncol) <= residue_magnitude(h, v, nrow, ncol)
            &&& (e != pos && carries_part_of(-residue_at(h, v, ncol, pidx(ncol, e)), amount))
                ==> residue_magnitude(h2, v2, nrow, ncol) == residue_magnitude(h, v, nrow, ncol)
                - 2 * abs(amount)
        }),
{
    let (h2, v2, e) = pair_walk(h, v, nrow, ncol, pos, steps, amount);
    lemma_pair_walk_moves(h, v, nrow, ncol, pos, steps, amount);
    let f = |q: int| residue_at(h, v, ncol, q);
    let g = |q: int| residue_at(h2, v2, ncol, q);
    let n = plaquette_count(nrow, ncol);
    let s = pidx(ncol, pos);
    let t = pidx(ncol, e);
    lemma_plaquette_coords(pos.0, pos.1, nrow - 1, ncol - 1);
    lemma_plaquette_coords(e.0, e.1, nrow - 1, ncol - 1);
    if s == t {
        assert forall|q: int| 0 <= q < n implies #[trigger] g(q) == f(q) by {}
        lemma_abs_sum_same(f, g, n);
    } else {
        assert forall|q: int| 0 <= q < n implies #[trigger] g(q) == f(q) - carried(q == s, amount) + carried(
            q == t,
            amount,
        ) by {}
        lemma_abs_sum_move(f, g, n, s, t, amount);
        if e == pos {
            assert(s == t);
        }
    }
}

proof fn lemma_abs_sum_same(f: spec_fn(int) -> int, g: spec_fn(int) -> int, n: int)
    requires
        forall|q: int| 0 <= q < n ==> #[trigger] g(q) == f(q),
    ensures
        abs_sum(g, n) == abs_sum(f, n),
    decreases n,
{
    if n > 0 {
        lemma_abs_sum_same(f, g, n - 1);
    }
}

/// Applies the step `d` from plaquette `pos` carrying `amount` when it can
/// (see `step_carries`); returns whether it did. A step through the grid's
/// boundary is applied too: its residue leaves the grid.
pub fn carry_step(
    horizontal: &mut Vec<Option<EdgeDatum>>,
    vertical: &mut Vec<Option<EdgeDatum>>,
    nrow: usize,
    ncol: usize,
    pos: (usize, usize),
    d: u8,
    amount: i32,
) -> (ok: bool)
    requires
        grid_ok(old(horizontal)@, old(vertical)@, nrow as int, ncol as int),
        pos.0 + 1 < nrow,
        pos.1 + 1 < ncol,
        amount != i32::MIN,
    ensures
        ok == step_carries(old(horizontal)@, old(vertical)@, ncol as int, at(pos), d, amount as int),
        ok ==> (final(horizontal)@, final(vertical)@) == step_applied(
            old(horizontal)@,
            old(vertical)@,
            ncol as int,
            at(pos),
            d,
            amount as int,
        ),
        !ok ==> final(horizontal)@ == old(horizontal)@ && final(vertical)@ == old(vertical)@,
{
    if d > ROUTE_LEFT {
        return false;
    }
    let (r, c) = pos;
    let pcn = ncol - 1;
    let hl = horizontal.len();
    let vl = vertical.len();
    proof {
        lemma_plaquette_coords(r as int, c as int, nrow - 1, pcn as int);
        assert((r + 1) * pcn == r * pcn + pcn) by (nonlinear_arith);
    }
    let is_h = d == ROUTE_UP || d == ROUTE_DOWN;
    let idx = if d == ROUTE_UP {
        horizontal_index(r, c, ncol)
    } else if d == ROUTE_RIGHT {
        vertical_index(r, c + 1, ncol)
    } else if d == ROUTE_DOWN {
        horizontal_index(r + 1, c, ncol)
    } else {
        vertical_index(r, c, ncol)
    };
    let edge = if is_h {
        horizontal[idx]
    } else {
        vertical[idx]
    };
    if edge.is_none() {
        return false;
    }
    let delta = if d == ROUTE_UP || d == ROUTE_RIGHT {
        -amount
    } else {
        amount
    };
    if !crate::route::correction_in_range(edge, delta) {
        return false;
    }
    let mut e = edge;
    apply_edge_correction(&mut e, delta);
    if is_h {
        horizontal.set(idx, e);
    } else {
        vertical.set(idx, e);
    }
    true
}

/// Takes `steps` from plaquette `source`, correcting each crossed edge by the
/// step's share of `signed_amount` (see `pair_walk`): a step that is no
/// direction is passed over, and the walk stops at a step that leaves the
/// plaquette grid or cannot carry the amount.
pub fn apply_pair_steps(
    horizontal: &mut Vec<Option<EdgeDatum>>,
    vertical: &mut Vec<Option<EdgeDatum>>,
    nrow: usize,
    ncol: usize,
    source: (usize, usize),
    steps: &[u8],
    signed_amount: i32,
)
    requires
        grid_ok(old(horizontal)@, old(vertical)@, nrow as int, ncol as int),
        source.0 + 1 < nrow,
        source.1 + 1 < ncol,
        signed_amount != i32::MIN,
    ensures
        ({
            let (h2, v2, _) = pair_walk(
                old(horizontal)@,
                old(vertical)@,
                nrow as int,
                ncol as int,
                at(source),
                steps@,
                signed_amount as int,
            );
            final(horizontal)@ == h2 && final(vertical)@ == v2
        }),
{
    let ghost goal = pair_walk(
        horizontal@,
        vertical@,
        nrow as int,
        ncol as int,
        at(source),
        steps@,
        signed_amount as int,
    );
    let ghost a = signed_amount as int;
    let (mut row, mut col) = source;
    let mut i: usize = 0;
    proof {
        assert(steps@.skip(0) =~= steps@);
    }
    while i < steps.len()
        invariant
            i <= steps@.len(),
            grid_ok(horizontal@, vertical@, nrow as int, ncol as int),
            row + 1 < nrow,
            col + 1 < ncol,
            signed_amount != i32::MIN,
            a == signed_amount as int,
            goal == pair_walk(
                old(horizontal)@,
                old(vertical)@,
                nrow as int,
                ncol as int,
                at(source),
                steps@,
                a,
            ),
            goal == pair_walk(
                horizontal@,
                vertical@,
                nrow as int,
                ncol as int,
                (row as int, col as int),
                steps@.skip(i as int),
                a,
            ),
        decreases steps@.len() - i,
    {
        let d = steps[i];
        proof {
            assert(steps@.skip(i as int)[0] == d);
            assert(steps@.skip(i as int).drop_first() =~= steps@.skip(i + 1));
        }
        if d <= ROUTE_LEFT {
            let inside = if d == ROUTE_UP {
                row > 0
            } else if d == ROUTE_RIGHT {
                col + 1 < ncol - 1
            } else if d == ROUTE_DOWN {
                row + 1 < nrow - 1
            } else {
                col > 0
            };
            if !inside {
                return;
            }
            let ghost h0 = horizontal@;
            let ghost v0 = vertical@;
            if !carry_step(horizontal, vertical, nrow, ncol, (row, col), d, signed_amount) {
                return;
            }
            proof {
                lemma_step_slots(h0, v0, nrow as int, ncol as int, (row as int, col as int), d, a);
            }
            if d == ROUTE_UP {
                row = row - 1;
            } else if d == ROUTE_RIGHT {
                col = col + 1;
            } else if d == ROUTE_DOWN {
                row = row + 1;
            } else {
                col = col - 1;
            }
        }
        i = i + 1;
    }
    proof {
        assert(steps@.skip(i as int).len() == 0);
    }
}

/// Farthest distance, counted in plaquette steps, at which a residue looks
/// for a partner.
pub const MAX_PAIR_RADIUS: usize = 256;

/// A pair of residues that a route can join, with the route's cost change.
#[derive(Clone, Copy, Debug, PartialEq, Eq)]
pub struct PairCandidate {
    pub cost: i128,
    pub source: (usize, usize),
    pub target: (usize, usize),
}

/// The residue of plaquette `pos` as `plaquette_curl` reads it: `None` when
/// one of its edges is absent or the residue leaves `i32`.
pub open spec fn curl_spec(
    h: Seq<Option<EdgeDatum>>,
    v: Seq<Option<EdgeDatum>>,
    ncol: int,
    pos: (int, int),
) -> Option<int> {
    let p = p_index(pos.0, pos.1, ncol);
    let present = h[p] is Some && v[left_of(p, ncol) + 1] is Some && h[p + ncol - 1] is Some
        && v[left_of(p, ncol)] is Some;
    if present && in_i32(residue_at(h, v, ncol, p)) {
        Some(residue_at(h, v, ncol, p))
    } else {
        None
    }
}

/// Two residues of opposite sign, neither of them `i32::MIN`.
pub open spec fn opposite_pair(sr: int, tr: int) -> bool {
    &&& (sr > 0 && tr < 0) || (sr < 0 && tr > 0)
    &&& sr != i32::MIN && tr != i32::MIN
}

/// The part of residue `sr` that meets residue `tr`: the smaller magnitude,
/// with the sign of `sr`.
pub open spec fn pair_amount(sr: int, tr: int) -> int {
    if sr > 0 {
        if sr < -tr {
            sr
        } else {
            -tr
        }
    } else {
        if -sr < tr {
            sr
        } else {
            -tr
        }
    }
}

pub open spec fn in_grid(nrow: int, ncol: int, pos: (usize, usize)) -> bool {
    pos.0 + 1 < nrow && pos.1 + 1 < ncol
}

/// Both plaquettes of a candidate lie in the grid.
pub open spec fn ends_in_grid(nrow: int, ncol: int, c: PairCandidate) -> bool {
    in_grid(nrow, ncol, c.source) && in_grid(nrow, ncol, c.target)
}

/// A candidate as `collect_local_pairs` records it: two distinct plaquettes
/// with residues of opposite sign, and the cost of the cheapest route that
/// carries the smaller of them from the source to the target.
pub open spec fn candidate_ok(
    h: Seq<Option<EdgeDatum>>,
    v: Seq<Option<EdgeDatum>>,
    nrow: int,
    ncol: int,
    c: PairCandidate,
) -> bool {
    &&& in_grid(nrow, ncol, c.source)
    &&& in_grid(nrow, ncol, c.target)
    &&& c.source != c.target
    &&& curl_spec(h, v, ncol, at(c.source)) matches Some(sr)
    &&& curl_spec(h, v, ncol, at(c.target)) matches Some(tr)
    &&& opposite_pair(sr, tr)
    &&& best_upto(
        h,
        v,
        nrow,
        ncol,
        at(c.source),
        at(c.target),
        pair_amount(sr, tr),
        candidate_count(),
    ) matches Some((cost, _))
    &&& cost == c.cost
}

proof fn lemma_rows_of(h: Seq<Option<EdgeDatum>>, v: Seq<Option<EdgeDatum>>, nrow: int, ncol: int)
    requires
        grid_ok(h, v, nrow, ncol),
        nrow >= 0,
        ncol >= 2,
    ensures
        rows_of(h.len() as int, ncol) == nrow,
{
    assert(h.len() == (ncol - 1) * nrow) by (nonlinear_arith)
        requires
            h.len() == nrow * (ncol - 1),
    ;
    vstd::arithmetic::div_mod::lemma_fundamental_div_mod_converse(h.len() as int, ncol - 1, nrow, 0);
}

/// The residue of plaquette `pos` (see `curl_spec`).
fn curl_at(
    horizontal: &[Option<EdgeDatum>],
    vertical: &[Option<EdgeDatum>],
    nrow: usize,
    ncol: usize,
    pos: (usize, usize),
) -> (r: Option<i32>)
    requires
        grid_ok(horizontal@, vertical@, nrow as int, ncol as int),
        in_grid(nrow as int, ncol as int, pos),
    ensures
        r matches Some(x) ==> curl_spec(horizontal@, vertical@, ncol as int, at(pos)) == Some(x as int),
        r is None ==> curl_spec(horizontal@, vertical@, ncol as int, at(pos)) is None,
{
    proof {
        lemma_rows_of(horizontal@, vertical@, nrow as int, ncol as int);
    }
    plaquette_curl(horizontal, vertical, ncol, pos.0, pos.1)
}

/// Whether residues `sr` and `tr` can be paired (see `opposite_pair`), and
/// the signed amount that pairs them.
fn pairing(sr: i32, tr: i32) -> (r: Option<i32>)
    ensures
        r is Some <==> opposite_pair(sr as int, tr as int),
        r matches Some(a) ==> a == pair_amount(sr as int, tr as int),
{
    if sr == i32::MIN || tr == i32::MIN {
        return None;
    }
    if sr > 0 && tr < 0 {
        Some(if sr < -tr {
            sr
        } else {
            -tr
        })
    } else if sr < 0 && tr > 0 {
        Some(if -sr < tr {
            sr
        } else {
            -tr
        })
    } else {
        None
    }
}

/// The candidate that `consider_target` records for plaquette `(row, col)`:
/// none when it lies outside the grid's columns, is the source, has no
/// readable residue of opposite sign, or no route joins them.
pub open spec fn target_cands(
    h: Seq<Option<EdgeDatum>>,
    v: Seq<Option<EdgeDatum>>,
    nrow: int,
    ncol: int,
    source: (usize, usize),
    sc: int,
    row: int,
    col: int,
) -> Seq<PairCandidate> {
    if col >= ncol - 1 || (row == source.0 && col == source.1) {
        Seq::empty()
    } else {
        match curl_spec(h, v, ncol, (row, col)) {
            Some(tc) => if opposite_pair(sc, tc) {
                match best_upto(h, v, nrow, ncol, at(source), (row, col), pair_amount(sc, tc), candidate_count()) {
                    Some((cost, _)) => seq![
                        PairCandidate { cost: cost as i128, source, target: (row as usize, col as usize) },
                    ],
                    None => Seq::empty(),
                }
            } else {
                Seq::empty()
            },
            None => Seq::empty(),
        }
    }
}

/// The candidates of one row at distance `radius` from the source: the
/// column to the left (clamped at 0), then the column to the right when it
/// lies in the grid.
pub open spec fn row_cands(
    h: Seq<Option<EdgeDatum>>,
    v: Seq<Option<EdgeDatum>>,
    nrow: int,
    ncol: int,
    source: (usize, usize),
    sc: int,
    radius: int,
    row: int,
) -> Seq<PairCandidate> {
    let rd = if row >= source.0 { row - source.0 } else { source.0 - row };
    let cd = radius - rd;
    let left = if source.1 >= cd { source.1 - cd } else { 0 };
    target_cands(h, v, nrow, ncol, source, sc, row, left) + if cd < ncol - 1 - source.1 {
        target_cands(h, v, nrow, ncol, source, sc, row, source.1 + cd)
    } else {
        Seq::empty()
    }
}

/// First row around the source at distance `radius`.
pub open spec fn radius_row_start(source: (usize, usize), radius: int) -> int {
    if source.0 >= radius { source.0 - radius } else { 0 }
}

/// Last row around the source at distance `radius`.
pub open spec fn radius_row_end(nrow: int, source: (usize, usize), radius: int) -> int {
    if radius < nrow - 2 - source.0 { source.0 + radius } else { nrow - 2 }
}

/// The candidates of the rows `radius_row_start..r` at distance `radius`.
pub open spec fn rows_cands(
    h: Seq<Option<EdgeDatum>>,
    v: Seq<Option<EdgeDatum>>,
    nrow: int,
    ncol: int,
    source: (usize, usize),
    sc: int,
    radius: int,
    r: int,
) -> Seq<PairCandidate>
    decreases r - radius_row_start(source, radius),
{
    if r <= radius_row_start(source, radius) {
        Seq::empty()
    } else {
        rows_cands(h, v, nrow, ncol, source, sc, radius, r - 1) + row_cands(h, v, nrow, ncol, source, sc, radius, r - 1)
    }
}

/// The candidates at distances `1..=k`, nearest first.
pub open spec fn radius_cands(
    h: Seq<Option<EdgeDatum>>,
    v: Seq<Option<EdgeDatum>>,
    nrow: int,
    ncol: int,
    source: (usize, usize),
    sc: int,
    k: int,
) -> Seq<PairCandidate>
    decreases k,
{
    if k <= 0 {
        Seq::empty()
    } else {
        radius_cands(h, v, nrow, ncol, source, sc, k - 1) + rows_cands(
            h,
            v,
            nrow,
            ncol,
            source,
            sc,
            k,
            radius_row_end(nrow, source, k) + 1,
        )
    }
}

/// The candidates that `collect_local_pairs` records for `source`.
pub open spec fn local_pairs(
    h: Seq<Option<EdgeDatum>>,
    v: Seq<Option<EdgeDatum>>,
    nrow: int,
    ncol: int,
    source: (usize, usize),
) -> Seq<PairCandidate> {
    match curl_spec(h, v, ncol, at(source)) {
        Some(sc) => if sc == 0 || sc == i32::MIN {
            Seq::empty()
        } else {
            radius_cands(h, v, nrow, ncol, source, sc, MAX_PAIR_RADIUS as int)
        },
        None => Seq::empty(),
    }
}

/// Records the pair of `source` (with residue `source_curl`) and plaquette
/// `(row, col)` when the latter lies in the grid, differs from the source,
/// has a residue of opposite sign and a route joins them.
fn consider_target(
    horizontal: &[Option<EdgeDatum>],
    vertical: &[Option<EdgeDatum>],
    nrow: usize,
    ncol: usize,
    source: (usize, usize),
    source_curl: i32,
    row: usize,
    col: usize,
    candidates: &mut Vec<PairCandidate>,
)
    requires
        grid_ok(horizontal@, vertical@, nrow as int, ncol as int),
        in_grid(nrow as int, ncol as int, source),
        row + 1 < nrow,
        curl_spec(horizontal@, vertical@, ncol as int, at(source)) == Some(source_curl as int),
    ensures
        final(candidates)@ == old(candidates)@ + target_cands(
            horizontal@,
            vertical@,
            nrow as int,
            ncol as int,
            source,
            source_curl as int,
            row as int,
            col as int,
        ),
        final(candidates)@.len() >= old(candidates)@.len(),
        final(candidates)@.subrange(0, old(candidates)@.len() as int) == old(candidates)@,
        forall|i: int|
            old(candidates)@.len() <= i < final(candidates)@.len() ==> candidate_ok(
                horizontal@,
                vertical@,
                nrow as int,
                ncol as int,
                #[trigger] final(candidates)@[i],
            ) && final(candidates)@[i].source == source,
{
    if col >= ncol - 1 || (row == source.0 && col == source.1) {
        return;
    }
    let target_curl = match curl_at(horizontal, vertical, nrow, ncol, (row, col)) {
        Some(t) => t,
        None => {
            return;
        },
    };
    let signed_amount = match pairing(source_curl, target_curl) {
        Some(a) => a,
        None => {
            return;
        },
    };
    match route_path(horizontal, vertical, nrow, ncol, source, (row, col), signed_amount) {
        Some((cost, _steps)) => {
            candidates.push(PairCandidate { cost, source, target: (row, col) });
            proof {
                assert(candidates@.subrange(0, old(candidates)@.len() as int) =~= old(candidates)@);
            }
        },
        None => {},
    }
}

/// Extensions of a candidate list that keep what was there and add only
/// candidates valid for the given edges with the given source.
pub open spec fn extends_with(
    before: Seq<PairCandidate>,
    after: Seq<PairCandidate>,
    h: Seq<Option<EdgeDatum>>,
    v: Seq<Option<EdgeDatum>>,
    nrow: int,
    ncol: int,
    source: (usize, usize),
) -> bool {
    &&& after.len() >= before.len()
    &&& after.subrange(0, before.len() as int) == before
    &&& forall|i: int|
        before.len() <= i < after.len() ==> candidate_ok(h, v, nrow, ncol, #[trigger] after[i])
            && after[i].source == source
}

proof fn lemma_extends_trans(
    a: Seq<PairCandidate>,
    b: Seq<PairCandidate>,
    c: Seq<PairCandidate>,
    h: Seq<Option<EdgeDatum>>,
    v: Seq<Option<EdgeDatum>>,
    nrow: int,
    ncol: int,
    source: (usize, usize),
)
    requires
        extends_with(a, b, h, v, nrow, ncol, source),
        extends_with(b, c, h, v, nrow, ncol, source),
    ensures
        extends_with(a, c, h, v, nrow, ncol, source),
{
    assert(c.subrange(0, a.len() as int) =~= b.subrange(0, a.len() as int));
    assert forall|i: int| a.len() <= i < c.len() implies candidate_ok(h, v, nrow, ncol, #[trigger] c[i])
        && c[i].source == source by {
        if i < b.len() {
            assert(c[i] == b[i]);
        }
    }
}

/// Considers the two plaquettes of row `row` at distance `radius` from the
/// source (see `row_cands`).
fn consider_row(
    horizontal: &[Option<EdgeDatum>],
    vertical: &[Option<EdgeDatum>],
    nrow: usize,
    ncol: usize,
    source: (usize, usize),
    source_curl: i32,
    radius: usize,
    row: usize,
    candidates: &mut Vec<PairCandidate>,
)
    requires
        grid_ok(horizontal@, vertical@, nrow as int, ncol as int),
        in_grid(nrow as int, ncol as int, source),
        row + 1 < nrow,
        row <= source.0 + radius,
        source.0 <= row + radius,
        curl_spec(horizontal@, vertical@, ncol as int, at(source)) == Some(source_curl as int),
    ensures
        final(candidates)@ == old(candidates)@ + row_cands(
            horizontal@,
            vertical@,
            nrow as int,
            ncol as int,
            source,
            source_curl as int,
            radius as int,
            row as int,
        ),
        extends_with(old(candidates)@, final(candidates)@, horizontal@, vertical@, nrow as int, ncol as int, source),
{
    let ghost h = horizontal@;
    let ghost v = vertical@;
    let ghost start = candidates@;
    proof {
        assert(candidates@.subrange(0, candidates@.len() as int) =~= candidates@);
    }
    let pcn = ncol - 1;
    let row_distance = if row >= source.0 {
        row - source.0
    } else {
        source.0 - row
    };
    let col_distance = radius - row_distance;
    let left = if source.1 >= col_distance {
        source.1 - col_distance
    } else {
        0
    };
    consider_target(horizontal, vertical, nrow, ncol, source, source_curl, row, left, candidates);
    let ghost c1 = candidates@;
    if col_distance < pcn - source.1 {
        consider_target(
            horizontal,
            vertical,
            nrow,
            ncol,
            source,
            source_curl,
            row,
            source.1 + col_distance,
            candidates,
        );
        proof {
            lemma_extends_trans(start, c1, candidates@, h, v, nrow as int, ncol as int, source);
        }
    }
    proof {
        assert(candidates@ =~= start + row_cands(h, v, nrow as int, ncol as int, source, source_curl as int, radius as int, row as int));
    }
}

/// Candidates for pairing the residue of `source` with the plaquettes at
/// distance `1..=MAX_PAIR_RADIUS` from it, nearest first: for each distance,
/// the rows around the source in order, and in each row the column to the
/// left (clamped at the grid's first column) and the column to the right.
/// Adds nothing when the source's residue is zero, `i32::MIN` or unreadable.
pub fn collect_local_pairs(
    horizontal: &[Option<EdgeDatum>],
    vertical: &[Option<EdgeDatum>],
    nrow: usize,
    ncol: usize,
    source: (usize, usize),
    candidates: &mut Vec<PairCandidate>,
)
    requires
        grid_ok(horizontal@, vertical@, nrow as int, ncol as int),
        in_grid(nrow as int, ncol as int, source),
    ensures
        final(candidates)@ == old(candidates)@ + local_pairs(
            horizontal@,
            vertical@,
            nrow as int,
            ncol as int,
            source,
        ),
        extends_with(
            old(candidates)@,
            final(candidates)@,
            horizontal@,
            vertical@,
            nrow as int,
            ncol as int,
            source,
        ),
{
    proof {
        assert(candidates@.subrange(0, candidates@.len() as int) =~= candidates@);
    }
    let source_curl = match curl_at(horizontal, vertical, nrow, ncol, source) {
        Some(c) => c,
        None => {
            proof {
                assert(candidates@ + Seq::<PairCandidate>::empty() =~= candidates@);
            }
            return;
        },
    };
    if source_curl == 0 || source_curl == i32::MIN {
        proof {
            assert(candidates@ + Seq::<PairCandidate>::empty() =~= candidates@);
        }
        return;
    }
    let prn = nrow - 1;
    let pcn = ncol - 1;
    let ghost start = candidates@;
    let ghost h = horizontal@;
    let ghost v = vertical@;
    let mut radius: usize = 1;
    while radius <= MAX_PAIR_RADIUS
        invariant
            1 <= radius <= MAX_PAIR_RADIUS + 1,
            h == horizontal@,
            v == vertical@,
            grid_ok(h, v, nrow as int, ncol as int),
            in_grid(nrow as int, ncol as int, source),
            prn == nrow - 1,
            pcn == ncol - 1,
            curl_spec(h, v, ncol as int, at(source)) == Some(source_curl as int),
            extends_with(start, candidates@, h, v, nrow as int, ncol as int, source),
            start == old(candidates)@,
            candidates@ == start + radius_cands(h, v, nrow as int, ncol as int, source, source_curl as int, radius - 1),
        decreases MAX_PAIR_RADIUS + 1 - radius,
    {
        let row_start = if source.0 >= radius {
            source.0 - radius
        } else {
            0
        };
        let row_end = if radius < prn - 1 - source.0 {
            source.0 + radius
        } else {
            prn - 1
        };
        let ghost before_radius = candidates@;
        proof {
            assert(before_radius + Seq::<PairCandidate>::empty() =~= before_radius);
        }
        let mut row = row_start;
        while row <= row_end
            invariant
                1 <= radius <= MAX_PAIR_RADIUS,
                h == horizontal@,
                v == vertical@,
                grid_ok(h, v, nrow as int, ncol as int),
                in_grid(nrow as int, ncol as int, source),
                prn == nrow - 1,
                pcn == ncol - 1,
                row_end < prn,
                row_start <= source.0 + radius,
                row >= row_start,
                row_end <= source.0 + radius,
                source.0 <= row_start + radius,
                curl_spec(h, v, ncol as int, at(source)) == Some(source_curl as int),
                extends_with(start, candidates@, h, v, nrow as int, ncol as int, source),
                row_start as int == radius_row_start(source, radius as int),
                row <= row_end + 1,
                row_end as int == radius_row_end(nrow as int, source, radius as int),
                before_radius == start + radius_cands(h, v, nrow as int, ncol as int, source, source_curl as int, radius - 1),
                candidates@ == before_radius + rows_cands(
                    h,
                    v,
                    nrow as int,
                    ncol as int,
                    source,
                    source_curl as int,
                    radius as int,
                    row as int,
                ),
            decreases row_end + 1 - row,
        {
            let ghost prior = candidates@;
            consider_row(horizontal, vertical, nrow, ncol, source, source_curl, radius, row, candidates);
            proof {
                let rc = row_cands(h, v, nrow as int, ncol as int, source, source_curl as int, radius as int, row as int);
                lemma_extends_trans(start, prior, candidates@, h, v, nrow as int, ncol as int, source);
                assert(rows_cands(h, v, nrow as int, ncol as int, source, source_curl as int, radius as int, row + 1)
                    == rows_cands(h, v, nrow as int, ncol as int, source, source_curl as int, radius as int, row as int) + rc);
                assert(candidates@ =~= before_radius + rows_cands(
                    h,
                    v,
                    nrow as int,
                    ncol as int,
                    source,
                    source_curl as int,
                    radius as int,
                    row + 1,
                ));
            }
            row = row + 1;
        }
        proof {
            let prev = radius_cands(h, v, nrow as int, ncol as int, source, source_curl as int, radius - 1);
            let rows = rows_cands(h, v, nrow as int, ncol as int, source, source_curl as int, radius as int, row as int);
            assert(row == row_end + 1);
            assert(radius_cands(h, v, nrow as int, ncol as int, source, source_curl as int, radius as int)
                == prev + rows);
            assert(candidates@ =~= start + (prev + rows));
        }
        radius = radius + 1;
    }
}

/// Candidate `i` comes before candidate `j`: it is cheaper, or as cheap and
/// earlier in the list.
pub open spec fn comes_before(c: Seq<PairCandidate>, i: int, j: int) -> bool {
    c[i].cost < c[j].cost || (c[i].cost == c[j].cost && i < j)
}

/// Where candidate `i` goes into the order `o` when scanning back from
/// position `p`: before every candidate that costs more, after the rest.
pub open spec fn insert_position(c: Seq<PairCandidate>, o: Seq<usize>, i: int, p: int) -> int
    decreases p,
{
    if p > 0 && c[o[p - 1] as int].cost > c[i].cost {
        insert_position(c, o, i, p - 1)
    } else {
        p
    }
}

/// The order of the first `k` candidates, each inserted after those that
/// cost no more.
pub open spec fn order_upto(c: Seq<PairCandidate>, k: int) -> Seq<usize>
    decreases k,
{
    if k <= 0 {
        Seq::empty()
    } else {
        let o = order_upto(c, k - 1);
        o.insert(insert_position(c, o, k - 1, o.len() as int), (k - 1) as usize)
    }
}

/// The order in which the candidates are tried: their indices sorted by cost,
/// ties kept in list order (a stable sort by cost).
pub fn candidate_order(candidates: &Vec<PairCandidate>) -> (order: Vec<usize>)
    ensures
        order@ == order_upto(candidates@, candidates@.len() as int),
        order@.len() == candidates@.len(),
        forall|k: int| 0 <= k < order@.len() ==> (#[trigger] order@[k]) < candidates@.len(),
        forall|a: int, b: int|
            0 <= a < b < order@.len() ==> comes_before(
                candidates@,
                #[trigger] order@[a] as int,
                #[trigger] order@[b] as int,
            ),
{
    let n = candidates.len();
    let mut order: Vec<usize> = Vec::new();
    let mut i: usize = 0;
    while i < n
        invariant
            i <= n,
            n == candidates@.len(),
            order@ == order_upto(candidates@, i as int),
            order@.len() == i,
            forall|k: int| 0 <= k < order@.len() ==> (#[trigger] order@[k]) < i,
            forall|a: int, b: int|
                0 <= a < b < order@.len() ==> comes_before(
                    candidates@,
                    #[trigger] order@[a] as int,
                    #[trigger] order@[b] as int,
                ),
        decreases n - i,
    {
        let cost = candidates[i].cost;
        let mut pos = order.len();
        while pos > 0 && candidates[order[pos - 1]].cost > cost
            invariant
                pos <= order@.len(),
                order@.len() == i,
                i < n,
                n == candidates@.len(),
                cost == candidates@[i as int].cost,
                insert_position(candidates@, order@, i as int, pos as int) == insert_position(
                    candidates@,
                    order@,
                    i as int,
                    order@.len() as int,
                ),
                forall|k: int| 0 <= k < order@.len() ==> (#[trigger] order@[k]) < i,
                forall|k: int| pos <= k < order@.len() ==> candidates@[#[trigger] order@[k] as int].cost > cost,
            decreases pos,
        {
            pos = pos - 1;
        }
        let ghost old_order = order@;
        proof {
            if pos > 0 {
                assert forall|k: int| 0 <= k < pos implies candidates@[#[trigger] old_order[k] as int].cost
                    <= cost by {
                    if k < pos - 1 {
                        assert(comes_before(candidates@, old_order[k] as int, old_order[pos - 1] as int));
                    }
                }
            }
        }
        order.insert(pos, i);
        proof {
            assert forall|a: int, b: int| 0 <= a < b < order@.len() implies comes_before(
                candidates@,
                #[trigger] order@[a] as int,
                #[trigger] order@[b] as int,
            ) by {
                if b < pos {
                    assert(order@[a] == old_order[a] && order@[b] == old_order[b]);
                } else if b == pos {
                    assert(order@[a] == old_order[a]);
                } else if a < pos {
                    assert(order@[a] == old_order[a] && order@[b] == old_order[b - 1]);
                } else if a == pos {
                    assert(order@[b] == old_order[b - 1]);
                } else {
                    assert(order@[a] == old_order[a - 1] && order@[b] == old_order[b - 1]);
                }
            }
        }
        i = i + 1;
    }
    order
}

/// One step carrying part of its plaquette's residue (with its sign, at most
/// its size) never increases the total residue magnitude, whether it reaches
/// another plaquette or leaves the grid.
pub proof fn law_step_never_grows(
    h: Seq<Option<EdgeDatum>>,
    v: Seq<Option<EdgeDatum>>,
    nrow: int,
    ncol: int,
    pos: (int, int),
    d: u8,
    amount: int,
)
    requires
        grid_ok(h, v, nrow, ncol),
        nrow >= 2,
        ncol >= 2,
        0 <= pos.0 < nrow - 1,
        0 <= pos.1 < ncol - 1,
        step_carries(h, v, ncol, pos, d, amount),
        carries_part_of(residue_at(h, v, ncol, pidx(ncol, pos)), amount),
    ensures
        ({
            let (h2, v2) = step_applied(h, v, ncol, pos, d, amount);
            &&& grid_ok(h2, v2, nrow, ncol)
            &&& same_slots(h, h2)
            &&& same_slots(v, v2)
            &&& residue_magnitude(h2, v2, nrow, ncol) <= residue_magnitude(h, v, nrow, ncol)
        }),
{
    let (h2, v2) = step_applied(h, v, ncol, pos, d, amount);
    lemma_step_slots(h, v, nrow, ncol, pos, d, amount);
    let f = |q: int| residue_at(h, v, ncol, q);
    let g = |q: int| residue_at(h2, v2, ncol, q);
    let n = plaquette_count(nrow, ncol);
    let s = pidx(ncol, pos);
    lemma_plaquette_coords(pos.0, pos.1, nrow - 1, ncol - 1);
    let t = match step_target(nrow, ncol, pos, d) {
        Some(next) => pidx(ncol, next),
        None => -1,
    };
    if let Some(next) = step_target(nrow, ncol, pos, d) {
        lemma_plaquette_coords(next.0, next.1, nrow - 1, ncol - 1);
    }
    assert forall|q: int| 0 <= q < n implies #[trigger] g(q) == f(q) - carried(q == s, amount) + carried(
        q == t,
        amount,
    ) by {
        lemma_step_moves_residue(h, v, nrow, ncol, pos, d, amount, q);
    }
    lemma_abs_sum_move(f, g, n, s, t, amount);
}

/// What `try_pair` does to the edges for a candidate, and whether it applied a
/// route: when both residues are readable and of opposite sign and a route
/// joins the plaquettes, the smaller magnitude walks the cheapest route.
pub open spec fn try_pair_spec(
    h: Seq<Option<EdgeDatum>>,
    v: Seq<Option<EdgeDatum>>,
    nrow: int,
    ncol: int,
    c: PairCandidate,
) -> (Seq<Option<EdgeDatum>>, Seq<Option<EdgeDatum>>, bool) {
    match (curl_spec(h, v, ncol, at(c.source)), curl_spec(h, v, ncol, at(c.target))) {
        (Some(sc), Some(tc)) => if opposite_pair(sc, tc) {
            match best_upto(h, v, nrow, ncol, at(c.source), at(c.target), pair_amount(sc, tc), candidate_count()) {
                Some((_, steps)) => {
                    let (h2, v2, _) = pair_walk(h, v, nrow, ncol, at(c.source), steps, pair_amount(sc, tc));
                    (h2, v2, true)
                },
                None => (h, v, false),
            }
        } else {
            (h, v, false)
        },
        _ => (h, v, false),
    }
}

/// The source plaquette at row-major position `k`.
pub open spec fn source_at(ncol: int, k: int) -> (usize, usize) {
    ((k / (ncol - 1)) as usize, (k % (ncol - 1)) as usize)
}

/// The candidates of the sources at row-major positions `0..k`, in order.
pub open spec fn all_pairs(
    h: Seq<Option<EdgeDatum>>,
    v: Seq<Option<EdgeDatum>>,
    nrow: int,
    ncol: int,
    k: int,
) -> Seq<PairCandidate>
    decreases k,
{
    if k <= 0 {
        Seq::empty()
    } else {
        all_pairs(h, v, nrow, ncol, k - 1) + local_pairs(h, v, nrow, ncol, source_at(ncol, k - 1))
    }
}

/// The edges after trying the first `k` candidates in `order`, and whether
/// a route was applied.
pub open spec fn pairs_tried(
    h: Seq<Option<EdgeDatum>>,
    v: Seq<Option<EdgeDatum>>,
    nrow: int,
    ncol: int,
    cands: Seq<PairCandidate>,
    order: Seq<usize>,
    k: int,
) -> (Seq<Option<EdgeDatum>>, Seq<Option<EdgeDatum>>, bool)
    decreases k,
{
    if k <= 0 {
        (h, v, false)
    } else {
        let (h1, v1, changed) = pairs_tried(h, v, nrow, ncol, cands, order, k - 1);
        let (h2, v2, applied) = try_pair_spec(h1, v1, nrow, ncol, cands[order[k - 1] as int]);
        (h2, v2, changed || applied)
    }
}

/// What `pair_global_residues` does: the candidates of every plaquette,
/// tried cheapest first (see `order_upto`).
pub open spec fn global_pairing(
    h: Seq<Option<EdgeDatum>>,
    v: Seq<Option<EdgeDatum>>,
    nrow: int,
    ncol: int,
) -> (Seq<Option<EdgeDatum>>, Seq<Option<EdgeDatum>>, bool) {
    let cands = all_pairs(h, v, nrow, ncol, pass_count(nrow, ncol));
    let order = order_upto(cands, cands.len() as int);
    pairs_tried(h, v, nrow, ncol, cands, order, order.len() as int)
}

/// Pairs the residues of a candidate's two plaquettes when they still have
/// opposite signs: carries the smaller magnitude along the cheapest route
/// between them on the edges as they are now. Returns whether a route was
/// applied; the total residue magnitude never grows.
fn try_pair(
    horizontal: &mut Vec<Option<EdgeDatum>>,
    vertical: &mut Vec<Option<EdgeDatum>>,
    nrow: usize,
    ncol: usize,
    candidate: PairCandidate,
) -> (applied: bool)
    requires
        grid_ok(old(horizontal)@, old(vertical)@, nrow as int, ncol as int),
        in_grid(nrow as int, ncol as int, candidate.source),
        in_grid(nrow as int, ncol as int, candidate.target),
    ensures
        (final(horizontal)@, final(vertical)@, applied) == try_pair_spec(
            old(horizontal)@,
            old(vertical)@,
            nrow as int,
            ncol as int,
            candidate,
        ),
        grid_ok(final(horizontal)@, final(vertical)@, nrow as int, ncol as int),
        same_slots(old(horizontal)@, final(horizontal)@),
        same_slots(old(vertical)@, final(vertical)@),
        residue_magnitude(final(horizontal)@, final(vertical)@, nrow as int, ncol as int)
            <= residue_magnitude(old(horizontal)@, old(vertical)@, nrow as int, ncol as int),
        !applied ==> final(horizontal)@ == old(horizontal)@ && final(vertical)@ == old(vertical)@,
{
    let source_curl = match curl_at(horizontal, vertical, nrow, ncol, candidate.source) {
        Some(c) => c,
        None => {
            return false;
        },
    };
    let target_curl = match curl_at(horizontal, vertical, nrow, ncol, candidate.target) {
        Some(c) => c,
        None => {
            return false;
        },
    };
    let signed_amount = match pairing(source_curl, target_curl) {
        Some(a) => a,
        None => {
            return false;
        },
    };
    match route_path(
        horizontal,
        vertical,
        nrow,
        ncol,
        candidate.source,
        candidate.target,
        signed_amount,
    ) {
        Some((_cost, steps)) => {
            proof {
                lemma_plaquette_coords(
                    candidate.source.0 as int,
                    candidate.source.1 as int,
                    nrow - 1,
                    ncol - 1,
                );
                law_carrying_residue_never_grows(
                    horizontal@,
                    vertical@,
                    nrow as int,
                    ncol as int,
                    at(candidate.source),
                    steps@,
                    signed_amount as int,
                );
                lemma_pair_walk_moves(
                    horizontal@,
                    vertical@,
                    nrow as int,
                    ncol as int,
                    at(candidate.source),
                    steps@,
                    signed_amount as int,
                );
            }
            apply_pair_steps(
                horizontal,
                vertical,
                nrow,
                ncol,
                candidate.source,
                steps.as_slice(),
                signed_amount,
            );
            true
        },
        None => false,
    }
}

/// Joins residues of opposite sign farther apart: collects the candidate
/// pairs of every plaquette (see `collect_local_pairs`), then tries them
/// cheapest first; for each pair whose residues still have opposite signs,
/// carries the smaller magnitude along the cheapest route found on the edges
/// as they are then (see `route_path` and `apply_pair_steps`). Returns whether
/// a route was applied; the total residue magnitude never grows.
pub fn pair_global_residues(
    horizontal: &mut Vec<Option<EdgeDatum>>,
    vertical: &mut Vec<Option<EdgeDatum>>,
    nrow: usize,
    ncol: usize,
) -> (changed: bool)
    requires
        grid_ok(old(horizontal)@, old(vertical)@, nrow as int, ncol as int),
        nrow >= 2,
        ncol >= 2,
    ensures
        (final(horizontal)@, final(vertical)@, changed) == global_pairing(
            old(horizontal)@,
            old(vertical)@,
            nrow as int,
            ncol as int,
        ),
        grid_ok(final(horizontal)@, final(vertical)@, nrow as int, ncol as int),
        same_slots(old(horizontal)@, final(horizontal)@),
        same_slots(old(vertical)@, final(vertical)@),
        residue_magnitude(final(horizontal)@, final(vertical)@, nrow as int, ncol as int)
            <= residue_magnitude(old(horizontal)@, old(vertical)@, nrow as int, ncol as int),
        !changed ==> final(horizontal)@ == old(horizontal)@ && final(vertical)@ == old(vertical)@,
{
    let prn = nrow - 1;
    let pcn = ncol - 1;
    let ghost h0 = horizontal@;
    let ghost v0 = vertical@;
    let ghost nr = nrow as int;
    let ghost nc = ncol as int;
    let mut candidates: Vec<PairCandidate> = Vec::new();
    let mut row: usize = 0;
    while row < prn
        invariant
            row <= prn,
            prn == nrow - 1,
            pcn == ncol - 1,
            grid_ok(horizontal@, vertical@, nrow as int, ncol as int),
            h0 == horizontal@,
            v0 == vertical@,
            nr == nrow,
            nc == ncol,
            candidates@ == all_pairs(h0, v0, nr, nc, row * pcn),
            forall|i: int|
                0 <= i < candidates@.len() ==> ends_in_grid(nrow as int, ncol as int, #[trigger] candidates@[i]),
        decreases prn - row,
    {
        let mut col: usize = 0;
        while col < pcn
            invariant
                row < prn,
                col <= pcn,
                prn == nrow - 1,
                pcn == ncol - 1,
                grid_ok(horizontal@, vertical@, nrow as int, ncol as int),
                h0 == horizontal@,
                v0 == vertical@,
                nr == nrow,
                nc == ncol,
                candidates@ == all_pairs(h0, v0, nr, nc, row * pcn + col),
                forall|i: int|
                    0 <= i < candidates@.len() ==> ends_in_grid(nrow as int, ncol as int, #[trigger] candidates@[i]),
            decreases pcn - col,
        {
            let ghost before = candidates@;
            proof {
                lemma_plaquette_at(row as int, col as int, pcn as int);
                assert(source_at(nc, row * pcn + col) == (row, col));
            }
            collect_local_pairs(horizontal, vertical, nrow, ncol, (row, col), &mut candidates);
            proof {
                assert forall|i: int| 0 <= i < candidates@.len() implies ends_in_grid(
                    nrow as int,
                    ncol as int,
                    #[trigger] candidates@[i],
                ) by {
                    if i < before.len() {
                        assert(candidates@.subrange(0, before.len() as int)[i] == candidates@[i]);
                    } else {
                        assert(candidate_ok(horizontal@, vertical@, nrow as int, ncol as int, candidates@[i]));
                    }
                }
            }
            col = col + 1;
        }
        proof {
            assert((row + 1) * pcn == row * pcn + pcn) by (nonlinear_arith);
        }
        row = row + 1;
    }
    let candidates = candidates;
    let order = candidate_order(&candidates);
    proof {
        assert(pass_count(nr, nc) == prn * pcn);
    }
    let mut changed = false;
    let mut k: usize = 0;
    while k < order.len()
        invariant
            k <= order@.len(),
            order@.len() == candidates@.len(),
            forall|j: int| 0 <= j < order@.len() ==> (#[trigger] order@[j]) < candidates@.len(),
            forall|i: int|
                0 <= i < candidates@.len() ==> ends_in_grid(nrow as int, ncol as int, #[trigger] candidates@[i]),
            h0 == old(horizontal)@,
            v0 == old(vertical)@,
            nrow >= 2,
            ncol >= 2,
            grid_ok(horizontal@, vertical@, nrow as int, ncol as int),
            same_slots(h0, horizontal@),
            same_slots(v0, vertical@),
            residue_magnitude(horizontal@, vertical@, nrow as int, ncol as int) <= residue_magnitude(
                h0,
                v0,
                nrow as int,
                ncol as int,
            ),
            !changed ==> horizontal@ == h0 && vertical@ == v0,
            nr == nrow,
            nc == ncol,
            candidates@ == all_pairs(h0, v0, nr, nc, pass_count(nr, nc)),
            order@ == order_upto(candidates@, candidates@.len() as int),
            (horizontal@, vertical@, changed) == pairs_tried(h0, v0, nr, nc, candidates@, order@, k as int),
        decreases order@.len() - k,
    {
        let candidate = candidates[order[k]];
        let ghost hb = horizontal@;
        let ghost vb = vertical@;
        if try_pair(horizontal, vertical, nrow, ncol, candidate) {
            changed = true;
        }
        proof {
            crate::residual::lemma_slots_trans(h0, hb, horizontal@);
            crate::residual::lemma_slots_trans(v0, vb, vertical@);
        }
        k = k + 1;
    }
    changed
}

/// What `pair_neighbors` does to the edges, and whether it corrected: when
/// both residues are readable and of opposite sign and the shared edge can
/// carry the smaller magnitude, it crosses.
pub open spec fn neighbor_step(
    h: Seq<Option<EdgeDatum>>,
    v: Seq<Option<EdgeDatum>>,
    ncol: int,
    first: (int, int),
    second: (int, int),
    d: u8,
) -> (Seq<Option<EdgeDatum>>, Seq<Option<EdgeDatum>>, bool) {
    match (curl_spec(h, v, ncol, first), curl_spec(h, v, ncol, second)) {
        (Some(f), Some(t)) => if opposite_pair(f, t) && step_carries(h, v, ncol, first, d, pair_amount(f, t)) {
            let (h2, v2) = step_applied(h, v, ncol, first, d, pair_amount(f, t));
            (h2, v2, true)
        } else {
            (h, v, false)
        },
        _ => (h, v, false),
    }
}

/// The edges after pairing each plaquette with its right neighbour, for the
/// first `k` pairs in row-major order, and whether any pair crossed.
pub open spec fn across_pass(
    h: Seq<Option<EdgeDatum>>,
    v: Seq<Option<EdgeDatum>>,
    ncol: int,
    k: int,
) -> (Seq<Option<EdgeDatum>>, Seq<Option<EdgeDatum>>, bool)
    decreases k,
{
    if k <= 0 {
        (h, v, false)
    } else {
        let (h1, v1, changed) = across_pass(h, v, ncol, k - 1);
        let r = (k - 1) / (ncol - 2);
        let c = (k - 1) % (ncol - 2);
        let (h2, v2, applied) = neighbor_step(h1, v1, ncol, (r, c), (r, c + 1), ROUTE_RIGHT);
        (h2, v2, changed || applied)
    }
}

/// The edges after pairing each plaquette with its lower neighbour, for the
/// first `k` pairs in row-major order, and whether any pair crossed.
pub open spec fn down_pass(
    h: Seq<Option<EdgeDatum>>,
    v: Seq<Option<EdgeDatum>>,
    ncol: int,
    k: int,
) -> (Seq<Option<EdgeDatum>>, Seq<Option<EdgeDatum>>, bool)
    decreases k,
{
    if k <= 0 {
        (h, v, false)
    } else {
        let (h1, v1, changed) = down_pass(h, v, ncol, k - 1);
        let p = plaquette_at(ncol, k - 1);
        let (h2, v2, applied) = neighbor_step(h1, v1, ncol, p, (p.0 + 1, p.1), ROUTE_DOWN);
        (h2, v2, changed || applied)
    }
}

/// One round of `pair_neighbor_residues`: right neighbours, lower
/// neighbours, then farther pairs; and whether anything changed.
pub open spec fn pairing_round(
    h: Seq<Option<EdgeDatum>>,
    v: Seq<Option<EdgeDatum>>,
    nrow: int,
    ncol: int,
) -> (Seq<Option<EdgeDatum>>, Seq<Option<EdgeDatum>>, bool) {
    let (h1, v1, c1) = across_pass(h, v, ncol, (nrow - 1) * (ncol - 2));
    let (h2, v2, c2) = down_pass(h1, v1, ncol, (nrow - 2) * (ncol - 1));
    let (h3, v3, c3) = global_pairing(h2, v2, nrow, ncol);
    (h3, v3, c1 || c2 || c3)
}

/// The edges after up to `rounds` pairing rounds, stopping after a round
/// that changes nothing; nothing happens on a grid without plaquettes.
pub open spec fn pairing_rounds(
    h: Seq<Option<EdgeDatum>>,
    v: Seq<Option<EdgeDatum>>,
    nrow: int,
    ncol: int,
    rounds: int,
) -> (Seq<Option<EdgeDatum>>, Seq<Option<EdgeDatum>>)
    decreases rounds,
{
    if rounds <= 0 || nrow < 2 || ncol < 2 {
        (h, v)
    } else {
        let (h1, v1, changed) = pairing_round(h, v, nrow, ncol);
        if !changed {
            (h1, v1)
        } else {
            pairing_rounds(h1, v1, nrow, ncol, rounds - 1)
        }
    }
}

/// Pairs the residues of neighbouring plaquettes `first` and `second` (reached
/// from `first` by a step in direction `d`) across their shared edge when
/// they have opposite signs: the smaller magnitude crosses. Returns whether
/// the edge was corrected; the total residue magnitude never grows.
fn pair_neighbors(
    horizontal: &mut Vec<Option<EdgeDatum>>,
    vertical: &mut Vec<Option<EdgeDatum>>,
    nrow: usize,
    ncol: usize,
    first: (usize, usize),
    second: (usize, usize),
    d: u8,
) -> (applied: bool)
    requires
        grid_ok(old(horizontal)@, old(vertical)@, nrow as int, ncol as int),
        in_grid(nrow as int, ncol as int, first),
        in_grid(nrow as int, ncol as int, second),
    ensures
        (final(horizontal)@, final(vertical)@, applied) == neighbor_step(
            old(horizontal)@,
            old(vertical)@,
            ncol as int,
            at(first),
            at(second),
            d,
        ),
        grid_ok(final(horizontal)@, final(vertical)@, nrow as int, ncol as int),
        same_slots(old(horizontal)@, final(horizontal)@),
        same_slots(old(vertical)@, final(vertical)@),
        residue_magnitude(final(horizontal)@, final(vertical)@, nrow as int, ncol as int)
            <= residue_magnitude(old(horizontal)@, old(vertical)@, nrow as int, ncol as int),
        !applied ==> final(horizontal)@ == old(horizontal)@ && final(vertical)@ == old(vertical)@,
{
    let first_curl = match curl_at(horizontal, vertical, nrow, ncol, first) {
        Some(c) => c,
        None => {
            return false;
        },
    };
    let second_curl = match curl_at(horizontal, vertical, nrow, ncol, second) {
        Some(c) => c,
        None => {
            return false;
        },
    };
    let signed_amount = match pairing(first_curl, second_curl) {
        Some(a) => a,
        None => {
            return false;
        },
    };
    let ghost h0 = horizontal@;
    let ghost v0 = vertical@;
    let ok = carry_step(horizontal, vertical, nrow, ncol, first, d, signed_amount);
    proof {
        if ok {
            lemma_plaquette_coords(first.0 as int, first.1 as int, nrow - 1, ncol - 1);
            law_step_never_grows(h0, v0, nrow as int, ncol as int, at(first), d, signed_amount as int);
        }
    }
    ok
}

/// Cancels residues pairwise, in up to 16 rounds: each round pairs every
/// plaquette with its right neighbour, then with its lower neighbour, across
/// their shared edge (see `pair_neighbors`), then pairs farther residues
/// (see `pair_global_residues`); rounds stop once one changes nothing. Does
/// nothing on a grid without plaquettes. The edge slots stay, and the total
/// residue magnitude never grows.
pub fn pair_neighbor_residues(
    horizontal: &mut Vec<Option<EdgeDatum>>,
    vertical: &mut Vec<Option<EdgeDatum>>,
    nrow: usize,
    ncol: usize,
)
    requires
        grid_ok(old(horizontal)@, old(vertical)@, nrow as int, ncol as int),
    ensures
        (final(horizontal)@, final(vertical)@) == pairing_rounds(
            old(horizontal)@,
            old(vertical)@,
            nrow as int,
            ncol as int,
            16,
        ),
        grid_ok(final(horizontal)@, final(vertical)@, nrow as int, ncol as int),
        same_slots(old(horizontal)@, final(horizontal)@),
        same_slots(old(vertical)@, final(vertical)@),
        residue_magnitude(final(horizontal)@, final(vertical)@, nrow as int, ncol as int)
            <= residue_magnitude(old(horizontal)@, old(vertical)@, nrow as int, ncol as int),
{
    if nrow < 2 || ncol < 2 {
        return;
    }
    let prn = nrow - 1;
    let pcn = ncol - 1;
    let ghost h0 = horizontal@;
    let ghost v0 = vertical@;
    let ghost nr = nrow as int;
    let ghost nc = ncol as int;
    let mut round: usize = 0;
    while round < 16
        invariant_except_break
            pairing_rounds(h0, v0, nr, nc, 16) == pairing_rounds(horizontal@, vertical@, nr, nc, 16 - round),
        invariant
            round <= 16,
            prn == nrow - 1,
            pcn == ncol - 1,
            nrow >= 2,
            ncol >= 2,
            nr == nrow,
            nc == ncol,
            h0 == old(horizontal)@,
            v0 == old(vertical)@,
            grid_ok(horizontal@, vertical@, nrow as int, ncol as int),
            same_slots(h0, horizontal@),
            same_slots(v0, vertical@),
            residue_magnitude(horizontal@, vertical@, nrow as int, ncol as int) <= residue_magnitude(
                h0,
                v0,
                nrow as int,
                ncol as int,
            ),
        ensures
            pairing_rounds(h0, v0, nr, nc, 16) == (horizontal@, vertical@),
        decreases 16 - round,
    {
        let ghost hs = horizontal@;
        let ghost vs = vertical@;
        let mut across = false;
        let mut row: usize = 0;
        while row < prn
            invariant
                row <= prn,
                prn == nrow - 1,
                pcn == ncol - 1,
                nrow >= 2,
                ncol >= 2,
                nc == ncol,
                grid_ok(horizontal@, vertical@, nrow as int, ncol as int),
                same_slots(h0, horizontal@),
                same_slots(v0, vertical@),
                residue_magnitude(horizontal@, vertical@, nrow as int, ncol as int) <= residue_magnitude(
                    h0,
                    v0,
                    nrow as int,
                    ncol as int,
                ),
                (horizontal@, vertical@, across) == across_pass(hs, vs, nc, row * (pcn - 1)),
            decreases prn - row,
        {
            let mut col: usize = 0;
            while col + 1 < pcn
                invariant
                    row < prn,
                    col + 1 <= pcn,
                    prn == nrow - 1,
                    pcn == ncol - 1,
                    nrow >= 2,
                    ncol >= 2,
                    nc == ncol,
                    grid_ok(horizontal@, vertical@, nrow as int, ncol as int),
                    same_slots(h0, horizontal@),
                    same_slots(v0, vertical@),
                    residue_magnitude(horizontal@, vertical@, nrow as int, ncol as int)
                        <= residue_magnitude(h0, v0, nrow as int, ncol as int),
                    (horizontal@, vertical@, across) == across_pass(hs, vs, nc, row * (pcn - 1) + col),
                decreases pcn - col,
            {
                let ghost hb = horizontal@;
                let ghost vb = vertical@;
                proof {
                    lemma_plaquette_at(row as int, col as int, pcn - 1);
                }
                if pair_neighbors(horizontal, vertical, nrow, ncol, (row, col), (row, col + 1), ROUTE_RIGHT) {
                    across = true;
                }
                proof {
                    crate::residual::lemma_slots_trans(h0, hb, horizontal@);
                    crate::residual::lemma_slots_trans(v0, vb, vertical@);
                }
                col = col + 1;
            }
            proof {
                assert((row + 1) * (pcn - 1) == row * (pcn - 1) + (pcn - 1)) by (nonlinear_arith);
            }
            row = row + 1;
        }
        let ghost ha = horizontal@;
        let ghost va = vertical@;
        let mut down = false;
        let mut row: usize = 0;
        while row + 1 < prn
            invariant
                row + 1 <= prn,
                prn == nrow - 1,
                pcn == ncol - 1,
                nrow >= 2,
                ncol >= 2,
                nc == ncol,
                grid_ok(horizontal@, vertical@, nrow as int, ncol as int),
                same_slots(h0, horizontal@),
                same_slots(v0, vertical@),
                residue_magnitude(horizontal@, vertical@, nrow as int, ncol as int) <= residue_magnitude(
                    h0,
                    v0,
                    nrow as int,
                    ncol as int,
                ),
                (horizontal@, vertical@, down) == down_pass(ha, va, nc, row * pcn),
            decreases prn - row,
        {
            let mut col: usize = 0;
            while col < pcn
                invariant
                    row + 1 < prn,
                    col <= pcn,
                    prn == nrow - 1,
                    pcn == ncol - 1,
                    nrow >= 2,
                    ncol >= 2,
                    nc == ncol,
                    grid_ok(horizontal@, vertical@, nrow as int, ncol as int),
                    same_slots(h0, horizontal@),
                    same_slots(v0, vertical@),
                    residue_magnitude(horizontal@, vertical@, nrow as int, ncol as int)
                        <= residue_magnitude(h0, v0, nrow as int, ncol as int),
                    (horizontal@, vertical@, down) == down_pass(ha, va, nc, row * pcn + col),
                decreases pcn - col,
            {
                let ghost hb = horizontal@;
                let ghost vb = vertical@;
                proof {
                    lemma_plaquette_at(row as int, col as int, pcn as int);
                }
                if pair_neighbors(horizontal, vertical, nrow, ncol, (row, col), (row + 1, col), ROUTE_DOWN) {
                    down = true;
                }
                proof {
                    crate::residual::lemma_slots_trans(h0, hb, horizontal@);
                    crate::residual::lemma_slots_trans(v0, vb, vertical@);
                }
                col = col + 1;
            }
            proof {
                assert((row + 1) * pcn == row * pcn + pcn) by (nonlinear_arith);
            }
            row = row + 1;
        }
        let ghost hb = horizontal@;
        let ghost vb = vertical@;
        let global = pair_global_residues(horizontal, vertical, nrow, ncol);
        proof {
            crate::residual::lemma_slots_trans(h0, hb, horizontal@);
            crate::residual::lemma_slots_trans(v0, vb, vertical@);
            assert(pairing_round(hs, vs, nr, nc) == (horizontal@, vertical@, across || down || global));
            assert(pairing_rounds(hs, vs, nr, nc, 16 - round) == if !(across || down || global) {
                (horizontal@, vertical@)
            } else {
                pairing_rounds(horizontal@, vertical@, nr, nc, 16 - round - 1)
            });
        }
        if !(across || down || global) {
            break;
        }
        round = round + 1;
    }
}

/// How strongly an edge of cost `cost` resists a change: `max(|cost|, 1)`;
/// the edge's weight is its inverse.
pub open spec fn edge_strength(cost: int) -> int {
    if cost < 0 {
        if -cost > 1 {
            -cost
        } else {
            1
        }
    } else if cost > 1 {
        cost
    } else {
        1
    }
}

/// The side of a plaquette whose edge has the smallest weight (the largest
/// strength), the first of equals in the order top, right, bottom, left, as
/// the step direction through it.
pub open spec fn lightest_side(top: EdgeDatum, right: EdgeDatum, bottom: EdgeDatum, left: EdgeDatum) -> u8 {
    let s0 = edge_strength(top.cost as int);
    let s1 = edge_strength(right.cost as int);
    let s2 = edge_strength(bottom.cost as int);
    let s3 = edge_strength(left.cost as int);
    let (b1, w1) = if s1 > s0 {
        (ROUTE_RIGHT, s1)
    } else {
        (ROUTE_UP, s0)
    };
    let (b2, w2) = if s2 > w1 {
        (ROUTE_DOWN, s2)
    } else {
        (b1, w1)
    };
    if s3 > w2 {
        ROUTE_LEFT
    } else {
        b2
    }
}

/// The side of plaquette `p` through which `balance_plaquette` sends its
/// residue (see `lightest_side`).
pub open spec fn balance_side(
    h: Seq<Option<EdgeDatum>>,
    v: Seq<Option<EdgeDatum>>,
    ncol: int,
    p: (int, int),
) -> u8 {
    lightest_side(
        step_edge(h, v, ncol, p, ROUTE_UP)->0,
        step_edge(h, v, ncol, p, ROUTE_RIGHT)->0,
        step_edge(h, v, ncol, p, ROUTE_DOWN)->0,
        step_edge(h, v, ncol, p, ROUTE_LEFT)->0,
    )
}

/// `balance_plaquette` corrects plaquette `p`: its four edges are present,
/// its residue is readable, neither zero nor `i32::MIN`, and the edge of
/// smallest weight can carry it.
pub open spec fn balance_applies(
    h: Seq<Option<EdgeDatum>>,
    v: Seq<Option<EdgeDatum>>,
    ncol: int,
    p: (int, int),
) -> bool {
    &&& step_edge(h, v, ncol, p, ROUTE_UP) is Some
    &&& step_edge(h, v, ncol, p, ROUTE_RIGHT) is Some
    &&& step_edge(h, v, ncol, p, ROUTE_DOWN) is Some
    &&& step_edge(h, v, ncol, p, ROUTE_LEFT) is Some
    &&& curl_spec(h, v, ncol, p) matches Some(c)
    &&& c != 0
    &&& c != i32::MIN
    &&& step_carries(h, v, ncol, p, balance_side(h, v, ncol, p), c)
}

fn strength(cost: i32) -> (r: i64)
    ensures
        r == edge_strength(cost as int),
{
    let c = cost as i64;
    let a = if c < 0 {
        -c
    } else {
        c
    };
    if a > 1 {
        a
    } else {
        1
    }
}

/// Sends the whole residue of plaquette `pos` across its edge of smallest
/// weight (see `lightest_side`), which leaves the plaquette without residue.
/// Does nothing when an edge of the plaquette is absent, its residue is zero
/// or unreadable (see `curl_spec`) or `i32::MIN`, or the correction would
/// take the edge's numbers out of `i32`. Returns whether it corrected.
pub fn balance_plaquette(
    horizontal: &mut Vec<Option<EdgeDatum>>,
    vertical: &mut Vec<Option<EdgeDatum>>,
    nrow: usize,
    ncol: usize,
    pos: (usize, usize),
) -> (applied: bool)
    requires
        grid_ok(old(horizontal)@, old(vertical)@, nrow as int, ncol as int),
        in_grid(nrow as int, ncol as int, pos),
    ensures
        applied == balance_applies(old(horizontal)@, old(vertical)@, ncol as int, at(pos)),
        applied ==> (final(horizontal)@, final(vertical)@) == step_applied(
            old(horizontal)@,
            old(vertical)@,
            ncol as int,
            at(pos),
            balance_side(old(horizontal)@, old(vertical)@, ncol as int, at(pos)),
            curl_spec(old(horizontal)@, old(vertical)@, ncol as int, at(pos))->0,
        ),
        applied ==> residue_at(final(horizontal)@, final(vertical)@, ncol as int, pidx(ncol as int, at(pos)))
            == 0,
        !applied ==> final(horizontal)@ == old(horizontal)@ && final(vertical)@ == old(vertical)@,
        grid_ok(final(horizontal)@, final(vertical)@, nrow as int, ncol as int),
        same_slots(old(horizontal)@, final(horizontal)@),
        same_slots(old(vertical)@, final(vertical)@),
        residue_magnitude(final(horizontal)@, final(vertical)@, nrow as int, ncol as int)
            <= residue_magnitude(old(horizontal)@, old(vertical)@, nrow as int, ncol as int),
{
    let ghost h0 = horizontal@;
    let ghost v0 = vertical@;
    let ghost p = at(pos);
    let (row, col) = pos;
    let pcn = ncol - 1;
    let hl = horizontal.len();
    let vl = vertical.len();
    proof {
        lemma_plaquette_coords(row as int, col as int, nrow - 1, pcn as int);
        assert((row + 1) * pcn == row * pcn + pcn) by (nonlinear_arith);
    }
    let top = horizontal[horizontal_index(row, col, ncol)];
    let right = vertical[vertical_index(row, col + 1, ncol)];
    let bottom = horizontal[horizontal_index(row + 1, col, ncol)];
    let left = vertical[vertical_index(row, col, ncol)];
    let (t, r, b, l) = match (top, right, bottom, left) {
        (Some(t), Some(r), Some(b), Some(l)) => (t, r, b, l),
        _ => {
            return false;
        },
    };
    let curl = match curl_at(horizontal, vertical, nrow, ncol, pos) {
        Some(c) => c,
        None => {
            return false;
        },
    };
    if curl == 0 || curl == i32::MIN {
        return false;
    }
    let mut best = ROUTE_UP;
    let mut best_strength = strength(t.cost);
    let sr = strength(r.cost);
    if sr > best_strength {
        best = ROUTE_RIGHT;
        best_strength = sr;
    }
    let sb = strength(b.cost);
    if sb > best_strength {
        best = ROUTE_DOWN;
        best_strength = sb;
    }
    let sl = strength(l.cost);
    if sl > best_strength {
        best = ROUTE_LEFT;
    }
    assert(best == lightest_side(t, r, b, l));
    let ok = carry_step(horizontal, vertical, nrow, ncol, pos, best, curl);
    proof {
        if ok {
            law_step_never_grows(h0, v0, nrow as int, ncol as int, p, best, curl as int);
            lemma_step_moves_residue(h0, v0, nrow as int, ncol as int, p, best, curl as int, pidx(ncol as int, p));
            if let Some(n) = step_target(nrow as int, ncol as int, p, best) {
                lemma_plaquette_coords(n.0, n.1, nrow - 1, pcn as int);
                if pidx(ncol as int, n) == pidx(ncol as int, p) {
                    lemma_split_unique(n.0, n.1, p.0, p.1, pcn as int);
                }
            }
        }
    }
    ok
}

/// Number of plaquettes a pass visits: none on a grid without plaquettes.
pub open spec fn pass_count(nrow: int, ncol: int) -> int {
    if nrow >= 2 && ncol >= 2 {
        (nrow - 1) * (ncol - 1)
    } else {
        0
    }
}

/// The plaquette at row-major position `k`.
pub open spec fn plaquette_at(ncol: int, k: int) -> (int, int) {
    (k / (ncol - 1), k % (ncol - 1))
}

/// The edges after `balance_plaquette` visits the first `k` plaquettes in
/// row-major order, and whether it corrected any.
pub open spec fn balance_pass(
    h: Seq<Option<EdgeDatum>>,
    v: Seq<Option<EdgeDatum>>,
    ncol: int,
    k: int,
) -> (Seq<Option<EdgeDatum>>, Seq<Option<EdgeDatum>>, bool)
    decreases k,
{
    if k <= 0 {
        (h, v, false)
    } else {
        let (h1, v1, changed) = balance_pass(h, v, ncol, k - 1);
        let p = plaquette_at(ncol, k - 1);
        if balance_applies(h1, v1, ncol, p) {
            let (h2, v2) = step_applied(h1, v1, ncol, p, balance_side(h1, v1, ncol, p), curl_spec(h1, v1, ncol, p)->0);
            (h2, v2, true)
        } else {
            (h1, v1, changed)
        }
    }
}

/// The edges after up to `rounds` balancing passes, stopping after a pass
/// that corrects nothing.
pub open spec fn balance_rounds(
    h: Seq<Option<EdgeDatum>>,
    v: Seq<Option<EdgeDatum>>,
    nrow: int,
    ncol: int,
    rounds: int,
) -> (Seq<Option<EdgeDatum>>, Seq<Option<EdgeDatum>>)
    decreases rounds,
{
    if rounds <= 0 {
        (h, v)
    } else {
        let (h1, v1, changed) = balance_pass(h, v, ncol, pass_count(nrow, ncol));
        if !changed {
            (h1, v1)
        } else {
            balance_rounds(h1, v1, nrow, ncol, rounds - 1)
        }
    }
}

/// Row-major position `row * pcn + col` names plaquette `(row, col)`.
pub proof fn lemma_plaquette_at(row: int, col: int, pcn: int)
    requires
        0 <= col < pcn,
    ensures
        plaquette_at(pcn + 1, row * pcn + col) == (row, col),
{
    vstd::arithmetic::div_mod::lemma_fundamental_div_mod_converse(row * pcn + col, pcn, row, col);
}

/// Clears plaquette residues locally, in up to 16 rounds: each round visits
/// every plaquette in row order and sends its residue across its edge of
/// smallest weight (see `balance_plaquette` and `balance_rounds`); rounds
/// stop once one changes nothing. Does nothing on a grid without plaquettes.
/// The edge slots stay, and the total residue magnitude never grows.
pub fn balance_local_curl(
    horizontal: &mut Vec<Option<EdgeDatum>>,
    vertical: &mut Vec<Option<EdgeDatum>>,
    nrow: usize,
    ncol: usize,
)
    requires
        grid_ok(old(horizontal)@, old(vertical)@, nrow as int, ncol as int),
    ensures
        (final(horizontal)@, final(vertical)@) == balance_rounds(
            old(horizontal)@,
            old(vertical)@,
            nrow as int,
            ncol as int,
            16,
        ),
        grid_ok(final(horizontal)@, final(vertical)@, nrow as int, ncol as int),
        same_slots(old(horizontal)@, final(horizontal)@),
        same_slots(old(vertical)@, final(vertical)@),
        residue_magnitude(final(horizontal)@, final(vertical)@, nrow as int, ncol as int)
            <= residue_magnitude(old(horizontal)@, old(vertical)@, nrow as int, ncol as int),
{
    if nrow < 2 || ncol < 2 {
        proof {
            reveal_with_fuel(balance_rounds, 2);
        }
        return;
    }
    let prn = nrow - 1;
    let pcn = ncol - 1;
    let ghost h0 = horizontal@;
    let ghost v0 = vertical@;
    let ghost nr = nrow as int;
    let ghost nc = ncol as int;
    let mut round: usize = 0;
    while round < 16
        invariant_except_break
            balance_rounds(h0, v0, nr, nc, 16) == balance_rounds(horizontal@, vertical@, nr, nc, 16 - round),
        invariant
            round <= 16,
            prn == nrow - 1,
            pcn == ncol - 1,
            nrow >= 2,
            ncol >= 2,
            nr == nrow,
            nc == ncol,
            h0 == old(horizontal)@,
            v0 == old(vertical)@,
            grid_ok(horizontal@, vertical@, nrow as int, ncol as int),
            same_slots(h0, horizontal@),
            same_slots(v0, vertical@),
            residue_magnitude(horizontal@, vertical@, nrow as int, ncol as int) <= residue_magnitude(
                h0,
                v0,
                nrow as int,
                ncol as int,
            ),
        ensures
            balance_rounds(h0, v0, nr, nc, 16) == (horizontal@, vertical@),
        decreases 16 - round,
    {
        let ghost hs = horizontal@;
        let ghost vs = vertical@;
        let mut changed = false;
        let mut row: usize = 0;
        while row < prn
            invariant
                row <= prn,
                prn == nrow - 1,
                pcn == ncol - 1,
                nrow >= 2,
                ncol >= 2,
                nc == ncol,
                grid_ok(horizontal@, vertical@, nrow as int, ncol as int),
                same_slots(h0, horizontal@),
                same_slots(v0, vertical@),
                residue_magnitude(horizontal@, vertical@, nrow as int, ncol as int) <= residue_magnitude(
                    h0,
                    v0,
                    nrow as int,
                    ncol as int,
                ),
                (horizontal@, vertical@, changed) == balance_pass(hs, vs, nc, row * pcn),
            decreases prn - row,
        {
            let mut col: usize = 0;
            while col < pcn
                invariant
                    row < prn,
                    col <= pcn,
                    prn == nrow - 1,
                    pcn == ncol - 1,
                    nrow >= 2,
                    ncol >= 2,
                    nc == ncol,
                    grid_ok(horizontal@, vertical@, nrow as int, ncol as int),
                    same_slots(h0, horizontal@),
                    same_slots(v0, vertical@),
                    residue_magnitude(horizontal@, vertical@, nrow as int, ncol as int)
                        <= residue_magnitude(h0, v0, nrow as int, ncol as int),
                    (horizontal@, vertical@, changed) == balance_pass(hs, vs, nc, row * pcn + col),
                decreases pcn - col,
            {
                let ghost hb = horizontal@;
                let ghost vb = vertical@;
                proof {
                    lemma_plaquette_at(row as int, col as int, pcn as int);
                }
                if balance_plaquette(horizontal, vertical, nrow, ncol, (row, col)) {
                    changed = true;
                }
                proof {
                    crate::residual::lemma_slots_trans(h0, hb, horizontal@);
                    crate::residual::lemma_slots_trans(v0, vb, vertical@);
                }
                col = col + 1;
            }
            proof {
                assert((row + 1) * pcn == row * pcn + pcn) by (nonlinear_arith);
            }
            row = row + 1;
        }
        proof {
            assert(pass_count(nr, nc) == prn * pcn);
            assert(balance_rounds(hs, vs, nr, nc, 16 - round) == if !changed {
                (horizontal@, vertical@)
            } else {
                balance_rounds(horizontal@, vertical@, nr, nc, 16 - round - 1)
            });
        }
        if !changed {
            break;
        }
        round = round + 1;
    }
}

/// A route-table step from plaquette `(row, col)` is the step of the same
/// direction: the same edge, corrected the same way.
pub proof fn lemma_route_step_is_step(
    h: Seq<Option<EdgeDatum>>,
    v: Seq<Option<EdgeDatum>>,
    nrow: int,
    ncol: int,
    row: int,
    col: int,
    d: u8,
    amount: int,
)
    requires
        nrow >= 2,
        ncol >= 2,
        0 <= row < nrow - 1,
        0 <= col < ncol - 1,
        d <= ROUTE_LEFT,
    ensures
        p_index(row, col, ncol) == pidx(ncol, (row, col)),
        route_edge(h, v, ncol, p_index(row, col, ncol), d) == step_edge(h, v, ncol, (row, col), d),
        route_step_spec(h, v, ncol, p_index(row, col, ncol), d, amount) == step_applied(
            h,
            v,
            ncol,
            (row, col),
            d,
            amount,
        ),
{
    let pcn = ncol - 1;
    lemma_plaquette_coords(row, col, nrow - 1, pcn);
    assert((row + 1) * pcn == row * pcn + pcn) by (nonlinear_arith);
}

/// Carrying the whole residue of plaquette `s` to plaquette `t`, or out of
/// the grid (`t` outside the plaquettes), never increases the total residue
/// magnitude.
pub proof fn lemma_whole_move_never_grows(
    h: Seq<Option<EdgeDatum>>,
    v: Seq<Option<EdgeDatum>>,
    h2: Seq<Option<EdgeDatum>>,
    v2: Seq<Option<EdgeDatum>>,
    nrow: int,
    ncol: int,
    s: int,
    t: int,
    amount: int,
)
    requires
        0 <= s < plaquette_count(nrow, ncol),
        residue_at(h, v, ncol, s) == amount,
        forall|q: int|
            0 <= q < plaquette_count(nrow, ncol) ==> #[trigger] residue_at(h2, v2, ncol, q) == residue_at(
                h,
                v,
                ncol,
                q,
            ) - carried(q == s, amount) + carried(q == t, amount),
    ensures
        residue_magnitude(h2, v2, nrow, ncol) <= residue_magnitude(h, v, nrow, ncol),
{
    let f = |q: int| residue_at(h, v, ncol, q);
    let g = |q: int| residue_at(h2, v2, ncol, q);
    let n = plaquette_count(nrow, ncol);
    if s == t {
        assert forall|q: int| 0 <= q < n implies #[trigger] g(q) == f(q) by {}
        lemma_abs_sum_same(f, g, n);
    } else {
        assert forall|q: int| 0 <= q < n implies #[trigger] g(q) == f(q) - carried(q == s, amount) + carried(
            q == t,
            amount,
        ) by {}
        lemma_abs_sum_move(f, g, n, s, t, amount);
    }
}

} // verus!
