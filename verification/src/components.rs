//! Connected components of the cell grid and label refinement by shifting
//! whole components.
use vstd::prelude::*;
use crate::edges::{edge_label_energy, in_i32, label_energy, label_energy_ok, EdgeDatum};
use crate::label_energy::{
    h_cell, h_edge_energy, h_energy, v_energy, label_grid_ok, label_objective, label_objective_spec, labels_in_range,
    labels_ok, lemma_h_cell_bounds, v_edge_energy,
};
use crate::residual::{h_len, v_len};

verus! {

/// Marker of a cell that belongs to no component yet.
pub const UNASSIGNED: usize = usize::MAX;
/// Most components that the barrier shift looks at.
pub const MAX_BARRIER_COMPONENTS: usize = 64;
/// Most refinement passes of the barrier shift.
pub const MAX_BARRIER_PASSES: usize = 64;
/// Number of halvings of the mean edge cost that are tried as barriers.
pub const BARRIER_HALVINGS: u32 = 5;

/// Number of entries of `s[..k]` equal to `val`.
pub open spec fn count_eq(s: Seq<usize>, val: usize, k: int) -> int
    decreases k,
{
    if k <= 0 { 0 } else { count_eq(s, val, k - 1) + (if s[k - 1] == val { 1int } else { 0 }) }
}

proof fn lemma_count_eq_bounds(s: Seq<usize>, val: usize, k: int)
    requires
        0 <= k,
    ensures
        0 <= count_eq(s, val, k) <= k,
    decreases k,
{
    if k > 0 {
        lemma_count_eq_bounds(s, val, k - 1);
    }
}

proof fn lemma_count_eq_update(s: Seq<usize>, val: usize, i: int, x: usize, k: int)
    requires
        0 <= i < s.len(),
        0 <= k <= s.len(),
        s[i] == val,
        x != val,
    ensures
        count_eq(s.update(i, x), val, k) == count_eq(s, val, k) - (if i < k { 1int } else { 0 }),
    decreases k,
{
    if k > 0 {
        lemma_count_eq_update(s, val, i, x, k - 1);
    }
}

pub proof fn lemma_cell_row_col(node: int, nrow: int, ncol: int)
    requires
        ncol >= 1,
        0 <= node < nrow * ncol,
    ensures
        node == (node / ncol) * ncol + node % ncol,
        0 <= node / ncol < nrow,
        0 <= node % ncol < ncol,
        node % ncol > 0 ==> (node - 1) % ncol == node % ncol - 1 && (node - 1) / ncol == node / ncol,
        node % ncol + 1 < ncol ==> (node + 1) % ncol == node % ncol + 1 && (node + 1) / ncol == node / ncol
            && node + 1 < nrow * ncol,
        node / ncol > 0 ==> node - ncol >= 0 && node - ncol < (nrow - 1) * ncol,
        node / ncol + 1 < nrow ==> node + ncol < nrow * ncol && node < (nrow - 1) * ncol,
{
    let row = node / ncol;
    let col = node % ncol;
    vstd::arithmetic::div_mod::lemma_fundamental_div_mod(node, ncol);
    assert(node == row * ncol + col) by (nonlinear_arith)
        requires
            node == ncol * row + col,
    ;
    assert(0 <= row < nrow) by (nonlinear_arith)
        requires
            node == row * ncol + col,
            0 <= node < nrow * ncol,
            0 <= col < ncol,
    ;
    if col > 0 {
        vstd::arithmetic::div_mod::lemma_fundamental_div_mod_converse(node - 1, ncol, row, col - 1);
    }
    if col + 1 < ncol {
        vstd::arithmetic::div_mod::lemma_fundamental_div_mod_converse(node + 1, ncol, row, col + 1);
        vstd::arithmetic::mul::lemma_mul_inequality(row + 1, nrow, ncol);
        assert((row + 1) * ncol == row * ncol + ncol) by (nonlinear_arith);
    }
    if row > 0 {
        assert(node - ncol >= 0 && node - ncol < (nrow - 1) * ncol) by (nonlinear_arith)
            requires
                node == row * ncol + col,
                0 < row < nrow,
                0 <= col < ncol,
        ;
    }
    if row + 1 < nrow {
        assert(node + ncol < nrow * ncol && node < (nrow - 1) * ncol) by (nonlinear_arith)
            requires
                node == row * ncol + col,
                0 <= row,
                row + 1 < nrow,
                0 <= col < ncol,
        ;
    }
}

pub proof fn lemma_h_edge_of_cell(node: int, nrow: int, ncol: int)
    requires
        ncol >= 2,
        0 <= node < nrow * ncol,
        node % ncol < ncol - 1,
    ensures
        0 <= (node / ncol) * (ncol - 1) + node % ncol < h_len(nrow, ncol),
        h_cell((node / ncol) * (ncol - 1) + node % ncol, ncol) == node,
{
    let row = node / ncol;
    let col = node % ncol;
    let w = ncol - 1;
    vstd::arithmetic::div_mod::lemma_fundamental_div_mod(node, ncol);
    assert(node == row * ncol + col) by (nonlinear_arith)
        requires
            node == ncol * row + col,
    ;
    assert(0 <= row < nrow) by (nonlinear_arith)
        requires
            node == row * ncol + col,
            0 <= node < nrow * ncol,
            0 <= col < ncol,
    ;
    let i = row * w + col;
    assert(0 <= i < nrow * w) by (nonlinear_arith)
        requires
            0 <= row < nrow,
            0 <= col < w,
            i == row * w + col,
    ;
    vstd::arithmetic::div_mod::lemma_fundamental_div_mod_converse(i, w, row, col);
}

fn push_barrier_component_id(
    node: usize,
    edge: EdgeDatum,
    from_label: i32,
    to_label: i32,
    barrier: i64,
    component: usize,
    component_ids: &mut Vec<usize>,
    stack: &mut Vec<usize>,
)
    requires
        node < old(component_ids)@.len(),
        label_energy_ok(edge, from_label as int, to_label as int),
    ensures
        final(component_ids)@.len() == old(component_ids)@.len(),
        if old(component_ids)@[node as int] == UNASSIGNED && label_energy(
            edge,
            from_label as int,
            to_label as int,
        ) < barrier {
            &&& final(component_ids)@ == old(component_ids)@.update(node as int, component)
            &&& final(stack)@ == old(stack)@.push(node)
        } else {
            &&& final(component_ids)@ == old(component_ids)@
            &&& final(stack)@ == old(stack)@
        },
        ids_ok(old(component_ids)@, old(stack)@, component as int + 1, component as int) ==> ids_ok(
            final(component_ids)@,
            final(stack)@,
            component as int + 1,
            component as int,
        ),
        forall|j: int|
            0 <= j < old(component_ids)@.len() && old(component_ids)@[j] != UNASSIGNED
                ==> #[trigger] final(component_ids)@[j] != UNASSIGNED,
        component != UNASSIGNED ==> 2 * count_eq(final(component_ids)@, UNASSIGNED, final(component_ids)@.len() as int)
            + final(stack)@.len() < 2 * count_eq(old(component_ids)@, UNASSIGNED, old(component_ids)@.len() as int)
            + old(stack)@.len() + 1,
{
    if component_ids[node] != UNASSIGNED {
        return;
    }
    if edge_label_energy(edge, from_label, to_label) < barrier {
        proof {
            if component != UNASSIGNED {
                lemma_count_eq_update(component_ids@, UNASSIGNED, node as int, component, component_ids@.len() as int);
            }
        }
        component_ids.set(node, component);
        stack.push(node);
    }
}

/// The invariant of the component search: every cell is unassigned or carries
/// an id below `limit`, and every stacked cell is a cell of the current component.
pub open spec fn ids_ok(ids: Seq<usize>, stack: Seq<usize>, limit: int, current: int) -> bool {
    &&& forall|i: int| 0 <= i < ids.len() ==> (#[trigger] ids[i] == UNASSIGNED || ids[i] < limit)
    &&& forall|j: int| 0 <= j < stack.len() ==> #[trigger] stack[j] < ids.len() && ids[stack[j] as int] == current
}

/// The component search state after offering cell `n` to component `comp`:
/// an unassigned cell joined by a cheap edge gets the id and is stacked.
pub open spec fn offer_id(st: (Seq<usize>, Seq<usize>), n: int, cheap: bool, comp: usize) -> (Seq<usize>, Seq<usize>) {
    if cheap && st.0[n] == UNASSIGNED {
        (st.0.update(n, comp), st.1.push(n as usize))
    } else {
        st
    }
}

/// The component search state after exploring cell `node`: its left, right,
/// upper and lower neighbours are offered in turn, each joined through the
/// edge they share with `node`.
pub open spec fn explored(
    labels: Seq<i32>,
    h: Seq<Option<EdgeDatum>>,
    v: Seq<Option<EdgeDatum>>,
    nrow: int,
    ncol: int,
    barrier: int,
    comp: usize,
    node: int,
    st: (Seq<usize>, Seq<usize>),
) -> (Seq<usize>, Seq<usize>) {
    let row = node / ncol;
    let col = node % ncol;
    let s1 = if col > 0 {
        offer_id(st, node - 1, cheap_edge(h[row * (ncol - 1) + col - 1], labels[node - 1], labels[node], barrier), comp)
    } else {
        st
    };
    let s2 = if col + 1 < ncol {
        offer_id(s1, node + 1, cheap_edge(h[row * (ncol - 1) + col], labels[node], labels[node + 1], barrier), comp)
    } else {
        s1
    };
    let s3 = if row > 0 {
        offer_id(s2, node - ncol, cheap_edge(v[node - ncol], labels[node - ncol], labels[node], barrier), comp)
    } else {
        s2
    };
    if row + 1 < nrow {
        offer_id(s3, node + ncol, cheap_edge(v[node], labels[node], labels[node + ncol], barrier), comp)
    } else {
        s3
    }
}

#[verifier::rlimit(30)]
fn explore_barrier_node(
    node: usize,
    labels: &[i32],
    horizontal: &[Option<EdgeDatum>],
    vertical: &[Option<EdgeDatum>],
    nrow: usize,
    ncol: usize,
    barrier: i64,
    component_count: usize,
    component_ids: &mut Vec<usize>,
    stack: &mut Vec<usize>,
)
    requires
        label_grid_ok(labels@, horizontal@, vertical@, nrow as int, ncol as int),
        labels_ok(labels@, horizontal@, vertical@, ncol as int),
        old(component_ids)@.len() == labels@.len(),
        node < labels@.len(),
        component_count < UNASSIGNED,
        ids_ok(old(component_ids)@, old(stack)@, component_count as int + 1, component_count as int),
    ensures
        final(component_ids)@.len() == old(component_ids)@.len(),
        ids_ok(final(component_ids)@, final(stack)@, component_count as int + 1, component_count as int),
        forall|j: int|
            0 <= j < old(component_ids)@.len() && old(component_ids)@[j] != UNASSIGNED
                ==> #[trigger] final(component_ids)@[j] != UNASSIGNED,
        2 * count_eq(final(component_ids)@, UNASSIGNED, final(component_ids)@.len() as int)
            + final(stack)@.len() <= 2 * count_eq(old(component_ids)@, UNASSIGNED, old(component_ids)@.len() as int)
            + old(stack)@.len(),
        (final(component_ids)@, final(stack)@) == explored(
            labels@,
            horizontal@,
            vertical@,
            nrow as int,
            ncol as int,
            barrier as int,
            component_count,
            node as int,
            (old(component_ids)@, old(stack)@),
        ),
{
    let cells = labels.len();
    let row = node / ncol;
    let col = node % ncol;
    proof {
        lemma_cell_row_col(node as int, nrow as int, ncol as int);
    }
    if col > 0 {
        proof {
            lemma_h_edge_of_cell(node - 1, nrow as int, ncol as int);
        }
        let edge_ix = row * (ncol - 1) + col - 1;
        if let Some(edge) = horizontal[edge_ix] {
            push_barrier_component_id(
                node - 1,
                edge,
                labels[node - 1],
                labels[node],
                barrier,
                component_count,
                component_ids,
                stack,
            );
        }
    }
    if col + 1 < ncol {
        proof {
            lemma_h_edge_of_cell(node as int, nrow as int, ncol as int);
            lemma_h_cell_bounds((row * (ncol - 1) + col) as int, nrow as int, ncol as int);
        }
        let edge_ix = row * (ncol - 1) + col;
        if let Some(edge) = horizontal[edge_ix] {
            push_barrier_component_id(
                node + 1,
                edge,
                labels[node],
                labels[node + 1],
                barrier,
                component_count,
                component_ids,
                stack,
            );
        }
    }
    if row > 0 {
        let edge_ix = node - ncol;
        if let Some(edge) = vertical[edge_ix] {
            push_barrier_component_id(
                node - ncol,
                edge,
                labels[node - ncol],
                labels[node],
                barrier,
                component_count,
                component_ids,
                stack,
            );
        }
    }
    if row + 1 < nrow {
        let edge_ix = node;
        if let Some(edge) = vertical[edge_ix] {
            push_barrier_component_id(
                node + ncol,
                edge,
                labels[node],
                labels[node + ncol],
                barrier,
                component_count,
                component_ids,
                stack,
            );
        }
    }
}

/// Labels the cells by connected component, where cells are connected through
/// present edges whose cost under `labels` is below `barrier`; components are
/// numbered in the order of their first cell. `None` once more than
/// `max_components` components would be needed.
pub fn collect_barrier_component_ids(
    labels: &[i32],
    horizontal: &[Option<EdgeDatum>],
    vertical: &[Option<EdgeDatum>],
    nrow: usize,
    ncol: usize,
    barrier: i64,
    max_components: usize,
) -> (r: Option<(Vec<usize>, usize)>)
    requires
        label_grid_ok(labels@, horizontal@, vertical@, nrow as int, ncol as int),
        labels_ok(labels@, horizontal@, vertical@, ncol as int),
        max_components < UNASSIGNED,
    ensures
        r matches Some((ids, count)) ==> {
            &&& ids@.len() == nrow * ncol
            &&& count <= max_components
            &&& forall|i: int| 0 <= i < ids@.len() ==> #[trigger] ids@[i] < count
        },
{
    let cell_count = labels.len();
    let mut component_ids: Vec<usize> = Vec::new();
    let mut i: usize = 0;
    while i < cell_count
        invariant
            i <= cell_count,
            cell_count == labels@.len(),
            component_ids@.len() == i,
            forall|j: int| 0 <= j < i ==> component_ids@[j] == UNASSIGNED,
        decreases cell_count - i,
    {
        component_ids.push(UNASSIGNED);
        i = i + 1;
    }
    let mut stack: Vec<usize> = Vec::new();
    let mut component_count: usize = 0;
    let mut seed: usize = 0;
    while seed < cell_count
        invariant
            seed <= cell_count,
            cell_count == labels@.len(),
            label_grid_ok(labels@, horizontal@, vertical@, nrow as int, ncol as int),
            labels_ok(labels@, horizontal@, vertical@, ncol as int),
            component_ids@.len() == cell_count,
            component_count <= max_components,
            max_components < UNASSIGNED,
            ids_ok(component_ids@, stack@, component_count as int, component_count as int),
            forall|j: int| 0 <= j < seed ==> #[trigger] component_ids@[j] != UNASSIGNED,
        decreases cell_count - seed,
    {
        if component_ids[seed] != UNASSIGNED {
            seed = seed + 1;
            continue;
        }
        if component_count >= max_components {
            return None;
        }
        let ghost before = component_ids@;
        component_ids.set(seed, component_count);
        stack = Vec::new();
        stack.push(seed);
        proof {
            lemma_count_eq_bounds(component_ids@, UNASSIGNED, cell_count as int);
        }
        while stack.len() > 0
            invariant
                cell_count == labels@.len(),
                label_grid_ok(labels@, horizontal@, vertical@, nrow as int, ncol as int),
                labels_ok(labels@, horizontal@, vertical@, ncol as int),
                component_ids@.len() == cell_count,
                component_count < max_components,
                max_components < UNASSIGNED,
                seed < cell_count,
                ids_ok(component_ids@, stack@, component_count as int + 1, component_count as int),
                forall|j: int| 0 <= j <= seed ==> #[trigger] component_ids@[j] != UNASSIGNED,
            decreases 2 * count_eq(component_ids@, UNASSIGNED, cell_count as int) + stack@.len(),
        {
            proof {
                lemma_count_eq_bounds(component_ids@, UNASSIGNED, cell_count as int);
            }
            let ghost m0 = 2 * count_eq(component_ids@, UNASSIGNED, cell_count as int) + stack@.len();
            let node = stack.pop().unwrap();
            assert(2 * count_eq(component_ids@, UNASSIGNED, cell_count as int) + stack@.len() == m0 - 1);
            explore_barrier_node(
                node,
                labels,
                horizontal,
                vertical,
                nrow,
                ncol,
                barrier,
                component_count,
                &mut component_ids,
                &mut stack,
            );
            assert(2 * count_eq(component_ids@, UNASSIGNED, cell_count as int) + stack@.len() < m0);
            proof {
                lemma_count_eq_bounds(component_ids@, UNASSIGNED, cell_count as int);
            }
        }
        component_count = component_count + 1;
        seed = seed + 1;
    }
    Some((component_ids, component_count))
}

/// Number of unvisited cells among the first `k`.
pub open spec fn count_false(s: Seq<bool>, k: int) -> int
    decreases k,
{
    if k <= 0 { 0 } else { count_false(s, k - 1) + (if !s[k - 1] { 1int } else { 0 }) }
}

pub proof fn lemma_count_false_bounds(s: Seq<bool>, k: int)
    requires
        0 <= k,
    ensures
        0 <= count_false(s, k) <= k,
    decreases k,
{
    if k > 0 {
        lemma_count_false_bounds(s, k - 1);
    }
}

pub proof fn lemma_count_false_update(s: Seq<bool>, i: int, k: int)
    requires
        0 <= i < s.len(),
        0 <= k <= s.len(),
        !s[i],
    ensures
        count_false(s.update(i, true), k) == count_false(s, k) - (if i < k { 1int } else { 0 }),
    decreases k,
{
    if k > 0 {
        lemma_count_false_update(s, i, k - 1);
    }
}

/// Bookkeeping of a flood fill that started from the marks `v0`: the cells
/// listed in `component` and in `stack` are distinct, newly marked, and are
/// all the cells marked since.
pub open spec fn fill_ok(v0: Seq<bool>, visited: Seq<bool>, component: Seq<usize>, stack: Seq<usize>) -> bool {
    &&& visited.len() == v0.len()
    &&& forall|i: int| 0 <= i < v0.len() && #[trigger] v0[i] ==> visited[i]
    &&& component.no_duplicates()
    &&& stack.no_duplicates()
    &&& forall|x: usize| #[trigger] component.contains(x) ==> !stack.contains(x)
    &&& forall|j: int|
        0 <= j < component.len() ==> (#[trigger] component[j] as int) < visited.len() && visited[component[j] as int]
            && !v0[component[j] as int]
    &&& forall|j: int|
        0 <= j < stack.len() ==> (#[trigger] stack[j] as int) < visited.len() && visited[stack[j] as int]
            && !v0[stack[j] as int]
    &&& forall|i: int|
        0 <= i < visited.len() && #[trigger] visited[i] ==> v0[i] || component.contains(i as usize) || stack.contains(
            i as usize,
        )
}

/// Moving the top of the stack to the end of the component keeps the
/// bookkeeping.
proof fn lemma_fill_pop(v0: Seq<bool>, visited: Seq<bool>, component: Seq<usize>, stack: Seq<usize>)
    requires
        fill_ok(v0, visited, component, stack),
        stack.len() > 0,
    ensures
        fill_ok(v0, visited, component.push(stack.last()), stack.drop_last()),
{
    broadcast use vstd::seq_lib::lemma_seq_contains_after_push;
    let node = stack.last();
    let c2 = component.push(node);
    let s2 = stack.drop_last();
    assert(stack =~= s2.push(node));
    assert(stack.contains(node)) by {
        assert(stack[stack.len() - 1] == node);
    }
    assert(!component.contains(node));
    assert(!s2.contains(node)) by {
        if s2.contains(node) {
            let j = choose|j: int| 0 <= j < s2.len() && s2[j] == node;
            assert(stack[j] == stack[stack.len() - 1]);
        }
    }
    assert(c2.no_duplicates()) by {
        assert forall|i: int, j: int| 0 <= i < c2.len() && 0 <= j < c2.len() && i != j implies c2[i] != c2[j] by {
            if i < component.len() && j < component.len() {
            } else if i < component.len() {
                assert(component.contains(c2[i]));
            } else {
                assert(component.contains(c2[j]));
            }
        }
    }
    assert(s2.no_duplicates());
    assert forall|x: usize| #[trigger] c2.contains(x) implies !s2.contains(x) by {
        if s2.contains(x) {
            let j = choose|j: int| 0 <= j < s2.len() && s2[j] == x;
            assert(stack[j] == x);
            assert(stack.contains(x));
        }
    }
    assert forall|j: int| 0 <= j < c2.len() implies (#[trigger] c2[j] as int) < visited.len() && visited[c2[j] as int]
        && !v0[c2[j] as int] by {
        if j == component.len() {
            assert(stack[stack.len() - 1] == c2[j]);
        }
    }
    assert forall|i: int|
        0 <= i < visited.len() && #[trigger] visited[i] implies v0[i] || c2.contains(i as usize) || s2.contains(
        i as usize,
    ) by {
        if stack.contains(i as usize) && !s2.contains(i as usize) {
            assert(i as usize == node);
        }
    }
}

/// Marking an unmarked cell and stacking it keeps the bookkeeping.
proof fn lemma_fill_push(v0: Seq<bool>, visited: Seq<bool>, component: Seq<usize>, stack: Seq<usize>, b: usize)
    requires
        fill_ok(v0, visited, component, stack),
        (b as int) < visited.len(),
        !visited[b as int],
    ensures
        fill_ok(v0, visited.update(b as int, true), component, stack.push(b)),
{
    broadcast use vstd::seq_lib::lemma_seq_contains_after_push;
    let v2 = visited.update(b as int, true);
    let s2 = stack.push(b);
    assert(!v0[b as int]);
    assert(!component.contains(b)) by {
        if component.contains(b) {
            let j = choose|j: int| 0 <= j < component.len() && component[j] == b;
        }
    }
    assert(!stack.contains(b)) by {
        if stack.contains(b) {
            let j = choose|j: int| 0 <= j < stack.len() && stack[j] == b;
        }
    }
    assert(s2.no_duplicates()) by {
        assert forall|i: int, j: int| 0 <= i < s2.len() && 0 <= j < s2.len() && i != j implies s2[i] != s2[j] by {
            if i < stack.len() && j < stack.len() {
            } else if i < stack.len() {
                assert(stack.contains(s2[i]));
            } else {
                assert(stack.contains(s2[j]));
            }
        }
    }
    assert forall|j: int| 0 <= j < s2.len() implies (#[trigger] s2[j] as int) < v2.len() && v2[s2[j] as int]
        && !v0[s2[j] as int] by {
        if j < stack.len() {
            assert(s2[j] == stack[j]);
        }
    }
    assert forall|i: int|
        0 <= i < v2.len() && #[trigger] v2[i] implies v0[i] || component.contains(i as usize) || s2.contains(
        i as usize,
    ) by {
        if i != b as int {
            assert(visited[i]);
        }
    }
}

/// Every cell marked in `a` is marked in `b`.
pub open spec fn marks_grow(a: Seq<bool>, b: Seq<bool>) -> bool {
    &&& a.len() == b.len()
    &&& forall|i: int| 0 <= i < a.len() && a[i] ==> #[trigger] b[i]
}

proof fn lemma_marks_grow_trans(a: Seq<bool>, b: Seq<bool>, c: Seq<bool>)
    requires
        marks_grow(a, b),
        marks_grow(b, c),
    ensures
        marks_grow(a, c),
{
    assert forall|i: int| 0 <= i < a.len() && a[i] implies #[trigger] c[i] by {
        assert(b[i]);
    }
}

/// `b` is one of the four grid neighbours of cell `a` (left, right, above,
/// below) in a grid of `nrow` rows and `ncol` columns, cells in row-major order.
pub open spec fn grid_neighbour(nrow: int, ncol: int, a: int, b: int) -> bool {
    ||| a % ncol > 0 && b == a - 1
    ||| a % ncol + 1 < ncol && b == a + 1
    ||| a / ncol > 0 && b == a - ncol
    ||| a / ncol + 1 < nrow && b == a + ncol
}

/// Cell `c[j]` is a grid neighbour of a cell listed before it in `c`.
pub open spec fn has_earlier_neighbour(nrow: int, ncol: int, c: Seq<usize>, j: int) -> bool {
    exists|k: int| 0 <= k < j && #[trigger] grid_neighbour(nrow, ncol, c[k] as int, c[j] as int)
}

/// Cell `x` is a grid neighbour of some cell listed in `c`.
pub open spec fn neighbour_of_some(nrow: int, ncol: int, c: Seq<usize>, x: int) -> bool {
    exists|k: int| 0 <= k < c.len() && #[trigger] grid_neighbour(nrow, ncol, c[k] as int, x)
}

/// Each cell of `c` after the first is a grid neighbour of an earlier one.
pub open spec fn joined_in_order(nrow: int, ncol: int, c: Seq<usize>) -> bool {
    forall|j: int| 0 < j < c.len() ==> #[trigger] has_earlier_neighbour(nrow, ncol, c, j)
}

/// Each cell of `s` is a grid neighbour of some cell of `c`.
pub open spec fn joined_to(nrow: int, ncol: int, c: Seq<usize>, s: Seq<usize>) -> bool {
    forall|j: int| 0 <= j < s.len() ==> #[trigger] neighbour_of_some(nrow, ncol, c, s[j] as int)
}

/// Moving the top of the stack to the end of the component keeps both
/// orders of the fill.
proof fn lemma_joined_pop(nrow: int, ncol: int, c: Seq<usize>, s: Seq<usize>)
    requires
        s.len() > 0,
        joined_in_order(nrow, ncol, c),
        c.len() > 0 ==> joined_to(nrow, ncol, c, s),
    ensures
        joined_in_order(nrow, ncol, c.push(s.last())),
        c.len() > 0 ==> joined_to(nrow, ncol, c.push(s.last()), s.drop_last()),
{
    let c2 = c.push(s.last());
    let s2 = s.drop_last();
    assert forall|j: int| 0 < j < c2.len() implies #[trigger] has_earlier_neighbour(nrow, ncol, c2, j) by {
        if j < c.len() {
            assert(has_earlier_neighbour(nrow, ncol, c, j));
            let k = choose|k: int| 0 <= k < j && #[trigger] grid_neighbour(nrow, ncol, c[k] as int, c[j] as int);
            assert(c2[k] == c[k] && c2[j] == c[j]);
            assert(grid_neighbour(nrow, ncol, c2[k] as int, c2[j] as int));
        } else {
            assert(neighbour_of_some(nrow, ncol, c, s[s.len() - 1] as int));
            let k = choose|k: int|
                0 <= k < c.len() && #[trigger] grid_neighbour(nrow, ncol, c[k] as int, s[s.len() - 1] as int);
            assert(c2[k] == c[k] && c2[j] == s[s.len() - 1]);
            assert(grid_neighbour(nrow, ncol, c2[k] as int, c2[j] as int));
        }
    }
    if c.len() > 0 {
        assert forall|j: int| 0 <= j < s2.len() implies #[trigger] neighbour_of_some(nrow, ncol, c2, s2[j] as int) by {
            assert(s2[j] == s[j]);
            assert(neighbour_of_some(nrow, ncol, c, s[j] as int));
            let k = choose|k: int| 0 <= k < c.len() && #[trigger] grid_neighbour(nrow, ncol, c[k] as int, s[j] as int);
            assert(c2[k] == c[k]);
            assert(grid_neighbour(nrow, ncol, c2[k] as int, s2[j] as int));
        }
    }
}

/// Stacking neighbours of the last component cell keeps the stack joined to
/// the component.
proof fn lemma_joined_push(nrow: int, ncol: int, c: Seq<usize>, s: Seq<usize>, s2: Seq<usize>)
    requires
        c.len() > 0,
        joined_to(nrow, ncol, c.drop_last(), s),
        s2.len() >= s.len(),
        forall|j: int| 0 <= j < s.len() ==> #[trigger] s2[j] == s[j],
        forall|j: int| s.len() <= j < s2.len() ==> grid_neighbour(nrow, ncol, c.last() as int, #[trigger] s2[j] as int),
    ensures
        joined_to(nrow, ncol, c, s2),
{
    assert forall|j: int| 0 <= j < s2.len() implies #[trigger] neighbour_of_some(nrow, ncol, c, s2[j] as int) by {
        if j < s.len() {
            assert(s2[j] == s[j]);
            assert(neighbour_of_some(nrow, ncol, c.drop_last(), s[j] as int));
            let k = choose|k: int|
                0 <= k < c.len() - 1 && #[trigger] grid_neighbour(nrow, ncol, c.drop_last()[k] as int, s[j] as int);
            assert(c[k] == c.drop_last()[k]);
            assert(grid_neighbour(nrow, ncol, c[k] as int, s2[j] as int));
        } else {
            assert(grid_neighbour(nrow, ncol, c[c.len() - 1] as int, s2[j] as int));
        }
    }
}

/// Flood-fills the cells that share `seed`'s label and are joined to it through
/// grid neighbours with that label, skipping cells already marked in `visited`.
/// The filled cells are listed in `component` (seed first, each once, each
/// after a neighbour listed before it), and they are exactly the cells that
/// become marked. Every same-label neighbour of a listed cell is listed or
/// was marked before.
pub fn collect_same_label_component(
    seed: usize,
    labels: &[i32],
    nrow: usize,
    ncol: usize,
    visited: &mut Vec<bool>,
    stack: &mut Vec<usize>,
    component: &mut Vec<usize>,
)
    requires
        ncol >= 1,
        labels@.len() == nrow * ncol,
        old(visited)@.len() == labels@.len(),
        seed < labels@.len(),
        !old(visited)@[seed as int],
    ensures
        final(visited)@.len() == old(visited)@.len(),
        final(component)@.len() >= 1,
        final(component)@[0] == seed,
        final(component)@.no_duplicates(),
        forall|j: int|
            0 <= j < final(component)@.len() ==> #[trigger] final(component)@[j] < labels@.len()
                && labels@[final(component)@[j] as int] == labels@[seed as int] && final(visited)@[final(component)@[j] as int]
                && !old(visited)@[final(component)@[j] as int],
        forall|i: int|
            0 <= i < labels@.len() ==> #[trigger] final(visited)@[i] == (old(visited)@[i] || final(component)@.contains(
                i as usize,
            )),
        forall|j: int, b: int|
            0 <= j < final(component)@.len() && 0 <= b < labels@.len() && #[trigger] grid_neighbour(
                nrow as int,
                ncol as int,
                final(component)@[j] as int,
                b,
            ) && labels@[b] == labels@[seed as int] ==> old(visited)@[b] || final(component)@.contains(b as usize),
        joined_in_order(nrow as int, ncol as int, final(component)@),
        marks_grow(old(visited)@, final(visited)@),
        final(stack)@.len() == 0,
{
    let ghost v0 = visited@;
    stack.clear();
    component.clear();
    let label = labels[seed];
    let cells = labels.len();
    proof {
        lemma_fill_push(v0, visited@, component@, stack@, seed);
    }
    visited.set(seed, true);
    stack.push(seed);
    let ghost mut first = true;
    while stack.len() > 0
        invariant
            ncol >= 1,
            cells == labels@.len(),
            labels@.len() == nrow * ncol,
            visited@.len() == cells,
            v0.len() == cells,
            seed < cells,
            label == labels@[seed as int],
            visited@[seed as int],
            marks_grow(v0, visited@),
            fill_ok(v0, visited@, component@, stack@),
            forall|j: int| 0 <= j < stack@.len() ==> labels@[#[trigger] stack@[j] as int] == label,
            forall|j: int| 0 <= j < component@.len() ==> labels@[#[trigger] component@[j] as int] == label,
            first ==> stack@ == seq![seed] && component@.len() == 0,
            !first ==> component@.len() >= 1 && component@[0] == seed,
            forall|j: int, b: int|
                0 <= j < component@.len() && 0 <= b < cells && #[trigger] grid_neighbour(
                    nrow as int,
                    ncol as int,
                    component@[j] as int,
                    b,
                ) && labels@[b] == label ==> visited@[b],
            joined_in_order(nrow as int, ncol as int, component@),
            !first ==> joined_to(nrow as int, ncol as int, component@, stack@),
        decreases 2 * count_false(visited@, visited@.len() as int) + stack@.len(),
    {
        proof {
            lemma_count_false_bounds(visited@, visited@.len() as int);
            lemma_fill_pop(v0, visited@, component@, stack@);
        }
        let ghost c0 = component@;
        let ghost s0 = stack@;
        let node = stack.pop().unwrap();
        component.push(node);
        proof {
            lemma_joined_pop(nrow as int, ncol as int, c0, s0);
            first = false;
            assert(component@ == c0.push(node));
            assert(stack@ == s0.drop_last());
        }
        let ghost c1 = component@;
        let ghost s1 = stack@;
        let ghost vb = visited@;
        stack_same_label_neighbours(node, label, labels, nrow, ncol, visited, stack, Ghost(v0), Ghost(c1));
        proof {
            lemma_marks_grow_trans(v0, vb, visited@);
        }
        proof {
            lemma_count_false_bounds(visited@, visited@.len() as int);
            assert(component@.drop_last() =~= c0);
            if c0.len() == 0 {
                assert(s1.len() == 0);
            }
            lemma_joined_push(nrow as int, ncol as int, component@, s1, stack@);
            assert forall|j: int, b: int|
                0 <= j < component@.len() && 0 <= b < cells && #[trigger] grid_neighbour(
                    nrow as int,
                    ncol as int,
                    component@[j] as int,
                    b,
                ) && labels@[b] == label implies visited@[b] by {
                if j < c0.len() {
                    assert(component@[j] == c0[j]);
                }
            }
        }
    }
    proof {
        assert forall|i: int| 0 <= i < labels@.len() implies #[trigger] visited@[i] == (v0[i]
            || component@.contains(i as usize)) by {
            if component@.contains(i as usize) {
                let j = choose|j: int| 0 <= j < component@.len() && component@[j] == i as usize;
            }
        }
        assert forall|j: int, b: int|
            0 <= j < component@.len() && 0 <= b < labels@.len() && #[trigger] grid_neighbour(
                nrow as int,
                ncol as int,
                component@[j] as int,
                b,
            ) && labels@[b] == labels@[seed as int] implies v0[b] || component@.contains(b as usize) by {
            assert(visited@[b]);
        }
    }
}

/// Marks and stacks the unmarked neighbours of `node` that carry `label`,
/// keeping the bookkeeping of the fill.
fn stack_same_label_neighbours(
    node: usize,
    label: i32,
    labels: &[i32],
    nrow: usize,
    ncol: usize,
    visited: &mut Vec<bool>,
    stack: &mut Vec<usize>,
    Ghost(v0): Ghost<Seq<bool>>,
    Ghost(component): Ghost<Seq<usize>>,
)
    requires
        ncol >= 1,
        labels@.len() == nrow * ncol,
        node < labels@.len(),
        old(visited)@.len() == labels@.len(),
        fill_ok(v0, old(visited)@, component, old(stack)@),
        forall|j: int| 0 <= j < old(stack)@.len() ==> labels@[#[trigger] old(stack)@[j] as int] == label,
    ensures
        final(visited)@.len() == old(visited)@.len(),
        marks_grow(old(visited)@, final(visited)@),
        fill_ok(v0, final(visited)@, component, final(stack)@),
        final(stack)@.len() >= old(stack)@.len(),
        forall|j: int| 0 <= j < old(stack)@.len() ==> #[trigger] final(stack)@[j] == old(stack)@[j],
        forall|j: int|
            old(stack)@.len() <= j < final(stack)@.len() ==> grid_neighbour(
                nrow as int,
                ncol as int,
                node as int,
                #[trigger] final(stack)@[j] as int,
            ),
        forall|j: int| 0 <= j < final(stack)@.len() ==> labels@[#[trigger] final(stack)@[j] as int] == label,
        forall|b: int|
            0 <= b < labels@.len() && #[trigger] grid_neighbour(nrow as int, ncol as int, node as int, b)
                && labels@[b] == label ==> final(visited)@[b],
        2 * count_false(final(visited)@, final(visited)@.len() as int) + final(stack)@.len() <= 2
            * count_false(old(visited)@, old(visited)@.len() as int) + old(stack)@.len(),
{
    let ghost w0 = visited@;
    let row = node / ncol;
    let col = node % ncol;
    let cells = labels.len();
    proof {
        lemma_cell_row_col(node as int, nrow as int, ncol as int);
    }
    if col > 0 {
        let n = node - 1;
        stack_if_same_label(n, label, labels, visited, stack, Ghost(v0), Ghost(component));
    }
    let ghost v1 = visited@;
    let ghost s1 = stack@;
    if col + 1 < ncol {
        assert(node + 1 < cells);
        let n = node + 1;
        stack_if_same_label(n, label, labels, visited, stack, Ghost(v0), Ghost(component));
    }
    let ghost v2 = visited@;
    let ghost s2 = stack@;
    if row > 0 {
        let n = node - ncol;
        stack_if_same_label(n, label, labels, visited, stack, Ghost(v0), Ghost(component));
    }
    let ghost v3 = visited@;
    let ghost s3 = stack@;
    if row + 1 < nrow {
        assert(node + ncol < cells);
        let n = node + ncol;
        stack_if_same_label(n, label, labels, visited, stack, Ghost(v0), Ghost(component));
    }
    proof {
        lemma_marks_grow_trans(w0, v1, v2);
        lemma_marks_grow_trans(w0, v2, v3);
        lemma_marks_grow_trans(w0, v3, visited@);
        assert forall|b: int|
            0 <= b < labels@.len() && #[trigger] grid_neighbour(nrow as int, ncol as int, node as int, b)
                && labels@[b] == label implies visited@[b] by {
            if b == node - 1 && col > 0 {
                assert(v1[b]);
            } else if b == node + 1 && col + 1 < ncol {
                assert(v2[b]);
            } else if b == node - ncol && row > 0 {
                assert(v3[b]);
            }
        }
    }
}

/// Marks and stacks cell `n` when it is unmarked and carries `label`,
/// keeping the bookkeeping of the fill.
fn stack_if_same_label(
    n: usize,
    label: i32,
    labels: &[i32],
    visited: &mut Vec<bool>,
    stack: &mut Vec<usize>,
    Ghost(v0): Ghost<Seq<bool>>,
    Ghost(component): Ghost<Seq<usize>>,
)
    requires
        n < labels@.len(),
        old(visited)@.len() == labels@.len(),
        fill_ok(v0, old(visited)@, component, old(stack)@),
        forall|j: int| 0 <= j < old(stack)@.len() ==> labels@[#[trigger] old(stack)@[j] as int] == label,
    ensures
        final(visited)@.len() == old(visited)@.len(),
        marks_grow(old(visited)@, final(visited)@),
        fill_ok(v0, final(visited)@, component, final(stack)@),
        final(stack)@ == old(stack)@ || final(stack)@ == old(stack)@.push(n),
        forall|j: int| 0 <= j < final(stack)@.len() ==> labels@[#[trigger] final(stack)@[j] as int] == label,
        labels@[n as int] == label ==> final(visited)@[n as int],
        2 * count_false(final(visited)@, final(visited)@.len() as int) + final(stack)@.len() <= 2
            * count_false(old(visited)@, old(visited)@.len() as int) + old(stack)@.len(),
{
    proof {
        if !visited@[n as int] && labels@[n as int] == label {
            lemma_fill_push(v0, visited@, component, stack@, n);
        }
    }
    push_same_label(n, label, labels, visited, stack);
}

/// Marks `node` and queues it when it is unvisited and carries `label`.
pub fn push_same_label(
    node: usize,
    label: i32,
    labels: &[i32],
    visited: &mut Vec<bool>,
    stack: &mut Vec<usize>,
)
    requires
        node < old(visited)@.len(),
        old(visited)@.len() == labels@.len(),
    ensures
        !old(visited)@[node as int] && labels@[node as int] == label ==> final(visited)@
            == old(visited)@.update(node as int, true) && final(stack)@ == old(stack)@.push(node),
        !(!old(visited)@[node as int] && labels@[node as int] == label) ==> final(visited)@
            == old(visited)@ && final(stack)@ == old(stack)@,
        final(visited)@.len() == old(visited)@.len(),
        marks_grow(old(visited)@, final(visited)@),
        labels@[node as int] == label ==> final(visited)@[node as int],
        2 * count_false(final(visited)@, final(visited)@.len() as int) + final(stack)@.len() <= 2
            * count_false(old(visited)@, old(visited)@.len() as int) + old(stack)@.len(),
{
    if !visited[node] && labels[node] == label {
        proof {
            lemma_count_false_update(visited@, node as int, visited@.len() as int);
        }
        visited.set(node, true);
        stack.push(node);
    }
}

/// The move of cell `i`'s label when components `first` and `second` shift
/// by `shift`: their cells move by `shift`, unless they hold cell 0, in which
/// case every other cell moves by `-shift`.
pub open spec fn component_shift(ids: Seq<usize>, first: usize, second: usize, shift: int, i: int) -> int {
    let anchored = ids[0] == first || ids[0] == second;
    let inside = ids[i] == first || ids[i] == second;
    if anchored && !inside {
        -shift
    } else if !anchored && inside {
        shift
    } else {
        0
    }
}

/// `labels` with the cells of components `first` and `second` moved by
/// `shift` cycles; when those components hold cell 0 the other cells move by
/// `-shift` instead, so that cell 0 keeps its label. `None` when a label would
/// leave the `i32` range.
fn shifted_labels(
    labels: &[i32],
    ids: &[usize],
    first: usize,
    second: usize,
    shift: i32,
) -> (r: Option<Vec<i32>>)
    requires
        ids@.len() == labels@.len(),
        labels@.len() >= 1,
        shift == 1 || shift == -1,
    ensures
        r matches Some(out) ==> out@.len() == labels@.len(),
        r is Some <==> forall|i: int|
            0 <= i < labels@.len() ==> #[trigger] in_i32(labels@[i] + component_shift(ids@, first, second, shift as int, i)),
        r matches Some(out) ==> forall|i: int|
            0 <= i < labels@.len() ==> #[trigger] out@[i] == labels@[i] + component_shift(ids@, first, second, shift as int, i),
{
    let anchored = ids[0] == first || ids[0] == second;
    let mut out: Vec<i32> = Vec::new();
    let mut i: usize = 0;
    while i < labels.len()
        invariant
            i <= labels@.len(),
            ids@.len() == labels@.len(),
            out@.len() == i,
            shift == 1 || shift == -1,
            anchored == (ids@[0] == first || ids@[0] == second),
            forall|j: int|
                0 <= j < i ==> #[trigger] in_i32(labels@[j] + component_shift(ids@, first, second, shift as int, j)),
            forall|j: int|
                0 <= j < i ==> #[trigger] out@[j] == labels@[j] + component_shift(ids@, first, second, shift as int, j),
        decreases labels.len() - i,
    {
        let inside = ids[i] == first || ids[i] == second;
        let delta: i64 = if inside != anchored { shift as i64 } else if inside && anchored {
            0
        } else {
            0
        };
        let delta: i64 = if anchored && !inside {
            -(shift as i64)
        } else if !anchored && inside {
            shift as i64
        } else {
            0
        };
        let value: i64 = labels[i] as i64 + delta;
        assert(value == labels@[i as int] + component_shift(ids@, first, second, shift as int, i as int));
        if value < i32::MIN as i64 || value > i32::MAX as i64 {
            assert(!in_i32(labels@[i as int] + component_shift(ids@, first, second, shift as int, i as int)));
            return None;
        }
        out.push(value as i32);
        i = i + 1;
    }
    Some(out)
}

/// Tries `candidate` in place of `labels`; keeps it when its objective is lower.
fn accept_if_better(
    labels: &mut Vec<i32>,
    candidate: Option<Vec<i32>>,
    horizontal: &[Option<EdgeDatum>],
    vertical: &[Option<EdgeDatum>],
    nrow: usize,
    ncol: usize,
    current: i128,
) -> (r: bool)
    requires
        label_grid_ok(old(labels)@, horizontal@, vertical@, nrow as int, ncol as int),
        labels_ok(old(labels)@, horizontal@, vertical@, ncol as int),
        current == label_objective_spec(old(labels)@, horizontal@, vertical@, ncol as int),
        candidate matches Some(c) ==> c@.len() == old(labels)@.len(),
    ensures
        final(labels)@.len() == old(labels)@.len(),
        labels_ok(final(labels)@, horizontal@, vertical@, ncol as int),
        r ==> label_objective_spec(final(labels)@, horizontal@, vertical@, ncol as int) < current,
        !r ==> final(labels)@ == old(labels)@,
        r == (candidate matches Some(c) && labels_ok(c@, horizontal@, vertical@, ncol as int)
            && label_objective_spec(c@, horizontal@, vertical@, ncol as int) < current),
        r ==> final(labels)@ == candidate->0@,
{
    match candidate {
        Some(c) => {
            if !labels_in_range(&c, horizontal, vertical, nrow, ncol) {
                return false;
            }
            let value = label_objective(&c, horizontal, vertical, nrow, ncol);
            if value < current {
                *labels = c;
                true
            } else {
                false
            }
        },
        None => false,
    }
}

/// Components `a` and `b` of `ids` share a present edge.
pub open spec fn comps_touch(
    ids: Seq<usize>,
    h: Seq<Option<EdgeDatum>>,
    v: Seq<Option<EdgeDatum>>,
    ncol: int,
    a: usize,
    b: usize,
) -> bool {
    ||| exists|i: int|
        0 <= i < h.len() && #[trigger] h[i] is Some && ((ids[h_cell(i, ncol)] == a && ids[h_cell(i, ncol) + 1]
            == b) || (ids[h_cell(i, ncol)] == b && ids[h_cell(i, ncol) + 1] == a))
    ||| exists|j: int|
        0 <= j < v.len() && #[trigger] v[j] is Some && ((ids[j] == a && ids[j + ncol] == b) || (ids[j] == b
            && ids[j + ncol] == a))
}

/// Marks the pairs of distinct components that share a present edge, in a
/// `count` by `count` table.
fn component_adjacency(
    ids: &[usize],
    horizontal: &[Option<EdgeDatum>],
    vertical: &[Option<EdgeDatum>],
    nrow: usize,
    ncol: usize,
    count: usize,
) -> (r: Vec<bool>)
    requires
        ncol >= 1,
        ids@.len() == nrow * ncol,
        horizontal@.len() == h_len(nrow as int, ncol as int),
        vertical@.len() == v_len(nrow as int, ncol as int),
        count <= MAX_BARRIER_COMPONENTS,
        forall|i: int| 0 <= i < ids@.len() ==> #[trigger] ids@[i] < count,
    ensures
        r@.len() == count * count,
        forall|a: usize, b: usize|
            a < count && b < count && a != b && #[trigger] comps_touch(ids@, horizontal@, vertical@, ncol as int, a, b)
                ==> r@[a * count + b],
{
    let mut adj: Vec<bool> = Vec::new();
    assert(count * count <= 4096) by (nonlinear_arith)
        requires
            count <= 64,
    ;
    let total = count * count;
    let mut i: usize = 0;
    while i < total
        invariant
            i <= total,
            adj@.len() == i,
        decreases total - i,
    {
        adj.push(false);
        i = i + 1;
    }
    let mut e: usize = 0;
    while e < horizontal.len()
        invariant
            e <= horizontal@.len(),
            ncol >= 1,
            ids@.len() == nrow * ncol,
            horizontal@.len() == h_len(nrow as int, ncol as int),
            count <= MAX_BARRIER_COMPONENTS,
            total == count * count,
            adj@.len() == total,
            forall|i: int| 0 <= i < ids@.len() ==> #[trigger] ids@[i] < count,
            forall|i: int|
                0 <= i < e && #[trigger] horizontal@[i] is Some && ids@[h_cell(i, ncol as int)] != ids@[h_cell(i, ncol as int) + 1]
                    ==> adj@[ids@[h_cell(i, ncol as int)] * count + ids@[h_cell(i, ncol as int) + 1]]
                    && adj@[ids@[h_cell(i, ncol as int) + 1] * count + ids@[h_cell(i, ncol as int)]],
        decreases horizontal.len() - e,
    {
        if horizontal[e].is_some() {
            proof {
                if ncol < 2 {
                    assert(horizontal@.len() == 0) by (nonlinear_arith)
                        requires
                            ncol < 2,
                            ncol >= 1,
                            horizontal@.len() == nrow * (ncol - 1),
                    ;
                }
                lemma_h_cell_bounds(e as int, nrow as int, ncol as int);
            }
            let cells = ids.len();
            let row = e / (ncol - 1);
            let col = e % (ncol - 1);
            assert(row as int == (e as int) / ((ncol as int) - 1));
            assert(col as int == (e as int) % ((ncol as int) - 1));
            assert(h_cell(e as int, ncol as int) == (row as int) * (ncol as int) + col as int);
            assert(row * ncol <= row * ncol + col);
            assert(row * ncol + col + 1 < cells);
            let a = ids[row * ncol + col];
            let b = ids[row * ncol + col + 1];
            if a != b {
                assert(a * count + b < count * count) by (nonlinear_arith)
                    requires
                        a < count,
                        b < count,
                ;
                assert(b * count + a < count * count) by (nonlinear_arith)
                    requires
                        a < count,
                        b < count,
                ;
                let ghost a0 = adj@;
                adj.set(a * count + b, true);
                adj.set(b * count + a, true);
                proof {
                    assert forall|k: int| 0 <= k < total && #[trigger] a0[k] implies adj@[k] by {}
                }
            }
        }
        proof {
            assert forall|i: int|
                0 <= i < e + 1 && #[trigger] horizontal@[i] is Some && ids@[h_cell(i, ncol as int)] != ids@[h_cell(i, ncol as int) + 1]
                    implies adj@[ids@[h_cell(i, ncol as int)] * count + ids@[h_cell(i, ncol as int) + 1]]
                    && adj@[ids@[h_cell(i, ncol as int) + 1] * count + ids@[h_cell(i, ncol as int)]] by {
                if ncol < 2 {
                    assert(horizontal@.len() == 0);
                }
                lemma_h_cell_bounds(i, nrow as int, ncol as int);
                let x = ids@[h_cell(i, ncol as int)];
                let y = ids@[h_cell(i, ncol as int) + 1];
                assert(x * count + y < count * count && y * count + x < count * count) by (nonlinear_arith)
                    requires
                        x < count,
                        y < count,
                ;
            }
        }
        e = e + 1;
    }
    let mut f: usize = 0;
    while f < vertical.len()
        invariant
            f <= vertical@.len(),
            ncol >= 1,
            horizontal@.len() == h_len(nrow as int, ncol as int),
            ids@.len() == nrow * ncol,
            vertical@.len() == v_len(nrow as int, ncol as int),
            count <= MAX_BARRIER_COMPONENTS,
            total == count * count,
            adj@.len() == total,
            forall|i: int| 0 <= i < ids@.len() ==> #[trigger] ids@[i] < count,
            forall|i: int|
                0 <= i < horizontal@.len() && #[trigger] horizontal@[i] is Some && ids@[h_cell(i, ncol as int)] != ids@[h_cell(i, ncol as int) + 1]
                    ==> adj@[ids@[h_cell(i, ncol as int)] * count + ids@[h_cell(i, ncol as int) + 1]]
                    && adj@[ids@[h_cell(i, ncol as int) + 1] * count + ids@[h_cell(i, ncol as int)]],
            forall|i: int|
                0 <= i < f && #[trigger] vertical@[i] is Some && ids@[i] != ids@[i + ncol]
                    ==> adj@[ids@[i] * count + ids@[i + ncol]] && adj@[ids@[i + ncol] * count + ids@[i]],
        decreases vertical.len() - f,
    {
        if vertical[f].is_some() {
            assert(f + ncol < nrow * ncol) by (nonlinear_arith)
                requires
                    f < (if nrow >= 1 { nrow - 1 } else { 0 }) * ncol,
            ;
            let a = ids[f];
            let b = ids[f + ncol];
            if a != b {
                assert(a * count + b < count * count) by (nonlinear_arith)
                    requires
                        a < count,
                        b < count,
                ;
                assert(b * count + a < count * count) by (nonlinear_arith)
                    requires
                        a < count,
                        b < count,
                ;
                let ghost a0 = adj@;
                adj.set(a * count + b, true);
                adj.set(b * count + a, true);
                proof {
                    assert forall|k: int| 0 <= k < total && #[trigger] a0[k] implies adj@[k] by {}
                }
            }
        }
        proof {
            assert forall|i: int|
                0 <= i < horizontal@.len() && #[trigger] horizontal@[i] is Some && ids@[h_cell(i, ncol as int)] != ids@[h_cell(i, ncol as int) + 1]
                    implies adj@[ids@[h_cell(i, ncol as int)] * count + ids@[h_cell(i, ncol as int) + 1]]
                    && adj@[ids@[h_cell(i, ncol as int) + 1] * count + ids@[h_cell(i, ncol as int)]] by {
                if ncol < 2 {
                    assert(horizontal@.len() == 0);
                }
                lemma_h_cell_bounds(i, nrow as int, ncol as int);
                let x = ids@[h_cell(i, ncol as int)];
                let y = ids@[h_cell(i, ncol as int) + 1];
                assert(x * count + y < count * count && y * count + x < count * count) by (nonlinear_arith)
                    requires
                        x < count,
                        y < count,
                ;
            }
            assert forall|i: int|
                0 <= i < f + 1 && #[trigger] vertical@[i] is Some && ids@[i] != ids@[i + ncol]
                    implies adj@[ids@[i] * count + ids@[i + ncol]] && adj@[ids@[i + ncol] * count + ids@[i]] by {
                assert(i + ncol < nrow * ncol) by (nonlinear_arith)
                    requires
                        0 <= i < (if nrow >= 1 { nrow - 1 } else { 0 }) * ncol,
                ;
                let x = ids@[i];
                let y = ids@[i + ncol];
                assert(x * count + y < count * count && y * count + x < count * count) by (nonlinear_arith)
                    requires
                        x < count,
                        y < count,
                ;
            }
        }
        f = f + 1;
    }
    proof {
        assert forall|a: usize, b: usize|
            a < count && b < count && a != b && #[trigger] comps_touch(ids@, horizontal@, vertical@, ncol as int, a, b)
                implies adj@[a * count + b] by {
            if exists|i: int|
                0 <= i < horizontal@.len() && #[trigger] horizontal@[i] is Some && ((ids@[h_cell(i, ncol as int)] == a
                    && ids@[h_cell(i, ncol as int) + 1] == b) || (ids@[h_cell(i, ncol as int)] == b && ids@[h_cell(
                    i,
                    ncol as int,
                ) + 1] == a)) {
                let i = choose|i: int|
                    0 <= i < horizontal@.len() && #[trigger] horizontal@[i] is Some && ((ids@[h_cell(i, ncol as int)]
                        == a && ids@[h_cell(i, ncol as int) + 1] == b) || (ids@[h_cell(i, ncol as int)] == b && ids@[h_cell(
                        i,
                        ncol as int,
                    ) + 1] == a));
                assert(horizontal@[i] is Some);
            } else {
                let i = choose|i: int|
                    0 <= i < vertical@.len() && #[trigger] vertical@[i] is Some && ((ids@[i] == a && ids@[i + ncol]
                        == b) || (ids@[i] == b && ids@[i + ncol] == a));
                assert(vertical@[i] is Some);
            }
        }
    }
    adj
}

/// Every label stays in `i32` when components `a` and `b` shift by `s`.
pub open spec fn shift_fits(l: Seq<i32>, ids: Seq<usize>, a: usize, b: usize, s: int) -> bool {
    forall|i: int| 0 <= i < l.len() ==> #[trigger] in_i32(l[i] + component_shift(ids, a, b, s, i))
}

/// The labels after components `a` and `b` shift by `s` (see `component_shift`).
pub open spec fn shifted_seq(l: Seq<i32>, ids: Seq<usize>, a: usize, b: usize, s: int) -> Seq<i32> {
    Seq::new(l.len(), |i: int| (l[i] + component_shift(ids, a, b, s, i)) as i32)
}

/// Shifting components `a` and `b` by `s` keeps every label and every edge
/// cost in range and lowers the label objective.
pub open spec fn move_improves(
    l: Seq<i32>,
    ids: Seq<usize>,
    h: Seq<Option<EdgeDatum>>,
    v: Seq<Option<EdgeDatum>>,
    ncol: int,
    a: usize,
    b: usize,
    s: int,
) -> bool {
    &&& shift_fits(l, ids, a, b, s)
    &&& labels_ok(shifted_seq(l, ids, a, b, s), h, v, ncol)
    &&& label_objective_spec(shifted_seq(l, ids, a, b, s), h, v, ncol) < label_objective_spec(l, h, v, ncol)
}

/// Neither shift of components `a` and `b`, by +1 or by -1, improves.
pub open spec fn move_fails(
    l: Seq<i32>,
    ids: Seq<usize>,
    h: Seq<Option<EdgeDatum>>,
    v: Seq<Option<EdgeDatum>>,
    ncol: int,
    a: usize,
    b: usize,
) -> bool {
    !move_improves(l, ids, h, v, ncol, a, b, 1) && !move_improves(l, ids, h, v, ncol, a, b, -1)
}

/// What `shifted_labels` returns, as a sequence.
proof fn lemma_shift_result(l: Seq<i32>, ids: Seq<usize>, a: usize, b: usize, s: int, out: Seq<i32>)
    requires
        out.len() == l.len(),
        forall|i: int| 0 <= i < l.len() ==> #[trigger] out[i] == l[i] + component_shift(ids, a, b, s, i),
    ensures
        out == shifted_seq(l, ids, a, b, s),
{
    assert(out =~= shifted_seq(l, ids, a, b, s));
}

/// Tries, in order, shifting each single component by +1 and -1, then each
/// pair of adjacent components (in increasing order of the pair) by +1 and
/// -1, keeping cell 0's label fixed; applies the first move that lowers the
/// objective.
fn try_component_moves(
    labels: &mut Vec<i32>,
    horizontal: &[Option<EdgeDatum>],
    vertical: &[Option<EdgeDatum>],
    nrow: usize,
    ncol: usize,
    ids: &[usize],
    count: usize,
) -> (r: bool)
    requires
        label_grid_ok(old(labels)@, horizontal@, vertical@, nrow as int, ncol as int),
        labels_ok(old(labels)@, horizontal@, vertical@, ncol as int),
        ids@.len() == old(labels)@.len(),
        count <= MAX_BARRIER_COMPONENTS,
        forall|i: int| 0 <= i < ids@.len() ==> #[trigger] ids@[i] < count,
    ensures
        final(labels)@.len() == old(labels)@.len(),
        labels_ok(final(labels)@, horizontal@, vertical@, ncol as int),
        r ==> label_objective_spec(final(labels)@, horizontal@, vertical@, ncol as int)
            < label_objective_spec(old(labels)@, horizontal@, vertical@, ncol as int),
        !r ==> final(labels)@ == old(labels)@,
        !r ==> forall|c: usize|
            c < count ==> #[trigger] move_fails(old(labels)@, ids@, horizontal@, vertical@, ncol as int, c, c),
        !r ==> forall|a: usize, b: usize|
            a < b < count && #[trigger] comps_touch(ids@, horizontal@, vertical@, ncol as int, a, b) ==> move_fails(
                old(labels)@,
                ids@,
                horizontal@,
                vertical@,
                ncol as int,
                a,
                b,
            ),
        r ==> exists|a: usize, b: usize, s: int|
            a < count && b < count && (s == 1 || s == -1) && #[trigger] move_improves(
                old(labels)@,
                ids@,
                horizontal@,
                vertical@,
                ncol as int,
                a,
                b,
                s,
            ) && final(labels)@ == shifted_seq(old(labels)@, ids@, a, b, s),
{
    assert(labels@.len() >= 1) by (nonlinear_arith)
        requires
            labels@.len() == nrow * ncol,
            nrow >= 1,
            ncol >= 1,
    ;
    let current = label_objective(labels, horizontal, vertical, nrow, ncol);
    let ghost l0 = labels@;
    let ghost hh = horizontal@;
    let ghost vv = vertical@;
    let ghost nc = ncol as int;
    let ghost mut ga: usize = 0;
    let ghost mut gb: usize = 0;
    let ghost mut gs: int = 1;
    let mut found = false;
    let mut c: usize = 0;
    while c < count && !found
        invariant
            c <= count,
            label_grid_ok(labels@, horizontal@, vertical@, nrow as int, ncol as int),
            labels_ok(labels@, horizontal@, vertical@, ncol as int),
            ids@.len() == labels@.len(),
            labels@.len() == l0.len(),
            l0.len() >= 1,
            current == label_objective_spec(l0, horizontal@, vertical@, ncol as int),
            found ==> label_objective_spec(labels@, horizontal@, vertical@, ncol as int) < current,
            !found ==> labels@ == l0,
            hh == horizontal@,
            vv == vertical@,
            nc == ncol,
            found ==> ga < count && gb < count && (gs == 1 || gs == -1) && move_improves(l0, ids@, hh, vv, nc, ga, gb, gs)
                && labels@ == shifted_seq(l0, ids@, ga, gb, gs),
            !found ==> forall|c2: usize|
                c2 < c ==> #[trigger] move_fails(l0, ids@, hh, vv, nc, c2, c2),
        decreases count - c,
    {
        let cand = shifted_labels(labels, ids, c, c, 1);
        proof {
            if cand is Some {
                lemma_shift_result(l0, ids@, c, c, 1, cand->0@);
            }
        }
        found = accept_if_better(labels, cand, horizontal, vertical, nrow, ncol, current);
        proof {
            if found {
                ga = c;
                gb = c;
                gs = 1;
            }
        }
        if !found {
            let cand = shifted_labels(labels, ids, c, c, -1);
            proof {
                if cand is Some {
                    lemma_shift_result(l0, ids@, c, c, -1, cand->0@);
                }
            }
            found = accept_if_better(labels, cand, horizontal, vertical, nrow, ncol, current);
            proof {
                if found {
                    ga = c;
                    gb = c;
                    gs = -1;
                }
            }
        }
        c = c + 1;
    }
    if found {
        return true;
    }
    let adj = component_adjacency(ids, horizontal, vertical, nrow, ncol, count);
    let mut a: usize = 0;
    while a < count && !found
        invariant
            a <= count,
            count <= MAX_BARRIER_COMPONENTS,
            adj@.len() == count * count,
            label_grid_ok(labels@, horizontal@, vertical@, nrow as int, ncol as int),
            labels_ok(labels@, horizontal@, vertical@, ncol as int),
            ids@.len() == labels@.len(),
            labels@.len() == l0.len(),
            l0.len() >= 1,
            current == label_objective_spec(l0, horizontal@, vertical@, ncol as int),
            found ==> label_objective_spec(labels@, horizontal@, vertical@, ncol as int) < current,
            !found ==> labels@ == l0,
            hh == horizontal@,
            vv == vertical@,
            nc == ncol,
            found ==> ga < count && gb < count && (gs == 1 || gs == -1) && move_improves(l0, ids@, hh, vv, nc, ga, gb, gs)
                && labels@ == shifted_seq(l0, ids@, ga, gb, gs),
            forall|x: usize, y: usize|
                x < count && y < count && x != y && #[trigger] comps_touch(ids@, hh, vv, nc, x, y) ==> adj@[x * count + y],
            !found ==> forall|c2: usize|
                c2 < count ==> #[trigger] move_fails(l0, ids@, hh, vv, nc, c2, c2),
            !found ==> forall|x: usize, y: usize|
                x < y < count && x < a && #[trigger] comps_touch(ids@, hh, vv, nc, x, y) ==> move_fails(l0, ids@, hh, vv, nc, x, y),
        decreases count - a,
    {
        let mut b: usize = a + 1;
        while b < count && !found
            invariant
                a < count,
                a + 1 <= b <= count,
                count <= MAX_BARRIER_COMPONENTS,
                adj@.len() == count * count,
                label_grid_ok(labels@, horizontal@, vertical@, nrow as int, ncol as int),
                labels_ok(labels@, horizontal@, vertical@, ncol as int),
                ids@.len() == labels@.len(),
                labels@.len() == l0.len(),
                l0.len() >= 1,
                current == label_objective_spec(l0, horizontal@, vertical@, ncol as int),
                found ==> label_objective_spec(labels@, horizontal@, vertical@, ncol as int) < current,
                !found ==> labels@ == l0,
                hh == horizontal@,
                vv == vertical@,
                nc == ncol,
                found ==> ga < count && gb < count && (gs == 1 || gs == -1) && move_improves(l0, ids@, hh, vv, nc, ga, gb, gs)
                    && labels@ == shifted_seq(l0, ids@, ga, gb, gs),
                forall|x: usize, y: usize|
                    x < count && y < count && x != y && #[trigger] comps_touch(ids@, hh, vv, nc, x, y) ==> adj@[x * count + y],
                !found ==> forall|c2: usize|
                    c2 < count ==> #[trigger] move_fails(l0, ids@, hh, vv, nc, c2, c2),
                !found ==> forall|x: usize, y: usize|
                    x < y < count && (x < a || (x == a && y < b)) && #[trigger] comps_touch(ids@, hh, vv, nc, x, y) ==> move_fails(l0, ids@, hh, vv, nc, x, y),
            decreases count - b,
        {
            assert(a * count + b < count * count) by (nonlinear_arith)
                requires
                    a < count,
                    b < count,
            ;
            assert(count * count <= 4096) by (nonlinear_arith)
                requires
                    count <= 64,
            ;
            if adj[a * count + b] {
                let cand = shifted_labels(labels, ids, a, b, 1);
                proof {
                    if cand is Some {
                        lemma_shift_result(l0, ids@, a, b, 1, cand->0@);
                    }
                }
                found = accept_if_better(labels, cand, horizontal, vertical, nrow, ncol, current);
                proof {
                    if found {
                        ga = a;
                        gb = b;
                        gs = 1;
                    }
                }
                if !found {
                    let cand = shifted_labels(labels, ids, a, b, -1);
                    proof {
                        if cand is Some {
                            lemma_shift_result(l0, ids@, a, b, -1, cand->0@);
                        }
                    }
                    found = accept_if_better(labels, cand, horizontal, vertical, nrow, ncol, current);
                    proof {
                        if found {
                            ga = a;
                            gb = b;
                            gs = -1;
                        }
                    }
                }
            } else {
                proof {
                    assert(!comps_touch(ids@, hh, vv, nc, a, b));
                }
            }
            b = b + 1;
        }
        a = a + 1;
    }
    found
}

/// Sum and number of the positive costs among horizontal edges `0..k`.
pub open spec fn h_positive(labels: Seq<i32>, h: Seq<Option<EdgeDatum>>, ncol: int, k: int) -> (int, int)
    decreases k,
{
    if k <= 0 {
        (0, 0)
    } else {
        let (s, c) = h_positive(labels, h, ncol, k - 1);
        let e = h_energy(labels, h, ncol, k - 1);
        if e > 0 { (s + e, c + 1) } else { (s, c) }
    }
}

/// Sum and number of the positive costs among vertical edges `0..k`, added
/// to `start`.
pub open spec fn v_positive(labels: Seq<i32>, v: Seq<Option<EdgeDatum>>, ncol: int, start: (int, int), k: int) -> (int, int)
    decreases k,
{
    if k <= 0 {
        start
    } else {
        let (s, c) = v_positive(labels, v, ncol, start, k - 1);
        let e = v_energy(labels, v, ncol, k - 1);
        if e > 0 { (s + e, c + 1) } else { (s, c) }
    }
}

/// Sum and number of the edges whose cost under `labels` is positive.
fn positive_energy_stats(
    labels: &[i32],
    horizontal: &[Option<EdgeDatum>],
    vertical: &[Option<EdgeDatum>],
    nrow: usize,
    ncol: usize,
) -> (r: (i128, usize))
    requires
        label_grid_ok(labels@, horizontal@, vertical@, nrow as int, ncol as int),
        labels_ok(labels@, horizontal@, vertical@, ncol as int),
    ensures
        r.0 >= 0,
        (r.0 as int, r.1 as int) == v_positive(
            labels@,
            vertical@,
            ncol as int,
            h_positive(labels@, horizontal@, ncol as int, horizontal@.len() as int),
            vertical@.len() as int,
        ),
{
    let mut sum: i128 = 0;
    let mut cnt: usize = 0;
    let mut i: usize = 0;
    while i < horizontal.len()
        invariant
            i <= horizontal@.len(),
            label_grid_ok(labels@, horizontal@, vertical@, nrow as int, ncol as int),
            labels_ok(labels@, horizontal@, vertical@, ncol as int),
            cnt <= i,
            0 <= sum <= (i as int) * crate::edges::COST_MAX,
            (sum as int, cnt as int) == h_positive(labels@, horizontal@, ncol as int, i as int),
        decreases horizontal.len() - i,
    {
        proof {
            if ncol < 2 {
                assert(horizontal@.len() == 0) by (nonlinear_arith)
                    requires
                        ncol < 2,
                        ncol >= 1,
                        horizontal@.len() == nrow * (ncol - 1),
                ;
            }
        }
        let e = h_edge_energy(labels, horizontal, nrow, ncol, i);
        proof {
            if let Some(d) = horizontal@[i as int] {
                crate::edges::lemma_cost_range(d, crate::edges::label_flow(
                    d,
                    labels@[h_cell(i as int, ncol as int)] as int,
                    labels@[h_cell(i as int, ncol as int) + 1] as int,
                ));
            }
            assert((i as int + 1) * crate::edges::COST_MAX == (i as int) * crate::edges::COST_MAX
                + crate::edges::COST_MAX) by (nonlinear_arith);
            assert((i as int + 1) * crate::edges::COST_MAX <= 0x4000_0000 * crate::edges::COST_MAX)
                by (nonlinear_arith)
                requires
                    i + 1 <= 0x4000_0000,
            ;
        }
        if e > 0 {
            sum = sum + e as i128;
            cnt = cnt + 1;
        }
        i = i + 1;
    }
    let mut j: usize = 0;
    while j < vertical.len()
        invariant
            j <= vertical@.len(),
            label_grid_ok(labels@, horizontal@, vertical@, nrow as int, ncol as int),
            labels_ok(labels@, horizontal@, vertical@, ncol as int),
            cnt <= horizontal@.len() + j,
            0 <= sum <= (horizontal@.len() + j) * crate::edges::COST_MAX,
            (sum as int, cnt as int) == v_positive(
                labels@,
                vertical@,
                ncol as int,
                h_positive(labels@, horizontal@, ncol as int, horizontal@.len() as int),
                j as int,
            ),
        decreases vertical.len() - j,
    {
        let e = v_edge_energy(labels, vertical, nrow, ncol, j);
        proof {
            if let Some(d) = vertical@[j as int] {
                crate::edges::lemma_cost_range(d, crate::edges::label_flow(
                    d,
                    labels@[j as int] as int,
                    labels@[j + ncol] as int,
                ));
            }
            let k = horizontal@.len() + j;
            assert((k + 1) * crate::edges::COST_MAX == k * crate::edges::COST_MAX
                + crate::edges::COST_MAX) by (nonlinear_arith);
            assert((k + 1) * crate::edges::COST_MAX <= 0x4000_0000 * crate::edges::COST_MAX)
                by (nonlinear_arith)
                requires
                    k + 1 <= 0x4000_0000,
            ;
        }
        if e > 0 {
            sum = sum + e as i128;
            cnt = cnt + 1;
        }
        j = j + 1;
    }
    (sum, cnt)
}

/// Shifts whole components of the label grid where that lowers the label
/// objective. Each pass takes the mean `m` of the positive edge costs and
/// tries the barriers `m, m/2, ..., m/32` in turn: cells joined by edges
/// cheaper than the barrier form components, and the first component move
/// (see `try_component_moves`) that lowers the objective is applied. Passes
/// repeat until none helps or the pass budget is spent. Returns the number of
/// moves applied.
pub fn refine_labels_by_barrier_component_shifts(
    labels: &mut Vec<i32>,
    horizontal: &[Option<EdgeDatum>],
    vertical: &[Option<EdgeDatum>],
    nrow: usize,
    ncol: usize,
) -> (applied: usize)
    requires
        label_grid_ok(old(labels)@, horizontal@, vertical@, nrow as int, ncol as int),
        labels_ok(old(labels)@, horizontal@, vertical@, ncol as int),
    ensures
        final(labels)@.len() == old(labels)@.len(),
        labels_ok(final(labels)@, horizontal@, vertical@, ncol as int),
        label_objective_spec(final(labels)@, horizontal@, vertical@, ncol as int)
            <= label_objective_spec(old(labels)@, horizontal@, vertical@, ncol as int),
        applied > 0 ==> label_objective_spec(final(labels)@, horizontal@, vertical@, ncol as int)
            < label_objective_spec(old(labels)@, horizontal@, vertical@, ncol as int),
        applied <= MAX_BARRIER_PASSES,
{
    let ghost start = label_objective_spec(labels@, horizontal@, vertical@, ncol as int);
    let mut applied: usize = 0;
    while applied < MAX_BARRIER_PASSES
        invariant
            applied <= MAX_BARRIER_PASSES,
            label_grid_ok(labels@, horizontal@, vertical@, nrow as int, ncol as int),
            labels_ok(labels@, horizontal@, vertical@, ncol as int),
            label_objective_spec(labels@, horizontal@, vertical@, ncol as int) <= start,
            applied > 0 ==> label_objective_spec(labels@, horizontal@, vertical@, ncol as int) < start,
        decreases MAX_BARRIER_PASSES - applied,
    {
        let (sum, cnt) = positive_energy_stats(labels, horizontal, vertical, nrow, ncol);
        if cnt == 0 {
            break;
        }
        let mut threshold: i128 = sum / (cnt as i128);
        let mut moved = false;
        let mut k: u32 = 0;
        while k <= BARRIER_HALVINGS
            invariant
                label_grid_ok(labels@, horizontal@, vertical@, nrow as int, ncol as int),
                labels_ok(labels@, horizontal@, vertical@, ncol as int),
                label_objective_spec(labels@, horizontal@, vertical@, ncol as int) <= start,
                applied > 0 ==> label_objective_spec(labels@, horizontal@, vertical@, ncol as int) < start,
                moved ==> label_objective_spec(labels@, horizontal@, vertical@, ncol as int) < start,
                threshold >= 0,
            decreases BARRIER_HALVINGS + 1 - k,
        {
            if k > 0 {
                threshold = threshold / 2;
            }
            if threshold <= 0 {
                break;
            }
            let barrier: i64 = if threshold > i64::MAX as i128 { i64::MAX } else { threshold as i64 };
            if let Some((ids, count)) = collect_barrier_component_ids(
                labels,
                horizontal,
                vertical,
                nrow,
                ncol,
                barrier,
                MAX_BARRIER_COMPONENTS,
            ) {
                if count >= 2 && try_component_moves(labels, horizontal, vertical, nrow, ncol, &ids, count) {
                    moved = true;
                    break;
                }
            }
            k = k + 1;
        }
        if !moved {
            break;
        }
        applied = applied + 1;
    }
    applied
}

/// Marks `node` and queues it when it is unvisited and the edge joining it
/// costs less than `barrier` under the labels `from_label` and `to_label`.
pub fn push_across_nonbarrier_edge(
    node: usize,
    edge: EdgeDatum,
    from_label: i32,
    to_label: i32,
    barrier: i64,
    visited: &mut Vec<bool>,
    stack: &mut Vec<usize>,
)
    requires
        node < old(visited)@.len(),
        label_energy_ok(edge, from_label as int, to_label as int),
    ensures
        (forall|j: int| 0 <= j < old(stack)@.len() ==> #[trigger] old(stack)@[j] < old(visited)@.len()
            && old(visited)@[old(stack)@[j] as int]) ==> (forall|j: int|
            0 <= j < final(stack)@.len() ==> #[trigger] final(stack)@[j] < final(visited)@.len()
                && final(visited)@[final(stack)@[j] as int]),
        !old(visited)@[node as int] && label_energy(edge, from_label as int, to_label as int) < barrier
            ==> final(visited)@ == old(visited)@.update(node as int, true) && final(stack)@ == old(stack)@.push(node),
        !(!old(visited)@[node as int] && label_energy(edge, from_label as int, to_label as int) < barrier)
            ==> final(visited)@ == old(visited)@ && final(stack)@ == old(stack)@,
        final(visited)@.len() == old(visited)@.len(),
        marks_grow(old(visited)@, final(visited)@),
        2 * count_false(final(visited)@, final(visited)@.len() as int) + final(stack)@.len() <= 2
            * count_false(old(visited)@, old(visited)@.len() as int) + old(stack)@.len(),
{
    if visited[node] {
        return;
    }
    if edge_label_energy(edge, from_label, to_label) < barrier {
        proof {
            lemma_count_false_update(visited@, node as int, visited@.len() as int);
        }
        visited.set(node, true);
        stack.push(node);
    }
}

/// `e` is present and costs less than `barrier` between cells labelled
/// `from` and `to`.
pub open spec fn cheap_edge(e: Option<EdgeDatum>, from: i32, to: i32, barrier: int) -> bool {
    e matches Some(d) && label_energy(d, from as int, to as int) < barrier
}

/// Cells `a` and `b` are grid neighbours joined by a present edge that costs
/// less than `barrier` under `labels`.
pub open spec fn cheap_link(
    labels: Seq<i32>,
    h: Seq<Option<EdgeDatum>>,
    v: Seq<Option<EdgeDatum>>,
    nrow: int,
    ncol: int,
    barrier: int,
    a: int,
    b: int,
) -> bool {
    ||| a % ncol > 0 && b == a - 1 && cheap_edge(h[(a / ncol) * (ncol - 1) + a % ncol - 1], labels[a - 1], labels[a], barrier)
    ||| a % ncol + 1 < ncol && b == a + 1 && cheap_edge(h[(a / ncol) * (ncol - 1) + a % ncol], labels[a], labels[a + 1], barrier)
    ||| a / ncol > 0 && b == a - ncol && cheap_edge(v[a - ncol], labels[a - ncol], labels[a], barrier)
    ||| a / ncol + 1 < nrow && b == a + ncol && cheap_edge(v[a], labels[a], labels[a + ncol], barrier)
}

/// The grid, labels and barrier of a barrier fill.
pub struct BarrierGrid {
    pub labels: Seq<i32>,
    pub h: Seq<Option<EdgeDatum>>,
    pub v: Seq<Option<EdgeDatum>>,
    pub nrow: int,
    pub ncol: int,
    pub barrier: int,
}

/// `cheap_link` on the grid `g`.
pub open spec fn g_link(g: BarrierGrid, a: int, b: int) -> bool {
    cheap_link(g.labels, g.h, g.v, g.nrow, g.ncol, g.barrier, a, b)
}

/// Cell `c[j]` is cheaply linked from a cell listed before it in `c`.
pub open spec fn has_earlier_link(g: BarrierGrid, c: Seq<usize>, j: int) -> bool {
    exists|k: int| 0 <= k < j && #[trigger] g_link(g, c[k] as int, c[j] as int)
}

/// Cell `x` is cheaply linked from some cell listed in `c`.
pub open spec fn linked_from_some(g: BarrierGrid, c: Seq<usize>, x: int) -> bool {
    exists|k: int| 0 <= k < c.len() && #[trigger] g_link(g, c[k] as int, x)
}

/// Each cell of `c` after the first is cheaply linked from an earlier one.
pub open spec fn linked_in_order(g: BarrierGrid, c: Seq<usize>) -> bool {
    forall|j: int| 0 < j < c.len() ==> #[trigger] has_earlier_link(g, c, j)
}

/// Each cell of `s` is cheaply linked from some cell of `c`.
pub open spec fn linked_to(g: BarrierGrid, c: Seq<usize>, s: Seq<usize>) -> bool {
    forall|j: int| 0 <= j < s.len() ==> #[trigger] linked_from_some(g, c, s[j] as int)
}

proof fn lemma_linked_pop(g: BarrierGrid, c: Seq<usize>, s: Seq<usize>)
    requires
        s.len() > 0,
        linked_in_order(g, c),
        c.len() > 0 ==> linked_to(g, c, s),
    ensures
        linked_in_order(g, c.push(s.last())),
        c.len() > 0 ==> linked_to(g, c.push(s.last()), s.drop_last()),
{
    let c2 = c.push(s.last());
    let s2 = s.drop_last();
    assert forall|j: int| 0 < j < c2.len() implies #[trigger] has_earlier_link(g, c2, j) by {
        if j < c.len() {
            assert(has_earlier_link(g, c, j));
            let k = choose|k: int| 0 <= k < j && #[trigger] g_link(g, c[k] as int, c[j] as int);
            assert(c2[k] == c[k] && c2[j] == c[j]);
            assert(g_link(g, c2[k] as int, c2[j] as int));
        } else {
            assert(linked_from_some(g, c, s[s.len() - 1] as int));
            let k = choose|k: int| 0 <= k < c.len() && #[trigger] g_link(g, c[k] as int, s[s.len() - 1] as int);
            assert(c2[k] == c[k] && c2[j] == s[s.len() - 1]);
            assert(g_link(g, c2[k] as int, c2[j] as int));
        }
    }
    if c.len() > 0 {
        assert forall|j: int| 0 <= j < s2.len() implies #[trigger] linked_from_some(g, c2, s2[j] as int) by {
            assert(s2[j] == s[j]);
            assert(linked_from_some(g, c, s[j] as int));
            let k = choose|k: int| 0 <= k < c.len() && #[trigger] g_link(g, c[k] as int, s[j] as int);
            assert(c2[k] == c[k]);
            assert(g_link(g, c2[k] as int, s2[j] as int));
        }
    }
}

proof fn lemma_linked_push(g: BarrierGrid, c: Seq<usize>, s: Seq<usize>, s2: Seq<usize>)
    requires
        c.len() > 0,
        linked_to(g, c.drop_last(), s),
        s2.len() >= s.len(),
        forall|j: int| 0 <= j < s.len() ==> #[trigger] s2[j] == s[j],
        forall|j: int| s.len() <= j < s2.len() ==> g_link(g, c.last() as int, #[trigger] s2[j] as int),
    ensures
        linked_to(g, c, s2),
{
    assert forall|j: int| 0 <= j < s2.len() implies #[trigger] linked_from_some(g, c, s2[j] as int) by {
        if j < s.len() {
            assert(s2[j] == s[j]);
            assert(linked_from_some(g, c.drop_last(), s[j] as int));
            let k = choose|k: int| 0 <= k < c.len() - 1 && #[trigger] g_link(g, c.drop_last()[k] as int, s[j] as int);
            assert(c[k] == c.drop_last()[k]);
            assert(g_link(g, c[k] as int, s2[j] as int));
        } else {
            assert(g_link(g, c[c.len() - 1] as int, s2[j] as int));
        }
    }
}

/// Marks and stacks cell `n` when it is unmarked and joined through `edge`
/// at a cost below `barrier`, keeping the bookkeeping of the fill.
fn stack_if_cheap(
    n: usize,
    edge: EdgeDatum,
    from_label: i32,
    to_label: i32,
    barrier: i64,
    visited: &mut Vec<bool>,
    stack: &mut Vec<usize>,
    Ghost(v0): Ghost<Seq<bool>>,
    Ghost(component): Ghost<Seq<usize>>,
)
    requires
        n < old(visited)@.len(),
        label_energy_ok(edge, from_label as int, to_label as int),
        fill_ok(v0, old(visited)@, component, old(stack)@),
    ensures
        final(visited)@.len() == old(visited)@.len(),
        marks_grow(old(visited)@, final(visited)@),
        fill_ok(v0, final(visited)@, component, final(stack)@),
        final(stack)@ == old(stack)@ || (final(stack)@ == old(stack)@.push(n) && label_energy(
            edge,
            from_label as int,
            to_label as int,
        ) < barrier),
        label_energy(edge, from_label as int, to_label as int) < barrier ==> final(visited)@[n as int],
        2 * count_false(final(visited)@, final(visited)@.len() as int) + final(stack)@.len() <= 2
            * count_false(old(visited)@, old(visited)@.len() as int) + old(stack)@.len(),
{
    proof {
        if !visited@[n as int] && label_energy(edge, from_label as int, to_label as int) < barrier {
            lemma_fill_push(v0, visited@, component, stack@, n);
        }
    }
    push_across_nonbarrier_edge(n, edge, from_label, to_label, barrier, visited, stack);
}

/// Marks and stacks the unmarked cells joined to `node` through present
/// edges that cost less than `barrier` under `labels`, keeping the
/// bookkeeping of the fill.
#[verifier::rlimit(40)]
#[verifier::spinoff_prover]
fn stack_cheap_neighbours(
    node: usize,
    labels: &[i32],
    horizontal: &[Option<EdgeDatum>],
    vertical: &[Option<EdgeDatum>],
    nrow: usize,
    ncol: usize,
    barrier: i64,
    visited: &mut Vec<bool>,
    stack: &mut Vec<usize>,
    Ghost(v0): Ghost<Seq<bool>>,
    Ghost(component): Ghost<Seq<usize>>,
)
    requires
        label_grid_ok(labels@, horizontal@, vertical@, nrow as int, ncol as int),
        labels_ok(labels@, horizontal@, vertical@, ncol as int),
        old(visited)@.len() == labels@.len(),
        node < labels@.len(),
        fill_ok(v0, old(visited)@, component, old(stack)@),
    ensures
        final(visited)@.len() == old(visited)@.len(),
        marks_grow(old(visited)@, final(visited)@),
        fill_ok(v0, final(visited)@, component, final(stack)@),
        final(stack)@.len() >= old(stack)@.len(),
        forall|j: int| 0 <= j < old(stack)@.len() ==> #[trigger] final(stack)@[j] == old(stack)@[j],
        forall|j: int|
            old(stack)@.len() <= j < final(stack)@.len() ==> cheap_link(
                labels@,
                horizontal@,
                vertical@,
                nrow as int,
                ncol as int,
                barrier as int,
                node as int,
                #[trigger] final(stack)@[j] as int,
            ),
        forall|b: int|
            #[trigger] cheap_link(
                labels@,
                horizontal@,
                vertical@,
                nrow as int,
                ncol as int,
                barrier as int,
                node as int,
                b,
            ) ==> final(visited)@[b],
        2 * count_false(final(visited)@, final(visited)@.len() as int) + final(stack)@.len() <= 2
            * count_false(old(visited)@, old(visited)@.len() as int) + old(stack)@.len(),
{
    let ghost w0 = visited@;
    let ghost s0 = stack@;
    let row = node / ncol;
    let col = node % ncol;
    proof {
        lemma_cell_row_col(node as int, nrow as int, ncol as int);
    }
    if col > 0 {
        proof {
            lemma_h_edge_of_cell(node - 1, nrow as int, ncol as int);
        }
        if let Some(edge) = horizontal[row * (ncol - 1) + col - 1] {
            stack_if_cheap(node - 1, edge, labels[node - 1], labels[node], barrier, visited, stack, Ghost(v0), Ghost(component));
        }
    }
    let ghost v1 = visited@;
    let ghost s1 = stack@;
    if col + 1 < ncol {
        proof {
            lemma_h_edge_of_cell(node as int, nrow as int, ncol as int);
        }
        if let Some(edge) = horizontal[row * (ncol - 1) + col] {
            stack_if_cheap(node + 1, edge, labels[node], labels[node + 1], barrier, visited, stack, Ghost(v0), Ghost(component));
        }
    }
    let ghost v2 = visited@;
    let ghost s2 = stack@;
    if row > 0 {
        if let Some(edge) = vertical[node - ncol] {
            stack_if_cheap(node - ncol, edge, labels[node - ncol], labels[node], barrier, visited, stack, Ghost(v0), Ghost(component));
        }
    }
    let ghost v3 = visited@;
    let ghost s3 = stack@;
    if row + 1 < nrow {
        proof {
            lemma_cell_row_col(node as int, nrow as int, ncol as int);
            assert(node + ncol < nrow * ncol) by (nonlinear_arith)
                requires
                    node == row * ncol + col,
                    row + 1 < nrow,
                    col < ncol,
            ;
            assert(node + ncol < labels@.len());
        }
        let cells = labels.len();
        assert(node + ncol < cells);
        let below = node + ncol;
        if let Some(edge) = vertical[node] {
            stack_if_cheap(below, edge, labels[node], labels[below], barrier, visited, stack, Ghost(v0), Ghost(component));
        }
    }
    proof {
        let l = labels@;
        let hh = horizontal@;
        let vv = vertical@;
        let nr = nrow as int;
        let nc = ncol as int;
        let bb = barrier as int;
        let a = node as int;
        lemma_marks_grow_trans(w0, v1, v2);
        lemma_marks_grow_trans(w0, v2, v3);
        lemma_marks_grow_trans(w0, v3, visited@);
        assert forall|b: int| #[trigger] cheap_link(l, hh, vv, nr, nc, bb, a, b) implies visited@[b] by {
            if col > 0 && b == a - 1 && cheap_edge(hh[(a / nc) * (nc - 1) + a % nc - 1], l[a - 1], l[a], bb) {
                assert(v1[b]);
            } else if col + 1 < ncol && b == a + 1 && cheap_edge(hh[(a / nc) * (nc - 1) + a % nc], l[a], l[a + 1], bb) {
                assert(v2[b]);
            } else if row > 0 && b == a - nc && cheap_edge(vv[a - nc], l[a - nc], l[a], bb) {
                assert(v3[b]);
            }
        }
        assert forall|j: int| s0.len() <= j < stack@.len() implies cheap_link(l, hh, vv, nr, nc, bb, a, #[trigger] stack@[j] as int) by {
            if j < s1.len() {
                assert(s1 == s0.push((node - 1) as usize));
            } else if j < s2.len() {
                assert(s2 == s1.push((node + 1) as usize));
                assert(stack@[j] == s2[j]);
            } else if j < s3.len() {
                assert(s3 == s2.push((node - ncol) as usize));
                assert(stack@[j] == s3[j]);
            } else {
                assert(stack@ == s3.push((node + ncol) as usize));
            }
        }
    }
}

/// Flood-fills the cells joined to `seed` through present edges whose cost
/// under `labels` is below `barrier`, skipping cells already marked in
/// `visited`. The filled cells are listed in `component` (seed first, each
/// once, each linked from one listed before it), and they are exactly the
/// cells that become marked. Every cell linked from a listed cell is listed
/// or was marked before.
pub fn collect_barrier_component(
    seed: usize,
    labels: &[i32],
    horizontal: &[Option<EdgeDatum>],
    vertical: &[Option<EdgeDatum>],
    nrow: usize,
    ncol: usize,
    barrier: i64,
    visited: &mut Vec<bool>,
    stack: &mut Vec<usize>,
    component: &mut Vec<usize>,
)
    requires
        label_grid_ok(labels@, horizontal@, vertical@, nrow as int, ncol as int),
        labels_ok(labels@, horizontal@, vertical@, ncol as int),
        old(visited)@.len() == labels@.len(),
        seed < labels@.len(),
        !old(visited)@[seed as int],
    ensures
        final(visited)@.len() == old(visited)@.len(),
        final(component)@.len() >= 1,
        final(component)@[0] == seed,
        final(component)@.no_duplicates(),
        forall|j: int|
            0 <= j < final(component)@.len() ==> #[trigger] final(component)@[j] < labels@.len()
                && final(visited)@[final(component)@[j] as int] && !old(visited)@[final(component)@[j] as int],
        forall|i: int|
            0 <= i < labels@.len() ==> #[trigger] final(visited)@[i] == (old(visited)@[i] || final(component)@.contains(
                i as usize,
            )),
        forall|j: int, b: int|
            0 <= j < final(component)@.len() && 0 <= b < labels@.len() && #[trigger] cheap_link(
                labels@,
                horizontal@,
                vertical@,
                nrow as int,
                ncol as int,
                barrier as int,
                final(component)@[j] as int,
                b,
            ) ==> old(visited)@[b] || final(component)@.contains(b as usize),
        linked_in_order(
            BarrierGrid {
                labels: labels@,
                h: horizontal@,
                v: vertical@,
                nrow: nrow as int,
                ncol: ncol as int,
                barrier: barrier as int,
            },
            final(component)@,
        ),
        marks_grow(old(visited)@, final(visited)@),
{
    let ghost v0 = visited@;
    let ghost g = BarrierGrid {
        labels: labels@,
        h: horizontal@,
        v: vertical@,
        nrow: nrow as int,
        ncol: ncol as int,
        barrier: barrier as int,
    };
    stack.clear();
    component.clear();
    let cells = labels.len();
    proof {
        lemma_fill_push(v0, visited@, component@, stack@, seed);
    }
    visited.set(seed, true);
    stack.push(seed);
    let ghost mut first = true;
    while stack.len() > 0
        invariant
            label_grid_ok(labels@, horizontal@, vertical@, nrow as int, ncol as int),
            labels_ok(labels@, horizontal@, vertical@, ncol as int),
            cells == labels@.len(),
            visited@.len() == cells,
            v0.len() == cells,
            seed < cells,
            visited@[seed as int],
            g == (BarrierGrid {
                labels: labels@,
                h: horizontal@,
                v: vertical@,
                nrow: nrow as int,
                ncol: ncol as int,
                barrier: barrier as int,
            }),
            marks_grow(v0, visited@),
            fill_ok(v0, visited@, component@, stack@),
            first ==> stack@ == seq![seed] && component@.len() == 0,
            !first ==> component@.len() >= 1 && component@[0] == seed,
            forall|j: int, b: int|
                0 <= j < component@.len() && 0 <= b < cells && #[trigger] cheap_link(
                    labels@,
                    horizontal@,
                    vertical@,
                    nrow as int,
                    ncol as int,
                    barrier as int,
                    component@[j] as int,
                    b,
                ) ==> visited@[b],
            linked_in_order(g, component@),
            !first ==> linked_to(g, component@, stack@),
        decreases 2 * count_false(visited@, visited@.len() as int) + stack@.len(),
    {
        proof {
            lemma_count_false_bounds(visited@, visited@.len() as int);
            lemma_fill_pop(v0, visited@, component@, stack@);
        }
        let ghost c0 = component@;
        let ghost s0 = stack@;
        let node = stack.pop().unwrap();
        component.push(node);
        proof {
            lemma_linked_pop(g, c0, s0);
            first = false;
            assert(component@ == c0.push(node));
            assert(stack@ == s0.drop_last());
        }
        let ghost c1 = component@;
        let ghost s1 = stack@;
        let ghost vb = visited@;
        stack_cheap_neighbours(
            node,
            labels,
            horizontal,
            vertical,
            nrow,
            ncol,
            barrier,
            visited,
            stack,
            Ghost(v0),
            Ghost(c1),
        );
        proof {
            lemma_marks_grow_trans(v0, vb, visited@);
            lemma_count_false_bounds(visited@, visited@.len() as int);
            assert(component@.drop_last() =~= c0);
            if c0.len() == 0 {
                assert(s1.len() == 0);
            }
            assert forall|j: int| s1.len() <= j < stack@.len() implies g_link(g, component@.last() as int, #[trigger] stack@[j] as int) by {
            }
            lemma_linked_push(g, component@, s1, stack@);
            assert forall|j: int, b: int|
                0 <= j < component@.len() && 0 <= b < cells && #[trigger] cheap_link(
                    labels@,
                    horizontal@,
                    vertical@,
                    nrow as int,
                    ncol as int,
                    barrier as int,
                    component@[j] as int,
                    b,
                ) implies visited@[b] by {
                if j < c0.len() {
                    assert(component@[j] == c0[j]);
                } else {
                    assert(component@[j] == node);
                }
            }
        }
    }
    proof {
        assert forall|i: int| 0 <= i < labels@.len() implies #[trigger] visited@[i] == (v0[i]
            || component@.contains(i as usize)) by {
            if component@.contains(i as usize) {
                let j = choose|j: int| 0 <= j < component@.len() && component@[j] == i as usize;
            }
        }
        assert forall|j: int, b: int|
            0 <= j < component@.len() && 0 <= b < labels@.len() && #[trigger] cheap_link(
                labels@,
                horizontal@,
                vertical@,
                nrow as int,
                ncol as int,
                barrier as int,
                component@[j] as int,
                b,
            ) implies v0[b] || component@.contains(b as usize) by {
            assert(visited@[b]);
        }
    }
}

} // verus!
