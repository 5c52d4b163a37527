//! Sums over the cells of a row-major grid: a linear sum over the first
//! `rows * width` indices regroups by rows, and a sum whose terms vanish
//! outside a rectangle equals the sum over that rectangle.
use vstd::prelude::*;

verus! {

/// `f(0) + ... + f(k - 1)`.
pub open spec fn lin_sum(f: spec_fn(int) -> int, k: int) -> int
    decreases k,
{
    if k <= 0 {
        0
    } else {
        lin_sum(f, k - 1) + f(k - 1)
    }
}

/// `f(base + c0) + ... + f(base + c - 1)`.
pub open spec fn span_sum(f: spec_fn(int) -> int, base: int, c0: int, c: int) -> int
    decreases c - c0,
{
    if c <= c0 {
        0
    } else {
        span_sum(f, base, c0, c - 1) + f(base + c - 1)
    }
}

/// Sum of `f(r * w + c)` over rows `r0 <= r < r` and columns `c0 <= c < c1`.
pub open spec fn block_sum(f: spec_fn(int) -> int, w: int, r0: int, r: int, c0: int, c1: int) -> int
    decreases r - r0,
{
    if r <= r0 {
        0
    } else {
        block_sum(f, w, r0, r - 1, c0, c1) + span_sum(f, (r - 1) * w, c0, c1)
    }
}

/// `f(base + c)`.
pub open spec fn at(f: spec_fn(int) -> int, base: int, c: int) -> int {
    f(base + c)
}

/// `f(r * w + c)`: the term of cell `(r, c)`.
pub open spec fn cell(f: spec_fn(int) -> int, w: int, r: int, c: int) -> int {
    f(r * w + c)
}

proof fn lemma_lin_span(f: spec_fn(int) -> int, base: int, c: int)
    requires
        0 <= c,
        0 <= base,
    ensures
        lin_sum(f, base + c) == lin_sum(f, base) + span_sum(f, base, 0, c),
    decreases c,
{
    if c > 0 {
        lemma_lin_span(f, base, c - 1);
    }
}

/// A linear sum over `rows * w` indices regroups row by row.
pub proof fn lemma_lin_block(f: spec_fn(int) -> int, w: int, rows: int)
    requires
        0 <= w,
        0 <= rows,
    ensures
        lin_sum(f, rows * w) == block_sum(f, w, 0, rows, 0, w),
    decreases rows,
{
    if rows > 0 {
        lemma_lin_block(f, w, rows - 1);
        assert((rows - 1) * w + w == rows * w) by (nonlinear_arith);
        assert(0 <= (rows - 1) * w) by (nonlinear_arith)
            requires
                rows >= 1,
                w >= 0,
        ;
        lemma_lin_span(f, (rows - 1) * w, w);
        assert(lin_sum(f, rows * w) == lin_sum(f, (rows - 1) * w + w));
        assert(block_sum(f, w, 0, rows, 0, w) == block_sum(f, w, 0, rows - 1, 0, w) + span_sum(
            f,
            (rows - 1) * w,
            0,
            w,
        ));
    } else {
        assert(rows * w == 0) by (nonlinear_arith)
            requires
                rows == 0,
        ;
    }
}

proof fn lemma_span_split(f: spec_fn(int) -> int, base: int, a: int, b: int, c: int)
    requires
        a <= b <= c,
    ensures
        span_sum(f, base, a, c) == span_sum(f, base, a, b) + span_sum(f, base, b, c),
    decreases c - b,
{
    if c > b {
        lemma_span_split(f, base, a, b, c - 1);
    }
}

proof fn lemma_span_zero(f: spec_fn(int) -> int, base: int, a: int, b: int)
    requires
        a <= b,
        forall|c: int| a <= c < b ==> #[trigger] at(f, base, c) == 0,
    ensures
        span_sum(f, base, a, b) == 0,
    decreases b - a,
{
    if b > a {
        lemma_span_zero(f, base, a, b - 1);
        assert(at(f, base, b - 1) == 0);
    }
}

proof fn lemma_block_split(f: spec_fn(int) -> int, w: int, a: int, b: int, c: int, c0: int, c1: int)
    requires
        a <= b <= c,
    ensures
        block_sum(f, w, a, c, c0, c1) == block_sum(f, w, a, b, c0, c1) + block_sum(f, w, b, c, c0, c1),
    decreases c - b,
{
    if c > b {
        lemma_block_split(f, w, a, b, c - 1, c0, c1);
    }
}

proof fn lemma_block_rows_zero(f: spec_fn(int) -> int, w: int, a: int, b: int)
    requires
        a <= b,
        0 <= w,
        forall|r: int, c: int| a <= r < b && 0 <= c < w ==> #[trigger] cell(f, w, r, c) == 0,
    ensures
        block_sum(f, w, a, b, 0, w) == 0,
    decreases b - a,
{
    if b > a {
        lemma_block_rows_zero(f, w, a, b - 1);
        assert forall|c: int| 0 <= c < w implies #[trigger] at(f, (b - 1) * w, c) == 0 by {
            assert(cell(f, w, b - 1, c) == 0);
        }
        lemma_span_zero(f, (b - 1) * w, 0, w);
    }
}

proof fn lemma_block_cols(f: spec_fn(int) -> int, w: int, a: int, b: int, c0: int, c1: int)
    requires
        a <= b,
        0 <= c0 <= c1 <= w,
        forall|r: int, c: int|
            a <= r < b && 0 <= c < w && !(c0 <= c < c1) ==> #[trigger] cell(f, w, r, c) == 0,
    ensures
        block_sum(f, w, a, b, 0, w) == block_sum(f, w, a, b, c0, c1),
    decreases b - a,
{
    if b > a {
        lemma_block_cols(f, w, a, b - 1, c0, c1);
        let base = (b - 1) * w;
        lemma_span_split(f, base, 0, c0, w);
        lemma_span_split(f, base, c0, c1, w);
        assert forall|c: int| 0 <= c < c0 implies #[trigger] at(f, base, c) == 0 by {
            assert(cell(f, w, b - 1, c) == 0);
        }
        assert forall|c: int| c1 <= c < w implies #[trigger] at(f, base, c) == 0 by {
            assert(cell(f, w, b - 1, c) == 0);
        }
        lemma_span_zero(f, base, 0, c0);
        lemma_span_zero(f, base, c1, w);
    }
}

/// A sum over a `rows` by `w` grid whose terms vanish outside rows `r0..r1`
/// and columns `c0..c1` equals the sum over that rectangle.
pub proof fn lemma_lin_rect(
    f: spec_fn(int) -> int,
    w: int,
    rows: int,
    r0: int,
    r1: int,
    c0: int,
    c1: int,
)
    requires
        0 <= w,
        0 <= r0 <= r1 <= rows,
        0 <= c0 <= c1 <= w,
        forall|r: int, c: int|
            0 <= r < rows && 0 <= c < w && !(r0 <= r < r1 && c0 <= c < c1) ==> #[trigger] cell(
                f,
                w,
                r,
                c,
            ) == 0,
    ensures
        lin_sum(f, rows * w) == block_sum(f, w, r0, r1, c0, c1),
{
    lemma_lin_block(f, w, rows);
    lemma_block_split(f, w, 0, r0, rows, 0, w);
    lemma_block_split(f, w, r0, r1, rows, 0, w);
    lemma_block_rows_zero(f, w, 0, r0);
    lemma_block_rows_zero(f, w, r1, rows);
    lemma_block_cols(f, w, r0, r1, c0, c1);
}

} // verus!
