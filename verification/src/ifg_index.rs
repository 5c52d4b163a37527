//! Interferogram index sets of a stack: the 1-based interferograms kept
//! after dropping some, with or without the master, and the pairs of a
//! single-master stack.
use vstd::prelude::*;

verus! {

/// Why an interferogram index set cannot be formed.
#[derive(Clone, Copy, Debug, PartialEq, Eq, Structural)]
pub enum IfgIndexError {
    /// The interferogram count is negative.
    NegativeCount,
    /// The master index is not a 1-based index of the stack.
    MasterOutOfRange,
}

/// Interferogram `ifg` is not in the drop list.
pub open spec fn kept(drop: Seq<i64>, ifg: int) -> bool {
    forall|j: int| 0 <= j < drop.len() ==> drop[j] != ifg
}

/// The master index is a 1-based index of a stack of `n_ifg`.
pub open spec fn master_ok(n_ifg: int, master_ix: int) -> bool {
    1 <= master_ix <= n_ifg
}

/// Interferograms `1..=k` that are not dropped, in order.
pub open spec fn kept_upto(drop: Seq<i64>, k: int) -> Seq<i64>
    decreases k,
{
    if k <= 0 {
        Seq::empty()
    } else {
        kept_upto(drop, k - 1) + if kept(drop, k) {
            seq![k as i64]
        } else {
            Seq::empty()
        }
    }
}

/// Interferograms `1..=k` that are not dropped and, unless the stack is small
/// baseline, not the master.
pub open spec fn solve_upto(drop: Seq<i64>, master_ix: int, small_baseline: bool, k: int) -> Seq<i64>
    decreases k,
{
    if k <= 0 {
        Seq::empty()
    } else {
        solve_upto(drop, master_ix, small_baseline, k - 1) + if kept(drop, k) && (small_baseline || k
            != master_ix) {
            seq![k as i64]
        } else {
            Seq::empty()
        }
    }
}

/// The selected interferograms `1..=k` renumbered for a single-master stack:
/// those after the master move down by one.
pub open spec fn select_upto(drop: Seq<i64>, master_ix: int, small_baseline: bool, k: int) -> Seq<i64>
    decreases k,
{
    if k <= 0 {
        Seq::empty()
    } else {
        select_upto(drop, master_ix, small_baseline, k - 1) + if kept(drop, k) && (small_baseline || k
            != master_ix) {
            seq![(if !small_baseline && k > master_ix { k - 1 } else { k }) as i64]
        } else {
            Seq::empty()
        }
    }
}

/// Interferograms `1..=k` other than the master.
pub open spec fn others_upto(master_ix: int, k: int) -> Seq<i64>
    decreases k,
{
    if k <= 0 {
        Seq::empty()
    } else {
        others_upto(master_ix, k - 1) + if k != master_ix {
            seq![k as i64]
        } else {
            Seq::empty()
        }
    }
}

/// The pairs `(master, ifg)` for the interferograms `1..=k` other than the
/// master, flattened.
pub open spec fn pairs_upto(master_ix: int, k: int) -> Seq<i64>
    decreases k,
{
    if k <= 0 {
        Seq::empty()
    } else {
        pairs_upto(master_ix, k - 1) + if k != master_ix {
            seq![master_ix as i64, k as i64]
        } else {
            Seq::empty()
        }
    }
}

fn is_dropped(drop: &[i64], ifg: i64) -> (r: bool)
    ensures
        r == !kept(drop@, ifg as int),
{
    let mut j: usize = 0;
    while j < drop.len()
        invariant
            j <= drop@.len(),
            forall|i: int| 0 <= i < j ==> drop@[i] != ifg,
        decreases drop@.len() - j,
    {
        if drop[j] == ifg {
            return true;
        }
        j = j + 1;
    }
    false
}

/// The interferograms `1..=n_ifg` that are not dropped, renumbered when the
/// stack has a single master: the master is left out and the later ones move
/// down by one. Errors on a negative count and, unless small baseline, on a
/// master outside the stack.
pub fn select_ifg_index(n_ifg: i64, master_ix: i64, drop_ifg_index: &[i64], small_baseline: bool) -> (r:
    Result<Vec<i64>, IfgIndexError>)
    ensures
        n_ifg < 0 ==> r == Err::<Vec<i64>, IfgIndexError>(IfgIndexError::NegativeCount),
        n_ifg >= 0 && !small_baseline && !master_ok(n_ifg as int, master_ix as int) ==> r == Err::<
            Vec<i64>,
            IfgIndexError,
        >(IfgIndexError::MasterOutOfRange),
        r matches Ok(v) ==> n_ifg >= 0 && (small_baseline || master_ok(n_ifg as int, master_ix as int))
            && v@ == select_upto(drop_ifg_index@, master_ix as int, small_baseline, n_ifg as int),
        n_ifg >= 0 && (small_baseline || master_ok(n_ifg as int, master_ix as int)) ==> r is Ok,
        r matches Ok(v) ==> increasing(v@),
        r matches Ok(v) ==> small_baseline ==> forall|x: i64|
            #[trigger] v@.contains(x) <==> (1 <= x <= n_ifg && kept(drop_ifg_index@, x as int)),
        r matches Ok(v) ==> !small_baseline ==> forall|x: i64|
            #[trigger] v@.contains(x) <==> ((1 <= x < master_ix && kept(drop_ifg_index@, x as int)) || (master_ix <= x
                && x + 1 <= n_ifg && kept(drop_ifg_index@, x + 1))),
{
    if n_ifg < 0 {
        return Err(IfgIndexError::NegativeCount);
    }
    if !small_baseline && (master_ix < 1 || master_ix > n_ifg) {
        return Err(IfgIndexError::MasterOutOfRange);
    }
    proof {
        law_select_set(drop_ifg_index@, master_ix as int, small_baseline, n_ifg as int);
    }
    let mut out: Vec<i64> = Vec::new();
    let mut ifg: i64 = 0;
    while ifg < n_ifg
        invariant
            0 <= ifg <= n_ifg,
            small_baseline || master_ok(n_ifg as int, master_ix as int),
            out@ == select_upto(drop_ifg_index@, master_ix as int, small_baseline, ifg as int),
        decreases n_ifg - ifg,
    {
        ifg = ifg + 1;
        if !is_dropped(drop_ifg_index, ifg) && (small_baseline || ifg != master_ix) {
            let value = if !small_baseline && ifg > master_ix {
                ifg - 1
            } else {
                ifg
            };
            out.push(value);
        }
    }
    Ok(out)
}

/// The interferograms `1..=n_ifg` that are not dropped. Errors on a negative
/// count.
pub fn weed_ifg_index(n_ifg: i64, drop_ifg_index: &[i64]) -> (r: Result<Vec<i64>, IfgIndexError>)
    ensures
        n_ifg < 0 <==> r == Err::<Vec<i64>, IfgIndexError>(IfgIndexError::NegativeCount),
        r matches Ok(v) ==> v@ == kept_upto(drop_ifg_index@, n_ifg as int),
        r is Err ==> n_ifg < 0,
        r matches Ok(v) ==> increasing(v@),
        r matches Ok(v) ==> forall|x: i64| #[trigger] v@.contains(x) <==> (1 <= x <= n_ifg && kept(drop_ifg_index@, x as int)),
{
    if n_ifg < 0 {
        return Err(IfgIndexError::NegativeCount);
    }

    let mut out: Vec<i64> = Vec::new();
    let mut ifg: i64 = 0;
    while ifg < n_ifg
        invariant
            0 <= ifg <= n_ifg,
            out@ == kept_upto(drop_ifg_index@, ifg as int),
        decreases n_ifg - ifg,
    {
        ifg = ifg + 1;
        if !is_dropped(drop_ifg_index, ifg) {
            out.push(ifg);
        }
    }
    proof {
        law_unwrap_set(drop_ifg_index@, n_ifg as int);
    }
    Ok(out)
}

/// The interferograms to unwrap (those not dropped) and to solve for (the
/// same, without the master unless the stack is small baseline). Errors on a
/// negative count and, unless small baseline, on a master outside the stack.
pub fn unwrap_ifg_sets(n_ifg: i64, master_ix: i64, drop_ifg_index: &[i64], small_baseline: bool) -> (r:
    Result<(Vec<i64>, Vec<i64>), IfgIndexError>)
    ensures
        n_ifg < 0 ==> r == Err::<(Vec<i64>, Vec<i64>), IfgIndexError>(IfgIndexError::NegativeCount),
        n_ifg >= 0 && !small_baseline && !master_ok(n_ifg as int, master_ix as int) ==> r == Err::<
            (Vec<i64>, Vec<i64>),
            IfgIndexError,
        >(IfgIndexError::MasterOutOfRange),
        n_ifg >= 0 && (small_baseline || master_ok(n_ifg as int, master_ix as int)) ==> r is Ok,
        r matches Ok((unwrap, solve)) ==> unwrap@ == kept_upto(drop_ifg_index@, n_ifg as int) && solve@
            == solve_upto(drop_ifg_index@, master_ix as int, small_baseline, n_ifg as int),
        r matches Ok((unwrap, solve)) ==> increasing(unwrap@) && increasing(solve@),
        r matches Ok((unwrap, solve)) ==> forall|x: i64|
            #[trigger] unwrap@.contains(x) <==> (1 <= x <= n_ifg && kept(drop_ifg_index@, x as int)),
        r matches Ok((unwrap, solve)) ==> forall|x: i64|
            #[trigger] solve@.contains(x) <==> (1 <= x <= n_ifg && kept(drop_ifg_index@, x as int) && (small_baseline || x
                != master_ix)),
        r matches Ok((unwrap, solve)) ==> small_baseline ==> solve@ == unwrap@,
{
    if n_ifg < 0 {
        return Err(IfgIndexError::NegativeCount);
    }
    if !small_baseline && (master_ix < 1 || master_ix > n_ifg) {
        return Err(IfgIndexError::MasterOutOfRange);
    }

    let mut unwrap_ifg: Vec<i64> = Vec::new();
    let mut solve_ifg: Vec<i64> = Vec::new();
    let mut ifg: i64 = 0;
    while ifg < n_ifg
        invariant
            0 <= ifg <= n_ifg,
            unwrap_ifg@ == kept_upto(drop_ifg_index@, ifg as int),
            solve_ifg@ == solve_upto(drop_ifg_index@, master_ix as int, small_baseline, ifg as int),
        decreases n_ifg - ifg,
    {
        ifg = ifg + 1;
        if !is_dropped(drop_ifg_index, ifg) {
            unwrap_ifg.push(ifg);
            if small_baseline || ifg != master_ix {
                solve_ifg.push(ifg);
            }
        }
    }
    proof {
        law_unwrap_set(drop_ifg_index@, n_ifg as int);
        law_solve_set(drop_ifg_index@, master_ix as int, small_baseline, n_ifg as int);
    }
    Ok((unwrap_ifg, solve_ifg))
}

/// The interferograms of a single-master stack other than the master, and
/// their `(master, ifg)` day pairs, flattened row by row. Errors on a
/// negative count and on a master outside the stack.
pub fn single_master_ifg_geometry(n_ifg: i64, master_ix: i64) -> (r: Result<
    (Vec<i64>, Vec<i64>),
    IfgIndexError,
>)
    ensures
        n_ifg < 0 ==> r == Err::<(Vec<i64>, Vec<i64>), IfgIndexError>(IfgIndexError::NegativeCount),
        n_ifg >= 0 && !master_ok(n_ifg as int, master_ix as int) ==> r == Err::<
            (Vec<i64>, Vec<i64>),
            IfgIndexError,
        >(IfgIndexError::MasterOutOfRange),
        n_ifg >= 0 && master_ok(n_ifg as int, master_ix as int) ==> r is Ok,
        r matches Ok((unwrap, pairs)) ==> unwrap@ == others_upto(master_ix as int, n_ifg as int) && pairs@
            == pairs_upto(master_ix as int, n_ifg as int),
        r matches Ok((unwrap, pairs)) ==> increasing(unwrap@) && pairs@.len() == 2 * unwrap@.len(),
        r matches Ok((unwrap, pairs)) ==> forall|x: i64|
            #[trigger] unwrap@.contains(x) <==> (1 <= x <= n_ifg && x != master_ix),
        r matches Ok((unwrap, pairs)) ==> forall|i: int|
            0 <= i < unwrap@.len() ==> #[trigger] pairs@[2 * i] == master_ix,
        r matches Ok((unwrap, pairs)) ==> forall|i: int|
            0 <= i < unwrap@.len() ==> pairs@[2 * i + 1] == #[trigger] unwrap@[i],
{
    if n_ifg < 0 {
        return Err(IfgIndexError::NegativeCount);
    }
    if master_ix < 1 || master_ix > n_ifg {
        return Err(IfgIndexError::MasterOutOfRange);
    }
    let mut unwrap_ifg: Vec<i64> = Vec::new();
    let mut ifgday_ix: Vec<i64> = Vec::new();
    let mut ifg: i64 = 0;
    while ifg < n_ifg
        invariant
            0 <= ifg <= n_ifg,
            unwrap_ifg@ == others_upto(master_ix as int, ifg as int),
            ifgday_ix@ == pairs_upto(master_ix as int, ifg as int),
        decreases n_ifg - ifg,
    {
        ifg = ifg + 1;
        if ifg != master_ix {
            unwrap_ifg.push(ifg);
            ifgday_ix.push(master_ix);
            ifgday_ix.push(ifg);
        }
    }
    proof {
        law_single_master_sets(master_ix as int, n_ifg as int);
    }
    Ok((unwrap_ifg, ifgday_ix))
}

/// Strictly increasing.
pub open spec fn increasing(s: Seq<i64>) -> bool {
    forall|i: int, j: int| 0 <= i < j < s.len() ==> #[trigger] s[i] < #[trigger] s[j]
}

/// The solve set of the interferograms `1..=k`: it lists, in increasing
/// order, exactly the interferograms of `1..=k` absent from the drop list,
/// without the master unless the stack is small baseline; for a small
/// baseline stack it is the unwrap set itself.
pub proof fn law_solve_set(drop: Seq<i64>, master_ix: int, small_baseline: bool, k: int)
    requires
        k <= i64::MAX,
    ensures
        increasing(solve_upto(drop, master_ix, small_baseline, k)),
        forall|x: i64|
            #[trigger] solve_upto(drop, master_ix, small_baseline, k).contains(x) <==> (1 <= x <= k && kept(drop, x as int)
                && (small_baseline || x != master_ix)),
        forall|i: int|
            0 <= i < solve_upto(drop, master_ix, small_baseline, k).len() ==> 1 <= #[trigger] solve_upto(
                drop,
                master_ix,
                small_baseline,
                k,
            )[i] <= k,
        small_baseline ==> solve_upto(drop, master_ix, small_baseline, k) == kept_upto(drop, k),
    decreases k,
{
    let s = solve_upto(drop, master_ix, small_baseline, k);
    if k > 0 {
        law_solve_set(drop, master_ix, small_baseline, k - 1);
        let p = solve_upto(drop, master_ix, small_baseline, k - 1);
        let c = kept(drop, k) && (small_baseline || k != master_ix);
        assert(s == p + if c { seq![k as i64] } else { Seq::empty() });
        assert forall|x: i64|
            s.contains(x) <==> (1 <= x <= k && kept(drop, x as int) && (small_baseline || x != master_ix)) by {
            if p.contains(x) {
                let i = choose|i: int| 0 <= i < p.len() && p[i] == x;
                assert(s[i] == x);
            }
            if c && x == k {
                assert(s[p.len() as int] == x);
            }
            if s.contains(x) {
                let i = choose|i: int| 0 <= i < s.len() && s[i] == x;
                if i < p.len() {
                    assert(p[i] == x);
                }
            }
        }
        assert forall|i: int| 0 <= i < s.len() implies 1 <= #[trigger] s[i] <= k by {
            if i < p.len() {
                assert(s[i] == p[i]);
            }
        }
        assert forall|i: int, j: int| 0 <= i < j < s.len() implies #[trigger] s[i] < #[trigger] s[j] by {
            assert(s[i] == p[i]);
            if j < p.len() {
                assert(s[j] == p[j]);
            }
        }
        if small_baseline {
            assert(kept_upto(drop, k) == kept_upto(drop, k - 1) + if kept(drop, k) {
                seq![k as i64]
            } else {
                Seq::empty()
            });
        }
    } else {
        assert forall|x: i64| !s.contains(x) by {}
    }
}

/// The unwrap set of the interferograms `1..=k`: exactly those absent from
/// the drop list, in increasing order.
pub proof fn law_unwrap_set(drop: Seq<i64>, k: int)
    requires
        k <= i64::MAX,
    ensures
        increasing(kept_upto(drop, k)),
        forall|x: i64| #[trigger] kept_upto(drop, k).contains(x) <==> (1 <= x <= k && kept(drop, x as int)),
{
    law_solve_set(drop, 0, true, k);
}

/// What the selected interferograms of `1..=k` are, in increasing order.
/// Small baseline: exactly those absent from the drop list. Single master:
/// the master is left out and the later ones move down by one, so `x` is
/// selected exactly when it lies below the master and `x` is not dropped, or
/// lies at or above it and `x + 1` is not dropped.
pub proof fn law_select_set(drop: Seq<i64>, master_ix: int, small_baseline: bool, k: int)
    requires
        k <= i64::MAX,
        small_baseline || 1 <= master_ix,
    ensures
        increasing(select_upto(drop, master_ix, small_baseline, k)),
        small_baseline ==> forall|x: i64|
            #[trigger] select_upto(drop, master_ix, small_baseline, k).contains(x) <==> (1 <= x <= k && kept(
                drop,
                x as int,
            )),
        !small_baseline ==> forall|x: i64|
            #[trigger] select_upto(drop, master_ix, small_baseline, k).contains(x) <==> ((1 <= x < master_ix && x <= k
                && kept(drop, x as int)) || (master_ix <= x && x + 1 <= k && kept(drop, x + 1))),
        forall|i: int|
            0 <= i < select_upto(drop, master_ix, small_baseline, k).len() ==> 1 <= #[trigger] select_upto(
                drop,
                master_ix,
                small_baseline,
                k,
            )[i] <= (if !small_baseline && k >= master_ix { k - 1 } else { k }),
    decreases k,
{
    let s = select_upto(drop, master_ix, small_baseline, k);
    if k > 0 {
        law_select_set(drop, master_ix, small_baseline, k - 1);
        let p = select_upto(drop, master_ix, small_baseline, k - 1);
        let c = kept(drop, k) && (small_baseline || k != master_ix);
        let val = if !small_baseline && k > master_ix { k - 1 } else { k };
        assert(s == p + if c { seq![val as i64] } else { Seq::empty() });
        assert forall|x: i64| s.contains(x) <==> (p.contains(x) || (c && x == val)) by {
            if p.contains(x) {
                let i = choose|i: int| 0 <= i < p.len() && p[i] == x;
                assert(s[i] == x);
            }
            if c && x == val {
                assert(s[p.len() as int] == x);
            }
            if s.contains(x) {
                let i = choose|i: int| 0 <= i < s.len() && s[i] == x;
                if i < p.len() {
                    assert(p[i] == x);
                }
            }
        }
        assert forall|i: int| 0 <= i < s.len() implies 1 <= #[trigger] s[i] <= (if !small_baseline && k
            >= master_ix { k - 1 } else { k }) by {
            if i < p.len() {
                assert(s[i] == p[i]);
            }
        }
        assert forall|i: int, j: int| 0 <= i < j < s.len() implies #[trigger] s[i] < #[trigger] s[j] by {
            assert(s[i] == p[i]);
            if j < p.len() {
                assert(s[j] == p[j]);
            }
        }
    } else {
        assert forall|x: i64| !s.contains(x) by {}
    }
}

/// The interferograms of a single-master stack other than the master: every
/// index of `1..=k` but the master, in increasing order; and the day pairs
/// hold, for each of them in that order, the master then that interferogram.
pub proof fn law_single_master_sets(master_ix: int, k: int)
    requires
        k <= i64::MAX,
        0 <= master_ix <= i64::MAX,
    ensures
        increasing(others_upto(master_ix, k)),
        forall|x: i64| #[trigger] others_upto(master_ix, k).contains(x) <==> (1 <= x <= k && x != master_ix),
        pairs_upto(master_ix, k).len() == 2 * others_upto(master_ix, k).len(),
        forall|i: int|
            0 <= i < others_upto(master_ix, k).len() ==> #[trigger] pairs_upto(master_ix, k)[2 * i] == master_ix,
        forall|i: int|
            0 <= i < others_upto(master_ix, k).len() ==> pairs_upto(master_ix, k)[2 * i + 1] == #[trigger] others_upto(
                master_ix,
                k,
            )[i],
    decreases k,
{
    let s = others_upto(master_ix, k);
    let q = pairs_upto(master_ix, k);
    assert((master_ix as i64) as int == master_ix);
    if k > 0 {
        law_single_master_sets(master_ix, k - 1);
        let p = others_upto(master_ix, k - 1);
        let pq = pairs_upto(master_ix, k - 1);
        assert(s == p + if k != master_ix { seq![k as i64] } else { Seq::empty() });
        assert(q == pq + if k != master_ix { seq![master_ix as i64, k as i64] } else { Seq::empty() });
        law_solve_set(Seq::empty(), master_ix, false, k);
        assert(s =~= solve_upto(Seq::empty(), master_ix, false, k)) by {
            lemma_others_is_solve(master_ix, k);
        }
        assert forall|x: i64| #[trigger] s.contains(x) <==> (1 <= x <= k && x != master_ix) by {
            assert(solve_upto(Seq::empty(), master_ix, false, k).contains(x) <==> (1 <= x <= k && kept(
                Seq::empty(),
                x as int,
            ) && x != master_ix));
        }
        assert forall|i: int|
            0 <= i < s.len() implies #[trigger] q[2 * i] == master_ix && q[2 * i + 1] == s[i] by {
            if i < p.len() {
                assert(s[i] == p[i]);
                assert(q[2 * i] == pq[2 * i]);
                assert(q[2 * i + 1] == pq[2 * i + 1]);
            } else {
                assert(i == p.len() && k != master_ix);
                assert(s[i] == k as i64);
                assert(q[pq.len() as int] == master_ix as i64);
                assert(q[pq.len() as int + 1] == k as i64);
            }
        }
        assert(q.len() == 2 * s.len());
        assert forall|i: int| 0 <= i < s.len() implies q[2 * i + 1] == #[trigger] s[i] by {
            assert(q[2 * i] == master_ix);
        }
    } else {
        assert forall|x: i64| !s.contains(x) by {}
        law_solve_set(Seq::empty(), master_ix, false, k);
    }
    lemma_others_is_solve(master_ix, k);
}

proof fn lemma_others_is_solve(master_ix: int, k: int)
    ensures
        others_upto(master_ix, k) == solve_upto(Seq::empty(), master_ix, false, k),
    decreases k,
{
    if k > 0 {
        lemma_others_is_solve(master_ix, k - 1);
        assert(kept(Seq::<i64>::empty(), k));
    }
}

} // verus!
