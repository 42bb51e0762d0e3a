//! Gauss-Jordan elimination over dense linear systems of rationals.
//!
//! A system of `n` equations is a vector of `n` rows of `n + 1` coefficients
//! `[c_0, ..., c_{n-1}, c_n]`, each row standing for
//! `c_0*x_0 + ... + c_{n-1}*x_{n-1} + c_n = 0`.  Row `i` owns the pivot for
//! variable `x_i`; no pivot search is performed.  The whole run is modelled
//! by spec functions, so the contract of `solve_lineq` pins the resulting
//! system and the success flag exactly.

use vstd::prelude::*;

use crate::rat::{
    lemma_mul_range, lemma_norm_props, q_abs, q_add, q_bounded, q_div, q_mul, q_near_zero, q_neg,
    q_norm, q_pos, q_wf, q_zero, Rat, RatV,
};

verus! {

/// The one failure the solver reports: an elimination step could not run,
/// because its pivot was within tolerance of zero or because a coefficient
/// left the machine range.
#[derive(Clone, Copy, Debug, PartialEq, Eq, Structural)]
pub enum SolveError {
    SingularPivot,
}

/// Every coefficient of the row is a well-formed rational.
pub open spec fn row_wf(row: Seq<RatV>) -> bool {
    forall|j: int| 0 <= j < row.len() ==> q_wf(#[trigger] row[j])
}

/// Square system shape: `n` rows of `n + 1` well-formed coefficients.
pub open spec fn sys_wf(s: Seq<Seq<RatV>>) -> bool {
    forall|i: int|
        0 <= i < s.len() ==> (#[trigger] s[i]).len() == s.len() + 1 && row_wf(s[i])
}

/// The elimination step at column `j` stays within the machine range.
pub open spec fn elim_entry_ok(row: Seq<RatV>, m: RatV, src: Seq<RatV>, j: int) -> bool {
    &&& q_bounded(q_norm(q_mul(m, src[j])))
    &&& q_bounded(q_norm(q_add(row[j], q_norm(q_mul(m, src[j])))))
}

/// Every column of the row update stays within the machine range.
pub open spec fn elim_row_ok(row: Seq<RatV>, m: RatV, src: Seq<RatV>) -> bool {
    forall|j: int| 0 <= j < row.len() ==> #[trigger] elim_entry_ok(row, m, src, j)
}

/// The row after adding `m` times the pivot row, column by column.
pub open spec fn row_after_elim(row: Seq<RatV>, m: RatV, src: Seq<RatV>) -> Seq<RatV> {
    Seq::new(row.len(), |j: int| q_norm(q_add(row[j], q_norm(q_mul(m, src[j])))))
}

/// One elimination step: drive column `var` of row `erow` to zero using row
/// `var` as the pivot row.  `None` means the step failed: the pivot was
/// within tolerance of zero, or the update left the machine range.  A row
/// whose coefficient is already within tolerance of zero is left untouched.
pub open spec fn elim_spec(sys: Seq<Seq<RatV>>, var: int, erow: int) -> Option<Seq<Seq<RatV>>> {
    let e = sys[erow][var];
    let s = sys[var][var];
    if q_near_zero(e) {
        Some(sys)
    } else if q_near_zero(s) {
        None
    } else {
        let m = q_neg(q_norm(q_div(e, s)));
        if q_bounded(q_norm(q_div(e, s))) && elim_row_ok(sys[erow], m, sys[var]) {
            Some(sys.update(erow, row_after_elim(sys[erow], m, sys[var])))
        } else {
            None
        }
    }
}

/// A successful elimination step keeps the shape and well-formedness of the
/// system and changes no row but `erow`.
pub proof fn lemma_elim_wf(sys: Seq<Seq<RatV>>, var: int, erow: int)
    requires
        sys_wf(sys),
        0 <= var < sys.len(),
        0 <= erow < sys.len(),
    ensures
        (match elim_spec(sys, var, erow) {
            Some(s2) => {
                &&& sys_wf(s2)
                &&& s2.len() == sys.len()
                &&& forall|i: int| 0 <= i < sys.len() && i != erow ==> s2[i] == #[trigger] sys[i]
            },
            None => true,
        }),
{
    let e = sys[erow][var];
    let s = sys[var][var];
    if !q_near_zero(e) && !q_near_zero(s) {
        let dv = q_div(e, s);
        let m = q_neg(q_norm(dv));
        if q_bounded(q_norm(dv)) && elim_row_ok(sys[erow], m, sys[var]) {
            let s2 = sys.update(erow, row_after_elim(sys[erow], m, sys[var]));
            assert(q_wf(e) && q_wf(s));
            assert(q_abs(s.n) * 8388608 > s.d);
            assert(s.n != 0);
            assert(q_pos(dv)) by {
                lemma_mul_range(e.d, s.n, i64::MAX as int);
            }
            lemma_norm_props(dv);
            assert(q_pos(m));
            assert(q_wf(m));
            assert forall|i: int| 0 <= i < s2.len() implies (#[trigger] s2[i]).len() == s2.len()
                + 1 && row_wf(s2[i]) by {
                if i == erow {
                    let nr = row_after_elim(sys[erow], m, sys[var]);
                    assert(nr.len() == sys[erow].len());
                    assert forall|j: int| 0 <= j < nr.len() implies q_wf(#[trigger] nr[j]) by {
                        assert(elim_entry_ok(sys[erow], m, sys[var], j));
                        assert(q_wf(sys[var][j]) && q_wf(sys[erow][j]));
                        let t0 = q_mul(m, sys[var][j]);
                        lemma_mul_range(m.d, sys[var][j].d, i64::MAX as int);
                        lemma_norm_props(t0);
                        let t = q_norm(t0);
                        let v0 = q_add(sys[erow][j], t);
                        lemma_mul_range(sys[erow][j].d, t.d, i64::MAX as int);
                        lemma_norm_props(v0);
                        assert(q_pos(q_norm(v0)));
                    }
                }
            }
        }
    }
}

/// Runs the elimination step of `elim_spec` on the system in place.
///
/// On failure the system is left exactly as it was; the partial states the
/// contract promises are therefore the states `solve_spec` predicts.
pub fn eliminate_var(sys: &mut Vec<Vec<Rat>>, var: usize, erow: usize) -> (r: Result<
    (),
    SolveError,
>)
    requires
        sys_wf(old(sys).deep_view()),
        var < old(sys).len(),
        erow < old(sys).len(),
        erow != var,
    ensures
        (match elim_spec(old(sys).deep_view(), var as int, erow as int) {
            Some(s2) => r is Ok && final(sys).deep_view() == s2,
            None => r is Err && final(sys).deep_view() == old(sys).deep_view(),
        }),
        sys_wf(final(sys).deep_view()),
        final(sys).len() == old(sys).len(),
{
    let ghost sys0 = sys.deep_view();
    proof {
        assert(sys0.len() == sys@.len());
        assert(sys0[erow as int] == sys@[erow as int].deep_view());
        assert(sys0[var as int] == sys@[var as int].deep_view());
        assert(sys0[erow as int].len() == sys0.len() + 1);
        assert(sys0[var as int].len() == sys0.len() + 1);
    }
    let e = sys[erow][var];
    let s = sys[var][var];
    proof {
        assert(e@ == sys0[erow as int][var as int]);
        assert(s@ == sys0[var as int][var as int]);
        assert(q_wf(e@) && q_wf(s@));
    }
    if e.is_near_zero() {
        return Ok(());
    }
    if s.is_near_zero() {
        return Err(SolveError::SingularPivot);
    }
    let m = match e.checked_div(s) {
        Some(x) => x.neg(),
        None => {
            return Err(SolveError::SingularPivot);
        },
    };
    proof {
        assert(m@ == q_neg(q_norm(q_div(e@, s@))));
        lemma_elim_wf(sys0, var as int, erow as int);
    }
    let n1 = sys[erow].len();
    let mut new_row: Vec<Rat> = Vec::new();
    for j in 0..n1
        invariant
            sys.deep_view() == sys0,
            sys_wf(sys0),
            var < sys0.len(),
            erow < sys0.len(),
            n1 == sys0.len() + 1,
            m@ == q_neg(q_norm(q_div(sys0[erow as int][var as int], sys0[var as int][var as int]))),
            q_wf(m@),
            q_bounded(q_norm(q_div(sys0[erow as int][var as int], sys0[var as int][var as int]))),
            !q_near_zero(sys0[erow as int][var as int]),
            !q_near_zero(sys0[var as int][var as int]),
            new_row@.len() == j,
            forall|k: int|
                0 <= k < j ==> (#[trigger] new_row.deep_view()[k]) == q_norm(q_add(
                    sys0[erow as int][k],
                    q_norm(q_mul(m@, sys0[var as int][k])),
                )),
            forall|k: int|
                0 <= k < j ==> #[trigger] elim_entry_ok(
                    sys0[erow as int],
                    m@,
                    sys0[var as int],
                    k,
                ),
    {
        let sj = sys[var][j];
        let rj = sys[erow][j];
        proof {
            assert(sj@ == sys0[var as int][j as int]);
            assert(rj@ == sys0[erow as int][j as int]);
            assert(q_wf(sj@) && q_wf(rj@));
        }
        let t = match m.checked_mul(sj) {
            Some(t) => t,
            None => {
                proof {
                    assert(!elim_entry_ok(sys0[erow as int], m@, sys0[var as int], j as int));
                    assert(!elim_row_ok(sys0[erow as int], m@, sys0[var as int]));
                    assert(elim_spec(sys0, var as int, erow as int) is None);
                }
                return Err(SolveError::SingularPivot);
            },
        };
        let v = match rj.checked_add(t) {
            Some(v) => v,
            None => {
                proof {
                    assert(!elim_entry_ok(sys0[erow as int], m@, sys0[var as int], j as int));
                    assert(!elim_row_ok(sys0[erow as int], m@, sys0[var as int]));
                    assert(elim_spec(sys0, var as int, erow as int) is None);
                }
                return Err(SolveError::SingularPivot);
            },
        };
        let ghost prev = new_row.deep_view();
        new_row.push(v);
        proof {
            assert(new_row.deep_view() =~= prev.push(v@));
            assert(elim_entry_ok(sys0[erow as int], m@, sys0[var as int], j as int));
        }
    }
    proof {
        assert(elim_row_ok(sys0[erow as int], m@, sys0[var as int]));
        assert(new_row.deep_view() =~= row_after_elim(
            sys0[erow as int],
            m@,
            sys0[var as int],
        ));
    }
    sys[erow] = new_row;
    proof {
        assert(sys.deep_view() =~~= sys0.update(
            erow as int,
            row_after_elim(sys0[erow as int], m@, sys0[var as int]),
        ));
    }
    Ok(())
}

/// A system together with the flag saying whether every elimination step so
/// far has succeeded.  Once the flag falls, the system stays as it was when
/// the failing step was reached.
pub ghost struct SolveSt {
    pub sys: Seq<Seq<RatV>>,
    pub ok: bool,
}

/// State after eliminating column `var` from rows `var + 1 .. r`, in order.
pub open spec fn fwd_rows_upto(sys: Seq<Seq<RatV>>, var: int, r: int) -> SolveSt
    decreases r - var,
{
    if r <= var + 1 {
        SolveSt { sys, ok: true }
    } else {
        let st = fwd_rows_upto(sys, var, r - 1);
        if !st.ok {
            st
        } else {
            match elim_spec(st.sys, var, r - 1) {
                Some(s2) => SolveSt { sys: s2, ok: true },
                None => SolveSt { sys: st.sys, ok: false },
            }
        }
    }
}

/// State after the forward pass has handled columns `0 .. k`.
pub open spec fn fwd_upto(sys0: Seq<Seq<RatV>>, k: int) -> SolveSt
    decreases k,
{
    if k <= 0 {
        SolveSt { sys: sys0, ok: true }
    } else {
        let st = fwd_upto(sys0, k - 1);
        if !st.ok {
            st
        } else {
            fwd_rows_upto(st.sys, k - 1, st.sys.len() as int)
        }
    }
}

/// State after eliminating column `var` from rows `0 .. r`, in order.
pub open spec fn bwd_rows_upto(sys: Seq<Seq<RatV>>, var: int, r: int) -> SolveSt
    decreases r,
{
    if r <= 0 {
        SolveSt { sys, ok: true }
    } else {
        let st = bwd_rows_upto(sys, var, r - 1);
        if !st.ok {
            st
        } else {
            match elim_spec(st.sys, var, r - 1) {
                Some(s2) => SolveSt { sys: s2, ok: true },
                None => SolveSt { sys: st.sys, ok: false },
            }
        }
    }
}

/// State after the backward pass has handled the `k` highest columns,
/// from `n - 1` down to `n - k`.
pub open spec fn bwd_upto(sys0: Seq<Seq<RatV>>, k: int) -> SolveSt
    decreases k,
{
    if k <= 0 {
        SolveSt { sys: sys0, ok: true }
    } else {
        let st = bwd_upto(sys0, k - 1);
        if !st.ok {
            st
        } else {
            bwd_rows_upto(st.sys, st.sys.len() - k, st.sys.len() - k)
        }
    }
}

/// The whole Gauss-Jordan run: the forward pass over all columns, then, if
/// it succeeded, the backward pass.  The first failing step freezes the
/// system and clears the flag.
pub open spec fn solve_spec(sys0: Seq<Seq<RatV>>) -> SolveSt {
    let f = fwd_upto(sys0, sys0.len() as int);
    if !f.ok {
        f
    } else {
        bwd_upto(f.sys, f.sys.len() as int)
    }
}

/// Once a row sweep has failed it stays frozen.
pub proof fn lemma_fwd_rows_stuck(sys: Seq<Seq<RatV>>, var: int, r1: int, r2: int)
    requires
        r1 <= r2,
        !fwd_rows_upto(sys, var, r1).ok,
    ensures
        fwd_rows_upto(sys, var, r2) == fwd_rows_upto(sys, var, r1),
    decreases r2 - r1,
{
    if r1 < r2 {
        lemma_fwd_rows_stuck(sys, var, r1, r2 - 1);
    }
}

/// Once the forward pass has failed it stays frozen.
pub proof fn lemma_fwd_stuck(sys0: Seq<Seq<RatV>>, k1: int, k2: int)
    requires
        k1 <= k2,
        !fwd_upto(sys0, k1).ok,
    ensures
        fwd_upto(sys0, k2) == fwd_upto(sys0, k1),
    decreases k2 - k1,
{
    if k1 < k2 {
        lemma_fwd_stuck(sys0, k1, k2 - 1);
    }
}

/// Once a row sweep of the backward pass has failed it stays frozen.
pub proof fn lemma_bwd_rows_stuck(sys: Seq<Seq<RatV>>, var: int, r1: int, r2: int)
    requires
        r1 <= r2,
        !bwd_rows_upto(sys, var, r1).ok,
    ensures
        bwd_rows_upto(sys, var, r2) == bwd_rows_upto(sys, var, r1),
    decreases r2 - r1,
{
    if r1 < r2 {
        lemma_bwd_rows_stuck(sys, var, r1, r2 - 1);
    }
}

/// Once the backward pass has failed it stays frozen.
pub proof fn lemma_bwd_stuck(sys0: Seq<Seq<RatV>>, k1: int, k2: int)
    requires
        k1 <= k2,
        !bwd_upto(sys0, k1).ok,
    ensures
        bwd_upto(sys0, k2) == bwd_upto(sys0, k1),
    decreases k2 - k1,
{
    if k1 < k2 {
        lemma_bwd_stuck(sys0, k1, k2 - 1);
    }
}

/// A forward row sweep keeps the shape and well-formedness of the system.
pub proof fn lemma_fwd_rows_wf(sys: Seq<Seq<RatV>>, var: int, r: int)
    requires
        sys_wf(sys),
        0 <= var < sys.len(),
        r <= sys.len(),
    ensures
        sys_wf(fwd_rows_upto(sys, var, r).sys),
        fwd_rows_upto(sys, var, r).sys.len() == sys.len(),
    decreases r - var,
{
    if r > var + 1 {
        lemma_fwd_rows_wf(sys, var, r - 1);
        let st = fwd_rows_upto(sys, var, r - 1);
        if st.ok {
            lemma_elim_wf(st.sys, var, r - 1);
        }
    }
}

/// The forward pass keeps the shape and well-formedness of the system.
pub proof fn lemma_fwd_wf(sys0: Seq<Seq<RatV>>, k: int)
    requires
        sys_wf(sys0),
        0 <= k <= sys0.len(),
    ensures
        sys_wf(fwd_upto(sys0, k).sys),
        fwd_upto(sys0, k).sys.len() == sys0.len(),
    decreases k,
{
    if k > 0 {
        lemma_fwd_wf(sys0, k - 1);
        let st = fwd_upto(sys0, k - 1);
        if st.ok {
            lemma_fwd_rows_wf(st.sys, k - 1, st.sys.len() as int);
        }
    }
}

/// A backward row sweep keeps the shape and well-formedness of the system.
pub proof fn lemma_bwd_rows_wf(sys: Seq<Seq<RatV>>, var: int, r: int)
    requires
        sys_wf(sys),
        0 <= var < sys.len(),
        r <= var,
    ensures
        sys_wf(bwd_rows_upto(sys, var, r).sys),
        bwd_rows_upto(sys, var, r).sys.len() == sys.len(),
    decreases r,
{
    if r > 0 {
        lemma_bwd_rows_wf(sys, var, r - 1);
        let st = bwd_rows_upto(sys, var, r - 1);
        if st.ok {
            lemma_elim_wf(st.sys, var, r - 1);
        }
    }
}

/// The backward pass keeps the shape and well-formedness of the system.
pub proof fn lemma_bwd_wf(sys0: Seq<Seq<RatV>>, k: int)
    requires
        sys_wf(sys0),
        0 <= k <= sys0.len(),
    ensures
        sys_wf(bwd_upto(sys0, k).sys),
        bwd_upto(sys0, k).sys.len() == sys0.len(),
    decreases k,
{
    if k > 0 {
        lemma_bwd_wf(sys0, k - 1);
        let st = bwd_upto(sys0, k - 1);
        if st.ok {
            lemma_bwd_rows_wf(st.sys, st.sys.len() - k, st.sys.len() - k);
        }
    }
}

/// The whole run keeps the shape and well-formedness of the system.
pub proof fn lemma_solve_wf(sys0: Seq<Seq<RatV>>)
    requires
        sys_wf(sys0),
    ensures
        sys_wf(solve_spec(sys0).sys),
        solve_spec(sys0).sys.len() == sys0.len(),
{
    lemma_fwd_wf(sys0, sys0.len() as int);
    let f = fwd_upto(sys0, sys0.len() as int);
    if f.ok {
        lemma_bwd_wf(f.sys, f.sys.len() as int);
    }
}

/// Full Gauss-Jordan reduction in place: the forward pass eliminates each
/// column below its pivot row, the backward pass eliminates it above.  The
/// contract pins the resulting system and the success flag to `solve_spec`,
/// for the successful and the failing runs alike.
pub fn solve_lineq(equations: &mut Vec<Vec<Rat>>) -> (r: Result<(), SolveError>)
    requires
        sys_wf(old(equations).deep_view()),
    ensures
        final(equations).deep_view() == solve_spec(old(equations).deep_view()).sys,
        r is Ok <==> solve_spec(old(equations).deep_view()).ok,
        sys_wf(final(equations).deep_view()),
        final(equations).len() == old(equations).len(),
{
    let ghost orig = equations.deep_view();
    let n = equations.len();
    for var in 0..n
        invariant
            sys_wf(equations.deep_view()),
            equations@.len() == n,
            orig == old(equations).deep_view(),
            orig.len() == n,
            sys_wf(orig),
            fwd_upto(orig, var as int).ok,
            equations.deep_view() == fwd_upto(orig, var as int).sys,
    {
        let ghost base = equations.deep_view();
        for erow in (var + 1)..n
            invariant
                sys_wf(equations.deep_view()),
                equations@.len() == n,
                orig == old(equations).deep_view(),
                orig.len() == n,
                sys_wf(orig),
                var < n,
                var + 1 <= erow <= n,
                base.len() == n,
                sys_wf(base),
                fwd_upto(orig, var as int).ok,
                base == fwd_upto(orig, var as int).sys,
                fwd_rows_upto(base, var as int, erow as int).ok,
                equations.deep_view() == fwd_rows_upto(base, var as int, erow as int).sys,
    {
            let ghost cur = equations.deep_view();
            match eliminate_var(equations, var, erow) {
                Ok(()) => {
                    proof {
                        assert(fwd_rows_upto(base, var as int, erow + 1 as int).sys
                            == equations.deep_view());
                        assert(fwd_rows_upto(base, var as int, erow + 1 as int).ok);
                    }
                },
                Err(err) => {
                    proof {
                        let stuck = SolveSt { sys: cur, ok: false };
                        assert(fwd_rows_upto(base, var as int, erow + 1 as int) == stuck);
                        lemma_fwd_rows_stuck(base, var as int, erow + 1, n as int);
                        assert(fwd_rows_upto(base, var as int, n as int) == stuck);
                        assert(fwd_upto(orig, var + 1 as int) == stuck);
                        lemma_fwd_stuck(orig, var + 1, n as int);
                        assert(fwd_upto(orig, n as int) == stuck);
                        assert(solve_spec(orig) == stuck);
                    }
                    return Err(err);
                },
            }
        }
        proof {
            assert(fwd_upto(orig, var + 1 as int) == fwd_rows_upto(base, var as int, n as int));
        }
    }
    let ghost mid = equations.deep_view();
    proof {
        assert(fwd_upto(orig, n as int).ok && mid == fwd_upto(orig, n as int).sys);
        assert(solve_spec(orig) == bwd_upto(mid, n as int));
    }
    let mut k: usize = 0;
    while k < n
        invariant
            k <= n,
            sys_wf(equations.deep_view()),
            equations@.len() == n,
            orig == old(equations).deep_view(),
            orig.len() == n,
            mid.len() == n,
            sys_wf(mid),
            solve_spec(orig) == bwd_upto(mid, n as int),
            bwd_upto(mid, k as int).ok,
            equations.deep_view() == bwd_upto(mid, k as int).sys,
        decreases n - k,
    {
        let var = n - 1 - k;
        let ghost base = equations.deep_view();
        for erow in 0..var
            invariant
                sys_wf(equations.deep_view()),
                equations@.len() == n,
                orig == old(equations).deep_view(),
                orig.len() == n,
                mid.len() == n,
                sys_wf(mid),
                k < n,
                var == n - 1 - k,
                erow <= var,
                base.len() == n,
                sys_wf(base),
                solve_spec(orig) == bwd_upto(mid, n as int),
                bwd_upto(mid, k as int).ok,
                base == bwd_upto(mid, k as int).sys,
                bwd_rows_upto(base, var as int, erow as int).ok,
                equations.deep_view() == bwd_rows_upto(base, var as int, erow as int).sys,
        {
            let ghost cur = equations.deep_view();
            match eliminate_var(equations, var, erow) {
                Ok(()) => {
                    proof {
                        assert(bwd_rows_upto(base, var as int, erow + 1 as int).sys
                            == equations.deep_view());
                        assert(bwd_rows_upto(base, var as int, erow + 1 as int).ok);
                    }
                },
                Err(err) => {
                    proof {
                        let stuck = SolveSt { sys: cur, ok: false };
                        assert(bwd_rows_upto(base, var as int, erow + 1 as int) == stuck);
                        lemma_bwd_rows_stuck(base, var as int, erow + 1, var as int);
                        assert(bwd_rows_upto(base, var as int, var as int) == stuck);
                        assert(bwd_upto(mid, k + 1 as int) == stuck);
                        lemma_bwd_stuck(mid, k + 1, n as int);
                        assert(bwd_upto(mid, n as int) == stuck);
                        assert(solve_spec(orig) == stuck);
                    }
                    return Err(err);
                },
            }
        }
        proof {
            assert(bwd_upto(mid, k + 1 as int) == bwd_rows_upto(base, var as int, var as int));
        }
        k = k + 1;
    }
    proof {
        assert(solve_spec(orig) == SolveSt { sys: equations.deep_view(), ok: true });
    }
    Ok(())
}

/// Weighted sum of the first `k` coefficient columns of a row at the
/// assignment `xs`, left to right.
pub open spec fn resid_upto(row: Seq<RatV>, xs: Seq<RatV>, k: int) -> RatV
    decreases k,
{
    if k <= 0 {
        q_zero()
    } else {
        q_add(resid_upto(row, xs, k - 1), q_mul(row[k - 1], xs[k - 1]))
    }
}

/// The residual of a row at the assignment `xs`: the weighted sum of its
/// coefficients plus the constant column.  A row holds at `xs` exactly when
/// the residual is the rational zero.
pub open spec fn residual(row: Seq<RatV>, xs: Seq<RatV>) -> RatV {
    q_add(resid_upto(row, xs, xs.len() as int), row[xs.len() as int])
}

/// The row's equation holds exactly at `xs`.
pub open spec fn row_satisfied(row: Seq<RatV>, xs: Seq<RatV>) -> bool {
    residual(row, xs).n == 0
}

/// Every equation of the system holds exactly at `xs`.
pub open spec fn sys_satisfied(sys: Seq<Seq<RatV>>, xs: Seq<RatV>) -> bool {
    forall|i: int| 0 <= i < sys.len() ==> row_satisfied(#[trigger] sys[i], xs)
}

/// A raw pair evaluation step stays within the wide machine range.
pub open spec fn in_wide(x: int) -> bool {
    -(i128::MAX as int) <= x <= i128::MAX as int
}

/// All four products and sums of one raw addition step fit the wide range.
pub open spec fn step_fits(acc: RatV, t: RatV) -> bool {
    &&& in_wide(acc.n * t.d)
    &&& in_wide(t.n * acc.d)
    &&& in_wide(acc.n * t.d + t.n * acc.d)
    &&& in_wide(acc.d * t.d)
}

/// Whether the left-to-right evaluation of the weighted sum stays within
/// the wide machine range.
pub open spec fn resid_ok_upto(row: Seq<RatV>, xs: Seq<RatV>, k: int) -> bool
    decreases k,
{
    if k <= 0 {
        true
    } else {
        &&& resid_ok_upto(row, xs, k - 1)
        &&& step_fits(resid_upto(row, xs, k - 1), q_mul(row[k - 1], xs[k - 1]))
    }
}

/// Whether the whole residual evaluation can be carried out and reduced to
/// a representable rational.
pub open spec fn residual_ok(row: Seq<RatV>, xs: Seq<RatV>) -> bool {
    &&& resid_ok_upto(row, xs, xs.len() as int)
    &&& step_fits(resid_upto(row, xs, xs.len() as int), row[xs.len() as int])
    &&& q_bounded(q_norm(residual(row, xs)))
}

/// A weighted sum that has left the wide range never comes back.
proof fn lemma_resid_ok_monotone(row: Seq<RatV>, xs: Seq<RatV>, k1: int, k2: int)
    requires
        k1 <= k2,
        !resid_ok_upto(row, xs, k1),
    ensures
        !resid_ok_upto(row, xs, k2),
    decreases k2 - k1,
{
    if k1 < k2 {
        lemma_resid_ok_monotone(row, xs, k1, k2 - 1);
    }
}

/// Evaluates the residual of one equation row at the assignment `xs`, in
/// reduced form; `None` when an intermediate value leaves the machine
/// range.
pub fn residual_value(row: &Vec<Rat>, xs: &Vec<Rat>) -> (r: Option<Rat>)
    requires
        row_wf(row.deep_view()),
        row_wf(xs.deep_view()),
        row@.len() == xs@.len() + 1,
    ensures
        (match r {
            Some(x) => residual_ok(row.deep_view(), xs.deep_view()) && x@ == q_norm(residual(
                row.deep_view(),
                xs.deep_view(),
            )) && q_wf(x@),
            None => !residual_ok(row.deep_view(), xs.deep_view()),
        }),
{
    let ghost rv = row.deep_view();
    let ghost xv = xs.deep_view();
    let n = xs.len();
    let mut acc_n: i128 = 0;
    let mut acc_d: i128 = 1;
    let max: i128 = i128::MAX;
    for k in 0..n
        invariant
            n == xs@.len(),
            row@.len() == n + 1,
            rv == row.deep_view(),
            xv == xs.deep_view(),
            row_wf(rv),
            row_wf(xv),
            acc_d > 0,
            acc_n as int == resid_upto(rv, xv, k as int).n,
            acc_d as int == resid_upto(rv, xv, k as int).d,
            resid_ok_upto(rv, xv, k as int),
    {
        proof {
            assert(row@[k as int]@ == rv[k as int]);
            assert(xs@[k as int]@ == xv[k as int]);
            assert(q_wf(rv[k as int]) && q_wf(xv[k as int]));
            lemma_mul_range(rv[k as int].n, xv[k as int].n, i64::MAX as int);
            lemma_mul_range(rv[k as int].d, xv[k as int].d, i64::MAX as int);
        }
        let rk = row[k];
        let xk = xs[k];
        let t_n: i128 = (rk.num as i128) * (xk.num as i128);
        let t_d: i128 = (rk.den as i128) * (xk.den as i128);
        let ghost acc = resid_upto(rv, xv, k as int);
        let ghost t = q_mul(rv[k as int], xv[k as int]);
        let p1 = match acc_n.checked_mul(t_d) {
            Some(v) => v,
            None => {
                proof {
                    lemma_resid_ok_monotone(rv, xv, k + 1, xv.len() as int);
                }
                return None;
            },
        };
        let p2 = match t_n.checked_mul(acc_d) {
            Some(v) => v,
            None => {
                proof {
                    lemma_resid_ok_monotone(rv, xv, k + 1, xv.len() as int);
                }
                return None;
            },
        };
        let nn = match p1.checked_add(p2) {
            Some(v) => v,
            None => {
                proof {
                    lemma_resid_ok_monotone(rv, xv, k + 1, xv.len() as int);
                }
                return None;
            },
        };
        let dd = match acc_d.checked_mul(t_d) {
            Some(v) => v,
            None => {
                proof {
                    lemma_resid_ok_monotone(rv, xv, k + 1, xv.len() as int);
                }
                return None;
            },
        };
        if p1 == i128::MIN || p2 == i128::MIN || nn == i128::MIN || dd == i128::MIN {
            proof {
                lemma_resid_ok_monotone(rv, xv, k + 1, xv.len() as int);
            }
            return None;
        }
        proof {
            assert(dd > 0) by (nonlinear_arith)
                requires
                    dd as int == acc.d * t.d,
                    acc.d > 0,
                    t.d > 0,
            ;
        }
        acc_n = nn;
        acc_d = dd;
    }
    proof {
        assert(row@[n as int]@ == rv[n as int]);
        assert(q_wf(rv[n as int]));
    }
    let c = row[n];
    let ghost acc = resid_upto(rv, xv, n as int);
    let p1 = match acc_n.checked_mul(c.den as i128) {
        Some(v) => v,
        None => {
            return None;
        },
    };
    let p2 = match (c.num as i128).checked_mul(acc_d) {
        Some(v) => v,
        None => {
            return None;
        },
    };
    let nn = match p1.checked_add(p2) {
        Some(v) => v,
        None => {
            return None;
        },
    };
    let dd = match acc_d.checked_mul(c.den as i128) {
        Some(v) => v,
        None => {
            return None;
        },
    };
    if p1 == i128::MIN || p2 == i128::MIN || nn == i128::MIN || dd == i128::MIN {
        return None;
    }
    proof {
        assert(dd > 0) by (nonlinear_arith)
            requires
                dd as int == acc.d * (rv[n as int].d),
                acc.d > 0,
                rv[n as int].d > 0,
        ;
    }
    let (n2, d2) = crate::rat::reduce_parts(nn, dd);
    let maxs: i128 = i64::MAX as i128;
    if n2 < -maxs || n2 > maxs || d2 > maxs {
        None
    } else {
        Some(Rat { num: n2 as i64, den: d2 as i64 })
    }
}

} // verus!
