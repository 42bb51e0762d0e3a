//! Laws of the flow engine, stated and proved against the same spec
//! functions that the executable contracts use.

use vstd::prelude::*;

use crate::rat::{
    lemma_norm_props, q_abs, q_add, q_bounded, q_dec, q_div, q_eqv, q_mul, q_near_zero, q_neg,
    q_norm, q_one, q_pos, q_wf, q_zero, RatV,
};
use crate::solver::{
    bwd_rows_upto, bwd_upto, elim_spec, fwd_rows_upto, fwd_upto, lemma_bwd_rows_wf, lemma_bwd_wf,
    lemma_elim_wf, lemma_fwd_rows_wf, lemma_fwd_wf, lemma_solve_wf, resid_upto, residual,
    row_after_elim, row_wf,
    row_satisfied, solve_spec, sys_satisfied, sys_wf, SolveSt,
};
use crate::engine::{
    agents_wf, build_row_spec, build_sys_spec, extract_spec, flow_matrix_spec, flow_raw_spec,
    left_spec, source_spec, sources_ok_spec, valid_spec, AgentV,
};

verus! {

/// A refresh is a pure function of the agent set: two refreshes over the
/// same agents produce the same matrix, the same `left` vector and the same
/// flag.  `compute_flow` ties each of its results to exactly these three
/// spec values, so two calls on an unchanged engine agree bit for bit.
pub proof fn lemma_refresh_deterministic(
    ags: Seq<AgentV>,
    flow1: Seq<Seq<RatV>>,
    left1: Seq<RatV>,
    valid1: bool,
    flow2: Seq<Seq<RatV>>,
    left2: Seq<RatV>,
    valid2: bool,
)
    requires
        flow1 == flow_matrix_spec(ags),
        left1 == left_spec(ags),
        valid1 == valid_spec(ags),
        flow2 == flow_matrix_spec(ags),
        left2 == left_spec(ags),
        valid2 == valid_spec(ags),
    ensures
        flow1 == flow2,
        left1 == left2,
        valid1 == valid2,
{
}

/// The symmetrization step is exactly the off-diagonal transpose exchange:
/// for every pair `i > j` the returned matrix holds the raw solution values
/// with the two positions exchanged, and every diagonal entry is untouched.
pub proof fn lemma_symmetrization_swap(ags: Seq<AgentV>, i: int, j: int)
    requires
        0 <= j < i < ags.len(),
    ensures
        flow_matrix_spec(ags)[i][j] == flow_raw_spec(ags)[j][i],
        flow_matrix_spec(ags)[j][i] == flow_raw_spec(ags)[i][j],
{
}

/// The diagonal is untouched by the symmetrization step.
pub proof fn lemma_symmetrization_diagonal(ags: Seq<AgentV>, i: int)
    requires
        0 <= i < ags.len(),
    ensures
        flow_matrix_spec(ags)[i][i] == flow_raw_spec(ags)[i][i],
{
}

/// The refresh is flagged invalid exactly when some per-source reduction
/// fails; read-off quotients and `left` entries never touch the flag.
pub proof fn lemma_valid_iff_solves(ags: Seq<AgentV>)
    ensures
        valid_spec(ags) <==> (forall|p: int|
            0 <= p < ags.len() ==> (#[trigger] solve_spec(build_sys_spec(ags, p))).ok),
{
    if valid_spec(ags) {
        assert forall|p: int| 0 <= p < ags.len() implies (#[trigger] solve_spec(
            build_sys_spec(ags, p),
        )).ok by {
            assert((source_spec(ags, p)).ok);
        }
    }
    if forall|p: int| 0 <= p < ags.len() ==> (#[trigger] solve_spec(build_sys_spec(ags, p))).ok {
        assert forall|p: int| 0 <= p < ags.len() implies (#[trigger] source_spec(ags, p)).ok by {
            assert(solve_spec(build_sys_spec(ags, p)).ok);
        }
    }
}

/// The coefficient columns of row `v` are all exactly zero.
pub open spec fn zero_coeff_row(sys: Seq<Seq<RatV>>, v: int) -> bool {
    forall|j: int| 0 <= j < sys.len() ==> (#[trigger] sys[v][j]).n == 0
}

/// An elimination step cannot disturb a row of exact zeros: as a target the
/// row is skipped, as a source it leaves other rows' contents out of `v`.
proof fn lemma_elim_keeps_zero_row(sys: Seq<Seq<RatV>>, var: int, erow: int, v: int)
    requires
        sys_wf(sys),
        0 <= var < sys.len(),
        0 <= erow < sys.len(),
        0 <= v < sys.len(),
        zero_coeff_row(sys, v),
    ensures
        (match elim_spec(sys, var, erow) {
            Some(s2) => zero_coeff_row(s2, v) && s2.len() == sys.len(),
            None => true,
        }),
{
    lemma_elim_wf(sys, var, erow);
    if erow == v {
        let e = sys[v][var];
        assert(e.n == 0);
        assert(q_wf(e));
        assert(q_near_zero(e));
    } else {
        match elim_spec(sys, var, erow) {
            Some(s2) => {
                assert(s2[v] == sys[v]);
            },
            None => {},
        }
    }
}

/// A forward row sweep keeps a row of exact zeros.
proof fn lemma_fwd_rows_zero_row(sys: Seq<Seq<RatV>>, var: int, r: int, v: int)
    requires
        sys_wf(sys),
        0 <= var < sys.len(),
        r <= sys.len(),
        0 <= v < sys.len(),
        zero_coeff_row(sys, v),
    ensures
        zero_coeff_row(fwd_rows_upto(sys, var, r).sys, v),
    decreases r - var,
{
    if r > var + 1 {
        lemma_fwd_rows_zero_row(sys, var, r - 1, v);
        lemma_fwd_rows_wf(sys, var, r - 1);
        let st = fwd_rows_upto(sys, var, r - 1);
        if st.ok {
            lemma_elim_keeps_zero_row(st.sys, var, r - 1, v);
        }
    }
}

/// The forward pass keeps a row of exact zeros.
proof fn lemma_fwd_zero_row(sys0: Seq<Seq<RatV>>, k: int, v: int)
    requires
        sys_wf(sys0),
        0 <= k <= sys0.len(),
        0 <= v < sys0.len(),
        zero_coeff_row(sys0, v),
    ensures
        zero_coeff_row(fwd_upto(sys0, k).sys, v),
    decreases k,
{
    if k > 0 {
        lemma_fwd_zero_row(sys0, k - 1, v);
        lemma_fwd_wf(sys0, k - 1);
        let st = fwd_upto(sys0, k - 1);
        if st.ok {
            lemma_fwd_rows_zero_row(st.sys, k - 1, st.sys.len() as int, v);
        }
    }
}

/// A backward row sweep keeps a row of exact zeros.
proof fn lemma_bwd_rows_zero_row(sys: Seq<Seq<RatV>>, var: int, r: int, v: int)
    requires
        sys_wf(sys),
        0 <= var < sys.len(),
        r <= var,
        0 <= v < sys.len(),
        zero_coeff_row(sys, v),
    ensures
        zero_coeff_row(bwd_rows_upto(sys, var, r).sys, v),
    decreases r,
{
    if r > 0 {
        lemma_bwd_rows_zero_row(sys, var, r - 1, v);
        lemma_bwd_rows_wf(sys, var, r - 1);
        let st = bwd_rows_upto(sys, var, r - 1);
        if st.ok {
            lemma_elim_keeps_zero_row(st.sys, var, r - 1, v);
        }
    }
}

/// The backward pass keeps a row of exact zeros.
proof fn lemma_bwd_zero_row(sys0: Seq<Seq<RatV>>, k: int, v: int)
    requires
        sys_wf(sys0),
        0 <= k <= sys0.len(),
        0 <= v < sys0.len(),
        zero_coeff_row(sys0, v),
    ensures
        zero_coeff_row(bwd_upto(sys0, k).sys, v),
    decreases k,
{
    if k > 0 {
        lemma_bwd_zero_row(sys0, k - 1, v);
        lemma_bwd_wf(sys0, k - 1);
        let st = bwd_upto(sys0, k - 1);
        if st.ok {
            lemma_bwd_rows_zero_row(st.sys, st.sys.len() - k, st.sys.len() - k, v);
        }
    }
}

/// The degenerate configuration: an agent that defers its whole budget to
/// itself.  Its row of the per-source system is exactly zero, so its
/// diagonal stays zero through the whole run.  If any elimination step has
/// to use that zero pivot, the solve fails and the refresh is flagged
/// invalid; if no step ever needs it, the reduction succeeds vacuously and
/// the flag stays true, but the agent's own exposure cannot be read off:
/// the returned matrix carries the zero stand-in at that position (where
/// floating-point division would have produced a non-finite value).  A
/// matrix is returned either way.
///
/// (A `deferred` vector of exact zeros cannot produce a zero pivot: its
/// diagonal decrement is minus one.  The configuration that does is full
/// self-deferral, stated here: `deferred[v][v]` is one, everything else in
/// the row and the direct attention to the source `p` are zero.)
pub proof fn lemma_self_deferral_degenerate(ags: Seq<AgentV>, v: int, p: int)
    requires
        agents_wf(ags),
        0 <= v < ags.len(),
        0 <= p < ags.len(),
        forall|j: int| 0 <= j < ags.len() && j != v ==> (#[trigger] ags[v].deferred[j]).n == 0,
        ags[v].deferred[v].n == ags[v].deferred[v].d,
        ags[v].own[p].n == 0,
    ensures
        !solve_spec(build_sys_spec(ags, p)).ok ==> !valid_spec(ags),
        solve_spec(build_sys_spec(ags, p)).ok ==> extract_spec(
            solve_spec(build_sys_spec(ags, p)).sys,
            v,
        ) is None,
        solve_spec(build_sys_spec(ags, p)).ok ==> flow_raw_spec(ags)[p][v] == q_zero(),
{
    let sys0 = build_sys_spec(ags, p);
    crate::engine::lemma_build_sys_wf(ags, p);
    let n = ags.len() as int;
    assert(zero_coeff_row(sys0, v)) by {
        assert forall|j: int| 0 <= j < sys0.len() implies (#[trigger] sys0[v][j]).n == 0 by {
            assert(sys0[v] == build_row_spec(ags, p, v));
            if j == v {
                assert(sys0[v][j] == q_norm(q_dec(ags[v].deferred[v])));
                assert(q_wf(ags[v].deferred[v]));
                lemma_norm_props(q_dec(ags[v].deferred[v]));
            } else {
                assert(sys0[v][j] == ags[v].deferred[j]);
            }
        }
    }
    let f = fwd_upto(sys0, sys0.len() as int);
    lemma_fwd_wf(sys0, sys0.len() as int);
    lemma_fwd_zero_row(sys0, sys0.len() as int, v);
    let st = solve_spec(sys0);
    lemma_solve_wf(sys0);
    if f.ok {
        lemma_bwd_zero_row(f.sys, f.sys.len() as int, v);
        assert(st == bwd_upto(f.sys, f.sys.len() as int));
    }
    if st.ok {
        assert(zero_coeff_row(st.sys, v));
        assert(st.sys[v][v].n == 0);
        assert(extract_spec(st.sys, v) is None);
        assert(flow_raw_spec(ags)[p] == source_spec(ags, p).xs);
        assert(source_spec(ags, p).xs[v] == q_zero());
    } else {
        assert(!(#[trigger] source_spec(ags, p)).ok);
        assert(!valid_spec(ags));
    }
}

/// Value equality is transitive across a positive middle term.
proof fn lemma_eqv_trans(a: RatV, b: RatV, c: RatV)
    by (nonlinear_arith)
    requires
        q_pos(a),
        q_pos(b),
        q_pos(c),
        q_eqv(a, b),
        q_eqv(b, c),
    ensures
        q_eqv(a, c),
{
}

/// Sums of positive-denominator values are positive-denominator.
proof fn lemma_pos_add(a: RatV, b: RatV)
    by (nonlinear_arith)
    requires
        q_pos(a),
        q_pos(b),
    ensures
        q_pos(q_add(a, b)),
{
}

/// Products of positive-denominator values are positive-denominator.
proof fn lemma_pos_mul(a: RatV, b: RatV)
    by (nonlinear_arith)
    requires
        q_pos(a),
        q_pos(b),
    ensures
        q_pos(q_mul(a, b)),
{
}

/// A common left factor respects value equality.
proof fn lemma_mul_congr_left(m: RatV, x: RatV, y: RatV)
    by (nonlinear_arith)
    requires
        q_eqv(x, y),
    ensures
        q_eqv(q_mul(m, x), q_mul(m, y)),
{
}


/// Products of four factors may pair off either way.
proof fn lemma_mul4_swap(p: int, q: int, r: int, s: int)
    by (nonlinear_arith)
    ensures
        (p * q) * (r * s) == (p * r) * (q * s),
        (p * q) * (r * s) == (p * s) * (q * r),
{
}

/// A sum distributes out of a product.
proof fn lemma_distrib_sum(u: int, v: int, w: int)
    by (nonlinear_arith)
    ensures
        (u + v) * w == u * w + v * w,
        w * (u + v) == w * u + w * v,
{
}

/// Addition respects value equality.
proof fn lemma_add_congr(a: RatV, a2: RatV, b: RatV, b2: RatV)
    requires
        q_pos(a),
        q_pos(a2),
        q_pos(b),
        q_pos(b2),
        q_eqv(a, a2),
        q_eqv(b, b2),
    ensures
        q_eqv(q_add(a, b), q_add(a2, b2)),
{
    lemma_distrib_sum(a.n * b.d, b.n * a.d, a2.d * b2.d);
    lemma_distrib_sum(a2.n * b2.d, b2.n * a2.d, a.d * b.d);
    lemma_mul4_swap(a.n, b.d, a2.d, b2.d);
    lemma_mul4_swap(b.n, a.d, a2.d, b2.d);
    lemma_mul4_swap(a2.n, b2.d, a.d, b.d);
    lemma_mul4_swap(b2.n, a2.d, a.d, b.d);
    assert((a.n * a2.d) * (b.d * b2.d) == (a2.n * a.d) * (b2.d * b.d));
    assert((b.n * b2.d) * (a.d * a2.d) == (b2.n * b.d) * (a2.d * a.d));
    assert((b.d * b2.d) == (b2.d * b.d)) by (nonlinear_arith);
    assert((a.d * a2.d) == (a2.d * a.d)) by (nonlinear_arith);
}


/// Multiplication of values commutes and associates, component by
/// component.
proof fn lemma_mul_comm_assoc(a: RatV, b: RatV, c: RatV)
    by (nonlinear_arith)
    ensures
        q_mul(a, b) == q_mul(b, a),
        q_mul(q_mul(a, b), c) == q_mul(a, q_mul(b, c)),
{
}

/// A factor distributes over a sum, up to value equality.
proof fn lemma_mul_distrib_left(m: RatV, a: RatV, b: RatV)
    ensures
        q_eqv(q_mul(m, q_add(a, b)), q_add(q_mul(m, a), q_mul(m, b))),
{
    let x = q_mul(m, q_add(a, b));
    let y = q_add(q_mul(m, a), q_mul(m, b));
    let sum = a.n * b.d + b.n * a.d;
    lemma_mul4_swap(m.n, a.n, m.d, b.d);
    lemma_mul4_swap(m.n, b.n, m.d, a.d);
    lemma_distrib_sum(a.n * b.d, b.n * a.d, m.n * m.d);
    assert(y.n == (m.n * m.d) * sum);
    lemma_mul4_swap(m.d, a.d, m.d, b.d);
    assert(y.d == (m.d * m.d) * (a.d * b.d));
    assert((m.n * sum) * ((m.d * m.d) * (a.d * b.d)) == ((m.n * m.d) * sum) * (m.d * (a.d
        * b.d))) by (nonlinear_arith);
}

/// The two middle summands of a four-way sum may be exchanged.
proof fn lemma_add_exchange(a: RatV, b: RatV, c: RatV, d: RatV)
    ensures
        q_eqv(q_add(q_add(a, b), q_add(c, d)), q_add(q_add(a, c), q_add(b, d))),
{
    let x = q_add(q_add(a, b), q_add(c, d));
    let y = q_add(q_add(a, c), q_add(b, d));
    lemma_distrib_sum(a.n * b.d, b.n * a.d, c.d * d.d);
    lemma_distrib_sum(c.n * d.d, d.n * c.d, a.d * b.d);
    lemma_distrib_sum(a.n * c.d, c.n * a.d, b.d * d.d);
    lemma_distrib_sum(b.n * d.d, d.n * b.d, a.d * c.d);
    lemma_mul4_swap(a.n, b.d, c.d, d.d);
    lemma_mul4_swap(b.n, a.d, c.d, d.d);
    lemma_mul4_swap(c.n, d.d, a.d, b.d);
    lemma_mul4_swap(d.n, c.d, a.d, b.d);
    lemma_mul4_swap(a.n, c.d, b.d, d.d);
    lemma_mul4_swap(b.n, d.d, a.d, c.d);
    lemma_mul4_swap(c.n, a.d, b.d, d.d);
    lemma_mul4_swap(d.n, b.d, a.d, c.d);
    assert(x.n == y.n) by {
        assert(d.d * b.d == b.d * d.d) by (nonlinear_arith);
        assert(c.d * a.d == a.d * c.d) by (nonlinear_arith);
    }
    lemma_mul4_swap(a.d, b.d, c.d, d.d);
    assert(x.d == y.d);
}

/// Zero-numerator terms drop out of a sum, up to value equality.
proof fn lemma_add_zero_term(a: RatV, t: RatV)
    by (nonlinear_arith)
    requires
        q_pos(a),
        q_pos(t),
        t.n == 0,
    ensures
        q_eqv(q_add(a, t), a),
{
}

/// A common right factor respects value equality.
proof fn lemma_mul_congr_right(x: RatV, u: RatV, v: RatV)
    requires
        q_eqv(u, v),
    ensures
        q_eqv(q_mul(u, x), q_mul(v, x)),
{
    lemma_mul_congr_left(x, u, v);
    lemma_mul_comm_assoc(x, u, x);
    lemma_mul_comm_assoc(x, v, x);
}

/// An updated row entry keeps, in value, the sum of the old entry and the
/// multiplier times the pivot entry, through both reductions.
proof fn lemma_elim_entry_value(rk: RatV, m: RatV, sk: RatV)
    requires
        q_wf(rk),
        q_wf(sk),
        q_pos(m),
    ensures
        q_pos(q_norm(q_add(rk, q_norm(q_mul(m, sk))))),
        q_pos(q_add(rk, q_mul(m, sk))),
        q_eqv(q_norm(q_add(rk, q_norm(q_mul(m, sk)))), q_add(rk, q_mul(m, sk))),
{
    let t0 = q_mul(m, sk);
    lemma_pos_mul(m, sk);
    lemma_norm_props(t0);
    let e0 = q_add(rk, q_norm(t0));
    lemma_pos_add(rk, q_norm(t0));
    lemma_norm_props(e0);
    lemma_add_congr(rk, rk, q_norm(t0), t0);
    lemma_pos_add(rk, t0);
    lemma_eqv_trans(q_norm(e0), e0, q_add(rk, t0));
}

/// The weighted partial sums of a row after one elimination update are, in
/// value, the old partial sums plus the multiplier times the pivot row's
/// partial sums.
proof fn lemma_resid_linear(row: Seq<RatV>, m: RatV, src: Seq<RatV>, xs: Seq<RatV>, k: int)
    requires
        row_wf(row),
        row_wf(src),
        row_wf(xs),
        q_pos(m),
        src.len() == row.len(),
        0 <= k <= xs.len(),
        xs.len() < row.len(),
    ensures
        q_pos(resid_upto(row, xs, k)),
        q_pos(resid_upto(src, xs, k)),
        q_pos(resid_upto(row_after_elim(row, m, src), xs, k)),
        q_eqv(
            resid_upto(row_after_elim(row, m, src), xs, k),
            q_add(resid_upto(row, xs, k), q_mul(m, resid_upto(src, xs, k))),
        ),
    decreases k,
{
    let nr = row_after_elim(row, m, src);
    if k > 0 {
        lemma_resid_linear(row, m, src, xs, k - 1);
        let av = resid_upto(row, xs, k - 1);
        let bv = resid_upto(src, xs, k - 1);
        let nv = resid_upto(nr, xs, k - 1);
        let rk = row[k - 1];
        let sk = src[k - 1];
        let x = xs[k - 1];
        assert(q_wf(rk) && q_wf(sk) && q_wf(x));
        let t0 = q_mul(m, sk);
        let sx = q_mul(sk, x);
        let rx = q_mul(rk, x);
        let msx = q_mul(m, sx);
        let mb = q_mul(m, bv);
        lemma_elim_entry_value(rk, m, sk);
        assert(nr[k - 1] == q_norm(q_add(rk, q_norm(t0))));
        let ne = nr[k - 1];
        let tn = q_mul(ne, x);
        // the new term equals (rk + m*sk) * x in value
        lemma_mul_congr_right(x, ne, q_add(rk, t0));
        lemma_mul_comm_assoc(q_add(rk, t0), x, x);
        lemma_mul_distrib_left(x, rk, t0);
        lemma_mul_comm_assoc(x, rk, x);
        lemma_mul_comm_assoc(x, t0, x);
        lemma_mul_comm_assoc(m, sk, x);
        // so q_mul(q_add(rk, t0), x) == q_mul(x, q_add(rk, t0))
        //    ~ q_add(q_mul(x, rk), q_mul(x, t0)) == q_add(rx, q_mul(t0, x))
        //    and q_mul(t0, x) == msx
        let t2 = q_add(rx, msx);
        lemma_pos_mul(m, sk);
        lemma_pos_mul(rk, x);
        lemma_pos_mul(sk, x);
        lemma_pos_mul(m, sx);
        lemma_pos_mul(ne, x);
        lemma_pos_add(rk, t0);
        lemma_pos_mul(q_add(rk, t0), x);
        lemma_pos_add(rx, msx);
        lemma_eqv_trans(tn, q_mul(q_add(rk, t0), x), t2);
        // accumulate: lhs = nv + tn ~ (av + mb) + t2
        lemma_pos_mul(m, bv);
        lemma_pos_add(av, mb);
        lemma_pos_add(nv, tn);
        lemma_add_congr(nv, q_add(av, mb), tn, t2);
        // exchange: (av + mb) + (rx + msx) ~ (av + rx) + (mb + msx)
        lemma_add_exchange(av, mb, rx, msx);
        // collapse the factor m: mb + msx ~ m * (bv + sx)
        lemma_mul_distrib_left(m, bv, sx);
        lemma_pos_add(bv, sx);
        lemma_pos_mul(m, q_add(bv, sx));
        lemma_pos_add(av, rx);
        lemma_pos_add(mb, msx);
        lemma_add_congr(q_add(av, rx), q_add(av, rx), q_add(mb, msx), q_mul(m, q_add(bv, sx)));
        // chain the three value equalities
        let e1 = q_add(q_add(av, mb), t2);
        let e2 = q_add(q_add(av, rx), q_add(mb, msx));
        let e3 = q_add(q_add(av, rx), q_mul(m, q_add(bv, sx)));
        lemma_pos_add(q_add(av, mb), t2);
        lemma_pos_add(q_add(av, rx), q_add(mb, msx));
        lemma_pos_add(q_add(av, rx), q_mul(m, q_add(bv, sx)));
        lemma_eqv_trans(q_add(nv, tn), e1, e2);
        lemma_eqv_trans(q_add(nv, tn), e2, e3);
        assert(resid_upto(nr, xs, k) == q_add(nv, tn));
        assert(resid_upto(row, xs, k) == q_add(av, rx));
        assert(resid_upto(src, xs, k) == q_add(bv, sx));
    } else {
        let rhs = q_add(q_zero(), q_mul(m, q_zero()));
        assert(rhs.n == 0 * (m.d * 1) + (m.n * 0) * 1);
        assert(rhs.n == 0) by (nonlinear_arith)
            requires
                rhs.n == 0 * (m.d * 1) + (m.n * 0) * 1,
        ;
        assert(q_eqv(q_zero(), rhs)) by (nonlinear_arith)
            requires
                rhs.n == 0,
        ;
    }
}

/// The residual of a row after one elimination update is, in value, the
/// old residual plus the multiplier times the pivot row's residual.
proof fn lemma_residual_linear(row: Seq<RatV>, m: RatV, src: Seq<RatV>, xs: Seq<RatV>)
    requires
        row_wf(row),
        row_wf(src),
        row_wf(xs),
        q_pos(m),
        src.len() == row.len(),
        xs.len() < row.len(),
    ensures
        q_pos(residual(row, xs)),
        q_pos(residual(src, xs)),
        q_pos(residual(row_after_elim(row, m, src), xs)),
        q_eqv(
            residual(row_after_elim(row, m, src), xs),
            q_add(residual(row, xs), q_mul(m, residual(src, xs))),
        ),
{
    let n = xs.len() as int;
    lemma_resid_linear(row, m, src, xs, n);
    let nr = row_after_elim(row, m, src);
    let wr = resid_upto(row, xs, n);
    let ws = resid_upto(src, xs, n);
    let wn = resid_upto(nr, xs, n);
    let cr = row[n];
    let cs = src[n];
    assert(q_wf(cr) && q_wf(cs));
    let t0 = q_mul(m, cs);
    lemma_elim_entry_value(cr, m, cs);
    assert(nr[n] == q_norm(q_add(cr, q_norm(t0))));
    let ne = nr[n];
    let mw = q_mul(m, ws);
    lemma_pos_mul(m, cs);
    lemma_pos_mul(m, ws);
    lemma_pos_add(wr, mw);
    lemma_pos_add(cr, t0);
    lemma_pos_add(wn, ne);
    lemma_add_congr(wn, q_add(wr, mw), ne, q_add(cr, t0));
    lemma_add_exchange(wr, mw, cr, t0);
    lemma_mul_distrib_left(m, ws, cs);
    lemma_pos_add(ws, cs);
    lemma_pos_mul(m, q_add(ws, cs));
    lemma_pos_add(wr, cr);
    lemma_pos_add(mw, t0);
    lemma_add_congr(q_add(wr, cr), q_add(wr, cr), q_add(mw, t0), q_mul(m, q_add(ws, cs)));
    let e1 = q_add(q_add(wr, mw), q_add(cr, t0));
    let e2 = q_add(q_add(wr, cr), q_add(mw, t0));
    let e3 = q_add(q_add(wr, cr), q_mul(m, q_add(ws, cs)));
    lemma_pos_add(q_add(wr, mw), q_add(cr, t0));
    lemma_pos_add(q_add(wr, cr), q_add(mw, t0));
    lemma_pos_add(q_add(wr, cr), q_mul(m, q_add(ws, cs)));
    lemma_eqv_trans(q_add(wn, ne), e1, e2);
    lemma_eqv_trans(q_add(wn, ne), e2, e3);
    assert(residual(nr, xs) == q_add(wn, ne));
    assert(residual(row, xs) == q_add(wr, cr));
    assert(residual(src, xs) == q_add(ws, cs));
}

/// If the updated system holds exactly at `xs`, so did the system before
/// the step: the update only added a multiple of a row that itself holds.
proof fn lemma_elim_preserves_sat(sys: Seq<Seq<RatV>>, var: int, erow: int, xs: Seq<RatV>)
    requires
        sys_wf(sys),
        0 <= var < sys.len(),
        0 <= erow < sys.len(),
        erow != var,
        xs.len() == sys.len(),
        row_wf(xs),
        (match elim_spec(sys, var, erow) {
            Some(s2) => sys_satisfied(s2, xs),
            None => false,
        }),
    ensures
        sys_satisfied(sys, xs),
{
    let e = sys[erow][var];
    let s = sys[var][var];
    lemma_elim_wf(sys, var, erow);
    if !q_near_zero(e) {
        let dv = q_div(e, s);
        let m = q_neg(q_norm(dv));
        let s2 = sys.update(erow, row_after_elim(sys[erow], m, sys[var]));
        assert(q_wf(e) && q_wf(s));
        assert(q_abs(s.n) * 8388608 > s.d);
        assert(s.n != 0);
        assert(q_pos(dv)) by {
            crate::rat::lemma_mul_range(e.d, s.n, i64::MAX as int);
        }
        lemma_norm_props(dv);
        assert(q_pos(m));
        assert forall|i: int| 0 <= i < sys.len() implies row_satisfied(#[trigger] sys[i], xs) by {
            if i == erow {
                let row = sys[erow];
                let src = sys[var];
                lemma_residual_linear(row, m, src, xs);
                let rr = residual(row, xs);
                let rs = residual(src, xs);
                let rn = residual(row_after_elim(row, m, src), xs);
                assert(s2[erow] == row_after_elim(row, m, src));
                assert(row_satisfied(s2[erow], xs));
                assert(rn.n == 0);
                assert(s2[var] == src);
                assert(row_satisfied(src, xs));
                assert(rs.n == 0);
                let t = q_mul(m, rs);
                assert(t.n == 0) by (nonlinear_arith)
                    requires
                        t.n == m.n * rs.n,
                        rs.n == 0,
                ;
                lemma_pos_mul(m, rs);
                let xsum = q_add(rr, t);
                assert(rn.n * xsum.d == xsum.n * rn.d);
                assert(xsum.n == 0) by (nonlinear_arith)
                    requires
                        rn.n * xsum.d == xsum.n * rn.d,
                        rn.n == 0,
                        rn.d > 0,
                ;
                assert(xsum.n == rr.n * t.d + t.n * rr.d);
                assert(rr.n == 0) by (nonlinear_arith)
                    requires
                        rr.n * t.d + t.n * rr.d == 0,
                        t.n == 0,
                        t.d > 0,
                ;
            } else {
                assert(s2[i] == sys[i]);
                assert(row_satisfied(s2[i], xs));
            }
        }
    }
}

/// A forward row sweep only ever adds multiples of rows: what holds of its
/// outcome held of its input.
proof fn lemma_fwd_rows_sat(sys: Seq<Seq<RatV>>, var: int, r: int, xs: Seq<RatV>)
    requires
        sys_wf(sys),
        0 <= var < sys.len(),
        r <= sys.len(),
        xs.len() == sys.len(),
        row_wf(xs),
        sys_satisfied(fwd_rows_upto(sys, var, r).sys, xs),
    ensures
        sys_satisfied(sys, xs),
    decreases r - var,
{
    if r > var + 1 {
        lemma_fwd_rows_wf(sys, var, r - 1);
        let st = fwd_rows_upto(sys, var, r - 1);
        if st.ok {
            match elim_spec(st.sys, var, r - 1) {
                Some(s2) => {
                    lemma_elim_preserves_sat(st.sys, var, r - 1, xs);
                },
                None => {},
            }
        }
        lemma_fwd_rows_sat(sys, var, r - 1, xs);
    }
}

/// The same, for the whole forward pass.
proof fn lemma_fwd_sat(sys0: Seq<Seq<RatV>>, k: int, xs: Seq<RatV>)
    requires
        sys_wf(sys0),
        0 <= k <= sys0.len(),
        xs.len() == sys0.len(),
        row_wf(xs),
        sys_satisfied(fwd_upto(sys0, k).sys, xs),
    ensures
        sys_satisfied(sys0, xs),
    decreases k,
{
    if k > 0 {
        lemma_fwd_wf(sys0, k - 1);
        let st = fwd_upto(sys0, k - 1);
        if st.ok {
            lemma_fwd_rows_sat(st.sys, k - 1, st.sys.len() as int, xs);
        }
        lemma_fwd_sat(sys0, k - 1, xs);
    }
}

/// The same, for a backward row sweep.
proof fn lemma_bwd_rows_sat(sys: Seq<Seq<RatV>>, var: int, r: int, xs: Seq<RatV>)
    requires
        sys_wf(sys),
        0 <= var < sys.len(),
        r <= var,
        xs.len() == sys.len(),
        row_wf(xs),
        sys_satisfied(bwd_rows_upto(sys, var, r).sys, xs),
    ensures
        sys_satisfied(sys, xs),
    decreases r,
{
    if r > 0 {
        lemma_bwd_rows_wf(sys, var, r - 1);
        let st = bwd_rows_upto(sys, var, r - 1);
        if st.ok {
            match elim_spec(st.sys, var, r - 1) {
                Some(s2) => {
                    lemma_elim_preserves_sat(st.sys, var, r - 1, xs);
                },
                None => {},
            }
        }
        lemma_bwd_rows_sat(sys, var, r - 1, xs);
    }
}

/// The same, for the whole backward pass.
proof fn lemma_bwd_sat(sys0: Seq<Seq<RatV>>, k: int, xs: Seq<RatV>)
    requires
        sys_wf(sys0),
        0 <= k <= sys0.len(),
        xs.len() == sys0.len(),
        row_wf(xs),
        sys_satisfied(bwd_upto(sys0, k).sys, xs),
    ensures
        sys_satisfied(sys0, xs),
    decreases k,
{
    if k > 0 {
        lemma_bwd_wf(sys0, k - 1);
        let st = bwd_upto(sys0, k - 1);
        if st.ok {
            lemma_bwd_rows_sat(st.sys, st.sys.len() - k, st.sys.len() - k, xs);
        }
        lemma_bwd_sat(sys0, k - 1, xs);
    }
}

/// Row operations preserve solutions backward: any assignment at which the
/// reduced system holds exactly also satisfied the system the run started
/// from, whether or not the run succeeded.
pub proof fn lemma_solve_preserves_solutions(sys0: Seq<Seq<RatV>>, xs: Seq<RatV>)
    requires
        sys_wf(sys0),
        xs.len() == sys0.len(),
        row_wf(xs),
        sys_satisfied(solve_spec(sys0).sys, xs),
    ensures
        sys_satisfied(sys0, xs),
{
    let f = fwd_upto(sys0, sys0.len() as int);
    lemma_fwd_wf(sys0, sys0.len() as int);
    if f.ok {
        lemma_bwd_sat(f.sys, f.sys.len() as int, xs);
    }
    lemma_fwd_sat(sys0, sys0.len() as int, xs);
}

/// Weighted partial sums of a row whose coefficients are zero outside
/// column `i` collapse to the single term of column `i`.
proof fn lemma_resid_sparse(row: Seq<RatV>, xs: Seq<RatV>, i: int, k: int)
    requires
        row_wf(row),
        row_wf(xs),
        xs.len() < row.len(),
        0 <= i < xs.len(),
        k <= xs.len(),
        forall|j: int| 0 <= j < xs.len() && j != i ==> (#[trigger] row[j]).n == 0,
    ensures
        q_pos(resid_upto(row, xs, k)),
        k <= i ==> resid_upto(row, xs, k).n == 0,
        k > i ==> q_eqv(resid_upto(row, xs, k), q_mul(row[i], xs[i])),
    decreases k,
{
    if k > 0 {
        lemma_resid_sparse(row, xs, i, k - 1);
        let acc = resid_upto(row, xs, k - 1);
        let t = q_mul(row[k - 1], xs[k - 1]);
        assert(q_wf(row[k - 1]) && q_wf(xs[k - 1]));
        lemma_pos_mul(row[k - 1], xs[k - 1]);
        lemma_pos_add(acc, t);
        assert(resid_upto(row, xs, k) == q_add(acc, t));
        if k - 1 < i {
            assert(row[k - 1].n == 0);
            assert(t.n == 0) by (nonlinear_arith)
                requires
                    t.n == row[k - 1].n * xs[k - 1].n,
                    row[k - 1].n == 0,
            ;
            assert(q_add(acc, t).n == acc.n * t.d + t.n * acc.d);
            assert(q_add(acc, t).n == 0) by (nonlinear_arith)
                requires
                    q_add(acc, t).n == acc.n * t.d + t.n * acc.d,
                    acc.n == 0,
                    t.n == 0,
            ;
        } else if k - 1 == i {
            assert(q_eqv(q_add(acc, t), t)) by (nonlinear_arith)
                requires
                    acc.n == 0,
                    q_add(acc, t).n == acc.n * t.d + t.n * acc.d,
                    q_add(acc, t).d == acc.d * t.d,
            ;
        } else {
            assert(row[k - 1].n == 0);
            assert(t.n == 0) by (nonlinear_arith)
                requires
                    t.n == row[k - 1].n * xs[k - 1].n,
                    row[k - 1].n == 0,
            ;
            lemma_add_zero_term(acc, t);
            lemma_pos_mul(row[i], xs[i]);
            lemma_eqv_trans(q_add(acc, t), acc, q_mul(row[i], xs[i]));
        }
    }
}

/// Multiplying the extracted quotient `-c / dg` back by the diagonal
/// coefficient `dg` gives back `-c` exactly.
proof fn lemma_div_cancel(c: RatV, dg: RatV)
    requires
        q_pos(c),
        q_pos(dg),
        dg.n != 0,
    ensures
        q_pos(q_div(q_neg(c), dg)),
        q_eqv(q_mul(dg, q_div(q_neg(c), dg)), q_neg(c)),
{
    let x = q_div(q_neg(c), dg);
    if dg.n >= 0 {
        assert(x == RatV { n: (-c.n) * dg.d, d: c.d * dg.n });
        assert(x.d > 0) by (nonlinear_arith)
            requires
                c.d > 0,
                dg.n > 0,
                x.d == c.d * dg.n,
        ;
        assert(q_mul(dg, x).n * c.d == (-c.n) * q_mul(dg, x).d) by (nonlinear_arith)
            requires
                q_mul(dg, x).n == dg.n * ((-c.n) * dg.d),
                q_mul(dg, x).d == dg.d * (c.d * dg.n),
        ;
    } else {
        assert(x == RatV { n: -((-c.n) * dg.d), d: -(c.d * dg.n) });
        assert(x.d > 0) by (nonlinear_arith)
            requires
                c.d > 0,
                dg.n < 0,
                x.d == -(c.d * dg.n),
        ;
        assert(q_mul(dg, x).n * c.d == (-c.n) * q_mul(dg, x).d) by (nonlinear_arith)
            requires
                q_mul(dg, x).n == dg.n * (-((-c.n) * dg.d)),
                q_mul(dg, x).d == dg.d * (-(c.d * dg.n)),
        ;
    }
}

/// Every off-diagonal coefficient column of the system is exactly zero.
pub open spec fn off_diag_zero(sysf: Seq<Seq<RatV>>) -> bool {
    forall|i: int, j: int|
        0 <= i < sysf.len() && 0 <= j < sysf.len() && i != j ==> (#[trigger] sysf[i][j]).n == 0
}

/// In a reduced system whose off-diagonal coefficients are exactly zero,
/// the extracted values `x_i = -c_n / c_i` satisfy every row exactly: the
/// residual of each equation at the extracted assignment is the rational
/// zero.
pub proof fn lemma_extraction_satisfies_reduced(sysf: Seq<Seq<RatV>>, xs: Seq<RatV>)
    requires
        sys_wf(sysf),
        off_diag_zero(sysf),
        xs.len() == sysf.len(),
        forall|v: int| 0 <= v < sysf.len() ==> extract_spec(sysf, v) == Some(xs[v]),
    ensures
        sys_satisfied(sysf, xs),
        row_wf(xs),
{
    let n = sysf.len() as int;
    assert forall|v: int| 0 <= v < n implies q_wf(#[trigger] xs[v]) by {
        let c = sysf[v][n];
        let dg = sysf[v][v];
        assert(q_wf(c) && q_wf(dg));
        assert(extract_spec(sysf, v) == Some(xs[v]));
        assert(xs[v] == q_norm(q_div(q_neg(c), dg)) && dg.n != 0);
        lemma_div_cancel(c, dg);
        lemma_norm_props(q_div(q_neg(c), dg));
    }
    assert forall|i: int| 0 <= i < n implies row_satisfied(#[trigger] sysf[i], xs) by {
        let row = sysf[i];
        let c = row[n];
        let dg = row[i];
        assert(q_wf(c) && q_wf(dg));
        assert(extract_spec(sysf, i) == Some(xs[i]));
        assert(xs[i] == q_norm(q_div(q_neg(c), dg)) && dg.n != 0);
        assert(forall|j: int| 0 <= j < n && j != i ==> (#[trigger] row[j]).n == 0);
        lemma_resid_sparse(row, xs, i, n);
        let w = resid_upto(row, xs, n);
        let dv = q_div(q_neg(c), dg);
        lemma_div_cancel(c, dg);
        lemma_norm_props(dv);
        lemma_mul_congr_left(dg, xs[i], dv);
        lemma_pos_mul(dg, xs[i]);
        lemma_pos_mul(dg, dv);
        lemma_eqv_trans(q_mul(dg, xs[i]), q_mul(dg, dv), q_neg(c));
        lemma_eqv_trans(w, q_mul(dg, xs[i]), q_neg(c));
        assert(residual(row, xs) == q_add(w, c));
        assert(q_add(w, c).n == 0) by (nonlinear_arith)
            requires
                q_add(w, c).n == w.n * c.d + c.n * w.d,
                w.n * c.d == (-c.n) * w.d,
        ;
    }
}

/// The reduced-system half of the round trip, for one source: after a
/// reduction that succeeded and left the system exactly diagonal, the
/// extracted exposures satisfy every reduced row exactly -- each row reads
/// `c_v * x_v + c_n = 0`, as the solver promises.
pub proof fn lemma_extraction_round_trip(ags: Seq<AgentV>, p: int)
    requires
        agents_wf(ags),
        0 <= p < ags.len(),
        source_spec(ags, p).ok,
        crate::engine::extractions_ok_spec(ags, p),
        off_diag_zero(solve_spec(build_sys_spec(ags, p)).sys),
    ensures
        sys_satisfied(solve_spec(build_sys_spec(ags, p)).sys, source_spec(ags, p).xs),
        row_wf(source_spec(ags, p).xs),
{
    let sys0 = build_sys_spec(ags, p);
    crate::engine::lemma_build_sys_wf(ags, p);
    lemma_solve_wf(sys0);
    let st = solve_spec(sys0);
    let xs = source_spec(ags, p).xs;
    assert(xs.len() == st.sys.len());
    assert forall|v: int| 0 <= v < st.sys.len() implies extract_spec(st.sys, v) == Some(
        #[trigger] xs[v],
    ) by {
        assert(extract_spec(st.sys, v) is Some);
    }
    lemma_extraction_satisfies_reduced(st.sys, xs);
}

/// Round trip for one source: when the reduction for source `p` succeeded
/// and drove every off-diagonal coefficient to exact zero, substituting the
/// extracted exposures back into the original per-source equations leaves a
/// residual of exactly zero in every row.
pub proof fn lemma_round_trip(ags: Seq<AgentV>, p: int)
    requires
        agents_wf(ags),
        0 <= p < ags.len(),
        source_spec(ags, p).ok,
        crate::engine::extractions_ok_spec(ags, p),
        off_diag_zero(solve_spec(build_sys_spec(ags, p)).sys),
    ensures
        sys_satisfied(build_sys_spec(ags, p), source_spec(ags, p).xs),
        row_wf(source_spec(ags, p).xs),
{
    lemma_extraction_round_trip(ags, p);
    crate::engine::lemma_build_sys_wf(ags, p);
    lemma_solve_preserves_solutions(build_sys_spec(ags, p), source_spec(ags, p).xs);
}

/// The single-agent boundary: with `deferred = [0]` (so the unit budget is
/// all in `own = [1]`), the one per-source system is `(0 - 1)x + 1 = 0`;
/// the agent's whole attention flows back to itself, nothing is left over,
/// and the refresh is valid.
pub proof fn lemma_single_agent(ags: Seq<AgentV>)
    requires
        agents_wf(ags),
        ags.len() == 1,
        ags[0].own[0] == q_one(),
        ags[0].deferred[0] == q_zero(),
    ensures
        valid_spec(ags),
        flow_matrix_spec(ags)[0][0] == q_one(),
        left_spec(ags)[0] == q_zero(),
{
    let sys0 = build_sys_spec(ags, 0);
    assert(crate::rat::gcd_spec(1, 0) == 1);
    assert(crate::rat::gcd_spec(1, 1) == 1);
    assert(crate::rat::gcd_spec(0, 1) == 1);
    assert(q_abs(-1) == 1);
    assert(crate::rat::gcd_spec(q_abs(-1) as nat, 1) == 1);
    assert((-1int) / 1int == -1int && 1int / 1int == 1int);
    assert(q_norm(RatV { n: -1, d: 1 }) == RatV { n: -1, d: 1 });
    assert(q_norm(RatV { n: 1, d: 1 }) == RatV { n: 1, d: 1 });
    assert(q_norm(RatV { n: 0, d: 1 }) == RatV { n: 0, d: 1 });
    assert(sys0.len() == 1);
    assert(sys0[0] == build_row_spec(ags, 0, 0));
    assert(sys0[0][0] == q_norm(q_dec(q_zero())));
    assert(sys0[0][0] == RatV { n: -1, d: 1 });
    assert(sys0[0][1] == q_one());
    assert(fwd_upto(sys0, 0) == SolveSt { sys: sys0, ok: true });
    assert(fwd_rows_upto(sys0, 0, 1) == SolveSt { sys: sys0, ok: true });
    assert(fwd_upto(sys0, 1) == SolveSt { sys: sys0, ok: true });
    assert(bwd_upto(sys0, 0) == SolveSt { sys: sys0, ok: true });
    assert(bwd_rows_upto(sys0, 0, 0) == SolveSt { sys: sys0, ok: true });
    assert(bwd_upto(sys0, 1) == SolveSt { sys: sys0, ok: true });
    assert(solve_spec(sys0) == SolveSt { sys: sys0, ok: true });
    assert(q_div(q_neg(q_one()), RatV { n: -1, d: 1 }) == q_one());
    assert(extract_spec(sys0, 0) == Some(q_one()));
    assert(source_spec(ags, 0).ok);
    assert(source_spec(ags, 0).xs[0] == q_one());
    assert(sources_ok_spec(ags)) by {
        assert forall|p: int| 0 <= p < 1 implies (#[trigger] source_spec(ags, p)).ok by {
            assert(p == 0);
        }
    }
    let fm = flow_matrix_spec(ags);
    assert(fm[0][0] == flow_raw_spec(ags)[0][0]);
    assert(fm[0][0] == q_one());
    assert(crate::engine::row_acc_upto(fm, 0, 0) == q_zero());
    assert(q_add(q_zero(), q_one()).n == 0 * 1 + 1 * 1);
    assert(q_add(q_zero(), q_one()) == q_one());
    assert(crate::engine::row_acc_upto(fm, 0, 1) == q_one());
    assert(q_add(q_one(), q_neg(q_one())) == RatV { n: 0, d: 1 });
    assert(crate::engine::row_acc_ok_upto(fm, 0, 0));
    assert(crate::engine::row_acc_ok_upto(fm, 0, 1));
    assert(q_bounded(RatV { n: 0, d: 1 }) && q_bounded(q_one()));
    assert(crate::engine::left_entry_spec(fm, 0) == Some(q_zero()));
    assert(left_spec(ags)[0] == q_zero());
    assert(valid_spec(ags));
}


} // verus!
