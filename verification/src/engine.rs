//! The flow engine: agents, per-source systems, and the flow matrix.
//!
//! An agent splits a unit attention budget between watching each agent
//! directly (`own`) and deferring to what each agent watches (`deferred`).
//! For every content source `p` the engine builds the fixed-point system
//! `x_v = deferred_v . x + own_v[p]`, reduces it with the solver, extracts
//! the per-viewer exposures, transposes the matrix of solutions, and derives
//! for every viewer the attention left over, together with a validity flag
//! that records whether every per-source reduction succeeded.

use vstd::prelude::*;

use crate::rat::{
    lemma_norm_props, q_abs, q_add, q_bounded, q_dec, q_div, q_near_zero, q_neg, q_norm, q_one,
    q_wf, q_zero, Rat, RatV,
};
use crate::solver::{
    lemma_solve_wf, row_wf, solve_lineq, solve_spec, sys_wf, SolveError,
};

verus! {

/// Construction-time failures: the two vectors of a pair disagree in length
/// (or an agent's vectors do not match the agent count), the budget misses
/// one beyond tolerance, or a value needed later leaves the machine range.
#[derive(Clone, Copy, Debug, PartialEq, Eq, Structural)]
pub enum ConfigError {
    LengthMismatch,
    BudgetSum,
    Unrepresentable,
}

/// Mathematical content of an agent: its two allocation vectors.
pub ghost struct AgentV {
    pub own: Seq<RatV>,
    pub deferred: Seq<RatV>,
}

/// Partial sum of the first `k` entries on top of `acc0`, left to right.
pub open spec fn acc_upto(acc0: RatV, s: Seq<RatV>, k: int) -> RatV
    decreases k,
{
    if k <= 0 {
        acc0
    } else {
        q_norm(q_add(acc_upto(acc0, s, k - 1), s[k - 1]))
    }
}

/// Whether every partial sum up to `k` stays within the machine range.
pub open spec fn acc_ok_upto(acc0: RatV, s: Seq<RatV>, k: int) -> bool
    decreases k,
{
    if k <= 0 {
        true
    } else {
        acc_ok_upto(acc0, s, k - 1) && q_bounded(
            q_norm(q_add(acc_upto(acc0, s, k - 1), s[k - 1])),
        )
    }
}

/// The agent's full budget: the sum of both vectors.
pub open spec fn budget_sum(a: AgentV) -> RatV {
    acc_upto(acc_upto(q_zero(), a.own, a.own.len() as int), a.deferred, a.deferred.len() as int)
}

/// Whether the budget sum is representable at all.
pub open spec fn budget_sum_ok(a: AgentV) -> bool {
    &&& acc_ok_upto(q_zero(), a.own, a.own.len() as int)
    &&& acc_ok_upto(
        acc_upto(q_zero(), a.own, a.own.len() as int),
        a.deferred,
        a.deferred.len() as int,
    )
}

/// The budget is within the zero tolerance of one.
pub open spec fn budget_near_one(a: AgentV) -> bool {
    q_near_zero(q_dec(budget_sum(a)))
}

/// A partial sum that has left the machine range never comes back.
pub proof fn lemma_acc_ok_monotone(acc0: RatV, s: Seq<RatV>, k1: int, k2: int)
    requires
        k1 <= k2,
        !acc_ok_upto(acc0, s, k1),
    ensures
        !acc_ok_upto(acc0, s, k2),
    decreases k2 - k1,
{
    if k1 < k2 {
        lemma_acc_ok_monotone(acc0, s, k1, k2 - 1);
    }
}

/// An agent: immutable once constructed, with both vectors the same length
/// and the budget within tolerance of one.
#[derive(Debug)]
pub struct Agent {
    own: Vec<Rat>,
    deferred: Vec<Rat>,
}

impl View for Agent {
    type V = AgentV;

    closed spec fn view(&self) -> AgentV {
        AgentV { own: self.own.deep_view(), deferred: self.deferred.deep_view() }
    }
}

impl DeepView for Agent {
    type V = AgentV;

    closed spec fn deep_view(&self) -> AgentV {
        self.view()
    }
}

/// The two ghost views of an agent coincide.  `Agent::new` pins `a@` and
/// `FlowEngine::new` speaks of `agents.deep_view()`; with this a caller
/// outside the module can carry facts from the one to the other, and so
/// instantiate the public laws for an engine built through the public
/// constructors.
pub proof fn lemma_agent_views_agree(a: &Agent)
    ensures
        a.deep_view() == a@,
{
}

impl Agent {
    /// Validates and stores one allocation pair: the vectors must have equal
    /// length and the entries must sum to one within the zero tolerance.
    pub fn new(own: Vec<Rat>, deferred: Vec<Rat>) -> (r: Result<Agent, ConfigError>)
        requires
            row_wf(own.deep_view()),
            row_wf(deferred.deep_view()),
        ensures
            (match r {
                Ok(a) => {
                    &&& own@.len() == deferred@.len()
                    &&& a@ == (AgentV { own: own.deep_view(), deferred: deferred.deep_view() })
                    &&& budget_sum_ok(a@)
                    &&& budget_near_one(a@)
                },
                Err(ConfigError::LengthMismatch) => own@.len() != deferred@.len(),
                Err(ConfigError::Unrepresentable) => own@.len() == deferred@.len()
                    && !budget_sum_ok(
                    AgentV { own: own.deep_view(), deferred: deferred.deep_view() },
                ),
                Err(ConfigError::BudgetSum) => own@.len() == deferred@.len() && budget_sum_ok(
                    AgentV { own: own.deep_view(), deferred: deferred.deep_view() },
                ) && !budget_near_one(
                    AgentV { own: own.deep_view(), deferred: deferred.deep_view() },
                ),
            }),
    {
        let ghost av = AgentV { own: own.deep_view(), deferred: deferred.deep_view() };
        if own.len() != deferred.len() {
            return Err(ConfigError::LengthMismatch);
        }
        let mut acc = Rat::zero();
        let no = own.len();
        for i in 0..no
            invariant
                no == own@.len(),
                own@.len() == deferred@.len(),
                av == (AgentV { own: own.deep_view(), deferred: deferred.deep_view() }),
                av.own == own.deep_view(),
                row_wf(av.own),
                q_wf(acc@),
                acc@ == acc_upto(q_zero(), av.own, i as int),
                acc_ok_upto(q_zero(), av.own, i as int),
        {
            proof {
                assert(own@[i as int]@ == av.own[i as int]);
            }
            acc = match acc.checked_add(own[i]) {
                Some(x) => x,
                None => {
                    proof {
                        lemma_acc_ok_monotone(q_zero(), av.own, i + 1, av.own.len() as int);
                    }
                    return Err(ConfigError::Unrepresentable);
                },
            };
        }
        let ghost own_sum = acc_upto(q_zero(), av.own, av.own.len() as int);
        let nd = deferred.len();
        for i in 0..nd
            invariant
                nd == deferred@.len(),
                own@.len() == deferred@.len(),
                av == (AgentV { own: own.deep_view(), deferred: deferred.deep_view() }),
                av.deferred == deferred.deep_view(),
                row_wf(av.deferred),
                q_wf(acc@),
                acc_ok_upto(q_zero(), av.own, av.own.len() as int),
                own_sum == acc_upto(q_zero(), av.own, av.own.len() as int),
                acc@ == acc_upto(own_sum, av.deferred, i as int),
                acc_ok_upto(own_sum, av.deferred, i as int),
        {
            proof {
                assert(deferred@[i as int]@ == av.deferred[i as int]);
            }
            acc = match acc.checked_add(deferred[i]) {
                Some(x) => x,
                None => {
                    proof {
                        lemma_acc_ok_monotone(own_sum, av.deferred, i + 1, av.deferred.len() as int);
                    }
                    return Err(ConfigError::Unrepresentable);
                },
            };
        }
        let dn: i128 = (acc.num as i128) - (acc.den as i128);
        let da: i128 = if dn >= 0 {
            dn
        } else {
            -dn
        };
        proof {
            crate::rat::lemma_mul_le(
                q_abs(acc@.n - acc@.d),
                8388608,
                2 * (i64::MAX as int),
                8388608,
            );
        }
        if da * 8388608 <= acc.den as i128 {
            Ok(Agent { own, deferred })
        } else {
            Err(ConfigError::BudgetSum)
        }
    }
}

/// Shape and range conditions the engine needs of its agent set: every
/// vector has the agent count as its length, every entry is well formed,
/// and the diagonal decrement of the system construction is representable.
pub open spec fn agents_wf(ags: Seq<AgentV>) -> bool {
    forall|i: int|
        0 <= i < ags.len() ==> {
            let a = #[trigger] ags[i];
            &&& a.own.len() == ags.len()
            &&& a.deferred.len() == ags.len()
            &&& row_wf(a.own)
            &&& row_wf(a.deferred)
            &&& q_bounded(q_norm(q_dec(a.deferred[i])))
        }
}

/// The engine: a fixed set of validated agents.
#[derive(Debug)]
pub struct FlowEngine {
    agents: Vec<Agent>,
}

impl View for FlowEngine {
    type V = Seq<AgentV>;

    closed spec fn view(&self) -> Seq<AgentV> {
        self.agents.deep_view()
    }
}

/// Row `v` of the per-source system for source `p`: the viewer's `deferred`
/// vector with the diagonal entry decreased by one, and the viewer's direct
/// attention to `p` as the constant column.
pub open spec fn build_row_spec(ags: Seq<AgentV>, p: int, v: int) -> Seq<RatV> {
    let n = ags.len() as int;
    Seq::new(
        (n + 1) as nat,
        |j: int|
            if j < n {
                if j == v {
                    q_norm(q_dec(ags[v].deferred[j]))
                } else {
                    ags[v].deferred[j]
                }
            } else {
                ags[v].own[p]
            },
    )
}

/// The whole per-source system for source `p`.
pub open spec fn build_sys_spec(ags: Seq<AgentV>, p: int) -> Seq<Seq<RatV>> {
    Seq::new(ags.len(), |v: int| build_row_spec(ags, p, v))
}

/// The per-source system of a well-formed agent set is well formed.
pub proof fn lemma_build_sys_wf(ags: Seq<AgentV>, p: int)
    requires
        agents_wf(ags),
        0 <= p < ags.len(),
    ensures
        sys_wf(build_sys_spec(ags, p)),
        build_sys_spec(ags, p).len() == ags.len(),
{
    let sys = build_sys_spec(ags, p);
    assert forall|i: int| 0 <= i < sys.len() implies (#[trigger] sys[i]).len() == sys.len() + 1
        && row_wf(sys[i]) by {
        let row = build_row_spec(ags, p, i);
        assert forall|j: int| 0 <= j < row.len() implies q_wf(#[trigger] row[j]) by {
            let n = ags.len() as int;
            if j < n {
                assert(q_wf(ags[i].deferred[j]));
                if j == i {
                    lemma_norm_props(q_dec(ags[i].deferred[j]));
                }
            } else {
                assert(q_wf(ags[i].own[p]));
            }
        }
    }
}

/// The solution the engine reads off for one source: the per-viewer values
/// `-c_n / c_v` of the reduced system.  `None` marks a quotient that cannot
/// be formed (a zero diagonal, or a value past the machine range); the
/// engine then stores the rational zero in its place, the stand-in for the
/// non-finite number the division would otherwise produce.
pub open spec fn extract_spec(sysf: Seq<Seq<RatV>>, v: int) -> Option<RatV> {
    let nn = sysf.len() as int;
    let c = sysf[v][nn];
    let dg = sysf[v][v];
    if dg.n != 0 && q_bounded(q_norm(q_div(q_neg(c), dg))) {
        Some(q_norm(q_div(q_neg(c), dg)))
    } else {
        None
    }
}

/// Outcome of one per-source solve.
pub ghost struct SourceOut {
    pub xs: Seq<RatV>,
    pub ok: bool,
}

/// Build, reduce and extract for one source.  The flag reports the
/// reduction alone: a quotient that cannot be formed leaves the zero
/// stand-in in `xs` without clearing it.
pub open spec fn source_spec(ags: Seq<AgentV>, p: int) -> SourceOut {
    let st = solve_spec(build_sys_spec(ags, p));
    SourceOut {
        xs: Seq::new(
            ags.len(),
            |v: int|
                match extract_spec(st.sys, v) {
                    Some(x) => x,
                    None => q_zero(),
                },
        ),
        ok: st.ok,
    }
}

/// Every per-viewer quotient of source `p`'s reduced system can be formed.
pub open spec fn extractions_ok_spec(ags: Seq<AgentV>, p: int) -> bool {
    forall|v: int|
        0 <= v < ags.len() ==> extract_spec(solve_spec(build_sys_spec(ags, p)).sys, v) is Some
}

/// Square matrix of well-formed entries.
pub open spec fn mat_wf(m: Seq<Seq<RatV>>, n: int) -> bool {
    m.len() == n && forall|i: int| 0 <= i < n ==> (#[trigger] m[i]).len() == n && row_wf(m[i])
}

/// Matrix of raw per-source solutions, one source per row.
pub open spec fn flow_raw_spec(ags: Seq<AgentV>) -> Seq<Seq<RatV>> {
    Seq::new(ags.len(), |p: int| source_spec(ags, p).xs)
}

/// Whether every per-source reduction succeeded.
pub open spec fn sources_ok_spec(ags: Seq<AgentV>) -> bool {
    forall|p: int| 0 <= p < ags.len() ==> (#[trigger] source_spec(ags, p)).ok
}

/// The transpose of a square matrix.
pub open spec fn transpose_spec(m: Seq<Seq<RatV>>) -> Seq<Seq<RatV>> {
    Seq::new(m.len(), |i: int| Seq::new(m.len(), |j: int| m[j][i]))
}

/// The matrix the engine returns: the raw solutions after the
/// symmetrization step, which exchanges every off-diagonal pair.
pub open spec fn flow_matrix_spec(ags: Seq<AgentV>) -> Seq<Seq<RatV>> {
    transpose_spec(flow_raw_spec(ags))
}

/// Partial sum of the first `k` entries of row `v`.
pub open spec fn row_acc_upto(m: Seq<Seq<RatV>>, v: int, k: int) -> RatV
    decreases k,
{
    if k <= 0 {
        q_zero()
    } else {
        q_norm(q_add(row_acc_upto(m, v, k - 1), m[v][k - 1]))
    }
}

/// Whether every partial row sum stays within the machine range.
pub open spec fn row_acc_ok_upto(m: Seq<Seq<RatV>>, v: int, k: int) -> bool
    decreases k,
{
    if k <= 0 {
        true
    } else {
        row_acc_ok_upto(m, v, k - 1) && q_bounded(
            q_norm(q_add(row_acc_upto(m, v, k - 1), m[v][k - 1])),
        )
    }
}

/// A row sum that has left the machine range never comes back.
pub proof fn lemma_row_ok_monotone(m: Seq<Seq<RatV>>, v: int, k1: int, k2: int)
    requires
        k1 <= k2,
        !row_acc_ok_upto(m, v, k1),
    ensures
        !row_acc_ok_upto(m, v, k2),
    decreases k2 - k1,
{
    if k1 < k2 {
        lemma_row_ok_monotone(m, v, k1, k2 - 1);
    }
}

/// The attention viewer `v` has left: one minus the sum of row `v` of the
/// returned matrix, when both are representable.  After the symmetrization
/// exchange that row holds viewer `v`'s raw per-source exposures, so this
/// is one minus the attention `v` devotes across all tracked sources.
pub open spec fn left_entry_spec(m: Seq<Seq<RatV>>, v: int) -> Option<RatV> {
    let n = m.len() as int;
    if row_acc_ok_upto(m, v, n) && q_bounded(q_norm(q_add(q_one(), q_neg(row_acc_upto(m, v, n)))))
        {
        Some(q_norm(q_add(q_one(), q_neg(row_acc_upto(m, v, n)))))
    } else {
        None
    }
}

/// The `left` vector: one minus each viewer's row sum of the returned
/// matrix, zero where the entry is not representable.
pub open spec fn left_spec(ags: Seq<AgentV>) -> Seq<RatV> {
    let fm = flow_matrix_spec(ags);
    Seq::new(
        ags.len(),
        |v: int|
            match left_entry_spec(fm, v) {
                Some(x) => x,
                None => q_zero(),
            },
    )
}

/// The validity flag of one refresh: true exactly when every per-source
/// solve succeeded.  A quotient or `left` entry that cannot be formed gets
/// the zero stand-in without touching the flag, just as a division of
/// floating-point numbers would silently yield a non-finite value.
pub open spec fn valid_spec(ags: Seq<AgentV>) -> bool {
    sources_ok_spec(ags)
}

impl FlowEngine {
    /// Builds the fixed agent set.  Every agent's vectors must have the
    /// agent count as their length, and the diagonal decrement of the system
    /// construction must be representable for every agent.
    pub fn new(agents: Vec<Agent>) -> (r: Result<FlowEngine, ConfigError>)
        requires
            forall|i: int|
                0 <= i < agents@.len() ==> {
                    let a = (#[trigger] agents@[i])@;
                    a.own.len() == a.deferred.len() && row_wf(a.own) && row_wf(a.deferred)
                },
        ensures
            (match r {
                Ok(e) => e@ == agents.deep_view() && agents_wf(e@) && e@.len() == agents@.len(),
                Err(ConfigError::LengthMismatch) => !(forall|i: int|
                    0 <= i < agents@.len() ==> (#[trigger] agents@[i])@.own.len()
                        == agents@.len()),
                Err(ConfigError::Unrepresentable) => (forall|i: int|
                    0 <= i < agents@.len() ==> (#[trigger] agents@[i])@.own.len()
                        == agents@.len()) && !(forall|i: int|
                    0 <= i < agents@.len() ==> q_bounded(
                        q_norm(q_dec((#[trigger] agents@[i])@.deferred[i])),
                    )),
                Err(ConfigError::BudgetSum) => false,
            }),
    {
        let n = agents.len();
        proof {
            assert(agents.deep_view().len() == agents@.len());
        }
        for i in 0..n
            invariant
                n == agents@.len(),
                forall|k: int|
                    0 <= k < i ==> (#[trigger] agents@[k])@.own.len() == agents@.len(),
        {
            let leni = agents[i].own.len();
            proof {
                assert(agents@[i as int]@.own.len() == agents@[i as int].own.deep_view().len());
            }
            if leni != n {
                return Err(ConfigError::LengthMismatch);
            }
        }
        for i in 0..n
            invariant
                n == agents@.len(),
                forall|k: int|
                    0 <= k < n ==> (#[trigger] agents@[k])@.own.len() == agents@.len(),
                forall|i2: int|
                    0 <= i2 < agents@.len() ==> {
                        let a = (#[trigger] agents@[i2])@;
                        a.own.len() == a.deferred.len() && row_wf(a.own) && row_wf(a.deferred)
                    },
                forall|k: int|
                    0 <= k < i ==> q_bounded(q_norm(q_dec((#[trigger] agents@[k])@.deferred[k]))),
        {
            let d = agents[i].deferred[i];
            proof {
                assert(d@ == agents@[i as int]@.deferred[i as int]);
                assert(q_wf(d@));
            }
            match d.minus_one() {
                Some(_) => {},
                None => {
                    return Err(ConfigError::Unrepresentable);
                },
            }
        }
        let ghost ags = agents.deep_view();
        proof {
            assert forall|i: int| 0 <= i < ags.len() implies {
                let a = #[trigger] ags[i];
                &&& a.own.len() == ags.len()
                &&& a.deferred.len() == ags.len()
                &&& row_wf(a.own)
                &&& row_wf(a.deferred)
                &&& q_bounded(q_norm(q_dec(a.deferred[i])))
            } by {
                assert(ags[i] == agents@[i]@);
            }
        }
        Ok(FlowEngine { agents })
    }

    /// The number of agents the engine was built over.
    pub fn agent_count(&self) -> (n: usize)
        ensures
            n == self@.len(),
    {
        self.agents.len()
    }

    /// Builds the per-source linear system for source `p`, row by row.
    pub fn build_system(&self, p: usize) -> (r: Vec<Vec<Rat>>)
        requires
            agents_wf(self@),
            p < self@.len(),
        ensures
            r.deep_view() == build_sys_spec(self@, p as int),
            sys_wf(r.deep_view()),
            r@.len() == self@.len(),
    {
        let n = self.agents.len();
        proof {
            assert(self@.len() == n);
            lemma_build_sys_wf(self@, p as int);
        }
        let mut sys: Vec<Vec<Rat>> = Vec::new();
        for v in 0..n
            invariant
                n == self@.len(),
                agents_wf(self@),
                p < n,
                sys@.len() == v,
                forall|k: int|
                    0 <= k < v ==> (#[trigger] sys.deep_view()[k]) == build_row_spec(
                        self@,
                        p as int,
                        k,
                    ),
        {
            let mut row: Vec<Rat> = Vec::new();
            for j in 0..n
                invariant
                    n == self@.len(),
                    agents_wf(self@),
                    p < n,
                    v < n,
                    row@.len() == j,
                    forall|k: int|
                        0 <= k < j ==> (#[trigger] row.deep_view()[k]) == build_row_spec(
                            self@,
                            p as int,
                            v as int,
                        )[k],
            {
                proof {
                    assert(self.agents@[v as int]@ == self@[v as int]);
                    assert(self.agents@[v as int].deferred@.len() == self@[v as int].deferred.len());
                    assert(self.agents@[v as int].own@.len() == self@[v as int].own.len());
                }
                let ghost prevr = row.deep_view();
                let x = if j == v {
                    let d = self.agents[v].deferred[j];
                    proof {
                        assert(d@ == self@[v as int].deferred[j as int]);
                        assert(q_wf(d@) && q_bounded(q_norm(q_dec(d@))));
                    }
                    match d.minus_one() {
                        Some(y) => y,
                        None => {
                            proof {
                                assert(false);
                            }
                            Rat::zero()
                        },
                    }
                } else {
                    let d = self.agents[v].deferred[j];
                    proof {
                        assert(d@ == self@[v as int].deferred[j as int]);
                    }
                    d
                };
                row.push(x);
                proof {
                    assert(row.deep_view() =~= prevr.push(x@));
                }
            }
            proof {
                assert(self.agents@[v as int]@ == self@[v as int]);
                assert(self.agents@[v as int].own@.len() == self@[v as int].own.len());
            }
            let ghost prevr = row.deep_view();
            let c = self.agents[v].own[p];
            proof {
                assert(c@ == self@[v as int].own[p as int]);
            }
            row.push(c);
            proof {
                assert(row.deep_view() =~= prevr.push(c@));
                assert(row.deep_view() =~= build_row_spec(self@, p as int, v as int));
            }
            let ghost prevs = sys.deep_view();
            sys.push(row);
            proof {
                assert(sys.deep_view() =~~= prevs.push(row.deep_view()));
            }
        }
        proof {
            assert(sys.deep_view() =~~= build_sys_spec(self@, p as int));
        }
        sys
    }

    /// Builds and reduces the system for source `p` and extracts the
    /// per-viewer exposures; the flag reports whether the reduction
    /// succeeded.  Values are read off best-effort either way, with zero
    /// standing in for a quotient that cannot be formed.
    pub fn solve_source(&self, p: usize) -> (r: (Vec<Rat>, bool))
        requires
            agents_wf(self@),
            p < self@.len(),
        ensures
            r.0.deep_view() == source_spec(self@, p as int).xs,
            r.1 == source_spec(self@, p as int).ok,
            row_wf(r.0.deep_view()),
            r.0@.len() == self@.len(),
    {
        let n = self.agents.len();
        let mut sys = self.build_system(p);
        let ghost sys0 = sys.deep_view();
        let solved = solve_lineq(&mut sys);
        let ok0 = solved.is_ok();
        let ghost st = solve_spec(sys0);
        proof {
            lemma_solve_wf(sys0);
            assert(sys.deep_view() == st.sys);
            assert(st.sys.len() == n);
        }
        let mut xs: Vec<Rat> = Vec::new();
        for v in 0..n
            invariant
                n == self@.len(),
                sys.deep_view() == st.sys,
                sys@.len() == n,
                st == solve_spec(build_sys_spec(self@, p as int)),
                sys_wf(st.sys),
                st.sys.len() == n,
                ok0 == st.ok,
                xs@.len() == v,
                forall|k: int|
                    0 <= k < v ==> (#[trigger] xs.deep_view()[k]) == (match extract_spec(
                        st.sys,
                        k,
                    ) {
                        Some(x) => x,
                        None => q_zero(),
                    }),
                forall|k: int| 0 <= k < v ==> q_wf(#[trigger] xs.deep_view()[k]),
        {
            proof {
                assert(sys@[v as int].deep_view() == st.sys[v as int]);
                assert(sys@[v as int]@.len() == st.sys[v as int].len());
            }
            let ghost prevx = xs.deep_view();
            let c = sys[v][n];
            let dg = sys[v][v];
            proof {
                assert(c@ == st.sys[v as int][n as int]);
                assert(dg@ == st.sys[v as int][v as int]);
                assert(q_wf(c@) && q_wf(dg@));
            }
            let x = match c.neg().checked_div(dg) {
                Some(x) => {
                    proof {
                        assert(extract_spec(st.sys, v as int) == Some(x@));
                    }
                    x
                },
                None => {
                    proof {
                        assert(extract_spec(st.sys, v as int) is None);
                    }
                    Rat::zero()
                },
            };
            xs.push(x);
            proof {
                assert(xs.deep_view() =~= prevx.push(x@));
            }
        }
        proof {
            assert(xs.deep_view() =~= source_spec(self@, p as int).xs);
        }
        (xs, ok0)
    }

    /// One refresh: the flow matrix, the per-viewer attention left over, and
    /// the validity flag.  Pure in the agent set; the exact outcome is
    /// `flow_matrix_spec`, `left_spec` and `valid_spec` of the agents.
    pub fn compute_flow(&self) -> (r: (Vec<Vec<Rat>>, Vec<Rat>, bool))
        requires
            agents_wf(self@),
        ensures
            r.0.deep_view() == flow_matrix_spec(self@),
            r.1.deep_view() == left_spec(self@),
            r.2 == valid_spec(self@),
            mat_wf(r.0.deep_view(), self@.len() as int),
            row_wf(r.1.deep_view()),
            r.1@.len() == self@.len(),
    {
        let n = self.agents.len();
        let mut raw: Vec<Vec<Rat>> = Vec::new();
        let mut valid = true;
        for p in 0..n
            invariant
                n == self@.len(),
                agents_wf(self@),
                raw@.len() == p,
                forall|k: int|
                    0 <= k < p ==> (#[trigger] raw.deep_view()[k]) == source_spec(self@, k).xs,
                forall|k: int|
                    0 <= k < p ==> (#[trigger] raw.deep_view()[k]).len() == n && row_wf(
                        raw.deep_view()[k],
                    ),
                valid == (forall|k: int| 0 <= k < p ==> (#[trigger] source_spec(self@, k)).ok),
        {
            let ghost prevr = raw.deep_view();
            let (xs, ok) = self.solve_source(p);
            valid = ok && valid;
            raw.push(xs);
            proof {
                assert(raw.deep_view() =~~= prevr.push(xs.deep_view()));
            }
        }
        proof {
            assert(raw.deep_view() =~~= flow_raw_spec(self@));
            assert(valid == sources_ok_spec(self@));
        }
        let ghost rawv = raw.deep_view();
        let mut flow: Vec<Vec<Rat>> = Vec::new();
        for i in 0..n
            invariant
                n == self@.len(),
                rawv == flow_raw_spec(self@),
                raw.deep_view() == rawv,
                raw@.len() == n,
                mat_wf(rawv, n as int),
                flow@.len() == i,
                forall|k: int|
                    0 <= k < i ==> (#[trigger] flow.deep_view()[k]) == transpose_spec(rawv)[k],
        {
            let mut row: Vec<Rat> = Vec::new();
            for j in 0..n
                invariant
                    n == self@.len(),
                    raw.deep_view() == rawv,
                    raw@.len() == n,
                    mat_wf(rawv, n as int),
                    i < n,
                    row@.len() == j,
                    forall|k: int|
                        0 <= k < j ==> (#[trigger] row.deep_view()[k]) == rawv[k][i as int],
            {
                proof {
                    assert(raw@[j as int].deep_view() == rawv[j as int]);
                    assert(raw@[j as int]@.len() == rawv[j as int].len());
                }
                let ghost prevr = row.deep_view();
                let x = raw[j][i];
                proof {
                    assert(x@ == rawv[j as int][i as int]);
                }
                row.push(x);
                proof {
                    assert(row.deep_view() =~= prevr.push(x@));
                }
            }
            let ghost prevf = flow.deep_view();
            flow.push(row);
            proof {
                assert(flow.deep_view() =~~= prevf.push(row.deep_view()));
                assert(flow.deep_view()[i as int] =~= transpose_spec(rawv)[i as int]);
            }
        }
        proof {
            assert(flow.deep_view() =~~= transpose_spec(rawv));
            assert(flow.deep_view() == flow_matrix_spec(self@));
        }
        let ghost fm = flow_matrix_spec(self@);
        proof {
            assert(mat_wf(fm, n as int)) by {
                assert forall|i: int| 0 <= i < n implies (#[trigger] fm[i]).len() == n && row_wf(
                    fm[i],
                ) by {
                    assert forall|j: int| 0 <= j < n implies q_wf(#[trigger] fm[i][j]) by {
                        assert(fm[i][j] == rawv[j][i]);
                    }
                }
            }
        }
        let mut left: Vec<Rat> = Vec::new();
        for v in 0..n
            invariant
                n == self@.len(),
                flow.deep_view() == fm,
                flow@.len() == n,
                fm == flow_matrix_spec(self@),
                mat_wf(fm, n as int),
                sources_ok_spec(self@) == (forall|k: int|
                    0 <= k < n ==> (#[trigger] source_spec(self@, k)).ok),
                left@.len() == v,
                forall|k: int|
                    0 <= k < v ==> (#[trigger] left.deep_view()[k]) == (match left_entry_spec(
                        fm,
                        k,
                    ) {
                        Some(x) => x,
                        None => q_zero(),
                    }),
                forall|k: int| 0 <= k < v ==> q_wf(#[trigger] left.deep_view()[k]),
                valid == sources_ok_spec(self@),
        {
            let ghost prevl = left.deep_view();
            let x = match row_sum(&flow, v) {
                Some(s) => {
                    match Rat::one().checked_add(s.neg()) {
                        Some(l) => {
                            proof {
                                assert(left_entry_spec(fm, v as int) == Some(l@));
                            }
                            l
                        },
                        None => {
                            proof {
                                assert(left_entry_spec(fm, v as int) is None);
                            }
                            Rat::zero()
                        },
                    }
                },
                None => {
                    proof {
                        assert(left_entry_spec(fm, v as int) is None);
                    }
                    Rat::zero()
                },
            };
            left.push(x);
            proof {
                assert(left.deep_view() =~= prevl.push(x@));
            }
        }
        proof {
            assert(left.deep_view() =~= left_spec(self@));
            assert(valid == valid_spec(self@));
        }
        (flow, left, valid)
    }
}

/// Sums row `v` of a square matrix; `None` when a partial sum leaves the
/// machine range.
fn row_sum(m: &Vec<Vec<Rat>>, v: usize) -> (r: Option<Rat>)
    requires
        mat_wf(m.deep_view(), m@.len() as int),
        v < m@.len(),
    ensures
        (match r {
            Some(x) => row_acc_ok_upto(m.deep_view(), v as int, m@.len() as int) && x@
                == row_acc_upto(m.deep_view(), v as int, m@.len() as int) && q_wf(x@),
            None => !row_acc_ok_upto(m.deep_view(), v as int, m@.len() as int),
        }),
{
    let n = m.len();
    let ghost mv = m.deep_view();
    let mut acc = Rat::zero();
    for j in 0..n
        invariant
            n == m@.len(),
            mv == m.deep_view(),
            mat_wf(mv, n as int),
            v < n,
            q_wf(acc@),
            acc@ == row_acc_upto(mv, v as int, j as int),
            row_acc_ok_upto(mv, v as int, j as int),
    {
        proof {
            assert(m@[v as int].deep_view() == mv[v as int]);
            assert(m@[v as int]@.len() == mv[v as int].len());
        }
        let x = m[v][j];
        proof {
            assert(x@ == mv[v as int][j as int]);
            assert(q_wf(x@));
        }
        acc = match acc.checked_add(x) {
            Some(a) => a,
            None => {
                proof {
                    lemma_row_ok_monotone(mv, v as int, j + 1, n as int);
                }
                return None;
            },
        };
    }
    Some(acc)
}

} // verus!
