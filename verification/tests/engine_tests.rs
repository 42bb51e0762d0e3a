use eigenflow::engine::{Agent, ConfigError, FlowEngine};
use eigenflow::rat::Rat;
use eigenflow::solver::residual_value;

fn q(n: i64, d: i64) -> Rat {
    Rat::new(n, d).unwrap()
}

fn row(vals: &[(i64, i64)]) -> Vec<Rat> {
    vals.iter().map(|&(n, d)| q(n, d)).collect()
}

fn agent(own: &[(i64, i64)], deferred: &[(i64, i64)]) -> Agent {
    Agent::new(row(own), row(deferred)).unwrap()
}

/// The three-agent configuration the engine is demonstrated on.
fn three_agents() -> FlowEngine {
    let a = agent(&[(8, 10), (0, 1), (0, 1)], &[(0, 1), (1, 10), (1, 10)]);
    let b = agent(&[(4, 10), (1, 10), (0, 1)], &[(0, 1), (0, 1), (5, 10)]);
    let c = agent(&[(0, 1), (2, 10), (3, 10)], &[(0, 1), (5, 10), (0, 1)]);
    FlowEngine::new(vec![a, b, c]).unwrap()
}

#[test]
fn agent_rejects_mismatched_lengths() {
    let r = Agent::new(row(&[(1, 1)]), row(&[(0, 1), (0, 1)]));
    assert_eq!(r.unwrap_err(), ConfigError::LengthMismatch);
}

#[test]
fn agent_rejects_budget_away_from_one() {
    let r = Agent::new(row(&[(1, 2)]), row(&[(0, 1)]));
    assert_eq!(r.unwrap_err(), ConfigError::BudgetSum);
    let r = Agent::new(row(&[(1, 1), (1, 1)]), row(&[(0, 1), (0, 1)]));
    assert_eq!(r.unwrap_err(), ConfigError::BudgetSum);
}

#[test]
fn agent_accepts_budget_within_tolerance() {
    // 1 + 1/2^24 is within the 2^-23 tolerance of one
    assert!(Agent::new(row(&[(1, 1)]), row(&[(1, 16777216)])).is_ok());
}

#[test]
fn engine_rejects_vectors_shorter_than_the_agent_count() {
    let a = agent(&[(1, 1)], &[(0, 1)]);
    let b = agent(&[(1, 1)], &[(0, 1)]);
    let r = FlowEngine::new(vec![a, b]);
    assert_eq!(r.unwrap_err(), ConfigError::LengthMismatch);
}

#[test]
fn single_agent_keeps_all_attention() {
    // deferred must be [0], forcing own = [1]; the system is (0-1)x + 1 = 0
    let engine = FlowEngine::new(vec![agent(&[(1, 1)], &[(0, 1)])]).unwrap();
    let (flow, left, valid) = engine.compute_flow();
    assert!(valid);
    assert_eq!(flow.len(), 1);
    assert_eq!(flow[0][0], q(1, 1));
    assert_eq!(left[0], Rat::zero());
}

#[test]
fn three_agent_scenario_is_consistent() {
    let engine = three_agents();
    let (flow, _left, valid) = engine.compute_flow();
    assert!(valid);
    assert_eq!(flow.len(), 3);
    for r in &flow {
        assert_eq!(r.len(), 3);
    }
    // substitute each per-source solution back into its equation system
    for p in 0..3 {
        let (xs, ok) = engine.solve_source(p);
        assert!(ok);
        let sys = engine.build_system(p);
        for r in &sys {
            let res = residual_value(r, &xs).unwrap();
            assert!(res.value_eq(Rat::zero()));
        }
    }
}

#[test]
fn symmetrization_is_the_off_diagonal_transpose() {
    let engine = three_agents();
    let (flow, _left, _valid) = engine.compute_flow();
    let raw: Vec<Vec<Rat>> = (0..3).map(|p| engine.solve_source(p).0).collect();
    for i in 0..3 {
        for j in 0..3 {
            if i == j {
                assert_eq!(flow[i][i], raw[i][i]);
            } else {
                assert_eq!(flow[i][j], raw[j][i]);
            }
        }
    }
}

#[test]
fn repeated_refreshes_are_bit_identical() {
    let engine = three_agents();
    let (flow1, left1, valid1) = engine.compute_flow();
    let (flow2, left2, valid2) = engine.compute_flow();
    assert_eq!(flow1, flow2);
    assert_eq!(left1, left2);
    assert_eq!(valid1, valid2);
}

#[test]
fn left_is_one_minus_the_row_sums() {
    // row v of the returned matrix holds viewer v's raw per-source
    // exposures, so its sum is the attention v devotes to tracked sources
    let engine = three_agents();
    let (flow, left, _valid) = engine.compute_flow();
    for v in 0..3 {
        let mut acc = Rat::zero();
        for j in 0..3 {
            acc = acc.checked_add(flow[v][j]).unwrap();
        }
        let expect = Rat::one().checked_add(acc.neg()).unwrap();
        assert_eq!(left[v], expect);
    }
}

#[test]
fn left_vanishes_when_budgets_stay_inside_the_set() {
    // both agents watch only agent 1 directly and defer nothing, so no
    // attention leaves the tracked set: every left entry is zero
    let a = agent(&[(0, 1), (1, 1)], &[(0, 1), (0, 1)]);
    let b = agent(&[(0, 1), (1, 1)], &[(0, 1), (0, 1)]);
    let engine = FlowEngine::new(vec![a, b]).unwrap();
    let (_flow, left, valid) = engine.compute_flow();
    assert!(valid);
    assert_eq!(left[0], Rat::zero());
    assert_eq!(left[1], Rat::zero());
}

#[test]
fn self_deferring_agent_hits_a_zero_pivot() {
    // agent 0 defers everything to itself; agent 1 defers onto agent 0,
    // so the zero pivot is actually used and the solve fails
    let a = agent(&[(0, 1), (0, 1)], &[(1, 1), (0, 1)]);
    let b = agent(&[(1, 4), (1, 4)], &[(1, 2), (0, 1)]);
    let engine = FlowEngine::new(vec![a, b]).unwrap();
    let (_flow, _left, valid) = engine.compute_flow();
    assert!(!valid);
    assert!(!engine.solve_source(0).1);
}

#[test]
fn self_deferral_without_use_keeps_the_flag() {
    // nobody defers onto agent 0, so every elimination step is a skip and
    // the reduction succeeds: the flag stays true.  The zero diagonal only
    // surfaces at read-off, where the zero stand-in takes the place of the
    // non-finite quotient a floating-point division would have produced.
    let a = agent(&[(0, 1), (0, 1)], &[(1, 1), (0, 1)]);
    let b = agent(&[(1, 2), (1, 2)], &[(0, 1), (0, 1)]);
    let engine = FlowEngine::new(vec![a, b]).unwrap();
    let (flow, left, valid) = engine.compute_flow();
    assert!(valid);
    assert_eq!(flow.len(), 2);
    assert_eq!(flow[0][0], Rat::zero());
    // the degenerate agent's whole attention goes unaccounted for
    assert_eq!(left[0], Rat::one());
}

#[test]
fn budget_sum_overflow_is_a_configuration_error() {
    // the partial sum MAX + 1 cannot be represented
    let own = vec![q(i64::MAX, 1), q(1, 1)];
    let deferred = vec![q(0, 1), q(0, 1)];
    let r = Agent::new(own, deferred);
    assert_eq!(r.unwrap_err(), ConfigError::Unrepresentable);
}

#[test]
fn diagonal_decrement_overflow_is_a_configuration_error() {
    // -1/MAX - 1 has numerator -(MAX + 1), one past the machine range
    let a = Agent::new(
        vec![q(1, 2), q(1, 2)],
        vec![q(-1, i64::MAX), q(1, i64::MAX)],
    )
    .unwrap();
    let b = Agent::new(vec![q(1, 2), q(1, 2)], vec![q(0, 1), q(0, 1)]).unwrap();
    let r = FlowEngine::new(vec![a, b]);
    assert_eq!(r.unwrap_err(), ConfigError::Unrepresentable);
}
