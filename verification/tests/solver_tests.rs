use eigenflow::rat::Rat;
use eigenflow::solver::{residual_value, solve_lineq, SolveError};

fn q(n: i64, d: i64) -> Rat {
    Rat::new(n, d).unwrap()
}

fn row(vals: &[(i64, i64)]) -> Vec<Rat> {
    vals.iter().map(|&(n, d)| q(n, d)).collect()
}

#[test]
fn single_equation_needs_no_elimination() {
    // 2x - 4 = 0
    let mut sys = vec![row(&[(2, 1), (-4, 1)])];
    assert!(solve_lineq(&mut sys).is_ok());
    assert_eq!(sys[0], row(&[(2, 1), (-4, 1)]));
    let x = sys[0][1].neg().checked_div(sys[0][0]).unwrap();
    assert!(x.value_eq(q(2, 1)));
}

#[test]
fn two_by_two_reduces_to_diagonal() {
    // x + y - 3 = 0 and x - y - 1 = 0; solution x = 2, y = 1.
    let original = vec![row(&[(1, 1), (1, 1), (-3, 1)]), row(&[(1, 1), (-1, 1), (-1, 1)])];
    let mut sys = original.clone();
    assert!(solve_lineq(&mut sys).is_ok());
    // off-diagonal coefficients are driven to exact zero
    assert_eq!(sys[0][1].num, 0);
    assert_eq!(sys[1][0].num, 0);
    let x = sys[0][2].neg().checked_div(sys[0][0]).unwrap();
    let y = sys[1][2].neg().checked_div(sys[1][1]).unwrap();
    assert!(x.value_eq(q(2, 1)));
    assert!(y.value_eq(q(1, 1)));
    // substituting back into the original equations leaves zero residuals
    let xs = vec![x, y];
    for r in &original {
        let res = residual_value(r, &xs).unwrap();
        assert!(res.value_eq(Rat::zero()));
    }
}

#[test]
fn zero_pivot_fails_and_leaves_system_unchanged() {
    // row 0 cannot act as the pivot row for variable 0
    let original = vec![row(&[(0, 1), (1, 1), (5, 1)]), row(&[(1, 1), (0, 1), (3, 1)])];
    let mut sys = original.clone();
    let r = solve_lineq(&mut sys);
    assert_eq!(r, Err(SolveError::SingularPivot));
    assert_eq!(sys, original);
}

#[test]
fn residual_reports_nonzero_rows() {
    // x + 1 = 0 evaluated at x = 1 leaves residual 2
    let r = row(&[(1, 1), (1, 1)]);
    let xs = vec![q(1, 1)];
    let res = residual_value(&r, &xs).unwrap();
    assert!(res.value_eq(q(2, 1)));
}

#[test]
fn near_zero_coefficients_are_skipped_not_eliminated() {
    // the target coefficient 1/2^24 is within tolerance: the row is left alone
    let original = vec![row(&[(1, 1), (0, 1), (2, 1)]), row(&[(1, 16777216), (1, 1), (1, 1)])];
    let mut sys = original.clone();
    assert!(solve_lineq(&mut sys).is_ok());
    assert_eq!(sys[1][0], q(1, 16777216));
}
