use eigenflow::rat::Rat;

fn q(n: i64, d: i64) -> Rat {
    Rat::new(n, d).unwrap()
}

#[test]
fn new_normalizes_sign_onto_numerator() {
    let r = q(3, -6);
    assert_eq!(r.num, -3);
    assert_eq!(r.den, 6);
    let r = q(-3, -6);
    assert_eq!(r.num, 3);
    assert_eq!(r.den, 6);
}

#[test]
fn new_rejects_zero_denominator() {
    assert!(Rat::new(1, 0).is_none());
    assert!(Rat::new(0, 0).is_none());
}

#[test]
fn add_is_exact_and_reduced() {
    let r = q(1, 2).checked_add(q(1, 3)).unwrap();
    assert_eq!((r.num, r.den), (5, 6));
    let r = q(1, 2).checked_add(q(1, 2)).unwrap();
    assert_eq!((r.num, r.den), (1, 1));
    assert!(r.value_eq(Rat::one()));
}

#[test]
fn mul_and_div_are_exact() {
    let r = q(2, 3).checked_mul(q(3, 5)).unwrap();
    assert_eq!((r.num, r.den), (2, 5));
    let r = q(1, 2).checked_div(q(1, 3)).unwrap();
    assert_eq!((r.num, r.den), (3, 2));
    let r = q(1, 2).checked_div(q(-1, 3)).unwrap();
    assert_eq!((r.num, r.den), (-3, 2));
    assert!(q(1, 2).checked_div(Rat::zero()).is_none());
}

#[test]
fn minus_one_keeps_denominator() {
    let r = q(3, 2).minus_one().unwrap();
    assert_eq!((r.num, r.den), (1, 2));
    let r = Rat::zero().minus_one().unwrap();
    assert_eq!((r.num, r.den), (-1, 1));
}

#[test]
fn near_zero_threshold_is_two_to_minus_23() {
    assert!(Rat::zero().is_near_zero());
    assert!(q(1, 8388608).is_near_zero());
    assert!(q(-1, 8388608).is_near_zero());
    assert!(!q(1, 8388607).is_near_zero());
    assert!(!Rat::one().is_near_zero());
}

#[test]
fn value_eq_crosses_representations() {
    assert!(q(1, 2).value_eq(q(2, 4)));
    assert!(!q(1, 2).value_eq(q(2, 3)));
    assert!(q(0, 5).value_eq(Rat::zero()));
}

#[test]
fn add_overflow_is_reported() {
    let big = q(i64::MAX, 1);
    assert!(big.checked_add(big).is_none());
    let huge = q(1, i64::MAX);
    assert!(huge.checked_mul(huge).is_none());
}

#[test]
fn neg_flips_the_numerator() {
    let r = q(3, 4).neg();
    assert_eq!((r.num, r.den), (-3, 4));
}
