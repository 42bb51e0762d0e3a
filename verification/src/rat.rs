//! Exact rational numbers with bounded components.
//!
//! A `Rat` holds a numerator and a positive denominator, both `i64`; its
//! mathematical value is modelled by the ghost type `RatV` over unbounded
//! integers.  Arithmetic is exact; operations whose result would not fit the
//! symmetric machine range return `None`.  The zero tolerance used by the
//! solver is 2^-23 (the machine epsilon of 32-bit floating point, kept here
//! as an exact rational bound).

use vstd::prelude::*;

verus! {

/// Mathematical value of a rational: numerator `n` over denominator `d`.
pub ghost struct RatV {
    pub n: int,
    pub d: int,
}

/// The denominator is positive, so the value is well defined.
pub open spec fn q_pos(q: RatV) -> bool {
    q.d > 0
}

/// Both components fit the symmetric `i64` range.
pub open spec fn q_bounded(q: RatV) -> bool {
    &&& -(i64::MAX as int) <= q.n <= i64::MAX as int
    &&& q.d <= i64::MAX as int
}

/// Representable with a positive denominator.
pub open spec fn q_wf(q: RatV) -> bool {
    q_pos(q) && q_bounded(q)
}

pub open spec fn q_zero() -> RatV {
    RatV { n: 0, d: 1 }
}

pub open spec fn q_one() -> RatV {
    RatV { n: 1, d: 1 }
}

pub open spec fn q_add(a: RatV, b: RatV) -> RatV {
    RatV { n: a.n * b.d + b.n * a.d, d: a.d * b.d }
}

pub open spec fn q_mul(a: RatV, b: RatV) -> RatV {
    RatV { n: a.n * b.n, d: a.d * b.d }
}

pub open spec fn q_neg(a: RatV) -> RatV {
    RatV { n: -a.n, d: a.d }
}

/// Quotient in positive-denominator form; meaningful only when `b.n != 0`.
pub open spec fn q_div(a: RatV, b: RatV) -> RatV {
    if b.n >= 0 {
        RatV { n: a.n * b.d, d: a.d * b.n }
    } else {
        RatV { n: -(a.n * b.d), d: -(a.d * b.n) }
    }
}

/// The value decreased by one, keeping the denominator.
pub open spec fn q_dec(a: RatV) -> RatV {
    RatV { n: a.n - a.d, d: a.d }
}

pub open spec fn q_abs(x: int) -> int {
    if x >= 0 {
        x
    } else {
        -x
    }
}

/// Two representations denote the same rational value.
pub open spec fn q_eqv(a: RatV, b: RatV) -> bool {
    a.n * b.d == b.n * a.d
}

/// The magnitude is at most 2^-23, the zero tolerance of the solver.
pub open spec fn q_near_zero(a: RatV) -> bool {
    q_abs(a.n) * 8388608 <= a.d
}

/// Range of the normalized result of `Rat::new`.
pub open spec fn rat_new_spec(n: int, d: int) -> Option<RatV> {
    if d == 0 {
        None
    } else if d > 0 {
        if -(i64::MAX as int) <= n {
            Some(RatV { n: n, d: d })
        } else {
            None
        }
    } else {
        if -(i64::MAX as int) <= n && -(i64::MAX as int) <= d {
            Some(RatV { n: -n, d: -d })
        } else {
            None
        }
    }
}

/// Bounds on products of values in a symmetric range.
pub proof fn lemma_mul_range(a: int, b: int, m: int)
    by (nonlinear_arith)
    requires
        0 < m,
        -m <= a <= m,
        -m <= b <= m,
    ensures
        -(m * m) <= a * b <= m * m,
        (a > 0 && b > 0) ==> a * b > 0,
        (a > 0 && b < 0) ==> a * b < 0,
{
}

/// Bound on a product of non-negative values from their individual bounds.
pub proof fn lemma_mul_le(a: int, b: int, ma: int, mb: int)
    by (nonlinear_arith)
    requires
        0 <= a <= ma,
        0 <= b <= mb,
    ensures
        a * b <= ma * mb,
{
}

/// Greatest common divisor, by Euclid's recursion.
pub open spec fn gcd_spec(a: nat, b: nat) -> nat
    decreases b,
{
    if b == 0 {
        a
    } else {
        gcd_spec(b, a % b)
    }
}

/// The gcd is positive when its second argument is, and divides both
/// arguments.
pub proof fn lemma_gcd_properties(a: nat, b: nat)
    ensures
        b > 0 ==> gcd_spec(a, b) > 0,
        a > 0 ==> gcd_spec(a, b) > 0,
        gcd_spec(a, b) > 0 ==> (a as int) % (gcd_spec(a, b) as int) == 0,
        gcd_spec(a, b) > 0 ==> (b as int) % (gcd_spec(a, b) as int) == 0,
    decreases b,
{
    if b == 0 {
        if a > 0 {
            vstd::arithmetic::div_mod::lemma_mod_self_0(a as int);
            vstd::arithmetic::div_mod::lemma_small_mod(0, a);
        }
    } else {
        lemma_gcd_properties(b, a % b);
        let g = gcd_spec(b, a % b) as int;
        assert(gcd_spec(a, b) == gcd_spec(b, a % b));
        assert(g > 0);
        vstd::arithmetic::div_mod::lemma_fundamental_div_mod(a as int, b as int);
        let q = a as int / b as int;
        vstd::arithmetic::div_mod::lemma_fundamental_div_mod(b as int, g);
        vstd::arithmetic::div_mod::lemma_fundamental_div_mod((a % b) as int, g);
        let kb = b as int / g;
        let kr = (a % b) as int / g;
        assert(a as int == g * (kb * q + kr)) by (nonlinear_arith)
            requires
                a as int == b as int * q + (a % b) as int,
                b as int == g * kb,
                (a % b) as int == g * kr,
        ;
        vstd::arithmetic::div_mod::lemma_mod_multiples_basic(kb * q + kr, g);
        assert((g * (kb * q + kr)) % g == 0) by {
            assert((kb * q + kr) * g == g * (kb * q + kr)) by (nonlinear_arith);
        }
    }
}

/// The canonical reduced form: both components divided by their gcd.
pub open spec fn q_norm(q: RatV) -> RatV {
    if q.d > 0 {
        let g = gcd_spec(q_abs(q.n) as nat, q.d as nat) as int;
        if g > 0 {
            RatV { n: q.n / g, d: q.d / g }
        } else {
            q
        }
    } else {
        q
    }
}

/// Reduction keeps the value, the sign and the zero numerator, and never
/// grows a component.
pub proof fn lemma_norm_props(q: RatV)
    requires
        q_pos(q),
    ensures
        q_pos(q_norm(q)),
        q_eqv(q_norm(q), q),
        q_norm(q).d <= q.d,
        q_abs(q_norm(q).n) <= q_abs(q.n),
        q.n == 0 ==> q_norm(q).n == 0,
{
    let a = q_abs(q.n) as nat;
    lemma_gcd_properties(a, q.d as nat);
    let g = gcd_spec(a, q.d as nat) as int;
    vstd::arithmetic::div_mod::lemma_fundamental_div_mod(q.d, g);
    vstd::arithmetic::div_mod::lemma_fundamental_div_mod(a as int, g);
    let kd = q.d / g;
    let ka = a as int / g;
    assert(kd > 0) by (nonlinear_arith)
        requires
            q.d == g * kd,
            q.d > 0,
            g > 0,
    ;
    assert(ka >= 0) by (nonlinear_arith)
        requires
            a as int == g * ka,
            a as int >= 0,
            g > 0,
    ;
    assert(kd <= q.d) by (nonlinear_arith)
        requires
            q.d == g * kd,
            g >= 1,
            kd > 0,
    ;
    assert(ka <= a as int) by (nonlinear_arith)
        requires
            a as int == g * ka,
            g >= 1,
            ka >= 0,
    ;
    if q.n >= 0 {
        assert(q_norm(q) == RatV { n: ka, d: kd });
        assert(ka * q.d == q.n * kd) by (nonlinear_arith)
            requires
                q.n == g * ka,
                q.d == g * kd,
        ;
    } else {
        vstd::arithmetic::div_mod::lemma_div_multiples_vanish(-ka, g);
        assert(q.n == g * (-ka)) by (nonlinear_arith)
            requires
                q.n == -(a as int),
                a as int == g * ka,
        ;
        assert(q.n / g == -ka);
        assert(q_norm(q) == RatV { n: -ka, d: kd });
        assert((-ka) * q.d == q.n * kd) by (nonlinear_arith)
            requires
                q.n == g * (-ka),
                q.d == g * kd,
        ;
    }
}

/// Euclid's algorithm on machine words.
fn gcd_u128(a0: u128, b0: u128) -> (g: u128)
    ensures
        g as nat == gcd_spec(a0 as nat, b0 as nat),
{
    let mut a = a0;
    let mut b = b0;
    while b != 0
        invariant
            gcd_spec(a as nat, b as nat) == gcd_spec(a0 as nat, b0 as nat),
        decreases b,
    {
        let t = a % b;
        a = b;
        b = t;
    }
    a
}

/// Divides the gcd out of a numerator-denominator pair; the sign stays on
/// the numerator.
pub(crate) fn reduce_parts(n: i128, d: i128) -> (r: (i128, i128))
    requires
        d > 0,
        -i128::MAX <= n,
    ensures
        r.0 as int == q_norm(RatV { n: n as int, d: d as int }).n,
        r.1 as int == q_norm(RatV { n: n as int, d: d as int }).d,
        r.1 > 0,
        -i128::MAX <= r.0,
{
    let ghost q = RatV { n: n as int, d: d as int };
    proof {
        lemma_norm_props(q);
    }
    let neg = n < 0;
    let a: u128 = if neg {
        (-n) as u128
    } else {
        n as u128
    };
    let b: u128 = d as u128;
    let g = gcd_u128(a, b);
    proof {
        assert(a as nat == q_abs(q.n) as nat);
        lemma_gcd_properties(a as nat, b as nat);
        vstd::arithmetic::div_mod::lemma_div_nonincreasing(a as int, g as int);
        vstd::arithmetic::div_mod::lemma_div_pos_is_pos(a as int, g as int);
        vstd::arithmetic::div_mod::lemma_div_nonincreasing(b as int, g as int);
    }
    let nm = a / g;
    let dm = b / g;
    proof {
        let gg = g as int;
        vstd::arithmetic::div_mod::lemma_fundamental_div_mod(a as int, gg);
        let ka = a as int / gg;
        if neg {
            vstd::arithmetic::div_mod::lemma_div_multiples_vanish(-ka, gg);
            assert(q.n == gg * (-ka)) by (nonlinear_arith)
                requires
                    q.n == -(a as int),
                    a as int == gg * ka,
            ;
            assert(q.n / gg == -ka);
        }
    }
    let n2: i128 = if neg {
        -(nm as i128)
    } else {
        nm as i128
    };
    (n2, dm as i128)
}

/// An exact rational number: `num / den` with `den > 0`.
#[derive(Clone, Copy, Debug, PartialEq, Eq, Structural)]
pub struct Rat {
    pub num: i64,
    pub den: i64,
}

impl View for Rat {
    type V = RatV;

    open spec fn view(&self) -> RatV {
        RatV { n: self.num as int, d: self.den as int }
    }
}

impl DeepView for Rat {
    type V = RatV;

    open spec fn deep_view(&self) -> RatV {
        self.view()
    }
}

impl Rat {
    /// Builds a rational from a numerator and a non-zero denominator,
    /// normalizing the sign onto the numerator.
    pub fn new(num: i64, den: i64) -> (r: Option<Rat>)
        ensures
            (match r {
                Some(x) => rat_new_spec(num as int, den as int) == Some(x@) && q_wf(x@),
                None => rat_new_spec(num as int, den as int) is None,
            }),
    {
        if den == 0 {
            None
        } else if den > 0 {
            if num == i64::MIN {
                None
            } else {
                Some(Rat { num, den })
            }
        } else {
            if num == i64::MIN || den == i64::MIN {
                None
            } else {
                Some(Rat { num: -num, den: -den })
            }
        }
    }

    /// The rational with value zero.
    pub fn zero() -> (r: Rat)
        ensures
            r@ == q_zero(),
            q_wf(r@),
    {
        Rat { num: 0, den: 1 }
    }

    /// The rational with value one.
    pub fn one() -> (r: Rat)
        ensures
            r@ == q_one(),
            q_wf(r@),
    {
        Rat { num: 1, den: 1 }
    }

    /// Exact reduced sum; `None` when the result leaves the machine range.
    pub fn checked_add(self, other: Rat) -> (r: Option<Rat>)
        requires
            q_wf(self@),
            q_wf(other@),
        ensures
            (match r {
                Some(x) => x@ == q_norm(q_add(self@, other@)) && q_wf(x@),
                None => !q_bounded(q_norm(q_add(self@, other@))),
            }),
    {
        proof {
            lemma_mul_range(self@.n, other@.d, i64::MAX as int);
            lemma_mul_range(other@.n, self@.d, i64::MAX as int);
            lemma_mul_range(self@.d, other@.d, i64::MAX as int);
        }
        let n: i128 = (self.num as i128) * (other.den as i128) + (other.num as i128) * (self.den
            as i128);
        let d: i128 = (self.den as i128) * (other.den as i128);
        let (n2, d2) = reduce_parts(n, d);
        let max: i128 = i64::MAX as i128;
        if n2 < -max || n2 > max || d2 > max {
            None
        } else {
            Some(Rat { num: n2 as i64, den: d2 as i64 })
        }
    }

    /// Exact reduced product; `None` when the result leaves the machine
    /// range.
    pub fn checked_mul(self, other: Rat) -> (r: Option<Rat>)
        requires
            q_wf(self@),
            q_wf(other@),
        ensures
            (match r {
                Some(x) => x@ == q_norm(q_mul(self@, other@)) && q_wf(x@),
                None => !q_bounded(q_norm(q_mul(self@, other@))),
            }),
    {
        proof {
            lemma_mul_range(self@.n, other@.n, i64::MAX as int);
            lemma_mul_range(self@.d, other@.d, i64::MAX as int);
        }
        let n: i128 = (self.num as i128) * (other.num as i128);
        let d: i128 = (self.den as i128) * (other.den as i128);
        let (n2, d2) = reduce_parts(n, d);
        let max: i128 = i64::MAX as i128;
        if n2 < -max || n2 > max || d2 > max {
            None
        } else {
            Some(Rat { num: n2 as i64, den: d2 as i64 })
        }
    }

    /// Exact quotient; `None` when the divisor is zero or the result leaves
    /// the machine range.
    pub fn checked_div(self, other: Rat) -> (r: Option<Rat>)
        requires
            q_wf(self@),
            q_wf(other@),
        ensures
            (match r {
                Some(x) => other@.n != 0 && x@ == q_norm(q_div(self@, other@)) && q_wf(x@),
                None => other@.n == 0 || !q_bounded(q_norm(q_div(self@, other@))),
            }),
    {
        if other.num == 0 {
            return None;
        }
        proof {
            lemma_mul_range(self@.n, other@.d, i64::MAX as int);
            lemma_mul_range(self@.d, other@.n, i64::MAX as int);
        }
        let n0: i128 = (self.num as i128) * (other.den as i128);
        let d0: i128 = (self.den as i128) * (other.num as i128);
        let (n, d): (i128, i128) = if other.num > 0 {
            (n0, d0)
        } else {
            (-n0, -d0)
        };
        let (n2, d2) = reduce_parts(n, d);
        let max: i128 = i64::MAX as i128;
        if n2 < -max || n2 > max || d2 > max {
            None
        } else {
            Some(Rat { num: n2 as i64, den: d2 as i64 })
        }
    }

    /// Exact negation.
    pub fn neg(self) -> (r: Rat)
        requires
            q_wf(self@),
        ensures
            r@ == q_neg(self@),
            q_wf(r@),
    {
        Rat { num: -self.num, den: self.den }
    }

    /// The reduced value decreased by one; `None` when it leaves the
    /// machine range.
    pub fn minus_one(self) -> (r: Option<Rat>)
        requires
            q_wf(self@),
        ensures
            (match r {
                Some(x) => x@ == q_norm(q_dec(self@)) && q_wf(x@),
                None => !q_bounded(q_norm(q_dec(self@))),
            }),
    {
        let n: i128 = (self.num as i128) - (self.den as i128);
        let (n2, d2) = reduce_parts(n, self.den as i128);
        let max: i128 = i64::MAX as i128;
        if n2 < -max || n2 > max || d2 > max {
            None
        } else {
            Some(Rat { num: n2 as i64, den: d2 as i64 })
        }
    }

    /// Whether the magnitude is within the zero tolerance of 2^-23.
    pub fn is_near_zero(self) -> (r: bool)
        requires
            q_wf(self@),
        ensures
            r == q_near_zero(self@),
    {
        let a: i128 = if self.num >= 0 {
            self.num as i128
        } else {
            -(self.num as i128)
        };
        proof {
            lemma_mul_range(q_abs(self@.n), 8388608, i64::MAX as int);
        }
        a * 8388608 <= self.den as i128
    }

    /// Whether two representations denote the same rational value.
    pub fn value_eq(self, other: Rat) -> (r: bool)
        requires
            q_wf(self@),
            q_wf(other@),
        ensures
            r == q_eqv(self@, other@),
    {
        proof {
            lemma_mul_range(self@.n, other@.d, i64::MAX as int);
            lemma_mul_range(other@.n, self@.d, i64::MAX as int);
        }
        (self.num as i128) * (other.den as i128) == (other.num as i128) * (self.den as i128)
    }
}

} // verus!
