//! Integer-theoretic foundations: divisibility, primality and the greatest
//! common divisor, with the Euclidean and extended Euclidean algorithms over
//! arbitrary-precision integers.

use vstd::arithmetic::div_mod::{
    lemma_fundamental_div_mod, lemma_mod_bound,
};
use vstd::prelude::*;

use crate::zz::{zz, zz_add, zz_clone, zz_div, zz_eq, zz_from_i64, zz_lt, zz_mul, zz_neg, zz_rem, zz_sub};

verus! {

/// `d` divides `n`.
pub open spec fn divides(d: int, n: int) -> bool {
    exists|k: int| n == #[trigger] (d * k)
}

/// `p` is a prime number.
pub open spec fn is_prime(p: int) -> bool {
    p >= 2 && forall|d: int| 2 <= d < p ==> !divides(d, p)
}

/// The greatest common divisor, by the Euclidean recurrence; the value on
/// `(a, 0)` is `a`, so `gcd_nat(0, 0) == 0`.
pub open spec fn gcd_nat(a: nat, b: nat) -> nat
    decreases b,
{
    if b == 0 {
        a
    } else {
        gcd_nat(b, (a % b) as nat)
    }
}

/// The gcd divides both of its arguments.
pub proof fn lemma_gcd_divides(a: nat, b: nat)
    ensures
        divides(gcd_nat(a, b) as int, a as int),
        divides(gcd_nat(a, b) as int, b as int),
    decreases b,
{
    if b == 0 {
        assert(a as int == gcd_nat(a, b) as int * 1);
        assert(0int == gcd_nat(a, b) as int * 0);
    } else {
        let r = (a % b) as nat;
        lemma_gcd_divides(b, r);
        let g = gcd_nat(b, r) as int;
        let k1 = choose|k: int| b as int == #[trigger] (g * k);
        let k2 = choose|k: int| r as int == #[trigger] (g * k);
        lemma_fundamental_div_mod(a as int, b as int);
        let q = a as int / b as int;
        assert(a as int == g * (q * k1 + k2)) by (nonlinear_arith)
            requires
                a as int == q * (b as int) + r as int,
                b as int == g * k1,
                r as int == g * k2,
        ;
    }
}

/// The gcd of two numbers that are not both zero is positive.
pub proof fn lemma_gcd_pos(a: nat, b: nat)
    requires
        a > 0 || b > 0,
    ensures
        gcd_nat(a, b) >= 1,
    decreases b,
{
    if b > 0 {
        lemma_gcd_pos(b, (a % b) as nat);
    }
}

/// A positive divisor of a positive number is no larger than it.
pub proof fn lemma_divides_le(d: int, n: int)
    requires
        divides(d, n),
        d > 0,
        n > 0,
    ensures
        d <= n,
{
    let k = choose|k: int| n == #[trigger] (d * k);
    assert(d <= n) by (nonlinear_arith)
        requires
            n == d * k,
            d > 0,
            n > 0,
    ;
}

/// Every residue `1 <= a < p` of a prime `p` is coprime to it.
pub proof fn lemma_prime_coprime(a: nat, p: nat)
    requires
        is_prime(p as int),
        0 < a < p,
    ensures
        gcd_nat(a, p) == 1,
{
    let g = gcd_nat(a, p);
    lemma_gcd_divides(a, p);
    lemma_gcd_pos(a, p);
    lemma_divides_le(g as int, a as int);
    if g >= 2 {
        assert(2 <= g as int && (g as int) < p as int && divides(g as int, p as int));
        assert(false);
    }
}

/// The greatest common divisor of two non-negative arbitrary-precision
/// integers, by the Euclidean algorithm.
pub fn gcd(a: &num::BigInt, b: &num::BigInt) -> (r: num::BigInt)
    requires
        zz(*a) >= 0,
        zz(*b) >= 0,
    ensures
        zz(r) == gcd_nat(zz(*a) as nat, zz(*b) as nat),
{
    let zero = zz_from_i64(0);
    let mut s = zz_clone(a);
    let mut t = zz_clone(b);
    while !zz_eq(&t, &zero)
        invariant
            zz(zero) == 0,
            zz(s) >= 0,
            zz(t) >= 0,
            gcd_nat(zz(s) as nat, zz(t) as nat) == gcd_nat(zz(*a) as nat, zz(*b) as nat),
        decreases zz(t),
    {
        proof {
            lemma_mod_bound(zz(s), zz(t));
        }
        let tmp = zz_rem(&s, &t);
        s = t;
        t = tmp;
    }
    s
}

/// The extended Euclidean algorithm: returns the gcd of two non-negative
/// integers and leaves Bezout coefficients for it in `x` and `y`.
pub fn xgcd(lhs: &num::BigInt, rhs: &num::BigInt, x: &mut num::BigInt, y: &mut num::BigInt) -> (g:
    num::BigInt)
    requires
        zz(*lhs) >= 0,
        zz(*rhs) >= 0,
    ensures
        zz(g) == gcd_nat(zz(*lhs) as nat, zz(*rhs) as nat),
        zz(*lhs) * zz(*final(x)) + zz(*rhs) * zz(*final(y)) == zz(g),
    decreases zz(*rhs),
{
    let zero = zz_from_i64(0);
    if !zz_eq(rhs, &zero) {
        proof {
            lemma_mod_bound(zz(*lhs), zz(*rhs));
        }
        let r = zz_rem(lhs, rhs);
        let d = xgcd(rhs, &r, y, x);
        let ghost y_mid = zz(*y);
        let q = zz_div(lhs, rhs);
        let shift = zz_mul(&q, x);
        *y = zz_sub(y, &shift);
        proof {
            lemma_fundamental_div_mod(zz(*lhs), zz(*rhs));
            assert(zz(*lhs) * zz(*x) + zz(*rhs) * zz(*y) == zz(d)) by (nonlinear_arith)
                requires
                    zz(*rhs) * y_mid + zz(r) * zz(*x) == zz(d),
                    zz(*lhs) == zz(*rhs) * (zz(*lhs) / zz(*rhs)) + zz(r),
                    zz(r) == zz(*lhs) % zz(*rhs),
                    zz(*y) == y_mid - (zz(*lhs) / zz(*rhs)) * zz(*x),
            ;
        }
        d
    } else {
        *x = zz_from_i64(1);
        *y = zz_from_i64(0);
        zz_clone(lhs)
    }
}

/// Bezout coefficients exist: some integer combination of two numbers
/// yields their gcd.
pub proof fn lemma_bezout(a: nat, b: nat)
    ensures
        exists|x: int, y: int| #[trigger] (a * x + b * y) == gcd_nat(a, b),
    decreases b,
{
    if b == 0 {
        assert(a * 1int + b * 0int == gcd_nat(a, 0));
    } else {
        let r = (a % b) as nat;
        lemma_bezout(b, r);
        let (x1, y1) = choose|x: int, y: int| #[trigger] (b * x + r * y) == gcd_nat(b, r);
        lemma_fundamental_div_mod(a as int, b as int);
        let q = a as int / b as int;
        assert(a * y1 + b * (x1 - q * y1) == gcd_nat(a, b)) by (nonlinear_arith)
            requires
                b * x1 + r * y1 == gcd_nat(b, r),
                a as int == q * (b as int) + r as int,
                gcd_nat(a, b) == gcd_nat(b, r),
        ;
        assert(a * y1 + b * (x1 - q * y1) == gcd_nat(a, b));
    }
}

/// The division round trip: under a prime modulus `m`, every residue
/// `1 <= b < m` has an inverse `x`, so dividing one by `b` and
/// multiplying back by `b` returns one.
pub proof fn lemma_inverse_round_trip(b: nat, m: nat)
    requires
        is_prime(m as int),
        1 <= b < m,
    ensures
        exists|x: int| 0 <= x < m && #[trigger] ((x * b) % (m as int)) == 1int % (m as int),
{
    lemma_prime_coprime(b, m);
    lemma_bezout(b, m);
    let (x, y) = choose|x: int, y: int| #[trigger] (b * x + m * y) == gcd_nat(b, m);
    // b * x == 1 - m * y, so x is an inverse; reduce it into range.
    let xr = x % (m as int);
    lemma_mod_bound(x, m as int);
    vstd::arithmetic::div_mod::lemma_mul_mod_noop_left(x, b as int, m as int);
    assert(x * b == m as int * (-y) + 1) by (nonlinear_arith)
        requires
            b * x + m * y == 1,
    ;
    vstd::arithmetic::div_mod::lemma_mod_multiples_vanish(-y, 1, m as int);
    assert((xr * b) % (m as int) == 1int % (m as int));
}

/// A common divisor of two numbers divides their gcd.
pub proof fn lemma_gcd_greatest(a: nat, b: nat, c: int)
    requires
        c > 0,
        divides(c, a as int),
        divides(c, b as int),
    ensures
        divides(c, gcd_nat(a, b) as int),
    decreases b,
{
    if b == 0 {
    } else {
        let r = (a % b) as nat;
        lemma_fundamental_div_mod(a as int, b as int);
        let q = a as int / b as int;
        let ka = choose|k: int| a as int == #[trigger] (c * k);
        let kb = choose|k: int| b as int == #[trigger] (c * k);
        assert(r as int == c * (ka - q * kb)) by (nonlinear_arith)
            requires
                a as int == c * ka,
                b as int == c * kb,
                a as int == q * (b as int) + r as int,
        ;
        lemma_gcd_greatest(b, r, c);
    }
}

/// A fraction of arbitrary-precision integers with a positive
/// denominator.
#[derive(Debug)]
pub struct Rational {
    numerator: num::BigInt,
    denominator: num::BigInt,
}

impl Rational {
    /// The numerator.
    pub closed spec fn num_spec(&self) -> int {
        zz(self.numerator)
    }

    /// The denominator.
    pub closed spec fn den_spec(&self) -> int {
        zz(self.denominator)
    }

    /// A well-formed fraction has a positive denominator.
    pub open spec fn wf(&self) -> bool {
        self.den_spec() >= 1
    }

    /// The fraction stands for the same value as `n / d`.
    pub open spec fn same_value(&self, n: int, d: int) -> bool {
        self.num_spec() * d == n * self.den_spec()
    }

    /// The fraction is in lowest terms.
    pub open spec fn reduced(&self) -> bool {
        gcd_nat(vstd::math::abs(self.num_spec()), self.den_spec() as nat) == 1
    }

    /// Builds the reduced fraction with the value `n / d`.
    pub fn new(n: num::BigInt, d: num::BigInt) -> (r: Rational)
        requires
            zz(d) != 0,
        ensures
            r.wf(),
            r.same_value(zz(n), zz(d)),
            r.reduced(),
    {
        let zero = zz_from_i64(0);
        if zz_lt(&d, &zero) {
            let ghost nv = zz(n);
            let ghost dv = zz(d);
            let r = Self::from_positive_den(zz_neg(&n), zz_neg(&d));
            proof {
                assert(r.num_spec() * dv == nv * r.den_spec()) by (nonlinear_arith)
                    requires
                        r.num_spec() * (-dv) == (-nv) * r.den_spec(),
                ;
            }
            r
        } else {
            Self::from_positive_den(n, d)
        }
    }

    /// Builds the reduced fraction from a numerator and a positive
    /// denominator.
    fn from_positive_den(n: num::BigInt, d: num::BigInt) -> (r: Rational)
        requires
            zz(d) >= 1,
        ensures
            r.wf(),
            r.same_value(zz(n), zz(d)),
            r.reduced(),
    {
        let ghost nv = zz(n);
        let ghost dv = zz(d);
        let zero = zz_from_i64(0);
        let negative = zz_lt(&n, &zero);
        let nabs = if negative {
            zz_neg(&n)
        } else {
            zz_clone(&n)
        };
        let g = gcd(&nabs, &d);
        proof {
            lemma_gcd_pos(zz(nabs) as nat, dv as nat);
            lemma_gcd_divides(zz(nabs) as nat, dv as nat);
            lemma_exact_division(zz(nabs), zz(g));
            lemma_exact_division(dv, zz(g));
        }
        let q = zz_div(&nabs, &g);
        let den = zz_div(&d, &g);
        let num = if negative {
            zz_neg(&q)
        } else {
            q
        };
        let r = Rational { numerator: num, denominator: den };
        proof {
            let gv = zz(g);
            let kn = zz(nabs) / gv;
            let kd = dv / gv;
            assert(r.num_spec() * dv == nv * r.den_spec()) by (nonlinear_arith)
                requires
                    zz(nabs) == gv * kn,
                    dv == gv * kd,
                    r.den_spec() == kd,
                    nv == if negative { -zz(nabs) } else { zz(nabs) },
                    r.num_spec() == if negative { -kn } else { kn },
            ;
            assert(kd >= 1) by (nonlinear_arith)
                requires
                    dv == gv * kd,
                    dv >= 1,
                    gv >= 1,
            ;
            assert(r.reduced()) by {
                assert(vstd::math::abs(r.num_spec()) == kn as nat);
                let c = gcd_nat(kn as nat, kd as nat);
                lemma_gcd_pos(kn as nat, kd as nat);
                if c >= 2 {
                    lemma_gcd_divides(kn as nat, kd as nat);
                    let cn = choose|k: int| kn == #[trigger] (c as int * k);
                    let cd = choose|k: int| kd == #[trigger] (c as int * k);
                    assert(zz(nabs) == (gv * c as int) * cn && dv == (gv * c as int) * cd
                        && gv * c as int > gv) by (nonlinear_arith)
                        requires
                            zz(nabs) == gv * kn,
                            dv == gv * kd,
                            kn == c as int * cn,
                            kd == c as int * cd,
                            gv >= 1,
                            c >= 2,
                    ;
                    assert(divides(gv * c as int, zz(nabs)));
                    assert(divides(gv * c as int, dv));
                    lemma_gcd_greatest(zz(nabs) as nat, dv as nat, gv * c as int);
                    lemma_divides_le(gv * c as int, gv);
                    assert(false);
                }
            }
        }
        r
    }

    /// The numerator, as an arbitrary-precision integer.
    pub fn numerator(&self) -> (r: num::BigInt)
        ensures
            zz(r) == self.num_spec(),
    {
        zz_clone(&self.numerator)
    }

    /// The denominator, as an arbitrary-precision integer.
    pub fn denominator(&self) -> (r: num::BigInt)
        ensures
            zz(r) == self.den_spec(),
    {
        zz_clone(&self.denominator)
    }

    /// The reduced sum of two fractions.
    pub fn add(&self, other: &Rational) -> (r: Rational)
        requires
            self.wf(),
            other.wf(),
        ensures
            r.wf(),
            r.reduced(),
            r.same_value(
                self.num_spec() * other.den_spec() + other.num_spec() * self.den_spec(),
                self.den_spec() * other.den_spec(),
            ),
    {
        let cross_l = zz_mul(&self.numerator, &other.denominator);
        let cross_r = zz_mul(&other.numerator, &self.denominator);
        let n = zz_add(&cross_l, &cross_r);
        let d = zz_mul(&self.denominator, &other.denominator);
        proof {
            lemma_positive_product(self.den_spec(), other.den_spec());
        }
        Self::from_positive_den(n, d)
    }

    /// The reduced difference of two fractions.
    pub fn sub(&self, other: &Rational) -> (r: Rational)
        requires
            self.wf(),
            other.wf(),
        ensures
            r.wf(),
            r.reduced(),
            r.same_value(
                self.num_spec() * other.den_spec() - other.num_spec() * self.den_spec(),
                self.den_spec() * other.den_spec(),
            ),
    {
        let cross_l = zz_mul(&self.numerator, &other.denominator);
        let cross_r = zz_mul(&other.numerator, &self.denominator);
        let n = zz_sub(&cross_l, &cross_r);
        let d = zz_mul(&self.denominator, &other.denominator);
        proof {
            lemma_positive_product(self.den_spec(), other.den_spec());
        }
        Self::from_positive_den(n, d)
    }

    /// The reduced product of two fractions.
    pub fn mul(&self, other: &Rational) -> (r: Rational)
        requires
            self.wf(),
            other.wf(),
        ensures
            r.wf(),
            r.reduced(),
            r.same_value(
                self.num_spec() * other.num_spec(),
                self.den_spec() * other.den_spec(),
            ),
    {
        let n = zz_mul(&self.numerator, &other.numerator);
        let d = zz_mul(&self.denominator, &other.denominator);
        proof {
            lemma_positive_product(self.den_spec(), other.den_spec());
        }
        Self::from_positive_den(n, d)
    }

    /// The reduced quotient of two fractions; the divisor must not be
    /// zero.
    pub fn div(&self, other: &Rational) -> (r: Rational)
        requires
            self.wf(),
            other.wf(),
            other.num_spec() != 0,
        ensures
            r.wf(),
            r.reduced(),
            r.same_value(
                self.num_spec() * other.den_spec(),
                self.den_spec() * other.num_spec(),
            ),
    {
        let n = zz_mul(&self.numerator, &other.denominator);
        let d = zz_mul(&self.denominator, &other.numerator);
        proof {
            assert(zz(d) != 0) by (nonlinear_arith)
                requires
                    zz(d) == self.den_spec() * other.num_spec(),
                    self.den_spec() >= 1,
                    other.num_spec() != 0,
            ;
        }
        Self::new(n, d)
    }
}

/// A product of positive numbers is positive.
proof fn lemma_positive_product(a: int, b: int)
    requires
        a >= 1,
        b >= 1,
    ensures
        a * b >= 1,
{
    assert(a * b >= 1) by (nonlinear_arith)
        requires
            a >= 1,
            b >= 1,
    ;
}

/// Dividing a multiple of `g` by `g` is exact.
proof fn lemma_exact_division(n: int, g: int)
    requires
        g >= 1,
        n >= 0,
        divides(g, n),
    ensures
        n == g * (n / g),
{
    let k = choose|k: int| n == #[trigger] (g * k);
    lemma_fundamental_div_mod(n, g);
    vstd::arithmetic::div_mod::lemma_mod_multiples_basic(k, g);
    assert(k * g == g * k) by (nonlinear_arith);
}

} // verus!
