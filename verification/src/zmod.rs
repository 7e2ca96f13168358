//! The quotient ring `Z/nZ` over arbitrary-precision integers: a ring
//! object carrying the order, and its elements as canonical residues, with
//! division through the extended Euclidean algorithm.

use vstd::arithmetic::div_mod::{
    lemma_fundamental_div_mod, lemma_fundamental_div_mod_converse_mod, lemma_mod_bound,
    lemma_mod_multiples_basic, lemma_mod_multiples_vanish, lemma_mul_mod_noop_left,
    lemma_small_mod,
};
use vstd::arithmetic::power::{lemma_pow0, pow};
use vstd::prelude::*;

use crate::integer::{gcd, gcd_nat, is_prime, lemma_prime_coprime, xgcd};
use crate::zz::{zz, zz_add, zz_clone, zz_eq, zz_from_i64, zz_from_u64, zz_lt, zz_mul, zz_neg,
    zz_rem, zz_sub, zz_to_u64};
use crate::AlgebraError;

verus! {

/// An ideal of the ring `T`, named by a generating element.
pub struct Ideal<T> {
    pub element: T,
}

/// The residues in `[1, n)` coprime to `n`, ascending, among `1 ..= upto`.
pub open spec fn coprime_list(n: nat, upto: nat) -> Seq<int>
    decreases upto,
{
    if upto == 0 {
        Seq::empty()
    } else {
        let rest = coprime_list(n, (upto - 1) as nat);
        if gcd_nat(upto, n) == 1 {
            rest.push(upto as int)
        } else {
            rest
        }
    }
}

/// The ring of integers modulo a non-negative order; order zero stands for
/// the integers themselves.
#[derive(Debug)]
pub struct IntegerModRing {
    order: num::BigInt,
}

impl IntegerModRing {
    /// The order of the ring.
    pub closed spec fn order_spec(&self) -> int {
        zz(self.order)
    }

    /// Builds the ring of the given order; a negative modulus names the
    /// same ring as its absolute value.
    pub fn new(modulus: num::BigInt) -> (r: Self)
        ensures
            r.order_spec() == vstd::math::abs(zz(modulus)),
    {
        let zero = zz_from_i64(0);
        if zz_eq(&modulus, &zero) {
            Self { order: modulus }
        } else if zz_lt(&modulus, &zero) {
            Self { order: zz_neg(&modulus) }
        } else {
            Self { order: modulus }
        }
    }

    /// The element of this ring that the given integer reduces to.
    pub fn elem(&self, value: num::BigInt) -> (r: IntegerMod)
        requires
            self.order_spec() >= 1,
        ensures
            r.wf(),
            r.modulus_spec() == self.order_spec(),
            r.value_spec() == zz(value) % self.order_spec(),
    {
        IntegerMod::new(value, zz_clone(&self.order))
    }

    /// The order of the ring.
    pub fn order(&self) -> (r: num::BigInt)
        ensures
            zz(r) == self.order_spec(),
    {
        zz_clone(&self.order)
    }

    /// The characteristic of the ring, which equals its order.
    pub fn characteristic(&self) -> (r: num::BigInt)
        ensures
            zz(r) == self.order_spec(),
    {
        zz_clone(&self.order)
    }

    /// The Krull dimension of a finite quotient of the integers: zero.
    pub fn krull_dimension(&self) -> (r: num::BigInt)
        ensures
            zz(r) == 0,
    {
        zz_from_i64(0)
    }

    /// Every quotient of the integers is Noetherian.
    pub fn is_noetherian(&self) -> (r: bool)
        ensures
            r,
    {
        true
    }

    /// Whether the ring is a prime field: deliberately unsupported.
    pub fn is_prime_field(&self) -> (r: Result<bool, AlgebraError>)
        ensures
            r == Err::<bool, AlgebraError>(AlgebraError::Unimplemented),
    {
        Err(AlgebraError::Unimplemented)
    }

    /// The quotient of this ring by an ideal: deliberately unsupported.
    pub fn quotient(&self, ideal: Ideal<Self>) -> (r: Result<Self, AlgebraError>)
        ensures
            r is Err && r->Err_0 == AlgebraError::Unimplemented,
    {
        Err(AlgebraError::Unimplemented)
    }

    /// The elements of the multiplicative group of the ring: the residues
    /// in `[1, n)` coprime to the order `n`, in ascending order.
    pub fn list_of_elements_of_multiplicative_group(&self) -> (r: Vec<num::BigInt>)
        requires
            1 <= self.order_spec() <= u64::MAX,
        ensures
            r@.map_values(|b: num::BigInt| zz(b)) == coprime_list(
                self.order_spec() as nat,
                (self.order_spec() - 1) as nat,
            ),
    {
        let ghost n = self.order_spec() as nat;
        let bound: u64 = match zz_to_u64(&self.order) {
            Some(b) => b,
            None => {
                proof {
                    assert(false);
                }
                0
            },
        };
        let one = zz_from_i64(1);
        let mut group: Vec<num::BigInt> = Vec::new();
        assert(group@.map_values(|b: num::BigInt| zz(b)) =~= coprime_list(n, 0));
        let mut i: u64 = 1;
        while i < bound
            invariant
                1 <= i <= bound,
                bound as int == self.order_spec(),
                n == self.order_spec() as nat,
                zz(one) == 1,
                group@.map_values(|b: num::BigInt| zz(b)) == coprime_list(n, (i - 1) as nat),
            decreases bound - i,
        {
            let num = zz_from_u64(i);
            let ghost before = group@;
            if zz_eq(&gcd(&num, &self.order), &one) {
                group.push(num);
                assert(group@.map_values(|b: num::BigInt| zz(b)) =~= before.map_values(
                    |b: num::BigInt| zz(b),
                ).push(i as int));
            }
            i = i + 1;
        }
        group
    }

    /// A generator of the multiplicative group: deliberately unsupported.
    pub fn multiplicative_generator(&self) -> (r: Result<num::BigInt, AlgebraError>)
        ensures
            r is Err && r->Err_0 == AlgebraError::Unimplemented,
    {
        Err(AlgebraError::Unimplemented)
    }

    /// The category the ring belongs to; carried for interface parity and
    /// deliberately unsupported.
    pub fn category() -> (r: Result<(), AlgebraError>)
        ensures
            r is Err && r->Err_0 == AlgebraError::Unimplemented,
    {
        Err(AlgebraError::Unimplemented)
    }
}

/// An element of `Z/mZ` for a positive `m`, held as the canonical residue
/// in `[0, m)` together with its modulus.
pub struct IntegerMod {
    num: num::BigInt,
    modulus: num::BigInt,
}

/// `Zmod` names the same elements.
pub type Zmod = IntegerMod;

impl IntegerMod {
    /// The residue the element holds.
    pub closed spec fn value_spec(&self) -> int {
        zz(self.num)
    }

    /// The modulus of the element.
    pub closed spec fn modulus_spec(&self) -> int {
        zz(self.modulus)
    }

    /// A well-formed element: a canonical residue under a positive modulus.
    pub open spec fn wf(&self) -> bool {
        1 <= self.modulus_spec() && 0 <= self.value_spec() < self.modulus_spec()
    }

    /// Builds the element of `Z/mZ` that `num` reduces to; `num` may be
    /// negative or arbitrarily far out of range.
    pub fn new(num: num::BigInt, modulus: num::BigInt) -> (r: Self)
        requires
            zz(modulus) >= 1,
        ensures
            r.wf(),
            r.modulus_spec() == zz(modulus),
            r.value_spec() == zz(num) % zz(modulus),
    {
        let zero = zz_from_i64(0);
        let ghost v = zz(num);
        let ghost m = zz(modulus);
        if zz_lt(&num, &zero) {
            let neg = zz_neg(&num);
            proof {
                lemma_mod_bound(zz(neg), m);
            }
            let t = zz_rem(&neg, &modulus);
            proof {
                lemma_fundamental_div_mod(zz(neg), m);
                let q = zz(neg) / m;
                if zz(t) == 0 {
                    assert(v == (-q) * m) by (nonlinear_arith)
                        requires
                            zz(neg) == m * q,
                            v == -zz(neg),
                    ;
                    lemma_mod_multiples_basic(-q, m);
                } else {
                    assert(v == (-q - 1) * m + (m - zz(t))) by (nonlinear_arith)
                        requires
                            zz(neg) == m * q + zz(t),
                            v == -zz(neg),
                    ;
                    lemma_fundamental_div_mod_converse_mod(v, m, -q - 1, m - zz(t));
                }
            }
            if zz_eq(&t, &zero) {
                Self { num: zero, modulus }
            } else {
                Self { num: zz_sub(&modulus, &t), modulus }
            }
        } else {
            proof {
                lemma_mod_bound(v, m);
            }
            let reduced = zz_rem(&num, &modulus);
            Self { num: reduced, modulus }
        }
    }

    /// The canonical residue the element holds.
    pub fn value(&self) -> (r: num::BigInt)
        ensures
            zz(r) == self.value_spec(),
    {
        zz_clone(&self.num)
    }

    /// The modulus of the element.
    pub fn modulus(&self) -> (r: num::BigInt)
        ensures
            zz(r) == self.modulus_spec(),
    {
        zz_clone(&self.modulus)
    }

    /// A copy of the element.
    pub fn duplicate(&self) -> (r: Self)
        ensures
            r.value_spec() == self.value_spec(),
            r.modulus_spec() == self.modulus_spec(),
    {
        Self { num: zz_clone(&self.num), modulus: zz_clone(&self.modulus) }
    }

    /// Modular addition of two elements of the same ring.
    pub fn add(&self, rhs: &Self) -> (r: Self)
        requires
            self.wf(),
            rhs.wf(),
            self.modulus_spec() == rhs.modulus_spec(),
        ensures
            r.wf(),
            r.modulus_spec() == self.modulus_spec(),
            r.value_spec() == (self.value_spec() + rhs.value_spec()) % self.modulus_spec(),
    {
        let ghost m = self.modulus_spec();
        let ghost s = self.value_spec() + rhs.value_spec();
        let sum = zz_add(&self.num, &rhs.num);
        proof {
            if s >= m {
                lemma_fundamental_div_mod_converse_mod(s, m, 1, s - m);
            } else {
                lemma_small_mod(s as nat, m as nat);
            }
        }
        if !zz_lt(&sum, &self.modulus) {
            Self { num: zz_sub(&sum, &self.modulus), modulus: zz_clone(&self.modulus) }
        } else {
            Self { num: sum, modulus: zz_clone(&self.modulus) }
        }
    }

    /// Modular subtraction of two elements of the same ring.
    pub fn sub(&self, rhs: &Self) -> (r: Self)
        requires
            self.wf(),
            rhs.wf(),
            self.modulus_spec() == rhs.modulus_spec(),
        ensures
            r.wf(),
            r.modulus_spec() == self.modulus_spec(),
            r.value_spec() == (self.value_spec() - rhs.value_spec()) % self.modulus_spec(),
    {
        let ghost m = self.modulus_spec();
        let ghost s = self.value_spec() - rhs.value_spec();
        let zero = zz_from_i64(0);
        let diff = zz_sub(&self.num, &rhs.num);
        proof {
            if s < 0 {
                lemma_fundamental_div_mod_converse_mod(s, m, -1, s + m);
            } else {
                lemma_small_mod(s as nat, m as nat);
            }
        }
        if zz_lt(&diff, &zero) {
            Self { num: zz_add(&diff, &self.modulus), modulus: zz_clone(&self.modulus) }
        } else {
            Self { num: diff, modulus: zz_clone(&self.modulus) }
        }
    }

    /// The additive inverse of an element.
    pub fn neg(&self) -> (r: Self)
        requires
            self.wf(),
        ensures
            r.wf(),
            r.modulus_spec() == self.modulus_spec(),
            r.value_spec() == (-self.value_spec()) % self.modulus_spec(),
    {
        let ghost m = self.modulus_spec();
        let ghost v = self.value_spec();
        let zero = zz_from_i64(0);
        proof {
            if v == 0 {
                lemma_small_mod(0nat, m as nat);
            } else {
                lemma_fundamental_div_mod_converse_mod(-v, m, -1, m - v);
            }
        }
        if zz_eq(&self.num, &zero) {
            Self { num: zero, modulus: zz_clone(&self.modulus) }
        } else {
            Self { num: zz_sub(&self.modulus, &self.num), modulus: zz_clone(&self.modulus) }
        }
    }

    /// Modular multiplication of two elements of the same ring.
    pub fn mul(&self, rhs: &Self) -> (r: Self)
        requires
            self.wf(),
            rhs.wf(),
            self.modulus_spec() == rhs.modulus_spec(),
        ensures
            r.wf(),
            r.modulus_spec() == self.modulus_spec(),
            r.value_spec() == (self.value_spec() * rhs.value_spec()) % self.modulus_spec(),
    {
        let ghost m = self.modulus_spec();
        proof {
            vstd::arithmetic::mul::lemma_mul_nonnegative(self.value_spec(), rhs.value_spec());
            lemma_mod_bound(self.value_spec() * rhs.value_spec(), m);
        }
        let prod = zz_mul(&self.num, &rhs.num);
        let reduced = zz_rem(&prod, &self.modulus);
        Self { num: reduced, modulus: zz_clone(&self.modulus) }
    }

    /// Modular division under a prime modulus, through the extended
    /// Euclidean algorithm: the result, multiplied back by the divisor,
    /// yields the dividend again.
    pub fn div(&self, rhs: &Self) -> (r: Self)
        requires
            self.wf(),
            rhs.wf(),
            self.modulus_spec() == rhs.modulus_spec(),
            is_prime(self.modulus_spec()),
            rhs.value_spec() != 0,
        ensures
            r.wf(),
            r.modulus_spec() == self.modulus_spec(),
            (r.value_spec() * rhs.value_spec()) % self.modulus_spec() == self.value_spec(),
    {
        let ghost m = self.modulus_spec();
        let ghost a = self.value_spec();
        let ghost b = rhs.value_spec();
        proof {
            lemma_prime_coprime(b as nat, m as nat);
        }
        let mut x = zz_from_i64(1);
        let mut y = zz_from_i64(0);
        let g = xgcd(&rhs.num, &self.modulus, &mut x, &mut y);
        // b * x + m * y == 1, so b * x is 1 modulo m and x is the inverse.
        let r = Self::new(zz_mul(&self.num, &x), zz_clone(&self.modulus));
        proof {
            let xv = zz(x);
            let yv = zz(y);
            lemma_mul_mod_noop_left(a * xv, b, m);
            assert((a * xv) * b == m * (-(a * yv)) + a) by (nonlinear_arith)
                requires
                    b * xv + m * yv == 1,
            ;
            lemma_mod_multiples_vanish(-(a * yv), a, m);
            lemma_small_mod(a as nat, m as nat);
        }
        r
    }


    /// In-place modular addition.
    pub fn add_assign(&mut self, rhs: &Self)
        requires
            old(self).wf(),
            rhs.wf(),
            old(self).modulus_spec() == rhs.modulus_spec(),
        ensures
            final(self).wf(),
            final(self).modulus_spec() == old(self).modulus_spec(),
            final(self).value_spec() == (old(self).value_spec() + rhs.value_spec()) % old(
                self,
            ).modulus_spec(),
    {
        *self = self.add(rhs);
    }

    /// In-place modular subtraction.
    pub fn sub_assign(&mut self, rhs: &Self)
        requires
            old(self).wf(),
            rhs.wf(),
            old(self).modulus_spec() == rhs.modulus_spec(),
        ensures
            final(self).wf(),
            final(self).modulus_spec() == old(self).modulus_spec(),
            final(self).value_spec() == (old(self).value_spec() - rhs.value_spec()) % old(
                self,
            ).modulus_spec(),
    {
        *self = self.sub(rhs);
    }

    /// In-place modular multiplication.
    pub fn mul_assign(&mut self, rhs: &Self)
        requires
            old(self).wf(),
            rhs.wf(),
            old(self).modulus_spec() == rhs.modulus_spec(),
        ensures
            final(self).wf(),
            final(self).modulus_spec() == old(self).modulus_spec(),
            final(self).value_spec() == (old(self).value_spec() * rhs.value_spec()) % old(
                self,
            ).modulus_spec(),
    {
        *self = self.mul(rhs);
    }

    /// In-place modular division through the extended Euclidean
    /// algorithm.
    pub fn div_assign(&mut self, rhs: &Self)
        requires
            old(self).wf(),
            rhs.wf(),
            old(self).modulus_spec() == rhs.modulus_spec(),
            is_prime(old(self).modulus_spec()),
            rhs.value_spec() != 0,
        ensures
            final(self).wf(),
            final(self).modulus_spec() == old(self).modulus_spec(),
            (final(self).value_spec() * rhs.value_spec()) % old(self).modulus_spec() == old(
                self,
            ).value_spec(),
    {
        *self = self.div(rhs);
    }

    /// Repeated addition: `e` copies of the element.
    pub fn scalar_mul(&self, e: usize) -> (r: Self)
        requires
            self.wf(),
        ensures
            r.wf(),
            r.modulus_spec() == self.modulus_spec(),
            r.value_spec() == (e * self.value_spec()) % self.modulus_spec(),
    {
        let ghost m = self.modulus_spec();
        let count = Self::new(zz_from_u64(e as u64), zz_clone(&self.modulus));
        proof {
            lemma_mul_mod_noop_left(e as int, self.value_spec(), m);
        }
        count.mul(self)
    }

    /// Repeated multiplication: the element raised to the power `e`, by
    /// binary exponentiation.
    pub fn scalar_pow(&self, e: usize) -> (r: Self)
        requires
            self.wf(),
        ensures
            r.wf(),
            r.modulus_spec() == self.modulus_spec(),
            r.value_spec() == pow(self.value_spec(), e as nat) % self.modulus_spec(),
    {
        let ghost m = self.modulus_spec();
        let ghost base = self.value_spec();
        let one = zz_from_i64(1);
        let mut result = Self::new(one, zz_clone(&self.modulus));
        let mut cur = self.duplicate();
        let mut exp: usize = e;
        proof {
            vstd::arithmetic::div_mod::lemma_mod_bound(pow(base, e as nat), m);
            lemma_mul_mod_noop_left(1int, pow(base, e as nat), m);
            lemma_mul_mod_noop_left(1int % m, pow(base, e as nat), m);
        }
        while exp > 0
            invariant
                result.wf(),
                cur.wf(),
                result.modulus_spec() == m,
                cur.modulus_spec() == m,
                m == self.modulus_spec(),
                (result.value_spec() * pow(cur.value_spec(), exp as nat)) % m == pow(
                    base,
                    e as nat,
                ) % m,
            decreases exp,
        {
            let ghost result0 = result.value_spec();
            let ghost cur0 = cur.value_spec();
            let ghost exp0 = exp as nat;
            if exp % 2 == 1 {
                result = result.mul(&cur);
            }
            exp = exp / 2;
            cur = cur.mul(&cur);
            proof {
                if exp0 % 2 == 1 {
                    crate::mod_int::lemma_pow_step_odd(result0, cur0, exp0, m);
                } else {
                    crate::mod_int::lemma_pow_step_even(result0, cur0, exp0, m);
                }
            }
        }
        proof {
            lemma_pow0(cur.value_spec());
            lemma_small_mod(result.value_spec() as nat, m as nat);
        }
        result
    }
}

} // verus!
