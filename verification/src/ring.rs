//! Ring-theoretic capability traits — unique factorization and Euclidean
//! domains — with their implementations for the integer types the library
//! uses.

use vstd::prelude::*;

use crate::integer::{gcd, gcd_nat, xgcd};
use crate::math::{factor_pairs, is_prime_factorization, pairs_view};
use crate::zz::{zz, zz_div, zz_mul};

verus! {

/// One prime power of a factorization.
#[derive(Debug, PartialEq, Eq)]
pub struct Factor<T> {
    pub p: T,
    pub e: usize,
}

/// A unique factorization domain: its elements decompose into primes.
pub trait UFD: Sized {
    /// What a correct factorization of this value is.
    spec fn factors_ok(self, r: Seq<Factor<Self>>) -> bool;

    fn factors(self) -> (r: Vec<Factor<Self>>)
        ensures
            self.factors_ok(r@),
    ;
}

/// The factor list seen as mathematical `(prime, exponent)` pairs.
pub open spec fn factors_view(r: Seq<Factor<u64>>) -> Seq<(int, int)> {
    r.map_values(|f: Factor<u64>| (f.p as int, f.e as int))
}

impl UFD for u64 {
    open spec fn factors_ok(self, r: Seq<Factor<Self>>) -> bool {
        if self <= 1 {
            r == Seq::<Factor<u64>>::empty()
        } else {
            is_prime_factorization(self as int, factors_view(r))
        }
    }

    fn factors(self) -> (r: Vec<Factor<Self>>) {
        let pairs = factor_pairs(self);
        let mut out: Vec<Factor<u64>> = Vec::new();
        let mut i: usize = 0;
        while i < pairs.len()
            invariant
                i <= pairs@.len(),
                out@.len() == i as int,
                forall|j: int|
                    0 <= j < i as int ==> (#[trigger] out@[j]).p == pairs@[j].0 && out@[j].e
                        == pairs@[j].1 as usize,
            decreases pairs@.len() - i,
        {
            let (p, e) = pairs[i];
            out.push(Factor { p, e: e as usize });
            i = i + 1;
        }
        proof {
            if self <= 1 {
                assert(out@ =~= Seq::<Factor<u64>>::empty());
            } else {
                assert(factors_view(out@) =~= pairs_view(pairs@));
            }
        }
        out
    }
}

/// A Euclidean domain: greatest common divisors exist and come with
/// Bezout coefficients.
pub trait EuclidDomain: Sized {
    /// The inputs the gcd operations are defined on.
    spec fn euclid_req(lhs: &Self, rhs: &Self) -> bool;

    /// The inputs the least common multiple is defined on.
    spec fn lcm_req(lhs: &Self, rhs: &Self) -> bool;

    /// What the greatest common divisor of the two values is.
    spec fn gcd_post(lhs: &Self, rhs: &Self, r: &Self) -> bool;

    /// What the extended algorithm leaves behind: the gcd, combined from
    /// the two values by the Bezout coefficients written to `x` and `y`.
    spec fn xgcd_post(lhs: &Self, rhs: &Self, x: &Self, y: &Self, g: &Self) -> bool;

    /// What the least common multiple of the two values is.
    spec fn lcm_post(lhs: &Self, rhs: &Self, r: &Self) -> bool;

    fn gcd(lhs: Self, rhs: Self) -> (r: Self)
        requires
            Self::euclid_req(&lhs, &rhs),
        ensures
            Self::gcd_post(&lhs, &rhs, &r),
    ;

    fn xgcd(lhs: Self, rhs: Self, x: &mut Self, y: &mut Self) -> (g: Self)
        requires
            Self::euclid_req(&lhs, &rhs),
        ensures
            Self::xgcd_post(&lhs, &rhs, final(x), final(y), &g),
    ;

    fn lcm(lhs: Self, rhs: Self) -> (r: Self)
        requires
            Self::lcm_req(&lhs, &rhs),
        ensures
            Self::lcm_post(&lhs, &rhs, &r),
    ;
}

impl EuclidDomain for num::BigInt {
    open spec fn euclid_req(lhs: &Self, rhs: &Self) -> bool {
        zz(*lhs) >= 0 && zz(*rhs) >= 0
    }

    open spec fn lcm_req(lhs: &Self, rhs: &Self) -> bool {
        zz(*lhs) >= 1 && zz(*rhs) >= 0
    }

    open spec fn gcd_post(lhs: &Self, rhs: &Self, r: &Self) -> bool {
        zz(*r) == gcd_nat(zz(*lhs) as nat, zz(*rhs) as nat)
    }

    open spec fn xgcd_post(lhs: &Self, rhs: &Self, x: &Self, y: &Self, g: &Self) -> bool {
        zz(*g) == gcd_nat(zz(*lhs) as nat, zz(*rhs) as nat) && zz(*lhs) * zz(*x) + zz(*rhs) * zz(
            *y,
        ) == zz(*g)
    }

    open spec fn lcm_post(lhs: &Self, rhs: &Self, r: &Self) -> bool {
        zz(*r) == crate::math::lcm_int(zz(*lhs), zz(*rhs))
    }

    fn gcd(lhs: Self, rhs: Self) -> (r: Self) {
        gcd(&lhs, &rhs)
    }

    fn xgcd(lhs: Self, rhs: Self, x: &mut Self, y: &mut Self) -> (g: Self) {
        xgcd(&lhs, &rhs, x, y)
    }

    fn lcm(lhs: Self, rhs: Self) -> (r: Self) {
        let g = gcd(&lhs, &rhs);
        proof {
            crate::integer::lemma_gcd_pos(zz(lhs) as nat, zz(rhs) as nat);
        }
        let q = zz_div(&lhs, &g);
        zz_mul(&q, &rhs)
    }
}

} // verus!
