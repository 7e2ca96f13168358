//! Integer factorization by trial division, with the Carmichael function
//! built on top of it.

use vstd::arithmetic::div_mod::{
    lemma_fundamental_div_mod, lemma_mod_multiples_basic,
};
use vstd::arithmetic::power::{lemma_pow0, lemma_pow1, lemma_pow_adds, pow};
use vstd::prelude::*;

use crate::integer::{divides, gcd_nat, is_prime};

verus! {

/// The number a list of `(prime, exponent)` pairs multiplies out to.
pub open spec fn pf_prod(f: Seq<(int, int)>) -> int
    decreases f.len(),
{
    if f.len() == 0 {
        1
    } else {
        pf_prod(f.drop_last()) * pow(f.last().0, f.last().1 as nat)
    }
}

/// A prime factorization of `n`: strictly ascending primes with positive
/// exponents whose prime powers multiply out to `n`.
pub open spec fn is_prime_factorization(n: int, f: Seq<(int, int)>) -> bool {
    &&& pf_prod(f) == n
    &&& forall|i: int| 0 <= i < f.len() ==> is_prime((#[trigger] f[i]).0) && f[i].1 >= 1
    &&& forall|i: int, j: int| 0 <= i < j < f.len() ==> (#[trigger] f[i]).0 < (#[trigger] f[j]).0
}

/// The view of a machine pair list as mathematical pairs.
pub open spec fn pairs_view(r: Seq<(u64, u32)>) -> Seq<(int, int)> {
    r.map_values(|pr: (u64, u32)| (pr.0 as int, pr.1 as int))
}

/// For a positive divisor, dividing evenly and the divisibility predicate
/// agree.
pub proof fn lemma_divides_iff_mod(d: int, n: int)
    requires
        d > 0,
        n >= 0,
    ensures
        divides(d, n) <==> n % d == 0,
{
    if n % d == 0 {
        lemma_fundamental_div_mod(n, d);
        assert(n == d * (n / d));
    }
    if divides(d, n) {
        let k = choose|k: int| n == #[trigger] (d * k);
        lemma_mod_multiples_basic(k, d);
        assert(k * d == d * k) by (nonlinear_arith);
    }
}

/// Divisibility is transitive.
pub proof fn lemma_divides_transitive(a: int, b: int, c: int)
    requires
        divides(a, b),
        divides(b, c),
    ensures
        divides(a, c),
{
    let k1 = choose|k: int| b == #[trigger] (a * k);
    let k2 = choose|k: int| c == #[trigger] (b * k);
    assert(c == a * (k1 * k2)) by (nonlinear_arith)
        requires
            b == a * k1,
            c == b * k2,
    ;
}

/// Exponentiation is monotone in the base.
proof fn lemma_pow_base_mono(a: int, b: int, e: nat)
    requires
        1 <= a <= b,
    ensures
        pow(a, e) <= pow(b, e),
    decreases e,
{
    if e == 0 {
        lemma_pow0(a);
        lemma_pow0(b);
    } else {
        lemma_pow_base_mono(a, b, (e - 1) as nat);
        vstd::arithmetic::power::lemma_pow_positive(a, (e - 1) as nat);
        assert(pow(a, e) == a * pow(a, (e - 1) as nat)) by {
            reveal(pow);
        }
        assert(pow(b, e) == b * pow(b, (e - 1) as nat)) by {
            reveal(pow);
        }
        assert(a * pow(a, (e - 1) as nat) <= b * pow(b, (e - 1) as nat)) by (nonlinear_arith)
            requires
                1 <= a <= b,
                0 < pow(a, (e - 1) as nat) <= pow(b, (e - 1) as nat),
        ;
    }
}

/// A number below `2^64` has fewer than 64 factors of two.
proof fn lemma_pow2_bound(e: nat)
    requires
        pow(2, e) <= 0xffff_ffff_ffff_ffff,
    ensures
        e <= 64,
{
    if e > 63 {
        vstd::arithmetic::power2::lemma_pow2(64);
        vstd::arithmetic::power2::lemma2_to64();
        if e > 64 {
            vstd::arithmetic::power::lemma_pow_strictly_increases(2, 64, e);
        }
    }
}

/// A number with no proper divisor below its square root region is prime:
/// if `m > 1`, `m` has no divisor in `[2, p)`, and `p * p > m`, then `m`
/// is prime.
proof fn lemma_no_small_divisor_prime(m: int, p: int)
    requires
        m > 1,
        p >= 2,
        p * p > m,
        forall|d: int| 2 <= d < p ==> !divides(d, m),
    ensures
        is_prime(m),
{
    assert forall|d: int| 2 <= d < m implies !divides(d, m) by {
        if divides(d, m) {
            let k = choose|k: int| m == #[trigger] (d * k);
            assert(k == m / d) by (nonlinear_arith)
                requires
                    m == d * k,
                    d >= 2,
                    m > 1,
            ;
            assert(m == k * d) by (nonlinear_arith)
                requires
                    m == d * k,
            ;
            assert(divides(k, m));
            assert(2 <= k) by (nonlinear_arith)
                requires
                    m == d * k,
                    2 <= d < m,
                    m > 1,
            ;
            if d >= p && k >= p {
                assert(d * k >= p * p) by (nonlinear_arith)
                    requires
                        d >= p,
                        k >= p,
                        p >= 2,
                ;
                assert(false);
            }
        }
    }
}

/// `pf_prod` grows by one prime power when a pair is appended.
proof fn lemma_pf_prod_push(f: Seq<(int, int)>, x: (int, int))
    ensures
        pf_prod(f.push(x)) == pf_prod(f) * pow(x.0, x.1 as nat),
{
    assert(f.push(x).drop_last() =~= f);
    assert(f.push(x).last() == x);
}

/// The prime factorization of a machine integer by trial division: the
/// empty list for zero and one, and otherwise the ascending list of
/// `(prime, exponent)` pairs whose prime powers multiply out to `n`.
#[verifier::rlimit(60)]
pub fn factor_pairs(n: u64) -> (r: Vec<(u64, u32)>)
    ensures
        n <= 1 ==> r@ == Seq::<(u64, u32)>::empty(),
        n >= 2 ==> is_prime_factorization(n as int, pairs_view(r@)),
{
    let mut res: Vec<(u64, u32)> = Vec::new();
    if n <= 1 {
        return res;
    }
    let mut m: u64 = n;
    let mut p: u64 = 2;
    while p <= m / p
        invariant
            2 <= p,
            1 <= m,
            n as int == pf_prod(pairs_view(res@)) * m as int,
            forall|d: int| 2 <= d < p ==> !divides(d, m as int),
            forall|i: int|
                0 <= i < res@.len() ==> is_prime((#[trigger] pairs_view(res@)[i]).0)
                    && pairs_view(res@)[i].1 >= 1 && pairs_view(res@)[i].0 < p,
            forall|i: int, j: int|
                0 <= i < j < res@.len() ==> (#[trigger] pairs_view(res@)[i]).0 < (
                #[trigger] pairs_view(res@)[j]).0,
        decreases vstd::math::clip(2 * m as int - p as int),
    {
        proof {
            lemma_fundamental_div_mod(m as int, p as int);
            assert(p * p <= m) by (nonlinear_arith)
                requires
                    p >= 2,
                    m >= 1,
                    p as int <= m as int / p as int,
                    m as int == p as int * (m as int / p as int) + m as int % p as int,
                    0 <= m as int % p as int && (m as int % p as int) < p as int,
            ;
            assert(p < 0xffff_ffff_ffff_ffff) by (nonlinear_arith)
                requires
                    p >= 2,
                    p * p <= m,
                    m <= 0xffff_ffff_ffff_ffff,
            ;
        }
        if m % p == 0 {
            let ghost m_entry = m as int;
            let mut e: u32 = 1;
            proof {
                lemma_fundamental_div_mod(m as int, p as int);
                assert(m as int / p as int >= 1 && (m as int / p as int) < m as int)
                    by (nonlinear_arith)
                    requires
                        m as int == p as int * (m as int / p as int),
                        m as int >= 1,
                        p as int >= 2,
                        m as int % p as int == 0,
                ;
            }
            m = m / p;
            proof {
                lemma_fundamental_div_mod(m_entry, p as int);
                lemma_pow1(p as int);
                assert(m_entry == m as int * pow(p as int, 1)) by (nonlinear_arith)
                    requires
                        m_entry == p as int * (m_entry / p as int),
                        m as int == m_entry / p as int,
                        pow(p as int, 1) == p as int,
                ;
            }
            while m % p == 0
                invariant
                    2 <= p,
                    1 <= m,
                    1 <= e,
                    m_entry == m as int * pow(p as int, e as nat),
                    (m as int) < m_entry && m_entry <= u64::MAX,
                decreases m,
            {
                proof {
                    lemma_fundamental_div_mod(m as int, p as int);
                    lemma_pow_adds(p as int, e as nat, 1);
                    lemma_pow1(p as int);
                    vstd::arithmetic::power::lemma_pow_positive(p as int, e as nat);
                    assert(m_entry == (m as int / p as int) * pow(p as int, (e + 1) as nat))
                        by (nonlinear_arith)
                        requires
                            m_entry == m as int * pow(p as int, e as nat),
                            m as int == p as int * (m as int / p as int),
                            pow(p as int, (e + 1) as nat) == pow(p as int, e as nat) * pow(
                                p as int,
                                1nat,
                            ),
                            pow(p as int, 1nat) == p as int,
                    ;
                    assert(m as int / p as int >= 1 && (m as int / p as int) < m as int)
                        by (nonlinear_arith)
                        requires
                            m as int == p as int * (m as int / p as int),
                            m as int >= 1,
                            p as int >= 2,
                    ;
                    assert(e < 100) by {
                        lemma_pow_base_mono(2, p as int, e as nat);
                        assert(pow(p as int, e as nat) <= m_entry) by (nonlinear_arith)
                            requires
                                m_entry == m as int * pow(p as int, e as nat),
                                m as int >= 1,
                                pow(p as int, e as nat) >= 1,
                        ;
                        lemma_pow2_bound(e as nat);
                    }
                }
                m = m / p;
                e = e + 1;
            }
            proof {
                // p is prime: any proper divisor of p would divide m_entry
                // and be smaller than p.
                assert(is_prime(p as int)) by {
                    assert forall|d: int| 2 <= d < p implies !divides(d, p as int) by {
                        if divides(d, p as int) {
                            assert(divides(p as int, m_entry)) by {
                                vstd::arithmetic::power::lemma_pow_positive(
                                    p as int,
                                    (e - 1) as nat,
                                );
                                lemma_pow_adds(p as int, 1, (e - 1) as nat);
                                lemma_pow1(p as int);
                                assert(m_entry == p as int * (m as int * pow(
                                    p as int,
                                    (e - 1) as nat,
                                ))) by (nonlinear_arith)
                                    requires
                                        m_entry == m as int * pow(p as int, e as nat),
                                        pow(p as int, e as nat) == pow(p as int, 1nat) * pow(
                                            p as int,
                                            (e - 1) as nat,
                                        ),
                                        pow(p as int, 1nat) == p as int,
                                ;
                            }
                            assert(divides(d, m_entry)) by {
                                lemma_divides_transitive(d, p as int, m_entry);
                            }
                            assert(false);
                        }
                    }
                }
                let ghost before = pairs_view(res@);
                lemma_pf_prod_push(before, (p as int, e as int));
                assert(pairs_view(res@.push((p, e))) =~= before.push((p as int, e as int)));
                assert(n as int == pf_prod(before.push((p as int, e as int))) * m as int)
                    by (nonlinear_arith)
                    requires
                        n as int == pf_prod(before) * m_entry,
                        m_entry == m as int * pow(p as int, e as nat),
                        pf_prod(before.push((p as int, e as int))) == pf_prod(before) * pow(
                            p as int,
                            e as nat,
                        ),
                ;
            }
            res.push((p, e));
            proof {
                // Divisors of the reduced m still divide the old one, so no
                // divisor below p has appeared.
                assert(divides(m as int, m_entry)) by {
                    vstd::arithmetic::power::lemma_pow_positive(p as int, e as nat);
                    assert(m_entry == m as int * pow(p as int, e as nat));
                }
                assert forall|d: int| 2 <= d < p + 1 implies !divides(d, m as int) by {
                    if d < p && divides(d, m as int) {
                        lemma_divides_transitive(d, m as int, m_entry);
                    }
                    if d == p && divides(d, m as int) {
                        lemma_divides_iff_mod(p as int, m as int);
                    }
                }
            }
        } else {
            proof {
                assert forall|d: int| 2 <= d < p + 1 implies !divides(d, m as int) by {
                    if d == p && divides(d, m as int) {
                        lemma_divides_iff_mod(p as int, m as int);
                    }
                }
            }
        }
        p = p + 1;
    }
    proof {
        lemma_fundamental_div_mod(m as int, p as int);
        assert(p * p > m) by (nonlinear_arith)
            requires
                p >= 2,
                m >= 1,
                p as int > m as int / p as int,
                m as int == p as int * (m as int / p as int) + m as int % p as int,
                0 <= m as int % p as int && (m as int % p as int) < p as int,
        ;
    }
    if m > 1 {
        proof {
            // m itself has no divisor in [2, p), so m >= p, and with
            // p * p > m it is prime.
            assert(m as int >= p as int) by {
                if m < p {
                    assert(divides(m as int, m as int)) by {
                        assert(m as int == m as int * 1);
                    }
                }
            }
            lemma_no_small_divisor_prime(m as int, p as int);
            let ghost before = pairs_view(res@);
            lemma_pf_prod_push(before, (m as int, 1int));
            lemma_pow1(m as int);
            assert(pairs_view(res@.push((m, 1u32))) =~= before.push((m as int, 1int)));
        }
        res.push((m, 1));
    }
    proof {
        assert(n as int == pf_prod(pairs_view(res@)) * 1int);
        assert(pf_prod(pairs_view(res@)) == n as int);
        assert(is_prime_factorization(n as int, pairs_view(res@)));
    }
    res
}

/// The Carmichael function, defined through the prime factorization.
pub trait CarmichaelLambda: Sized {
    /// What the function returns on this value.
    spec fn carmichael_post(self, r: Self) -> bool;

    fn carmichael_lambda(self) -> (r: Self)
        ensures
            self.carmichael_post(r),
    ;
}

/// The least common multiple, through the gcd; exact for positive
/// arguments.
pub open spec fn lcm_int(a: int, b: int) -> int {
    (a / gcd_nat(a as nat, b as nat) as int) * b
}

/// The Carmichael function of an odd prime power `p^e`:
/// `p^(e-1) * (p - 1)`.
pub open spec fn lambda_prime_power(p: int, e: int) -> int {
    pow(p, (e - 1) as nat) * (p - 1)
}

/// The Carmichael function of the power-of-two part `2^e2`.
pub open spec fn lambda_two_part(e2: int) -> int {
    if e2 <= 1 {
        1
    } else if e2 == 2 {
        2
    } else {
        pow(2, (e2 - 2) as nat)
    }
}

/// The least common multiple of `res` with the Carmichael values of a
/// list of odd prime powers, folded in order.
pub open spec fn lambda_fold(res: int, f: Seq<(int, int)>) -> int
    decreases f.len(),
{
    if f.len() == 0 {
        res
    } else {
        lcm_int(lambda_fold(res, f.drop_last()), lambda_prime_power(f.last().0, f.last().1))
    }
}

/// What the Carmichael function returns: the value folded from the
/// factorization of the odd part and the power-of-two part of the
/// argument.  The decomposition into `2^e2` times an odd number with its
/// ascending prime factorization is unique, so the formula pins the
/// result.
pub open spec fn carmichael_formula(n: int, r: int) -> bool {
    if n == 0 {
        r == 0
    } else {
        exists|e2: nat, f: Seq<(int, int)>|
            {
                &&& n == #[trigger] (pow(2, e2) * pf_prod(f))
                &&& pf_prod(f) % 2 == 1
                &&& is_prime_factorization(pf_prod(f), f)
                &&& r == lambda_fold(lambda_two_part(e2 as int), f)
            }
    }
}

/// The product of a prime-power list is positive.
proof fn lemma_pf_prod_pos(f: Seq<(int, int)>)
    requires
        forall|i: int| 0 <= i < f.len() ==> (#[trigger] f[i]).0 >= 1 && f[i].1 >= 0,
    ensures
        pf_prod(f) >= 1,
    decreases f.len(),
{
    if f.len() > 0 {
        lemma_pf_prod_pos(f.drop_last());
        vstd::arithmetic::power::lemma_pow_positive(f.last().0, f.last().1 as nat);
        assert(pf_prod(f.drop_last()) * pow(f.last().0, f.last().1 as nat) >= 1)
            by (nonlinear_arith)
            requires
                pf_prod(f.drop_last()) >= 1,
                pow(f.last().0, f.last().1 as nat) >= 1,
        ;
    }
}

/// Prefix products of a prime-power list never exceed the whole product.
proof fn lemma_pf_prod_take(f: Seq<(int, int)>, t: int)
    requires
        0 <= t <= f.len(),
        forall|i: int| 0 <= i < f.len() ==> (#[trigger] f[i]).0 >= 1 && f[i].1 >= 0,
    ensures
        1 <= pf_prod(f.take(t)) <= pf_prod(f),
    decreases f.len() - t,
{
    assert(forall|i: int|
        0 <= i < f.take(t).len() ==> (#[trigger] f.take(t)[i]).0 >= 1 && f.take(t)[i].1 >= 0);
    lemma_pf_prod_pos(f.take(t));
    if t < f.len() {
        lemma_pf_prod_take(f, t + 1);
        assert(f.take(t + 1).drop_last() =~= f.take(t));
        vstd::arithmetic::power::lemma_pow_positive(f[t].0, f[t].1 as nat);
        assert(pf_prod(f.take(t)) <= pf_prod(f.take(t)) * pow(f[t].0, f[t].1 as nat))
            by (nonlinear_arith)
            requires
                pf_prod(f.take(t)) >= 1,
                pow(f[t].0, f[t].1 as nat) >= 1,
        ;
    } else {
        assert(f.take(t) =~= f);
    }
}

/// Each prime power in a factorization is at most the whole product.
proof fn lemma_pf_entry_bound(f: Seq<(int, int)>, t: int)
    requires
        0 <= t < f.len(),
        forall|i: int| 0 <= i < f.len() ==> (#[trigger] f[i]).0 >= 1 && f[i].1 >= 0,
    ensures
        1 <= pow(f[t].0, f[t].1 as nat) <= pf_prod(f),
    decreases f.len(),
{
    vstd::arithmetic::power::lemma_pow_positive(f[t].0, f[t].1 as nat);
    if t == f.len() - 1 {
        lemma_pf_prod_pos(f.drop_last());
        assert(pow(f[t].0, f[t].1 as nat) <= pf_prod(f)) by (nonlinear_arith)
            requires
                pf_prod(f) == pf_prod(f.drop_last()) * pow(f[t].0, f[t].1 as nat),
                pf_prod(f.drop_last()) >= 1,
                pow(f[t].0, f[t].1 as nat) >= 1,
        ;
    } else {
        assert(forall|i: int|
            0 <= i < f.drop_last().len() ==> (#[trigger] f.drop_last()[i]).0 >= 1
                && f.drop_last()[i].1 >= 0);
        lemma_pf_entry_bound(f.drop_last(), t);
        vstd::arithmetic::power::lemma_pow_positive(f.last().0, f.last().1 as nat);
        assert(pf_prod(f.drop_last()) <= pf_prod(f)) by (nonlinear_arith)
            requires
                pf_prod(f) == pf_prod(f.drop_last()) * pow(f.last().0, f.last().1 as nat),
                pf_prod(f.drop_last()) >= 1,
                pow(f.last().0, f.last().1 as nat) >= 1,
        ;
    }
}

/// The greatest common divisor of two machine integers.
fn gcd_u64(a: u64, b: u64) -> (r: u64)
    ensures
        r as nat == gcd_nat(a as nat, b as nat),
{
    let mut s = a;
    let mut t = b;
    while t != 0
        invariant
            gcd_nat(s as nat, t as nat) == gcd_nat(a as nat, b as nat),
        decreases t,
    {
        proof {
            vstd::arithmetic::div_mod::lemma_mod_bound(s as int, t as int);
        }
        let tmp = s % t;
        s = t;
        t = tmp;
    }
    s
}

/// The power `base^exp` of machine integers, by repeated multiplication;
/// the caller supplies a bound that keeps every intermediate in range.
fn pow_u64(base: u64, exp: u32) -> (r: u64)
    requires
        base >= 1,
        pow(base as int, exp as nat) <= u64::MAX,
    ensures
        r as int == pow(base as int, exp as nat),
{
    let mut acc: u64 = 1;
    let mut i: u32 = 0;
    proof {
        lemma_pow0(base as int);
    }
    while i < exp
        invariant
            base >= 1,
            i <= exp,
            pow(base as int, exp as nat) <= u64::MAX,
            acc as int == pow(base as int, i as nat),
        decreases exp - i,
    {
        proof {
            lemma_pow_adds(base as int, i as nat, 1);
            lemma_pow1(base as int);
            vstd::arithmetic::power::lemma_pow_increases(
                base as nat,
                (i + 1) as nat,
                exp as nat,
            );
            vstd::arithmetic::power::lemma_pow_positive(base as int, (i + 1) as nat);
        }
        acc = acc * base;
        i = i + 1;
    }
    acc
}

impl CarmichaelLambda for u32 {
    open spec fn carmichael_post(self, r: Self) -> bool {
        carmichael_formula(self as int, r as int) && r <= self
    }

    fn carmichael_lambda(self) -> (r: Self) {
        if self == 0 {
            return 0;
        }
        let n: u64 = self as u64;
        // Split off the power of two.
        let mut odd: u64 = n;
        let mut e2: u32 = 0;
        proof {
            lemma_pow0(2);
        }
        while odd % 2 == 0
            invariant
                1 <= odd <= n,
                n as int == pow(2, e2 as nat) * odd as int,
                1 <= pow(2, e2 as nat) <= n,
            decreases odd,
        {
            proof {
                lemma_fundamental_div_mod(odd as int, 2);
                lemma_pow_adds(2, e2 as nat, 1);
                lemma_pow1(2);
                assert(n as int == pow(2, (e2 + 1) as nat) * (odd as int / 2))
                    by (nonlinear_arith)
                    requires
                        n as int == pow(2, e2 as nat) * odd as int,
                        odd as int == 2 * (odd as int / 2),
                        pow(2, (e2 + 1) as nat) == pow(2, e2 as nat) * 2,
                ;
                assert(1 <= odd as int / 2 && odd as int / 2 <= n) by (nonlinear_arith)
                    requires
                        odd as int == 2 * (odd as int / 2),
                        1 <= odd as int,
                        odd as int <= n as int,
                ;
                assert(pow(2, (e2 + 1) as nat) <= n) by (nonlinear_arith)
                    requires
                        n as int == pow(2, (e2 + 1) as nat) * (odd as int / 2),
                        1 <= odd as int / 2,
                        1 <= pow(2, (e2 + 1) as nat),
                ;
                vstd::arithmetic::power::lemma_pow_positive(2, (e2 + 1) as nat);
                lemma_pow2_bound((e2 + 1) as nat);
            }
            odd = odd / 2;
            e2 = e2 + 1;
        }
        let ghost res0 = lambda_two_part(e2 as int);
        // The two-part contribution.
        let mut res: u64 = if e2 <= 1 {
            1
        } else if e2 == 2 {
            2
        } else {
            proof {
                vstd::arithmetic::power::lemma_pow_increases(2nat, (e2 - 2) as nat, e2 as nat);
            }
            pow_u64(2, e2 - 2)
        };
        proof {
            assert(res as int == res0);
            assert(1 <= res0 && res0 <= pow(2, e2 as nat)) by {
                if e2 as int > 2 {
                    vstd::arithmetic::power::lemma_pow_increases(
                        2nat,
                        (e2 - 2) as nat,
                        e2 as nat,
                    );
                    vstd::arithmetic::power::lemma_pow_positive(2, (e2 - 2) as nat);
                } else if e2 == 2 {
                    vstd::arithmetic::power::lemma_square_is_pow2(2);
                } else if e2 == 1 {
                    lemma_pow1(2);
                } else {
                    lemma_pow0(2);
                }
            }
        }
        let factors = factor_pairs(odd);
        let ghost fv = pairs_view(factors@);
        proof {
            if odd == 1 {
                assert(fv =~= Seq::<(int, int)>::empty());
            }
            assert(pf_prod(fv) == odd as int);
            assert(forall|i: int| 0 <= i < fv.len() ==> (#[trigger] fv[i]).0 >= 1 && fv[i].1 >= 0);
        }
        let mut t: usize = 0;
        while t < factors.len()
            invariant
                fv == pairs_view(factors@),
                pf_prod(fv) == odd as int,
                1 <= odd <= n,
                n <= u32::MAX,
                n as int == pow(2, e2 as nat) * odd as int,
                1 <= res0 && res0 <= pow(2, e2 as nat),
                forall|i: int| 0 <= i < fv.len() ==> (#[trigger] fv[i]).0 >= 1 && fv[i].1 >= 0,
                forall|i: int|
                    0 <= i < fv.len() ==> is_prime((#[trigger] fv[i]).0) && fv[i].1 >= 1,
                t <= factors@.len(),
                res as int == lambda_fold(res0, fv.take(t as int)),
                1 <= res as int,
                res as int <= res0 * pf_prod(fv.take(t as int)),
            decreases factors@.len() - t,
        {
            let (p, e) = factors[t];
            proof {
                assert(fv[t as int] == (p as int, e as int));
                assert(is_prime(fv[t as int].0));
                lemma_pf_entry_bound(fv, t as int);
                lemma_pf_prod_take(fv, t as int);
                lemma_pf_prod_take(fv, t as int + 1);
                // p^(e-1) and p^(e-1)*(p-1) fit under p^e <= odd <= n.
                lemma_pow_adds(p as int, (e - 1) as nat, 1);
                lemma_pow1(p as int);
                vstd::arithmetic::power::lemma_pow_positive(p as int, (e - 1) as nat);
                assert(pow(p as int, (e - 1) as nat) * (p as int) == pow(p as int, e as nat));
                assert(pow(p as int, (e - 1) as nat) <= pow(p as int, e as nat))
                    by (nonlinear_arith)
                    requires
                        pow(p as int, (e - 1) as nat) * (p as int) == pow(p as int, e as nat),
                        pow(p as int, (e - 1) as nat) >= 1,
                        p as int >= 2,
                ;
                assert(pow(p as int, e as nat) <= odd as int) by {
                    assert(pow(fv[t as int].0, fv[t as int].1 as nat) <= pf_prod(fv));
                }
            }
            let pe = pow_u64(p, e - 1);
            proof {
                assert(pe as int * (p as int - 1) <= pow(p as int, e as nat))
                    by (nonlinear_arith)
                    requires
                        pe as int == pow(p as int, (e - 1) as nat),
                        pow(p as int, (e - 1) as nat) * (p as int) == pow(p as int, e as nat),
                        pe as int >= 1,
                        p as int >= 2,
                ;
                assert(0 <= pe as int * (p as int - 1)) by (nonlinear_arith)
                    requires
                        pe as int >= 1,
                        p as int >= 2,
                ;
            }
            let lam: u64 = pe * (p - 1);
            proof {
                assert(lam as int == lambda_prime_power(p as int, e as int));
                assert(1 <= lam as int) by (nonlinear_arith)
                    requires
                        lam as int == pow(p as int, (e - 1) as nat) * (p as int - 1),
                        pow(p as int, (e - 1) as nat) >= 1,
                        p as int >= 2,
                ;
                assert(lam as int <= pow(p as int, e as nat)) by (nonlinear_arith)
                    requires
                        lam as int == pow(p as int, (e - 1) as nat) * (p as int - 1),
                        pow(p as int, (e - 1) as nat) * (p as int) == pow(p as int, e as nat),
                        pow(p as int, (e - 1) as nat) >= 1,
                        p as int >= 2,
                ;
            }
            let g = gcd_u64(res, lam);
            let ghost lam_v = lam as int;
            proof {
                crate::integer::lemma_gcd_divides(res as nat, lam as nat);
                crate::integer::lemma_gcd_pos(res as nat, lam as nat);
                crate::integer::lemma_divides_le(g as int, res as int);
                lemma_fundamental_div_mod(res as int, g as int);
                lemma_divides_iff_mod(g as int, res as int);
                assert(1 <= res as int / g as int && res as int / g as int <= res as int)
                    by (nonlinear_arith)
                    requires
                        res as int == g as int * (res as int / g as int),
                        1 <= g as int <= res as int,
                        1 <= res as int,
                ;
                assert((res as int / g as int) * lam as int <= res as int * lam as int)
                    by (nonlinear_arith)
                    requires
                        1 <= res as int / g as int && res as int / g as int <= res as int,
                        1 <= lam as int,
                ;
                // The running value stays below the original argument.
                assert(res as int * lam as int <= (res0 * pf_prod(fv.take(t as int))) * pow(
                    p as int,
                    e as nat,
                )) by (nonlinear_arith)
                    requires
                        res as int <= res0 * pf_prod(fv.take(t as int)),
                        lam as int <= pow(p as int, e as nat),
                        1 <= res as int,
                        1 <= lam as int,
                        1 <= res0 * pf_prod(fv.take(t as int)),
                ;
                assert(fv.take(t as int + 1).drop_last() =~= fv.take(t as int));
                assert(pf_prod(fv.take(t as int + 1)) == pf_prod(fv.take(t as int)) * pow(
                    p as int,
                    e as nat,
                ));
                assert((res0 * pf_prod(fv.take(t as int))) * pow(p as int, e as nat) == res0
                    * pf_prod(fv.take(t as int + 1))) by (nonlinear_arith)
                    requires
                        pf_prod(fv.take(t as int + 1)) == pf_prod(fv.take(t as int)) * pow(
                            p as int,
                            e as nat,
                        ),
                ;
                assert(res0 * pf_prod(fv.take(t as int + 1)) <= pow(2, e2 as nat) * odd as int)
                    by (nonlinear_arith)
                    requires
                        1 <= res0 && res0 <= pow(2, e2 as nat),
                        1 <= pf_prod(fv.take(t as int + 1)),
                        pf_prod(fv.take(t as int + 1)) <= pf_prod(fv),
                        pf_prod(fv) == odd as int,
                        1 <= odd as int,
                ;
                assert(res as int * lam as int <= u64::MAX);
            }
            let ghost old_res_div_g = res as int / g as int;
            res = res / g * lam;
            proof {
                assert(1 <= res as int) by (nonlinear_arith)
                    requires
                        res as int == (old_res_div_g * lam_v),
                        1 <= old_res_div_g,
                        1 <= lam_v,
                ;
                assert(res as int == lcm_int(
                    lambda_fold(res0, fv.take(t as int)),
                    lambda_prime_power(p as int, e as int),
                ));
                assert(res as int == lambda_fold(res0, fv.take(t as int + 1)));
            }
            t = t + 1;
        }
        proof {
            assert(fv.take(factors@.len() as int) =~= fv);
            assert(res as int <= res0 * pf_prod(fv));
            assert(res0 * pf_prod(fv) <= pow(2, e2 as nat) * odd as int) by (nonlinear_arith)
                requires
                    1 <= res0 && res0 <= pow(2, e2 as nat),
                    1 <= pf_prod(fv),
                    pf_prod(fv) == odd as int,
            ;
            assert(res <= n);
            lemma_divides_iff_mod(2, odd as int);
            assert(odd as int % 2 == 1) by {
                vstd::arithmetic::div_mod::lemma_mod_bound(odd as int, 2);
            }
            assert(carmichael_formula(self as int, res as int)) by {
                assert(self as int == pow(2, e2 as nat) * pf_prod(fv) && pf_prod(fv) % 2 == 1
                    && is_prime_factorization(pf_prod(fv), fv) && res as int == lambda_fold(
                    lambda_two_part(e2 as nat as int),
                    fv,
                ));
            }
        }
        res as u32
    }
}

impl CarmichaelLambda for u16 {
    open spec fn carmichael_post(self, r: Self) -> bool {
        carmichael_formula(self as int, r as int) && r <= self
    }

    fn carmichael_lambda(self) -> (r: Self) {
        let wide = (self as u32).carmichael_lambda();
        wide as u16
    }
}

impl CarmichaelLambda for u8 {
    open spec fn carmichael_post(self, r: Self) -> bool {
        carmichael_formula(self as int, r as int) && r <= self
    }

    fn carmichael_lambda(self) -> (r: Self) {
        let wide = (self as u32).carmichael_lambda();
        wide as u8
    }
}

} // verus!
