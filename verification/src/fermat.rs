//! Fermat's little theorem, proved from Bezout coefficients and the
//! rearrangement of residues, with the corollary that raising to the
//! power `m - 2` yields the modular inverse under a prime modulus.

use vstd::arithmetic::div_mod::{
    lemma_mod_bound, lemma_mul_mod_noop_left, lemma_mul_mod_noop_right, lemma_small_mod,
};
use vstd::arithmetic::power::{lemma_pow0, lemma_pow1, lemma_pow_adds, pow};
use vstd::calc;
use vstd::multiset::Multiset;
use vstd::prelude::*;

use crate::integer::{divides, gcd_nat, is_prime, lemma_bezout, lemma_prime_coprime};

verus! {

/// The product of a sequence of integers.
pub open spec fn prod(s: Seq<int>) -> int
    decreases s.len(),
{
    if s.len() == 0 {
        1
    } else {
        prod(s.drop_last()) * s.last()
    }
}

/// Removing one element divides the product by it.
proof fn lemma_prod_remove(s: Seq<int>, i: int)
    requires
        0 <= i < s.len(),
    ensures
        prod(s) == prod(s.remove(i)) * s[i],
    decreases s.len(),
{
    if i == s.len() - 1 {
        assert(s.remove(i) =~= s.drop_last());
    } else {
        let dl = s.drop_last();
        lemma_prod_remove(dl, i);
        assert(s.remove(i).drop_last() =~= dl.remove(i));
        assert(s.remove(i).last() == s.last());
        assert((prod(dl.remove(i)) * dl[i]) * s.last() == (prod(dl.remove(i)) * s.last()) * dl[i])
            by (nonlinear_arith)
        ;
    }
}

/// Sequences holding the same multiset of integers have the same product.
proof fn lemma_prod_permutation(s: Seq<int>, t: Seq<int>)
    requires
        s.to_multiset() == t.to_multiset(),
    ensures
        prod(s) == prod(t),
    decreases s.len(),
{
    s.to_multiset_ensures();
    t.to_multiset_ensures();
    if s.len() == 0 {
        assert(t.len() == 0);
    } else {
        let x = s.last();
        assert(s.contains(x));
        assert(s.to_multiset().count(x) > 0);
        assert(t.contains(x));
        let i = choose|i: int| 0 <= i < t.len() && t[i] == x;
        lemma_prod_remove(t, i);
        lemma_prod_remove(s, s.len() - 1);
        assert(s.remove(s.len() - 1) =~= s.drop_last());
        assert(s.drop_last().to_multiset() =~= t.remove(i).to_multiset()) by {
            assert(s.remove(s.len() - 1).to_multiset() =~= s.to_multiset().remove(x));
            assert(t.remove(i).to_multiset() =~= t.to_multiset().remove(x));
        }
        lemma_prod_permutation(s.drop_last(), t.remove(i));
    }
}

/// In a sequence with pairwise distinct entries, every value is held at
/// most once.
proof fn lemma_distinct_count(s: Seq<int>, x: int)
    requires
        forall|i: int, j: int| 0 <= i < j < s.len() ==> s[i] != s[j],
    ensures
        s.to_multiset().count(x) == if s.contains(x) {
            1int
        } else {
            0int
        },
    decreases s.len(),
{
    s.to_multiset_ensures();
    if s.len() == 0 {
        assert(s.to_multiset() =~= Multiset::<int>::empty());
    } else {
        let dl = s.drop_last();
        dl.to_multiset_ensures();
        assert(forall|i: int, j: int| 0 <= i < j < dl.len() ==> dl[i] != dl[j]);
        lemma_distinct_count(dl, x);
        assert(s =~= dl.push(s.last()));
        assert(s.to_multiset() =~= dl.to_multiset().insert(s.last()));
        if x == s.last() {
            assert(!dl.contains(x)) by {
                if dl.contains(x) {
                    let i = choose|i: int| 0 <= i < dl.len() && dl[i] == x;
                    assert(s[i] == s[s.len() - 1]);
                }
            }
            assert(s.contains(x)) by {
                assert(s[s.len() - 1] == x);
            }
        } else {
            assert(s.contains(x) <==> dl.contains(x)) by {
                if s.contains(x) {
                    let i = choose|i: int| 0 <= i < s.len() && s[i] == x;
                    assert(dl[i] == x);
                }
            }
        }
    }
}

/// An integer combination equal to one forces coprimality.
proof fn lemma_combo_coprime(x: nat, p: nat, a: int, b: int)
    requires
        x * a + p * b == 1,
    ensures
        gcd_nat(x, p) == 1,
{
    let g = gcd_nat(x, p);
    crate::integer::lemma_gcd_divides(x, p);
    if g != 1 {
        let kx = choose|k: int| x as int == #[trigger] (g as int * k);
        let kp = choose|k: int| p as int == #[trigger] (g as int * k);
        assert(1int == g as int * (kx * a + kp * b)) by (nonlinear_arith)
            requires
                x as int == g as int * kx,
                p as int == g as int * kp,
                x * a + p * b == 1,
        ;
        if g == 0 {
            assert(false);
        } else {
            assert(divides(g as int, 1int));
            crate::integer::lemma_divides_le(g as int, 1int);
            assert(false);
        }
    }
}

/// Two numbers coprime to `p` have a product coprime to `p`.
proof fn lemma_coprime_mul(x: nat, y: nat, p: nat)
    requires
        gcd_nat(x, p) == 1,
        gcd_nat(y, p) == 1,
    ensures
        gcd_nat(x * y, p) == 1,
{
    lemma_bezout(x, p);
    lemma_bezout(y, p);
    let (a1, b1) = choose|a: int, b: int| #[trigger] (x * a + p * b) == gcd_nat(x, p);
    let (a2, b2) = choose|a: int, b: int| #[trigger] (y * a + p * b) == gcd_nat(y, p);
    let rest = b1 + b2 - p * b1 * b2;
    assert((x * y) * (a1 * a2) + p * rest == 1) by (nonlinear_arith)
        requires
            x * a1 + p * b1 == 1,
            y * a2 + p * b2 == 1,
            rest == b1 + b2 - p * b1 * b2,
    ;
    lemma_combo_coprime(x * y, p, a1 * a2, rest);
}

/// If `p` divides a product and is coprime to one factor, it divides the
/// other.
proof fn lemma_coprime_divides(p: nat, x: nat, t: int)
    requires
        gcd_nat(x, p) == 1,
        divides(p as int, x as int * t),
    ensures
        divides(p as int, t),
{
    lemma_bezout(x, p);
    let (a, b) = choose|a: int, b: int| #[trigger] (x * a + p * b) == gcd_nat(x, p);
    let k = choose|k: int| x as int * t == #[trigger] (p as int * k);
    assert(t == p as int * (a * k + t * b)) by (nonlinear_arith)
        requires
            x * a + p * b == 1,
            x as int * t == p as int * k,
    ;
}

/// Multiplication by a residue coprime to a prime modulus is injective on
/// residues.
proof fn lemma_mod_mul_cancel(a: int, i: int, j: int, p: int)
    requires
        is_prime(p),
        1 <= a < p,
        0 <= i < p,
        0 <= j < p,
        (a * i) % p == (a * j) % p,
    ensures
        i == j,
{
    if i != j {
        let (hi, lo) = if i > j {
            (i, j)
        } else {
            (j, i)
        };
        vstd::arithmetic::div_mod::lemma_mod_equivalence(a * hi, a * lo, p);
        assert((a * hi - a * lo) % p == 0);
        assert(a * hi - a * lo == a * (hi - lo)) by (nonlinear_arith);
        assert(a * (hi - lo) >= 0) by (nonlinear_arith)
            requires
                a >= 1,
                hi - lo >= 0,
        ;
        crate::math::lemma_divides_iff_mod(p, a * (hi - lo));
        lemma_prime_coprime(a as nat, p as nat);
        lemma_coprime_divides(p as nat, a as nat, hi - lo);
        crate::integer::lemma_divides_le(p, hi - lo);
        assert(false);
    }
}

/// A product of two nonzero residues under a prime modulus is nonzero.
proof fn lemma_mod_mul_nonzero(a: int, i: int, p: int)
    requires
        is_prime(p),
        1 <= a < p,
        1 <= i < p,
    ensures
        (a * i) % p != 0,
{
    if (a * i) % p == 0 {
        assert(a * i >= 0) by (nonlinear_arith)
            requires
                a >= 1,
                i >= 1,
        ;
        crate::math::lemma_divides_iff_mod(p, a * i);
        lemma_prime_coprime(a as nat, p as nat);
        lemma_coprime_divides(p as nat, a as nat, i);
        crate::integer::lemma_divides_le(p, i);
        assert(false);
    }
}

/// The residues `a * 1, ..., a * (p-1)`, each reduced, are a rearrangement
/// of `1, ..., p-1`.
proof fn lemma_residue_permutation(a: int, p: int)
    requires
        is_prime(p),
        1 <= a < p,
    ensures
        Seq::new((p - 1) as nat, |i: int| (a * (i + 1)) % p).to_multiset() == Seq::new(
            (p - 1) as nat,
            |i: int| i + 1,
        ).to_multiset(),
{
    let mapped = Seq::new((p - 1) as nat, |i: int| (a * (i + 1)) % p);
    let base = Seq::new((p - 1) as nat, |i: int| i + 1);
    assert(forall|i: int, j: int| 0 <= i < j < mapped.len() ==> mapped[i] != mapped[j]) by {
        assert forall|i: int, j: int| 0 <= i < j < mapped.len() implies mapped[i] != mapped[j] by {
            if mapped[i] == mapped[j] {
                lemma_mod_mul_cancel(a, i + 1, j + 1, p);
            }
        }
    }
    // The Bezout inverse of a gives every target residue a preimage.
    lemma_prime_coprime(a as nat, p as nat);
    lemma_bezout(a as nat, p as nat);
    let (x, y) = choose|x: int, y: int| #[trigger] (a as nat * x + p as nat * y) == gcd_nat(
        a as nat,
        p as nat,
    );
    assert forall|w: int| #[trigger] base.contains(w) implies mapped.contains(w) by {
        let jw = (x * w) % p;
        lemma_mod_bound(x * w, p);
        lemma_mul_mod_noop_right(a, x * w, p);
        assert((a * jw) % p == (a * (x * w)) % p);
        assert(a * (x * w) == p * (-(y * w)) + w) by (nonlinear_arith)
            requires
                a * x + p * y == 1,
        ;
        vstd::arithmetic::div_mod::lemma_mod_multiples_vanish(-(y * w), w, p);
        assert(1 <= w < p) by {
            let i = choose|i: int| 0 <= i < base.len() && base[i] == w;
        }
        lemma_small_mod(w as nat, p as nat);
        assert((a * jw) % p == w);
        assert(jw != 0) by {
            if jw == 0 {
                assert(a * 0 == 0) by (nonlinear_arith);
                lemma_small_mod(0nat, p as nat);
            }
        }
        assert(mapped[jw - 1] == w);
        assert(mapped.contains(w));
    }
    assert forall|w: int| #[trigger] mapped.contains(w) implies base.contains(w) by {
        let i = choose|i: int| 0 <= i < mapped.len() && mapped[i] == w;
        lemma_mod_mul_nonzero(a, i + 1, p);
        lemma_mod_bound(a * (i + 1), p);
        assert(base[w - 1] == w);
        assert(base.contains(w));
    }
    assert(mapped.to_multiset() =~= base.to_multiset()) by {
        assert forall|w: int|
            mapped.to_multiset().count(w) == base.to_multiset().count(w) by {
            lemma_distinct_count(mapped, w);
            assert(forall|i: int, j: int| 0 <= i < j < base.len() ==> base[i] != base[j]);
            lemma_distinct_count(base, w);
            assert(mapped.contains(w) <==> base.contains(w));
        }
    }
}

/// The product of the reduced multiples is the power of `a` times the
/// plain product, modulo `p`.
proof fn lemma_prod_mapped(a: int, p: int, k: int)
    requires
        p >= 2,
        0 <= k,
    ensures
        prod(Seq::new(k as nat, |i: int| (a * (i + 1)) % p)) % p == (pow(a, k as nat) * prod(
            Seq::new(k as nat, |i: int| i + 1),
        )) % p,
    decreases k,
{
    let mapped = Seq::new(k as nat, |i: int| (a * (i + 1)) % p);
    let base = Seq::new(k as nat, |i: int| i + 1);
    if k == 0 {
        lemma_pow0(a);
        assert(mapped =~= Seq::<int>::empty());
        assert(base =~= Seq::<int>::empty());
    } else {
        let mp = Seq::new((k - 1) as nat, |i: int| (a * (i + 1)) % p);
        let bp = Seq::new((k - 1) as nat, |i: int| i + 1);
        lemma_prod_mapped(a, p, k - 1);
        assert(mapped.drop_last() =~= mp);
        assert(base.drop_last() =~= bp);
        assert(prod(mapped) == prod(mp) * ((a * k) % p));
        assert(prod(base) == prod(bp) * k);
        calc! {
            (==)
            (prod(mp) * ((a * k) % p)) % p; {
                lemma_mul_mod_noop_right(prod(mp), a * k, p);
            }
            (prod(mp) * (a * k)) % p; {
                lemma_mul_mod_noop_left(prod(mp), a * k, p);
                lemma_mul_mod_noop_left(
                    pow(a, (k - 1) as nat) * prod(bp),
                    a * k,
                    p,
                );
            }
            ((pow(a, (k - 1) as nat) * prod(bp)) * (a * k)) % p; {
                lemma_pow_adds(a, (k - 1) as nat, 1);
                lemma_pow1(a);
                assert((pow(a, (k - 1) as nat) * prod(bp)) * (a * k) == pow(a, k as nat) * (prod(
                    bp,
                ) * k)) by (nonlinear_arith)
                    requires
                        pow(a, k as nat) == pow(a, (k - 1) as nat) * a,
                ;
            }
            (pow(a, k as nat) * (prod(bp) * k)) % p;
        }
    }
}

/// The entries of a sequence coprime to `p` make its product coprime to
/// `p`.
proof fn lemma_prod_coprime(s: Seq<int>, p: nat)
    requires
        forall|i: int| 0 <= i < s.len() ==> 1 <= #[trigger] s[i] && gcd_nat(s[i] as nat, p) == 1,
    ensures
        prod(s) >= 1,
        gcd_nat(prod(s) as nat, p) == 1,
    decreases s.len(),
{
    if s.len() == 0 {
        lemma_bezout(1nat, p);
        assert(1nat * 1int + p * 0int == 1) by (nonlinear_arith);
        lemma_combo_coprime(1nat, p, 1int, 0int);
    } else {
        let dl = s.drop_last();
        lemma_prod_coprime(dl, p);
        assert(prod(s) == prod(dl) * s.last());
        assert(prod(dl) * s.last() >= 1) by (nonlinear_arith)
            requires
                prod(dl) >= 1,
                s.last() >= 1,
        ;
        lemma_coprime_mul(prod(dl) as nat, s.last() as nat, p);
        assert(prod(dl) as nat * s.last() as nat == (prod(dl) * s.last()) as nat)
            by (nonlinear_arith)
            requires
                prod(dl) >= 1,
                s.last() >= 1,
        ;
    }
}

/// Fermat's little theorem: under a prime modulus `p`, every nonzero
/// residue raised to the power `p - 1` is one.
pub proof fn lemma_fermat_little(a: int, p: int)
    requires
        is_prime(p),
        1 <= a < p,
    ensures
        pow(a, (p - 1) as nat) % p == 1,
{
    let k = p - 1;
    let mapped = Seq::new(k as nat, |i: int| (a * (i + 1)) % p);
    let base = Seq::new(k as nat, |i: int| i + 1);
    lemma_residue_permutation(a, p);
    lemma_prod_permutation(mapped, base);
    lemma_prod_mapped(a, p, k);
    let w = pow(a, k as nat);
    let b = prod(base);
    // b % p == (w * b) % p, and b is coprime to p, so p divides w - 1.
    assert(forall|i: int| 0 <= i < base.len() ==> 1 <= #[trigger] base[i] && gcd_nat(
        base[i] as nat,
        p as nat,
    ) == 1) by {
        assert forall|i: int| 0 <= i < base.len() implies 1 <= #[trigger] base[i] && gcd_nat(
            base[i] as nat,
            p as nat,
        ) == 1 by {
            lemma_prime_coprime((i + 1) as nat, p as nat);
        }
    }
    lemma_prod_coprime(base, p as nat);
    vstd::arithmetic::power::lemma_pow_positive(a, k as nat);
    let t = w - 1;
    vstd::arithmetic::div_mod::lemma_mod_equivalence(w * b, b, p);
    assert(w * b - b == b * t) by (nonlinear_arith)
        requires
            t == w - 1,
    ;
    assert(b * t >= 0) by (nonlinear_arith)
        requires
            b >= 1,
            t >= 0,
    ;
    crate::math::lemma_divides_iff_mod(p, b * t);
    lemma_coprime_divides(p as nat, b as nat, t);
    let q = choose|j: int| t == #[trigger] (p * j);
    assert(w == q * p + 1) by (nonlinear_arith)
        requires
            t == p * q,
            w == t + 1,
    ;
    vstd::arithmetic::div_mod::lemma_fundamental_div_mod_converse_mod(w, p, q, 1);
}

/// The Fermat power is the inverse: multiplying a residue by the divisor
/// raised to `m - 2` and then by the divisor again returns the residue.
/// This is the division round trip for the machine-word modular integers.
pub proof fn lemma_fermat_inverse(a: int, b: int, m: int)
    requires
        is_prime(m),
        0 <= a < m,
        1 <= b < m,
    ensures
        (((a * pow(b, (m - 2) as nat)) % m) * b) % m == a,
{
    lemma_fermat_little(b, m);
    lemma_mul_mod_noop_left(a * pow(b, (m - 2) as nat), b, m);
    lemma_pow_adds(b, (m - 2) as nat, 1);
    lemma_pow1(b);
    assert((a * pow(b, (m - 2) as nat)) * b == a * pow(b, (m - 1) as nat)) by (nonlinear_arith)
        requires
            pow(b, (m - 1) as nat) == pow(b, (m - 2) as nat) * pow(b, 1nat),
            pow(b, 1nat) == b,
    ;
    lemma_mul_mod_noop_right(a, pow(b, (m - 1) as nat), m);
    assert((a * (pow(b, (m - 1) as nat) % m)) % m == (a * 1) % m);
    lemma_small_mod(a as nat, m as nat);
}

} // verus!
