//! A machine-word modular integer: a residue in `[0, m)` carrying its
//! modulus `m`, with overflow-aware ring operations, binary exponentiation,
//! and division by Fermat inversion (for a prime modulus).

use vstd::arithmetic::div_mod::{
    lemma_add_mod_noop_right, lemma_fundamental_div_mod, lemma_fundamental_div_mod_converse_mod,
    lemma_mod_bound, lemma_mul_mod_noop_left, lemma_mul_mod_noop_right, lemma_small_mod,
    lemma_sub_mod_noop_right,
};
use vstd::arithmetic::mul::lemma_mul_is_associative;
use vstd::arithmetic::power::{
    lemma_pow0, lemma_pow1, lemma_pow_adds, lemma_pow_mod_noop, lemma_pow_multiplies,
    lemma_square_is_pow2, pow,
};
use vstd::calc;
use vstd::prelude::*;

verus! {

/// Conversion into the machine representation that `ModInt` computes with.
pub trait ToInternalNum {
    /// The integer the value stands for.
    spec fn internal_spec(&self) -> int;

    /// Whether that integer fits the double-width machine representation.
    spec fn internal_req(&self) -> bool;

    /// Whether the value may be combined with a residue under modulus `m`.
    spec fn compatible_with(&self, m: int) -> bool;

    fn to_internal_num(&self) -> (r: i128)
        requires
            self.internal_req(),
        ensures
            r as int == self.internal_spec(),
    ;
}

impl ToInternalNum for i64 {
    open spec fn internal_spec(&self) -> int {
        *self as int
    }

    open spec fn internal_req(&self) -> bool {
        true
    }

    open spec fn compatible_with(&self, m: int) -> bool {
        true
    }

    fn to_internal_num(&self) -> (r: i128) {
        *self as i128
    }
}

impl ToInternalNum for i32 {
    open spec fn internal_spec(&self) -> int {
        *self as int
    }

    open spec fn internal_req(&self) -> bool {
        true
    }

    open spec fn compatible_with(&self, m: int) -> bool {
        true
    }

    fn to_internal_num(&self) -> (r: i128) {
        *self as i128
    }
}

impl ToInternalNum for u32 {
    open spec fn internal_spec(&self) -> int {
        *self as int
    }

    open spec fn internal_req(&self) -> bool {
        true
    }

    open spec fn compatible_with(&self, m: int) -> bool {
        true
    }

    fn to_internal_num(&self) -> (r: i128) {
        *self as i128
    }
}

impl ToInternalNum for usize {
    open spec fn internal_spec(&self) -> int {
        *self as int
    }

    open spec fn internal_req(&self) -> bool {
        true
    }

    open spec fn compatible_with(&self, m: int) -> bool {
        true
    }

    fn to_internal_num(&self) -> (r: i128) {
        *self as i128
    }
}

/// The product of two residues below `m` is non-negative and far inside the
/// double-width range, and its remainder is again a residue.
proof fn lemma_residue_product_bound(a: int, b: int, m: int)
    requires
        1 <= m <= 0x7fff_ffff_ffff_ffff,
        0 <= a < m,
        0 <= b < m,
    ensures
        0 <= a * b,
        a * b < 0x4000_0000_0000_0000_0000_0000_0000_0000,
        0 <= a * b % m < m,
{
    assert(0 <= a * b && a * b < 0x4000_0000_0000_0000_0000_0000_0000_0000) by (nonlinear_arith)
        requires
            0 <= a < m,
            0 <= b < m,
            m <= 0x7fff_ffff_ffff_ffff,
    ;
    lemma_mod_bound(a * b, m);
}

/// The remainder `(a * b) % m` of two residues, computed in a double-width
/// intermediate so that it cannot overflow.
fn mul_mod(a: i64, b: i64, m: i64) -> (r: i64)
    requires
        m >= 1,
        0 <= a < m,
        0 <= b < m,
    ensures
        r as int == (a as int * b as int) % m as int,
        0 <= r < m,
{
    proof {
        lemma_residue_product_bound(a as int, b as int, m as int);
    }
    ((a as i128 * b as i128) % m as i128) as i64
}

/// An element of the ring of integers modulo a positive machine-word
/// modulus, kept as its canonical residue.
#[derive(Clone, Copy, Debug)]
pub struct ModInt {
    value: i64,
    modulus: i64,
}

impl ToInternalNum for ModInt {
    open spec fn internal_spec(&self) -> int {
        self.value_spec()
    }

    open spec fn internal_req(&self) -> bool {
        true
    }

    open spec fn compatible_with(&self, m: int) -> bool {
        self.modulus_spec() == m
    }

    fn to_internal_num(&self) -> (r: i128) {
        self.value as i128
    }
}

impl ModInt {
    /// The residue the value holds.
    pub closed spec fn value_spec(&self) -> int {
        self.value as int
    }

    /// The modulus the value was reduced under.
    pub closed spec fn modulus_spec(&self) -> int {
        self.modulus as int
    }

    /// A well-formed value: a canonical residue under a positive modulus.
    pub open spec fn wf(&self) -> bool {
        1 <= self.modulus_spec() && 0 <= self.value_spec() < self.modulus_spec()
    }

    /// Reduces a double-width machine integer, which may be negative or
    /// arbitrarily far out of range, to its canonical residue modulo `m`.
    fn reduce_wide(v: i128, m: i64) -> (r: ModInt)
        requires
            m >= 1,
        ensures
            r.wf(),
            r.modulus_spec() == m as int,
            r.value_spec() == v as int % m as int,
    {
        let wide_m: i128 = m as i128;
        if v >= 0 {
            proof {
                lemma_mod_bound(v as int, m as int);
            }
            ModInt { value: (v % wide_m) as i64, modulus: m }
        } else {
            // For a negative argument, reduce its bitwise complement, which
            // is non-negative: if v == -(nv + 1) and t == nv % m, then the
            // canonical residue of v is m - 1 - t.
            let nv: i128 = -(v + 1);
            proof {
                lemma_mod_bound(nv as int, m as int);
            }
            let t: i128 = nv % wide_m;
            proof {
                lemma_fundamental_div_mod(nv as int, m as int);
                let q = -(nv as int / m as int) - 1;
                assert(v as int == q * (m as int) + (m as int - 1 - t as int))
                    by (nonlinear_arith)
                    requires
                        nv as int == (m as int) * (nv as int / m as int) + t as int,
                        v as int == -(nv as int) - 1,
                        q == -(nv as int / m as int) - 1,
                ;
                lemma_fundamental_div_mod_converse_mod(
                    v as int,
                    m as int,
                    q,
                    m as int - 1 - t as int,
                );
            }
            ModInt { value: (wide_m - 1 - t) as i64, modulus: m }
        }
    }

    /// Reduces a machine integer, which may be negative or arbitrarily far
    /// out of range, to its canonical residue modulo `m`.
    pub fn internal_new(v: i64, m: i64) -> (r: ModInt)
        requires
            m >= 1,
        ensures
            r.wf(),
            r.modulus_spec() == m as int,
            r.value_spec() == v as int % m as int,
    {
        Self::reduce_wide(v as i128, m)
    }

    /// Builds a value from anything convertible to the machine
    /// representation, reducing it modulo `m`; the conversion widens, so
    /// values near their own type's bound reduce without loss.
    pub fn new<T: ToInternalNum>(v: T, m: i64) -> (r: ModInt)
        requires
            m >= 1,
            v.internal_req(),
        ensures
            r.wf(),
            r.modulus_spec() == m as int,
            r.value_spec() == v.internal_spec() % m as int,
    {
        let raw = v.to_internal_num();
        Self::reduce_wide(raw, m)
    }

    /// The canonical residue, as a machine integer.
    pub fn value(&self) -> (r: i64)
        ensures
            r as int == self.value_spec(),
    {
        self.value
    }

    /// The modulus, as a machine integer.
    pub fn modulus(&self) -> (r: i64)
        ensures
            r as int == self.modulus_spec(),
    {
        self.modulus
    }

    /// Modular addition: the right operand is reduced first, so it may be
    /// any representable integer.
    pub fn add<T: ToInternalNum>(self, rhs: T) -> (r: ModInt)
        requires
            self.wf(),
            rhs.internal_req(),
            rhs.compatible_with(self.modulus_spec()),
        ensures
            r.wf(),
            r.modulus_spec() == self.modulus_spec(),
            r.value_spec() == (self.value_spec() + rhs.internal_spec()) % self.modulus_spec(),
    {
        let m = self.modulus;
        let rr = Self::reduce_wide(rhs.to_internal_num(), m);
        let wide: i128 = self.value as i128 + rr.value as i128;
        let reduced: i128 = if wide >= m as i128 {
            wide - m as i128
        } else {
            wide
        };
        proof {
            let a = self.value_spec();
            let b = rhs.internal_spec();
            let mi = m as int;
            lemma_add_mod_noop_right(a, b, mi);
            if a + b % mi >= mi {
                lemma_fundamental_div_mod_converse_mod(a + b % mi, mi, 1, a + b % mi - mi);
            } else {
                lemma_small_mod((a + b % mi) as nat, mi as nat);
            }
        }
        ModInt { value: reduced as i64, modulus: m }
    }

    /// Modular subtraction: the right operand is reduced first.
    pub fn sub<T: ToInternalNum>(self, rhs: T) -> (r: ModInt)
        requires
            self.wf(),
            rhs.internal_req(),
            rhs.compatible_with(self.modulus_spec()),
        ensures
            r.wf(),
            r.modulus_spec() == self.modulus_spec(),
            r.value_spec() == (self.value_spec() - rhs.internal_spec()) % self.modulus_spec(),
    {
        let m = self.modulus;
        let rr = Self::reduce_wide(rhs.to_internal_num(), m);
        let wide: i128 = self.value as i128 - rr.value as i128;
        let reduced: i128 = if wide < 0 {
            wide + m as i128
        } else {
            wide
        };
        proof {
            let a = self.value_spec();
            let b = rhs.internal_spec();
            let mi = m as int;
            lemma_sub_mod_noop_right(a, b, mi);
            if a - b % mi < 0 {
                lemma_fundamental_div_mod_converse_mod(a - b % mi, mi, -1, a - b % mi + mi);
            } else {
                lemma_small_mod((a - b % mi) as nat, mi as nat);
            }
        }
        ModInt { value: reduced as i64, modulus: m }
    }

    /// Modular multiplication: the right operand is reduced first and the
    /// product is taken in a double-width intermediate.
    pub fn mul<T: ToInternalNum>(self, rhs: T) -> (r: ModInt)
        requires
            self.wf(),
            rhs.internal_req(),
            rhs.compatible_with(self.modulus_spec()),
        ensures
            r.wf(),
            r.modulus_spec() == self.modulus_spec(),
            r.value_spec() == (self.value_spec() * rhs.internal_spec()) % self.modulus_spec(),
    {
        let m = self.modulus;
        let rr = Self::reduce_wide(rhs.to_internal_num(), m);
        let prod = mul_mod(self.value, rr.value, m);
        proof {
            lemma_mul_mod_noop_right(self.value_spec(), rhs.internal_spec(), m as int);
        }
        ModInt { value: prod, modulus: m }
    }

    /// Binary exponentiation to a non-negative machine exponent.
    pub fn internal_pow(&self, e: i64) -> (r: ModInt)
        requires
            self.wf(),
            e >= 0,
        ensures
            r.wf(),
            r.modulus_spec() == self.modulus_spec(),
            r.value_spec() == pow(self.value_spec(), e as nat) % self.modulus_spec(),
    {
        let m = self.modulus;
        let ghost mi = m as int;
        let ghost base = self.value_spec();
        let mut result: i64 = if m == 1 {
            0
        } else {
            1
        };
        let mut cur: i64 = self.value;
        let mut exp: i64 = e;
        proof {
            lemma_mod_bound(1int, mi);
            lemma_mod_bound(pow(base, e as nat), mi);
            lemma_mul_mod_noop_left(result as int, pow(base, e as nat), mi);
            if mi > 1 {
                lemma_small_mod(1nat, mi as nat);
            }
            assert(result as int == 1int % mi);
            assert((result as int * pow(base, e as nat)) % mi == pow(base, e as nat) % mi) by {
                lemma_mul_mod_noop_left(1int, pow(base, e as nat), mi);
                lemma_mul_mod_noop_left(1int % mi, pow(base, e as nat), mi);
            }
        }
        while exp > 0
            invariant
                1 <= m,
                mi == m as int,
                0 <= result < m,
                0 <= cur < m,
                0 <= exp,
                (result * pow(cur as int, exp as nat)) % mi == pow(base, e as nat) % mi,
            decreases exp,
        {
            let ghost result0 = result as int;
            let ghost cur0 = cur as int;
            let ghost exp0 = exp as nat;
            if exp % 2 == 1 {
                result = mul_mod(result, cur, m);
            }
            exp = exp / 2;
            cur = mul_mod(cur, cur, m);
            proof {
                if exp0 % 2 == 1 {
                    lemma_pow_step_odd(result0, cur0, exp0, mi);
                } else {
                    lemma_pow_step_even(result0, cur0, exp0, mi);
                }
            }
        }
        proof {
            lemma_pow0(cur as int);
            lemma_small_mod(result as nat, mi as nat);
        }
        ModInt { value: result, modulus: m }
    }

    /// Binary exponentiation to any non-negative convertible exponent.
    pub fn pow<T: ToInternalNum>(&self, e: T) -> (r: ModInt)
        requires
            self.wf(),
            e.internal_req(),
            0 <= e.internal_spec() <= i64::MAX,
        ensures
            r.wf(),
            r.modulus_spec() == self.modulus_spec(),
            r.value_spec() == pow(self.value_spec(), e.internal_spec() as nat)
                % self.modulus_spec(),
    {
        self.internal_pow(e.to_internal_num() as i64)
    }

    /// Modular division under a prime modulus: multiplies by the Fermat
    /// inverse, the divisor raised to `m - 2`.
    pub fn div<T: ToInternalNum>(self, rhs: T) -> (r: ModInt)
        requires
            self.wf(),
            rhs.internal_req(),
            rhs.compatible_with(self.modulus_spec()),
            crate::integer::is_prime(self.modulus_spec()),
        ensures
            r.wf(),
            r.modulus_spec() == self.modulus_spec(),
            r.value_spec() == (self.value_spec() * pow(
                rhs.internal_spec() % self.modulus_spec(),
                (self.modulus_spec() - 2) as nat,
            )) % self.modulus_spec(),
            rhs.internal_spec() % self.modulus_spec() != 0 ==> (r.value_spec() * (
            rhs.internal_spec() % self.modulus_spec())) % self.modulus_spec()
                == self.value_spec(),
    {
        let m = self.modulus;
        let rr = Self::reduce_wide(rhs.to_internal_num(), m);
        let inverse = rr.internal_pow(m - 2);
        proof {
            lemma_mul_mod_noop_right(
                self.value_spec(),
                pow(rhs.internal_spec() % m as int, (m - 2) as nat),
                m as int,
            );
            let b = rhs.internal_spec() % m as int;
            if b != 0 {
                lemma_mod_bound(rhs.internal_spec(), m as int);
                crate::fermat::lemma_fermat_inverse(self.value_spec(), b, m as int);
            }
        }
        self.mul(inverse)
    }

    /// In-place modular addition.
    pub fn add_assign<T: ToInternalNum>(&mut self, rhs: T)
        requires
            old(self).wf(),
            rhs.internal_req(),
            rhs.compatible_with(old(self).modulus_spec()),
        ensures
            final(self).wf(),
            final(self).modulus_spec() == old(self).modulus_spec(),
            final(self).value_spec() == (old(self).value_spec() + rhs.internal_spec()) % old(
                self,
            ).modulus_spec(),
    {
        *self = self.add(rhs);
    }

    /// In-place modular subtraction.
    pub fn sub_assign<T: ToInternalNum>(&mut self, rhs: T)
        requires
            old(self).wf(),
            rhs.internal_req(),
            rhs.compatible_with(old(self).modulus_spec()),
        ensures
            final(self).wf(),
            final(self).modulus_spec() == old(self).modulus_spec(),
            final(self).value_spec() == (old(self).value_spec() - rhs.internal_spec()) % old(
                self,
            ).modulus_spec(),
    {
        *self = self.sub(rhs);
    }

    /// In-place modular multiplication.
    pub fn mul_assign<T: ToInternalNum>(&mut self, rhs: T)
        requires
            old(self).wf(),
            rhs.internal_req(),
            rhs.compatible_with(old(self).modulus_spec()),
        ensures
            final(self).wf(),
            final(self).modulus_spec() == old(self).modulus_spec(),
            final(self).value_spec() == (old(self).value_spec() * rhs.internal_spec()) % old(
                self,
            ).modulus_spec(),
    {
        *self = self.mul(rhs);
    }

    /// In-place modular division under a prime modulus.
    pub fn div_assign<T: ToInternalNum>(&mut self, rhs: T)
        requires
            old(self).wf(),
            rhs.internal_req(),
            rhs.compatible_with(old(self).modulus_spec()),
            crate::integer::is_prime(old(self).modulus_spec()),
        ensures
            final(self).wf(),
            final(self).modulus_spec() == old(self).modulus_spec(),
            final(self).value_spec() == (old(self).value_spec() * pow(
                rhs.internal_spec() % old(self).modulus_spec(),
                (old(self).modulus_spec() - 2) as nat,
            )) % old(self).modulus_spec(),
            rhs.internal_spec() % old(self).modulus_spec() != 0 ==> (final(self).value_spec() * (
            rhs.internal_spec() % old(self).modulus_spec())) % old(self).modulus_spec() == old(
                self,
            ).value_spec(),
    {
        *self = self.div(rhs);
    }
}


impl crate::algebraic::ScalarMul for ModInt {
    open spec fn scalar_mul_req(&self, e: nat) -> bool {
        self.wf() && e <= i64::MAX
    }

    open spec fn scalar_mul_post(&self, e: nat, r: &Self) -> bool {
        r.wf() && r.modulus_spec() == self.modulus_spec() && r.value_spec() == (self.value_spec()
            * e) % self.modulus_spec()
    }

    fn scalar_mul(&self, e: usize) -> (r: Self) {
        self.mul(e)
    }
}

impl crate::algebraic::ScalarPow for ModInt {
    open spec fn scalar_pow_req(&self, e: nat) -> bool {
        self.wf() && e <= i64::MAX
    }

    open spec fn scalar_pow_post(&self, e: nat, r: &Self) -> bool {
        r.wf() && r.modulus_spec() == self.modulus_spec() && r.value_spec() == pow(
            self.value_spec(),
            e,
        ) % self.modulus_spec()
    }

    fn scalar_pow(&self, e: usize) -> (r: Self) {
        self.internal_pow(e as i64)
    }
}

/// One odd step of square-and-multiply preserves the running product.
pub(crate) proof fn lemma_pow_step_odd(result: int, cur: int, e: nat, m: int)
    requires
        m >= 1,
        e % 2 == 1,
    ensures
        ((result * cur % m) * pow(cur * cur % m, (e / 2) as nat)) % m == (result * pow(cur, e))
            % m,
{
    let h = (e / 2) as nat;
    lemma_pow_square_half(cur, e);
    let p = pow(cur * cur, h);
    let pm = pow(cur * cur % m, h);
    lemma_pow_mod_noop(cur * cur, h, m);
    calc! {
        (==)
        ((result * cur % m) * pm) % m; {
            lemma_mul_mod_noop_right(result * cur % m, pm, m);
            lemma_mul_mod_noop_right(result * cur % m, p, m);
        }
        ((result * cur % m) * p) % m; {
            lemma_mul_mod_noop_left(result * cur, p, m);
        }
        ((result * cur) * p) % m; {
            lemma_mul_is_associative(result, cur, p);
        }
        (result * (cur * p)) % m;
    }
}

/// One even step of square-and-multiply preserves the running product.
pub(crate) proof fn lemma_pow_step_even(result: int, cur: int, e: nat, m: int)
    requires
        m >= 1,
        e % 2 == 0,
    ensures
        (result * pow(cur * cur % m, (e / 2) as nat)) % m == (result * pow(cur, e)) % m,
{
    let h = (e / 2) as nat;
    lemma_pow_square_half(cur, e);
    let p = pow(cur * cur, h);
    let pm = pow(cur * cur % m, h);
    lemma_pow_mod_noop(cur * cur, h, m);
    calc! {
        (==)
        (result * pm) % m; {
            lemma_mul_mod_noop_right(result, pm, m);
            lemma_mul_mod_noop_right(result, p, m);
        }
        (result * p) % m;
    }
}

/// Halving the exponent against the squared base: `c^e` is `(c*c)^(e/2)`,
/// times `c` when `e` is odd.
proof fn lemma_pow_square_half(c: int, e: nat)
    ensures
        e % 2 == 0 ==> pow(c, e) == pow(c * c, (e / 2) as nat),
        e % 2 == 1 ==> pow(c, e) == c * pow(c * c, (e / 2) as nat),
{
    let h = (e / 2) as nat;
    lemma_square_is_pow2(c);
    lemma_pow_multiplies(c, 2, h);
    lemma_fundamental_div_mod(e as int, 2);
    assert(pow(c, (2 * h) as nat) == pow(c * c, h));
    if e % 2 == 0 {
        assert(e == 2 * h);
    } else {
        assert(e == 2 * h + 1);
        lemma_pow_adds(c, (2 * h) as nat, 1);
        lemma_pow1(c);
        assert(pow(c, e) == pow(c, (2 * h) as nat) * c);
    }
}

/// Repeated modular self-multiplication: `e` factors of `a`, each product
/// reduced modulo `m`.
pub open spec fn repeat_mul(a: int, e: nat, m: int) -> int
    decreases e,
{
    if e == 0 {
        1int % m
    } else {
        (repeat_mul(a, (e - 1) as nat, m) * a) % m
    }
}

/// Exponentiation agrees with repeated self-multiplication: the reduced
/// power `pow(a, e) % m` that `ModInt::pow` returns is exactly `e`
/// successive modular multiplications by `a`.
pub proof fn lemma_pow_is_repeated_mul(a: int, e: nat, m: int)
    requires
        m >= 1,
    ensures
        repeat_mul(a, e, m) == pow(a, e) % m,
    decreases e,
{
    if e == 0 {
        lemma_pow0(a);
    } else {
        lemma_pow_is_repeated_mul(a, (e - 1) as nat, m);
        lemma_mul_mod_noop_left(pow(a, (e - 1) as nat), a, m);
        assert(pow(a, e) == pow(a, (e - 1) as nat) * a) by {
            lemma_pow_adds(a, (e - 1) as nat, 1);
            lemma_pow1(a);
        }
    }
}

/// The ring laws of modular reduction: addition, subtraction and
/// multiplication may be reduced before or after combining, with the same
/// result.
pub proof fn lemma_mod_ring_laws(a: int, b: int, m: int)
    requires
        m >= 1,
    ensures
        (a + b) % m == ((a % m) + (b % m)) % m,
        (a - b) % m == ((a % m) - (b % m)) % m,
        (a * b) % m == ((a % m) * (b % m)) % m,
{
    vstd::arithmetic::div_mod::lemma_add_mod_noop(a, b, m);
    vstd::arithmetic::div_mod::lemma_sub_mod_noop(a, b, m);
    vstd::arithmetic::div_mod::lemma_mul_mod_noop(a, b, m);
}

} // verus!
