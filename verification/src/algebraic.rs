//! Algebraic capability traits: additive and multiplicative identities and
//! scalar operations, with the implementations for the primitive integers.

use vstd::prelude::*;

verus! {

/// A type with an additive identity.
pub trait Zero: Sized {
    /// Whether a value is the additive identity.
    spec fn is_zero_spec(&self) -> bool;

    fn zero() -> (r: Self)
        ensures
            r.is_zero_spec(),
    ;

    fn is_zero(&self) -> (r: bool)
        ensures
            r == self.is_zero_spec(),
    ;
}

/// A type with a multiplicative identity.
pub trait One: Sized {
    /// Whether a value is the multiplicative identity.
    spec fn is_one_spec(&self) -> bool;

    fn one() -> (r: Self)
        ensures
            r.is_one_spec(),
    ;
}

/// The additive identity of `T`.
pub fn zero<T: Zero>() -> (r: T)
    ensures
        r.is_zero_spec(),
{
    T::zero()
}

/// The multiplicative identity of `T`.
pub fn one<T: One>() -> (r: T)
    ensures
        r.is_one_spec(),
{
    T::one()
}

/// Multiplication by a non-negative count (repeated addition).
pub trait ScalarMul: Sized {
    /// The inputs on which the scaled value is representable.
    spec fn scalar_mul_req(&self, e: nat) -> bool;

    /// What the scaled value is.
    spec fn scalar_mul_post(&self, e: nat, r: &Self) -> bool;

    fn scalar_mul(&self, e: usize) -> (r: Self)
        requires
            self.scalar_mul_req(e as nat),
        ensures
            self.scalar_mul_post(e as nat, &r),
    ;
}

/// Exponentiation by a non-negative count (repeated multiplication).
pub trait ScalarPow: Sized {
    /// The inputs on which every intermediate of the computation is
    /// representable.
    spec fn scalar_pow_req(&self, e: nat) -> bool;

    /// What the power is.
    spec fn scalar_pow_post(&self, e: nat, r: &Self) -> bool;

    fn scalar_pow(&self, e: usize) -> (r: Self)
        requires
            self.scalar_pow_req(e as nat),
        ensures
            self.scalar_pow_post(e as nat, &r),
    ;
}

/// A monoid `F` acting on a monoid `S`.
pub trait MapMonoid<S, F> {
    fn mapping(f: &F, x: &S) -> S;
}

impl Zero for u8 {
    open spec fn is_zero_spec(&self) -> bool {
        *self == 0
    }

    fn zero() -> (r: Self) {
        0
    }

    fn is_zero(&self) -> (r: bool) {
        *self == 0
    }
}

impl One for u8 {
    open spec fn is_one_spec(&self) -> bool {
        *self == 1
    }

    fn one() -> (r: Self) {
        1
    }
}

impl ScalarMul for u8 {
    open spec fn scalar_mul_req(&self, e: nat) -> bool {
        e <= u8::MAX && u8::MIN <= *self * e <= u8::MAX
    }

    open spec fn scalar_mul_post(&self, e: nat, r: &Self) -> bool {
        *r == *self * e
    }

    fn scalar_mul(&self, e: usize) -> (r: Self) {
        *self * (e as u8)
    }
}


impl Zero for u16 {
    open spec fn is_zero_spec(&self) -> bool {
        *self == 0
    }

    fn zero() -> (r: Self) {
        0
    }

    fn is_zero(&self) -> (r: bool) {
        *self == 0
    }
}

impl One for u16 {
    open spec fn is_one_spec(&self) -> bool {
        *self == 1
    }

    fn one() -> (r: Self) {
        1
    }
}

impl ScalarMul for u16 {
    open spec fn scalar_mul_req(&self, e: nat) -> bool {
        e <= u16::MAX && u16::MIN <= *self * e <= u16::MAX
    }

    open spec fn scalar_mul_post(&self, e: nat, r: &Self) -> bool {
        *r == *self * e
    }

    fn scalar_mul(&self, e: usize) -> (r: Self) {
        *self * (e as u16)
    }
}


impl Zero for u32 {
    open spec fn is_zero_spec(&self) -> bool {
        *self == 0
    }

    fn zero() -> (r: Self) {
        0
    }

    fn is_zero(&self) -> (r: bool) {
        *self == 0
    }
}

impl One for u32 {
    open spec fn is_one_spec(&self) -> bool {
        *self == 1
    }

    fn one() -> (r: Self) {
        1
    }
}

impl ScalarMul for u32 {
    open spec fn scalar_mul_req(&self, e: nat) -> bool {
        e <= u32::MAX && u32::MIN <= *self * e <= u32::MAX
    }

    open spec fn scalar_mul_post(&self, e: nat, r: &Self) -> bool {
        *r == *self * e
    }

    fn scalar_mul(&self, e: usize) -> (r: Self) {
        *self * (e as u32)
    }
}


impl Zero for u64 {
    open spec fn is_zero_spec(&self) -> bool {
        *self == 0
    }

    fn zero() -> (r: Self) {
        0
    }

    fn is_zero(&self) -> (r: bool) {
        *self == 0
    }
}

impl One for u64 {
    open spec fn is_one_spec(&self) -> bool {
        *self == 1
    }

    fn one() -> (r: Self) {
        1
    }
}

impl ScalarMul for u64 {
    open spec fn scalar_mul_req(&self, e: nat) -> bool {
        e <= u64::MAX && u64::MIN <= *self * e <= u64::MAX
    }

    open spec fn scalar_mul_post(&self, e: nat, r: &Self) -> bool {
        *r == *self * e
    }

    fn scalar_mul(&self, e: usize) -> (r: Self) {
        *self * (e as u64)
    }
}


impl Zero for u128 {
    open spec fn is_zero_spec(&self) -> bool {
        *self == 0
    }

    fn zero() -> (r: Self) {
        0
    }

    fn is_zero(&self) -> (r: bool) {
        *self == 0
    }
}

impl One for u128 {
    open spec fn is_one_spec(&self) -> bool {
        *self == 1
    }

    fn one() -> (r: Self) {
        1
    }
}

impl ScalarMul for u128 {
    open spec fn scalar_mul_req(&self, e: nat) -> bool {
        e <= u128::MAX && u128::MIN <= *self * e <= u128::MAX
    }

    open spec fn scalar_mul_post(&self, e: nat, r: &Self) -> bool {
        *r == *self * e
    }

    fn scalar_mul(&self, e: usize) -> (r: Self) {
        *self * (e as u128)
    }
}


impl Zero for usize {
    open spec fn is_zero_spec(&self) -> bool {
        *self == 0
    }

    fn zero() -> (r: Self) {
        0
    }

    fn is_zero(&self) -> (r: bool) {
        *self == 0
    }
}

impl One for usize {
    open spec fn is_one_spec(&self) -> bool {
        *self == 1
    }

    fn one() -> (r: Self) {
        1
    }
}

impl ScalarMul for usize {
    open spec fn scalar_mul_req(&self, e: nat) -> bool {
        e <= usize::MAX && usize::MIN <= *self * e <= usize::MAX
    }

    open spec fn scalar_mul_post(&self, e: nat, r: &Self) -> bool {
        *r == *self * e
    }

    fn scalar_mul(&self, e: usize) -> (r: Self) {
        *self * (e as usize)
    }
}


impl Zero for i8 {
    open spec fn is_zero_spec(&self) -> bool {
        *self == 0
    }

    fn zero() -> (r: Self) {
        0
    }

    fn is_zero(&self) -> (r: bool) {
        *self == 0
    }
}

impl One for i8 {
    open spec fn is_one_spec(&self) -> bool {
        *self == 1
    }

    fn one() -> (r: Self) {
        1
    }
}

impl ScalarMul for i8 {
    open spec fn scalar_mul_req(&self, e: nat) -> bool {
        e <= i8::MAX && i8::MIN <= *self * e <= i8::MAX
    }

    open spec fn scalar_mul_post(&self, e: nat, r: &Self) -> bool {
        *r == *self * e
    }

    fn scalar_mul(&self, e: usize) -> (r: Self) {
        *self * (e as i8)
    }
}


impl Zero for i16 {
    open spec fn is_zero_spec(&self) -> bool {
        *self == 0
    }

    fn zero() -> (r: Self) {
        0
    }

    fn is_zero(&self) -> (r: bool) {
        *self == 0
    }
}

impl One for i16 {
    open spec fn is_one_spec(&self) -> bool {
        *self == 1
    }

    fn one() -> (r: Self) {
        1
    }
}

impl ScalarMul for i16 {
    open spec fn scalar_mul_req(&self, e: nat) -> bool {
        e <= i16::MAX && i16::MIN <= *self * e <= i16::MAX
    }

    open spec fn scalar_mul_post(&self, e: nat, r: &Self) -> bool {
        *r == *self * e
    }

    fn scalar_mul(&self, e: usize) -> (r: Self) {
        *self * (e as i16)
    }
}


impl Zero for i32 {
    open spec fn is_zero_spec(&self) -> bool {
        *self == 0
    }

    fn zero() -> (r: Self) {
        0
    }

    fn is_zero(&self) -> (r: bool) {
        *self == 0
    }
}

impl One for i32 {
    open spec fn is_one_spec(&self) -> bool {
        *self == 1
    }

    fn one() -> (r: Self) {
        1
    }
}

impl ScalarMul for i32 {
    open spec fn scalar_mul_req(&self, e: nat) -> bool {
        e <= i32::MAX && i32::MIN <= *self * e <= i32::MAX
    }

    open spec fn scalar_mul_post(&self, e: nat, r: &Self) -> bool {
        *r == *self * e
    }

    fn scalar_mul(&self, e: usize) -> (r: Self) {
        *self * (e as i32)
    }
}


impl Zero for i64 {
    open spec fn is_zero_spec(&self) -> bool {
        *self == 0
    }

    fn zero() -> (r: Self) {
        0
    }

    fn is_zero(&self) -> (r: bool) {
        *self == 0
    }
}

impl One for i64 {
    open spec fn is_one_spec(&self) -> bool {
        *self == 1
    }

    fn one() -> (r: Self) {
        1
    }
}

impl ScalarMul for i64 {
    open spec fn scalar_mul_req(&self, e: nat) -> bool {
        e <= i64::MAX && i64::MIN <= *self * e <= i64::MAX
    }

    open spec fn scalar_mul_post(&self, e: nat, r: &Self) -> bool {
        *r == *self * e
    }

    fn scalar_mul(&self, e: usize) -> (r: Self) {
        *self * (e as i64)
    }
}


impl Zero for i128 {
    open spec fn is_zero_spec(&self) -> bool {
        *self == 0
    }

    fn zero() -> (r: Self) {
        0
    }

    fn is_zero(&self) -> (r: bool) {
        *self == 0
    }
}

impl One for i128 {
    open spec fn is_one_spec(&self) -> bool {
        *self == 1
    }

    fn one() -> (r: Self) {
        1
    }
}

impl ScalarMul for i128 {
    open spec fn scalar_mul_req(&self, e: nat) -> bool {
        e <= i128::MAX && i128::MIN <= *self * e <= i128::MAX
    }

    open spec fn scalar_mul_post(&self, e: nat, r: &Self) -> bool {
        *r == *self * e
    }

    fn scalar_mul(&self, e: usize) -> (r: Self) {
        *self * (e as i128)
    }
}


impl Zero for isize {
    open spec fn is_zero_spec(&self) -> bool {
        *self == 0
    }

    fn zero() -> (r: Self) {
        0
    }

    fn is_zero(&self) -> (r: bool) {
        *self == 0
    }
}

impl One for isize {
    open spec fn is_one_spec(&self) -> bool {
        *self == 1
    }

    fn one() -> (r: Self) {
        1
    }
}

impl ScalarMul for isize {
    open spec fn scalar_mul_req(&self, e: nat) -> bool {
        e <= isize::MAX && isize::MIN <= *self * e <= isize::MAX
    }

    open spec fn scalar_mul_post(&self, e: nat, r: &Self) -> bool {
        *r == *self * e
    }

    fn scalar_mul(&self, e: usize) -> (r: Self) {
        *self * (e as isize)
    }
}

} // verus!
