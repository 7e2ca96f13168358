//! Tropical semirings over machine integers: addition takes an extremum
//! and multiplication adds, with a far-out sentinel as the additive
//! identity standing for infinity.

use vstd::prelude::*;

verus! {

/// The magnitude of the tropical infinities.
pub const TROPICAL_INFINITY: i64 = 0x1000_0000_0000_0000;

/// The (max, +) semiring: addition is the maximum, multiplication is the
/// sum, and minus infinity is the additive identity.
#[derive(Clone, Copy, Debug, PartialEq, Eq, Structural)]
pub struct MaxPlusSemiring(i64);

impl MaxPlusSemiring {
    /// The value held.
    pub closed spec fn val(&self) -> int {
        self.0 as int
    }

    /// Wraps a machine integer.
    pub fn new(v: i64) -> (r: Self)
        ensures
            r.val() == v as int,
    {
        MaxPlusSemiring(v)
    }

    /// The value held, as a machine integer.
    pub fn value(&self) -> (r: i64)
        ensures
            r as int == self.val(),
    {
        self.0
    }

    /// The additive identity: minus infinity.
    pub fn zero() -> (r: Self)
        ensures
            r.val() == -TROPICAL_INFINITY,
    {
        MaxPlusSemiring(-TROPICAL_INFINITY)
    }

    /// Whether the value acts as the additive identity.
    pub fn is_zero(&self) -> (r: bool)
        ensures
            r == (self.val() <= -TROPICAL_INFINITY),
    {
        self.0 <= -TROPICAL_INFINITY
    }

    /// The multiplicative identity: zero.
    pub fn one() -> (r: Self)
        ensures
            r.val() == 0,
    {
        MaxPlusSemiring(0)
    }

    /// Tropical addition: the maximum.
    pub fn add(self, rhs: Self) -> (r: Self)
        ensures
            r.val() == vstd::math::max(self.val(), rhs.val()),
    {
        if self.0 >= rhs.0 {
            self
        } else {
            rhs
        }
    }

    /// Tropical multiplication: the sum.
    pub fn mul(self, rhs: Self) -> (r: Self)
        requires
            i64::MIN <= self.val() + rhs.val() <= i64::MAX,
        ensures
            r.val() == self.val() + rhs.val(),
    {
        MaxPlusSemiring(self.0 + rhs.0)
    }
}

/// The (min, +) semiring: addition is the minimum, multiplication is the
/// sum, and plus infinity is the additive identity.
#[derive(Clone, Copy, Debug, PartialEq, Eq, Structural)]
pub struct MinPlusSemiring(i64);

impl MinPlusSemiring {
    /// The value held.
    pub closed spec fn val(&self) -> int {
        self.0 as int
    }

    /// Wraps a machine integer.
    pub fn new(v: i64) -> (r: Self)
        ensures
            r.val() == v as int,
    {
        MinPlusSemiring(v)
    }

    /// The value held, as a machine integer.
    pub fn value(&self) -> (r: i64)
        ensures
            r as int == self.val(),
    {
        self.0
    }

    /// The additive identity: plus infinity.
    pub fn zero() -> (r: Self)
        ensures
            r.val() == TROPICAL_INFINITY,
    {
        MinPlusSemiring(TROPICAL_INFINITY)
    }

    /// Whether the value acts as the additive identity.
    pub fn is_zero(&self) -> (r: bool)
        ensures
            r == (self.val() >= TROPICAL_INFINITY),
    {
        self.0 >= TROPICAL_INFINITY
    }

    /// The multiplicative identity: zero.
    pub fn one() -> (r: Self)
        ensures
            r.val() == 0,
    {
        MinPlusSemiring(0)
    }

    /// Tropical addition: the minimum.
    pub fn add(self, rhs: Self) -> (r: Self)
        ensures
            r.val() == vstd::math::min(self.val(), rhs.val()),
    {
        if self.0 <= rhs.0 {
            self
        } else {
            rhs
        }
    }

    /// Tropical multiplication: the sum.
    pub fn mul(self, rhs: Self) -> (r: Self)
        requires
            i64::MIN <= self.val() + rhs.val() <= i64::MAX,
        ensures
            r.val() == self.val() + rhs.val(),
    {
        MinPlusSemiring(self.0 + rhs.0)
    }
}

} // verus!
