//! Abstract interfaces for the additive and multiplicative structure of a
//! carrier type, stated as plain operation sets for users to implement.

use vstd::prelude::*;

verus! {

/// Which laws an implementation claims; `None` stands for unknown.
pub trait Status {
    fn add_associativity() -> Option<bool>;

    fn add_commutativity() -> Option<bool>;

    fn distributivity() -> Option<bool>;

    fn mul_associativity() -> Option<bool>;

    fn mul_commutativity() -> Option<bool>;
}

/// A monoid: a closed, associative addition with an identity.
pub trait Monoid: Sized {
    fn zero() -> Self;

    fn add(lhs: Self, rhs: Self) -> Self;
}

/// A group: a monoid with negation.
pub trait Group: Sized {
    fn zero() -> Self;

    fn add(lhs: Self, rhs: Self) -> Self;

    fn neg(num: Self) -> Self;
}

/// A semiring: a commutative additive monoid and a multiplicative monoid.
pub trait SemiRing: Sized {
    fn zero() -> Self;

    fn add(lhs: Self, rhs: Self) -> Self;

    fn one() -> Self;

    fn mul(lhs: Self, rhs: Self) -> Self;
}

/// A ring: an abelian additive group and a multiplicative monoid.
pub trait Ring: Sized {
    fn zero() -> Self;

    fn add(lhs: Self, rhs: Self) -> Self;

    fn neg(num: Self) -> Self;

    fn one() -> Self;

    fn mul(lhs: Self, rhs: Self) -> Self;
}

/// A field: a ring with multiplicative inverses.
pub trait Field: Sized {
    fn zero() -> Self;

    fn add(lhs: Self, rhs: Self) -> Self;

    fn neg(num: Self) -> Self;

    fn one() -> Self;

    fn mul(lhs: Self, rhs: Self) -> Self;

    fn inv(num: Self) -> Self;
}

/// The (max, +) semiring over a named field, as a standalone value type.
#[derive(Clone, Copy, Debug, PartialEq, Eq, Structural)]
pub struct MaxPlusSemiRing {
    pub num: i64,
}

impl MaxPlusSemiRing {
    /// The additive identity: minus infinity.
    pub fn zero() -> (r: Self)
        ensures
            r.num == -0x1000_0000_0000_0000i64,
    {
        MaxPlusSemiRing { num: -0x1000_0000_0000_0000 }
    }

    /// Tropical addition: the maximum.
    pub fn add(lhs: Self, rhs: Self) -> (r: Self)
        ensures
            r.num as int == vstd::math::max(lhs.num as int, rhs.num as int),
    {
        if lhs.num >= rhs.num {
            lhs
        } else {
            rhs
        }
    }

    /// The multiplicative identity: zero.
    pub fn one() -> (r: Self)
        ensures
            r.num == 0,
    {
        MaxPlusSemiRing { num: 0 }
    }

    /// Tropical multiplication: the sum.
    pub fn mul(lhs: Self, rhs: Self) -> (r: Self)
        requires
            i64::MIN <= lhs.num + rhs.num <= i64::MAX,
        ensures
            r.num as int == lhs.num + rhs.num,
    {
        MaxPlusSemiRing { num: lhs.num + rhs.num }
    }
}

/// The (min, +) semiring over a named field, as a standalone value type.
#[derive(Clone, Copy, Debug, PartialEq, Eq, Structural)]
pub struct MinPlusSemiRing {
    pub num: i64,
}

impl MinPlusSemiRing {
    /// The additive identity: plus infinity.
    pub fn zero() -> (r: Self)
        ensures
            r.num == 0x1000_0000_0000_0000i64,
    {
        MinPlusSemiRing { num: 0x1000_0000_0000_0000 }
    }

    /// Tropical addition: the minimum.
    pub fn add(lhs: Self, rhs: Self) -> (r: Self)
        ensures
            r.num as int == vstd::math::min(lhs.num as int, rhs.num as int),
    {
        if lhs.num <= rhs.num {
            lhs
        } else {
            rhs
        }
    }

    /// The multiplicative identity: zero.
    pub fn one() -> (r: Self)
        ensures
            r.num == 0,
    {
        MinPlusSemiRing { num: 0 }
    }

    /// Tropical multiplication: the sum.
    pub fn mul(lhs: Self, rhs: Self) -> (r: Self)
        requires
            i64::MIN <= lhs.num + rhs.num <= i64::MAX,
        ensures
            r.num as int == lhs.num + rhs.num,
    {
        MinPlusSemiRing { num: lhs.num + rhs.num }
    }
}

} // verus!
