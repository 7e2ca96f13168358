//! Wrappers whose addition keeps the smaller or the larger value: the
//! idempotent monoids used to fold minima and maxima.

use vstd::prelude::*;

verus! {

/// A value combined by taking the minimum.
#[derive(Clone, Copy, Debug, PartialEq, Eq, Structural)]
pub struct Min(pub i64);

impl Min {
    /// The combination: the smaller of the two values.
    pub fn add(self, rhs: Self) -> (r: Self)
        ensures
            r.0 as int == vstd::math::min(self.0 as int, rhs.0 as int),
    {
        if self.0 <= rhs.0 {
            self
        } else {
            rhs
        }
    }

    /// In-place combination with the smaller value.
    pub fn add_assign(&mut self, rhs: Self)
        ensures
            final(self).0 as int == vstd::math::min(old(self).0 as int, rhs.0 as int),
    {
        if self.0 > rhs.0 {
            *self = rhs;
        }
    }
}

/// A value combined by taking the maximum.
#[derive(Clone, Copy, Debug, PartialEq, Eq, Structural)]
pub struct Max(pub i64);

impl Max {
    /// The combination: the larger of the two values.
    pub fn add(self, rhs: Self) -> (r: Self)
        ensures
            r.0 as int == vstd::math::max(self.0 as int, rhs.0 as int),
    {
        if self.0 >= rhs.0 {
            self
        } else {
            rhs
        }
    }

    /// In-place combination with the larger value.
    pub fn add_assign(&mut self, rhs: Self)
        ensures
            final(self).0 as int == vstd::math::max(old(self).0 as int, rhs.0 as int),
    {
        if self.0 < rhs.0 {
            *self = rhs;
        }
    }
}

} // verus!
