//! Field capabilities: the marker for division rings and the operations a
//! finite field element offers.

use vstd::prelude::*;

verus! {

/// A commutative ring in which every non-zero element is invertible.
pub trait Field: Sized {
    fn inv(self) -> Self;
}

/// An element of a finite field of prime-power order.
pub trait Fq: Sized {
    fn inv(self) -> Self;

    fn square_root(self) -> Self;
}

} // verus!
