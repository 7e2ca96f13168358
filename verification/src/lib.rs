//! Verified building blocks for competitive-programming mathematics:
//! modular arithmetic, polynomial (formal power series) arithmetic, and
//! integer-theoretic utilities (gcd, extended gcd, factorization), together
//! with the small algebraic trait scaffolding they share.

use vstd::prelude::*;

pub mod algebraic;
pub mod fermat;
pub mod field;
pub mod graph;
pub mod group;
pub mod integer;
pub mod math;
pub mod matrix;
pub mod minmax;
pub mod mod_int;
pub mod ring;
pub mod tropical;
pub mod unipoly;
pub mod zmod;
pub mod zz;

verus! {

/// The error conditions that the library's fallible operations report.
#[derive(Clone, Copy, Debug, PartialEq, Eq, Structural)]
pub enum AlgebraError {
    /// Polynomial division was asked for with a divisor whose leading
    /// coefficient is not one.
    DivisorNotMonic,
    /// The operation is declared but deliberately unsupported.
    Unimplemented,
}

} // verus!
