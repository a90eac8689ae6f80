//! The algebraic core of a FRI low-degree test: exact arithmetic over a large
//! prime field with dense polynomial algebra, a number-theoretic transform
//! over root-of-unity domains, and the recursive domain-folding recurrence.

use vstd::prelude::*;

pub mod bignum;
pub mod fft;
pub mod fri;
pub mod modular;
pub mod poly;
pub mod prime_field;

verus! {

/// The failures an operation of this crate can report.
///
/// They are local and deterministic: the same inputs always fail the same way.
#[derive(Clone, Copy, Debug, PartialEq, Eq, Structural)]
pub enum FriError {
    /// Inversion or division by the zero residue, or by one with no inverse.
    DivisionByZero,
    /// A length or ordering precondition on the operands does not hold.
    InvalidInput,
    /// A supplied generator does not return to `1` within the iteration
    /// bound, or its order does not fit the requested transform.
    InvalidDomain,
}

} // verus!
