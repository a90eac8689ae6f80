//! Trusted boundary to `num_bigint`: arbitrary-precision unsigned integers.
//!
//! Every value of the field is carried at run time by a `num_bigint::BigUint`.
//! The spec function `big` names the number such a value holds; the wrappers
//! below state what each `num_bigint` operation does to that number, and the
//! rest of the crate is verified against these contracts.

use vstd::prelude::*;
use num_bigint::BigUint;

verus! {

#[verifier::external_type_specification]
#[verifier::external_body]
pub struct ExBigUint(BigUint);

/// The number held by an arbitrary-precision unsigned integer.
///
/// `num_bigint` keeps exactly one representation per number (limbs are
/// normalized), so equal numbers mean equal values and the wrappers below may
/// state equality of `big` both ways.
pub uninterp spec fn big(b: BigUint) -> nat;

/// The numbers held by a sequence of big integers, elementwise.
pub open spec fn deep(s: Seq<BigUint>) -> Seq<nat> {
    s.map_values(|b: BigUint| big(b))
}

/// The elementwise view indexes as the element's view.
pub proof fn lemma_deep_index(s: Seq<BigUint>, i: int)
    requires
        0 <= i < s.len(),
    ensures
        deep(s)[i] == big(s[i]),
{
}

/// Relies on `<BigUint as From<u64>>::from`: the big integer with the value of
/// the given machine word.
#[verifier::external_body]
pub fn big_from_u64(x: u64) -> (r: BigUint)
    ensures
        big(r) == x as nat,
{
    BigUint::from(x)
}

/// Relies on `<BigUint as Clone>::clone`: the copy holds the same number.
#[verifier::external_body]
pub fn big_clone(a: &BigUint) -> (r: BigUint)
    ensures
        big(r) == big(*a),
{
    a.clone()
}

/// Relies on `<&BigUint as Add>::add`: exact sum, no overflow.
#[verifier::external_body]
pub fn big_add(a: &BigUint, b: &BigUint) -> (r: BigUint)
    ensures
        big(r) == big(*a) + big(*b),
{
    a + b
}

/// Relies on `<&BigUint as Sub>::sub`: exact difference. The subtrahend must
/// not exceed the minuend, since `BigUint` subtraction panics below zero.
#[verifier::external_body]
pub fn big_sub(a: &BigUint, b: &BigUint) -> (r: BigUint)
    requires
        big(*b) <= big(*a),
    ensures
        big(r) == big(*a) - big(*b),
{
    a - b
}

/// Relies on `<&BigUint as Mul>::mul`: exact product, no overflow.
#[verifier::external_body]
pub fn big_mul(a: &BigUint, b: &BigUint) -> (r: BigUint)
    ensures
        big(r) == big(*a) * big(*b),
{
    a * b
}

/// Relies on `<&BigUint as Div>::div`: Euclidean quotient, rounded toward
/// zero, which on unsigned values is the floor that `nat` division takes.
/// Division by zero panics, so a positive divisor is required.
#[verifier::external_body]
pub fn big_div(a: &BigUint, b: &BigUint) -> (r: BigUint)
    requires
        big(*b) > 0,
    ensures
        big(r) == big(*a) / big(*b),
{
    a / b
}

/// Relies on `<&BigUint as Rem>::rem`: Euclidean remainder, in `[0, b)`.
/// Division by zero panics, so a positive divisor is required.
#[verifier::external_body]
pub fn big_mod(a: &BigUint, b: &BigUint) -> (r: BigUint)
    requires
        big(*b) > 0,
    ensures
        big(r) == big(*a) % big(*b),
        big(r) < big(*b),
{
    a % b
}

/// Relies on `<BigUint as PartialEq>::eq`: value equality. `num_bigint` keeps
/// one normalized representation per number, so equality of values and
/// equality of the numbers they hold coincide.
#[verifier::external_body]
pub fn big_eq(a: &BigUint, b: &BigUint) -> (r: bool)
    ensures
        r <==> big(*a) == big(*b),
{
    a == b
}

} // verus!
