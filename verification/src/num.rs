//! Arbitrary-precision integers, as provided by `malachite_bigint`.
//!
//! Verus cannot look inside a `BigInt`, so the mathematical integer that a
//! value stands for is given by [`int_of`], and each operation used by the
//! rest of the crate is stated over it.

use malachite_bigint::BigInt;
use vstd::prelude::*;

verus! {

/// `malachite_bigint::BigInt`, declared so that it can stand in signatures
/// and fields. Nothing is claimed of what a value holds.
#[verifier::external_type_specification]
#[verifier::external_body]
pub struct ExBigInt(malachite_bigint::BigInt);

/// The mathematical integer that a `BigInt` holds. Every operation of
/// `malachite_bigint` that this crate calls is stated over it.
pub uninterp spec fn int_of(x: BigInt) -> int;

/// The integers of a sequence of `BigInt`s, in order.
pub open spec fn ints_of(s: Seq<BigInt>) -> Seq<int> {
    s.map_values(|x: BigInt| int_of(x))
}

/// `BigInt::from(usize)`: the result holds exactly the given machine integer.
#[verifier::external_body]
pub(crate) fn big_from_usize(v: usize) -> (r: BigInt)
    ensures
        int_of(r) == v,
{
    BigInt::from(v)
}

/// `BigInt::clone`: the copy holds the same integer.
#[verifier::external_body]
pub(crate) fn big_clone(x: &BigInt) -> (r: BigInt)
    ensures
        int_of(r) == int_of(*x),
{
    x.clone()
}

/// `&BigInt + &BigInt`: exact integer addition.
#[verifier::external_body]
pub(crate) fn big_add(a: &BigInt, b: &BigInt) -> (r: BigInt)
    ensures
        int_of(r) == int_of(*a) + int_of(*b),
{
    a + b
}

/// `&BigInt - &BigInt`: exact integer subtraction.
#[verifier::external_body]
pub(crate) fn big_sub(a: &BigInt, b: &BigInt) -> (r: BigInt)
    ensures
        int_of(r) == int_of(*a) - int_of(*b),
{
    a - b
}

/// `&BigInt * &BigInt`: exact integer multiplication.
#[verifier::external_body]
pub(crate) fn big_mul(a: &BigInt, b: &BigInt) -> (r: BigInt)
    ensures
        int_of(r) == int_of(*a) * int_of(*b),
{
    a * b
}

/// Integer division that rounds towards zero.
pub open spec fn trunc_div(a: int, b: int) -> int
    recommends
        b != 0,
{
    if a >= 0 {
        if b > 0 {
            a / b
        } else {
            -(a / (-b))
        }
    } else {
        if b > 0 {
            -((-a) / b)
        } else {
            (-a) / (-b)
        }
    }
}

/// The remainder that goes with [`trunc_div`]; it has the sign of the dividend.
pub open spec fn trunc_rem(a: int, b: int) -> int
    recommends
        b != 0,
{
    a - trunc_div(a, b) * b
}

/// `&BigInt / &BigInt`: the quotient rounded towards zero. The call panics on
/// a zero divisor, which the precondition excludes.
#[verifier::external_body]
pub(crate) fn big_div(a: &BigInt, b: &BigInt) -> (r: BigInt)
    requires
        int_of(*b) != 0,
    ensures
        int_of(r) == trunc_div(int_of(*a), int_of(*b)),
{
    a / b
}

/// `&BigInt % &BigInt`: the remainder of the division rounded towards zero.
/// The call panics on a zero divisor, which the precondition excludes.
#[verifier::external_body]
pub(crate) fn big_rem(a: &BigInt, b: &BigInt) -> (r: BigInt)
    requires
        int_of(*b) != 0,
    ensures
        int_of(r) == trunc_rem(int_of(*a), int_of(*b)),
{
    a % b
}

/// `ToPrimitive::to_usize` on a `BigInt`: the integer as a `usize` when it
/// is in range, `None` otherwise.
#[verifier::external_body]
pub(crate) fn big_to_usize(x: &BigInt) -> (r: Option<usize>)
    ensures
        match r {
            Some(v) => v == int_of(*x),
            None => int_of(*x) < 0 || int_of(*x) > usize::MAX,
        },
{
    num_traits::ToPrimitive::to_usize(x)
}

/// `BigInt`'s `PartialOrd`: `a < b` as integers.
#[verifier::external_body]
pub(crate) fn big_lt(a: &BigInt, b: &BigInt) -> (r: bool)
    ensures
        r == (int_of(*a) < int_of(*b)),
{
    a < b
}

} // verus!
