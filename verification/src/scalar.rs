//! The value type of the store: the arbitrary-precision integer of the
//! `substreams` crate, together with what the store assumes of it.

use substreams::scalar::BigInt;
use vstd::prelude::*;

verus! {

/// `substreams::scalar::BigInt`, carried through the store as an opaque value.
#[verifier::external_type_specification]
#[verifier::external_body]
pub struct ExBigInt(substreams::scalar::BigInt);

/// The mathematical integer that a `BigInt` denotes.
///
/// It has no definition here, since the representation belongs to the
/// outside crate. All that is known of it is what the two functions at the
/// end of this file assume: addition adds it and copying keeps it.
pub uninterp spec fn big_int_value(n: BigInt) -> int;

/// The integer denoted by an optional `BigInt`, if there is one.
pub open spec fn optional_value(n: Option<BigInt>) -> Option<int> {
    match n {
        Some(n) => Some(big_int_value(n)),
        None => None,
    }
}

/// The integers denoted by a list of `BigInt`s, in order.
pub open spec fn values_of(items: Seq<BigInt>) -> Seq<int> {
    items.map_values(|n: BigInt| big_int_value(n))
}

/// Adds two integers with `<BigInt as Add<BigInt>>::add`.
///
/// Assumed, not proved: the result denotes the sum of the integers that the
/// operands denote. The operator forwards to the addition of `num_bigint`,
/// which is exact integer addition.
#[verifier::external_body]
pub(crate) fn big_int_sum(a: BigInt, b: BigInt) -> (r: BigInt)
    ensures
        big_int_value(r) == big_int_value(a) + big_int_value(b),
{
    a + b
}

/// Copies an integer with `<BigInt as Clone>::clone`.
///
/// Assumed, not proved: the copy denotes the same integer as the original.
#[verifier::external_body]
pub(crate) fn big_int_copy(n: &BigInt) -> (r: BigInt)
    ensures
        big_int_value(r) == big_int_value(*n),
{
    n.clone()
}

} // verus!
