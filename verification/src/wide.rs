//! 256-bit unsigned arithmetic, for products of two 128-bit values.
//!
//! The arithmetic itself is `primitive_types::U256`'s; a value is carried
//! here as its four 64-bit limbs, least significant first.

use vstd::prelude::*;
use primitive_types::U256;
use core::convert::TryFrom;

verus! {

/// Two to the power 64.
pub open spec fn limb_base() -> nat {
    0x1_0000_0000_0000_0000nat
}

/// A 256-bit unsigned integer, least significant limb first.
#[derive(Clone, Copy)]
pub struct Wide {
    pub limbs: [u64; 4],
}

impl Wide {
    /// The number that the limbs stand for.
    pub open spec fn value(self) -> nat {
        self.limbs@[0] as nat + limb_base() * (self.limbs@[1] as nat + limb_base() * (
        self.limbs@[2] as nat + limb_base() * self.limbs@[3] as nat))
    }
}

/// Two to the power 128.
pub open spec fn u128_bound() -> nat {
    0x1_0000_0000_0000_0000_0000_0000_0000_0000nat
}

/// Two to the power 256.
pub open spec fn u256_bound() -> nat {
    u128_bound() * u128_bound()
}

/// `U256::from(u128)`: the 256-bit integer equal to `x`.
#[verifier::external_body]
pub(crate) fn wide_from_u128(x: u128) -> (r: Wide)
    ensures
        r.value() == x,
{
    Wide { limbs: U256::from(x).0 }
}

/// `U256 * U256`, which panics when the product does not fit in 256 bits:
/// the exact product.
#[verifier::external_body]
pub(crate) fn wide_mul(a: Wide, b: Wide) -> (r: Wide)
    requires
        a.value() * b.value() < u256_bound(),
    ensures
        r.value() == a.value() * b.value(),
{
    Wide { limbs: (U256(a.limbs) * U256(b.limbs)).0 }
}

/// `U256 / U256`, which panics on a zero divisor: the quotient rounded down.
#[verifier::external_body]
pub(crate) fn wide_div(a: Wide, b: Wide) -> (r: Wide)
    requires
        b.value() != 0,
    ensures
        r.value() == a.value() / b.value(),
{
    Wide { limbs: (U256(a.limbs) / U256(b.limbs)).0 }
}

/// `u128::try_from(U256)`: the same number when it fits in 128 bits, an
/// error otherwise.
#[verifier::external_body]
pub(crate) fn wide_to_u128(a: Wide) -> (r: Result<u128, &'static str>)
    ensures
        a.value() < u128_bound() <==> r is Ok,
        r matches Ok(v) ==> v == a.value(),
{
    u128::try_from(U256(a.limbs))
}

/// `U256 == U256`: whether the two numbers are equal.
#[verifier::external_body]
pub(crate) fn wide_eq(a: Wide, b: Wide) -> (r: bool)
    ensures
        r == (a.value() == b.value()),
{
    U256(a.limbs) == U256(b.limbs)
}

/// `U256 > U256`: whether the first number is the greater.
#[verifier::external_body]
pub(crate) fn wide_gt(a: Wide, b: Wide) -> (r: bool)
    ensures
        r == (a.value() > b.value()),
{
    U256(a.limbs) > U256(b.limbs)
}

} // verus!
