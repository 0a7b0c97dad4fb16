//! The native field of the intermediate representation: BabyBear.

use vstd::prelude::*;
use p3_baby_bear::BabyBear;
use p3_field::{Field, PrimeCharacteristicRing, PrimeField32};

verus! {

/// The BabyBear prime, `15 * 2^27 + 1`.
pub const BABYBEAR_P: u32 = 0x78000001u32;

/// The canonical representative in `[0, p)` of the field element `n * 1`.
pub open spec fn felt_of_nat(n: nat) -> u32 {
    (n % (BABYBEAR_P as nat)) as u32
}

/// `BabyBear::from_usize` followed by `as_canonical_u32`: the field element that is the
/// sum of `n` copies of one, given by its canonical representative. The p3-field
/// documentation states that the output depends on `n mod p` only and equals `n * ONE`,
/// so its canonical value is `n mod p`.
#[verifier::external_body]
pub(crate) fn felt_from_usize(n: usize) -> (r: u32)
    ensures
        r == felt_of_nat(n as nat),
{
    BabyBear::from_usize(n).as_canonical_u32()
}

/// The inverse of two in the field, `(p + 1) / 2`.
pub open spec fn half() -> u32 {
    ((BABYBEAR_P as nat + 1) / 2) as u32
}

/// `BabyBear::TWO.inverse()` followed by `as_canonical_u32`: p3-field documents `inverse` as
/// the multiplicative inverse (panicking only on zero), and the inverse of two modulo `p` is
/// `(p + 1) / 2`.
#[verifier::external_body]
pub(crate) fn felt_half() -> (r: u32)
    ensures
        r == half(),
{
    BabyBear::TWO.inverse().as_canonical_u32()
}

} // verus!
