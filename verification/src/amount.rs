use rustc_apfloat::Float;
use vstd::prelude::*;

verus! {

/// An IEEE 754 binary64 value carried as its bit pattern.
///
/// The library never interprets the bits itself: amounts flow through
/// schedules and discount terms unchanged, and the one arithmetic step a
/// schedule needs (adding coupon and principal) goes through a software
/// implementation of the same IEEE addition the host performs. Callers
/// convert to and from their native binary64 type at the boundary.
#[derive(Clone, Copy, PartialEq, Eq, Structural, Debug)]
pub struct Amount {
    pub bits: u64,
}

/// The bit pattern of the IEEE 754 binary64 sum (rounded to nearest, ties to
/// even) of the two operand bit patterns.
pub uninterp spec fn fadd_bits(a: u64, b: u64) -> u64;

impl Amount {
    /// Wraps a binary64 bit pattern.
    pub fn from_bits(bits: u64) -> (r: Amount)
        ensures
            r.bits == bits,
    {
        Amount { bits }
    }
}

/// Relies on rustc_apfloat's `Double`: `from_bits`, `+` (which rounds to
/// nearest, ties to even) and `to_bits` compute the IEEE binary64 sum of the
/// two operand bit patterns, a function of the two arguments alone.
#[verifier::external_body]
pub(crate) fn amount_add(a: Amount, b: Amount) -> (r: Amount)
    ensures
        r.bits == fadd_bits(a.bits, b.bits),
{
    let x = rustc_apfloat::ieee::Double::from_bits(a.bits as u128);
    let y = rustc_apfloat::ieee::Double::from_bits(b.bits as u128);
    Amount { bits: (x + y).value.to_bits() as u64 }
}

} // verus!
