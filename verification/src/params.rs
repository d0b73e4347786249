//! The parameters of a set: the number of elements `n` that it is made
//! for, and the exponent `p` of its false-positive rate `1 / 2^p`.

use crate::golomb::power_of_two;
use crate::golomb::valid_exponent;
use crate::hash::modulus;
use vstd::prelude::*;

verus! {

/// The parameters that a set can have: room for at least one element, an
/// exponent of at least 1, and every fingerprint below `n * 2^p` within 64
/// bits.
pub open spec fn valid_parameters(n: nat, p: nat) -> bool {
    &&& n >= 1
    &&& valid_exponent(p)
    &&& modulus(n, p) <= u64::MAX
}

/// Whether a set can be made with `n` and `p`.
pub fn parameters_valid(n: usize, p: u8) -> (valid: bool)
    ensures
        valid == valid_parameters(n as nat, p as nat),
{
    if n < 1 || p < 1 || p > 63 {
        return false;
    }
    (n as u64).checked_mul(power_of_two(p)).is_some()
}

} // verus!
