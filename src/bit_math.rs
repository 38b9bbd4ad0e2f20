//! Positions of the highest and the lowest set bit of a 256-bit number.

use crate::error::MathError;
use crate::u256::{leading_zeros, trailing_zeros, U256};
use vstd::arithmetic::power2::pow2;
use vstd::prelude::*;

verus! {

/// The index of the highest set bit of `x`: `2^i <= x < 2^(i+1)`.
pub fn most_significant_bit(x: U256) -> (r: Result<u8, MathError>)
    ensures
        match r {
            Ok(i) => x.value() != 0 && pow2(i as nat) <= x.value() && x.value() < pow2(i as nat + 1),
            Err(e) => x.value() == 0 && e == MathError::ZeroHasNoBit,
        },
{
    let z = leading_zeros(x);
    if z < 256 {
        Ok((255 - z) as u8)
    } else {
        Err(MathError::ZeroHasNoBit)
    }
}

/// The index of the lowest set bit of `x`: `2^j` divides `x` and `2^(j+1)`
/// does not.
pub fn least_significant_bit(x: U256) -> (r: Result<u8, MathError>)
    ensures
        match r {
            Ok(j) => x.value() != 0 && x.value() % pow2(j as nat) == 0 && (x.value() / pow2(
                j as nat,
            )) % 2 == 1,
            Err(e) => x.value() == 0 && e == MathError::ZeroHasNoBit,
        },
{
    let z = trailing_zeros(x);
    if z < 256 {
        Ok(z as u8)
    } else {
        Err(MathError::ZeroHasNoBit)
    }
}

} // verus!
