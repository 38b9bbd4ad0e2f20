//! Applying a signed change to an unsigned liquidity amount.

use crate::error::MathError;
use vstd::prelude::*;

verus! {

/// `x + y` as an exact integer, when it lies in `u128`'s range.
pub fn add_delta(x: u128, y: i128) -> (r: Result<u128, MathError>)
    ensures
        match r {
            Ok(z) => z == x + y,
            Err(e) => (x + y < 0 && e == MathError::Underflow) || (x + y > u128::MAX
                && e == MathError::Overflow),
        },
{
    if y < 0 {
        let magnitude: u128 = (-(y + 1)) as u128 + 1;
        match x.checked_sub(magnitude) {
            Some(z) => Ok(z),
            None => Err(MathError::Underflow),
        }
    } else {
        match x.checked_add(y as u128) {
            Some(z) => Ok(z),
            None => Err(MathError::Overflow),
        }
    }
}

} // verus!
