//! The one error type shared by every fallible operation.

use vstd::prelude::*;

verus! {

/// Why an arithmetic step has no result.
#[derive(Clone, Copy, Debug, PartialEq, Eq, Structural)]
pub enum MathError {
    /// A bit scan was asked about zero.
    ZeroHasNoBit,
    /// A division by zero whose product did not exceed 256 bits.
    DivisionByZero,
    /// A quotient does not fit in 256 bits.
    ResultOverflow,
    /// Rounding a quotient up would pass the largest 256-bit value.
    ResultIsMax,
    /// Removing token0 would take the denominator to zero or below, or its
    /// product overflowed.
    ProductDivAmount,
    /// A new square-root price exceeds 160 bits.
    PriceOverflow,
    /// A new square-root price would not be positive.
    PriceUnderflow,
    /// A liquidity plus its delta exceeds the `u128` range.
    Overflow,
    /// A liquidity plus its delta falls below zero.
    Underflow,
}

} // verus!
