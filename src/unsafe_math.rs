//! Division rounded up, for callers that have ruled out a zero divisor.

use crate::u256::{lemma_limb_powers, lemma_value_bound, modulus, is_zero, wrapping_add, wrapping_div, wrapping_rem, U256};
use vstd::arithmetic::div_mod::lemma_small_mod;
use vstd::prelude::*;

verus! {

/// `a / b` rounded up.
pub open spec fn ceil_div(a: nat, b: nat) -> nat
    recommends
        b != 0,
{
    if a % b == 0 {
        a / b
    } else {
        a / b + 1
    }
}

/// `x / y` rounded up. The caller guarantees that `y` is not zero.
pub fn unsafe_div_round_up(x: U256, y: U256) -> (r: U256)
    requires
        y.value() != 0,
    ensures
        r.value() == ceil_div(x.value(), y.value()),
{
    let quotient = wrapping_div(x, y);
    let remainder = wrapping_rem(x, y);
    if is_zero(remainder) {
        quotient
    } else {
        let one = U256::from_u128(1);
        proof {
            lemma_value_bound(x);
            lemma_limb_powers();
            assert(y.value() >= 2);
            assert(x.value() / y.value() <= x.value() / 2) by (nonlinear_arith)
                requires
                    y.value() >= 2,
            ;
            assert(quotient.value() + 1 < modulus());
            lemma_small_mod((quotient.value() + 1) as nat, modulus());
        }
        wrapping_add(quotient, one)
    }
}

} // verus!
