//! The next square-root price (a Q64.96 number) after a change in the
//! reserve of token0 or token1.

use crate::error::MathError;
use crate::full_math::{
    lemma_round_up_exceeds_floor_by_remainder,
    mul_div, mul_div_round_up, mul_div_round_up_spec, mul_div_spec, result_value,
};
use crate::u256::{
    checked_add, is_zero, lemma_limb_powers, lemma_value_bound, limb_base, lt, modulus,
    same_value, wrapping_add, wrapping_div, wrapping_mul, wrapping_shl, wrapping_sub, U256,
};
use crate::unsafe_math::{ceil_div, unsafe_div_round_up};
use vstd::arithmetic::div_mod::*;
use vstd::arithmetic::power2::*;
use vstd::prelude::*;

verus! {

/// The largest square-root price, `2^160 - 1`.
pub open spec fn max_price() -> nat {
    (pow2(160) - 1) as nat
}

/// `2^160 - 1`, the bound of every square-root price.
pub fn max_u160() -> (r: U256)
    ensures
        r.value() == max_price(),
{
    let r = U256 { l0: u64::MAX, l1: u64::MAX, l2: 0xFFFF_FFFF, l3: 0 };
    proof {
        lemma_limb_powers();
        lemma2_to64();
        lemma_pow2_adds(128, 32);
        let b = limb_base() as int;
        assert(r.value() == b * b * 0x1_0000_0000 - 1) by (nonlinear_arith)
            requires
                r.value() == (b - 1) + b * ((b - 1) + b * (0x1_0000_0000 - 1 + b * 0)),
        ;
    }
    r
}

/// `2^96`, one in Q64.96.
pub fn q96() -> (r: U256)
    ensures
        r.value() == pow2(96),
{
    let r = U256 { l0: 0, l1: 0x1_0000_0000, l2: 0, l3: 0 };
    proof {
        lemma_limb_powers();
        lemma2_to64();
        lemma_pow2_adds(64, 32);
    }
    r
}

/// A computed price: one above 160 bits is an error.
pub open spec fn bounded_price(r: Result<nat, MathError>) -> Result<nat, MathError> {
    match r {
        Ok(v) => if v <= max_price() {
            Ok(v)
        } else {
            Err(MathError::PriceOverflow)
        },
        Err(e) => Err(e),
    }
}

/// The step of `get_next_sqrt_price_from_amount0_rounding_up` for a nonzero
/// amount, before the 160-bit bound. With `n = liquidity * 2^96` and
/// `p = amount * s`, the new price is `n * s / (n +- p)` rounded up; when
/// adding and `n + p` passes 256 bits, it is `n / (n / s + amount)` rounded
/// up instead.
pub open spec fn step_from_amount0(s: nat, liquidity: nat, amount: nat, add: bool) -> Result<
    nat,
    MathError,
> {
    let n = liquidity * pow2(96);
    let p = amount * s;
    if add {
        if p < modulus() && n + p < modulus() {
            mul_div_round_up_spec(n, s, n + p)
        } else {
            Ok(ceil_div(n, n / s + amount))
        }
    } else if p < modulus() && p < n {
        mul_div_round_up_spec(n, s, (n - p) as nat)
    } else {
        Err(MathError::ProductDivAmount)
    }
}

/// What `get_next_sqrt_price_from_amount0_rounding_up` gives: the starting
/// price for a zero amount, else the step, which must fit in 160 bits.
pub open spec fn next_price_from_amount0(s: nat, liquidity: nat, amount: nat, add: bool) -> Result<
    nat,
    MathError,
> {
    if amount == 0 {
        Ok(s)
    } else {
        bounded_price(step_from_amount0(s, liquidity, amount, add))
    }
}

/// Turns a price above 160 bits into `PriceOverflow`.
fn check_price_bound(r: Result<U256, MathError>) -> (out: Result<U256, MathError>)
    ensures
        result_value(out) == bounded_price(result_value(r)),
{
    match r {
        Ok(v) => if lt(max_u160(), v) {
            Err(MathError::PriceOverflow)
        } else {
            Ok(v)
        },
        Err(e) => Err(e),
    }
}

/// The wrapped product divided back by a positive `a` gives `b` exactly when
/// `a * b` did not wrap.
proof fn lemma_product_divides_back(a: nat, b: nat)
    requires
        a > 0,
    ensures
        ((a * b) % modulus()) / a == b <==> a * b < modulus(),
{
    lemma_limb_powers();
    let p = a * b;
    if p < modulus() {
        lemma_small_mod(p, modulus());
        lemma_div_multiples_vanish(b as int, a as int);
    } else {
        lemma_mod_pos_bound(p as int, modulus() as int);
        let w = p % modulus();
        assert(w < a * b);
        lemma_multiply_divide_lt(w as int, a as int, b as int);
    }
}

/// The next square-root price after adding (`add`) or removing `amount` of
/// token0, rounded up. A new price above 160 bits is `PriceOverflow`.
pub fn get_next_sqrt_price_from_amount0_rounding_up(
    sqrt_price_x_96: U256,
    liquidity: u128,
    amount: U256,
    add: bool,
) -> (r: Result<U256, MathError>)
    ensures
        result_value(r) == next_price_from_amount0(
            sqrt_price_x_96.value(),
            liquidity as nat,
            amount.value(),
            add,
        ),
{
    if is_zero(amount) {
        return Ok(sqrt_price_x_96);
    }
    check_price_bound(step_from_amount0_exec(sqrt_price_x_96, liquidity, amount, add))
}

/// The token0 step for a nonzero amount, before the 160-bit bound.
fn step_from_amount0_exec(sqrt_price_x_96: U256, liquidity: u128, amount: U256, add: bool) -> (r:
    Result<U256, MathError>)
    requires
        amount.value() != 0,
    ensures
        result_value(r) == step_from_amount0(
            sqrt_price_x_96.value(),
            liquidity as nat,
            amount.value(),
            add,
        ),
{
    let ghost s = sqrt_price_x_96.value();
    let ghost n = (liquidity * pow2(96)) as nat;
    let numerator1 = wrapping_shl(U256::from_u128(liquidity), 96);
    proof {
        lemma_liquidity_shift(liquidity as nat);
        lemma_value_bound(sqrt_price_x_96);
        lemma_value_bound(amount);
        lemma_product_divides_back(amount.value(), s);
    }
    let product = wrapping_mul(amount, sqrt_price_x_96);
    let fits = same_value(wrapping_div(product, amount), sqrt_price_x_96);
    proof {
        if amount.value() * s < modulus() {
            lemma_small_mod(amount.value() * s, modulus());
        }
    }
    if add {
        if fits {
            let denominator = wrapping_add(numerator1, product);
            if !lt(denominator, numerator1) {
                proof {
                    lemma_value_bound(product);
                    if n + product.value() >= modulus() {
                        lemma_fundamental_div_mod_converse_mod(
                            (n + product.value()) as int,
                            modulus() as int,
                            1,
                            n + product.value() - modulus(),
                        );
                    }
                    lemma_small_mod((n + product.value()) as nat, modulus());
                }
                return mul_div_round_up(numerator1, sqrt_price_x_96, denominator);
            }
            proof {
                if n + product.value() < modulus() {
                    lemma_small_mod((n + product.value()) as nat, modulus());
                }
            }
        }
        proof {
            if s == 0 {
                assert(amount.value() * s == 0);
                lemma_small_mod(0, modulus());
                lemma_small_mod(n, modulus());
                assert(product.value() == 0);
                assert(fits);
                assert(n + product.value() < modulus());
                lemma_small_mod((n + product.value()) as nat, modulus());
            }
        }
        let denominator = match checked_add(wrapping_div(numerator1, sqrt_price_x_96), amount) {
            Some(v) => v,
            None => {
                // the exact denominator passes 2^256 > n: the quotient rounds up
                // to one, or is zero for no liquidity
                let ghost d = n / s + amount.value();
                proof {
                    lemma_small_mod(n, d);
                    lemma_basic_div(n as int, d as int);
                }
                if is_zero(numerator1) {
                    return Ok(U256::zero());
                }
                return Ok(U256::from_u128(1));
            },
        };
        Ok(unsafe_div_round_up(numerator1, denominator))
    } else if fits && lt(product, numerator1) {
        proof {
            lemma_small_mod((n - product.value()) as nat, modulus());
        }
        let denominator = wrapping_sub(numerator1, product);
        mul_div_round_up(numerator1, sqrt_price_x_96, denominator)
    } else {
        Err(MathError::ProductDivAmount)
    }
}

/// What `get_next_sqrt_price_from_amount1_rounding_down` gives: the price
/// moved by `amount * 2^96 / liquidity`, rounded down when token1 is added
/// and up when it is removed; the new price must stay within 160 bits and
/// above zero. A zero liquidity gives the errors of `mul_div_spec` for a
/// zero divisor.
pub open spec fn next_price_from_amount1(s: nat, liquidity: nat, amount: nat, add: bool) -> Result<
    nat,
    MathError,
> {
    if add {
        match mul_div_spec(amount, pow2(96), liquidity) {
            Ok(q) => if q + s <= max_price() {
                Ok(q + s)
            } else {
                Err(MathError::PriceOverflow)
            },
            Err(e) => Err(e),
        }
    } else {
        match mul_div_round_up_spec(amount, pow2(96), liquidity) {
            Ok(q) => if q < s {
                bounded_price(Ok((s - q) as nat))
            } else {
                Err(MathError::PriceUnderflow)
            },
            Err(e) => Err(e),
        }
    }
}

/// A liquidity shifted left by 96 bits stays below `2^256`.
proof fn lemma_liquidity_shift(liquidity: nat)
    requires
        liquidity <= u128::MAX,
    ensures
        liquidity <= max_price(),
        liquidity * pow2(96) < modulus(),
        (liquidity * pow2(96)) % modulus() == liquidity * pow2(96),
{
    lemma_limb_powers();
    lemma2_to64();
    lemma_pow2_adds(128, 32);
    assert(pow2(128) <= pow2(160)) by (nonlinear_arith)
        requires
            pow2(160) == pow2(128) * pow2(32),
            pow2(32) >= 1,
    ;
    lemma_small_amount(liquidity);
}

/// Shifting an amount of at most 160 bits left by 96 loses nothing.
proof fn lemma_small_amount(amount: nat)
    requires
        amount <= max_price(),
    ensures
        amount * pow2(96) < modulus(),
        (amount * pow2(96)) % modulus() == amount * pow2(96),
{
    lemma_pow2_adds(160, 96);
    lemma_pow2_pos(96);
    lemma_pow2_pos(160);
    assert(amount * pow2(96) < pow2(160) * pow2(96)) by (nonlinear_arith)
        requires
            amount < pow2(160),
            pow2(96) > 0,
    ;
    lemma_small_mod(amount * pow2(96), modulus());
}

/// A rounded-up quotient of a product below `2^256` by a positive divisor
/// is still below `2^256`.
proof fn lemma_small_round_up(p: nat, d: nat)
    requires
        0 < d,
        p < modulus(),
    ensures
        p / d <= p,
        p % d != 0 ==> p / d + 1 < modulus(),
{
    lemma_fundamental_div_mod(p as int, d as int);
    lemma_mod_pos_bound(p as int, d as int);
    assert(p / d <= p) by (nonlinear_arith)
        requires
            p == d * (p / d) + p % d,
            d >= 1,
    ;
    if p % d != 0 {
        lemma_limb_powers();
        let q = p / d;
        assert(q + 1 < modulus()) by (nonlinear_arith)
            requires
                p == d * q + p % d,
                p % d < d,
                p % d > 0,
                q >= 0,
                p < modulus(),
                modulus() > 2,
        ;
    }
}

/// The next square-root price after adding (`add`) or removing `amount` of
/// token1, rounded down. A new price above 160 bits is `PriceOverflow`, one
/// at or below zero `PriceUnderflow`. A zero liquidity is answered as the
/// full-precision quotient answers a zero divisor: `DivisionByZero` where
/// `amount * 2^96` fits in 256 bits, `ResultOverflow` where it does not.
pub fn get_next_sqrt_price_from_amount1_rounding_down(
    sqrt_price_x_96: U256,
    liquidity: u128,
    amount: U256,
    add: bool,
) -> (r: Result<U256, MathError>)
    ensures
        result_value(r) == next_price_from_amount1(
            sqrt_price_x_96.value(),
            liquidity as nat,
            amount.value(),
            add,
        ),
{
    let liq = U256::from_u128(liquidity);
    let small = !lt(max_u160(), amount);
    let ghost p = amount.value() * pow2(96);
    proof {
        if small {
            lemma_small_amount(amount.value());
        }
        lemma_value_bound(sqrt_price_x_96);
    }
    if add {
        let quotient = if small {
            if is_zero(liq) {
                return Err(MathError::DivisionByZero);
            }
            proof {
                lemma_small_round_up(p, liquidity as nat);
            }
            wrapping_div(wrapping_shl(amount, 96), liq)
        } else {
            match mul_div(amount, q96(), liq) {
                Ok(v) => v,
                Err(e) => return Err(e),
            }
        };
        match checked_add(quotient, sqrt_price_x_96) {
            Some(v) => if lt(max_u160(), v) {
                Err(MathError::PriceOverflow)
            } else {
                Ok(v)
            },
            None => {
                proof {
                    lemma_pow2_strictly_increases(160, 256);
                    lemma_pow2_pos(160);
                }
                Err(MathError::PriceOverflow)
            },
        }
    } else {
        let quotient = if small {
            if is_zero(liq) {
                return Err(MathError::DivisionByZero);
            }
            proof {
                lemma_small_round_up(p, liquidity as nat);
            }
            unsafe_div_round_up(wrapping_shl(amount, 96), liq)
        } else {
            match mul_div_round_up(amount, q96(), liq) {
                Ok(v) => v,
                Err(e) => return Err(e),
            }
        };
        if !lt(quotient, sqrt_price_x_96) {
            Err(MathError::PriceUnderflow)
        } else {
            proof {
                lemma_small_mod((sqrt_price_x_96.value() - quotient.value()) as nat, modulus());
            }
            check_price_bound(Ok(wrapping_sub(sqrt_price_x_96, quotient)))
        }
    }
}

/// Adding `amount` of token1 and then removing the same amount returns the
/// starting price or one unit below it: rounding drifts by at most one.
pub proof fn lemma_amount1_round_trip(s: nat, liquidity: nat, amount: nat)
    requires
        next_price_from_amount1(s, liquidity, amount, true) is Ok,
        next_price_from_amount1(
            next_price_from_amount1(s, liquidity, amount, true)->Ok_0,
            liquidity,
            amount,
            false,
        ) is Ok,
    ensures
        ({
            let back = next_price_from_amount1(
                next_price_from_amount1(s, liquidity, amount, true)->Ok_0,
                liquidity,
                amount,
                false,
            )->Ok_0;
            back <= s && s <= back + 1
        }),
{
    lemma_round_up_exceeds_floor_by_remainder(amount, pow2(96), liquidity);
}

/// A quotient rounded up covers the dividend: `c * d >= a`.
proof fn lemma_ceil_covers(a: nat, d: nat, c: nat)
    requires
        d > 0,
        c == ceil_div(a, d),
    ensures
        c * d >= a,
{
    lemma_fundamental_div_mod(a as int, d as int);
    lemma_mod_pos_bound(a as int, d as int);
    let q = a / d;
    if a % d != 0 {
        assert((q + 1) * d >= a) by (nonlinear_arith)
            requires
                a == d * q + a % d,
                a % d < d,
                d > 0,
                q >= 0,
        ;
    } else {
        assert(q * d == a) by (nonlinear_arith)
            requires
                a == d * q + a % d,
                a % d == 0,
        ;
    }
}

/// A successful `mul_div_round_up_spec` covers the product.
proof fn lemma_round_up_covers(x: nat, y: nat, d: nat)
    requires
        mul_div_round_up_spec(x, y, d) is Ok,
    ensures
        d > 0,
        mul_div_round_up_spec(x, y, d)->Ok_0 * d >= x * y,
{
    lemma_ceil_covers(x * y, d, ceil_div(x * y, d));
}

/// Adding `amount` of token0 and then removing the same amount never leaves
/// the price below where it started: both steps round up.
pub proof fn lemma_amount0_round_trip_not_below(s: nat, liquidity: nat, amount: nat)
    requires
        liquidity <= u128::MAX,
        next_price_from_amount0(s, liquidity, amount, true) is Ok,
        next_price_from_amount0(
            next_price_from_amount0(s, liquidity, amount, true)->Ok_0,
            liquidity,
            amount,
            false,
        ) is Ok,
    ensures
        next_price_from_amount0(
            next_price_from_amount0(s, liquidity, amount, true)->Ok_0,
            liquidity,
            amount,
            false,
        )->Ok_0 >= s,
{
    if amount > 0 {
        let n = liquidity * pow2(96);
        let s1 = next_price_from_amount0(s, liquidity, amount, true)->Ok_0;
        let s2 = next_price_from_amount0(s1, liquidity, amount, false)->Ok_0;
        let p = amount * s;
        lemma_liquidity_shift(liquidity);
        // the first step covers n * s
        if p < modulus() && n + p < modulus() {
            lemma_round_up_covers(n, s, (n + p) as nat);
            assert(s1 * (n + amount * s) >= n * s);
        } else {
            let t = n / s;
            lemma_ceil_covers(n, t + amount, s1);
            lemma_fundamental_div_mod(n as int, s as int);
            lemma_mod_pos_bound(n as int, s as int);
            assert(s1 * (n + amount * s) >= n * s) by (nonlinear_arith)
                requires
                    s1 * (t + amount) >= n,
                    n == s * t + n % s,
                    n % s >= 0,
                    s1 >= 0,
                    s >= 0,
            ;
        }
        // the second step covers n * s1 over n - amount * s1
        let d2 = (n - amount * s1) as nat;
        lemma_round_up_covers(n, s1, d2);
        assert(s2 * d2 >= s * d2) by (nonlinear_arith)
            requires
                s2 * d2 >= n * s1,
                s1 * (n + amount * s) >= n * s,
                d2 == n - amount * s1,
        ;
        assert(s2 >= s) by (nonlinear_arith)
            requires
                s2 * d2 >= s * d2,
                d2 > 0,
        ;
    }
}

} // verus!
