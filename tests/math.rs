use alloy::primitives::U256 as Word;
use uniswap_v3_math::bit_math::{least_significant_bit, most_significant_bit};
use uniswap_v3_math::error::MathError;
use uniswap_v3_math::full_math::{mul_div, mul_div_round_up};
use uniswap_v3_math::liquidity_math::add_delta;
use uniswap_v3_math::sqrt_price_math::{
    get_next_sqrt_price_from_amount0_rounding_up, get_next_sqrt_price_from_amount1_rounding_down,
    max_u160, q96,
};
use uniswap_v3_math::u256::U256;
use uniswap_v3_math::unsafe_math::unsafe_div_round_up;

fn w(x: Word) -> U256 {
    U256::from_limbs(x.into_limbs())
}

fn num(s: &str) -> U256 {
    w(s.parse::<Word>().unwrap())
}

fn small(x: u128) -> U256 {
    U256::from_u128(x)
}

fn q128() -> U256 {
    U256::from_limbs([0, 0, 1, 0])
}

#[test]
fn test_most_significant_bit() {
    assert!(most_significant_bit(U256::zero()).is_err());
    assert_eq!(most_significant_bit(small(1)).unwrap(), 0);
    assert_eq!(most_significant_bit(small(2)).unwrap(), 1);
    for i in 0..256 {
        let res = most_significant_bit(w(Word::from(1) << i));
        assert_eq!(res.unwrap(), i as u8);
    }
    assert_eq!(most_significant_bit(U256::max()).unwrap(), 255);
}

#[test]
fn test_least_significant_bit() {
    assert!(least_significant_bit(U256::zero()).is_err());
    assert_eq!(least_significant_bit(small(1)).unwrap(), 0);
    assert_eq!(least_significant_bit(small(2)).unwrap(), 1);
    for i in 0..256 {
        let res = least_significant_bit(w(Word::from(1) << i));
        assert_eq!(res.unwrap(), i as u8);
    }
    assert_eq!(least_significant_bit(U256::max()).unwrap(), 0);
}

#[test]
fn bit_scans_of_zero_name_the_error() {
    assert_eq!(most_significant_bit(U256::zero()), Err(MathError::ZeroHasNoBit));
    assert_eq!(least_significant_bit(U256::zero()), Err(MathError::ZeroHasNoBit));
}

#[test]
fn bit_scans_of_a_mixed_value() {
    // 0b1011000: highest bit 6, lowest bit 3
    assert_eq!(most_significant_bit(small(88)).unwrap(), 6);
    assert_eq!(least_significant_bit(small(88)).unwrap(), 3);
}

#[test]
fn test_mul_div() {
    let q = Word::from_limbs([0, 0, 1, 0]);
    let expected = w(Word::from(4375) * q / Word::from(1000));
    let result = mul_div(q128(), w(Word::from(35) * q), w(Word::from(8) * q));
    assert_eq!(result.unwrap(), expected);
    let result = mul_div(q128(), w(Word::from(35) * q), w(Word::from(8) * q));
    assert_eq!(result.unwrap(), expected);
    assert!(mul_div(q128(), small(1), U256::zero()).is_err());
    assert!(mul_div(q128(), q128(), small(1)).is_err());
    assert!(mul_div(q128(), q128(), U256::zero()).is_err());
    assert!(mul_div(U256::max(), U256::max(), small(1)).is_err());
}

#[test]
fn mul_div_errors_are_told_apart() {
    assert_eq!(mul_div(q128(), small(1), U256::zero()), Err(MathError::DivisionByZero));
    assert_eq!(mul_div(q128(), q128(), small(1)), Err(MathError::ResultOverflow));
    assert_eq!(mul_div(q128(), q128(), U256::zero()), Err(MathError::ResultOverflow));
}

#[test]
fn mul_div_phantom_overflow_exact() {
    assert_eq!(mul_div(q128(), q128(), q128()).unwrap(), q128());
    assert_eq!(
        mul_div(U256::max(), U256::max(), U256::max()).unwrap(),
        U256::max()
    );
    // (2^256 - 1) * 3 / (3 * 2^254) rounds down to 3
    assert_eq!(
        mul_div(U256::max(), small(3), w(Word::from(3) << 254)).unwrap(),
        small(3)
    );
    // a 383-bit product over an odd and over an even denominator
    let x = num("515377520732011331036461129765621272702107522001");
    let y = num("40536215597144386832065866109016673800875222251012083746192454448001");
    let d = num("807793566946316088741610050849573099185363389551639556884765625");
    let d2 = num("827180612553027674871408692069962853565812110900878906250000000000");
    assert_eq!(mul_div(x, y, d).unwrap(), num("25862367749832495703807994085190732245010532471213108"));
    assert_eq!(mul_div_round_up(x, y, d).unwrap(), num("25862367749832495703807994085190732245010532471213109"));
    assert_eq!(mul_div(x, y, d2).unwrap(), num("25256218505695796585749994223819074458018098116419"));
    assert_eq!(mul_div_round_up(x, y, d2).unwrap(), num("25256218505695796585749994223819074458018098116420"));
}

#[test]
fn mul_div_round_up_cases() {
    // exact division: no rounding
    assert_eq!(mul_div_round_up(small(6), small(4), small(3)).unwrap(), small(8));
    assert_eq!(mul_div(small(6), small(4), small(3)).unwrap(), small(8));
    // a remainder: one more than the floor
    assert_eq!(mul_div(small(7), small(5), small(3)).unwrap(), small(11));
    assert_eq!(mul_div_round_up(small(7), small(5), small(3)).unwrap(), small(12));
    // the floor is the largest value and a remainder is left
    let d = num("115792089237316195423570985008687907853269984665640564039457584007913129639934");
    assert_eq!(mul_div(U256::max(), d, d).unwrap(), U256::max());
    assert_eq!(mul_div_round_up(U256::max(), small(2), small(2)).unwrap(), U256::max());
    let a = num("115792089237316195423570985008687907853269984665640564039457584007913129639935");
    let b = num("57896044618658097711785492504343953926634992332820282019728792003956564819969");
    let c = num("57896044618658097711785492504343953926634992332820282019728792003956564819968");
    // (2^256 - 1)(2^255 + 1) / 2^255 = 2^256 + 1 - 2^-255: overflows
    assert_eq!(mul_div(a, b, c), Err(MathError::ResultOverflow));
    // (2^256 - 2)^2 == (2^256 - 3)(2^256 - 1) + 1: the floor is the largest value
    let y = num("115792089237316195423570985008687907853269984665640564039457584007913129639934");
    let d = num("115792089237316195423570985008687907853269984665640564039457584007913129639933");
    assert_eq!(mul_div(y, y, d).unwrap(), U256::max());
    assert_eq!(mul_div_round_up(y, y, d), Err(MathError::ResultIsMax));
    assert_eq!(mul_div_round_up(small(1), small(1), U256::zero()), Err(MathError::DivisionByZero));
}

#[test]
fn test_add_delta() {
    assert_eq!(add_delta(1, 1).unwrap(), 2);
    assert_eq!(add_delta(1, 0).unwrap(), 1);
    assert_eq!(add_delta(1, -1).unwrap(), 0);
    assert!(add_delta(u128::MAX, 1).is_err());
    assert!(add_delta(0, -1).is_err());
}

#[test]
fn add_delta_edges() {
    assert_eq!(add_delta(u128::MAX, 1), Err(MathError::Overflow));
    assert_eq!(add_delta(0, -1), Err(MathError::Underflow));
    assert_eq!(add_delta(u128::MAX, i128::MIN).unwrap(), u128::MAX / 2);
    assert_eq!(add_delta(1u128 << 127, i128::MIN).unwrap(), 0);
    assert_eq!(add_delta((1u128 << 127) - 1, i128::MIN), Err(MathError::Underflow));
    assert_eq!(add_delta(u128::MAX - 5, 5).unwrap(), u128::MAX);
}

#[test]
fn test_constants() {
    assert_eq!(q96(), w(Word::from(1) << 96));
    assert_eq!(max_u160(), w((Word::from(1) << 160) - Word::from(1)));
}

#[test]
fn test_div_round_up() {
    assert_eq!(unsafe_div_round_up(small(1), small(1)), small(1));
    assert_eq!(unsafe_div_round_up(small(1), small(2)), small(1));
    assert_eq!(unsafe_div_round_up(small(2), small(2)), small(1));
}

#[test]
fn div_round_up_more() {
    assert_eq!(unsafe_div_round_up(small(7), small(2)), small(4));
    assert_eq!(unsafe_div_round_up(small(0), small(5)), small(0));
    assert_eq!(unsafe_div_round_up(U256::max(), small(2)), q_half_up());
}

fn q_half_up() -> U256 {
    // ceil((2^256 - 1) / 2) == 2^255
    U256::from_limbs([0, 0, 0, 1u64 << 63])
}

#[test]
fn next_price_from_a_tenth_of_a_token() {
    let price = q96();
    let liquidity: u128 = 1_000_000_000_000_000_000;
    let amount = small(100_000_000_000_000_000);
    assert_eq!(
        get_next_sqrt_price_from_amount0_rounding_up(price, liquidity, amount, true).unwrap(),
        num("72025602285694852357767227579")
    );
    assert_eq!(
        get_next_sqrt_price_from_amount1_rounding_down(price, liquidity, amount, true).unwrap(),
        num("87150978765690771352898345369")
    );
    assert_eq!(
        get_next_sqrt_price_from_amount0_rounding_up(price, liquidity, amount, false).unwrap(),
        num("88031291682515930659493278152")
    );
    assert_eq!(
        get_next_sqrt_price_from_amount1_rounding_down(price, liquidity, amount, false).unwrap(),
        num("71305346262837903834189555302")
    );
}

#[test]
fn next_price_with_zero_amount_is_unchanged() {
    let price = num("79228162514264337593543962681");
    assert_eq!(
        get_next_sqrt_price_from_amount0_rounding_up(price, 7, U256::zero(), true).unwrap(),
        price
    );
    assert_eq!(
        get_next_sqrt_price_from_amount0_rounding_up(price, 7, U256::zero(), false).unwrap(),
        price
    );
    assert_eq!(
        get_next_sqrt_price_from_amount1_rounding_down(price, 7, U256::zero(), true).unwrap(),
        price
    );
}

#[test]
fn next_price_from_amount0_fallback_and_errors() {
    let liquidity: u128 = 1_000_000_000_000_000_000;
    // the product passes 256 bits: the price comes from n / (n / s + amount)
    let price = w(Word::from(1) << 100);
    let amount = w(Word::from(1) << 200);
    assert_eq!(
        get_next_sqrt_price_from_amount0_rounding_up(price, liquidity, amount, true).unwrap(),
        small(1)
    );
    // removing more token0 than the pool holds
    assert_eq!(
        get_next_sqrt_price_from_amount0_rounding_up(q96(), liquidity, amount, false),
        Err(MathError::ProductDivAmount)
    );
    assert_eq!(
        get_next_sqrt_price_from_amount0_rounding_up(q96(), 1, small(1), false),
        Err(MathError::ProductDivAmount)
    );
    // n / s + amount passes 256 bits as well: the exact quotient rounds up to one
    assert_eq!(
        get_next_sqrt_price_from_amount0_rounding_up(small(1), 1, U256::max(), true).unwrap(),
        small(1)
    );
    // with no liquidity the fallback gives zero
    assert_eq!(
        get_next_sqrt_price_from_amount0_rounding_up(small(2), 0, U256::max(), true).unwrap(),
        small(0)
    );
    // removing token0 may not leave the price above 160 bits
    assert_eq!(
        get_next_sqrt_price_from_amount0_rounding_up(max_u160(), 1u128 << 65, small(1), false),
        Err(MathError::PriceOverflow)
    );
}

#[test]
fn next_price_from_amount1_errors() {
    assert_eq!(
        get_next_sqrt_price_from_amount1_rounding_down(max_u160(), 1, small(1), true),
        Err(MathError::PriceOverflow)
    );
    assert_eq!(
        get_next_sqrt_price_from_amount1_rounding_down(small(1), 1, small(1), false),
        Err(MathError::PriceUnderflow)
    );
    assert_eq!(
        get_next_sqrt_price_from_amount1_rounding_down(q96(), 0, small(1), true),
        Err(MathError::DivisionByZero)
    );
    // a start above 160 bits cannot come back from removing token1
    assert_eq!(
        get_next_sqrt_price_from_amount1_rounding_down(w(Word::from(1) << 200), 1, small(1), false),
        Err(MathError::PriceOverflow)
    );
    // an amount over 160 bits goes through the full-precision path
    let big = w(Word::from(1) << 170);
    assert_eq!(
        get_next_sqrt_price_from_amount1_rounding_down(small(1), 0, big, true),
        Err(MathError::ResultOverflow)
    );
    assert_eq!(
        get_next_sqrt_price_from_amount1_rounding_down(small(0), 1u128 << 120, big, true).unwrap(),
        w(Word::from(1) << 146)
    );
}

#[test]
fn amount1_round_trip_drifts_at_most_one() {
    let price = q96();
    let liquidity: u128 = 3_000_000_000_000_000_001;
    let amount = small(100_000_000_000_000_007);
    let up = get_next_sqrt_price_from_amount1_rounding_down(price, liquidity, amount, true).unwrap();
    let back = get_next_sqrt_price_from_amount1_rounding_down(up, liquidity, amount, false).unwrap();
    assert!(back == price || w(Word::from_limbs(back.into_limbs()) + Word::from(1)) == price);
}

#[test]
fn amount0_round_trip_can_drift_further() {
    let up = get_next_sqrt_price_from_amount0_rounding_up(q96(), 1, small(2), true).unwrap();
    assert_eq!(up, num("26409387504754779197847983446"));
    let back = get_next_sqrt_price_from_amount0_rounding_up(up, 1, small(2), false).unwrap();
    assert_eq!(back, num("79228162514264337593543950343"));
}
