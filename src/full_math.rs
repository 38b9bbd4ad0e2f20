//! `floor(x * y / d)` and its rounded-up variant, exact for any 512-bit
//! product of two 256-bit numbers.

use crate::error::MathError;
use crate::u256::{
    bitxor, is_zero, lemma_limb_powers, lemma_value_bound, limb_base, lt, modulus, mul_mod,
    trailing_zeros, wrapping_add, wrapping_div, wrapping_mul, wrapping_shl, wrapping_shr,
    wrapping_sub, U256,
};
use vstd::arithmetic::div_mod::*;
use vstd::arithmetic::power2::*;
use vstd::prelude::*;

verus! {

/// What `mul_div` gives for `x`, `y` and `d`: the quotient `floor(x * y / d)`
/// when it fits in 256 bits; a zero `d` is a division by zero only where
/// the product itself fits.
pub open spec fn mul_div_spec(x: nat, y: nat, d: nat) -> Result<nat, MathError> {
    if d == 0 {
        if x * y < modulus() {
            Err(MathError::DivisionByZero)
        } else {
            Err(MathError::ResultOverflow)
        }
    } else if x * y / d < modulus() {
        Ok(x * y / d)
    } else {
        Err(MathError::ResultOverflow)
    }
}

/// What `mul_div_round_up` gives: the floor quotient, plus one where
/// `d` does not divide `x * y`, unless that passes the largest value.
pub open spec fn mul_div_round_up_spec(x: nat, y: nat, d: nat) -> Result<nat, MathError> {
    match mul_div_spec(x, y, d) {
        Ok(q) => if (x * y) % d == 0 {
            Ok(q)
        } else if q + 1 < modulus() {
            Ok(q + 1)
        } else {
            Err(MathError::ResultIsMax)
        },
        Err(e) => Err(e),
    }
}

/// A result with its number in place of the `U256`.
pub open spec fn result_value(r: Result<U256, MathError>) -> Result<nat, MathError> {
    match r {
        Ok(v) => Ok(v.value()),
        Err(e) => Err(e),
    }
}

/// Splitting the product `p = x * y` from its residues modulo `m - 1` and
/// `m`: the high half is the difference of the two, less a borrow.
proof fn lemma_high_half(p: int, m: int, mm: int, l: int, t: int, h: int)
    requires
        m > 2,
        0 <= p <= (m - 1) * (m - 1),
        mm == p % (m - 1),
        l == p % m,
        t == (mm - l) % m,
        h == (t - (if mm < l { 1int } else { 0int })) % m,
    ensures
        h == p / m,
{
    let hi = p / m;
    lemma_fundamental_div_mod(p, m);
    assert(0 <= l < m);
    assert(hi >= 0) by (nonlinear_arith)
        requires
            p == m * hi + l,
            l < m,
            p >= 0,
            m > 0,
    ;
    assert(hi <= m - 2) by (nonlinear_arith)
        requires
            p == m * hi + l,
            0 <= l,
            p <= (m - 1) * (m - 1),
            m > 2,
    ;
    assert(p == (m - 1) * hi + (hi + l)) by (nonlinear_arith)
        requires
            p == m * hi + l,
    ;
    lemma_mod_multiples_vanish(hi, hi + l, m - 1);
    if hi + l < m - 1 {
        lemma_small_mod((hi + l) as nat, (m - 1) as nat);
        assert(mm == hi + l);
        lemma_small_mod(hi as nat, m as nat);
        assert(t == hi);
    } else {
        lemma_fundamental_div_mod_converse_mod(hi + l, m - 1, 1, hi + l - (m - 1));
        assert(mm == hi + l - (m - 1));
        lemma_fundamental_div_mod_converse_mod(mm - l, m, -1, hi + 1);
        assert(t == hi + 1);
        lemma_small_mod(hi as nat, m as nat);
    }
}

/// `(z mod 2^256) mod 2^j == z mod 2^j` for `j <= 256`.
proof fn lemma_mod_pow2_mod(z: int, j: nat)
    requires
        j <= 256,
    ensures
        (z % (modulus() as int)) % (pow2(j) as int) == z % (pow2(j) as int),
{
    lemma_pow2_adds(j, (256 - j) as nat);
    lemma_pow2_pos(j);
    lemma_pow2_pos((256 - j) as nat);
    lemma_mod_mod(z, pow2(j) as int, pow2((256 - j) as nat) as int);
}

/// One Newton step `a * (2 - d * a)`, taken modulo `2^256`, doubles the
/// number of low bits in which `a` inverts `d`.
proof fn lemma_newton_step(d: int, a: int, j: nat)
    requires
        0 < j <= 128,
        (d * a) % (pow2(j) as int) == 1,
    ensures
        (d * ((a * ((2 - (d * a) % (modulus() as int)) % (modulus() as int))) % (
        modulus() as int))) % (pow2(2 * j) as int) == 1,
{
    let m = modulus() as int;
    let k = pow2(j) as int;
    let k2 = pow2(2 * j) as int;
    lemma_pow2_adds(j, j);
    lemma_pow2_pos(j);
    assert(k2 == k * k);
    let t = (d * a) % m;
    let u = (2 - t) % m;
    let a2 = (a * u) % m;
    lemma_mod_pow2_mod(a * u, 2 * j);
    lemma_mod_pow2_mod(2 - t, 2 * j);
    lemma_mod_pow2_mod(d * a, 2 * j);
    assert(k2 > 0) by (nonlinear_arith)
        requires
            k2 == k * k,
            k > 0,
    ;
    // u == 2 - d*a modulo k2
    lemma_sub_mod_noop(2, t, k2);
    lemma_sub_mod_noop(2, d * a, k2);
    assert(u % k2 == (2 - d * a) % k2);
    // d * a2 == d * a * u modulo k2
    lemma_mul_mod_noop_general(d, a2, k2);
    lemma_mul_mod_noop_general(d, a * u, k2);
    assert((d * a2) % k2 == (d * (a * u)) % k2);
    assert(d * (a * u) == (d * a) * u) by (nonlinear_arith);
    lemma_mul_mod_noop_general(d * a, u, k2);
    lemma_mul_mod_noop_general(d * a, 2 - d * a, k2);
    assert((d * a2) % k2 == ((d * a) * (2 - d * a)) % k2);
    // d * a == 1 + e * k, so d*a*(2 - d*a) == 1 - e*e*k2
    let e = (d * a) / k;
    lemma_fundamental_div_mod(d * a, k);
    assert((d * a) * (2 - d * a) == k2 * (-(e * e)) + 1) by (nonlinear_arith)
        requires
            d * a == k * e + 1,
            k2 == k * k,
    ;
    lemma_mod_multiples_vanish(-(e * e), 1, k2);
    assert(k2 > 1) by {
        lemma_pow2_strictly_increases(0, 2 * j);
        lemma2_to64();
    }
    lemma_small_mod(1, k2 as nat);
}

/// Flipping bit one of a number below sixteen, as arithmetic.
proof fn lemma_xor_two(c: u64)
    ensures
        (c ^ 2) % 16 == (c % 16) ^ 2,
        (c % 16) ^ 2 == (c % 16) + 2 - 4 * (((c % 16) / 2) % 2),
{
    assert((c ^ 2) % 16 == (c % 16) ^ 2) by (bit_vector);
    let v: u64 = c % 16;
    assert(v ^ 2 == v + 2 - 4 * ((v / 2) % 2)) by (bit_vector)
        requires
            v < 16,
    ;
}

/// `3 * d ^ 2` inverts an odd `d` in its low four bits: the residue of the
/// seed modulo 16 is `c16 ^ 2`, where `c16` is that of `3 * d`.
proof fn lemma_seed_bits(n: int, c16: int)
    requires
        0 <= n < 16,
        n % 2 == 1,
        c16 == (3 * n) % 16,
    ensures
        (n * (c16 + 2 - 4 * ((c16 / 2) % 2))) % 16 == 1,
{
    assert(n == 1 || n == 3 || n == 5 || n == 7 || n == 9 || n == 11 || n == 13 || n == 15);
}

/// The low four bits of a `U256` are those of its lowest limb.
proof fn lemma_low_bits(x: U256)
    ensures
        x.value() % 16 == x.l0 % 16,
{
    let rest = x.l1 as int + limb_base() * (x.l2 as int + limb_base() * x.l3 as int);
    assert(limb_base() * rest == 16 * (0x1000_0000_0000_0000 * rest)) by (nonlinear_arith);
    lemma_mod_multiples_vanish(0x1000_0000_0000_0000 * rest, x.l0 as int, 16);
}

/// The seed `3 * d ^ 2` inverts an odd `d` modulo 16.
proof fn lemma_seed(d: U256, c: U256, two: U256, inv: U256)
    requires
        d.value() % 2 == 1,
        c.value() == (3 * d.value()) % modulus(),
        two.l0 == 2,
        inv.l0 == c.l0 ^ two.l0,
    ensures
        (d.value() * inv.value()) % pow2(4) == 1,
{
    lemma2_to64();
    let dv = d.value() as int;
    let n = dv % 16;
    lemma_mod_mod(dv, 2, 8);
    lemma_mod_pow2_mod(3 * dv, 4);
    lemma_mul_mod_noop_right(3, dv, 16);
    lemma_low_bits(c);
    lemma_low_bits(inv);
    lemma_xor_two(c.l0);
    let c16 = (c.l0 % 16) as int;
    assert(c16 == (3 * n) % 16);
    assert(inv.value() % 16 == c16 + 2 - 4 * ((c16 / 2) % 2));
    lemma_seed_bits(n, c16);
    lemma_mul_mod_noop_general(dv, inv.value() as int, 16);
}

/// One Newton step towards the inverse of `d` modulo `2^256`.
fn newton_step(d: U256, a: U256, Ghost(j): Ghost<nat>) -> (r: U256)
    requires
        0 < j <= 128,
        (d.value() * a.value()) % pow2(j) == 1,
    ensures
        (d.value() * r.value()) % pow2(2 * j) == 1,
{
    let two = U256::from_u128(2);
    let t = wrapping_mul(d, a);
    let u = wrapping_sub(two, t);
    let r = wrapping_mul(a, u);
    proof {
        lemma_newton_step(d.value() as int, a.value() as int, j);
    }
    r
}

/// The inverse of an odd `d` modulo `2^256`: a seed right in four bits, then
/// six Newton steps, right in 8, 16, 32, 64, 128 and 256 bits.
fn inverse_mod_word(d: U256) -> (r: U256)
    requires
        d.value() % 2 == 1,
    ensures
        (d.value() * r.value()) % modulus() == 1,
{
    let two = U256::from_limbs([2, 0, 0, 0]);
    let three = U256::from_u128(3);
    let c = wrapping_mul(three, d);
    let mut inv = bitxor(c, two);
    proof {
        lemma_seed(d, c, two, inv);
    }
    inv = newton_step(d, inv, Ghost(4));
    inv = newton_step(d, inv, Ghost(8));
    inv = newton_step(d, inv, Ghost(16));
    inv = newton_step(d, inv, Ghost(32));
    inv = newton_step(d, inv, Ghost(64));
    inv = newton_step(d, inv, Ghost(128));
    inv
}

/// The exact long division at the end of `mul_div`: with `p - rem` written
/// as `hi * 2^256 + lo`, `d == 2^k * odd`, `low` the low word of
/// `(p - rem) / 2^k` up to a multiple of `2^256`, and `inv` inverting `odd`,
/// `low * inv` is the quotient.
proof fn lemma_exact_quotient(
    p: int,
    dv: int,
    hi: int,
    lo: int,
    k: nat,
    odd: int,
    low: int,
    inv: int,
)
    requires
        0 < dv,
        0 <= p < dv * modulus(),
        hi * modulus() + lo == p - p % dv,
        0 <= hi,
        0 <= lo < modulus(),
        k < 256,
        dv == pow2(k) * odd,
        low == (lo / (pow2(k) as int) + (hi * pow2((256 - k) as nat)) % (modulus() as int)) % (
        modulus() as int),
        (odd * inv) % (modulus() as int) == 1,
    ensures
        (low * inv) % (modulus() as int) == p / dv,
{
    let m = modulus() as int;
    let tk = pow2(k) as int;
    let q = p / dv;
    lemma_pow2_pos(k);
    lemma_pow2_adds((256 - k) as nat, k);
    lemma_pow2_pos(256);
    lemma_fundamental_div_mod(p, dv);
    // p - rem == 2^k * (odd * q)
    assert(p - p % dv == tk * (odd * q)) by (nonlinear_arith)
        requires
            p == dv * q + p % dv,
            dv == tk * odd,
    ;
    lemma_div_multiples_vanish(odd * q, tk);
    // and also == (hi * 2^(256-k)) * 2^k + lo
    assert(hi * m + lo == lo + (hi * pow2((256 - k) as nat)) * tk) by (nonlinear_arith)
        requires
            m == pow2((256 - k) as nat) * tk,
    ;
    lemma_hoist_over_denominator(lo, hi * pow2((256 - k) as nat), tk as nat);
    assert(odd * q == lo / tk + hi * pow2((256 - k) as nat));
    lemma_fundamental_div_mod(lo, tk);
    lemma_mod_pos_bound(lo, tk);
    assert(0 <= lo / tk <= lo) by (nonlinear_arith)
        requires
            lo == tk * (lo / tk) + lo % tk,
            0 <= lo % tk,
            tk >= 1,
            lo >= 0,
    ;
    lemma_small_mod((lo / tk) as nat, m as nat);
    lemma_add_mod_noop(lo / tk, hi * pow2((256 - k) as nat), m);
    lemma_mod_twice(lo / tk, m);
    assert(low == (odd * q) % m);
    // low * inv == q * (odd * inv) == q modulo 2^256
    lemma_mul_mod_noop_general(odd * q, inv, m);
    assert((odd * q) * inv == q * (odd * inv)) by (nonlinear_arith);
    lemma_mul_mod_noop_general(q, odd * inv, m);
    lemma_multiply_divide_lt(p, dv, m);
    lemma_small_mod(q as nat, m as nat);
}

/// `floor(x * y / denominator)`, exact for the full 512-bit product.
pub fn mul_div(x: U256, y: U256, denominator: U256) -> (r: Result<U256, MathError>)
    ensures
        result_value(r) == mul_div_spec(x.value(), y.value(), denominator.value()),
{
    let ghost m = modulus() as int;
    let ghost p = (x.value() * y.value()) as int;
    let ghost dv = denominator.value() as int;
    let zero = U256::zero();
    let one = U256::from_u128(1);
    let max = U256::max();
    proof {
        lemma_value_bound(x);
        lemma_value_bound(y);
        lemma_value_bound(denominator);
        lemma_limb_powers();
        assert(p <= (m - 1) * (m - 1)) by (nonlinear_arith)
            requires
                p == x.value() * y.value(),
                x.value() < m,
                y.value() < m,
        ;
    }
    // the product modulo 2^256 - 1 and modulo 2^256, and from them its high word
    let mm = mul_mod(x, y, max);
    let mut prod0 = wrapping_mul(x, y);
    let borrow = if lt(mm, prod0) {
        one
    } else {
        zero
    };
    let mut prod1 = wrapping_sub(wrapping_sub(mm, prod0), borrow);
    proof {
        lemma_high_half(p, m, mm.value() as int, prod0.value() as int, (mm.value()
            - prod0.value()) % m, prod1.value() as int);
        lemma_fundamental_div_mod(p, m);
    }
    if is_zero(prod1) {
        if is_zero(denominator) {
            return Err(MathError::DivisionByZero);
        }
        return Ok(wrapping_div(prod0, denominator));
    }
    if !lt(prod1, denominator) {
        proof {
            if dv > 0 {
                assert(p >= dv * m) by (nonlinear_arith)
                    requires
                        p == m * prod1.value() + prod0.value(),
                        prod1.value() >= dv,
                        prod0.value() >= 0,
                        m > 0,
                ;
                lemma_fundamental_div_mod(p, dv);
                assert(p / dv >= m) by (nonlinear_arith)
                    requires
                        p >= dv * m,
                        p == dv * (p / dv) + p % dv,
                        p % dv < dv,
                        dv > 0,
                ;
            } else {
                assert(p >= m) by (nonlinear_arith)
                    requires
                        p == m * prod1.value() + prod0.value(),
                        prod1.value() >= 1,
                        prod0.value() >= 0,
                        m > 0,
                ;
            }
        }
        return Err(MathError::ResultOverflow);
    }
    // subtract the remainder, so that the division is exact
    let remainder = mul_mod(x, y, denominator);
    let borrow = if lt(prod0, remainder) {
        one
    } else {
        zero
    };
    let ghost h = prod1.value() as int;
    let ghost l = prod0.value() as int;
    prod1 = wrapping_sub(prod1, borrow);
    prod0 = wrapping_sub(prod0, remainder);
    proof {
        assert(p < dv * m) by (nonlinear_arith)
            requires
                p == m * h + l,
                h < dv,
                l < m,
                m > 0,
        ;
        lemma_mod_pos_bound(p, dv);
        if l < remainder.value() {
            lemma_fundamental_div_mod_converse_mod(l - remainder.value(), m, -1, l
                - remainder.value() + m);
            lemma_small_mod((h - 1) as nat, m as nat);
        } else {
            lemma_small_mod((l - remainder.value()) as nat, m as nat);
            lemma_small_mod(h as nat, m as nat);
        }
        assert(prod1.value() * m + prod0.value() == p - p % dv) by (nonlinear_arith)
            requires
                p == m * h + l,
                l < remainder.value() ==> prod1.value() == h - 1 && prod0.value() == l
                    - remainder.value() + m,
                l >= remainder.value() ==> prod1.value() == h && prod0.value() == l
                    - remainder.value(),
                remainder.value() == p % dv,
        ;
    }
    // divide out the powers of two of the denominator
    let twos = trailing_zeros(denominator);
    let odd = wrapping_shr(denominator, twos);
    let low = wrapping_shr(prod0, twos);
    let carry = wrapping_shl(prod1, 256 - twos);
    let low = wrapping_add(low, carry);
    proof {
        lemma_pow2_pos(twos as nat);
        lemma_fundamental_div_mod(dv, pow2(twos as nat) as int);
    }
    let inv = inverse_mod_word(odd);
    let result = wrapping_mul(low, inv);
    proof {
        lemma_exact_quotient(p, dv, prod1.value() as int, prod0.value() as int, twos as nat,
            odd.value() as int, low.value() as int, inv.value() as int);
    }
    Ok(result)
}

/// `x * y / denominator` rounded up, exact for the full 512-bit product.
pub fn mul_div_round_up(x: U256, y: U256, denominator: U256) -> (r: Result<U256, MathError>)
    ensures
        result_value(r) == mul_div_round_up_spec(x.value(), y.value(), denominator.value()),
{
    let result = match mul_div(x, y, denominator) {
        Ok(v) => v,
        Err(e) => return Err(e),
    };
    let zero = U256::zero();
    if lt(zero, mul_mod(x, y, denominator)) {
        if !lt(result, U256::max()) {
            Err(MathError::ResultIsMax)
        } else {
            proof {
                lemma_small_mod((result.value() + 1) as nat, modulus());
            }
            Ok(wrapping_add(result, U256::from_u128(1)))
        }
    } else {
        Ok(result)
    }
}

/// Rounding up moves the quotient by at most one: where both exist, the
/// rounded-up quotient exceeds the floor by exactly one when `d` does not
/// divide `x * y`, and equals it when it does.
pub proof fn lemma_round_up_exceeds_floor_by_remainder(x: nat, y: nat, d: nat)
    requires
        mul_div_round_up_spec(x, y, d) is Ok,
    ensures
        mul_div_spec(x, y, d) is Ok,
        mul_div_round_up_spec(x, y, d)->Ok_0 == mul_div_spec(x, y, d)->Ok_0 + (if (x * y) % d
            != 0 {
            1nat
        } else {
            0nat
        }),
{
}

} // verus!
