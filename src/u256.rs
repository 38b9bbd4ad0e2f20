//! An unsigned 256-bit integer held as four little-endian 64-bit limbs,
//! with its value as a natural number.
//!
//! The arithmetic itself is done by `alloy`'s `U256` (the `ruint` crate):
//! each operation below converts the limbs, makes one call, and converts back.

use alloy::primitives::U256 as Word;
use vstd::arithmetic::power2::*;
use vstd::prelude::*;

verus! {

/// Two to the 64th: the base of one limb.
pub open spec fn limb_base() -> nat {
    0x1_0000_0000_0000_0000
}

/// Two to the 256th: one past the largest value of a `U256`.
pub open spec fn modulus() -> nat {
    pow2(256)
}

/// An unsigned 256-bit integer, least significant limb first.
#[derive(Clone, Copy, Debug, PartialEq, Eq, Structural)]
pub struct U256 {
    pub l0: u64,
    pub l1: u64,
    pub l2: u64,
    pub l3: u64,
}

impl U256 {
    /// The integer that the limbs encode.
    pub open spec fn value(self) -> nat {
        self.l0 as nat + limb_base() * (self.l1 as nat + limb_base() * (self.l2 as nat
            + limb_base() * self.l3 as nat))
    }
}

/// `2^64`, `2^128`, `2^192` and `2^256` as powers of the limb base.
pub proof fn lemma_limb_powers()
    ensures
        pow2(64) == limb_base(),
        pow2(128) == limb_base() * limb_base(),
        pow2(192) == limb_base() * pow2(128),
        pow2(256) == limb_base() * pow2(192),
        pow2(256) == pow2(128) * pow2(128),
        pow2(256) > limb_base(),
{
    lemma2_to64();
    lemma2_to64_rest();
    lemma_pow2_adds(64, 64);
    lemma_pow2_adds(64, 128);
    lemma_pow2_adds(64, 192);
    lemma_pow2_adds(128, 128);
    lemma_pow2_pos(192);
    assert(limb_base() * pow2(192) > limb_base() * 1) by (nonlinear_arith)
        requires
            pow2(192) > 1,
    ;
}

/// Every `U256` is below `2^256`.
pub proof fn lemma_value_bound(x: U256)
    ensures
        x.value() < modulus(),
{
    lemma_limb_powers();
    let b = limb_base() as int;
    let t3 = x.l3 as int;
    let t2 = x.l2 as int + b * t3;
    let t1 = x.l1 as int + b * t2;
    assert(t3 < b);
    assert(t2 < b * b) by (nonlinear_arith)
        requires
            t2 == x.l2 as int + b * t3,
            x.l2 < b,
            t3 < b,
            b > 0,
    ;
    assert(t1 < b * (b * b)) by (nonlinear_arith)
        requires
            t1 == x.l1 as int + b * t2,
            x.l1 < b,
            t2 < b * b,
            b > 0,
    ;
    assert(x.value() < b * (b * (b * b))) by (nonlinear_arith)
        requires
            x.value() == x.l0 as int + b * t1,
            x.l0 < b,
            t1 < b * (b * b),
            b > 0,
    ;
    assert(b * (b * (b * b)) == modulus()) by (nonlinear_arith)
        requires
            modulus() == b * pow2(192),
            pow2(192) == b * pow2(128),
            pow2(128) == b * b,
    ;
}

/// Relies on `Uint::wrapping_mul`: the product modulo `2^256`.
#[verifier::external_body]
pub(crate) fn wrapping_mul(a: U256, b: U256) -> (r: U256)
    ensures
        r.value() == (a.value() * b.value()) % modulus(),
{
    let x = Word::from_limbs([a.l0, a.l1, a.l2, a.l3]);
    let y = Word::from_limbs([b.l0, b.l1, b.l2, b.l3]);
    let l = x.wrapping_mul(y).into_limbs();
    U256 { l0: l[0], l1: l[1], l2: l[2], l3: l[3] }
}

impl U256 {
    /// The number whose limbs, least significant first, are `limbs`.
    pub fn from_limbs(limbs: [u64; 4]) -> (r: U256)
        ensures
            r.l0 == limbs[0],
            r.l1 == limbs[1],
            r.l2 == limbs[2],
            r.l3 == limbs[3],
    {
        U256 { l0: limbs[0], l1: limbs[1], l2: limbs[2], l3: limbs[3] }
    }

    /// The limbs, least significant first.
    pub fn into_limbs(self) -> (r: [u64; 4])
        ensures
            r[0] == self.l0,
            r[1] == self.l1,
            r[2] == self.l2,
            r[3] == self.l3,
    {
        [self.l0, self.l1, self.l2, self.l3]
    }

    /// The number `v`.
    pub fn from_u128(v: u128) -> (r: U256)
        ensures
            r.value() == v,
    {
        let lo = (v % 0x1_0000_0000_0000_0000u128) as u64;
        let hi = (v / 0x1_0000_0000_0000_0000u128) as u64;
        proof {
            assert(v == lo + limb_base() * hi);
        }
        U256 { l0: lo, l1: hi, l2: 0, l3: 0 }
    }

    /// Zero.
    pub fn zero() -> (r: U256)
        ensures
            r.value() == 0,
    {
        U256 { l0: 0, l1: 0, l2: 0, l3: 0 }
    }

    /// The largest value, `2^256 - 1`.
    pub fn max() -> (r: U256)
        ensures
            r.value() == modulus() - 1,
    {
        let r = U256 { l0: u64::MAX, l1: u64::MAX, l2: u64::MAX, l3: u64::MAX };
        proof {
            lemma_limb_powers();
            let b = limb_base() as int;
            assert(r.value() == b * (b * (b * b)) - 1) by (nonlinear_arith)
                requires
                    r.value() == (b - 1) + b * ((b - 1) + b * ((b - 1) + b * (b - 1))),
            ;
            assert(b * (b * (b * b)) == modulus()) by (nonlinear_arith)
                requires
                    modulus() == b * pow2(192),
                    pow2(192) == b * pow2(128),
                    pow2(128) == b * b,
            ;
        }
        r
    }
}

/// Whether `a` and `b` are the same number.
pub(crate) fn same_value(a: U256, b: U256) -> (r: bool)
    ensures
        r == (a.value() == b.value()),
{
    !lt(a, b) && !lt(b, a)
}

/// Relies on `Uint::is_zero`.
#[verifier::external_body]
pub(crate) fn is_zero(a: U256) -> (r: bool)
    ensures
        r == (a.value() == 0),
{
    Word::from_limbs([a.l0, a.l1, a.l2, a.l3]).is_zero()
}

/// Relies on `Uint`'s `PartialOrd::lt`, which compares the numbers.
#[verifier::external_body]
pub(crate) fn lt(a: U256, b: U256) -> (r: bool)
    ensures
        r == (a.value() < b.value()),
{
    let x = Word::from_limbs([a.l0, a.l1, a.l2, a.l3]);
    let y = Word::from_limbs([b.l0, b.l1, b.l2, b.l3]);
    x < y
}

/// Relies on `Uint::leading_zeros`: the count of zero bits above the highest
/// set bit, or 256 for zero.
#[verifier::external_body]
pub(crate) fn leading_zeros(a: U256) -> (r: usize)
    ensures
        a.value() == 0 ==> r == 256,
        a.value() != 0 ==> r < 256 && pow2((255 - r) as nat) <= a.value() && a.value() < pow2(
            (256 - r) as nat,
        ),
{
    Word::from_limbs([a.l0, a.l1, a.l2, a.l3]).leading_zeros()
}

/// Relies on `Uint::trailing_zeros`: the count of zero bits below the lowest
/// set bit, or 256 for zero.
#[verifier::external_body]
pub(crate) fn trailing_zeros(a: U256) -> (r: usize)
    ensures
        a.value() == 0 ==> r == 256,
        a.value() != 0 ==> r < 256 && a.value() % pow2(r as nat) == 0 && (a.value() / pow2(
            r as nat,
        )) % 2 == 1,
{
    Word::from_limbs([a.l0, a.l1, a.l2, a.l3]).trailing_zeros()
}

/// Relies on `Uint::mul_mod`: the full product modulo `m`, or zero when `m`
/// is zero.
#[verifier::external_body]
pub(crate) fn mul_mod(a: U256, b: U256, m: U256) -> (r: U256)
    ensures
        m.value() != 0 ==> r.value() == (a.value() * b.value()) % m.value(),
        m.value() == 0 ==> r.value() == 0,
{
    let x = Word::from_limbs([a.l0, a.l1, a.l2, a.l3]);
    let y = Word::from_limbs([b.l0, b.l1, b.l2, b.l3]);
    let z = Word::from_limbs([m.l0, m.l1, m.l2, m.l3]);
    let l = x.mul_mod(y, z).into_limbs();
    U256 { l0: l[0], l1: l[1], l2: l[2], l3: l[3] }
}

/// Relies on `Uint::wrapping_add`: the sum modulo `2^256`.
#[verifier::external_body]
pub(crate) fn wrapping_add(a: U256, b: U256) -> (r: U256)
    ensures
        r.value() == (a.value() + b.value()) % modulus(),
{
    let x = Word::from_limbs([a.l0, a.l1, a.l2, a.l3]);
    let y = Word::from_limbs([b.l0, b.l1, b.l2, b.l3]);
    let l = x.wrapping_add(y).into_limbs();
    U256 { l0: l[0], l1: l[1], l2: l[2], l3: l[3] }
}

/// Relies on `Uint::checked_add`: the sum, or `None` when it reaches `2^256`.
#[verifier::external_body]
pub(crate) fn checked_add(a: U256, b: U256) -> (r: Option<U256>)
    ensures
        a.value() + b.value() < modulus() ==> r is Some && r->0.value() == a.value() + b.value(),
        a.value() + b.value() >= modulus() ==> r is None,
{
    let x = Word::from_limbs([a.l0, a.l1, a.l2, a.l3]);
    let y = Word::from_limbs([b.l0, b.l1, b.l2, b.l3]);
    match x.checked_add(y) {
        Some(s) => {
            let l = s.into_limbs();
            Some(U256 { l0: l[0], l1: l[1], l2: l[2], l3: l[3] })
        },
        None => None,
    }
}

/// Relies on `Uint::wrapping_sub`: the difference modulo `2^256`.
#[verifier::external_body]
pub(crate) fn wrapping_sub(a: U256, b: U256) -> (r: U256)
    ensures
        r.value() == (a.value() - b.value()) % (modulus() as int),
{
    let x = Word::from_limbs([a.l0, a.l1, a.l2, a.l3]);
    let y = Word::from_limbs([b.l0, b.l1, b.l2, b.l3]);
    let l = x.wrapping_sub(y).into_limbs();
    U256 { l0: l[0], l1: l[1], l2: l[2], l3: l[3] }
}

/// Relies on `Uint::wrapping_div`: the quotient rounded down. It panics on a
/// zero divisor.
#[verifier::external_body]
pub(crate) fn wrapping_div(a: U256, b: U256) -> (r: U256)
    requires
        b.value() != 0,
    ensures
        r.value() == a.value() / b.value(),
{
    let x = Word::from_limbs([a.l0, a.l1, a.l2, a.l3]);
    let y = Word::from_limbs([b.l0, b.l1, b.l2, b.l3]);
    let l = x.wrapping_div(y).into_limbs();
    U256 { l0: l[0], l1: l[1], l2: l[2], l3: l[3] }
}

/// Relies on `Uint::wrapping_rem`: the remainder. It panics on a zero divisor.
#[verifier::external_body]
pub(crate) fn wrapping_rem(a: U256, b: U256) -> (r: U256)
    requires
        b.value() != 0,
    ensures
        r.value() == a.value() % b.value(),
{
    let x = Word::from_limbs([a.l0, a.l1, a.l2, a.l3]);
    let y = Word::from_limbs([b.l0, b.l1, b.l2, b.l3]);
    let l = x.wrapping_rem(y).into_limbs();
    U256 { l0: l[0], l1: l[1], l2: l[2], l3: l[3] }
}

/// Relies on `Uint::wrapping_shl`: `a * 2^s` modulo `2^256`.
#[verifier::external_body]
pub(crate) fn wrapping_shl(a: U256, s: usize) -> (r: U256)
    requires
        s <= 256,
    ensures
        r.value() == (a.value() * pow2(s as nat)) % modulus(),
{
    let l = Word::from_limbs([a.l0, a.l1, a.l2, a.l3]).wrapping_shl(s).into_limbs();
    U256 { l0: l[0], l1: l[1], l2: l[2], l3: l[3] }
}

/// Relies on `Uint::wrapping_shr`: `a / 2^s`, rounded down.
#[verifier::external_body]
pub(crate) fn wrapping_shr(a: U256, s: usize) -> (r: U256)
    requires
        s <= 256,
    ensures
        r.value() == a.value() / pow2(s as nat),
{
    let l = Word::from_limbs([a.l0, a.l1, a.l2, a.l3]).wrapping_shr(s).into_limbs();
    U256 { l0: l[0], l1: l[1], l2: l[2], l3: l[3] }
}

/// Relies on `Uint`'s `BitXor`, which works limb by limb.
#[verifier::external_body]
pub(crate) fn bitxor(a: U256, b: U256) -> (r: U256)
    ensures
        r.l0 == a.l0 ^ b.l0,
        r.l1 == a.l1 ^ b.l1,
        r.l2 == a.l2 ^ b.l2,
        r.l3 == a.l3 ^ b.l3,
{
    let x = Word::from_limbs([a.l0, a.l1, a.l2, a.l3]);
    let y = Word::from_limbs([b.l0, b.l1, b.l2, b.l3]);
    let l = (x ^ y).into_limbs();
    U256 { l0: l[0], l1: l[1], l2: l[2], l3: l[3] }
}

} // verus!
