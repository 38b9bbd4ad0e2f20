//! Exact 256-bit fixed-point arithmetic for concentrated-liquidity price math.

pub mod bit_math;
pub mod error;
pub mod full_math;
pub mod liquidity_math;
pub mod sqrt_price_math;
pub mod u256;
pub mod unsafe_math;
