use vstd::prelude::*;

verus! {

/// Number of entries in each price array: one price at each interval boundary.
pub const PRICES_LENGTH: usize = 11;

/// Number of equal-width supply intervals, `PRICES_LENGTH - 1`.
pub const INTERVAL_NUMBER: u64 = 10;

/// Hard ceiling on a market's total supply of base tokens (1e9 whole tokens
/// at 1e6 units per token).
pub const MAX_TOTAL_SUPPLY: u64 = 1_000_000_000_000_000;

/// Absolute ceiling on any price (1e18).
pub const MAX_PRICE: u64 = 1_000_000_000_000_000_000;

/// Fixed-point scale of base-token amounts: units per whole base token (1e6).
pub const BASE_PRECISION: u64 = 1_000_000;

/// The engine's internal fixed-point scale used during integration (1e10).
pub const SCALE: u128 = 10_000_000_000;

/// Factor taking base-token units into the internal scale,
/// `SCALE / BASE_PRECISION` (1e4). The quotient is exact.
pub const NORM_FACTOR: u128 = 10_000;

/// Basis points denominator: 10_000 bps = 100%.
pub const MAX_BPS: u64 = 10_000;

} // verus!
