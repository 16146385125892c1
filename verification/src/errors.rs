use vstd::prelude::*;

verus! {

/// Everything the engine can refuse. All errors are returned, never silently
/// clamped; a failing operation leaves the curve untouched.
#[derive(Clone, Copy, Debug, PartialEq, Eq, Structural)]
pub enum MarketError {
    /// Overflow, division by zero, or a scale conversion that cannot be
    /// completed exactly and safely.
    MathError,
    /// Total supply above the ceiling, below the minimum per-interval
    /// precision, or not an exact multiple of the interval count.
    InvalidTotalSupply,
    /// The price arrays may be set exactly once.
    PricesAlreadySet,
    /// A bid price above the ask price at the same index.
    BidAskMismatch,
    /// A price array that is not strictly increasing.
    DecreasingPrices,
    /// The final ask price above the absolute ceiling.
    PriceTooHigh,
}

} // verus!
