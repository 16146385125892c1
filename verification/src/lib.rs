//! A deterministic bonding-curve pricing engine.
//!
//! Given a piecewise-linear price curve over a token's supply range, the
//! engine converts between the amount of base token moved and the amount of
//! quote token moved in either trading direction, and splits a swap fee among
//! stakeholders. All arithmetic is scaled fixed-point integration over the
//! curve's segments, with an explicit rounding direction at every division so
//! that rounding always favors the protocol.

pub mod constant;
pub mod errors;
pub mod laws;
pub mod market;
pub mod math;
