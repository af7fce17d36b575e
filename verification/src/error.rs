//! Why a pool operation was refused.

use vstd::prelude::*;

verus! {

/// The reasons for which an operation leaves the pool untouched.
#[derive(Clone, Copy, Debug, PartialEq, Eq, Structural)]
pub enum PoolError {
    /// The lower tick is not below the upper one, or one of them lies outside
    /// the supported range.
    InvalidRange,
    /// A tick or a square-root price lies outside the supported range.
    OutOfBounds,
    /// No position is held under the given token.
    InsufficientOwnership,
    /// The operation would add or remove no liquidity.
    ZeroLiquidity,
    /// A number left the range of the fixed-point representation.
    Overflow,
}

} // verus!
