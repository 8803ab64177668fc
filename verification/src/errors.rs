//! The ways an operation can be refused.

use vstd::prelude::*;

verus! {

/// Why an operation was refused. Every refusal aborts the whole operation:
/// nothing that the operation was given is changed.
#[derive(Clone, Copy, Debug, PartialEq, Eq, Structural)]
pub enum MyError {
    /// The fee rate and bin step are not a listed pair.
    InvalidParameters,
    /// The two mints are not in canonical order.
    InvalidMintOrder,
    /// A mint is not the pool's mint.
    InvalidMint,
    /// The lower bin id is not below the upper bin id, or a bin lies outside
    /// the position's range.
    InvalidBinRange,
    /// The liquidity to deposit is zero.
    ZeroLiquidity,
    /// The outcome is below the minimum that the caller accepts.
    SlippageExceeded,
    /// The caller does not own the position.
    Unauthorized,
    /// More liquidity is asked for than the position holds.
    InsufficientLiquidity,
    /// The position's liquidity does not allow the operation.
    PositionNotEmpty,
    /// The amount to swap is zero.
    ZeroAmount,
    /// A vault is not the pool's vault.
    InvalidVault,
    /// A bin id is not a multiple of the pool's bin step.
    InvalidBinId,
    /// The range covers more bins than allowed.
    RangeTooWide,
    /// An arithmetic step overflowed, underflowed or divided by zero.
    MathOverflow,
    /// The bin step is zero.
    InvalidBinStep,
    /// The bins ran out before the input did.
    InsufficientLiquidityForSwap,
    /// The number of bins differs from what the ranges need.
    InvalidBinCount,
    /// A bin account does not have the address that its bin id derives.
    InvalidBinAccount,
    /// The position belongs to another pool.
    InvalidPool,
}

} // verus!
