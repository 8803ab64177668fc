//! A bin-based liquidity market maker: the price curve, the bin walk of a
//! swap, the amounts a liquidity range needs or releases, and the fees a
//! position has earned.

pub mod address;
pub mod constants;
pub mod errors;
pub mod instructions;
pub mod math;
pub mod state;
pub mod theorems;
