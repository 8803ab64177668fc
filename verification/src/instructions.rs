//! The operations of the market, one module each.

pub mod add_liquidity;
pub mod burn_empty_position;
pub mod get_price;
pub mod initialize_bin;
pub mod initialize_pool;
pub mod modify_liquidity;
pub mod open_position;
pub mod remove_liquidity;
pub mod swap;
