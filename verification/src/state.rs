//! The records of the ledger: pools, bins and positions.

use vstd::prelude::*;

verus! {

/// The address of an account: 32 bytes.
pub type Address = [u8; 32];

/// A market between two tokens, A and B.
#[derive(Clone, Copy, Debug, PartialEq, Eq)]
pub struct Pool {
    pub bump: u8,
    pub token_a_mint: Address,
    pub token_b_mint: Address,
    pub token_a_vault: Address,
    pub token_b_vault: Address,
    /// The bin that trades at the current price.
    pub active_bin_id: i32,
    /// The distance between two bins, in basis points.
    pub bin_step: u16,
    /// The fee on a swap's input, in basis points.
    pub fee_rate: u16,
    /// What the vault of token A holds.
    pub reserves_a: u64,
    /// What the vault of token B holds.
    pub reserves_b: u64,
}

/// One price bucket of a pool.
#[derive(Clone, Copy, Debug, PartialEq, Eq)]
pub struct Bin {
    pub liquidity: u128,
    /// Fees in token A earned per unit of liquidity, scaled by `PRECISION`.
    pub fee_growth_per_unit_a: u128,
    /// Fees in token B earned per unit of liquidity, scaled by `PRECISION`.
    pub fee_growth_per_unit_b: u128,
}

/// An owner's liquidity, spread evenly over the bins from `lower_bin_id` to
/// `upper_bin_id`.
#[derive(Clone, Copy, Debug, PartialEq, Eq)]
pub struct Position {
    pub pool: Address,
    pub owner: Address,
    pub lower_bin_id: i32,
    pub upper_bin_id: i32,
    pub liquidity: u128,
    pub position_mint: Address,
    /// The fee growth in token A that the position has been paid up to.
    pub fee_growth_snapshot_a: u128,
    /// The fee growth in token B that the position has been paid up to.
    pub fee_growth_snapshot_b: u128,
}

/// A bin record together with the address of the account that holds it.
#[derive(Clone, Copy, Debug, PartialEq, Eq)]
pub struct BinAccount {
    pub key: Address,
    pub bin: Bin,
}

impl Pool {
    /// A pool that can be divided into bins: its bin step is not zero. What
    /// divides a range into bins refuses a pool that is not.
    pub open spec fn well_formed(&self) -> bool {
        self.bin_step > 0
    }
}

impl Position {
    /// A position covers at least two bins.
    pub open spec fn well_formed(&self) -> bool {
        self.lower_bin_id < self.upper_bin_id
    }
}

/// Whether an address is all zeros.
pub open spec fn blank(address: Address) -> bool {
    forall|i: int| 0 <= i < 32 ==> address@[i] == 0
}

impl Default for Pool {
    /// A record of zeros: the blank that a pool is created on.
    fn default() -> (pool: Pool)
        ensures
            blank(pool.token_a_mint),
            blank(pool.token_b_mint),
            blank(pool.token_a_vault),
            blank(pool.token_b_vault),
            pool.bump == 0,
            pool.active_bin_id == 0,
            pool.bin_step == 0,
            pool.fee_rate == 0,
            pool.reserves_a == 0,
            pool.reserves_b == 0,
    {
        Pool {
            bump: 0,
            token_a_mint: [0u8; 32],
            token_b_mint: [0u8; 32],
            token_a_vault: [0u8; 32],
            token_b_vault: [0u8; 32],
            active_bin_id: 0,
            bin_step: 0,
            fee_rate: 0,
            reserves_a: 0,
            reserves_b: 0,
        }
    }
}

impl Default for Position {
    /// A record of zeros: the blank that a position is opened on.
    fn default() -> (position: Position)
        ensures
            blank(position.pool),
            blank(position.owner),
            blank(position.position_mint),
            position.lower_bin_id == 0,
            position.upper_bin_id == 0,
            position.liquidity == 0,
            position.fee_growth_snapshot_a == 0,
            position.fee_growth_snapshot_b == 0,
    {
        Position {
            pool: [0u8; 32],
            owner: [0u8; 32],
            lower_bin_id: 0,
            upper_bin_id: 0,
            liquidity: 0,
            position_mint: [0u8; 32],
            fee_growth_snapshot_a: 0,
            fee_growth_snapshot_b: 0,
        }
    }
}

} // verus!
