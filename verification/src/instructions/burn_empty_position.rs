//! Closing a position.

use vstd::prelude::*;
use crate::address::same_address;
use crate::errors::MyError;
use crate::state::{Address, Position};

verus! {

/// Whether `owner` may close the position: only its owner may, and only once
/// it holds no liquidity.
pub open spec fn may_close(position: Position, owner: Seq<u8>) -> Result<(), MyError> {
    if position.owner@ != owner {
        Err(MyError::Unauthorized)
    } else if position.liquidity != 0 {
        Err(MyError::PositionNotEmpty)
    } else {
        Ok(())
    }
}

/// Agrees to close a position, or says why not.
pub fn handler(position: &Position, owner: &Address) -> (r: Result<(), MyError>)
    ensures
        r == may_close(*position, owner@),
        position.owner@ == owner@ && position.liquidity > 0 ==> r == Err::<(), MyError>(MyError::PositionNotEmpty),
        r is Ok ==> position.liquidity == 0,
{
    if !same_address(&position.owner, owner) {
        return Err(MyError::Unauthorized);
    }
    if position.liquidity != 0 {
        return Err(MyError::PositionNotEmpty);
    }
    Ok(())
}

} // verus!
