use vstd::prelude::*;
use crate::error::UniswapV3MathError;
use crate::i256::I256;
use crate::u256::U256;

verus! {

/// Reinterprets an unsigned 256-bit pattern as a signed value; no bits change.
pub fn u256_to_i256(u: U256) -> (r: I256)
    ensures
        r.rep == u,
{
    I256 { rep: u }
}

/// Reinterprets a signed 256-bit pattern as an unsigned value; no bits change.
pub fn i256_to_u256(i: I256) -> (r: U256)
    ensures
        r == i.rep,
{
    i.rep
}

/// The value carried by a `Result` over 256-bit integers, for use in contracts.
pub open spec fn res_v(r: Result<U256, UniswapV3MathError>) -> Result<
    nat,
    UniswapV3MathError,
> {
    match r {
        Ok(q) => Ok(q.v()),
        Err(e) => Err(e),
    }
}

} // verus!
