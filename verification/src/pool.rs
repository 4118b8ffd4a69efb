//! What the search knows of a pool: who it is, which two tokens it trades, and how to ask
//! it for a price.

use crate::address::Address;
use vstd::prelude::*;

verus! {

/// What a pool answers when it cannot price a trade now: no liquidity, stale state, or an
/// amount outside its range. It is a signal, not a price of zero.
pub const NO_QUOTE: u64 = 0;

/// The venue a pool belongs to.
#[derive(Debug, Copy, Clone, PartialEq, Eq, Structural)]
pub enum PoolType {
    RaydiumAmm,
    Orca,
    Meteora,
}

/// A pool as the search sees it. A pool is a frozen snapshot: what it answers depends on
/// the question alone, so asking twice gives the same answer.
pub trait PoolOperations {
    /// The price list of the pool: what it pays out for `amount_in` of its first token
    /// (`a_to_b`) or of its second, `NO_QUOTE` where it cannot serve the trade.
    spec fn quote(&self, a_to_b: bool, amount_in: u64) -> u64;

    /// Asks the pool what it pays out for `amount_in`.
    fn calc_quote(&self, a_to_b: bool, amount_in: u64) -> (amount_out: u64)
        ensures
            amount_out == self.quote(a_to_b, amount_in),
    ;

    /// The two tokens of the pool, in the pool's own order: the first is the one that an
    /// `a_to_b` trade pays in.
    spec fn mints(&self) -> (Address, Address);

    /// The identity that the venue gave the pool.
    spec fn id(&self) -> Address;

    /// Asks the pool for its two tokens.
    fn get_mints(&self) -> (mints: (Address, Address))
        ensures
            mints == self.mints(),
    ;

    /// Asks the pool for its identity.
    fn get_pool_id(&self) -> (id: Address)
        ensures
            id == self.id(),
    ;
}

/// What a venue's pricing came to, as an amount: the amount where there is one, `NO_QUOTE`
/// where the pricing failed.
pub fn amount_or_no_quote(priced: Option<u64>) -> (amount_out: u64)
    ensures
        amount_out == match priced {
            Some(amount) => amount,
            None => NO_QUOTE,
        },
{
    match priced {
        Some(amount) => amount,
        None => NO_QUOTE,
    }
}

} // verus!
