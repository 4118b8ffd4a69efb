//! Discovery of profitable cyclic trades over a frozen snapshot of liquidity pools.
//!
//! A pool trades two tokens against each other and prices a trade on demand. The pools of
//! a snapshot form a multigraph on the tokens, and an arbitrage opportunity is a cycle in
//! it: a sequence of trades that starts and ends at one token and brings back more than was
//! put in.
//!
//! - [`address`]: the 32-byte identity of a token or a pool.
//! - [`registry`]: dense indices for the tokens.
//! - [`graph`]: which pools trade which tokens, in the order of their arrival.
//! - [`pool`]: what the search asks of a pool.
//! - [`quarantine`]: the pools that failed to price a trade during a run.
//! - [`arb`]: the snapshot, built pool by pool.
//! - [`search`]: the bounded exhaustive search, defined step by step and carried out.
//! - [`laws`], [`exhaustive`]: what holds of every search, and that it leaves nothing out.
//! - [`orca_pool`], [`tick`], [`decimal`], [`ledger`]: Orca Whirlpool pools, the addresses
//!   of their tick arrays, and what the ledger's own rules give.
//! - [`pairs`]: the choice of candidate pools from what the venues list.

pub mod address;
pub mod arb;
pub mod decimal;
pub mod exhaustive;
pub mod graph;
pub mod laws;
pub mod ledger;
pub mod orca_pool;
pub mod pairs;
pub mod pool;
pub mod quarantine;
pub mod registry;
pub mod search;
pub mod tick;
