//! Share accounting for a staking pool with lazily distributed airdrops.
//!
//! Stakers deposit a base asset into a [`pool::FomoStaking`] and hold a share
//! of it. Anyone may airdrop a fungible asset to the stakers: the pool logs
//! the quantity per share, and each staker collects its part when it
//! withdraws. The pool's state is modelled by [`model::PoolView`], each
//! operation by a function on that model, and [`wellformed::wf`] says what
//! holds of every pool. What follows from it for any sequence of operations
//! is proved in [`laws`] and [`proportion`].

pub mod arith;
pub mod asset;
pub mod distribution;
pub mod error;
pub mod fixed;
pub mod holdings;
pub mod laws;
pub mod ledger;
pub mod model;
pub mod owed;
pub mod pool;
pub mod proportion;
pub mod snapshot;
pub mod wellformed;
pub mod withdrawal;
