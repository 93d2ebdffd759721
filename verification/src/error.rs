//! The reasons for which an operation on the pool is rejected.

use vstd::prelude::*;

verus! {

/// Why an operation was rejected. A rejected operation leaves the pool as it
/// was.
#[derive(Clone, Copy, Debug, PartialEq, Eq, Structural)]
pub enum StakingError {
    /// The asset or receipt handed in is not the one the operation takes.
    WrongAsset,
    /// The quantity is not one the operation accepts.
    InvalidAmount,
    /// The asset to distribute is not fungible.
    NotFungible,
    /// There is nobody to distribute to: the total stake share is zero.
    NoStakers,
    /// The position's unlock time has not come yet.
    StakeLocked,
    /// The minimum stake period is negative.
    ConfigurationError,
    /// A quantity, a timestamp or an identifier would leave the range of its
    /// type.
    Overflow,
}

} // verus!
