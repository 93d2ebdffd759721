//! Asset identifiers and quantities of an asset.

use crate::fixed::{Amount, Precise};
use scrypto::types::ResourceAddress;
use vstd::prelude::*;

verus! {

/// The number of bytes in an asset identifier.
pub const ASSET_ID_LENGTH: usize = 30;

/// The first byte of the identifier of every fungible asset.
pub const FUNGIBLE_MARK: u8 = 93;

/// The identifier of an asset: the bytes of its resource address.
#[derive(Clone, Copy, Debug, PartialEq, Eq)]
pub struct AssetId {
    pub bytes: [u8; 30],
}

/// A quantity of one asset: what a caller hands in or gets back.
#[derive(Clone, Copy, Debug, PartialEq, Eq)]
pub struct Bucket {
    pub asset: AssetId,
    pub amount: Amount,
}

/// A claim on one asset, in precise units.
#[derive(Clone, Copy, Debug, PartialEq, Eq)]
pub struct Claim {
    pub asset: AssetId,
    pub amount: Precise,
}

/// An asset and an integer number of units of it: the model of a [`Bucket`]
/// (in units of `10^-18`) and of a [`Claim`] (in units of `10^-36`).
pub struct Holding {
    pub asset: AssetId,
    pub amount: int,
}

impl View for Bucket {
    type V = Holding;

    open spec fn view(&self) -> Holding {
        Holding { asset: self.asset, amount: self.amount@ }
    }
}

impl View for Claim {
    type V = Holding;

    open spec fn view(&self) -> Holding {
        Holding { asset: self.asset, amount: self.amount@ }
    }
}

impl AssetId {
    /// Whether the identifier names a divisible, fungible asset.
    pub open spec fn fungible(&self) -> bool {
        self.bytes[0] == FUNGIBLE_MARK
    }

    /// Whether the two identifiers are the same.
    pub fn same(&self, other: &AssetId) -> (r: bool)
        ensures
            r == (*self == *other),
    {
        let mut i: usize = 0;
        while i < 30
            invariant
                i <= 30,
                forall|j: int| 0 <= j < i ==> self.bytes[j] == other.bytes[j],
            decreases 30 - i,
        {
            if self.bytes[i] != other.bytes[i] {
                return false;
            }
            i += 1;
        }
        assert(self.bytes =~= other.bytes);
        true
    }

    /// Whether the identifier names a divisible, fungible asset.
    pub fn is_fungible(&self) -> (r: bool)
        ensures
            r == self.fungible(),
    {
        resource_is_fungible(self)
    }
}

/// `ResourceAddress::is_fungible` of `scrypto`, on the address made of the
/// identifier's bytes: whether the first byte is the entity type of a
/// fungible resource manager, 93. Bytes that are no resource address at all
/// begin with neither that byte nor the one of a non-fungible resource, and
/// count as not fungible.
#[verifier::external_body]
fn resource_is_fungible(asset: &AssetId) -> (r: bool)
    ensures
        r == asset.fungible(),
{
    match ResourceAddress::try_from(asset.bytes) {
        Ok(address) => address.is_fungible(),
        Err(_) => false,
    }
}

} // verus!
