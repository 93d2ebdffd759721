//! Sequences of holdings, found by asset, and the balances they stand for.

use crate::asset::{AssetId, Bucket, Claim, Holding};
use vstd::prelude::*;

verus! {

/// Whether some holding in `h` is of `asset`.
pub open spec fn has_asset(h: Seq<Holding>, asset: AssetId) -> bool {
    exists|i: int| 0 <= i < h.len() && #[trigger] h[i].asset == asset
}

/// Whether `i` is the index of the first holding of `asset` in `h`.
pub open spec fn is_asset_index(h: Seq<Holding>, asset: AssetId, i: int) -> bool {
    &&& 0 <= i < h.len()
    &&& h[i].asset == asset
    &&& forall|j: int| 0 <= j < i ==> #[trigger] h[j].asset != asset
}

/// The index of the first holding of `asset` in `h`, where there is one.
pub open spec fn asset_index(h: Seq<Holding>, asset: AssetId) -> int {
    choose|i: int| is_asset_index(h, asset, i)
}

/// The quantity of `asset` held in `h`: that of the first holding of it, or
/// zero.
pub open spec fn quantity_of(h: Seq<Holding>, asset: AssetId) -> int {
    if has_asset(h, asset) {
        h[asset_index(h, asset)].amount
    } else {
        0
    }
}

/// The balances that a sequence of holdings stands for: one for each asset
/// held, the quantity of its first holding.
pub open spec fn balances_of(h: Seq<Holding>) -> Map<AssetId, int> {
    Map::new(|a: AssetId| has_asset(h, a), |a: AssetId| h[asset_index(h, a)].amount)
}

/// The models of a sequence of buckets.
pub open spec fn bucket_views(v: Seq<Bucket>) -> Seq<Holding> {
    v.map_values(|b: Bucket| b@)
}

/// The models of a sequence of claims.
pub open spec fn claim_views(v: Seq<Claim>) -> Seq<Holding> {
    v.map_values(|c: Claim| c@)
}

/// The first index at which an asset is held is the only such index.
pub proof fn lemma_asset_index(h: Seq<Holding>, asset: AssetId, i: int)
    requires
        is_asset_index(h, asset, i),
    ensures
        has_asset(h, asset),
        asset_index(h, asset) == i,
{
    let c = asset_index(h, asset);
    assert(is_asset_index(h, asset, c));
    if c < i {
        assert(h[c].asset != asset);
    }
    if i < c {
        assert(h[i].asset != asset);
    }
}

/// An asset that is held has a first index.
pub proof fn lemma_asset_index_exists(h: Seq<Holding>, asset: AssetId)
    requires
        has_asset(h, asset),
    ensures
        is_asset_index(h, asset, asset_index(h, asset)),
{
    let k = choose|i: int| 0 <= i < h.len() && #[trigger] h[i].asset == asset;
    lemma_first_before(h, asset, k);
}

/// An asset held at index `k` has a first index at or before `k`.
proof fn lemma_first_before(h: Seq<Holding>, asset: AssetId, k: int)
    requires
        0 <= k < h.len(),
        h[k].asset == asset,
    ensures
        is_asset_index(h, asset, asset_index(h, asset)),
    decreases k,
{
    if forall|j: int| 0 <= j < k ==> #[trigger] h[j].asset != asset {
        assert(is_asset_index(h, asset, k));
    } else {
        let j = choose|j: int| 0 <= j < k && #[trigger] h[j].asset == asset;
        lemma_first_before(h, asset, j);
    }
}

/// Replacing the quantity of the first holding of an asset replaces the
/// asset's balance and no other.
pub proof fn lemma_balances_update(h: Seq<Holding>, i: int, amount: int)
    requires
        is_asset_index(h, h[i].asset, i),
    ensures
        balances_of(h.update(i, Holding { asset: h[i].asset, amount })) == balances_of(h).insert(
            h[i].asset,
            amount,
        ),
{
    let asset = h[i].asset;
    let h2 = h.update(i, Holding { asset, amount });
    assert forall|a: AssetId| has_asset(h, a) == has_asset(h2, a) by {
        if has_asset(h, a) {
            let k = choose|k: int| 0 <= k < h.len() && #[trigger] h[k].asset == a;
            assert(h2[k].asset == a);
        }
        if has_asset(h2, a) {
            let k = choose|k: int| 0 <= k < h2.len() && #[trigger] h2[k].asset == a;
            assert(h[k].asset == a);
        }
    }
    assert forall|a: AssetId| has_asset(h, a) implies #[trigger] balances_of(h2)[a]
        == balances_of(h).insert(asset, amount)[a] by {
        lemma_asset_index_exists(h, a);
        let k = asset_index(h, a);
        assert(is_asset_index(h2, a, k)) by {
            assert forall|j: int| 0 <= j < k implies #[trigger] h2[j].asset != a by {
                assert(h[j].asset != a);
            }
        }
        lemma_asset_index(h2, a, k);
        if a == asset {
            lemma_asset_index(h, a, i);
        }
    }
    assert(has_asset(h, asset));
    assert(balances_of(h2) =~= balances_of(h).insert(asset, amount));
}

/// Appending a holding of an asset not held yet adds the asset's balance and
/// changes no other.
pub proof fn lemma_balances_push(h: Seq<Holding>, x: Holding)
    requires
        !has_asset(h, x.asset),
    ensures
        balances_of(h.push(x)) == balances_of(h).insert(x.asset, x.amount),
{
    let h2 = h.push(x);
    assert(h2[h.len() as int].asset == x.asset);
    assert forall|a: AssetId| has_asset(h2, a) == (has_asset(h, a) || a == x.asset) by {
        if has_asset(h, a) {
            let k = choose|k: int| 0 <= k < h.len() && #[trigger] h[k].asset == a;
            assert(h2[k].asset == a);
        }
        if has_asset(h2, a) && a != x.asset {
            let k = choose|k: int| 0 <= k < h2.len() && #[trigger] h2[k].asset == a;
            assert(h[k].asset == a);
        }
    }
    assert forall|a: AssetId| has_asset(h2, a) implies #[trigger] balances_of(h2)[a]
        == balances_of(h).insert(x.asset, x.amount)[a] by {
        if a == x.asset {
            assert(is_asset_index(h2, a, h.len() as int)) by {
                assert forall|j: int| 0 <= j < h.len() implies #[trigger] h2[j].asset != a by {
                    assert(h[j].asset != a);
                }
            }
            lemma_asset_index(h2, a, h.len() as int);
        } else {
            lemma_asset_index_exists(h, a);
            let k = asset_index(h, a);
            assert(is_asset_index(h2, a, k)) by {
                assert forall|j: int| 0 <= j < k implies #[trigger] h2[j].asset != a by {
                    assert(h[j].asset != a);
                }
            }
            lemma_asset_index(h2, a, k);
        }
    }
    assert(balances_of(h2) =~= balances_of(h).insert(x.asset, x.amount));
}

/// The index of the first bucket of `asset`, if there is one.
pub fn find_bucket(buckets: &Vec<Bucket>, asset: &AssetId) -> (r: Option<usize>)
    ensures
        match r {
            Some(i) => is_asset_index(bucket_views(buckets@), *asset, i as int),
            None => !has_asset(bucket_views(buckets@), *asset),
        },
{
    let ghost views = bucket_views(buckets@);
    let mut i: usize = 0;
    while i < buckets.len()
        invariant
            i <= buckets.len(),
            views == bucket_views(buckets@),
            forall|j: int| 0 <= j < i ==> #[trigger] views[j].asset != *asset,
        decreases buckets.len() - i,
    {
        if buckets[i].asset.same(asset) {
            return Some(i);
        }
        i += 1;
    }
    None
}

/// The index of the first claim on `asset`, if there is one.
pub fn find_claim(claims: &Vec<Claim>, asset: &AssetId) -> (r: Option<usize>)
    ensures
        match r {
            Some(i) => is_asset_index(claim_views(claims@), *asset, i as int),
            None => !has_asset(claim_views(claims@), *asset),
        },
{
    let ghost views = claim_views(claims@);
    let mut i: usize = 0;
    while i < claims.len()
        invariant
            i <= claims.len(),
            views == claim_views(claims@),
            forall|j: int| 0 <= j < i ==> #[trigger] views[j].asset != *asset,
        decreases claims.len() - i,
    {
        if claims[i].asset.same(asset) {
            return Some(i);
        }
        i += 1;
    }
    None
}

} // verus!
