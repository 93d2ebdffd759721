//! What holds of every pool, and why each operation keeps it so.

use crate::arith::{lemma_per_share_bound, lemma_product_nonnegative, lemma_quotient_nonnegative};
use crate::asset::{AssetId, Holding};
use crate::fixed::{
    amount_limit, precise_limit, precise_one, precise_per_atto, precise_product, widen,
};
use crate::holdings::{has_asset, lemma_asset_index_exists};
use crate::ledger::{
    lemma_share_sum_nonnegative, lemma_share_sum_push, share_sum, AirdropView, PositionView,
};
use crate::model::{
    add_stake_spec, airdrop_spec, claims_between, deposit_rewards_spec, initial_pool, release_spec,
    share_for, window_end, PoolView,
};
use crate::owed::{
    claim_of, lemma_owed_between_absent, lemma_owed_sum_after_airdrop, lemma_owed_sum_push,
    log_nonnegative, owed_sum, positions_fit,
};
use vstd::prelude::*;

verus! {

/// Whether a position is one that the pool `s` can hold.
pub open spec fn position_wf(s: PoolView, p: PositionView) -> bool {
    &&& 1 <= p.id < s.next_id
    &&& 0 <= p.stake_share
    &&& 0 <= p.airdrop_watermark <= s.airdrops.len()
}

/// Whether a log entry is one that the pool `s` can hold.
pub open spec fn entry_wf(s: PoolView, e: AirdropView) -> bool {
    &&& e.asset != s.base_asset
    &&& 0 <= e.amount_per_share
    &&& s.balances.dom().contains(e.asset)
}

/// Whether the pool `s` holds enough of `asset` to pay what its positions
/// are owed of it.
pub open spec fn solvent(s: PoolView, asset: AssetId) -> bool {
    &&& 0 <= s.balances[asset] < amount_limit()
    &&& owed_sum(s.airdrops, s.positions, asset) <= s.balances[asset] * precise_per_atto()
}

/// What holds of every pool between operations: the total share is the sum
/// of the open positions' shares, no balance is negative, there is a base
/// balance exactly where there is a total share, the receipt numbers grow,
/// and of each airdropped asset the pool holds what its positions are owed.
pub open spec fn wf(s: PoolView) -> bool {
    &&& 0 <= s.minimum_stake_period <= i64::MAX
    &&& 1 <= s.next_id <= u64::MAX
    &&& 0 <= s.base_balance < amount_limit()
    &&& 0 <= s.future_rewards < amount_limit()
    &&& s.total_stake_share < precise_limit()
    &&& s.total_stake_share == share_sum(s.positions)
    &&& s.total_stake_share == 0 <==> s.base_balance == 0
    &&& forall|a: AssetId| #[trigger] s.balances.dom().contains(a) ==> solvent(s, a)
    &&& forall|i: int| 0 <= i < s.positions.len() ==> position_wf(s, #[trigger] s.positions[i])
    &&& forall|i: int, j: int|
        0 <= i < j < s.positions.len() ==> (#[trigger] s.positions[i]).id < (
        #[trigger] s.positions[j]).id
    &&& forall|i: int| 0 <= i < s.airdrops.len() ==> entry_wf(s, #[trigger] s.airdrops[i])
}

/// A new pool is well-formed.
pub proof fn lemma_initial_wf(base_asset: AssetId, minimum_stake_period: int)
    requires
        0 <= minimum_stake_period <= i64::MAX,
    ensures
        wf(initial_pool(base_asset, minimum_stake_period)),
{
}

/// The positions and the log of a well-formed pool hold nothing negative.
pub proof fn lemma_wf_fits(s: PoolView)
    requires
        wf(s),
    ensures
        positions_fit(s.positions, s.airdrops.len() as int),
        log_nonnegative(s.airdrops),
        0 <= s.total_stake_share,
{
    assert forall|i: int| 0 <= i < s.positions.len() implies 0 <= (
    #[trigger] s.positions[i]).stake_share && 0 <= s.positions[i].airdrop_watermark
        <= s.airdrops.len() by {
        assert(position_wf(s, s.positions[i]));
    }
    assert forall|i: int| 0 <= i < s.airdrops.len() implies 0 <= (
    #[trigger] s.airdrops[i]).amount_per_share by {
        assert(entry_wf(s, s.airdrops[i]));
    }
    lemma_share_sum_nonnegative(s.positions);
}

/// Nothing is owed of an asset that was never airdropped.
pub proof fn lemma_owed_sum_absent(
    airdrops: Seq<AirdropView>,
    positions: Seq<PositionView>,
    asset: AssetId,
)
    requires
        positions_fit(positions, airdrops.len() as int),
        forall|i: int| 0 <= i < airdrops.len() ==> (#[trigger] airdrops[i]).asset != asset,
    ensures
        owed_sum(airdrops, positions, asset) == 0,
    decreases positions.len(),
{
    if positions.len() > 0 {
        lemma_owed_sum_absent(airdrops, positions.drop_last(), asset);
        let p = positions.last();
        lemma_owed_between_absent(
            airdrops,
            p.stake_share,
            asset,
            p.airdrop_watermark,
            window_end(p.airdrop_watermark, airdrops.len() as int),
        );
    }
}

/// The share that a deposit earns is not negative.
pub proof fn lemma_share_nonnegative(s: PoolView, amount: int)
    requires
        wf(s),
        0 < amount,
        share_for(s, amount) is Some,
    ensures
        0 <= share_for(s, amount).unwrap(),
{
    lemma_share_sum_nonnegative(s.positions);
    if s.base_balance > 0 {
        lemma_product_nonnegative(s.total_stake_share, widen(amount));
        let p = precise_product(s.total_stake_share, widen(amount)).unwrap();
        lemma_quotient_nonnegative(p, widen(s.base_balance));
    }
}

/// A stake that is accepted leaves the pool well-formed.
pub proof fn lemma_add_stake_wf(s: PoolView, bucket: Holding, now: int)
    requires
        wf(s),
        add_stake_spec(s, bucket, now) is Ok,
    ensures
        wf(add_stake_spec(s, bucket, now).unwrap().0),
{
    let (t, p) = add_stake_spec(s, bucket, now).unwrap();
    lemma_share_sum_push(s.positions, p);
    lemma_share_nonnegative(s, bucket.amount);
    lemma_share_sum_nonnegative(s.positions);
    assert forall|a: AssetId| #[trigger] t.balances.dom().contains(a) implies solvent(t, a) by {
        assert(solvent(s, a));
        lemma_owed_sum_push(s.airdrops, s.positions, p, a);
        assert(claim_of(s.airdrops, p, a) == 0);
    }
    assert forall|i: int| 0 <= i < t.positions.len() implies position_wf(
        t,
        #[trigger] t.positions[i],
    ) by {
        if i < s.positions.len() {
            assert(position_wf(s, s.positions[i]));
        }
    }
    assert forall|i: int, j: int| 0 <= i < j < t.positions.len() implies (
    #[trigger] t.positions[i]).id < (#[trigger] t.positions[j]).id by {
        assert(position_wf(s, s.positions[i]));
    }
    assert forall|i: int| 0 <= i < t.airdrops.len() implies entry_wf(
        t,
        #[trigger] t.airdrops[i],
    ) by {
        assert(entry_wf(s, s.airdrops[i]));
    }
}

/// An airdrop that is accepted leaves the pool well-formed.
pub proof fn lemma_airdrop_wf(s: PoolView, bucket: Holding)
    requires
        wf(s),
        airdrop_spec(s, bucket) is Ok,
    ensures
        wf(airdrop_spec(s, bucket).unwrap()),
{
    let t = airdrop_spec(s, bucket).unwrap();
    lemma_wf_fits(s);
    if bucket.asset != s.base_asset {
        let quantity = widen(bucket.amount);
        lemma_quotient_nonnegative(quantity, s.total_stake_share);
        let entry = t.airdrops.last();
        assert(t.airdrops == s.airdrops.push(entry));
        assert(entry.amount_per_share == (quantity * precise_one()) / s.total_stake_share);
        lemma_per_share_bound(quantity, s.total_stake_share);
        if !s.balances.dom().contains(bucket.asset) {
            assert forall|i: int| 0 <= i < s.airdrops.len() implies (
            #[trigger] s.airdrops[i]).asset != bucket.asset by {
                assert(entry_wf(s, s.airdrops[i]));
            }
            lemma_owed_sum_absent(s.airdrops, s.positions, bucket.asset);
        } else {
            assert(solvent(s, bucket.asset));
        }
        assert forall|a: AssetId| #[trigger] t.balances.dom().contains(a) implies solvent(
            t,
            a,
        ) by {
            lemma_owed_sum_after_airdrop(s.airdrops, entry, s.positions, a);
            if a != bucket.asset {
                assert(solvent(s, a));
            }
        }
    } else {
        assert forall|a: AssetId| #[trigger] t.balances.dom().contains(a) implies solvent(
            t,
            a,
        ) by {
            assert(solvent(s, a));
        }
    }
    assert forall|i: int| 0 <= i < t.positions.len() implies position_wf(
        t,
        #[trigger] t.positions[i],
    ) by {
        assert(position_wf(s, s.positions[i]));
    }
    assert forall|i: int| 0 <= i < t.airdrops.len() implies entry_wf(
        t,
        #[trigger] t.airdrops[i],
    ) by {
        if i < s.airdrops.len() {
            assert(entry_wf(s, s.airdrops[i]));
        }
    }
}

/// A deposit of future rewards that is accepted leaves the pool well-formed.
pub proof fn lemma_deposit_rewards_wf(s: PoolView, bucket: Holding)
    requires
        wf(s),
        deposit_rewards_spec(s, bucket) is Ok,
    ensures
        wf(deposit_rewards_spec(s, bucket).unwrap()),
{
    let t = deposit_rewards_spec(s, bucket).unwrap();
    assert forall|a: AssetId| #[trigger] t.balances.dom().contains(a) implies solvent(t, a) by {
        assert(solvent(s, a));
    }
    assert forall|i: int| 0 <= i < t.positions.len() implies position_wf(
        t,
        #[trigger] t.positions[i],
    ) by {
        assert(position_wf(s, s.positions[i]));
    }
    assert forall|i: int| 0 <= i < t.airdrops.len() implies entry_wf(
        t,
        #[trigger] t.airdrops[i],
    ) by {
        assert(entry_wf(s, s.airdrops[i]));
    }
}

/// A release of future rewards that is accepted leaves the pool well-formed.
pub proof fn lemma_release_wf(s: PoolView, amount: int)
    requires
        wf(s),
        release_spec(s, amount) is Ok,
    ensures
        wf(release_spec(s, amount).unwrap()),
{
    let t = release_spec(s, amount).unwrap();
    assert forall|a: AssetId| #[trigger] t.balances.dom().contains(a) implies solvent(t, a) by {
        assert(solvent(s, a));
    }
    assert forall|i: int| 0 <= i < t.positions.len() implies position_wf(
        t,
        #[trigger] t.positions[i],
    ) by {
        assert(position_wf(s, s.positions[i]));
    }
    assert forall|i: int| 0 <= i < t.airdrops.len() implies entry_wf(
        t,
        #[trigger] t.airdrops[i],
    ) by {
        assert(entry_wf(s, s.airdrops[i]));
    }
}

} // verus!
