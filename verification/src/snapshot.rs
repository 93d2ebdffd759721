//! A pool's state as plain data, to be stored and brought back, and the test
//! that tells whether such data is a pool's state.

use crate::arith::lemma_product_nonnegative;
use crate::asset::{AssetId, Bucket};
use crate::fixed::{precise_limit, Amount, Precise};
use crate::holdings::{
    balances_of, bucket_views, find_bucket, is_asset_index, lemma_asset_index,
    lemma_asset_index_exists,
};
use crate::ledger::{
    airdrop_views, lemma_share_sum_nonnegative, lemma_share_sum_push, position_views, share_sum,
    AirdropEntry, AirdropView, PositionView, StakePosition,
};
use crate::model::{window_end, PoolView, MAX_BUCKETS};
use crate::owed::{
    claim_of, lemma_claim_nonnegative, lemma_owed_between_grows, lemma_owed_sum_nonnegative,
    lemma_owed_sum_push, log_nonnegative, owed_between, owed_sum, positions_fit,
};
use crate::wellformed::{entry_wf, position_wf, solvent, wf};
use vstd::prelude::*;

verus! {

/// The state of a pool as plain data.
#[derive(Debug, PartialEq, Eq)]
pub struct PoolSnapshot {
    /// The asset that is staked.
    pub base_asset: AssetId,
    /// The time, in seconds, for which a stake stays locked.
    pub minimum_stake_period: i64,
    /// The quantity of the base asset that the stakers share.
    pub base_balance: Amount,
    /// The quantity of the base asset set aside for later distribution.
    pub future_rewards: Amount,
    /// The sum of the shares of the open positions.
    pub total_stake_share: Precise,
    /// The airdrop log, oldest entry first.
    pub airdrops: Vec<AirdropEntry>,
    /// The balance of each asset that was ever airdropped. Where an asset
    /// occurs twice, its first balance counts.
    pub balances: Vec<Bucket>,
    /// The open positions, oldest first.
    pub positions: Vec<StakePosition>,
    /// The receipt number that the next position gets.
    pub next_id: u64,
}

impl View for PoolSnapshot {
    type V = PoolView;

    open spec fn view(&self) -> PoolView {
        PoolView {
            base_asset: self.base_asset,
            minimum_stake_period: self.minimum_stake_period as int,
            base_balance: self.base_balance@,
            future_rewards: self.future_rewards@,
            total_stake_share: self.total_stake_share@,
            airdrops: airdrop_views(self.airdrops@),
            balances: balances_of(bucket_views(self.balances@)),
            positions: position_views(self.positions@),
            next_id: self.next_id as int,
        }
    }
}

/// A vector with the same items.
pub fn duplicate<T: Copy>(items: &Vec<T>) -> (r: Vec<T>)
    ensures
        r@ == items@,
{
    let mut copy: Vec<T> = Vec::new();
    let mut k: usize = 0;
    while k < items.len()
        invariant
            k <= items.len(),
            copy@ == items@.take(k as int),
        decreases items.len() - k,
    {
        copy.push(items[k]);
        assert(copy@ =~= items@.take(k + 1));
        k += 1;
    }
    assert(copy@ =~= items@);
    copy
}

/// Whether the positions can be those of a pool that gives out `next_id`
/// next and has logged `tip` airdrops: their receipt numbers grow and are
/// below `next_id`, no share is negative, and every watermark is within the
/// log.
pub open spec fn positions_ok(positions: Seq<PositionView>, next_id: int, tip: int) -> bool {
    &&& forall|i: int|
        0 <= i < positions.len() ==> {
            let p = #[trigger] positions[i];
            &&& 1 <= p.id < next_id
            &&& 0 <= p.stake_share
            &&& 0 <= p.airdrop_watermark <= tip
        }
    &&& forall|i: int, j: int|
        0 <= i < j < positions.len() ==> (#[trigger] positions[i]).id < (
        #[trigger] positions[j]).id
}

/// Whether the log entries can be those of a pool with this base asset and
/// these balances: none is of the base asset, none has a negative quantity
/// per share, and the asset of each has a balance.
pub open spec fn entries_ok(
    airdrops: Seq<AirdropView>,
    base: AssetId,
    held: Map<AssetId, int>,
) -> bool {
    forall|i: int|
        0 <= i < airdrops.len() ==> {
            let e = #[trigger] airdrops[i];
            &&& e.asset != base
            &&& 0 <= e.amount_per_share
            &&& held.dom().contains(e.asset)
        }
}

/// The shares of the first positions add up to no more than the shares of
/// all, where none is negative.
pub proof fn lemma_share_sum_prefix(positions: Seq<PositionView>, k: int)
    requires
        0 <= k <= positions.len(),
        forall|i: int| 0 <= i < positions.len() ==> 0 <= (#[trigger] positions[i]).stake_share,
    ensures
        share_sum(positions.take(k)) <= share_sum(positions),
    decreases positions.len(),
{
    if k == positions.len() {
        assert(positions.take(k) =~= positions);
    } else {
        lemma_share_sum_prefix(positions.drop_last(), k);
        assert(positions.drop_last().take(k) =~= positions.take(k));
    }
}

/// The first positions are owed no more than all of them.
pub proof fn lemma_owed_sum_prefix(
    airdrops: Seq<AirdropView>,
    positions: Seq<PositionView>,
    asset: AssetId,
    k: int,
)
    requires
        0 <= k <= positions.len(),
        positions_fit(positions, airdrops.len() as int),
        log_nonnegative(airdrops),
    ensures
        owed_sum(airdrops, positions.take(k), asset) <= owed_sum(airdrops, positions, asset),
    decreases positions.len(),
{
    if k == positions.len() {
        assert(positions.take(k) =~= positions);
    } else {
        lemma_owed_sum_prefix(airdrops, positions.drop_last(), asset, k);
        assert(positions.drop_last().take(k) =~= positions.take(k));
        lemma_claim_nonnegative(airdrops, positions.last(), asset);
    }
}

/// The sum of the positions' shares, where the positions can be a pool's and
/// the sum is a precise value.
pub fn positions_total(positions: &Vec<StakePosition>, next_id: u64, tip: usize) -> (r: Option<
    Precise,
>)
    ensures
        match r {
            Some(total) => positions_ok(position_views(positions@), next_id as int, tip as int)
                && total@ == share_sum(position_views(positions@)),
            None => !positions_ok(position_views(positions@), next_id as int, tip as int)
                || share_sum(position_views(positions@)) >= precise_limit(),
        },
{
    let ghost views = position_views(positions@);
    let mut total = Precise::zero();
    let mut last_id: u64 = 0;
    let mut i: usize = 0;
    assert(views.take(0) =~= Seq::empty());
    while i < positions.len()
        invariant
            i <= positions.len(),
            views == position_views(positions@),
            positions_ok(views.take(i as int), next_id as int, tip as int),
            total@ == share_sum(views.take(i as int)),
            i == 0 ==> last_id == 0,
            i > 0 ==> last_id == views[i - 1].id,
        decreases positions.len() - i,
    {
        let p = positions[i];
        assert(views[i as int] == p@);
        if p.id < 1 || p.id >= next_id || p.id <= last_id || p.stake_share.is_negative()
            || p.airdrop_watermark > tip as u64 {
            proof {
                if positions_ok(views, next_id as int, tip as int) {
                    if i > 0 {
                        assert(views[i - 1].id < views[i as int].id);
                    }
                }
            }
            return None;
        }
        proof {
            assert(views.take(i + 1) =~= views.take(i as int).push(views[i as int]));
            lemma_share_sum_push(views.take(i as int), views[i as int]);
        }
        match total.checked_add(&p.stake_share) {
            Some(sum) => {
                total = sum;
            },
            None => {
                proof {
                    lemma_share_sum_nonnegative(views.take(i as int));
                    if positions_ok(views, next_id as int, tip as int) {
                        lemma_share_sum_prefix(views, i + 1);
                    }
                }
                return None;
            },
        }
        proof {
            let before = views.take(i as int);
            let after = views.take(i + 1);
            assert forall|j: int, k: int| 0 <= j < k < after.len() implies (#[trigger] after[j]).id
                < (#[trigger] after[k]).id by {
                if k < i {
                    assert(before[j].id < before[k].id);
                } else if i > 0 {
                    if j < i - 1 {
                        assert(before[j].id < before[i - 1].id);
                    }
                }
            }
            assert forall|j: int| 0 <= j < after.len() implies {
                let q = #[trigger] after[j];
                &&& 1 <= q.id < next_id
                &&& 0 <= q.stake_share
                &&& 0 <= q.airdrop_watermark <= tip
            } by {
                if j < i {
                    assert(before[j] == after[j]);
                }
            }
        }
        last_id = p.id;
        i += 1;
    }
    assert(views.take(i as int) =~= views);
    Some(total)
}

/// Whether the log entries can be those of a pool with this base asset and
/// these balances.
pub fn log_is_sound(airdrops: &Vec<AirdropEntry>, base: &AssetId, balances: &Vec<Bucket>) -> (r:
    bool)
    ensures
        r == entries_ok(airdrop_views(airdrops@), *base, balances_of(bucket_views(balances@))),
{
    let ghost views = airdrop_views(airdrops@);
    let ghost held = balances_of(bucket_views(balances@));
    let mut i: usize = 0;
    while i < airdrops.len()
        invariant
            i <= airdrops.len(),
            views == airdrop_views(airdrops@),
            held == balances_of(bucket_views(balances@)),
            forall|k: int|
                0 <= k < i ==> {
                    let e = #[trigger] views[k];
                    &&& e.asset != *base
                    &&& 0 <= e.amount_per_share
                    &&& held.dom().contains(e.asset)
                },
        decreases airdrops.len() - i,
    {
        let entry = airdrops[i];
        assert(views[i as int] == entry@);
        let found = find_bucket(balances, &entry.asset);
        if entry.asset.same(base) || entry.amount_per_share.is_negative() || found.is_none() {
            return false;
        }
        proof {
            lemma_asset_index(bucket_views(balances@), entry.asset, found.unwrap() as int);
        }
        i += 1;
    }
    true
}

/// What the position is owed of `asset`, in precise units, where that is a
/// precise value.
pub fn owed_to_position(
    airdrops: &Vec<AirdropEntry>,
    position: &StakePosition,
    asset: &AssetId,
) -> (r: Option<Precise>)
    requires
        log_nonnegative(airdrop_views(airdrops@)),
        0 <= position@.stake_share,
        position@.airdrop_watermark <= airdrops@.len(),
    ensures
        match r {
            Some(owed) => owed@ == claim_of(airdrop_views(airdrops@), position@, *asset),
            None => claim_of(airdrop_views(airdrops@), position@, *asset) >= precise_limit(),
        },
{
    let ghost log = airdrop_views(airdrops@);
    let ghost share = position@.stake_share;
    let tip = airdrops.len();
    let lo = position.airdrop_watermark as usize;
    let hi = if tip - lo <= MAX_BUCKETS {
        tip
    } else {
        lo + MAX_BUCKETS
    };
    let mut owed = Precise::zero();
    let mut i = lo;
    while i < hi
        invariant
            lo <= i <= hi <= airdrops.len(),
            lo == position@.airdrop_watermark,
            hi as int == window_end(lo as int, airdrops@.len() as int),
            log == airdrop_views(airdrops@),
            log_nonnegative(log),
            share == position@.stake_share,
            0 <= share,
            owed@ == owed_between(log, share, *asset, lo as int, i as int),
        decreases hi - i,
    {
        let entry = airdrops[i];
        assert(log[i as int] == entry@);
        proof {
            lemma_product_nonnegative(share, entry@.amount_per_share);
            lemma_owed_between_grows(log, share, *asset, lo as int, i + 1, hi as int);
            lemma_owed_between_grows(log, share, *asset, lo as int, i as int, i as int);
        }
        if entry.asset.same(asset) {
            let part = match position.stake_share.checked_mul(&entry.amount_per_share) {
                Some(part) => part,
                None => {
                    return None;
                },
            };
            match owed.checked_add(&part) {
                Some(sum) => {
                    owed = sum;
                },
                None => {
                    return None;
                },
            }
        }
        i += 1;
    }
    Some(owed)
}

/// What the positions together are owed of `asset`, in precise units, where
/// that is a precise value.
pub fn owed_to_all(
    airdrops: &Vec<AirdropEntry>,
    positions: &Vec<StakePosition>,
    asset: &AssetId,
) -> (r: Option<Precise>)
    requires
        log_nonnegative(airdrop_views(airdrops@)),
        positions_fit(position_views(positions@), airdrops@.len() as int),
    ensures
        match r {
            Some(owed) => owed@ == owed_sum(
                airdrop_views(airdrops@),
                position_views(positions@),
                *asset,
            ),
            None => owed_sum(airdrop_views(airdrops@), position_views(positions@), *asset)
                >= precise_limit(),
        },
{
    let ghost log = airdrop_views(airdrops@);
    let ghost views = position_views(positions@);
    let mut owed = Precise::zero();
    let mut i: usize = 0;
    assert(views.take(0) =~= Seq::empty());
    while i < positions.len()
        invariant
            i <= positions.len(),
            log == airdrop_views(airdrops@),
            views == position_views(positions@),
            log_nonnegative(log),
            positions_fit(views, log.len() as int),
            owed@ == owed_sum(log, views.take(i as int), *asset),
        decreases positions.len() - i,
    {
        let position = positions[i];
        assert(views[i as int] == position@);
        proof {
            assert(views.take(i + 1) =~= views.take(i as int).push(views[i as int]));
            lemma_owed_sum_push(log, views.take(i as int), views[i as int], *asset);
            lemma_owed_sum_prefix(log, views, *asset, i + 1);
            lemma_claim_nonnegative(log, views[i as int], *asset);
            lemma_owed_sum_prefix(log, views, *asset, i as int);
            assert(positions_fit(views.take(i as int), log.len() as int));
            lemma_owed_sum_nonnegative(log, views.take(i as int), *asset);
        }
        let part = match owed_to_position(airdrops, &position, asset) {
            Some(part) => part,
            None => {
                return None;
            },
        };
        match owed.checked_add(&part) {
            Some(sum) => {
                owed = sum;
            },
            None => {
                return None;
            },
        }
        i += 1;
    }
    assert(views.take(i as int) =~= views);
    Some(owed)
}

/// Whether the snapshot's balances are not negative and cover what its
/// positions are owed.
pub fn balances_cover(snapshot: &PoolSnapshot) -> (r: bool)
    requires
        log_nonnegative(snapshot@.airdrops),
        positions_fit(snapshot@.positions, snapshot@.airdrops.len() as int),
    ensures
        r == forall|a: AssetId| #[trigger]
            snapshot@.balances.dom().contains(a) ==> solvent(snapshot@, a),
{
    let ghost s = snapshot@;
    let ghost held = bucket_views(snapshot.balances@);
    let mut j: usize = 0;
    while j < snapshot.balances.len()
        invariant
            j <= snapshot.balances.len(),
            s == snapshot@,
            held == bucket_views(snapshot.balances@),
            log_nonnegative(s.airdrops),
            positions_fit(s.positions, s.airdrops.len() as int),
            forall|k: int|
                0 <= k < j && is_asset_index(held, (#[trigger] held[k]).asset, k) ==> solvent(
                    s,
                    held[k].asset,
                ),
        decreases snapshot.balances.len() - j,
    {
        let bucket = snapshot.balances[j];
        assert(held[j as int] == bucket@);
        let first = find_bucket(&snapshot.balances, &bucket.asset);
        if first == Some(j) {
            proof {
                lemma_asset_index(held, bucket.asset, j as int);
                bucket.amount.lemma_range();
            }
            let covered = !bucket.amount.is_negative() && match owed_to_all(
                &snapshot.airdrops,
                &snapshot.positions,
                &bucket.asset,
            ) {
                Some(owed) => !bucket.amount.to_precise().lt(&owed),
                None => false,
            };
            if !covered {
                assert(s.balances.dom().contains(bucket.asset));
                assert(!solvent(s, bucket.asset));
                return false;
            }
        } else {
            proof {
                if is_asset_index(held, bucket.asset, j as int) {
                    lemma_asset_index(held, bucket.asset, j as int);
                    lemma_asset_index(held, bucket.asset, first.unwrap() as int);
                }
            }
        }
        j += 1;
    }
    proof {
        assert forall|a: AssetId| #[trigger] s.balances.dom().contains(a) implies solvent(s, a) by {
            lemma_asset_index_exists(held, a);
            let k = crate::holdings::asset_index(held, a);
            assert(is_asset_index(held, held[k].asset, k));
        }
    }
    true
}

/// Whether the snapshot is the state of a well-formed pool.
pub fn is_well_formed(snapshot: &PoolSnapshot) -> (r: bool)
    ensures
        r == wf(snapshot@),
{
    let ghost s = snapshot@;
    if snapshot.minimum_stake_period < 0 || snapshot.next_id < 1
        || snapshot.base_balance.is_negative() || snapshot.future_rewards.is_negative() {
        return false;
    }
    proof {
        snapshot.base_balance.lemma_range();
        snapshot.future_rewards.lemma_range();
        snapshot.total_stake_share.lemma_range();
    }
    let total = match positions_total(
        &snapshot.positions,
        snapshot.next_id,
        snapshot.airdrops.len(),
    ) {
        Some(total) => total,
        None => {
            proof {
                if wf(s) {
                    assert forall|i: int| 0 <= i < s.positions.len() implies {
                        let p = #[trigger] s.positions[i];
                        &&& 1 <= p.id < s.next_id
                        &&& 0 <= p.stake_share
                        &&& 0 <= p.airdrop_watermark <= s.airdrops.len()
                    } by {
                        assert(position_wf(s, s.positions[i]));
                    }
                }
            }
            return false;
        },
    };
    proof {
        assert forall|i: int| 0 <= i < s.positions.len() implies position_wf(
            s,
            #[trigger] s.positions[i],
        ) by {}
    }
    if total.lt(&snapshot.total_stake_share) || snapshot.total_stake_share.lt(&total) {
        return false;
    }
    if snapshot.total_stake_share.is_zero() != snapshot.base_balance.is_zero() {
        return false;
    }
    if !log_is_sound(&snapshot.airdrops, &snapshot.base_asset, &snapshot.balances) {
        proof {
            if wf(s) {
                assert forall|i: int| 0 <= i < s.airdrops.len() implies {
                    let e = #[trigger] s.airdrops[i];
                    &&& e.asset != s.base_asset
                    &&& 0 <= e.amount_per_share
                    &&& s.balances.dom().contains(e.asset)
                } by {
                    assert(entry_wf(s, s.airdrops[i]));
                }
            }
        }
        return false;
    }
    proof {
        assert forall|i: int| 0 <= i < s.airdrops.len() implies entry_wf(
            s,
            #[trigger] s.airdrops[i],
        ) by {}
        assert(log_nonnegative(s.airdrops));
        assert(positions_fit(s.positions, s.airdrops.len() as int));
    }
    balances_cover(snapshot)
}

} // verus!
