//! The pool as a mathematical value, and what each operation makes of it.

use crate::asset::{AssetId, Holding};
use crate::error::StakingError;
use crate::fixed::{
    amount_difference, amount_sum, precise_difference, precise_one, precise_product,
    precise_quotient, precise_sum, truncate, widen,
};
use crate::holdings::{asset_index, has_asset};
use crate::ledger::{has_position, position_index, AirdropView, PositionView};
use vstd::prelude::*;

verus! {

/// The largest number of airdrops that one withdrawal pays out, and so the
/// largest number of assets other than the base asset that it returns.
pub const MAX_BUCKETS: usize = 100;

/// The state of a pool.
pub struct PoolView {
    /// The asset that is staked.
    pub base_asset: AssetId,
    /// The time, in seconds, for which a stake stays locked.
    pub minimum_stake_period: int,
    /// The quantity of the base asset that the stakers share.
    pub base_balance: int,
    /// The quantity of the base asset set aside for later distribution.
    pub future_rewards: int,
    /// The sum of the shares of the open positions.
    pub total_stake_share: int,
    /// The airdrop log. The entry at index `i` has number `i + 1`.
    pub airdrops: Seq<AirdropView>,
    /// The quantity held of each asset that was ever airdropped, the base
    /// asset apart.
    pub balances: Map<AssetId, int>,
    /// The open positions, oldest first.
    pub positions: Seq<PositionView>,
    /// The receipt number that the next position gets.
    pub next_id: int,
}

/// The pool before anything has happened to it.
pub open spec fn initial_pool(base_asset: AssetId, minimum_stake_period: int) -> PoolView {
    PoolView {
        base_asset,
        minimum_stake_period,
        base_balance: 0,
        future_rewards: 0,
        total_stake_share: 0,
        airdrops: Seq::empty(),
        balances: Map::empty(),
        positions: Seq::empty(),
        next_id: 1,
    }
}

/// The share that a deposit of `amount` earns: one whole where the pool holds
/// nothing, else the total share times the deposit's fraction of what the
/// pool held before it.
pub open spec fn share_for(s: PoolView, amount: int) -> Option<int> {
    if s.base_balance > 0 {
        match precise_product(s.total_stake_share, widen(amount)) {
            Some(p) => precise_quotient(p, widen(s.base_balance)),
            None => None,
        }
    } else {
        Some(precise_one())
    }
}

/// The pool after a deposit of `amount` at time `now`, and the position that
/// the deposit opens, where every number stays within its range.
pub open spec fn staked(s: PoolView, amount: int, now: int) -> Option<(PoolView, PositionView)> {
    match share_for(s, amount) {
        Some(share) => match (
            amount_sum(s.base_balance, amount),
            precise_sum(s.total_stake_share, share),
        ) {
            (Some(base_balance), Some(total_stake_share)) => if now + s.minimum_stake_period
                <= i64::MAX && s.next_id < u64::MAX {
                let position = PositionView {
                    id: s.next_id,
                    stake_timestamp: now,
                    unlock_timestamp: now + s.minimum_stake_period,
                    amount_staked: amount,
                    stake_share: share,
                    airdrop_watermark: s.airdrops.len() as int,
                };
                Some(
                    (
                        PoolView {
                            base_balance,
                            total_stake_share,
                            positions: s.positions.push(position),
                            next_id: s.next_id + 1,
                            ..s
                        },
                        position,
                    ),
                )
            } else {
                None
            },
            _ => None,
        },
        None => None,
    }
}

/// What staking `bucket` at time `now` gives: the new pool and the new
/// position, or the reason for which the stake is rejected.
pub open spec fn add_stake_spec(s: PoolView, bucket: Holding, now: int) -> Result<
    (PoolView, PositionView),
    StakingError,
> {
    if bucket.asset != s.base_asset {
        Err(StakingError::WrongAsset)
    } else if bucket.amount <= 0 {
        Err(StakingError::InvalidAmount)
    } else {
        match staked(s, bucket.amount, now) {
            Some(r) => Ok(r),
            None => Err(StakingError::Overflow),
        }
    }
}

/// The balance of `asset`, zero where none was ever airdropped.
pub open spec fn balance_of(s: PoolView, asset: AssetId) -> int {
    if s.balances.dom().contains(asset) {
        s.balances[asset]
    } else {
        0
    }
}

/// The pool after `bucket` has been given to the stakers, where every number
/// stays within its range. A quantity of the base asset joins the base
/// balance; one of another asset is logged per share and joins that asset's
/// balance.
pub open spec fn airdropped(s: PoolView, bucket: Holding) -> Option<PoolView> {
    if bucket.asset == s.base_asset {
        match amount_sum(s.base_balance, bucket.amount) {
            Some(base_balance) => Some(PoolView { base_balance, ..s }),
            None => None,
        }
    } else {
        match (
            precise_quotient(widen(bucket.amount), s.total_stake_share),
            amount_sum(balance_of(s, bucket.asset), bucket.amount),
        ) {
            (Some(amount_per_share), Some(balance)) => Some(
                PoolView {
                    airdrops: s.airdrops.push(
                        AirdropView { asset: bucket.asset, amount_per_share },
                    ),
                    balances: s.balances.insert(bucket.asset, balance),
                    ..s
                },
            ),
            _ => None,
        }
    }
}

/// What an airdrop of `bucket` gives: the new pool, or the reason for which
/// the airdrop is rejected.
pub open spec fn airdrop_spec(s: PoolView, bucket: Holding) -> Result<PoolView, StakingError> {
    if !bucket.asset.fungible() {
        Err(StakingError::NotFungible)
    } else if bucket.amount <= 0 {
        Err(StakingError::InvalidAmount)
    } else if s.total_stake_share == 0 {
        Err(StakingError::NoStakers)
    } else {
        match airdropped(s, bucket) {
            Some(r) => Ok(r),
            None => Err(StakingError::Overflow),
        }
    }
}

/// What setting `bucket` aside as future rewards gives.
pub open spec fn deposit_rewards_spec(s: PoolView, bucket: Holding) -> Result<
    PoolView,
    StakingError,
> {
    if bucket.asset != s.base_asset {
        Err(StakingError::WrongAsset)
    } else if bucket.amount < 0 {
        Err(StakingError::InvalidAmount)
    } else {
        match amount_sum(s.future_rewards, bucket.amount) {
            Some(future_rewards) => Ok(PoolView { future_rewards, ..s }),
            None => Err(StakingError::Overflow),
        }
    }
}

/// What releasing `amount` of the future rewards to the stakers gives.
pub open spec fn release_spec(s: PoolView, amount: int) -> Result<PoolView, StakingError> {
    if s.total_stake_share == 0 {
        Err(StakingError::NoStakers)
    } else if amount < 0 || amount > s.future_rewards {
        Err(StakingError::InvalidAmount)
    } else {
        match amount_sum(s.base_balance, amount) {
            Some(base_balance) => Ok(
                PoolView { base_balance, future_rewards: s.future_rewards - amount, ..s },
            ),
            None => Err(StakingError::Overflow),
        }
    }
}

/// The quantity of the base asset that a share of `share` out of `total`
/// takes from a balance of `balance`: the share's fraction of the balance,
/// rounded toward zero.
pub open spec fn base_payout(share: int, total: int, balance: int) -> Option<int> {
    match precise_quotient(share, total) {
        Some(ratio) => match precise_product(ratio, widen(balance)) {
            Some(gross) => truncate(gross),
            None => None,
        },
        None => None,
    }
}

/// The index after the last log entry that a position with `watermark` is
/// paid from, in a log of `tip` entries: the first [`MAX_BUCKETS`] entries
/// after the watermark are paid, later ones are not.
pub open spec fn window_end(watermark: int, tip: int) -> int {
    if tip - watermark <= MAX_BUCKETS as int {
        tip
    } else {
        watermark + MAX_BUCKETS as int
    }
}

/// The claims with `amount` of `asset` added: to the claim on that asset
/// where there is one, else as a new claim, unless there are
/// [`MAX_BUCKETS`] claims already, in which case it is dropped.
pub open spec fn add_claim(claims: Seq<Holding>, asset: AssetId, amount: int) -> Option<
    Seq<Holding>,
> {
    if has_asset(claims, asset) {
        let j = asset_index(claims, asset);
        match precise_sum(claims[j].amount, amount) {
            Some(sum) => Some(claims.update(j, Holding { asset, amount: sum })),
            None => None,
        }
    } else if claims.len() < MAX_BUCKETS as int {
        Some(claims.push(Holding { asset, amount }))
    } else {
        Some(claims)
    }
}

/// What a share of `share` claims from the log entries at the indices from
/// `lo` up to, not including, `hi`: for each asset, in the order of first
/// occurrence, the sum over its entries of the share times the entry's
/// quantity per share.
pub open spec fn claims_between(airdrops: Seq<AirdropView>, share: int, lo: int, hi: int) -> Option<
    Seq<Holding>,
>
    decreases hi - lo,
{
    if hi <= lo {
        Some(Seq::empty())
    } else {
        match claims_between(airdrops, share, lo, hi - 1) {
            Some(claims) => match precise_product(share, airdrops[hi - 1].amount_per_share) {
                Some(amount) => add_claim(claims, airdrops[hi - 1].asset, amount),
                None => None,
            },
            None => None,
        }
    }
}

/// Whether every claim can be rounded to an amount.
pub open spec fn can_pay(claims: Seq<Holding>) -> bool {
    forall|i: int| 0 <= i < claims.len() ==> (#[trigger] truncate(claims[i].amount)) is Some
}

/// What is paid for the claims: each rounded toward zero to an amount.
pub open spec fn payouts_for(claims: Seq<Holding>) -> Seq<Holding> {
    Seq::new(
        claims.len(),
        |i: int| Holding { asset: claims[i].asset, amount: truncate(claims[i].amount).unwrap() },
    )
}

/// The balances after the first `n` of `payouts` have been taken from them,
/// each from the balance of its asset. There are none where an asset has no
/// balance or a balance leaves its range.
pub open spec fn debited(balances: Map<AssetId, int>, payouts: Seq<Holding>, n: int) -> Option<
    Map<AssetId, int>,
>
    decreases n,
{
    if n <= 0 {
        Some(balances)
    } else {
        match debited(balances, payouts, n - 1) {
            Some(b) => if b.dom().contains(payouts[n - 1].asset) {
                match amount_difference(b[payouts[n - 1].asset], payouts[n - 1].amount) {
                    Some(rest) => Some(b.insert(payouts[n - 1].asset, rest)),
                    None => None,
                }
            } else {
                None
            },
            None => None,
        }
    }
}

/// The pool after the position at index `i` has been withdrawn, and what the
/// withdrawal pays, base asset first, where every number stays within its
/// range.
pub open spec fn settled(s: PoolView, i: int) -> Option<(PoolView, Seq<Holding>)> {
    let p = s.positions[i];
    match (
        base_payout(p.stake_share, s.total_stake_share, s.base_balance),
        precise_difference(s.total_stake_share, p.stake_share),
        claims_between(
            s.airdrops,
            p.stake_share,
            p.airdrop_watermark,
            window_end(p.airdrop_watermark, s.airdrops.len() as int),
        ),
    ) {
        (Some(base), Some(total_stake_share), Some(claims)) => match amount_difference(
            s.base_balance,
            base,
        ) {
            Some(base_balance) => if can_pay(claims) {
                let payouts = payouts_for(claims);
                match debited(s.balances, payouts, payouts.len() as int) {
                    Some(balances) => Some(
                        (
                            PoolView {
                                base_balance,
                                total_stake_share,
                                balances,
                                positions: s.positions.remove(i),
                                ..s
                            },
                            seq![Holding { asset: s.base_asset, amount: base }] + payouts,
                        ),
                    ),
                    None => None,
                }
            } else {
                None
            },
            None => None,
        },
        _ => None,
    }
}

/// What withdrawing the position with receipt number `id` at time `now`
/// gives: the new pool and the payouts, or the reason for which the
/// withdrawal is rejected.
pub open spec fn remove_stake_spec(s: PoolView, id: int, now: int) -> Result<
    (PoolView, Seq<Holding>),
    StakingError,
> {
    if !has_position(s.positions, id) {
        Err(StakingError::WrongAsset)
    } else {
        let i = position_index(s.positions, id);
        if now < s.positions[i].unlock_timestamp {
            Err(StakingError::StakeLocked)
        } else if s.total_stake_share == 0 {
            Err(StakingError::NoStakers)
        } else {
            match settled(s, i) {
                Some(r) => Ok(r),
                None => Err(StakingError::Overflow),
            }
        }
    }
}

} // verus!
