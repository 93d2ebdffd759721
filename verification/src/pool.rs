//! The staking pool and its operations.

use crate::asset::{AssetId, Bucket, Holding};
use crate::distribution::{base_payout_of, collect_claims, debit, pay_claims};
use crate::error::StakingError;
use crate::fixed::{amount_sum, Amount, Precise};
use crate::holdings::{
    balances_of, bucket_views, find_bucket, lemma_asset_index, lemma_balances_push,
    lemma_balances_update,
};
use crate::laws::{lemma_lock_decides, lemma_remove_stake_retires, retired};
use crate::ledger::{
    airdrop_views, find_position, has_position, is_position_index, lemma_position_index_exists,
    position_index, position_views, AirdropEntry, AirdropEvent, StakePosition,
};
use crate::model::{
    add_stake_spec, airdrop_spec, airdropped, deposit_rewards_spec, initial_pool, release_spec,
    remove_stake_spec, staked, PoolView, MAX_BUCKETS,
};
use crate::snapshot::{duplicate, is_well_formed, PoolSnapshot};
use crate::wellformed::{
    lemma_add_stake_wf, lemma_airdrop_wf, lemma_deposit_rewards_wf, lemma_initial_wf,
    lemma_release_wf, position_wf, wf,
};
use crate::withdrawal::{lemma_remove_stake_wf, lemma_settled};
use vstd::prelude::*;

verus! {

/// A staking pool: the base asset that is staked, the shares of those who
/// staked it, and the airdrops that are owed to them.
pub struct FomoStaking {
    fomo: AssetId,
    fomo_vault: Amount,
    vaults: Vec<Bucket>,
    airdrops: Vec<AirdropEntry>,
    minimum_stake_period: i64,
    next_staked_fomo_id: u64,
    total_stake_share: Precise,
    future_rewards: Amount,
    positions: Vec<StakePosition>,
}

impl View for FomoStaking {
    type V = PoolView;

    closed spec fn view(&self) -> PoolView {
        PoolView {
            base_asset: self.fomo,
            minimum_stake_period: self.minimum_stake_period as int,
            base_balance: self.fomo_vault@,
            future_rewards: self.future_rewards@,
            total_stake_share: self.total_stake_share@,
            airdrops: airdrop_views(self.airdrops@),
            balances: balances_of(bucket_views(self.vaults@)),
            positions: position_views(self.positions@),
            next_id: self.next_staked_fomo_id as int,
        }
    }
}

/// The models of the buckets that an operation returns.
pub open spec fn returned_views(r: Result<Vec<Bucket>, StakingError>) -> Seq<Holding> {
    match r {
        Ok(buckets) => bucket_views(buckets@),
        Err(_) => Seq::empty(),
    }
}

impl FomoStaking {
    /// Whether the pool is one that the operations can have made.
    pub open spec fn wf(&self) -> bool {
        wf(self@)
    }

    /// A pool for stakes of `fomo` that stay locked for
    /// `minimum_stake_period` seconds. A negative period is rejected.
    pub fn new(fomo: AssetId, minimum_stake_period: i64) -> (r: Result<FomoStaking, StakingError>)
        ensures
            match r {
                Ok(pool) => minimum_stake_period >= 0 && pool.wf() && pool@ == initial_pool(
                    fomo,
                    minimum_stake_period as int,
                ),
                Err(e) => minimum_stake_period < 0 && e == StakingError::ConfigurationError,
            },
    {
        if minimum_stake_period < 0 {
            return Err(StakingError::ConfigurationError);
        }
        let pool = FomoStaking {
            fomo,
            fomo_vault: Amount::zero(),
            vaults: Vec::new(),
            airdrops: Vec::new(),
            minimum_stake_period,
            next_staked_fomo_id: 1,
            total_stake_share: Precise::zero(),
            future_rewards: Amount::zero(),
            positions: Vec::new(),
        };
        proof {
            lemma_initial_wf(fomo, minimum_stake_period as int);
            assert(pool@.airdrops =~= Seq::empty());
            assert(pool@.positions =~= Seq::empty());
            assert(pool@.balances =~= Map::empty());
        }
        Ok(pool)
    }

    /// The pool's state as plain data.
    pub fn snapshot(&self) -> (r: PoolSnapshot)
        ensures
            r@ == self@,
    {
        PoolSnapshot {
            base_asset: self.fomo,
            minimum_stake_period: self.minimum_stake_period,
            base_balance: self.fomo_vault,
            future_rewards: self.future_rewards,
            total_stake_share: self.total_stake_share,
            airdrops: duplicate(&self.airdrops),
            balances: duplicate(&self.vaults),
            positions: duplicate(&self.positions),
            next_id: self.next_staked_fomo_id,
        }
    }

    /// The pool whose state the snapshot holds, or `None` where the snapshot
    /// is not the state of a well-formed pool.
    pub fn restore(snapshot: PoolSnapshot) -> (r: Option<FomoStaking>)
        ensures
            match r {
                Some(pool) => pool@ == snapshot@ && pool.wf(),
                None => !wf(snapshot@),
            },
    {
        if !is_well_formed(&snapshot) {
            return None;
        }
        Some(
            FomoStaking {
                fomo: snapshot.base_asset,
                fomo_vault: snapshot.base_balance,
                vaults: snapshot.balances,
                airdrops: snapshot.airdrops,
                minimum_stake_period: snapshot.minimum_stake_period,
                next_staked_fomo_id: snapshot.next_id,
                total_stake_share: snapshot.total_stake_share,
                future_rewards: snapshot.future_rewards,
                positions: snapshot.positions,
            },
        )
    }

    /// The asset that is staked.
    pub fn base_asset(&self) -> (r: AssetId)
        ensures
            r == self@.base_asset,
    {
        self.fomo
    }

    /// The time, in seconds, for which a stake stays locked.
    pub fn minimum_stake_period(&self) -> (r: i64)
        ensures
            r == self@.minimum_stake_period,
    {
        self.minimum_stake_period
    }

    /// The quantity of the base asset that the stakers share.
    pub fn base_pool_balance(&self) -> (r: Amount)
        ensures
            r@ == self@.base_balance,
    {
        self.fomo_vault
    }

    /// The quantity of the base asset set aside for later distribution.
    pub fn future_rewards_balance(&self) -> (r: Amount)
        ensures
            r@ == self@.future_rewards,
    {
        self.future_rewards
    }

    /// The sum of the shares of the open positions.
    pub fn total_stake_share(&self) -> (r: Precise)
        ensures
            r@ == self@.total_stake_share,
    {
        self.total_stake_share
    }

    /// The number of the last airdrop in the log: the length of the log.
    pub fn last_airdrop_id(&self) -> (r: u64)
        ensures
            r == self@.airdrops.len(),
    {
        self.airdrops.len() as u64
    }

    /// The log entry of the airdrop with the number `id`, or `None` where
    /// there is none.
    pub fn airdrop_entry(&self, id: u64) -> (r: Option<AirdropEntry>)
        ensures
            match r {
                Some(entry) => 1 <= id <= self@.airdrops.len() && entry@ == self@.airdrops[id
                    - 1],
                None => id == 0 || id > self@.airdrops.len(),
            },
    {
        if id == 0 || id > self.airdrops.len() as u64 {
            None
        } else {
            Some(self.airdrops[(id - 1) as usize])
        }
    }

    /// The balance of an asset other than the base asset, or `None` where
    /// none of it was ever airdropped.
    pub fn other_asset_balance(&self, asset: &AssetId) -> (r: Option<Amount>)
        ensures
            match r {
                Some(balance) => self@.balances.dom().contains(*asset) && balance@
                    == self@.balances[*asset],
                None => !self@.balances.dom().contains(*asset),
            },
    {
        match find_bucket(&self.vaults, asset) {
            Some(j) => {
                proof {
                    lemma_asset_index(bucket_views(self.vaults@), *asset, j as int);
                }
                Some(self.vaults[j].amount)
            },
            None => None,
        }
    }

    /// The open position with the receipt number `receipt_id`, or `None`
    /// where there is none.
    pub fn position(&self, receipt_id: u64) -> (r: Option<StakePosition>)
        ensures
            match r {
                Some(p) => has_position(self@.positions, receipt_id as int) && p@
                    == self@.positions[position_index(self@.positions, receipt_id as int)],
                None => !has_position(self@.positions, receipt_id as int),
            },
    {
        match find_position(&self.positions, receipt_id) {
            Some(i) => Some(self.positions[i]),
            None => None,
        }
    }

    /// Stakes the bucket at time `now` and opens a position for it.
    ///
    /// The bucket must hold a positive quantity of the base asset. The
    /// position's share is one whole where the pool holds nothing, else the
    /// total share times the deposit's fraction of what the pool held before
    /// it; its watermark is the number of the last airdrop; it unlocks after
    /// the minimum stake period.
    pub fn add_stake(&mut self, fomo: Bucket, now: i64) -> (r: Result<StakePosition, StakingError>)
        requires
            old(self).wf(),
        ensures
            final(self).wf(),
            match add_stake_spec(old(self)@, fomo@, now as int) {
                Ok((pool, position)) => r is Ok && r.unwrap()@ == position && final(self)@ == pool,
                Err(e) => r == Err::<StakePosition, StakingError>(e) && final(self)@ == old(self)@,
            },
            r == Err::<StakePosition, StakingError>(StakingError::WrongAsset) <==> fomo.asset
                != old(self)@.base_asset,
            r == Err::<StakePosition, StakingError>(StakingError::InvalidAmount) <==> fomo.asset
                == old(self)@.base_asset && fomo.amount@ <= 0,
            r == Err::<StakePosition, StakingError>(StakingError::Overflow) <==> fomo.asset
                == old(self)@.base_asset && fomo.amount@ > 0 && staked(
                old(self)@,
                fomo.amount@,
                now as int,
            ) is None,
            r is Ok ==> is_position_index(
                final(self)@.positions,
                r.unwrap().id as int,
                old(self)@.positions.len() as int,
            ),
    {
        if !fomo.asset.same(&self.fomo) {
            return Err(StakingError::WrongAsset);
        }
        if !fomo.amount.is_positive() {
            return Err(StakingError::InvalidAmount);
        }
        let stake_share = if self.fomo_vault.is_positive() {
            let product = match self.total_stake_share.checked_mul(&fomo.amount.to_precise()) {
                Some(product) => product,
                None => {
                    return Err(StakingError::Overflow);
                },
            };
            match product.checked_div(&self.fomo_vault.to_precise()) {
                Some(share) => share,
                None => {
                    return Err(StakingError::Overflow);
                },
            }
        } else {
            Precise::one()
        };
        let fomo_vault = match self.fomo_vault.checked_add(&fomo.amount) {
            Some(sum) => sum,
            None => {
                return Err(StakingError::Overflow);
            },
        };
        let total_stake_share = match self.total_stake_share.checked_add(&stake_share) {
            Some(sum) => sum,
            None => {
                return Err(StakingError::Overflow);
            },
        };
        if now > i64::MAX - self.minimum_stake_period || self.next_staked_fomo_id == u64::MAX {
            return Err(StakingError::Overflow);
        }
        let position = StakePosition {
            id: self.next_staked_fomo_id,
            stake_timestamp: now,
            unlock_timestamp: now + self.minimum_stake_period,
            amount_staked: fomo.amount,
            stake_share,
            airdrop_watermark: self.airdrops.len() as u64,
        };
        self.fomo_vault = fomo_vault;
        self.total_stake_share = total_stake_share;
        self.positions.push(position);
        self.next_staked_fomo_id = self.next_staked_fomo_id + 1;
        proof {
            lemma_add_stake_wf(old(self)@, fomo@, now as int);
            assert(self@.positions =~= old(self)@.positions.push(position@));
            assert forall|j: int| 0 <= j < old(self)@.positions.len() implies (
            #[trigger] self@.positions[j]).id != position.id as int by {
                assert(position_wf(old(self)@, old(self)@.positions[j]));
            }
        }
        Ok(position)
    }

    /// Withdraws the position with the receipt number `receipt_id` at time
    /// `now`, and closes it.
    ///
    /// Returns what the position is paid: first its fraction of the base
    /// balance, then, for each asset airdropped in the first
    /// [`MAX_BUCKETS`] log entries after the position's watermark, the
    /// position's part of those airdrops. Every quantity is rounded toward
    /// zero.
    pub fn remove_stake(&mut self, receipt_id: u64, now: i64) -> (r: Result<
        Vec<Bucket>,
        StakingError,
    >)
        requires
            old(self).wf(),
        ensures
            final(self).wf(),
            match remove_stake_spec(old(self)@, receipt_id as int, now as int) {
                Ok((pool, payouts)) => r is Ok && returned_views(r) == payouts && final(self)@
                    == pool,
                Err(e) => r is Err && r.unwrap_err() == e && final(self)@ == old(self)@,
            },
            r == Err::<Vec<Bucket>, StakingError>(StakingError::WrongAsset) <==> !has_position(
                old(self)@.positions,
                receipt_id as int,
            ),
            r == Err::<Vec<Bucket>, StakingError>(StakingError::StakeLocked) <==> has_position(
                old(self)@.positions,
                receipt_id as int,
            ) && now < old(self)@.positions[position_index(
                old(self)@.positions,
                receipt_id as int,
            )].unlock_timestamp,
            r == Err::<Vec<Bucket>, StakingError>(StakingError::NoStakers) <==> has_position(
                old(self)@.positions,
                receipt_id as int,
            ) && now >= old(self)@.positions[position_index(
                old(self)@.positions,
                receipt_id as int,
            )].unlock_timestamp && old(self)@.total_stake_share == 0,
            r is Ok <==> {
                &&& has_position(old(self)@.positions, receipt_id as int)
                &&& now >= old(self)@.positions[position_index(
                    old(self)@.positions,
                    receipt_id as int,
                )].unlock_timestamp
                &&& old(self)@.total_stake_share != 0
            },
            r is Ok ==> {
                let paid = returned_views(r);
                &&& 1 <= paid.len() <= 1 + MAX_BUCKETS
                &&& retired(final(self)@, receipt_id as int)
                &&& paid[0].asset == old(self)@.base_asset
                &&& 0 <= paid[0].amount <= old(self)@.base_balance
                &&& forall|k: int|
                    1 <= k < paid.len() ==> {
                        let h = #[trigger] paid[k];
                        &&& old(self)@.balances.dom().contains(h.asset)
                        &&& 0 <= h.amount <= old(self)@.balances[h.asset]
                    }
            },
    {
        proof {
            let s = old(self)@;
            if has_position(s.positions, receipt_id as int) {
                lemma_lock_decides(s, receipt_id as int, now as int);
            }
            if remove_stake_spec(s, receipt_id as int, now as int) is Ok {
                lemma_position_index_exists(s.positions, receipt_id as int);
                lemma_settled(s, position_index(s.positions, receipt_id as int));
                lemma_remove_stake_retires(s, receipt_id as int, now as int);
            }
        }
        let i = match find_position(&self.positions, receipt_id) {
            Some(i) => i,
            None => {
                return Err(StakingError::WrongAsset);
            },
        };
        let position = self.positions[i];
        assert(self@.positions[i as int] == position@);
        if now < position.unlock_timestamp {
            return Err(StakingError::StakeLocked);
        }
        if self.total_stake_share.is_zero() {
            return Err(StakingError::NoStakers);
        }
        let base = match base_payout_of(
            &position.stake_share,
            &self.total_stake_share,
            &self.fomo_vault,
        ) {
            Some(base) => base,
            None => {
                return Err(StakingError::Overflow);
            },
        };
        let total_stake_share = match self.total_stake_share.checked_sub(&position.stake_share) {
            Some(rest) => rest,
            None => {
                return Err(StakingError::Overflow);
            },
        };
        let claims = match collect_claims(
            &self.airdrops,
            &position.stake_share,
            position.airdrop_watermark,
        ) {
            Some(claims) => claims,
            None => {
                return Err(StakingError::Overflow);
            },
        };
        let fomo_vault = match self.fomo_vault.checked_sub(&base) {
            Some(rest) => rest,
            None => {
                return Err(StakingError::Overflow);
            },
        };
        let payouts = match pay_claims(&claims) {
            Some(payouts) => payouts,
            None => {
                return Err(StakingError::Overflow);
            },
        };
        let vaults = match debit(&self.vaults, &payouts) {
            Some(vaults) => vaults,
            None => {
                return Err(StakingError::Overflow);
            },
        };
        let mut returned: Vec<Bucket> = Vec::new();
        returned.push(Bucket { asset: self.fomo, amount: base });
        let mut k: usize = 0;
        while k < payouts.len()
            invariant
                k <= payouts.len(),
                returned@ == seq![Bucket { asset: self.fomo, amount: base }] + payouts@.take(
                    k as int,
                ),
            decreases payouts.len() - k,
        {
            returned.push(payouts[k]);
            assert(returned@ =~= seq![Bucket { asset: self.fomo, amount: base }]
                + payouts@.take(k + 1));
            k += 1;
        }
        self.fomo_vault = fomo_vault;
        self.total_stake_share = total_stake_share;
        self.vaults = vaults;
        self.positions.remove(i);
        proof {
            lemma_remove_stake_wf(old(self)@, receipt_id as int, now as int);
            assert(payouts@.take(payouts.len() as int) =~= payouts@);
            assert(bucket_views(returned@) =~= seq![
                Holding { asset: old(self)@.base_asset, amount: base@ },
            ] + bucket_views(payouts@));
            assert(self@.positions =~= old(self)@.positions.remove(i as int));
        }
        Ok(returned)
    }

    /// Gives the bucket to those who hold a stake now, in proportion to
    /// their shares.
    ///
    /// The bucket must hold a positive quantity of a fungible asset, and the
    /// total share must not be zero. A quantity of the base asset joins the
    /// base balance. One of another asset is entered in the log as a
    /// quantity per share, and joins the balance of its asset. Returns what
    /// is to be announced.
    pub fn airdrop(&mut self, coins: Bucket) -> (r: Result<AirdropEvent, StakingError>)
        requires
            old(self).wf(),
        ensures
            final(self).wf(),
            match airdrop_spec(old(self)@, coins@) {
                Ok(pool) => r == Ok::<AirdropEvent, StakingError>(
                    AirdropEvent { asset: coins.asset, amount: coins.amount },
                ) && final(self)@ == pool,
                Err(e) => r == Err::<AirdropEvent, StakingError>(e) && final(self)@ == old(self)@,
            },
            r == Err::<AirdropEvent, StakingError>(StakingError::NotFungible)
                <==> !coins.asset.fungible(),
            r == Err::<AirdropEvent, StakingError>(StakingError::InvalidAmount)
                <==> coins.asset.fungible() && coins.amount@ <= 0,
            r == Err::<AirdropEvent, StakingError>(StakingError::NoStakers)
                <==> coins.asset.fungible() && coins.amount@ > 0 && old(self)@.total_stake_share
                == 0,
            r == Err::<AirdropEvent, StakingError>(StakingError::Overflow)
                <==> coins.asset.fungible() && coins.amount@ > 0 && old(self)@.total_stake_share
                != 0 && airdropped(old(self)@, coins@) is None,
    {
        if !coins.asset.is_fungible() {
            return Err(StakingError::NotFungible);
        }
        if !coins.amount.is_positive() {
            return Err(StakingError::InvalidAmount);
        }
        if self.total_stake_share.is_zero() {
            return Err(StakingError::NoStakers);
        }
        if coins.asset.same(&self.fomo) {
            match self.fomo_vault.checked_add(&coins.amount) {
                Some(sum) => {
                    self.fomo_vault = sum;
                },
                None => {
                    return Err(StakingError::Overflow);
                },
            }
        } else {
            let amount_per_share = match coins.amount.to_precise().checked_div(
                &self.total_stake_share,
            ) {
                Some(quotient) => quotient,
                None => {
                    return Err(StakingError::Overflow);
                },
            };
            let ghost held = bucket_views(self.vaults@);
            match find_bucket(&self.vaults, &coins.asset) {
                Some(j) => {
                    proof {
                        lemma_asset_index(held, coins.asset, j as int);
                    }
                    match self.vaults[j].amount.checked_add(&coins.amount) {
                        Some(sum) => {
                            self.vaults[j] = Bucket { asset: coins.asset, amount: sum };
                            proof {
                                lemma_balances_update(held, j as int, sum@);
                                assert(bucket_views(self.vaults@) =~= held.update(
                                    j as int,
                                    Holding { asset: coins.asset, amount: sum@ },
                                ));
                            }
                        },
                        None => {
                            return Err(StakingError::Overflow);
                        },
                    }
                },
                None => {
                    self.vaults.push(coins);
                    proof {
                        coins.amount.lemma_range();
                        lemma_balances_push(held, coins@);
                        assert(bucket_views(self.vaults@) =~= held.push(coins@));
                    }
                },
            }
            let entry = AirdropEntry { asset: coins.asset, amount_per_share };
            self.airdrops.push(entry);
            proof {
                assert(self@.airdrops =~= old(self)@.airdrops.push(entry@));
            }
        }
        proof {
            lemma_airdrop_wf(old(self)@, coins@);
        }
        Ok(AirdropEvent { asset: coins.asset, amount: coins.amount })
    }

    /// Sets the bucket aside as future rewards. It must hold the base asset.
    pub fn deposit_rewards(&mut self, fomo: Bucket) -> (r: Result<(), StakingError>)
        requires
            old(self).wf(),
        ensures
            final(self).wf(),
            match deposit_rewards_spec(old(self)@, fomo@) {
                Ok(pool) => r is Ok && final(self)@ == pool,
                Err(e) => r == Err::<(), StakingError>(e) && final(self)@ == old(self)@,
            },
            r == Err::<(), StakingError>(StakingError::WrongAsset) <==> fomo.asset
                != old(self)@.base_asset,
            r == Err::<(), StakingError>(StakingError::InvalidAmount) <==> fomo.asset
                == old(self)@.base_asset && fomo.amount@ < 0,
            r == Err::<(), StakingError>(StakingError::Overflow) <==> fomo.asset
                == old(self)@.base_asset && fomo.amount@ >= 0 && amount_sum(
                old(self)@.future_rewards,
                fomo.amount@,
            ) is None,
    {
        if !fomo.asset.same(&self.fomo) {
            return Err(StakingError::WrongAsset);
        }
        if fomo.amount.is_negative() {
            return Err(StakingError::InvalidAmount);
        }
        match self.future_rewards.checked_add(&fomo.amount) {
            Some(sum) => {
                self.future_rewards = sum;
            },
            None => {
                return Err(StakingError::Overflow);
            },
        }
        proof {
            lemma_deposit_rewards_wf(old(self)@, fomo@);
        }
        Ok(())
    }

    /// Moves `amount` of the future rewards into the base balance, and so
    /// gives it to those who hold a stake now.
    ///
    /// The total share must not be zero, and `amount` must be neither
    /// negative nor more than the future rewards hold. Returns what is to be
    /// announced.
    pub fn airdrop_deposited_amount(&mut self, amount: Amount) -> (r: Result<
        AirdropEvent,
        StakingError,
    >)
        requires
            old(self).wf(),
        ensures
            final(self).wf(),
            match release_spec(old(self)@, amount@) {
                Ok(pool) => r == Ok::<AirdropEvent, StakingError>(
                    AirdropEvent { asset: old(self)@.base_asset, amount },
                ) && final(self)@ == pool,
                Err(e) => r == Err::<AirdropEvent, StakingError>(e) && final(self)@ == old(self)@,
            },
            r == Err::<AirdropEvent, StakingError>(StakingError::NoStakers)
                <==> old(self)@.total_stake_share == 0,
            r == Err::<AirdropEvent, StakingError>(StakingError::InvalidAmount)
                <==> old(self)@.total_stake_share != 0 && (amount@ < 0 || amount@
                > old(self)@.future_rewards),
            r == Err::<AirdropEvent, StakingError>(StakingError::Overflow)
                <==> old(self)@.total_stake_share != 0 && 0 <= amount@ <= old(self)@.future_rewards
                && amount_sum(old(self)@.base_balance, amount@) is None,
    {
        if self.total_stake_share.is_zero() {
            return Err(StakingError::NoStakers);
        }
        if amount.is_negative() || self.future_rewards.lt(&amount) {
            return Err(StakingError::InvalidAmount);
        }
        let fomo_vault = match self.fomo_vault.checked_add(&amount) {
            Some(sum) => sum,
            None => {
                return Err(StakingError::Overflow);
            },
        };
        proof {
            self.future_rewards.lemma_range();
        }
        let future_rewards = match self.future_rewards.checked_sub(&amount) {
            Some(rest) => rest,
            None => {
                return Err(StakingError::Overflow);
            },
        };
        self.fomo_vault = fomo_vault;
        self.future_rewards = future_rewards;
        proof {
            lemma_release_wf(old(self)@, amount@);
        }
        Ok(AirdropEvent { asset: self.fomo, amount })
    }
}

} // verus!
