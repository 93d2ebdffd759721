//! What holds of every pool whatever is done to it.

use crate::arith::{
    lemma_div_bounds, lemma_mul_nonnegative, lemma_product_nonnegative, lemma_quotient_nonnegative,
};
use crate::asset::{AssetId, Holding};
use crate::error::StakingError;
use crate::fixed::{precise_one, precise_per_atto, widen};
use crate::holdings::{has_asset, lemma_asset_index, lemma_asset_index_exists, quantity_of};
use crate::ledger::{
    has_position, lemma_position_index_exists, position_index, share_sum, AirdropView,
};
use crate::model::{
    add_stake_spec, airdrop_spec, balance_of, claims_between, deposit_rewards_spec, initial_pool,
    release_spec, remove_stake_spec, share_for, window_end, PoolView, MAX_BUCKETS,
};
use crate::wellformed::{
    lemma_add_stake_wf, lemma_airdrop_wf, lemma_deposit_rewards_wf, lemma_initial_wf,
    lemma_release_wf, lemma_wf_fits, position_wf, wf,
};
use crate::withdrawal::{lemma_remove_stake_wf, lemma_settled};
use vstd::prelude::*;

verus! {

/// One operation on a pool, with what it is given.
pub enum Operation {
    AddStake { bucket: Holding, now: int },
    RemoveStake { id: int, now: int },
    Airdrop { bucket: Holding },
    DepositRewards { bucket: Holding },
    ReleaseRewards { amount: int },
}

/// The pool after an operation: the pool that the operation makes where it
/// is accepted, the same pool where it is rejected.
pub open spec fn step(s: PoolView, op: Operation) -> PoolView {
    match op {
        Operation::AddStake { bucket, now } => match add_stake_spec(s, bucket, now) {
            Ok((t, _)) => t,
            Err(_) => s,
        },
        Operation::RemoveStake { id, now } => match remove_stake_spec(s, id, now) {
            Ok((t, _)) => t,
            Err(_) => s,
        },
        Operation::Airdrop { bucket } => match airdrop_spec(s, bucket) {
            Ok(t) => t,
            Err(_) => s,
        },
        Operation::DepositRewards { bucket } => match deposit_rewards_spec(s, bucket) {
            Ok(t) => t,
            Err(_) => s,
        },
        Operation::ReleaseRewards { amount } => match release_spec(s, amount) {
            Ok(t) => t,
            Err(_) => s,
        },
    }
}

/// The pool after a sequence of operations, done in order.
pub open spec fn run(s: PoolView, ops: Seq<Operation>) -> PoolView
    decreases ops.len(),
{
    if ops.len() == 0 {
        s
    } else {
        step(run(s, ops.drop_last()), ops.last())
    }
}

/// The quantity of `asset` that the stakers share: the base balance for the
/// base asset, the asset's balance for any other.
pub open spec fn holding_of(s: PoolView, asset: AssetId) -> int {
    if asset == s.base_asset {
        s.base_balance
    } else {
        balance_of(s, asset)
    }
}

/// The quantity of `asset` that an operation on the pool `s` adds to what
/// the stakers share: a stake, an airdrop, or a release of future rewards
/// that is accepted adds its quantity.
pub open spec fn deposited_by(s: PoolView, op: Operation, asset: AssetId) -> int {
    match op {
        Operation::AddStake { bucket, now } => if add_stake_spec(s, bucket, now) is Ok && asset
            == s.base_asset {
            bucket.amount
        } else {
            0
        },
        Operation::Airdrop { bucket } => if airdrop_spec(s, bucket) is Ok && asset
            == bucket.asset {
            bucket.amount
        } else {
            0
        },
        Operation::ReleaseRewards { amount } => if release_spec(s, amount) is Ok && asset
            == s.base_asset {
            amount
        } else {
            0
        },
        _ => 0,
    }
}

/// The quantity of `asset` that an operation on the pool `s` pays out: what
/// a withdrawal that is accepted pays of it.
pub open spec fn paid_by(s: PoolView, op: Operation, asset: AssetId) -> int {
    match op {
        Operation::RemoveStake { id, now } => match remove_stake_spec(s, id, now) {
            Ok((_, payouts)) => quantity_of(payouts, asset),
            Err(_) => 0,
        },
        _ => 0,
    }
}

/// The quantity of `asset` that a sequence of operations on the pool `s`
/// adds to what the stakers share.
pub open spec fn total_deposited(s: PoolView, ops: Seq<Operation>, asset: AssetId) -> int
    decreases ops.len(),
{
    if ops.len() == 0 {
        0
    } else {
        total_deposited(s, ops.drop_last(), asset) + deposited_by(
            run(s, ops.drop_last()),
            ops.last(),
            asset,
        )
    }
}

/// The quantity of `asset` that a sequence of operations on the pool `s`
/// pays out.
pub open spec fn total_paid(s: PoolView, ops: Seq<Operation>, asset: AssetId) -> int
    decreases ops.len(),
{
    if ops.len() == 0 {
        0
    } else {
        total_paid(s, ops.drop_last(), asset) + paid_by(run(s, ops.drop_last()), ops.last(), asset)
    }
}

/// Whether the receipt number `id` was given out and its position is closed.
pub open spec fn retired(s: PoolView, id: int) -> bool {
    1 <= id < s.next_id && !has_position(s.positions, id)
}

/// An operation on a well-formed pool leaves a well-formed pool.
pub proof fn lemma_step_wf(s: PoolView, op: Operation)
    requires
        wf(s),
    ensures
        wf(step(s, op)),
{
    match op {
        Operation::AddStake { bucket, now } => {
            if add_stake_spec(s, bucket, now) is Ok {
                lemma_add_stake_wf(s, bucket, now);
            }
        },
        Operation::RemoveStake { id, now } => {
            if remove_stake_spec(s, id, now) is Ok {
                lemma_remove_stake_wf(s, id, now);
            }
        },
        Operation::Airdrop { bucket } => {
            if airdrop_spec(s, bucket) is Ok {
                lemma_airdrop_wf(s, bucket);
            }
        },
        Operation::DepositRewards { bucket } => {
            if deposit_rewards_spec(s, bucket) is Ok {
                lemma_deposit_rewards_wf(s, bucket);
            }
        },
        Operation::ReleaseRewards { amount } => {
            if release_spec(s, amount) is Ok {
                lemma_release_wf(s, amount);
            }
        },
    }
}

/// Any sequence of operations on a well-formed pool leaves a well-formed
/// pool.
pub proof fn lemma_run_wf(s: PoolView, ops: Seq<Operation>)
    requires
        wf(s),
    ensures
        wf(run(s, ops)),
    decreases ops.len(),
{
    if ops.len() > 0 {
        lemma_run_wf(s, ops.drop_last());
        lemma_step_wf(run(s, ops.drop_last()), ops.last());
    }
}

/// Conservation: after any sequence of operations on a new pool, the total
/// stake share is the sum of the shares of the open positions.
pub proof fn lemma_shares_conserved(
    base_asset: AssetId,
    minimum_stake_period: int,
    ops: Seq<Operation>,
)
    requires
        0 <= minimum_stake_period <= i64::MAX,
    ensures
        share_sum(run(initial_pool(base_asset, minimum_stake_period), ops).positions) == run(
            initial_pool(base_asset, minimum_stake_period),
            ops,
        ).total_stake_share,
{
    lemma_initial_wf(base_asset, minimum_stake_period);
    lemma_run_wf(initial_pool(base_asset, minimum_stake_period), ops);
}

/// What the stakers share of an asset after an operation is what they
/// shared before, plus what the operation added, less what it paid out.
pub proof fn lemma_step_accounts(s: PoolView, op: Operation, asset: AssetId)
    requires
        wf(s),
    ensures
        holding_of(step(s, op), asset) == holding_of(s, asset) + deposited_by(s, op, asset)
            - paid_by(s, op, asset),
        0 <= paid_by(s, op, asset) <= holding_of(s, asset),
{
    if s.balances.dom().contains(asset) {
        assert(crate::wellformed::solvent(s, asset));
    }
    match op {
        Operation::RemoveStake { id, now } => {
            if remove_stake_spec(s, id, now) is Ok {
                lemma_position_index_exists(s.positions, id);
                let i = position_index(s.positions, id);
                lemma_settled(s, i);
                let (t, paid) = remove_stake_spec(s, id, now).unwrap();
                if has_asset(paid, asset) {
                    let k = choose|k: int| 0 <= k < paid.len() && #[trigger] paid[k].asset == asset;
                    assert forall|j: int| 0 <= j < k implies (#[trigger] paid[j]).asset
                        != asset by {
                        assert(paid[j].asset != paid[k].asset);
                    }
                    lemma_asset_index(paid, asset, k);
                    if k == 0 {
                    } else {
                        assert(paid[k].asset != s.base_asset);
                    }
                } else {
                    assert(paid[0].asset != asset);
                }
            }
        },
        _ => {},
    }
}

/// What the stakers share of an asset after a sequence of operations is
/// what they shared before, plus what the operations added, less what they
/// paid out.
pub proof fn lemma_run_accounts(s: PoolView, ops: Seq<Operation>, asset: AssetId)
    requires
        wf(s),
    ensures
        holding_of(run(s, ops), asset) == holding_of(s, asset) + total_deposited(s, ops, asset)
            - total_paid(s, ops, asset),
        0 <= holding_of(run(s, ops), asset),
    decreases ops.len(),
{
    if ops.len() > 0 {
        lemma_run_accounts(s, ops.drop_last(), asset);
        lemma_run_wf(s, ops.drop_last());
        lemma_step_accounts(run(s, ops.drop_last()), ops.last(), asset);
    } else {
        if s.balances.dom().contains(asset) {
            assert(crate::wellformed::solvent(s, asset));
        }
    }
}

/// No over-distribution: whatever is done to a new pool, the withdrawals
/// together pay out no more of any asset than was added to what the stakers
/// share of it by stakes, airdrops and released rewards.
pub proof fn lemma_no_over_distribution(
    base_asset: AssetId,
    minimum_stake_period: int,
    ops: Seq<Operation>,
    asset: AssetId,
)
    requires
        0 <= minimum_stake_period <= i64::MAX,
    ensures
        total_paid(initial_pool(base_asset, minimum_stake_period), ops, asset) <= total_deposited(
            initial_pool(base_asset, minimum_stake_period),
            ops,
            asset,
        ),
{
    lemma_initial_wf(base_asset, minimum_stake_period);
    lemma_run_accounts(initial_pool(base_asset, minimum_stake_period), ops, asset);
}

/// Monotonic lock: a withdrawal with the receipt of an open position is
/// rejected as locked before the position's unlock time, and accepted at or
/// after it, as long as the pool has a total share.
pub proof fn lemma_lock_decides(s: PoolView, id: int, now: int)
    requires
        wf(s),
        has_position(s.positions, id),
    ensures
        now < s.positions[position_index(s.positions, id)].unlock_timestamp ==> remove_stake_spec(
            s,
            id,
            now,
        ) == Err::<(PoolView, Seq<Holding>), StakingError>(StakingError::StakeLocked),
        now >= s.positions[position_index(s.positions, id)].unlock_timestamp
            && s.total_stake_share != 0 ==> remove_stake_spec(s, id, now) is Ok,
{
    lemma_position_index_exists(s.positions, id);
    if s.total_stake_share != 0 {
        lemma_settled(s, position_index(s.positions, id));
    }
}

/// A withdrawal that is accepted retires its receipt.
pub proof fn lemma_remove_stake_retires(s: PoolView, id: int, now: int)
    requires
        wf(s),
        remove_stake_spec(s, id, now) is Ok,
    ensures
        retired(remove_stake_spec(s, id, now).unwrap().0, id),
{
    lemma_position_index_exists(s.positions, id);
    let i = position_index(s.positions, id);
    let t = remove_stake_spec(s, id, now).unwrap().0;
    assert(position_wf(s, s.positions[i]));
    s.positions.remove_ensures(i);
    assert forall|k: int| 0 <= k < t.positions.len() implies (#[trigger] t.positions[k]).id
        != id by {
        if k < i {
            assert(s.positions[k].id < s.positions[i].id);
        } else {
            assert(s.positions[i].id < s.positions[k + 1].id);
        }
    }
}

/// No operation brings a retired receipt back.
pub proof fn lemma_step_keeps_retired(s: PoolView, op: Operation, id: int)
    requires
        wf(s),
        retired(s, id),
    ensures
        retired(step(s, op), id),
{
    let t = step(s, op);
    match op {
        Operation::RemoveStake { id: other, now } => {
            if remove_stake_spec(s, other, now) is Ok {
                lemma_position_index_exists(s.positions, other);
                let i = position_index(s.positions, other);
                s.positions.remove_ensures(i);
                assert forall|k: int| 0 <= k < t.positions.len() implies (
                #[trigger] t.positions[k]).id != id by {
                    if k < i {
                        assert(s.positions[k].id != id);
                    } else {
                        assert(s.positions[k + 1].id != id);
                    }
                }
            }
        },
        Operation::AddStake { bucket, now } => {
            if add_stake_spec(s, bucket, now) is Ok {
                assert forall|k: int| 0 <= k < t.positions.len() implies (
                #[trigger] t.positions[k]).id != id by {
                    if k < s.positions.len() {
                        assert(s.positions[k].id != id);
                    }
                }
            }
        },
        _ => {},
    }
}

/// No sequence of operations brings a retired receipt back.
pub proof fn lemma_run_keeps_retired(s: PoolView, ops: Seq<Operation>, id: int)
    requires
        wf(s),
        retired(s, id),
    ensures
        retired(run(s, ops), id),
    decreases ops.len(),
{
    if ops.len() > 0 {
        lemma_run_keeps_retired(s, ops.drop_last(), id);
        lemma_run_wf(s, ops.drop_last());
        lemma_step_keeps_retired(run(s, ops.drop_last()), ops.last(), id);
    }
}

/// Idempotent consumption: once a withdrawal with a receipt has been
/// accepted, every later withdrawal with the same receipt is rejected,
/// whatever was done to the pool in between.
pub proof fn lemma_receipt_used_once(
    s: PoolView,
    id: int,
    now: int,
    ops: Seq<Operation>,
    later: int,
)
    requires
        wf(s),
        remove_stake_spec(s, id, now) is Ok,
    ensures
        remove_stake_spec(run(remove_stake_spec(s, id, now).unwrap().0, ops), id, later) == Err::<
            (PoolView, Seq<Holding>),
            StakingError,
        >(StakingError::WrongAsset),
{
    let t = remove_stake_spec(s, id, now).unwrap().0;
    lemma_remove_stake_wf(s, id, now);
    lemma_remove_stake_retires(s, id, now);
    lemma_run_keeps_retired(t, ops, id);
}

/// However long a stretch of the log is claimed from, there are at most
/// [`MAX_BUCKETS`] claims.
pub proof fn lemma_claims_bounded(airdrops: Seq<AirdropView>, share: int, lo: int, hi: int)
    requires
        claims_between(airdrops, share, lo, hi) is Some,
    ensures
        claims_between(airdrops, share, lo, hi).unwrap().len() <= MAX_BUCKETS,
    decreases hi - lo,
{
    if lo < hi {
        lemma_claims_bounded(airdrops, share, lo, hi - 1);
        let before = claims_between(airdrops, share, lo, hi - 1).unwrap();
        if has_asset(before, airdrops[hi - 1].asset) {
            lemma_asset_index_exists(before, airdrops[hi - 1].asset);
        }
    }
}

/// Bounded claim cost: a withdrawal pays the base asset and at most
/// [`MAX_BUCKETS`] other assets.
pub proof fn lemma_payouts_bounded(s: PoolView, id: int, now: int)
    requires
        remove_stake_spec(s, id, now) is Ok,
    ensures
        remove_stake_spec(s, id, now).unwrap().1.len() <= 1 + MAX_BUCKETS,
{
    let p = s.positions[position_index(s.positions, id)];
    lemma_claims_bounded(
        s.airdrops,
        p.stake_share,
        p.airdrop_watermark,
        window_end(p.airdrop_watermark, s.airdrops.len() as int),
    );
}

/// Proportional issuance: the share that a deposit into a pool with a
/// balance earns is to the total share as the deposit is to the balance,
/// rounded down. So no deposit lessens what the shares of earlier stakers
/// are worth.
pub proof fn lemma_share_is_proportional(s: PoolView, amount: int)
    requires
        wf(s),
        0 < amount,
        0 < s.base_balance,
        share_for(s, amount) is Some,
    ensures
        share_for(s, amount).unwrap() * s.base_balance <= s.total_stake_share * amount,
        s.total_stake_share * widen(amount) < (share_for(s, amount).unwrap() + 1) * widen(
            s.base_balance,
        ) + precise_one(),
{
    let one = precise_one();
    let atto = precise_per_atto();
    let total = s.total_stake_share;
    let deposit = widen(amount);
    let balance = widen(s.base_balance);
    lemma_wf_fits(s);
    lemma_product_nonnegative(total, deposit);
    let product = (total * deposit) / one;
    lemma_mul_nonnegative(total, deposit);
    lemma_div_bounds(total * deposit, one);
    lemma_quotient_nonnegative(product, balance);
    let share = (product * one) / balance;
    assert(share == share_for(s, amount).unwrap());
    lemma_mul_nonnegative(product, one);
    lemma_div_bounds(product * one, balance);
    assert(share * s.base_balance <= total * amount) by (nonlinear_arith)
        requires
            share * balance <= total * deposit,
            balance == s.base_balance * atto,
            deposit == amount * atto,
            0 < atto,
    ;
    assert((share + 1) * balance == share * balance + balance) by (nonlinear_arith);
}

} // verus!
