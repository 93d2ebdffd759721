use fomo_staking::asset::{AssetId, Bucket};
use fomo_staking::fixed::{Amount, Precise};
use fomo_staking::ledger::{AirdropEntry, StakePosition};
use fomo_staking::pool::FomoStaking;
use fomo_staking::snapshot::{
    balances_cover, duplicate, is_well_formed, log_is_sound, owed_to_all, owed_to_position,
    positions_total, PoolSnapshot,
};
use scrypto::math::{Decimal, PreciseDecimal, I192};

fn amount(text: &str) -> Amount {
    Amount::from_limbs(Decimal::try_from(text).unwrap().attos().to_digits())
}

fn attos(units: i128) -> Amount {
    Amount::from_limbs(I192::from(units).to_digits())
}

fn precise(text: &str) -> Precise {
    Precise::from_limbs(
        PreciseDecimal::try_from(text)
            .unwrap()
            .precise_subunits()
            .to_digits(),
    )
}

fn coin(tag: u8) -> AssetId {
    let mut bytes = [0u8; 30];
    bytes[0] = 93;
    bytes[29] = tag;
    AssetId { bytes }
}

fn bucket(asset: AssetId, text: &str) -> Bucket {
    Bucket { asset, amount: amount(text) }
}

fn busy_pool() -> FomoStaking {
    let mut pool = FomoStaking::new(coin(1), 30).unwrap();
    pool.add_stake(bucket(coin(1), "100"), 0).unwrap();
    pool.add_stake(bucket(coin(1), "50"), 5).unwrap();
    pool.airdrop(bucket(coin(2), "130")).unwrap();
    pool.deposit_rewards(bucket(coin(1), "1000")).unwrap();
    pool.airdrop_deposited_amount(amount("30")).unwrap();
    pool.add_stake(bucket(coin(1), "100"), 7).unwrap();
    pool.airdrop(bucket(coin(3), "9")).unwrap();
    pool.airdrop(bucket(coin(2), "150")).unwrap();
    pool.remove_stake(2, 40).unwrap();
    pool
}

fn busy_snapshot() -> PoolSnapshot {
    busy_pool().snapshot()
}

#[test]
fn snapshot_holds_the_state() {
    let snapshot = busy_snapshot();
    assert_eq!(snapshot.base_asset, coin(1));
    assert_eq!(snapshot.minimum_stake_period, 30);
    assert_eq!(snapshot.next_id, 4);
    assert_eq!(snapshot.future_rewards, amount("970"));
    assert_eq!(snapshot.airdrops.len(), 3);
    assert_eq!(snapshot.airdrops[0].asset, coin(2));
    assert_eq!(
        snapshot.airdrops[0].amount_per_share,
        precise("86.666666666666666666666666666666666666")
    );
    assert_eq!(snapshot.airdrops[1].asset, coin(3));
    assert_eq!(snapshot.balances.len(), 2);
    assert_eq!(snapshot.balances[0].asset, coin(2));
    assert_eq!(snapshot.balances[1].asset, coin(3));
    assert_eq!(snapshot.positions.len(), 2);
    assert_eq!(snapshot.positions[0].id, 1);
    assert_eq!(snapshot.positions[1].id, 3);
    assert_eq!(snapshot.positions[1].airdrop_watermark, 1);
    assert_eq!(snapshot.positions[1].unlock_timestamp, 37);
    let pool = busy_pool();
    assert_eq!(snapshot.base_balance, pool.base_pool_balance());
    assert_eq!(snapshot.total_stake_share, pool.total_stake_share());
}

#[test]
fn restored_pool_goes_on_as_the_first() {
    let mut first = busy_pool();
    let mut restored = FomoStaking::restore(first.snapshot()).unwrap();
    assert_eq!(restored.snapshot(), first.snapshot());
    assert_eq!(
        restored.add_stake(bucket(coin(1), "5"), 50),
        first.add_stake(bucket(coin(1), "5"), 50)
    );
    assert_eq!(restored.remove_stake(1, 50), first.remove_stake(1, 50));
    assert_eq!(restored.remove_stake(3, 50), first.remove_stake(3, 50));
    assert_eq!(restored.snapshot(), first.snapshot());
}

#[test]
fn new_pool_snapshot_is_restored() {
    let pool = FomoStaking::new(coin(1), 0).unwrap();
    assert!(is_well_formed(&pool.snapshot()));
    assert!(FomoStaking::restore(pool.snapshot()).is_some());
}

#[test]
fn snapshot_with_a_wrong_total_is_refused() {
    let mut snapshot = busy_snapshot();
    assert!(is_well_formed(&snapshot));
    snapshot.total_stake_share = snapshot
        .total_stake_share
        .checked_add(&Precise::from_limbs([1, 0, 0, 0]))
        .unwrap();
    assert!(!is_well_formed(&snapshot));
    assert!(FomoStaking::restore(snapshot).is_none());
}

#[test]
fn snapshot_with_a_short_balance_is_refused() {
    let mut snapshot = busy_snapshot();
    // The two open positions are owed nearly all of the 280 units airdropped
    // of the first asset, less what the closed one was paid.
    let held = snapshot.balances[0].amount;
    snapshot.balances[0].amount = held.checked_sub(&amount("1")).unwrap();
    assert!(!is_well_formed(&snapshot));
    snapshot.balances[0].amount = held;
    assert!(is_well_formed(&snapshot));
    snapshot.balances[0].amount = attos(-1);
    assert!(!is_well_formed(&snapshot));
    assert!(FomoStaking::restore(snapshot).is_none());
}

#[test]
fn snapshot_with_a_larger_balance_is_accepted() {
    let mut snapshot = busy_snapshot();
    snapshot.balances[1].amount = amount("1000000");
    assert!(is_well_formed(&snapshot));
}

#[test]
fn snapshot_with_negative_balances_is_refused() {
    let mut snapshot = busy_snapshot();
    snapshot.base_balance = attos(-1);
    assert!(!is_well_formed(&snapshot));
    let mut snapshot = busy_snapshot();
    snapshot.future_rewards = attos(-1);
    assert!(!is_well_formed(&snapshot));
    let mut snapshot = busy_snapshot();
    snapshot.minimum_stake_period = -1;
    assert!(!is_well_formed(&snapshot));
}

#[test]
fn snapshot_with_receipt_numbers_out_of_order_is_refused() {
    let mut snapshot = busy_snapshot();
    snapshot.positions.swap(0, 1);
    assert!(!is_well_formed(&snapshot));
    let mut snapshot = busy_snapshot();
    snapshot.positions[1].id = 1;
    assert!(!is_well_formed(&snapshot));
    let mut snapshot = busy_snapshot();
    snapshot.positions[0].id = 0;
    assert!(!is_well_formed(&snapshot));
    let mut snapshot = busy_snapshot();
    snapshot.next_id = 3;
    assert!(!is_well_formed(&snapshot));
    let mut snapshot = busy_snapshot();
    snapshot.next_id = 0;
    assert!(!is_well_formed(&snapshot));
}

#[test]
fn snapshot_with_a_watermark_beyond_the_log_is_refused() {
    let mut snapshot = busy_snapshot();
    snapshot.positions[1].airdrop_watermark = 3;
    assert!(is_well_formed(&snapshot));
    snapshot.positions[1].airdrop_watermark = 4;
    assert!(!is_well_formed(&snapshot));
}

#[test]
fn snapshot_with_an_unheld_airdrop_is_refused() {
    let mut snapshot = busy_snapshot();
    snapshot.airdrops[1].asset = coin(9);
    assert!(!is_well_formed(&snapshot));
    assert!(!log_is_sound(&snapshot.airdrops, &snapshot.base_asset, &snapshot.balances));
    let mut snapshot = busy_snapshot();
    assert!(log_is_sound(&snapshot.airdrops, &snapshot.base_asset, &snapshot.balances));
    snapshot.airdrops[1].asset = coin(1);
    assert!(!is_well_formed(&snapshot));
    let mut snapshot = busy_snapshot();
    snapshot.airdrops[1].amount_per_share = Precise::from_limbs([u64::MAX; 4]);
    assert!(!is_well_formed(&snapshot));
}

#[test]
fn snapshot_with_a_balance_but_no_share_is_refused() {
    let mut pool = FomoStaking::new(coin(1), 0).unwrap();
    pool.add_stake(bucket(coin(1), "1"), 0).unwrap();
    pool.remove_stake(1, 0).unwrap();
    let mut snapshot = pool.snapshot();
    assert!(is_well_formed(&snapshot));
    snapshot.base_balance = attos(1);
    assert!(!is_well_formed(&snapshot));
}

#[test]
fn snapshot_with_a_share_but_no_balance_is_refused() {
    let mut pool = FomoStaking::new(coin(1), 0).unwrap();
    pool.add_stake(bucket(coin(1), "1"), 0).unwrap();
    let mut snapshot = pool.snapshot();
    assert!(is_well_formed(&snapshot));
    snapshot.base_balance = Amount::zero();
    assert!(!is_well_formed(&snapshot));
}

#[test]
fn first_balance_of_an_asset_counts() {
    let mut snapshot = busy_snapshot();
    snapshot.balances.push(Bucket { asset: coin(2), amount: attos(-7) });
    assert!(is_well_formed(&snapshot));
    assert!(balances_cover(&snapshot));
    let pool = FomoStaking::restore(snapshot).unwrap();
    assert_eq!(pool.other_asset_balance(&coin(2)), busy_pool().other_asset_balance(&coin(2)));
}

#[test]
fn shares_are_summed() {
    let snapshot = busy_snapshot();
    assert_eq!(
        positions_total(&snapshot.positions, snapshot.next_id, snapshot.airdrops.len()),
        Some(snapshot.total_stake_share)
    );
    assert_eq!(positions_total(&snapshot.positions, 3, snapshot.airdrops.len()), None);
    assert_eq!(positions_total(&snapshot.positions, snapshot.next_id, 0), None);
    assert_eq!(positions_total(&Vec::new(), 1, 0), Some(Precise::zero()));
    let most = Precise::from_limbs(PreciseDecimal::MAX.precise_subunits().to_digits());
    let heavy = |id: u64| StakePosition {
        id,
        stake_timestamp: 0,
        unlock_timestamp: 0,
        amount_staked: attos(1),
        stake_share: most,
        airdrop_watermark: 0,
    };
    assert_eq!(positions_total(&vec![heavy(1)], 5, 0), Some(most));
    assert_eq!(positions_total(&vec![heavy(1), heavy(2)], 5, 0), None);
}

#[test]
fn owed_quantities_are_summed_per_asset() {
    let snapshot = busy_snapshot();
    let first = snapshot.positions[0];
    let third = snapshot.positions[1];
    assert_eq!(first.stake_share, precise("1"));
    // The first position was open for all three airdrops.
    let per_share_one = snapshot.airdrops[0].amount_per_share;
    let per_share_three = snapshot.airdrops[2].amount_per_share;
    assert_eq!(
        owed_to_position(&snapshot.airdrops, &first, &coin(2)),
        per_share_one.checked_add(&per_share_three)
    );
    assert_eq!(
        owed_to_position(&snapshot.airdrops, &first, &coin(3)),
        Some(snapshot.airdrops[1].amount_per_share)
    );
    assert_eq!(
        owed_to_position(&snapshot.airdrops, &first, &coin(4)),
        Some(Precise::zero())
    );
    // The third was opened after the first airdrop.
    let part = third.stake_share.checked_mul(&per_share_three).unwrap();
    assert_eq!(owed_to_position(&snapshot.airdrops, &third, &coin(2)), Some(part));
    assert_eq!(
        owed_to_all(&snapshot.airdrops, &snapshot.positions, &coin(2)),
        per_share_one.checked_add(&per_share_three).unwrap().checked_add(&part)
    );
    assert_eq!(
        owed_to_all(&snapshot.airdrops, &Vec::new(), &coin(2)),
        Some(Precise::zero())
    );
}

#[test]
fn owed_quantity_beyond_the_range_is_none() {
    let most = Precise::from_limbs(PreciseDecimal::MAX.precise_subunits().to_digits());
    let airdrops = vec![
        AirdropEntry { asset: coin(2), amount_per_share: most },
        AirdropEntry { asset: coin(2), amount_per_share: most },
        AirdropEntry { asset: coin(3), amount_per_share: precise("2") },
    ];
    let position = |share: Precise| StakePosition {
        id: 1,
        stake_timestamp: 0,
        unlock_timestamp: 0,
        amount_staked: attos(1),
        stake_share: share,
        airdrop_watermark: 0,
    };
    assert_eq!(owed_to_position(&airdrops, &position(precise("2")), &coin(2)), None);
    assert_eq!(owed_to_position(&airdrops, &position(precise("1")), &coin(2)), None);
    assert_eq!(
        owed_to_position(&airdrops, &position(precise("2")), &coin(3)),
        Some(precise("4"))
    );
    assert_eq!(
        owed_to_position(&airdrops, &position(precise("0.5")), &coin(2)),
        most.checked_mul(&precise("0.5")).unwrap().checked_add(&most.checked_mul(&precise("0.5")).unwrap())
    );
}

#[test]
fn duplicate_copies_every_item() {
    assert_eq!(duplicate(&vec![3u8, 1, 2]), vec![3u8, 1, 2]);
    assert_eq!(duplicate(&Vec::<u64>::new()), Vec::<u64>::new());
}
