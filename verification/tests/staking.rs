use fomo_staking::asset::{AssetId, Bucket};
use fomo_staking::fixed::Amount;
use fomo_staking::pool::FomoStaking;
use scrypto::math::{Decimal, I192};

fn dec(text: &str) -> Decimal {
    Decimal::try_from(text).unwrap()
}

fn amount(text: &str) -> Amount {
    Amount::from_limbs(dec(text).attos().to_digits())
}

fn decimal(amount: Amount) -> Decimal {
    Decimal::from_attos(I192::from_digits(amount.limbs()))
}

fn fungible(tag: u8) -> AssetId {
    let mut bytes = [0u8; 30];
    bytes[0] = 93;
    bytes[29] = tag;
    AssetId { bytes }
}

fn bucket(asset: AssetId, text: &str) -> Bucket {
    Bucket { asset, amount: amount(text) }
}

#[test]
fn test_fomo_staking() {
    let fomo = fungible(1);
    let test = fungible(2);

    // Instantiate a pool with no minimum stake period
    let mut fomo_staking = FomoStaking::new(fomo, 0).unwrap();

    // Stake 100 FOMO
    let staked_fomo1 = fomo_staking.add_stake(bucket(fomo, "100"), 0).unwrap();

    // Stake 50 FOMO
    let staked_fomo2 = fomo_staking.add_stake(bucket(fomo, "50"), 0).unwrap();

    // Deposit 1000 FOMO as future staking rewards and distribute 30 of them
    fomo_staking.deposit_rewards(bucket(fomo, "1000")).unwrap();
    fomo_staking.airdrop_deposited_amount(amount("30")).unwrap();

    // Stake 100 FOMO
    let staked_fomo3 = fomo_staking.add_stake(bucket(fomo, "100"), 0).unwrap();

    // Make two airdrops of total 280 TEST coins
    fomo_staking.airdrop(bucket(test, "130")).unwrap();
    fomo_staking.airdrop(bucket(test, "150")).unwrap();

    // Stake 50 FOMO
    let staked_fomo4 = fomo_staking.add_stake(bucket(fomo, "50"), 0).unwrap();

    // Unstake and check the amounts (a small rounding error is acceptable)
    let vec_of_buckets1 = fomo_staking.remove_stake(staked_fomo1.id, 0).unwrap();
    let fomo_received1 = decimal(vec_of_buckets1[0].amount);
    assert!(
        fomo_received1 > dec("119.99") && fomo_received1 < dec("120.01"),
        "Wrong FOMO received 1: {}",
        fomo_received1
    );
    let test_received1 = decimal(vec_of_buckets1[1].amount);
    assert!(
        test_received1 > dec("119.99") && test_received1 < dec("120.01"),
        "Wrong TEST received 1: {}",
        test_received1
    );

    let vec_of_buckets2 = fomo_staking.remove_stake(staked_fomo2.id, 0).unwrap();
    let fomo_received2 = decimal(vec_of_buckets2[0].amount);
    assert!(
        fomo_received2 > dec("59.99") && fomo_received2 < dec("60.01"),
        "Wrong FOMO received 2: {}",
        fomo_received2
    );
    let test_received2 = decimal(vec_of_buckets2[1].amount);
    assert!(
        test_received2 > dec("59.99") && test_received2 < dec("60.01"),
        "Wrong TEST received 2: {}",
        test_received2
    );

    let vec_of_buckets3 = fomo_staking.remove_stake(staked_fomo3.id, 0).unwrap();
    let fomo_received3 = decimal(vec_of_buckets3[0].amount);
    assert!(
        fomo_received3 > dec("99.99") && fomo_received3 < dec("100.01"),
        "Wrong FOMO received 3: {}",
        fomo_received3
    );
    let test_received3 = decimal(vec_of_buckets3[1].amount);
    assert!(
        test_received3 > dec("99.99") && test_received3 < dec("100.01"),
        "Wrong TEST received 3: {}",
        test_received3
    );

    let vec_of_buckets4 = fomo_staking.remove_stake(staked_fomo4.id, 0).unwrap();
    let fomo_received4 = decimal(vec_of_buckets4[0].amount);
    assert!(
        fomo_received4 > dec("49.99") && fomo_received4 < dec("50.01"),
        "Wrong FOMO received 4: {}",
        fomo_received4
    );
    assert!(vec_of_buckets4.len() == 1, "Received an undue bucket");
}
