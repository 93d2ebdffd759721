use fomo_staking::asset::{AssetId, Bucket, Claim};
use fomo_staking::distribution::{base_payout_of, collect_claims, debit, pay_claims, record_claim};
use fomo_staking::fixed::{Amount, Precise};
use fomo_staking::holdings::{find_bucket, find_claim};
use fomo_staking::ledger::{find_position, AirdropEntry, StakePosition};
use fomo_staking::model::MAX_BUCKETS;
use scrypto::math::{Decimal, PreciseDecimal, I192};

fn amount(text: &str) -> Amount {
    Amount::from_limbs(Decimal::try_from(text).unwrap().attos().to_digits())
}

fn attos(units: i128) -> Amount {
    Amount::from_limbs(I192::from(units).to_digits())
}

fn precise(text: &str) -> Precise {
    Precise::from_limbs(
        PreciseDecimal::try_from(text)
            .unwrap()
            .precise_subunits()
            .to_digits(),
    )
}

fn coin(tag: u8) -> AssetId {
    let mut bytes = [0u8; 30];
    bytes[0] = 93;
    bytes[29] = tag;
    AssetId { bytes }
}

fn bucket(tag: u8, text: &str) -> Bucket {
    Bucket { asset: coin(tag), amount: amount(text) }
}

fn claim(tag: u8, text: &str) -> Claim {
    Claim { asset: coin(tag), amount: precise(text) }
}

fn entry(tag: u8, text: &str) -> AirdropEntry {
    AirdropEntry { asset: coin(tag), amount_per_share: precise(text) }
}

fn position(id: u64) -> StakePosition {
    StakePosition {
        id,
        stake_timestamp: 0,
        unlock_timestamp: 0,
        amount_staked: amount("1"),
        stake_share: precise("1"),
        airdrop_watermark: 0,
    }
}

#[test]
fn base_payout_is_the_rounded_fraction() {
    assert_eq!(
        base_payout_of(&precise("1"), &precise("2.75"), &amount("330")),
        Some(amount("119.999999999999999999"))
    );
    assert_eq!(
        base_payout_of(&precise("0.5"), &precise("1.5"), &amount("3")),
        Some(amount("0.999999999999999999"))
    );
    assert_eq!(
        base_payout_of(&precise("1"), &precise("3"), &attos(2)),
        Some(attos(0))
    );
    assert_eq!(
        base_payout_of(&precise("1"), &precise("4"), &amount("10")),
        Some(amount("2.5"))
    );
}

#[test]
fn whole_share_takes_the_whole_balance() {
    let most = Amount::from_limbs(Decimal::MAX.attos().to_digits());
    assert_eq!(base_payout_of(&precise("7"), &precise("7"), &most), Some(most));
    assert_eq!(
        base_payout_of(&precise("0.000000000000000000000000000000000001"),
            &precise("0.000000000000000000000000000000000001"), &amount("12.5")),
        Some(amount("12.5"))
    );
    assert_eq!(
        base_payout_of(&Precise::zero(), &precise("7"), &amount("12.5")),
        Some(Amount::zero())
    );
}

#[test]
fn base_payout_needs_a_total() {
    assert_eq!(base_payout_of(&precise("1"), &Precise::zero(), &amount("1")), None);
    assert_eq!(base_payout_of(&Precise::zero(), &Precise::zero(), &amount("1")), None);
}

#[test]
fn base_payout_beyond_the_range_is_none() {
    let most = Amount::from_limbs(Decimal::MAX.attos().to_digits());
    // A share of twice the total would take twice the balance.
    assert_eq!(base_payout_of(&precise("2"), &precise("1"), &most), None);
    let largest = Precise::from_limbs(PreciseDecimal::MAX.precise_subunits().to_digits());
    assert_eq!(base_payout_of(&largest, &precise("0.5"), &amount("1")), None);
}

#[test]
fn claims_are_recorded_per_asset() {
    let mut claims: Vec<Claim> = Vec::new();
    assert!(record_claim(&mut claims, coin(1), precise("1.5")));
    assert!(record_claim(&mut claims, coin(2), precise("2")));
    assert!(record_claim(&mut claims, coin(1), precise("0.25")));
    assert_eq!(claims, vec![claim(1, "1.75"), claim(2, "2")]);
}

#[test]
fn claim_beyond_the_range_is_not_recorded() {
    let largest = Precise::from_limbs(PreciseDecimal::MAX.precise_subunits().to_digits());
    let mut claims = vec![claim(1, "1"), Claim { asset: coin(2), amount: largest }];
    assert!(!record_claim(&mut claims, coin(2), precise("0.000000000000000000000000000000000001")));
    assert_eq!(claims, vec![claim(1, "1"), Claim { asset: coin(2), amount: largest }]);
    assert!(record_claim(&mut claims, coin(2), Precise::zero()));
}

#[test]
fn claims_stop_at_the_largest_number_of_assets() {
    let mut claims: Vec<Claim> = Vec::new();
    for tag in 0..MAX_BUCKETS as u8 {
        assert!(record_claim(&mut claims, coin(tag), precise("1")));
    }
    assert_eq!(claims.len(), MAX_BUCKETS);
    let full = claims.clone();
    // A further asset is dropped, a further claim on a known asset is added.
    assert!(record_claim(&mut claims, coin(200), precise("1")));
    assert_eq!(claims, full);
    assert!(record_claim(&mut claims, coin(99), precise("1")));
    assert_eq!(claims.len(), MAX_BUCKETS);
    assert_eq!(claims[99], claim(99, "2"));
}

#[test]
fn claims_are_collected_after_the_watermark() {
    let log = vec![entry(2, "10"), entry(3, "1"), entry(2, "0.5"), entry(4, "3")];
    assert_eq!(
        collect_claims(&log, &precise("2"), 0),
        Some(vec![claim(2, "21"), claim(3, "2"), claim(4, "6")])
    );
    assert_eq!(
        collect_claims(&log, &precise("2"), 1),
        Some(vec![claim(3, "2"), claim(2, "1"), claim(4, "6")])
    );
    assert_eq!(collect_claims(&log, &precise("2"), 3), Some(vec![claim(4, "6")]));
    assert_eq!(collect_claims(&log, &precise("2"), 4), Some(vec![]));
    assert_eq!(collect_claims(&log, &precise("2"), 5), Some(vec![]));
    assert_eq!(collect_claims(&log, &precise("2"), u64::MAX), Some(vec![]));
    assert_eq!(collect_claims(&Vec::new(), &precise("2"), 0), Some(vec![]));
}

#[test]
fn each_part_of_a_claim_is_rounded_down() {
    let log = vec![
        entry(2, "0.333333333333333333333333333333333333"),
        entry(2, "0.333333333333333333333333333333333333"),
    ];
    // Each part is 0.1666..., cut after 36 places, before the parts are added.
    assert_eq!(
        collect_claims(&log, &precise("0.5"), 0),
        Some(vec![claim(2, "0.333333333333333333333333333333333332")])
    );
}

#[test]
fn claims_cover_the_first_hundred_entries() {
    let mut log = Vec::new();
    for _ in 0..150 {
        log.push(entry(2, "1"));
    }
    assert_eq!(collect_claims(&log, &precise("1"), 0), Some(vec![claim(2, "100")]));
    assert_eq!(collect_claims(&log, &precise("1"), 49), Some(vec![claim(2, "100")]));
    assert_eq!(collect_claims(&log, &precise("1"), 50), Some(vec![claim(2, "100")]));
    assert_eq!(collect_claims(&log, &precise("1"), 51), Some(vec![claim(2, "99")]));
    assert_eq!(collect_claims(&log, &precise("1"), 149), Some(vec![claim(2, "1")]));
}

#[test]
fn claims_beyond_the_range_are_none() {
    let largest = Precise::from_limbs(PreciseDecimal::MAX.precise_subunits().to_digits());
    let log = vec![
        entry(3, "1"),
        AirdropEntry { asset: coin(2), amount_per_share: largest },
        AirdropEntry { asset: coin(2), amount_per_share: largest },
    ];
    assert_eq!(collect_claims(&log, &precise("2"), 0), None);
    assert_eq!(collect_claims(&log, &precise("1"), 0), None);
    assert_eq!(collect_claims(&log, &precise("1"), 2), Some(vec![Claim { asset: coin(2), amount: largest }]));
    assert!(collect_claims(&log, &precise("0.5"), 0).is_some());
}

#[test]
fn payouts_are_the_claims_rounded_toward_zero() {
    let claims = vec![
        claim(2, "86.666666666666666666666666666666666666"),
        claim(3, "0.000000000000000000999999999999999999"),
        claim(4, "5"),
    ];
    assert_eq!(
        pay_claims(&claims),
        Some(vec![bucket(2, "86.666666666666666666"), bucket(3, "0"), bucket(4, "5")])
    );
    assert_eq!(pay_claims(&Vec::new()), Some(vec![]));
    let largest = Precise::from_limbs(PreciseDecimal::MAX.precise_subunits().to_digits());
    assert_eq!(pay_claims(&vec![claim(2, "1"), Claim { asset: coin(3), amount: largest }]), None);
}

#[test]
fn payouts_are_taken_from_their_vaults() {
    let vaults = vec![bucket(2, "10"), bucket(3, "1"), bucket(4, "7")];
    assert_eq!(
        debit(&vaults, &vec![bucket(4, "7"), bucket(2, "0.5")]),
        Some(vec![bucket(2, "9.5"), bucket(3, "1"), bucket(4, "0")])
    );
    assert_eq!(debit(&vaults, &Vec::new()), Some(vaults.clone()));
    // A balance may fall below zero here; a well-formed pool never asks for it.
    assert_eq!(
        debit(&vaults, &vec![bucket(3, "2")]),
        Some(vec![bucket(2, "10"), Bucket { asset: coin(3), amount: amount("-1") }, bucket(4, "7")])
    );
}

#[test]
fn payout_without_a_vault_is_refused() {
    let vaults = vec![bucket(2, "10")];
    assert_eq!(debit(&vaults, &vec![bucket(2, "1"), bucket(3, "1")]), None);
    assert_eq!(debit(&Vec::new(), &vec![bucket(2, "1")]), None);
}

#[test]
fn payout_beyond_the_range_is_refused() {
    let least = Amount::from_limbs(Decimal::MIN.attos().to_digits());
    let vaults = vec![Bucket { asset: coin(2), amount: least }];
    assert_eq!(debit(&vaults, &vec![Bucket { asset: coin(2), amount: attos(1) }]), None);
    assert_eq!(
        debit(&vaults, &vec![Bucket { asset: coin(2), amount: attos(0) }]),
        Some(vaults.clone())
    );
}

#[test]
fn first_holding_of_an_asset_is_found() {
    let buckets = vec![bucket(2, "1"), bucket(3, "2"), bucket(2, "3")];
    assert_eq!(find_bucket(&buckets, &coin(2)), Some(0));
    assert_eq!(find_bucket(&buckets, &coin(3)), Some(1));
    assert_eq!(find_bucket(&buckets, &coin(4)), None);
    assert_eq!(find_bucket(&Vec::new(), &coin(2)), None);
    let claims = vec![claim(5, "1"), claim(6, "2"), claim(6, "3")];
    assert_eq!(find_claim(&claims, &coin(6)), Some(1));
    assert_eq!(find_claim(&claims, &coin(5)), Some(0));
    assert_eq!(find_claim(&claims, &coin(2)), None);
}

#[test]
fn first_position_with_a_number_is_found() {
    let positions = vec![position(3), position(5), position(8), position(5)];
    assert_eq!(find_position(&positions, 3), Some(0));
    assert_eq!(find_position(&positions, 5), Some(1));
    assert_eq!(find_position(&positions, 8), Some(2));
    assert_eq!(find_position(&positions, 4), None);
    assert_eq!(find_position(&Vec::new(), 3), None);
}
