use fomo_staking::asset::AssetId;
use fomo_staking::fixed::{Amount, Precise};
use scrypto::math::{Decimal, PreciseDecimal, I192, I256};

fn amount(text: &str) -> Amount {
    Amount::from_limbs(Decimal::try_from(text).unwrap().attos().to_digits())
}

fn precise(text: &str) -> Precise {
    Precise::from_limbs(
        PreciseDecimal::try_from(text)
            .unwrap()
            .precise_subunits()
            .to_digits(),
    )
}

fn attos(units: i128) -> Amount {
    Amount::from_limbs(I192::from(units).to_digits())
}

fn subunits(units: i128) -> Precise {
    Precise::from_limbs(I256::from(units).to_digits())
}

#[test]
fn amount_limbs_round_trip() {
    let limbs = [7u64, 11, 13];
    assert_eq!(Amount::from_limbs(limbs).limbs(), limbs);
    assert_eq!(amount("1").limbs(), [1_000_000_000_000_000_000u64, 0, 0]);
    assert_eq!(attos(-1).limbs(), [u64::MAX, u64::MAX, u64::MAX]);
}

#[test]
fn precise_limbs_round_trip() {
    let limbs = [7u64, 11, 13, 17];
    assert_eq!(Precise::from_limbs(limbs).limbs(), limbs);
    assert_eq!(subunits(-1).limbs(), [u64::MAX, u64::MAX, u64::MAX, u64::MAX]);
}

#[test]
fn constants_match_the_decimal_types() {
    assert_eq!(Amount::zero().limbs(), Decimal::ZERO.attos().to_digits());
    assert_eq!(
        Precise::zero().limbs(),
        PreciseDecimal::ZERO.precise_subunits().to_digits()
    );
    assert_eq!(
        Precise::one().limbs(),
        PreciseDecimal::ONE.precise_subunits().to_digits()
    );
    assert_eq!(Precise::one(), precise("1"));
}

#[test]
fn amount_signs() {
    assert!(Amount::zero().is_zero());
    assert!(!Amount::zero().is_positive());
    assert!(!Amount::zero().is_negative());
    assert!(attos(1).is_positive());
    assert!(!attos(1).is_negative());
    assert!(attos(-1).is_negative());
    assert!(!attos(-1).is_positive());
    assert!(!attos(-1).is_zero());
    assert!(amount("3138550867693340381917894711603833208051.177722232017256447").is_positive());
    let min = Amount::from_limbs(Decimal::MIN.attos().to_digits());
    assert!(min.is_negative());
}

#[test]
fn precise_signs() {
    assert!(Precise::zero().is_zero());
    assert!(!Precise::zero().is_positive());
    assert!(subunits(1).is_positive());
    assert!(subunits(-1).is_negative());
    assert!(!subunits(-1).is_positive());
    assert!(Precise::from_limbs([0, 0, 0, 1]).is_positive());
    assert!(Precise::from_limbs([0, 0, 0, 0x8000_0000_0000_0000]).is_negative());
}

#[test]
fn amount_order() {
    assert!(attos(1).lt(&attos(2)));
    assert!(!attos(2).lt(&attos(1)));
    assert!(!attos(2).lt(&attos(2)));
    assert!(attos(-1).lt(&attos(0)));
    assert!(attos(-2).lt(&attos(-1)));
    assert!(!attos(-1).lt(&attos(-2)));
    assert!(attos(-1).lt(&attos(1)));
    assert!(!attos(1).lt(&attos(-1)));
    // The higher limbs decide before the lower ones.
    assert!(Amount::from_limbs([u64::MAX, 0, 0]).lt(&Amount::from_limbs([0, 1, 0])));
    assert!(Amount::from_limbs([u64::MAX, u64::MAX, 0]).lt(&Amount::from_limbs([0, 0, 1])));
    assert!(!Amount::from_limbs([0, 0, 1]).lt(&Amount::from_limbs([u64::MAX, u64::MAX, 0])));
    assert!(amount("119.99").lt(&amount("120")));
    assert!(amount("120").lt(&amount("120.01")));
}

#[test]
fn amount_addition() {
    assert_eq!(amount("1.5").checked_add(&amount("2.25")), Some(amount("3.75")));
    assert_eq!(attos(-5).checked_add(&attos(3)), Some(attos(-2)));
    let max = Amount::from_limbs(Decimal::MAX.attos().to_digits());
    let min = Amount::from_limbs(Decimal::MIN.attos().to_digits());
    assert_eq!(max.checked_add(&attos(1)), None);
    assert_eq!(max.checked_add(&attos(0)), Some(max));
    assert_eq!(min.checked_add(&attos(-1)), None);
    assert_eq!(max.checked_add(&min), Some(attos(-1)));
}

#[test]
fn amount_subtraction() {
    assert_eq!(amount("3.75").checked_sub(&amount("2.25")), Some(amount("1.5")));
    assert_eq!(attos(3).checked_sub(&attos(5)), Some(attos(-2)));
    let max = Amount::from_limbs(Decimal::MAX.attos().to_digits());
    let min = Amount::from_limbs(Decimal::MIN.attos().to_digits());
    assert_eq!(min.checked_sub(&attos(1)), None);
    assert_eq!(max.checked_sub(&attos(-1)), None);
    // The least amount itself is a difference.
    assert_eq!(attos(-1).checked_sub(&max), Some(min));
}

#[test]
fn amount_widens_by_ten_to_the_eighteen() {
    assert_eq!(attos(1).to_precise(), subunits(1_000_000_000_000_000_000));
    assert_eq!(attos(-3).to_precise(), subunits(-3_000_000_000_000_000_000));
    assert_eq!(amount("130").to_precise(), precise("130"));
    let max = Amount::from_limbs(Decimal::MAX.attos().to_digits());
    assert_eq!(
        max.to_precise(),
        Precise::from_limbs(
            PreciseDecimal::from(Decimal::MAX)
                .precise_subunits()
                .to_digits()
        )
    );
}

#[test]
fn precise_addition_and_subtraction() {
    assert_eq!(precise("1").checked_add(&precise("0.5")), Some(precise("1.5")));
    assert_eq!(precise("1.5").checked_sub(&precise("0.5")), Some(precise("1")));
    assert_eq!(subunits(3).checked_sub(&subunits(5)), Some(subunits(-2)));
    let max = Precise::from_limbs(PreciseDecimal::MAX.precise_subunits().to_digits());
    let min = Precise::from_limbs(PreciseDecimal::MIN.precise_subunits().to_digits());
    assert_eq!(max.checked_add(&subunits(1)), None);
    assert_eq!(min.checked_sub(&subunits(1)), None);
    assert_eq!(max.checked_add(&min), Some(subunits(-1)));
    assert_eq!(subunits(-1).checked_sub(&max), Some(min));
}

#[test]
fn precise_product_rounds_toward_zero() {
    assert_eq!(precise("0.5").checked_mul(&precise("0.5")), Some(precise("0.25")));
    assert_eq!(precise("1.5").checked_mul(&precise("100")), Some(precise("150")));
    // The product of two smallest units is below the smallest unit.
    assert_eq!(subunits(1).checked_mul(&subunits(1)), Some(subunits(0)));
    assert_eq!(subunits(-1).checked_mul(&subunits(1)), Some(subunits(0)));
    // 1.999... units round to one unit, for either sign.
    let almost_two = subunits(1_999_999_999_999_999_999_999_999_999_999_999_999);
    assert_eq!(almost_two.checked_mul(&subunits(1)), Some(subunits(1)));
    assert_eq!(almost_two.checked_mul(&subunits(-1)), Some(subunits(-1)));
    assert_eq!(precise("-2").checked_mul(&precise("3")), Some(precise("-6")));
    assert_eq!(precise("-2").checked_mul(&precise("-3")), Some(precise("6")));
}

#[test]
fn precise_product_limits() {
    let max = Precise::from_limbs(PreciseDecimal::MAX.precise_subunits().to_digits());
    let min = Precise::from_limbs(PreciseDecimal::MIN.precise_subunits().to_digits());
    assert_eq!(max.checked_mul(&precise("1")), Some(max));
    assert_eq!(max.checked_mul(&precise("2")), None);
    assert_eq!(max.checked_mul(&max), None);
    // The least value is no product: the magnitude of a product is below 2^255.
    assert_eq!(min.checked_mul(&precise("1")), None);
    assert_eq!(max.checked_mul(&precise("-1")), Some(min.checked_add(&subunits(1)).unwrap()));
}

#[test]
fn precise_quotient_rounds_toward_zero() {
    assert_eq!(precise("1").checked_div(&precise("2")), Some(precise("0.5")));
    assert_eq!(
        precise("1").checked_div(&precise("3")),
        Some(precise("0.333333333333333333333333333333333333"))
    );
    assert_eq!(
        precise("-1").checked_div(&precise("3")),
        Some(precise("-0.333333333333333333333333333333333333"))
    );
    assert_eq!(
        precise("2").checked_div(&precise("-3")),
        Some(precise("-0.666666666666666666666666666666666666"))
    );
    assert_eq!(
        precise("130").checked_div(&precise("1.5")),
        Some(precise("86.666666666666666666666666666666666666"))
    );
}

#[test]
fn precise_quotient_limits() {
    let max = Precise::from_limbs(PreciseDecimal::MAX.precise_subunits().to_digits());
    let min = Precise::from_limbs(PreciseDecimal::MIN.precise_subunits().to_digits());
    assert_eq!(precise("1").checked_div(&Precise::zero()), None);
    assert_eq!(Precise::zero().checked_div(&Precise::zero()), None);
    assert_eq!(max.checked_div(&precise("1")), Some(max));
    assert_eq!(max.checked_div(&precise("0.5")), None);
    assert_eq!(min.checked_div(&precise("1")), None);
    assert_eq!(precise("1").checked_div(&subunits(1)), Some(precise("1000000000000000000000000000000000000")));
}

#[test]
fn precise_truncates_toward_zero() {
    assert_eq!(
        precise("86.666666666666666666666666666666666666").checked_truncate(),
        Some(amount("86.666666666666666666"))
    );
    assert_eq!(
        precise("-86.666666666666666666666666666666666666").checked_truncate(),
        Some(amount("-86.666666666666666666"))
    );
    assert_eq!(subunits(999_999_999_999_999_999).checked_truncate(), Some(attos(0)));
    assert_eq!(subunits(-999_999_999_999_999_999).checked_truncate(), Some(attos(0)));
    assert_eq!(subunits(1_000_000_000_000_000_000).checked_truncate(), Some(attos(1)));
    assert_eq!(precise("120").checked_truncate(), Some(amount("120")));
}

#[test]
fn precise_truncation_limits() {
    let max = Precise::from_limbs(PreciseDecimal::MAX.precise_subunits().to_digits());
    assert_eq!(max.checked_truncate(), None);
    let widest = Amount::from_limbs(Decimal::MAX.attos().to_digits());
    assert_eq!(widest.to_precise().checked_truncate(), Some(widest));
    // The least amount is no rounded value: the magnitude must be below 2^191.
    let least = Amount::from_limbs(Decimal::MIN.attos().to_digits());
    assert_eq!(least.to_precise().checked_truncate(), None);
    let next = least.checked_add(&attos(1)).unwrap();
    assert_eq!(next.to_precise().checked_truncate(), Some(next));
}

#[test]
fn fungible_assets_start_with_their_mark() {
    let mut bytes = [0u8; 30];
    bytes[0] = 93;
    assert!(AssetId { bytes }.is_fungible());
    bytes[5] = 200;
    assert!(AssetId { bytes }.is_fungible());
    bytes[0] = 154;
    assert!(!AssetId { bytes }.is_fungible());
    bytes[0] = 0;
    assert!(!AssetId { bytes }.is_fungible());
    bytes[0] = 92;
    assert!(!AssetId { bytes }.is_fungible());
}

#[test]
fn asset_ids_compare_by_all_bytes() {
    let mut one = [0u8; 30];
    one[0] = 93;
    let mut two = one;
    assert!(AssetId { bytes: one }.same(&AssetId { bytes: two }));
    two[29] = 1;
    assert!(!AssetId { bytes: one }.same(&AssetId { bytes: two }));
    two[29] = 0;
    two[0] = 154;
    assert!(!AssetId { bytes: one }.same(&AssetId { bytes: two }));
}
