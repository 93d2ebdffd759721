//! What a withdrawal pays: the position's fraction of the base balance, and
//! its claims on the airdrops made while it was open.

use crate::asset::{AssetId, Bucket, Claim, Holding};
use crate::fixed::{option_view_amount, truncate, Amount, Precise};
use crate::holdings::{
    balances_of, bucket_views, claim_views, find_bucket, find_claim, lemma_asset_index,
    lemma_balances_update,
};
use crate::ledger::{airdrop_views, AirdropEntry, AirdropView};
use crate::model::{
    add_claim, base_payout, can_pay, claims_between, debited, payouts_for, window_end, MAX_BUCKETS,
};
use crate::snapshot::duplicate;
use vstd::prelude::*;

verus! {

/// The models of optional claims.
pub open spec fn option_claim_views(r: Option<Vec<Claim>>) -> Option<Seq<Holding>> {
    match r {
        Some(claims) => Some(claim_views(claims@)),
        None => None,
    }
}

/// The quantity of the base asset that a share of `share` out of `total`
/// takes from `balance`, or `None` where a number leaves its range or `total`
/// is zero.
pub fn base_payout_of(share: &Precise, total: &Precise, balance: &Amount) -> (r: Option<Amount>)
    ensures
        option_view_amount(r) == base_payout(share@, total@, balance@),
{
    let ratio = match share.checked_div(total) {
        Some(ratio) => ratio,
        None => {
            return None;
        },
    };
    let gross = match ratio.checked_mul(&balance.to_precise()) {
        Some(gross) => gross,
        None => {
            return None;
        },
    };
    gross.checked_truncate()
}

/// Adds `amount` of `asset` to the claims. Returns `false`, with the claims
/// unchanged, where the sum leaves its range.
pub fn record_claim(claims: &mut Vec<Claim>, asset: AssetId, amount: Precise) -> (r: bool)
    ensures
        match add_claim(claim_views(old(claims)@), asset, amount@) {
            Some(after) => r && claim_views(final(claims)@) == after,
            None => !r && final(claims)@ == old(claims)@,
        },
{
    match find_claim(claims, &asset) {
        Some(j) => {
            proof {
                lemma_asset_index(claim_views(claims@), asset, j as int);
            }
            match claims[j].amount.checked_add(&amount) {
                Some(sum) => {
                    claims[j] = Claim { asset, amount: sum };
                    assert(claim_views(claims@) =~= claim_views(old(claims)@).update(
                        j as int,
                        Holding { asset, amount: sum@ },
                    ));
                    true
                },
                None => false,
            }
        },
        None => {
            if claims.len() < MAX_BUCKETS {
                claims.push(Claim { asset, amount });
                assert(claim_views(claims@) =~= claim_views(old(claims)@).push(
                    Holding { asset, amount: amount@ },
                ));
            }
            true
        },
    }
}

/// Once a claim leaves its range, no longer stretch of the log has claims.
proof fn lemma_claims_fail_on(airdrops: Seq<AirdropView>, share: int, lo: int, mid: int, hi: int)
    requires
        mid <= hi,
        claims_between(airdrops, share, lo, mid) is None,
    ensures
        claims_between(airdrops, share, lo, hi) is None,
    decreases hi - mid,
{
    if mid < hi {
        lemma_claims_fail_on(airdrops, share, lo, mid, hi - 1);
    }
}

/// What a position with `share` and `watermark` claims from the log: for each
/// asset airdropped in the first [`MAX_BUCKETS`] entries after the
/// watermark, in the order of first occurrence, the sum of the share's part
/// of each airdrop of it. `None` where a number leaves its range.
pub fn collect_claims(airdrops: &Vec<AirdropEntry>, share: &Precise, watermark: u64) -> (r: Option<
    Vec<Claim>,
>)
    ensures
        option_claim_views(r) == claims_between(
            airdrop_views(airdrops@),
            share@,
            watermark as int,
            window_end(watermark as int, airdrops@.len() as int),
        ),
{
    let mut claims: Vec<Claim> = Vec::new();
    let tip = airdrops.len();
    if watermark >= tip as u64 {
        assert(claim_views(claims@) =~= Seq::<Holding>::empty());
        return Some(claims);
    }
    let lo = watermark as usize;
    let hi = if tip - lo <= MAX_BUCKETS {
        tip
    } else {
        lo + MAX_BUCKETS
    };
    let ghost log = airdrop_views(airdrops@);
    let mut i = lo;
    assert(claim_views(claims@) =~= Seq::<Holding>::empty());
    while i < hi
        invariant
            lo <= i <= hi <= airdrops.len(),
            lo == watermark,
            hi as int == window_end(watermark as int, airdrops@.len() as int),
            log == airdrop_views(airdrops@),
            claims_between(log, share@, lo as int, i as int) == Some(claim_views(claims@)),
        decreases hi - i,
    {
        let entry = airdrops[i];
        assert(log[i as int] == entry@);
        let recorded = match share.checked_mul(&entry.amount_per_share) {
            Some(amount) => record_claim(&mut claims, entry.asset, amount),
            None => false,
        };
        if !recorded {
            proof {
                assert(claims_between(log, share@, lo as int, i + 1) is None);
                lemma_claims_fail_on(log, share@, lo as int, i + 1, hi as int);
            }
            return None;
        }
        i += 1;
    }
    Some(claims)
}

/// What is paid for the claims: each rounded toward zero to an amount.
/// `None` where a rounded claim is no amount.
pub fn pay_claims(claims: &Vec<Claim>) -> (r: Option<Vec<Bucket>>)
    ensures
        match r {
            Some(payouts) => can_pay(claim_views(claims@)) && bucket_views(payouts@)
                == payouts_for(claim_views(claims@)),
            None => !can_pay(claim_views(claims@)),
        },
{
    let mut payouts: Vec<Bucket> = Vec::new();
    let ghost views = claim_views(claims@);
    let mut i: usize = 0;
    while i < claims.len()
        invariant
            i <= claims.len(),
            views == claim_views(claims@),
            payouts.len() == i,
            forall|k: int| 0 <= k < i ==> (#[trigger] truncate(views[k].amount)) is Some,
            forall|k: int|
                0 <= k < i ==> (#[trigger] payouts[k])@ == payouts_for(views)[k],
        decreases claims.len() - i,
    {
        let claim = claims[i];
        assert(views[i as int] == claim@);
        match claim.amount.checked_truncate() {
            Some(amount) => {
                payouts.push(Bucket { asset: claim.asset, amount });
            },
            None => {
                assert(truncate(views[i as int].amount) is None);
                return None;
            },
        }
        i += 1;
    }
    assert(bucket_views(payouts@) =~= payouts_for(views));
    Some(payouts)
}

/// The vaults with each of the payouts taken from the vault of its asset.
/// `None` where an asset has no vault or a balance leaves its range.
pub fn debit(vaults: &Vec<Bucket>, payouts: &Vec<Bucket>) -> (r: Option<Vec<Bucket>>)
    ensures
        match r {
            Some(rest) => debited(
                balances_of(bucket_views(vaults@)),
                bucket_views(payouts@),
                payouts.len() as int,
            ) == Some(balances_of(bucket_views(rest@))),
            None => debited(
                balances_of(bucket_views(vaults@)),
                bucket_views(payouts@),
                payouts.len() as int,
            ) is None,
        },
{
    let mut rest = duplicate(vaults);
    let ghost before = balances_of(bucket_views(vaults@));
    let ghost paid = bucket_views(payouts@);
    let mut i: usize = 0;
    while i < payouts.len()
        invariant
            i <= payouts.len(),
            paid == bucket_views(payouts@),
            before == balances_of(bucket_views(vaults@)),
            debited(before, paid, i as int) == Some(balances_of(bucket_views(rest@))),
        decreases payouts.len() - i,
    {
        let payout = payouts[i];
        assert(paid[i as int] == payout@);
        let ghost views = bucket_views(rest@);
        let taken = match find_bucket(&rest, &payout.asset) {
            Some(j) => {
                proof {
                    lemma_asset_index(views, payout.asset, j as int);
                }
                match rest[j].amount.checked_sub(&payout.amount) {
                    Some(amount) => {
                        rest[j] = Bucket { asset: payout.asset, amount };
                        proof {
                            assert(bucket_views(rest@) =~= views.update(
                                j as int,
                                Holding { asset: payout.asset, amount: amount@ },
                            ));
                            lemma_balances_update(views, j as int, amount@);
                        }
                        true
                    },
                    None => false,
                }
            },
            None => false,
        };
        if !taken {
            proof {
                assert(debited(before, paid, i + 1) is None);
                lemma_debit_fails_on(before, paid, i + 1, payouts.len() as int);
            }
            return None;
        }
        i += 1;
    }
    Some(rest)
}

/// Once a balance leaves its range, taking more payouts does not bring it
/// back.
proof fn lemma_debit_fails_on(balances: Map<AssetId, int>, payouts: Seq<Holding>, n: int, m: int)
    requires
        n <= m,
        debited(balances, payouts, n) is None,
    ensures
        debited(balances, payouts, m) is None,
    decreases m - n,
{
    if n < m {
        lemma_debit_fails_on(balances, payouts, n, m - 1);
    }
}

} // verus!
