//! Why a withdrawal from a well-formed pool has every number within its
//! range, pays no more than the pool holds, and leaves the pool well-formed.

use crate::arith::{
    lemma_div_bounds, lemma_div_monotone, lemma_div_strict, lemma_div_upper,
    lemma_product_nonnegative, lemma_quotient_nonnegative, lemma_truncate_nonnegative,
};
use crate::asset::{AssetId, Holding};
use crate::fixed::{amount_limit, precise_limit, precise_one, precise_per_atto, truncate, widen};
use crate::holdings::{has_asset, lemma_asset_index, quantity_of};
use crate::ledger::{
    lemma_position_index_exists, lemma_share_sum_bounds, lemma_share_sum_remove,
    position_index,
};
use crate::model::{
    base_payout, can_pay, claims_between, debited, payouts_for, remove_stake_spec, settled,
    window_end, PoolView, MAX_BUCKETS,
};
use crate::owed::{
    claim_of, distinct_assets, lemma_claims_are_owed, lemma_owed_between_absent,
    lemma_owed_sum_bounds, lemma_owed_sum_remove, owed_between,
};
use crate::wellformed::{entry_wf, lemma_wf_fits, position_wf, solvent, wf};
use vstd::prelude::*;

verus! {

/// A share that is part of the total takes a part of the balance: the whole
/// of it where it is the whole total, and less than the whole where it is
/// less.
pub proof fn lemma_base_payout_bounds(share: int, total: int, balance: int)
    requires
        0 <= share <= total,
        0 < total,
        0 <= balance < amount_limit(),
    ensures
        base_payout(share, total, balance) is Some,
        0 <= base_payout(share, total, balance).unwrap() <= balance,
        share == total ==> base_payout(share, total, balance).unwrap() == balance,
        share < total && 0 < balance ==> base_payout(share, total, balance).unwrap() < balance,
{
    let one = precise_one();
    lemma_quotient_nonnegative(share, total);
    let ratio = (share * one) / total;
    assert(share * one <= one * total) by (nonlinear_arith)
        requires
            0 <= share <= total,
            0 < one,
    ;
    lemma_div_upper(share * one, total, one);
    let quantity = widen(balance);
    lemma_product_nonnegative(ratio, quantity);
    let gross = (ratio * quantity) / one;
    assert(ratio * quantity <= quantity * one) by (nonlinear_arith)
        requires
            0 <= ratio <= one,
            0 <= quantity,
    ;
    lemma_div_upper(ratio * quantity, one, quantity);
    lemma_truncate_nonnegative(gross);
    lemma_div_monotone(gross, quantity, precise_per_atto());
    if share == total {
        assert((total * one) / total == one) by (nonlinear_arith)
            requires
                0 < total,
        ;
        assert((one * quantity) / one == quantity) by (nonlinear_arith)
            requires
                0 < one,
        ;
    } else if 0 < balance {
        assert(share * one < one * total) by (nonlinear_arith)
            requires
                0 <= share < total,
                0 < one,
        ;
        lemma_div_strict(share * one, total, one);
        assert(ratio * quantity < quantity * one) by (nonlinear_arith)
            requires
                0 <= ratio < one,
                0 < quantity,
        ;
        lemma_div_strict(ratio * quantity, one, quantity);
        lemma_div_monotone(gross, quantity - 1, precise_per_atto());
    }
}

/// What a position of a well-formed pool claims: each claim is what the
/// position is owed of its asset, the asset has a balance, and the balance
/// covers the claim.
pub proof fn lemma_position_claims(s: PoolView, i: int)
    requires
        wf(s),
        0 <= i < s.positions.len(),
    ensures
        ({
            let p = s.positions[i];
            let claims = claims_between(
                s.airdrops,
                p.stake_share,
                p.airdrop_watermark,
                window_end(p.airdrop_watermark, s.airdrops.len() as int),
            );
            &&& claims is Some
            &&& claims.unwrap().len() <= MAX_BUCKETS
            &&& distinct_assets(claims.unwrap())
            &&& forall|a: AssetId|
                quantity_of(claims.unwrap(), a) == #[trigger] claim_of(s.airdrops, p, a)
            &&& forall|k: int|
                0 <= k < claims.unwrap().len() ==> {
                    let h = #[trigger] claims.unwrap()[k];
                    &&& s.balances.dom().contains(h.asset)
                    &&& h.asset != s.base_asset
                    &&& h.amount == claim_of(s.airdrops, p, h.asset)
                    &&& 0 <= h.amount <= s.balances[h.asset] * precise_per_atto()
                }
        }),
{
    let p = s.positions[i];
    let lo = p.airdrop_watermark;
    let hi = window_end(lo, s.airdrops.len() as int);
    lemma_wf_fits(s);
    assert(position_wf(s, p));
    assert forall|a: AssetId| #[trigger]
        owed_between(s.airdrops, p.stake_share, a, lo, hi) < precise_limit() by {
        lemma_claim_covered(s, i, a);
    }
    lemma_claims_are_owed(s.airdrops, p.stake_share, lo, hi);
    let claims = claims_between(s.airdrops, p.stake_share, lo, hi).unwrap();
    assert forall|a: AssetId| quantity_of(claims, a) == #[trigger] claim_of(s.airdrops, p, a) by {
        assert(quantity_of(claims, a) == owed_between(s.airdrops, p.stake_share, a, lo, hi));
    }
    assert forall|k: int| 0 <= k < claims.len() implies {
        let h = #[trigger] claims[k];
        &&& s.balances.dom().contains(h.asset)
        &&& h.asset != s.base_asset
        &&& h.amount == claim_of(s.airdrops, p, h.asset)
        &&& 0 <= h.amount <= s.balances[h.asset] * precise_per_atto()
    } by {
        let h = claims[k];
        assert(forall|j: int| 0 <= j < k ==> (#[trigger] claims[j]).asset != claims[k].asset);
        lemma_asset_index(claims, h.asset, k);
        assert(quantity_of(claims, h.asset) == claim_of(s.airdrops, p, h.asset));
        let e = choose|e: int| lo <= e < hi && (#[trigger] s.airdrops[e]).asset == h.asset;
        assert(entry_wf(s, s.airdrops[e]));
        lemma_claim_covered(s, i, h.asset);
    }
}

/// What a position of a well-formed pool is owed of an asset is covered by
/// the asset's balance, and is nothing where the asset has none.
pub proof fn lemma_claim_covered(s: PoolView, i: int, asset: AssetId)
    requires
        wf(s),
        0 <= i < s.positions.len(),
    ensures
        0 <= claim_of(s.airdrops, s.positions[i], asset) < precise_limit(),
        s.balances.dom().contains(asset) ==> claim_of(s.airdrops, s.positions[i], asset)
            <= s.balances[asset] * precise_per_atto(),
        !s.balances.dom().contains(asset) ==> claim_of(s.airdrops, s.positions[i], asset) == 0,
{
    let p = s.positions[i];
    lemma_wf_fits(s);
    assert(position_wf(s, p));
    if s.balances.dom().contains(asset) {
        assert(solvent(s, asset));
        lemma_owed_sum_bounds(s.airdrops, s.positions, i, asset);
    } else {
        assert forall|e: int| 0 <= e < s.airdrops.len() implies (#[trigger] s.airdrops[e]).asset
            != asset by {
            assert(entry_wf(s, s.airdrops[e]));
        }
        lemma_owed_between_absent(
            s.airdrops,
            p.stake_share,
            asset,
            p.airdrop_watermark,
            window_end(p.airdrop_watermark, s.airdrops.len() as int),
        );
    }
}

/// Payouts of distinct assets, each within the balance of its asset, can
/// all be taken: each asset's balance falls by its payout, and no other
/// balance changes.
pub proof fn lemma_debited_within(balances: Map<AssetId, int>, payouts: Seq<Holding>, n: int)
    requires
        0 <= n <= payouts.len(),
        distinct_assets(payouts),
        forall|k: int|
            0 <= k < payouts.len() ==> {
                let h = #[trigger] payouts[k];
                &&& balances.dom().contains(h.asset)
                &&& 0 <= h.amount <= balances[h.asset] < amount_limit()
            },
    ensures
        debited(balances, payouts, n) is Some,
        debited(balances, payouts, n).unwrap().dom() == balances.dom(),
        forall|k: int|
            0 <= k < n ==> debited(balances, payouts, n).unwrap()[(#[trigger] payouts[k]).asset]
                == balances[payouts[k].asset] - payouts[k].amount,
        forall|k: int|
            n <= k < payouts.len() ==> debited(balances, payouts, n).unwrap()[(
            #[trigger] payouts[k]).asset] == balances[payouts[k].asset],
        forall|a: AssetId|
            !has_asset(payouts, a) ==> #[trigger] debited(balances, payouts, n).unwrap()[a]
                == balances[a],
    decreases n,
{
    if n > 0 {
        lemma_debited_within(balances, payouts, n - 1);
        let before = debited(balances, payouts, n - 1).unwrap();
        let h = payouts[n - 1];
        assert(before[h.asset] == balances[h.asset]);
        let after = debited(balances, payouts, n).unwrap();
        assert(after == before.insert(h.asset, before[h.asset] - h.amount));
        assert(after.dom() =~= balances.dom());
        assert forall|k: int| 0 <= k < n implies after[(#[trigger] payouts[k]).asset]
            == balances[payouts[k].asset] - payouts[k].amount by {
            if k < n - 1 {
                assert(payouts[k].asset != payouts[n - 1].asset);
            }
        }
        assert forall|k: int| n <= k < payouts.len() implies after[(#[trigger] payouts[k]).asset]
            == balances[payouts[k].asset] by {
            assert(payouts[k].asset != payouts[n - 1].asset);
        }
        assert forall|a: AssetId| !has_asset(payouts, a) implies #[trigger] after[a]
            == balances[a] by {
            assert(payouts[n - 1].asset != a);
        }
    }
}

/// What is paid for the claims of a position of a well-formed pool: each
/// payout is the claim rounded down, of an asset of its own, and within the
/// balance of that asset.
pub proof fn lemma_position_payouts(s: PoolView, i: int)
    requires
        wf(s),
        0 <= i < s.positions.len(),
    ensures
        ({
            let p = s.positions[i];
            let claims = claims_between(
                s.airdrops,
                p.stake_share,
                p.airdrop_watermark,
                window_end(p.airdrop_watermark, s.airdrops.len() as int),
            ).unwrap();
            let payouts = payouts_for(claims);
            &&& can_pay(claims)
            &&& payouts.len() == claims.len()
            &&& distinct_assets(payouts)
            &&& forall|a: AssetId| has_asset(payouts, a) == has_asset(claims, a)
            &&& forall|k: int|
                0 <= k < payouts.len() ==> {
                    let h = #[trigger] payouts[k];
                    &&& h.asset == claims[k].asset
                    &&& s.balances.dom().contains(h.asset)
                    &&& h.amount == claim_of(s.airdrops, p, h.asset) / precise_per_atto()
                    &&& 0 <= h.amount <= s.balances[h.asset] < amount_limit()
                }
        }),
{
    let p = s.positions[i];
    lemma_position_claims(s, i);
    let claims = claims_between(
        s.airdrops,
        p.stake_share,
        p.airdrop_watermark,
        window_end(p.airdrop_watermark, s.airdrops.len() as int),
    ).unwrap();
    let payouts = payouts_for(claims);
    assert forall|k: int| 0 <= k < claims.len() implies (#[trigger] truncate(claims[k].amount))
        is Some && truncate(claims[k].amount).unwrap() == claims[k].amount / precise_per_atto()
        && 0 <= claims[k].amount / precise_per_atto() <= s.balances[claims[k].asset] by {
        let h = claims[k];
        assert(solvent(s, h.asset));
        lemma_div_upper(h.amount, precise_per_atto(), s.balances[h.asset]);
        lemma_truncate_nonnegative(h.amount);
    }
    assert forall|k: int| 0 <= k < payouts.len() implies {
        let h = #[trigger] payouts[k];
        &&& h.asset == claims[k].asset
        &&& s.balances.dom().contains(h.asset)
        &&& h.amount == claim_of(s.airdrops, p, h.asset) / precise_per_atto()
        &&& 0 <= h.amount <= s.balances[h.asset] < amount_limit()
    } by {
        let c = claims[k];
        assert(truncate(c.amount) is Some);
        assert(solvent(s, c.asset));
    }
    assert forall|k: int, j: int|
        0 <= k < payouts.len() && 0 <= j < payouts.len() && k != j implies (
    #[trigger] payouts[k]).asset != (#[trigger] payouts[j]).asset by {
        assert(claims[k].asset != claims[j].asset);
    }
    assert forall|a: AssetId| has_asset(payouts, a) == has_asset(claims, a) by {
        if has_asset(payouts, a) {
            let k = choose|k: int| 0 <= k < payouts.len() && #[trigger] payouts[k].asset == a;
            assert(claims[k].asset == a);
        }
        if has_asset(claims, a) {
            let k = choose|k: int| 0 <= k < claims.len() && #[trigger] claims[k].asset == a;
            assert(payouts[k].asset == a);
        }
    }
}

/// A withdrawal from a well-formed pool with a total share has every number
/// within its range and leaves a well-formed pool. It pays a part of the
/// base balance, then of each asset it pays the position's claim rounded
/// down, which the asset's balance covers. Rounding keeps less than one
/// smallest unit of each asset in the pool.
pub proof fn lemma_settled(s: PoolView, i: int)
    requires
        wf(s),
        0 <= i < s.positions.len(),
        s.total_stake_share != 0,
    ensures
        settled(s, i) is Some,
        wf(settled(s, i).unwrap().0),
        ({
            let p = s.positions[i];
            let (t, paid) = settled(s, i).unwrap();
            &&& 1 <= paid.len() <= 1 + MAX_BUCKETS
            &&& paid[0].asset == s.base_asset
            &&& 0 <= paid[0].amount <= s.base_balance
            &&& t.base_balance == s.base_balance - paid[0].amount
            &&& t.balances.dom() == s.balances.dom()
            &&& forall|k: int|
                1 <= k < paid.len() ==> {
                    let h = #[trigger] paid[k];
                    &&& h.asset != s.base_asset
                    &&& s.balances.dom().contains(h.asset)
                    &&& h.amount == claim_of(s.airdrops, p, h.asset) / precise_per_atto()
                    &&& 0 <= claim_of(s.airdrops, p, h.asset) - h.amount * precise_per_atto()
                        < precise_per_atto()
                    &&& 0 <= h.amount <= s.balances[h.asset]
                    &&& t.balances[h.asset] == s.balances[h.asset] - h.amount
                }
            &&& forall|k: int, j: int|
                0 <= k < paid.len() && 0 <= j < paid.len() && k != j ==> (#[trigger] paid[k]).asset
                    != (#[trigger] paid[j]).asset
            &&& forall|a: AssetId|
                !has_asset(paid, a) ==> #[trigger] t.balances[a] == s.balances[a]
        }),
{
    let p = s.positions[i];
    lemma_wf_fits(s);
    assert(position_wf(s, p));
    lemma_share_sum_bounds(s.positions, i);
    lemma_share_sum_remove(s.positions, i);
    lemma_base_payout_bounds(p.stake_share, s.total_stake_share, s.base_balance);
    lemma_position_claims(s, i);
    lemma_position_payouts(s, i);
    let claims = claims_between(
        s.airdrops,
        p.stake_share,
        p.airdrop_watermark,
        window_end(p.airdrop_watermark, s.airdrops.len() as int),
    ).unwrap();
    let payouts = payouts_for(claims);
    lemma_debited_within(s.balances, payouts, payouts.len() as int);
    let (t, paid) = settled(s, i).unwrap();
    assert(paid == seq![Holding { asset: s.base_asset, amount: paid[0].amount }] + payouts);
    assert forall|k: int| 1 <= k < paid.len() implies {
        let h = #[trigger] paid[k];
        &&& h.asset != s.base_asset
        &&& s.balances.dom().contains(h.asset)
        &&& h.amount == claim_of(s.airdrops, p, h.asset) / precise_per_atto()
        &&& 0 <= claim_of(s.airdrops, p, h.asset) - h.amount * precise_per_atto()
            < precise_per_atto()
        &&& 0 <= h.amount <= s.balances[h.asset]
        &&& t.balances[h.asset] == s.balances[h.asset] - h.amount
    } by {
        assert(paid[k] == payouts[k - 1]);
        assert(claims[k - 1].asset != s.base_asset);
        lemma_claim_covered(s, i, paid[k].asset);
        lemma_div_bounds(claim_of(s.airdrops, p, paid[k].asset), precise_per_atto());
    }
    assert forall|k: int, j: int|
        0 <= k < paid.len() && 0 <= j < paid.len() && k != j implies (#[trigger] paid[k]).asset
        != (#[trigger] paid[j]).asset by {
        if k >= 1 {
            assert(paid[k] == payouts[k - 1]);
            assert(claims[k - 1].asset != s.base_asset);
        }
        if j >= 1 {
            assert(paid[j] == payouts[j - 1]);
            assert(claims[j - 1].asset != s.base_asset);
        }
    }
    assert forall|a: AssetId| !has_asset(paid, a) implies #[trigger] t.balances[a]
        == s.balances[a] by {
        if has_asset(payouts, a) {
            let k = choose|k: int| 0 <= k < payouts.len() && #[trigger] payouts[k].asset == a;
            assert(paid[k + 1].asset == a);
        }
    }
    // The pool that is left is well-formed.
    s.positions.remove_ensures(i);
    assert forall|a: AssetId| #[trigger] t.balances.dom().contains(a) implies solvent(t, a) by {
        assert(solvent(s, a));
        lemma_owed_sum_remove(s.airdrops, s.positions, i, a);
        lemma_claim_covered(s, i, a);
        if has_asset(payouts, a) {
            let k = choose|k: int| 0 <= k < payouts.len() && #[trigger] payouts[k].asset == a;
            let h = payouts[k];
            lemma_div_bounds(claim_of(s.airdrops, p, a), precise_per_atto());
        }
    }
    assert forall|k: int| 0 <= k < t.positions.len() implies position_wf(
        t,
        #[trigger] t.positions[k],
    ) by {
        if k < i {
            assert(position_wf(s, s.positions[k]));
        } else {
            assert(position_wf(s, s.positions[k + 1]));
        }
    }
    assert forall|k: int, j: int| 0 <= k < j < t.positions.len() implies (
    #[trigger] t.positions[k]).id < (#[trigger] t.positions[j]).id by {
        let k0 = if k < i {
            k
        } else {
            k + 1
        };
        let j0 = if j < i {
            j
        } else {
            j + 1
        };
        assert(s.positions[k0].id < s.positions[j0].id);
    }
    assert forall|k: int| 0 <= k < t.airdrops.len() implies entry_wf(
        t,
        #[trigger] t.airdrops[k],
    ) by {
        assert(entry_wf(s, s.airdrops[k]));
    }
}

/// A withdrawal that is accepted leaves the pool well-formed.
pub proof fn lemma_remove_stake_wf(s: PoolView, id: int, now: int)
    requires
        wf(s),
        remove_stake_spec(s, id, now) is Ok,
    ensures
        wf(remove_stake_spec(s, id, now).unwrap().0),
{
    lemma_position_index_exists(s.positions, id);
    lemma_settled(s, position_index(s.positions, id));
}

} // verus!
