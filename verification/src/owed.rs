//! What the pool owes to its positions of each airdropped asset.

use crate::arith::lemma_product_nonnegative;
use crate::asset::{AssetId, Holding};
use crate::fixed::{precise_limit, precise_one, precise_product, precise_sum};
use crate::holdings::{
    asset_index, balances_of, has_asset, lemma_asset_index_exists, lemma_balances_push,
    lemma_balances_update, quantity_of,
};
use crate::ledger::{lemma_share_sum_nonnegative, share_sum, AirdropView, PositionView};
use crate::model::{add_claim, claims_between, window_end, MAX_BUCKETS};
use vstd::prelude::*;

verus! {

/// What a share of `share` is owed of `asset` from one log entry: the share
/// times the entry's quantity per share, rounded down, where the entry is an
/// airdrop of that asset.
pub open spec fn owed_part(share: int, entry: AirdropView, asset: AssetId) -> int {
    if entry.asset == asset {
        (share * entry.amount_per_share) / precise_one()
    } else {
        0
    }
}

/// What a share of `share` is owed of `asset` from the log entries at the
/// indices from `lo` up to, not including, `hi`.
pub open spec fn owed_between(
    airdrops: Seq<AirdropView>,
    share: int,
    asset: AssetId,
    lo: int,
    hi: int,
) -> int
    decreases hi - lo,
{
    if hi <= lo {
        0
    } else {
        owed_between(airdrops, share, asset, lo, hi - 1) + owed_part(
            share,
            airdrops[hi - 1],
            asset,
        )
    }
}

/// What the position is owed of `asset`, in precise units: its part of the
/// airdrops of that asset among the first [`MAX_BUCKETS`] log entries after
/// its watermark.
pub open spec fn claim_of(airdrops: Seq<AirdropView>, p: PositionView, asset: AssetId) -> int {
    owed_between(
        airdrops,
        p.stake_share,
        asset,
        p.airdrop_watermark,
        window_end(p.airdrop_watermark, airdrops.len() as int),
    )
}

/// What the positions together are owed of `asset`, in precise units.
pub open spec fn owed_sum(
    airdrops: Seq<AirdropView>,
    positions: Seq<PositionView>,
    asset: AssetId,
) -> int
    decreases positions.len(),
{
    if positions.len() == 0 {
        0
    } else {
        owed_sum(airdrops, positions.drop_last(), asset) + claim_of(
            airdrops,
            positions.last(),
            asset,
        )
    }
}

/// Whether no entry of the log has a negative quantity per share.
pub open spec fn log_nonnegative(airdrops: Seq<AirdropView>) -> bool {
    forall|i: int| 0 <= i < airdrops.len() ==> 0 <= (#[trigger] airdrops[i]).amount_per_share
}

/// Whether no two holdings are of the same asset.
pub open spec fn distinct_assets(h: Seq<Holding>) -> bool {
    forall|i: int, j: int|
        0 <= i < h.len() && 0 <= j < h.len() && i != j ==> (#[trigger] h[i]).asset != (
        #[trigger] h[j]).asset
}

/// Nothing negative is owed from an entry.
pub proof fn lemma_owed_part_nonnegative(share: int, entry: AirdropView, asset: AssetId)
    requires
        0 <= share,
        0 <= entry.amount_per_share,
    ensures
        0 <= owed_part(share, entry, asset),
{
    lemma_product_nonnegative(share, entry.amount_per_share);
}

/// Nothing negative is owed from a stretch of the log, and no less from a
/// longer stretch.
pub proof fn lemma_owed_between_grows(
    airdrops: Seq<AirdropView>,
    share: int,
    asset: AssetId,
    lo: int,
    mid: int,
    hi: int,
)
    requires
        0 <= lo,
        mid <= hi <= airdrops.len(),
        0 <= share,
        log_nonnegative(airdrops),
    ensures
        0 <= owed_between(airdrops, share, asset, lo, mid) <= owed_between(
            airdrops,
            share,
            asset,
            lo,
            hi,
        ),
    decreases hi - lo,
{
    if lo < hi {
        lemma_owed_part_nonnegative(share, airdrops[hi - 1], asset);
        if mid < hi {
            lemma_owed_between_grows(airdrops, share, asset, lo, mid, hi - 1);
        } else {
            lemma_owed_between_grows(airdrops, share, asset, lo, hi - 1, hi - 1);
        }
    }
}

/// What is owed from a stretch of the log depends on that stretch alone.
pub proof fn lemma_owed_between_same(
    a1: Seq<AirdropView>,
    a2: Seq<AirdropView>,
    share: int,
    asset: AssetId,
    lo: int,
    hi: int,
)
    requires
        forall|i: int| lo <= i < hi ==> a1[i] == a2[i],
    ensures
        owed_between(a1, share, asset, lo, hi) == owed_between(a2, share, asset, lo, hi),
    decreases hi - lo,
{
    if lo < hi {
        lemma_owed_between_same(a1, a2, share, asset, lo, hi - 1);
    }
}

/// Nothing is owed of an asset from a stretch of the log without an airdrop
/// of it.
pub proof fn lemma_owed_between_absent(
    airdrops: Seq<AirdropView>,
    share: int,
    asset: AssetId,
    lo: int,
    hi: int,
)
    requires
        forall|i: int| lo <= i < hi ==> (#[trigger] airdrops[i]).asset != asset,
    ensures
        owed_between(airdrops, share, asset, lo, hi) == 0,
    decreases hi - lo,
{
    if lo < hi {
        lemma_owed_between_absent(airdrops, share, asset, lo, hi - 1);
    }
}

/// The quantity held of an asset is its balance, or zero where it has none.
pub proof fn lemma_quantity_is_balance(h: Seq<Holding>, asset: AssetId)
    ensures
        balances_of(h).dom().contains(asset) == has_asset(h, asset),
        quantity_of(h, asset) == if has_asset(h, asset) {
            balances_of(h)[asset]
        } else {
            0
        },
{
}

/// The claims on a stretch of at most [`MAX_BUCKETS`] log entries are, for
/// each asset, exactly what is owed from that stretch, provided each of
/// these is a precise value. No asset is claimed twice.
pub proof fn lemma_claims_are_owed(airdrops: Seq<AirdropView>, share: int, lo: int, hi: int)
    requires
        0 <= lo,
        hi <= airdrops.len(),
        hi - lo <= MAX_BUCKETS,
        0 <= share,
        log_nonnegative(airdrops),
        forall|a: AssetId| #[trigger] owed_between(airdrops, share, a, lo, hi) < precise_limit(),
    ensures
        claims_between(airdrops, share, lo, hi) is Some,
        claims_between(airdrops, share, lo, hi).unwrap().len() <= hi - lo || hi <= lo,
        hi <= lo ==> claims_between(airdrops, share, lo, hi).unwrap().len() == 0,
        distinct_assets(claims_between(airdrops, share, lo, hi).unwrap()),
        forall|a: AssetId|
            quantity_of(claims_between(airdrops, share, lo, hi).unwrap(), a) == #[trigger] owed_between(
                airdrops,
                share,
                a,
                lo,
                hi,
            ),
        forall|a: AssetId|
            has_asset(claims_between(airdrops, share, lo, hi).unwrap(), a) ==> exists|i: int|
                lo <= i < hi && (#[trigger] airdrops[i]).asset == a,
    decreases hi - lo,
{
    if hi <= lo {
        let c = claims_between(airdrops, share, lo, hi).unwrap();
        assert(c =~= Seq::empty());
        assert forall|a: AssetId| !has_asset(c, a) by {}
    } else {
        let entry = airdrops[hi - 1];
        assert forall|a: AssetId| #[trigger]
            owed_between(airdrops, share, a, lo, hi - 1) < precise_limit() by {
            lemma_owed_between_grows(airdrops, share, a, lo, hi - 1, hi);
            assert(owed_between(airdrops, share, a, lo, hi) < precise_limit());
        }
        lemma_claims_are_owed(airdrops, share, lo, hi - 1);
        let before = claims_between(airdrops, share, lo, hi - 1).unwrap();
        lemma_owed_between_grows(airdrops, share, entry.asset, lo, hi - 1, hi);
        assert(owed_between(airdrops, share, entry.asset, lo, hi) < precise_limit());
        lemma_product_nonnegative(share, entry.amount_per_share);
        let amount = (share * entry.amount_per_share) / precise_one();
        assert(owed_part(share, entry, entry.asset) == amount);
        assert(precise_product(share, entry.amount_per_share) == Some(amount));
        assert(quantity_of(before, entry.asset) == owed_between(
            airdrops,
            share,
            entry.asset,
            lo,
            hi - 1,
        ));
        let after = add_claim(before, entry.asset, amount).unwrap();
        if has_asset(before, entry.asset) {
            lemma_asset_index_exists(before, entry.asset);
            let j = asset_index(before, entry.asset);
            let sum = before[j].amount + amount;
            assert(precise_sum(before[j].amount, amount) == Some(sum));
            lemma_balances_update(before, j, sum);
            assert(after == before.update(j, Holding { asset: entry.asset, amount: sum }));
            assert(distinct_assets(after));
            assert forall|a: AssetId| has_asset(after, a) == has_asset(before, a) by {
                lemma_quantity_is_balance(after, a);
                lemma_quantity_is_balance(before, a);
            }
        } else {
            assert(after == before.push(Holding { asset: entry.asset, amount }));
            lemma_balances_push(before, Holding { asset: entry.asset, amount });
            assert(distinct_assets(after)) by {
                assert forall|i: int, j: int|
                    0 <= i < after.len() && 0 <= j < after.len() && i != j implies (
                #[trigger] after[i]).asset != (#[trigger] after[j]).asset by {
                    if i < before.len() {
                        assert(before[i].asset == after[i].asset);
                    }
                    if j < before.len() {
                        assert(before[j].asset == after[j].asset);
                    }
                }
            }
            assert forall|a: AssetId| has_asset(after, a) == (has_asset(before, a) || a
                == entry.asset) by {
                lemma_quantity_is_balance(after, a);
                lemma_quantity_is_balance(before, a);
            }
        }
        assert forall|a: AssetId|
            quantity_of(after, a) == #[trigger] owed_between(airdrops, share, a, lo, hi) by {
            lemma_quantity_is_balance(after, a);
            lemma_quantity_is_balance(before, a);
            assert(quantity_of(before, a) == owed_between(airdrops, share, a, lo, hi - 1));
        }
        assert forall|a: AssetId| has_asset(after, a) implies exists|i: int|
            lo <= i < hi && (#[trigger] airdrops[i]).asset == a by {
            if a == entry.asset {
                assert(airdrops[hi - 1].asset == a);
            } else {
                assert(has_asset(before, a));
                let i = choose|i: int| lo <= i < hi - 1 && (#[trigger] airdrops[i]).asset == a;
                assert(airdrops[i].asset == a);
            }
        }
    }
}

/// Whether every position has a share that is not negative and a watermark
/// within a log of `tip` entries.
pub open spec fn positions_fit(positions: Seq<PositionView>, tip: int) -> bool {
    forall|i: int|
        0 <= i < positions.len() ==> 0 <= (#[trigger] positions[i]).stake_share && 0
            <= positions[i].airdrop_watermark <= tip
}

/// No position is owed a negative quantity.
pub proof fn lemma_claim_nonnegative(airdrops: Seq<AirdropView>, p: PositionView, asset: AssetId)
    requires
        0 <= p.stake_share,
        0 <= p.airdrop_watermark <= airdrops.len(),
        log_nonnegative(airdrops),
    ensures
        0 <= claim_of(airdrops, p, asset),
{
    let hi = window_end(p.airdrop_watermark, airdrops.len() as int);
    lemma_owed_between_grows(airdrops, p.stake_share, asset, p.airdrop_watermark, hi, hi);
}

/// What is owed after a position is appended.
pub proof fn lemma_owed_sum_push(
    airdrops: Seq<AirdropView>,
    positions: Seq<PositionView>,
    p: PositionView,
    asset: AssetId,
)
    ensures
        owed_sum(airdrops, positions.push(p), asset) == owed_sum(airdrops, positions, asset)
            + claim_of(airdrops, p, asset),
{
    assert(positions.push(p).drop_last() =~= positions);
}

/// What is owed after the position at index `i` is removed.
pub proof fn lemma_owed_sum_remove(
    airdrops: Seq<AirdropView>,
    positions: Seq<PositionView>,
    i: int,
    asset: AssetId,
)
    requires
        0 <= i < positions.len(),
    ensures
        owed_sum(airdrops, positions.remove(i), asset) == owed_sum(airdrops, positions, asset)
            - claim_of(airdrops, positions[i], asset),
    decreases positions.len(),
{
    if i == positions.len() - 1 {
        assert(positions.remove(i) =~= positions.drop_last());
    } else {
        assert(positions.remove(i).drop_last() =~= positions.drop_last().remove(i));
        lemma_owed_sum_remove(airdrops, positions.drop_last(), i, asset);
    }
}

/// The positions together are owed nothing negative.
pub proof fn lemma_owed_sum_nonnegative(
    airdrops: Seq<AirdropView>,
    positions: Seq<PositionView>,
    asset: AssetId,
)
    requires
        positions_fit(positions, airdrops.len() as int),
        log_nonnegative(airdrops),
    ensures
        0 <= owed_sum(airdrops, positions, asset),
    decreases positions.len(),
{
    if positions.len() > 0 {
        lemma_owed_sum_nonnegative(airdrops, positions.drop_last(), asset);
        lemma_claim_nonnegative(airdrops, positions.last(), asset);
    }
}

/// No position is owed more than all of them together.
pub proof fn lemma_owed_sum_bounds(
    airdrops: Seq<AirdropView>,
    positions: Seq<PositionView>,
    i: int,
    asset: AssetId,
)
    requires
        0 <= i < positions.len(),
        positions_fit(positions, airdrops.len() as int),
        log_nonnegative(airdrops),
    ensures
        0 <= claim_of(airdrops, positions[i], asset) <= owed_sum(airdrops, positions, asset),
    decreases positions.len(),
{
    lemma_owed_sum_nonnegative(airdrops, positions.drop_last(), asset);
    lemma_claim_nonnegative(airdrops, positions.last(), asset);
    if i < positions.len() - 1 {
        lemma_owed_sum_bounds(airdrops, positions.drop_last(), i, asset);
    }
}

/// What a position is owed after one more airdrop: its part of the airdrop
/// more, where the airdrop is among the first [`MAX_BUCKETS`] after the
/// position's watermark.
pub proof fn lemma_claim_after_airdrop(
    airdrops: Seq<AirdropView>,
    entry: AirdropView,
    p: PositionView,
    asset: AssetId,
)
    requires
        0 <= p.airdrop_watermark <= airdrops.len(),
    ensures
        claim_of(airdrops.push(entry), p, asset) == claim_of(airdrops, p, asset) + if airdrops.len()
            - p.airdrop_watermark < MAX_BUCKETS {
            owed_part(p.stake_share, entry, asset)
        } else {
            0
        },
{
    let grown = airdrops.push(entry);
    let tip = airdrops.len() as int;
    let lo = p.airdrop_watermark;
    if tip - lo < MAX_BUCKETS {
        assert(window_end(lo, tip) == tip);
        assert(window_end(lo, tip + 1) == tip + 1);
        assert(grown[tip] == entry);
        lemma_owed_between_same(airdrops, grown, p.stake_share, asset, lo, tip);
    } else {
        let hi = window_end(lo, tip);
        assert(window_end(lo, tip + 1) == hi);
        lemma_owed_between_same(airdrops, grown, p.stake_share, asset, lo, hi);
    }
}

/// What the positions are owed after one more airdrop: of the airdropped
/// asset, no more than before plus their shares' part of the airdrop; of
/// any other asset, what they were owed before.
pub proof fn lemma_owed_sum_after_airdrop(
    airdrops: Seq<AirdropView>,
    entry: AirdropView,
    positions: Seq<PositionView>,
    asset: AssetId,
)
    requires
        positions_fit(positions, airdrops.len() as int),
        0 <= entry.amount_per_share,
    ensures
        entry.asset == asset ==> owed_sum(airdrops.push(entry), positions, asset) <= owed_sum(
            airdrops,
            positions,
            asset,
        ) + (share_sum(positions) * entry.amount_per_share) / precise_one(),
        entry.asset != asset ==> owed_sum(airdrops.push(entry), positions, asset) == owed_sum(
            airdrops,
            positions,
            asset,
        ),
    decreases positions.len(),
{
    if positions.len() == 0 {
        assert(0 * entry.amount_per_share == 0) by (nonlinear_arith);
    } else {
        let rest = positions.drop_last();
        let p = positions.last();
        lemma_owed_sum_after_airdrop(airdrops, entry, rest, asset);
        lemma_claim_after_airdrop(airdrops, entry, p, asset);
        lemma_owed_part_nonnegative(p.stake_share, entry, asset);
        lemma_share_sum_nonnegative(rest);
        crate::arith::lemma_scaled_superadditive(
            share_sum(rest),
            p.stake_share,
            entry.amount_per_share,
            precise_one(),
        );
    }
}

} // verus!
