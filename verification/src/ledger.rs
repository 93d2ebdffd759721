//! The records the pool keeps: open stake positions and the airdrop log.

use crate::asset::AssetId;
use crate::fixed::{Amount, Precise};
use vstd::prelude::*;

verus! {

/// One open stake: created by a deposit, closed by its withdrawal.
#[derive(Clone, Copy, Debug, PartialEq, Eq)]
pub struct StakePosition {
    /// The number of the receipt that stands for this position.
    pub id: u64,
    /// When the stake was made, in seconds.
    pub stake_timestamp: i64,
    /// The earliest time at which the stake can be withdrawn.
    pub unlock_timestamp: i64,
    /// The quantity of the base asset that was staked.
    pub amount_staked: Amount,
    /// The position's claim on the pool.
    pub stake_share: Precise,
    /// The number of the last airdrop made before the stake. Later airdrops
    /// are owed to the position, this one and earlier ones are not.
    pub airdrop_watermark: u64,
}

/// One entry of the airdrop log. The entry at index `i` has number `i + 1`.
#[derive(Clone, Copy, Debug, PartialEq, Eq)]
pub struct AirdropEntry {
    pub asset: AssetId,
    /// The quantity airdropped per whole share.
    pub amount_per_share: Precise,
}

/// What is announced when a quantity of an asset is distributed to the
/// stakers.
#[derive(Clone, Copy, Debug, PartialEq, Eq)]
pub struct AirdropEvent {
    pub asset: AssetId,
    pub amount: Amount,
}

/// The model of a [`StakePosition`].
pub struct PositionView {
    pub id: int,
    pub stake_timestamp: int,
    pub unlock_timestamp: int,
    pub amount_staked: int,
    pub stake_share: int,
    pub airdrop_watermark: int,
}

/// The model of an [`AirdropEntry`].
pub struct AirdropView {
    pub asset: AssetId,
    pub amount_per_share: int,
}

impl View for StakePosition {
    type V = PositionView;

    open spec fn view(&self) -> PositionView {
        PositionView {
            id: self.id as int,
            stake_timestamp: self.stake_timestamp as int,
            unlock_timestamp: self.unlock_timestamp as int,
            amount_staked: self.amount_staked@,
            stake_share: self.stake_share@,
            airdrop_watermark: self.airdrop_watermark as int,
        }
    }
}

impl View for AirdropEntry {
    type V = AirdropView;

    open spec fn view(&self) -> AirdropView {
        AirdropView { asset: self.asset, amount_per_share: self.amount_per_share@ }
    }
}

/// Whether some position has the receipt number `id`.
pub open spec fn has_position(positions: Seq<PositionView>, id: int) -> bool {
    exists|i: int| 0 <= i < positions.len() && #[trigger] positions[i].id == id
}

/// Whether `i` is the index of the first position with the receipt number
/// `id`.
pub open spec fn is_position_index(positions: Seq<PositionView>, id: int, i: int) -> bool {
    &&& 0 <= i < positions.len()
    &&& positions[i].id == id
    &&& forall|j: int| 0 <= j < i ==> #[trigger] positions[j].id != id
}

/// The index of the first position with the receipt number `id`, where there
/// is one.
pub open spec fn position_index(positions: Seq<PositionView>, id: int) -> int {
    choose|i: int| is_position_index(positions, id, i)
}

/// The first index at which a position has a given number is the only such
/// index.
pub proof fn lemma_position_index(positions: Seq<PositionView>, id: int, i: int)
    requires
        is_position_index(positions, id, i),
    ensures
        has_position(positions, id),
        position_index(positions, id) == i,
{
    let c = position_index(positions, id);
    assert(is_position_index(positions, id, c));
    if c < i {
        assert(positions[c].id != id);
    }
    if i < c {
        assert(positions[i].id != id);
    }
}

/// Where some position has the number `id`, there is a first one.
pub proof fn lemma_position_index_exists(positions: Seq<PositionView>, id: int)
    requires
        has_position(positions, id),
    ensures
        is_position_index(positions, id, position_index(positions, id)),
{
    let k = choose|i: int| 0 <= i < positions.len() && #[trigger] positions[i].id == id;
    lemma_first_position_before(positions, id, k);
}

/// A number borne at index `k` has a first index at or before `k`.
proof fn lemma_first_position_before(positions: Seq<PositionView>, id: int, k: int)
    requires
        0 <= k < positions.len(),
        positions[k].id == id,
    ensures
        is_position_index(positions, id, position_index(positions, id)),
    decreases k,
{
    if forall|j: int| 0 <= j < k ==> #[trigger] positions[j].id != id {
        assert(is_position_index(positions, id, k));
    } else {
        let j = choose|j: int| 0 <= j < k && #[trigger] positions[j].id == id;
        lemma_first_position_before(positions, id, j);
    }
}

/// The models of a sequence of positions.
pub open spec fn position_views(positions: Seq<StakePosition>) -> Seq<PositionView> {
    positions.map_values(|p: StakePosition| p@)
}

/// The models of a sequence of log entries.
pub open spec fn airdrop_views(airdrops: Seq<AirdropEntry>) -> Seq<AirdropView> {
    airdrops.map_values(|e: AirdropEntry| e@)
}

/// The index of the first position with the receipt number `id`, if there is
/// one.
pub fn find_position(positions: &Vec<StakePosition>, id: u64) -> (r: Option<usize>)
    ensures
        match r {
            Some(i) => is_position_index(position_views(positions@), id as int, i as int)
                && has_position(position_views(positions@), id as int) && i as int
                == position_index(position_views(positions@), id as int),
            None => !has_position(position_views(positions@), id as int),
        },
{
    let ghost views = position_views(positions@);
    let mut i: usize = 0;
    while i < positions.len()
        invariant
            i <= positions.len(),
            views == position_views(positions@),
            forall|j: int| 0 <= j < i ==> #[trigger] views[j].id != id as int,
        decreases positions.len() - i,
    {
        if positions[i].id == id {
            proof {
                lemma_position_index(views, id as int, i as int);
            }
            return Some(i);
        }
        i += 1;
    }
    None
}

/// The sum of the shares of the positions.
pub open spec fn share_sum(positions: Seq<PositionView>) -> int
    decreases positions.len(),
{
    if positions.len() == 0 {
        0
    } else {
        share_sum(positions.drop_last()) + positions.last().stake_share
    }
}

/// The sum of shares after a position is appended.
pub proof fn lemma_share_sum_push(positions: Seq<PositionView>, p: PositionView)
    ensures
        share_sum(positions.push(p)) == share_sum(positions) + p.stake_share,
{
    assert(positions.push(p).drop_last() =~= positions);
}

/// The sum of shares after the position at index `i` is removed.
pub proof fn lemma_share_sum_remove(positions: Seq<PositionView>, i: int)
    requires
        0 <= i < positions.len(),
    ensures
        share_sum(positions.remove(i)) == share_sum(positions) - positions[i].stake_share,
    decreases positions.len(),
{
    if i == positions.len() - 1 {
        assert(positions.remove(i) =~= positions.drop_last());
    } else {
        assert(positions.remove(i).drop_last() =~= positions.drop_last().remove(i));
        lemma_share_sum_remove(positions.drop_last(), i);
    }
}

/// No share is negative, so none exceeds the sum.
pub proof fn lemma_share_sum_bounds(positions: Seq<PositionView>, i: int)
    requires
        0 <= i < positions.len(),
        forall|k: int| 0 <= k < positions.len() ==> 0 <= (#[trigger] positions[k]).stake_share,
    ensures
        0 <= positions[i].stake_share <= share_sum(positions),
        0 <= share_sum(positions.remove(i)),
    decreases positions.len(),
{
    lemma_share_sum_nonnegative(positions.drop_last());
    if i < positions.len() - 1 {
        lemma_share_sum_bounds(positions.drop_last(), i);
    }
    lemma_share_sum_remove(positions, i);
}

/// No share is negative, so neither is the sum.
pub proof fn lemma_share_sum_nonnegative(positions: Seq<PositionView>)
    requires
        forall|k: int| 0 <= k < positions.len() ==> 0 <= (#[trigger] positions[k]).stake_share,
    ensures
        0 <= share_sum(positions),
    decreases positions.len(),
{
    if positions.len() > 0 {
        lemma_share_sum_nonnegative(positions.drop_last());
    }
}

} // verus!
