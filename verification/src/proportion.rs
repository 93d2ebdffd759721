//! Proportionality: what two positions are paid of the base balance where
//! one has twice the share of the other.

use crate::arith::{
    lemma_div_bounds, lemma_div_lower, lemma_div_monotone, lemma_div_upper, lemma_mul_nonnegative,
    lemma_product_nonnegative, lemma_quotient_nonnegative, lemma_truncate_nonnegative,
};
use crate::fixed::{amount_limit, precise_one, precise_per_atto, widen};
use crate::ledger::{
    has_position, lemma_position_index, lemma_position_index_exists, lemma_share_sum_bounds,
    lemma_share_sum_remove, position_index, share_sum, PositionView,
};
use crate::model::{base_payout, remove_stake_spec, PoolView};
use crate::wellformed::{lemma_wf_fits, wf};
use crate::withdrawal::{lemma_base_payout_bounds, lemma_settled};
use vstd::prelude::*;

verus! {

/// The base payout of a share that is part of the total, as ordinary
/// quotients.
pub open spec fn payout_of(share: int, total: int, balance: int) -> int {
    ((((share * precise_one()) / total) * widen(balance)) / precise_one()) / precise_per_atto()
}

/// Proportionality: of two positions withdrawn from the same pool, the one
/// with twice the share is paid at least twice as much of the base balance,
/// and no more than twice as much but for what rounding leaves: three
/// smallest units and the part of the balance below the precision of a
/// ratio.
pub proof fn lemma_double_share_double_payout(share: int, total: int, balance: int)
    requires
        0 <= share,
        2 * share <= total,
        0 < total,
        0 <= balance < amount_limit(),
    ensures
        base_payout(share, total, balance) == Some(payout_of(share, total, balance)),
        base_payout(2 * share, total, balance) == Some(payout_of(2 * share, total, balance)),
        payout_of(share, total, balance) <= 2 * payout_of(share, total, balance) <= payout_of(
            2 * share,
            total,
            balance,
        ),
        payout_of(2 * share, total, balance) <= 2 * payout_of(share, total, balance) + 3 + balance
            / precise_one(),
{
    let one = precise_one();
    let atto = precise_per_atto();
    let quantity = widen(balance);
    lemma_payout_is_quotients(share, total, balance);
    lemma_payout_is_quotients(2 * share, total, balance);
    // The ratios.
    let x = share * one;
    assert((2 * share) * one == 2 * x) by (nonlinear_arith)
        requires
            x == share * one,
    ;
    lemma_mul_nonnegative(share, one);
    lemma_div_bounds(x, total);
    lemma_div_bounds(2 * x, total);
    let rb = x / total;
    let ra = (2 * x) / total;
    assert((2 * rb) * total == 2 * (rb * total)) by (nonlinear_arith);
    lemma_div_lower(2 * x, total, 2 * rb);
    assert((2 * rb + 2) * total == 2 * (rb * total) + 2 * total) by (nonlinear_arith);
    assert(ra * total < (2 * rb + 2) * total);
    assert(ra < 2 * rb + 2) by (nonlinear_arith)
        requires
            ra * total < (2 * rb + 2) * total,
            0 < total,
    ;
    // The gross payouts, in precise units.
    lemma_mul_nonnegative(rb, quantity);
    lemma_mul_nonnegative(ra, quantity);
    lemma_div_bounds(rb * quantity, one);
    lemma_div_bounds(ra * quantity, one);
    lemma_div_bounds(quantity, one);
    let gb = (rb * quantity) / one;
    let ga = (ra * quantity) / one;
    let wq = quantity / one;
    assert((2 * rb) * quantity <= ra * quantity) by (nonlinear_arith)
        requires
            2 * rb <= ra,
            0 <= quantity,
    ;
    assert((2 * rb) * quantity == 2 * (rb * quantity)) by (nonlinear_arith);
    assert((2 * gb) * one == 2 * (gb * one)) by (nonlinear_arith);
    lemma_div_lower(ra * quantity, one, 2 * gb);
    assert(ra * quantity <= (2 * rb + 1) * quantity) by (nonlinear_arith)
        requires
            ra <= 2 * rb + 1,
            0 <= quantity,
    ;
    assert((2 * rb + 1) * quantity == 2 * (rb * quantity) + quantity) by (nonlinear_arith);
    assert((2 * gb + wq + 3) * one == 2 * (gb * one) + wq * one + 3 * one) by (nonlinear_arith);
    lemma_div_upper(ra * quantity, one, 2 * gb + wq + 3);
    // The payouts, in amount units.
    lemma_div_bounds(gb, atto);
    lemma_div_bounds(ga, atto);
    let pb = gb / atto;
    let pa = ga / atto;
    assert((2 * pb) * atto == 2 * (pb * atto)) by (nonlinear_arith);
    lemma_div_lower(ga, atto, 2 * pb);
    assert(wq == balance / atto);
    lemma_div_bounds(balance, atto);
    lemma_div_bounds(balance, one);
    lemma_div_monotone(balance / atto, (balance / one + 1) * atto, atto);
    assert(wq <= (balance / one + 1) * atto) by {
        lemma_div_bounds(balance / atto, atto);
        assert(one == atto * atto);
        assert((balance / atto) / atto == balance / one) by (nonlinear_arith)
            requires
                0 <= balance,
                atto == 1_000_000_000_000_000_000int,
                one == atto * atto,
        ;
    }
    assert((2 * pb + 3 + balance / one) * atto == 2 * (pb * atto) + 3 * atto + (balance / one)
        * atto) by (nonlinear_arith);
    lemma_div_upper(ga, atto, 2 * pb + 3 + balance / one);
}

/// The base payout of a share that is part of the total is made of ordinary
/// quotients.
pub proof fn lemma_payout_is_quotients(share: int, total: int, balance: int)
    requires
        0 <= share <= total,
        0 < total,
        0 <= balance < amount_limit(),
    ensures
        base_payout(share, total, balance) == Some(payout_of(share, total, balance)),
{
    lemma_base_payout_bounds(share, total, balance);
    lemma_quotient_nonnegative(share, total);
    let ratio = (share * precise_one()) / total;
    lemma_product_nonnegative(ratio, widen(balance));
    lemma_truncate_nonnegative((ratio * widen(balance)) / precise_one());
}



/// Where a share is at most a third of the total, twice the share has at
/// least its ratio to what is left once the share has gone.
proof fn lemma_ratio_step(s: int, t: int, one: int, rb: int, ra: int)
    by (nonlinear_arith)
    requires
        0 <= s,
        3 * s <= t,
        0 < t,
        0 < one,
        rb == (s * one) / t,
        ra == ((2 * s) * one) / (t - s),
        rb >= 1,
    ensures
        ra * (one - rb) >= rb * one,
{
}

/// Where the ratios are in that order, so are the gross payouts.
proof fn lemma_gross_step(
    w: int,
    w2: int,
    one: int,
    atto: int,
    rb: int,
    ra: int,
    gb: int,
    pb: int,
)
    by (nonlinear_arith)
    requires
        0 <= w,
        0 < one,
        0 < atto,
        0 <= rb,
        0 <= ra,
        ra * (one - rb) >= rb * one,
        gb * one <= rb * w,
        pb * atto <= gb,
        w2 == w - pb * atto,
    ensures
        ra * w2 >= rb * w,
{
}

/// Of two shares withdrawn one after the other, the smaller first, the one
/// twice as large is paid at least as much of the base balance.
pub proof fn lemma_smaller_share_first(share: int, total: int, balance: int)
    requires
        0 <= share,
        3 * share <= total,
        0 < total,
        0 <= balance < amount_limit(),
    ensures
        payout_of(share, total, balance) <= payout_of(
            2 * share,
            total - share,
            balance - payout_of(share, total, balance),
        ),
{
    let one = precise_one();
    let atto = precise_per_atto();
    let w = widen(balance);
    lemma_payout_is_quotients(share, total, balance);
    lemma_base_payout_bounds(share, total, balance);
    let rb = (share * one) / total;
    let gb = (rb * w) / one;
    let pb = gb / atto;
    assert(pb == payout_of(share, total, balance));
    lemma_mul_nonnegative(share, one);
    lemma_div_bounds(share * one, total);
    lemma_mul_nonnegative(rb, w);
    lemma_div_bounds(rb * w, one);
    lemma_div_bounds(gb, atto);
    let rest = balance - pb;
    let w2 = widen(rest);
    let ra = ((2 * share) * one) / (total - share);
    lemma_mul_nonnegative(2 * share, one);
    lemma_div_bounds((2 * share) * one, total - share);
    lemma_mul_nonnegative(ra, w2);
    lemma_div_bounds(ra * w2, one);
    let ga = (ra * w2) / one;
    lemma_div_bounds(ga, atto);
    let pa = ga / atto;
    assert(pa == payout_of(2 * share, total - share, rest));
    if rb >= 1 {
        lemma_ratio_step(share, total, one, rb, ra);
        lemma_gross_step(w, w2, one, atto, rb, ra, gb, pb);
        lemma_div_monotone(rb * w, ra * w2, one);
        lemma_div_monotone(gb, ga, atto);
    } else {
        assert(rb * w == 0) by (nonlinear_arith)
            requires
                rb == 0,
        ;
    }
}


/// The share that leaves last is paid no more than its part of what is left.
proof fn lemma_later_part(
    pb: int,
    gb: int,
    rb: int,
    w2: int,
    v2: int,
    atto: int,
    one: int,
    t2: int,
    s: int,
)
    by (nonlinear_arith)
    requires
        0 < atto,
        0 < one,
        0 < t2,
        0 <= s,
        0 <= v2,
        0 <= rb,
        0 <= gb,
        0 <= pb,
        w2 == v2 * atto,
        rb * t2 <= s * one,
        gb * one <= rb * w2,
        pb * atto <= gb,
    ensures
        pb * t2 <= v2 * s,
{
    assert(pb * atto * one * t2 <= gb * one * t2);
    assert(gb * one * t2 <= rb * w2 * t2);
    assert(rb * w2 * t2 == w2 * (rb * t2));
    assert(w2 * (rb * t2) <= w2 * (s * one));
    assert(pb * atto * one * t2 <= v2 * atto * s * one);
    assert((pb * t2) * (atto * one) <= (v2 * s) * (atto * one));
}

/// The share that leaves first is paid its part of the balance but for what
/// rounding leaves.
proof fn lemma_earlier_part(
    pa: int,
    ga: int,
    ra: int,
    w: int,
    v: int,
    atto: int,
    one: int,
    t: int,
    s: int,
    k: int,
)
    by (nonlinear_arith)
    requires
        1 <= atto,
        0 < one,
        0 < t,
        0 <= s,
        0 <= v,
        0 <= ra,
        0 <= ga,
        0 <= pa,
        0 <= k,
        w == v * atto,
        v < (k + 1) * one,
        ra * t + t > (2 * s) * one,
        ga * one + one > ra * w,
        pa * atto + atto > ga,
    ensures
        pa * t + t * (k + 3) >= 2 * s * v,
{
    assert(pa * atto * one * t + atto * one * t > ga * one * t) by {
        assert((pa * atto + atto) * (one * t) > ga * (one * t));
    }
    assert(ga * one * t + one * t > ra * w * t) by {
        assert((ga * one + one) * t > (ra * w) * t);
    }
    assert(ra * w * t + t * w >= (2 * s) * one * w) by {
        assert((ra * t + t) * w >= ((2 * s) * one) * w);
    }
    assert(pa * atto * one * t + atto * one * t + one * t + t * w > (2 * s) * one * w);
    assert(one * t <= atto * one * t);
    assert(t * w <= t * ((k + 1) * one * atto)) by {
        assert(w <= (k + 1) * one * atto);
    }
    assert((pa * t + t * (k + 3)) * (atto * one) > (2 * s * v) * (atto * one)) by {
        assert((pa * t + t * (k + 3)) * (atto * one) == pa * atto * one * t + 2 * (atto * one
            * t) + t * ((k + 1) * one * atto));
        assert((2 * s * v) * (atto * one) == (2 * s) * one * w);
    }
}

/// What is left for the smaller share is about half of what the larger took.
proof fn lemma_halves(pa: int, pb: int, t: int, t2: int, s: int, v: int, v2: int, k: int)
    by (nonlinear_arith)
    requires
        0 <= s,
        3 * s <= t,
        t2 == t - 2 * s,
        0 < t2,
        0 <= pa,
        0 <= pb,
        0 <= k,
        v2 == v - pa,
        pb * t2 <= v2 * s,
        pa * t + t * (k + 3) >= 2 * s * v,
    ensures
        2 * pb <= pa + 3 * (k + 3),
{
    assert(2 * (pb * t2) <= 2 * (v * s) - 2 * (pa * s));
    assert(2 * (pb * t2) <= pa * t + t * (k + 3) - 2 * (pa * s));
    assert(pa * t - 2 * (pa * s) == pa * t2);
    assert(t <= 3 * t2);
    assert(t * (k + 3) <= 3 * t2 * (k + 3));
    assert((2 * pb) * t2 <= (pa + 3 * (k + 3)) * t2);
}

/// Of two shares withdrawn one after the other, the larger first, the one
/// half as large is paid no more than half as much of the base balance, but
/// for what rounding leaves.
pub proof fn lemma_larger_share_first(share: int, total: int, balance: int)
    requires
        0 <= share,
        3 * share <= total,
        0 < total - 2 * share,
        0 <= balance < amount_limit(),
    ensures
        2 * payout_of(share, total - 2 * share, balance - payout_of(2 * share, total, balance))
            <= payout_of(2 * share, total, balance) + 3 * (3 + balance / precise_one()),
{
    let one = precise_one();
    let atto = precise_per_atto();
    let w = widen(balance);
    lemma_payout_is_quotients(2 * share, total, balance);
    lemma_base_payout_bounds(2 * share, total, balance);
    let ra = ((2 * share) * one) / total;
    let ga = (ra * w) / one;
    let pa = ga / atto;
    lemma_mul_nonnegative(2 * share, one);
    lemma_div_bounds((2 * share) * one, total);
    lemma_mul_nonnegative(ra, w);
    lemma_div_bounds(ra * w, one);
    lemma_div_bounds(ga, atto);
    let rest = balance - pa;
    let w2 = widen(rest);
    let t2 = total - 2 * share;
    let rb = (share * one) / t2;
    lemma_mul_nonnegative(share, one);
    lemma_div_bounds(share * one, t2);
    lemma_mul_nonnegative(rb, w2);
    lemma_div_bounds(rb * w2, one);
    let gb = (rb * w2) / one;
    lemma_div_bounds(gb, atto);
    let pb = gb / atto;
    let k = balance / one;
    lemma_div_bounds(balance, one);
    assert((k + 1) * one == k * one + one) by (nonlinear_arith);
    lemma_later_part(pb, gb, rb, w2, rest, atto, one, t2, share);
    lemma_earlier_part(pa, ga, ra, w, balance, atto, one, total, share, k);
    lemma_halves(pa, pb, total, t2, share, balance, rest, k);
}

/// Two open positions together hold no more than the total share.
pub proof fn lemma_share_sum_two(positions: Seq<PositionView>, i: int, j: int)
    requires
        0 <= i < positions.len(),
        0 <= j < positions.len(),
        i != j,
        forall|k: int| 0 <= k < positions.len() ==> 0 <= (#[trigger] positions[k]).stake_share,
    ensures
        positions[i].stake_share + positions[j].stake_share <= share_sum(positions),
{
    let rest = positions.remove(i);
    positions.remove_ensures(i);
    lemma_share_sum_remove(positions, i);
    let moved = if j < i {
        j
    } else {
        j - 1
    };
    assert(rest[moved] == positions[j]);
    assert forall|k: int| 0 <= k < rest.len() implies 0 <= (#[trigger] rest[k]).stake_share by {
        if k < i {
            assert(rest[k] == positions[k]);
        } else {
            assert(rest[k] == positions[k + 1]);
        }
    }
    lemma_share_sum_bounds(rest, moved);
}

/// A withdrawal leaves every other open position as it was.
pub proof fn lemma_other_position_stays(s: PoolView, gone: int, now: int, kept: int)
    requires
        wf(s),
        remove_stake_spec(s, gone, now) is Ok,
        has_position(s.positions, kept),
        kept != gone,
    ensures
        has_position(remove_stake_spec(s, gone, now).unwrap().0.positions, kept),
        remove_stake_spec(s, gone, now).unwrap().0.positions[position_index(
            remove_stake_spec(s, gone, now).unwrap().0.positions,
            kept,
        )] == s.positions[position_index(s.positions, kept)],
{
    let t = remove_stake_spec(s, gone, now).unwrap().0;
    lemma_position_index_exists(s.positions, gone);
    lemma_position_index_exists(s.positions, kept);
    let i = position_index(s.positions, gone);
    let j = position_index(s.positions, kept);
    s.positions.remove_ensures(i);
    let moved = if j < i {
        j
    } else {
        j - 1
    };
    assert(t.positions[moved] == s.positions[j]);
    assert forall|k: int| 0 <= k < moved implies (#[trigger] t.positions[k]).id != kept by {
        if k < i {
            assert(t.positions[k] == s.positions[k]);
        } else {
            assert(t.positions[k] == s.positions[k + 1]);
        }
    }
    lemma_position_index(t.positions, kept, moved);
}

/// Proportionality of two withdrawals with nothing in between, the smaller
/// share first: the position with twice the share is paid at least as much
/// of the base balance as the other.
pub proof fn lemma_withdrawals_smaller_first(s: PoolView, a: int, b: int, now: int, later: int)
    requires
        wf(s),
        has_position(s.positions, a),
        has_position(s.positions, b),
        a != b,
        s.positions[position_index(s.positions, a)].stake_share == 2 * s.positions[position_index(
            s.positions,
            b,
        )].stake_share,
        remove_stake_spec(s, b, now) is Ok,
        remove_stake_spec(remove_stake_spec(s, b, now).unwrap().0, a, later) is Ok,
    ensures
        remove_stake_spec(s, b, now).unwrap().1[0].amount <= remove_stake_spec(
            remove_stake_spec(s, b, now).unwrap().0,
            a,
            later,
        ).unwrap().1[0].amount,
{
    let (t, paid_b) = remove_stake_spec(s, b, now).unwrap();
    lemma_position_index_exists(s.positions, a);
    lemma_position_index_exists(s.positions, b);
    let ia = position_index(s.positions, a);
    let ib = position_index(s.positions, b);
    let share = s.positions[ib].stake_share;
    lemma_wf_fits(s);
    lemma_share_sum_two(s.positions, ia, ib);
    lemma_settled(s, ib);
    lemma_other_position_stays(s, b, now, a);
    let ja = position_index(t.positions, a);
    lemma_position_index_exists(t.positions, a);
    lemma_settled(t, ja);
    lemma_payout_is_quotients(share, s.total_stake_share, s.base_balance);
    lemma_payout_is_quotients(2 * share, t.total_stake_share, t.base_balance);
    lemma_smaller_share_first(share, s.total_stake_share, s.base_balance);
}

/// Proportionality of two withdrawals with nothing in between, the larger
/// share first: the position with half the share is paid no more than half
/// as much of the base balance as the other, but for what rounding leaves:
/// nine smallest units and three times the part of the balance below the
/// precision of a ratio.
pub proof fn lemma_withdrawals_larger_first(s: PoolView, a: int, b: int, now: int, later: int)
    requires
        wf(s),
        has_position(s.positions, a),
        has_position(s.positions, b),
        a != b,
        s.positions[position_index(s.positions, a)].stake_share == 2 * s.positions[position_index(
            s.positions,
            b,
        )].stake_share,
        remove_stake_spec(s, a, now) is Ok,
        remove_stake_spec(remove_stake_spec(s, a, now).unwrap().0, b, later) is Ok,
    ensures
        2 * remove_stake_spec(
            remove_stake_spec(s, a, now).unwrap().0,
            b,
            later,
        ).unwrap().1[0].amount <= remove_stake_spec(s, a, now).unwrap().1[0].amount + 3 * (3 + s.base_balance
            / precise_one()),
{
    let (t, paid_a) = remove_stake_spec(s, a, now).unwrap();
    lemma_position_index_exists(s.positions, a);
    lemma_position_index_exists(s.positions, b);
    let ia = position_index(s.positions, a);
    let ib = position_index(s.positions, b);
    let share = s.positions[ib].stake_share;
    lemma_wf_fits(s);
    lemma_share_sum_two(s.positions, ia, ib);
    lemma_settled(s, ia);
    lemma_other_position_stays(s, a, now, b);
    let jb = position_index(t.positions, b);
    lemma_position_index_exists(t.positions, b);
    lemma_settled(t, jb);
    lemma_wf_fits(t);
    lemma_payout_is_quotients(2 * share, s.total_stake_share, s.base_balance);
    lemma_payout_is_quotients(share, t.total_stake_share, t.base_balance);
    lemma_larger_share_first(share, s.total_stake_share, s.base_balance);
}

} // verus!
