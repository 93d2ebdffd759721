//! Facts of integer arithmetic that the accounting rests on.

use crate::fixed::{
    amount_limit, precise_limit, precise_one, precise_per_atto, precise_product, precise_quotient,
    trunc_div, truncate,
};
use vstd::prelude::*;

verus! {

/// The quotient of a non-negative number by a positive one is the largest
/// number whose multiple does not exceed the dividend.
pub proof fn lemma_div_bounds(a: int, b: int)
    by (nonlinear_arith)
    requires
        0 <= a,
        0 < b,
    ensures
        0 <= a / b,
        (a / b) * b <= a,
        a < (a / b) * b + b,
{
}

/// A number whose multiple by `b` does not exceed `a` does not exceed the
/// quotient.
pub proof fn lemma_div_lower(a: int, b: int, q: int)
    by (nonlinear_arith)
    requires
        0 < b,
        q * b <= a,
    ensures
        q <= a / b,
{
}

/// A quotient does not exceed a number whose multiple by `b` reaches `a`.
pub proof fn lemma_div_upper(a: int, b: int, q: int)
    by (nonlinear_arith)
    requires
        0 < b,
        a <= q * b,
    ensures
        a / b <= q,
{
}

/// A quotient stays below a number whose multiple by `b` exceeds `a`.
pub proof fn lemma_div_strict(a: int, b: int, q: int)
    by (nonlinear_arith)
    requires
        0 < b,
        a < q * b,
    ensures
        a / b < q,
{
}

/// Division by a positive number keeps the order.
pub proof fn lemma_div_monotone(a: int, b: int, d: int)
    by (nonlinear_arith)
    requires
        0 < d,
        a <= b,
    ensures
        a / d <= b / d,
{
}

/// The quotients of two non-negative numbers add up to no more than the
/// quotient of their sum.
pub proof fn lemma_div_superadditive(a: int, b: int, d: int)
    requires
        0 <= a,
        0 <= b,
        0 < d,
    ensures
        a / d + b / d <= (a + b) / d,
{
    lemma_div_bounds(a, d);
    lemma_div_bounds(b, d);
    assert((a / d + b / d) * d == (a / d) * d + (b / d) * d) by (nonlinear_arith);
    lemma_div_lower(a + b, d, a / d + b / d);
}

/// Rounding toward zero is ordinary division where nothing is negative.
pub proof fn lemma_trunc_div_nonnegative(a: int, b: int)
    requires
        0 <= a,
        0 < b,
    ensures
        trunc_div(a, b) == a / b,
        0 <= a / b,
{
    lemma_div_bounds(a, b);
}

/// The product of two non-negative numbers is non-negative.
pub proof fn lemma_mul_nonnegative(a: int, b: int)
    by (nonlinear_arith)
    requires
        0 <= a,
        0 <= b,
    ensures
        0 <= a * b,
{
}

/// The product of non-negative precise values, where there is one, is the
/// ordinary quotient of their product by one whole.
pub proof fn lemma_product_nonnegative(a: int, b: int)
    requires
        0 <= a,
        0 <= b,
    ensures
        0 <= (a * b) / precise_one(),
        precise_product(a, b) is Some ==> precise_product(a, b) == Some((a * b) / precise_one()),
        (a * b) / precise_one() < precise_limit() ==> precise_product(a, b) is Some,
{
    lemma_mul_nonnegative(a, b);
    lemma_trunc_div_nonnegative(a * b, precise_one());
}

/// The quotient of a non-negative precise value by a positive one, where
/// there is one, is the ordinary quotient of the dividend's multiple by one
/// whole.
pub proof fn lemma_quotient_nonnegative(a: int, b: int)
    requires
        0 <= a,
        0 < b,
    ensures
        0 <= (a * precise_one()) / b,
        precise_quotient(a, b) is Some ==> precise_quotient(a, b) == Some(
            (a * precise_one()) / b,
        ),
        (a * precise_one()) / b < precise_limit() ==> precise_quotient(a, b) is Some,
{
    lemma_mul_nonnegative(a, precise_one());
    lemma_trunc_div_nonnegative(a * precise_one(), b);
}

/// A non-negative precise value rounds to the ordinary quotient by the
/// number of precise units in an amount unit.
pub proof fn lemma_truncate_nonnegative(p: int)
    requires
        0 <= p,
    ensures
        0 <= p / precise_per_atto(),
        truncate(p) is Some ==> truncate(p) == Some(p / precise_per_atto()),
        p / precise_per_atto() < amount_limit() ==> truncate(p) is Some,
{
    lemma_trunc_div_nonnegative(p, precise_per_atto());
}

/// The parts of two non-negative numbers, each scaled by `c` and divided by
/// `d`, add up to no more than the part of their sum.
pub proof fn lemma_scaled_superadditive(x: int, y: int, c: int, d: int)
    requires
        0 <= x,
        0 <= y,
        0 <= c,
        0 < d,
    ensures
        (x * c) / d + (y * c) / d <= ((x + y) * c) / d,
{
    lemma_mul_nonnegative(x, c);
    lemma_mul_nonnegative(y, c);
    assert((x + y) * c == x * c + y * c) by (nonlinear_arith);
    lemma_div_superadditive(x * c, y * c, d);
}

/// A quantity divided among `total` shares and then multiplied by `total`
/// again does not exceed the quantity.
pub proof fn lemma_per_share_bound(quantity: int, total: int)
    requires
        0 <= quantity,
        0 < total,
    ensures
        (total * ((quantity * precise_one()) / total)) / precise_one() <= quantity,
{
    let per_share = (quantity * precise_one()) / total;
    lemma_mul_nonnegative(quantity, precise_one());
    lemma_div_bounds(quantity * precise_one(), total);
    assert(total * per_share == per_share * total) by (nonlinear_arith);
    lemma_div_upper(total * per_share, precise_one(), quantity);
}

} // verus!
