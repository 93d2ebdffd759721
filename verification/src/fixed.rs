//! Fixed-point quantities.
//!
//! An [`Amount`] counts an asset in units of `10^-18` and is 192 bits wide; a
//! [`Precise`] value counts in units of `10^-36` and is 256 bits wide. Both are
//! held as little-endian 64-bit limbs in two's complement, and both are viewed
//! as the signed integer number of their smallest units. Addition,
//! subtraction, multiplication, division and the conversions between the two
//! widths are done by `scrypto`'s `Decimal` and `PreciseDecimal`. The limbs
//! go to those types and back through `from_digits` and `to_digits` of their
//! 192-bit and 256-bit integers, which read and write the same limbs.

use scrypto::math::{
    CheckedAdd, CheckedDiv, CheckedMul, CheckedSub, CheckedTruncate, Decimal, PreciseDecimal,
    RoundingMode, I192, I256,
};
use vstd::prelude::*;

verus! {

/// Two to the power 64: the weight of the second limb.
pub open spec fn limb_base() -> int {
    0x1_0000_0000_0000_0000int
}

/// Two to the power 191: amounts lie in `-amount_limit() .. amount_limit()`.
pub open spec fn amount_limit() -> int {
    0x8000_0000_0000_0000_0000_0000_0000_0000_0000_0000_0000_0000int
}

/// Two to the power 255: precise values lie in `-precise_limit() .. precise_limit()`.
pub open spec fn precise_limit() -> int {
    0x8000_0000_0000_0000_0000_0000_0000_0000_0000_0000_0000_0000_0000_0000_0000_0000int
}

/// The number of smallest precise units in one whole: ten to the power 36.
pub open spec fn precise_one() -> int {
    1_000_000_000_000_000_000_000_000_000_000_000_000int
}

/// The number of smallest precise units in one smallest amount unit: ten to
/// the power 18.
pub open spec fn precise_per_atto() -> int {
    1_000_000_000_000_000_000int
}

/// The signed value of three little-endian limbs in two's complement.
pub open spec fn signed3(l: [u64; 3]) -> int {
    let u = l[0] + l[1] * limb_base() + l[2] * limb_base() * limb_base();
    if l[2] >= 0x8000_0000_0000_0000 {
        u - 2 * amount_limit()
    } else {
        u
    }
}

/// The signed value of four little-endian limbs in two's complement.
pub open spec fn signed4(l: [u64; 4]) -> int {
    let u = l[0] + l[1] * limb_base() + l[2] * limb_base() * limb_base() + l[3] * limb_base()
        * limb_base() * limb_base();
    if l[3] >= 0x8000_0000_0000_0000 {
        u - 2 * precise_limit()
    } else {
        u
    }
}

/// Three limbs are determined by their signed value.
pub proof fn lemma_signed3_injective(a: [u64; 3], b: [u64; 3])
    requires
        signed3(a) == signed3(b),
    ensures
        a == b,
{
    assert(a =~= b);
}

/// Four limbs are determined by their signed value.
pub proof fn lemma_signed4_injective(a: [u64; 4], b: [u64; 4])
    requires
        signed4(a) == signed4(b),
    ensures
        a == b,
{
    assert(a =~= b);
}

/// The quotient of `a` by `b` rounded toward zero, for `b != 0`.
pub open spec fn trunc_div(a: int, b: int) -> int {
    if a >= 0 && b > 0 {
        a / b
    } else if a < 0 && b > 0 {
        -((-a) / b)
    } else if a >= 0 {
        -(a / (-b))
    } else {
        (-a) / (-b)
    }
}

/// The sum of two amounts, where it is an amount.
pub open spec fn amount_sum(a: int, b: int) -> Option<int> {
    if -amount_limit() <= a + b < amount_limit() {
        Some(a + b)
    } else {
        None
    }
}

/// The difference of two amounts, where it is an amount.
pub open spec fn amount_difference(a: int, b: int) -> Option<int> {
    if -amount_limit() <= a - b < amount_limit() {
        Some(a - b)
    } else {
        None
    }
}

/// The sum of two precise values, where it is a precise value.
pub open spec fn precise_sum(a: int, b: int) -> Option<int> {
    if -precise_limit() <= a + b < precise_limit() {
        Some(a + b)
    } else {
        None
    }
}

/// The difference of two precise values, where it is a precise value.
pub open spec fn precise_difference(a: int, b: int) -> Option<int> {
    if -precise_limit() <= a - b < precise_limit() {
        Some(a - b)
    } else {
        None
    }
}

/// The product of two precise values, rounded toward zero to a multiple of
/// the smallest unit. There is none where the rounded product does not lie
/// strictly between the two limits.
pub open spec fn precise_product(a: int, b: int) -> Option<int> {
    let q = trunc_div(a * b, precise_one());
    if -precise_limit() < q < precise_limit() {
        Some(q)
    } else {
        None
    }
}

/// The quotient of two precise values, rounded toward zero to a multiple of
/// the smallest unit. There is none where the divisor is zero or the rounded
/// quotient does not lie strictly between the two limits.
pub open spec fn precise_quotient(a: int, b: int) -> Option<int> {
    if b == 0 {
        None
    } else {
        let q = trunc_div(a * precise_one(), b);
        if -precise_limit() < q < precise_limit() {
            Some(q)
        } else {
            None
        }
    }
}

/// The precise value that equals an amount.
pub open spec fn widen(a: int) -> int {
    a * precise_per_atto()
}

/// The amount nearest to a precise value in the direction of zero. There is
/// none where that number does not lie strictly between the two amount limits.
pub open spec fn truncate(p: int) -> Option<int> {
    let q = trunc_div(p, precise_per_atto());
    if -amount_limit() < q < amount_limit() {
        Some(q)
    } else {
        None
    }
}

/// A quantity of an asset, in units of `10^-18`.
#[derive(Clone, Copy, Debug, PartialEq, Eq)]
pub struct Amount {
    limbs: [u64; 3],
}

/// A share or a ratio, in units of `10^-36`.
#[derive(Clone, Copy, Debug, PartialEq, Eq)]
pub struct Precise {
    limbs: [u64; 4],
}

impl View for Amount {
    type V = int;

    closed spec fn view(&self) -> int {
        signed3(self.limbs)
    }
}

impl View for Precise {
    type V = int;

    closed spec fn view(&self) -> int {
        signed4(self.limbs)
    }
}

impl Amount {
    /// The amount whose two's complement limbs, least significant first, are
    /// `limbs`.
    pub fn from_limbs(limbs: [u64; 3]) -> (r: Amount)
        ensures
            r@ == signed3(limbs),
    {
        Amount { limbs }
    }

    /// The two's complement limbs of the amount, least significant first.
    pub fn limbs(&self) -> (r: [u64; 3])
        ensures
            signed3(r) == self@,
    {
        self.limbs
    }

    /// No quantity at all.
    pub fn zero() -> (r: Amount)
        ensures
            r@ == 0,
    {
        Amount { limbs: [0, 0, 0] }
    }

    /// Whether the value is zero.
    pub fn is_zero(&self) -> (r: bool)
        ensures
            r == (self@ == 0),
    {
        self.limbs[0] == 0 && self.limbs[1] == 0 && self.limbs[2] == 0
    }

    /// Whether the value is above zero.
    pub fn is_positive(&self) -> (r: bool)
        ensures
            r == (self@ > 0),
    {
        self.limbs[2] < 0x8000_0000_0000_0000 && !self.is_zero()
    }

    /// Whether the value is below zero.
    pub fn is_negative(&self) -> (r: bool)
        ensures
            r == (self@ < 0),
    {
        self.limbs[2] >= 0x8000_0000_0000_0000
    }

    /// Whether `self` is less than `other`.
    pub fn lt(&self, other: &Amount) -> (r: bool)
        ensures
            r == (self@ < other@),
    {
        let a_neg = self.is_negative();
        let b_neg = other.is_negative();
        if a_neg != b_neg {
            a_neg
        } else if self.limbs[2] != other.limbs[2] {
            self.limbs[2] < other.limbs[2]
        } else if self.limbs[1] != other.limbs[1] {
            self.limbs[1] < other.limbs[1]
        } else {
            self.limbs[0] < other.limbs[0]
        }
    }

    /// The sum, or `None` where it is no amount.
    pub fn checked_add(&self, other: &Amount) -> (r: Option<Amount>)
        ensures
            option_view_amount(r) == amount_sum(self@, other@),
    {
        decimal_checked_add(self, other)
    }

    /// The difference, or `None` where it is no amount.
    pub fn checked_sub(&self, other: &Amount) -> (r: Option<Amount>)
        ensures
            option_view_amount(r) == amount_difference(self@, other@),
    {
        decimal_checked_sub(self, other)
    }

    /// The same quantity as a precise value.
    pub fn to_precise(&self) -> (r: Precise)
        ensures
            r@ == widen(self@),
    {
        precise_from_decimal(self)
    }

    /// Every amount lies within the limits.
    pub proof fn lemma_range(self)
        ensures
            -amount_limit() <= self@ < amount_limit(),
    {
    }

    /// Two amounts of the same value are the same amount.
    pub proof fn lemma_view_injective(self, other: Amount)
        requires
            self@ == other@,
        ensures
            self == other,
    {
        lemma_signed3_injective(self.limbs, other.limbs);
    }
}

impl Precise {
    /// The precise value whose two's complement limbs, least significant
    /// first, are `limbs`.
    pub fn from_limbs(limbs: [u64; 4]) -> (r: Precise)
        ensures
            r@ == signed4(limbs),
    {
        Precise { limbs }
    }

    /// The two's complement limbs of the value, least significant first.
    pub fn limbs(&self) -> (r: [u64; 4])
        ensures
            signed4(r) == self@,
    {
        self.limbs
    }

    /// Zero.
    pub fn zero() -> (r: Precise)
        ensures
            r@ == 0,
    {
        Precise { limbs: [0, 0, 0, 0] }
    }

    /// One whole.
    pub fn one() -> (r: Precise)
        ensures
            r@ == precise_one(),
    {
        Precise { limbs: [12919594847110692864, 54210108624275221, 0, 0] }
    }

    /// Whether the value is zero.
    pub fn is_zero(&self) -> (r: bool)
        ensures
            r == (self@ == 0),
    {
        self.limbs[0] == 0 && self.limbs[1] == 0 && self.limbs[2] == 0 && self.limbs[3] == 0
    }

    /// Whether the value is above zero.
    pub fn is_positive(&self) -> (r: bool)
        ensures
            r == (self@ > 0),
    {
        self.limbs[3] < 0x8000_0000_0000_0000 && !self.is_zero()
    }

    /// Whether the value is below zero.
    pub fn is_negative(&self) -> (r: bool)
        ensures
            r == (self@ < 0),
    {
        self.limbs[3] >= 0x8000_0000_0000_0000
    }

    /// Whether `self` is less than `other`.
    pub fn lt(&self, other: &Precise) -> (r: bool)
        ensures
            r == (self@ < other@),
    {
        let a_neg = self.is_negative();
        let b_neg = other.is_negative();
        if a_neg != b_neg {
            a_neg
        } else if self.limbs[3] != other.limbs[3] {
            self.limbs[3] < other.limbs[3]
        } else if self.limbs[2] != other.limbs[2] {
            self.limbs[2] < other.limbs[2]
        } else if self.limbs[1] != other.limbs[1] {
            self.limbs[1] < other.limbs[1]
        } else {
            self.limbs[0] < other.limbs[0]
        }
    }

    /// The sum, or `None` where it is no precise value.
    pub fn checked_add(&self, other: &Precise) -> (r: Option<Precise>)
        ensures
            option_view_precise(r) == precise_sum(self@, other@),
    {
        precise_checked_add(self, other)
    }

    /// The difference, or `None` where it is no precise value.
    pub fn checked_sub(&self, other: &Precise) -> (r: Option<Precise>)
        ensures
            option_view_precise(r) == precise_difference(self@, other@),
    {
        precise_checked_sub(self, other)
    }

    /// The product rounded toward zero, or `None` where there is none.
    pub fn checked_mul(&self, other: &Precise) -> (r: Option<Precise>)
        ensures
            option_view_precise(r) == precise_product(self@, other@),
    {
        precise_checked_mul(self, other)
    }

    /// The quotient rounded toward zero, or `None` where there is none.
    pub fn checked_div(&self, other: &Precise) -> (r: Option<Precise>)
        ensures
            option_view_precise(r) == precise_quotient(self@, other@),
    {
        precise_checked_div(self, other)
    }

    /// The amount nearest to this value in the direction of zero, or `None`
    /// where there is none.
    pub fn checked_truncate(&self) -> (r: Option<Amount>)
        ensures
            option_view_amount(r) == truncate(self@),
    {
        precise_checked_truncate(self)
    }

    /// Every precise value lies within the limits.
    pub proof fn lemma_range(self)
        ensures
            -precise_limit() <= self@ < precise_limit(),
    {
    }

    /// Two precise values of the same value are the same.
    pub proof fn lemma_view_injective(self, other: Precise)
        requires
            self@ == other@,
        ensures
            self == other,
    {
        lemma_signed4_injective(self.limbs, other.limbs);
    }
}

/// The value of an optional amount.
pub open spec fn option_view_amount(r: Option<Amount>) -> Option<int> {
    match r {
        Some(a) => Some(a@),
        None => None,
    }
}

/// The value of an optional precise value.
pub open spec fn option_view_precise(r: Option<Precise>) -> Option<int> {
    match r {
        Some(a) => Some(a@),
        None => None,
    }
}

/// `Decimal::checked_add` of `scrypto`: the 192-bit checked addition of the
/// two numbers of `10^-18` units; `None` exactly where the sum leaves
/// `-2^191 .. 2^191`.
#[verifier::external_body]
fn decimal_checked_add(a: &Amount, b: &Amount) -> (r: Option<Amount>)
    ensures
        option_view_amount(r) == amount_sum(a@, b@),
{
    let x = Decimal::from_attos(I192::from_digits(a.limbs));
    let y = Decimal::from_attos(I192::from_digits(b.limbs));
    match x.checked_add(y) {
        Some(z) => Some(Amount { limbs: z.attos().to_digits() }),
        None => None,
    }
}

/// `Decimal::checked_sub` of `scrypto`: the 192-bit checked subtraction of
/// the two numbers of `10^-18` units; `None` exactly where the difference
/// leaves `-2^191 .. 2^191`.
#[verifier::external_body]
fn decimal_checked_sub(a: &Amount, b: &Amount) -> (r: Option<Amount>)
    ensures
        option_view_amount(r) == amount_difference(a@, b@),
{
    let x = Decimal::from_attos(I192::from_digits(a.limbs));
    let y = Decimal::from_attos(I192::from_digits(b.limbs));
    match x.checked_sub(y) {
        Some(z) => Some(Amount { limbs: z.attos().to_digits() }),
        None => None,
    }
}

/// `PreciseDecimal::from` a `Decimal` of `scrypto`: the number of `10^-18`
/// units is sign-extended to 256 bits and multiplied by `10^18`, which always
/// fits.
#[verifier::external_body]
fn precise_from_decimal(a: &Amount) -> (r: Precise)
    ensures
        r@ == widen(a@),
{
    let x = PreciseDecimal::from(Decimal::from_attos(I192::from_digits(a.limbs)));
    Precise { limbs: x.precise_subunits().to_digits() }
}

/// `PreciseDecimal::checked_add` of `scrypto`: the 256-bit checked addition
/// of the two numbers of `10^-36` units; `None` exactly where the sum leaves
/// `-2^255 .. 2^255`.
#[verifier::external_body]
fn precise_checked_add(a: &Precise, b: &Precise) -> (r: Option<Precise>)
    ensures
        option_view_precise(r) == precise_sum(a@, b@),
{
    let x = PreciseDecimal::from_precise_subunits(I256::from_digits(a.limbs));
    let y = PreciseDecimal::from_precise_subunits(I256::from_digits(b.limbs));
    match x.checked_add(y) {
        Some(z) => Some(Precise { limbs: z.precise_subunits().to_digits() }),
        None => None,
    }
}

/// `PreciseDecimal::checked_sub` of `scrypto`: the 256-bit checked
/// subtraction of the two numbers of `10^-36` units; `None` exactly where the
/// difference leaves `-2^255 .. 2^255`.
#[verifier::external_body]
fn precise_checked_sub(a: &Precise, b: &Precise) -> (r: Option<Precise>)
    ensures
        option_view_precise(r) == precise_difference(a@, b@),
{
    let x = PreciseDecimal::from_precise_subunits(I256::from_digits(a.limbs));
    let y = PreciseDecimal::from_precise_subunits(I256::from_digits(b.limbs));
    match x.checked_sub(y) {
        Some(z) => Some(Precise { limbs: z.precise_subunits().to_digits() }),
        None => None,
    }
}

/// `PreciseDecimal::checked_mul` of `scrypto`: the two numbers of `10^-36`
/// units are multiplied in 384 bits, the product is divided by `10^36` with
/// the quotient rounded toward zero, and the quotient is narrowed to 256
/// bits. The narrowing accepts a quotient only where its magnitude is below
/// `2^255`, and a product too large for 384 bits has no such quotient.
#[verifier::external_body]
fn precise_checked_mul(a: &Precise, b: &Precise) -> (r: Option<Precise>)
    ensures
        option_view_precise(r) == precise_product(a@, b@),
{
    let x = PreciseDecimal::from_precise_subunits(I256::from_digits(a.limbs));
    let y = PreciseDecimal::from_precise_subunits(I256::from_digits(b.limbs));
    match x.checked_mul(y) {
        Some(z) => Some(Precise { limbs: z.precise_subunits().to_digits() }),
        None => None,
    }
}

/// `PreciseDecimal::checked_div` of `scrypto`: the dividend's number of
/// `10^-36` units is multiplied by `10^36` in 384 bits, which always fits,
/// and divided by the divisor's number with the quotient rounded toward zero;
/// `None` for a zero divisor. The quotient is narrowed to 256 bits, which
/// accepts it only where its magnitude is below `2^255`.
#[verifier::external_body]
fn precise_checked_div(a: &Precise, b: &Precise) -> (r: Option<Precise>)
    ensures
        option_view_precise(r) == precise_quotient(a@, b@),
{
    let x = PreciseDecimal::from_precise_subunits(I256::from_digits(a.limbs));
    let y = PreciseDecimal::from_precise_subunits(I256::from_digits(b.limbs));
    match x.checked_div(y) {
        Some(z) => Some(Precise { limbs: z.precise_subunits().to_digits() }),
        None => None,
    }
}

/// `PreciseDecimal::checked_truncate` of `scrypto` with
/// `RoundingMode::ToZero`: the number of `10^-36` units is rounded toward
/// zero to a multiple of `10^18`, divided by `10^18`, and narrowed to 192
/// bits, which accepts it only where its magnitude is below `2^191`.
#[verifier::external_body]
fn precise_checked_truncate(a: &Precise) -> (r: Option<Amount>)
    ensures
        option_view_amount(r) == truncate(a@),
{
    let x = PreciseDecimal::from_precise_subunits(I256::from_digits(a.limbs));
    match x.checked_truncate(RoundingMode::ToZero) {
        Some(z) => Some(Amount { limbs: z.attos().to_digits() }),
        None => None,
    }
}

} // verus!
