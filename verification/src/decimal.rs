//! Exact decimal arithmetic, as the `bigdecimal` crate provides it.
//!
//! A `BigDecimal` holds an integer of any size, its digits, together with a
//! scale: the number of those digits that stand behind the decimal point.
//! The engine only adds, subtracts, halves and multiplies such numbers and
//! reads their sign, and each of these is exact. Two decimals are compared
//! by the sign of their difference. What is taken on trust about the crate
//! is gathered in this file: every function marked `external_body` below is
//! a single call into it, with a contract that nothing here proves.

use vstd::prelude::*;
use bigdecimal::BigDecimal;
use bigdecimal::Zero;
use bigdecimal::num_bigint::Sign;

verus! {

/// The decimal of the `bigdecimal` crate. Nothing of its inside is known
/// here but what the contracts below say.
#[verifier::external_type_specification]
#[verifier::external_body]
pub struct ExBigDecimal(BigDecimal);

/// The digits that a decimal holds, read as one integer with its sign:
/// the first part of what `BigDecimal::as_bigint_and_exponent` hands out.
pub uninterp spec fn decimal_digits(d: BigDecimal) -> int;

/// The scale that a decimal holds, as `BigDecimal::fractional_digit_count`
/// reports it. Two decimals of one value may differ in scale (`1.5` and
/// `1.50`).
pub uninterp spec fn decimal_scale(d: BigDecimal) -> int;

/// The real number that a decimal stands for: its digits times ten to the
/// power of minus its scale.
pub closed spec fn decimal_value(d: BigDecimal) -> real {
    if decimal_scale(d) >= 0 {
        decimal_digits(d) as real / ten_to(decimal_scale(d) as nat)
    } else {
        decimal_digits(d) as real * ten_to((-decimal_scale(d)) as nat)
    }
}

/// The largest scale, in absolute value, that a decimal handed to the
/// library from outside may have.
pub const INPUT_SCALE: i64 = 0x0400_0000_0000_0000;

/// The largest scale, in absolute value, on which the arithmetic below is
/// called. The crate computes with scales in `i64`; below this bound neither
/// a sum nor a difference of two scales leaves that range.
pub const WORKING_SCALE: i64 = 0x2000_0000_0000_0000;

/// The scale of `d` is at most `bound` in absolute value.
pub open spec fn scale_within(d: BigDecimal, bound: int) -> bool {
    -bound <= decimal_scale(d) <= bound
}

/// `d` may be handed to the library from outside.
pub open spec fn admissible(d: BigDecimal) -> bool {
    scale_within(d, INPUT_SCALE as int)
}

/// `d` may be an operand of the arithmetic below.
pub open spec fn operable(d: BigDecimal) -> bool {
    scale_within(d, WORKING_SCALE as int)
}

/// The smaller of two scales.
pub open spec fn lower_scale(a: BigDecimal, b: BigDecimal) -> int {
    if decimal_scale(a) <= decimal_scale(b) {
        decimal_scale(a)
    } else {
        decimal_scale(b)
    }
}

/// The larger of two scales.
pub open spec fn upper_scale(a: BigDecimal, b: BigDecimal) -> int {
    if decimal_scale(a) >= decimal_scale(b) {
        decimal_scale(a)
    } else {
        decimal_scale(b)
    }
}

/// Ten to the power of `k`.
pub open spec fn ten_to(k: nat) -> real
    decreases k,
{
    if k == 0 {
        1real
    } else {
        10real * ten_to((k - 1) as nat)
    }
}

/// The smaller of two reals.
pub open spec fn min_real(a: real, b: real) -> real {
    if a < b {
        a
    } else {
        b
    }
}

/// `bigdecimal`'s `Zero::zero` for `BigDecimal`: the number zero, with
/// scale zero.
#[verifier::external_body]
pub(crate) fn dec_zero() -> (r: BigDecimal)
    ensures
        decimal_digits(r) == 0,
        decimal_scale(r) == 0,
        decimal_value(r) == 0real,
{
    BigDecimal::zero()
}

/// `bigdecimal`'s `From<(u64, i64)>` for `BigDecimal`: the decimal that
/// holds the given digits and the given scale.
#[verifier::external_body]
pub(crate) fn dec_from_parts(digits: u64, scale: i64) -> (r: BigDecimal)
    ensures
        decimal_digits(r) == digits,
        decimal_scale(r) == scale,
{
    BigDecimal::from((digits, scale))
}

/// `Clone::clone` of `BigDecimal`, which the crate derives: a copy with the
/// same digits and the same scale.
#[verifier::external_body]
pub(crate) fn dec_clone(a: &BigDecimal) -> (r: BigDecimal)
    ensures
        decimal_digits(r) == decimal_digits(*a),
        decimal_scale(r) == decimal_scale(*a),
        decimal_value(r) == decimal_value(*a),
{
    a.clone()
}

/// `BigDecimal::fractional_digit_count`: the scale.
#[verifier::external_body]
pub(crate) fn dec_scale(a: &BigDecimal) -> (r: i64)
    ensures
        r == decimal_scale(*a),
{
    a.fractional_digit_count()
}

/// `bigdecimal`'s `Add` for two `&BigDecimal`: the exact sum. The crate
/// brings both operands to one scale, so the scale of the sum lies between
/// the two scales.
#[verifier::external_body]
pub(crate) fn dec_add(a: &BigDecimal, b: &BigDecimal) -> (r: BigDecimal)
    requires
        operable(*a),
        operable(*b),
    ensures
        decimal_value(r) == decimal_value(*a) + decimal_value(*b),
        lower_scale(*a, *b) <= decimal_scale(r) <= upper_scale(*a, *b),
{
    a + b
}

/// `bigdecimal`'s `Sub` for two `&BigDecimal`: the exact difference, with
/// a scale between the two scales.
#[verifier::external_body]
pub(crate) fn dec_sub(a: &BigDecimal, b: &BigDecimal) -> (r: BigDecimal)
    requires
        operable(*a),
        operable(*b),
    ensures
        decimal_value(r) == decimal_value(*a) - decimal_value(*b),
        lower_scale(*a, *b) <= decimal_scale(r) <= upper_scale(*a, *b),
{
    a - b
}

/// `BigDecimal::half`: exactly half the number. An odd last digit costs one
/// more digit behind the point, so the scale stays or grows by one.
#[verifier::external_body]
pub(crate) fn dec_half(a: &BigDecimal) -> (r: BigDecimal)
    requires
        operable(*a),
    ensures
        decimal_value(r) == decimal_value(*a) / 2real,
        decimal_scale(*a) <= decimal_scale(r) <= decimal_scale(*a) + 1,
{
    a.half()
}

/// `BigDecimal::square`: the exact square. The crate doubles the scale,
/// except for zero and one, which it hands back as they are.
#[verifier::external_body]
pub(crate) fn dec_square(a: &BigDecimal) -> (r: BigDecimal)
    requires
        operable(*a),
    ensures
        decimal_value(r) == decimal_value(*a) * decimal_value(*a),
        decimal_scale(r) == decimal_scale(*a) || decimal_scale(r) == 2 * decimal_scale(*a),
{
    a.square()
}

/// `bigdecimal`'s `Mul` for two owned `BigDecimal`: the exact product. The
/// crate adds the scales, except where one factor is one: then it hands the
/// other factor back.
#[verifier::external_body]
pub(crate) fn dec_mul(a: &BigDecimal, b: &BigDecimal) -> (r: BigDecimal)
    requires
        operable(*a),
        operable(*b),
    ensures
        decimal_value(r) == decimal_value(*a) * decimal_value(*b),
        decimal_scale(r) == decimal_scale(*a) + decimal_scale(*b)
            || decimal_scale(r) == decimal_scale(*a)
            || decimal_scale(r) == decimal_scale(*b),
{
    a.clone() * b.clone()
}

/// `BigDecimal::sign`: the sign of the digits, which the crate reads off the
/// integer that holds them. It is `Minus` exactly if the digits, read as an
/// integer, are below zero.
#[verifier::external_body]
pub(crate) fn dec_sign_is_minus(a: &BigDecimal) -> (r: bool)
    ensures
        r == (decimal_digits(*a) < 0),
{
    match a.sign() {
        Sign::Minus => true,
        Sign::NoSign => false,
        Sign::Plus => false,
    }
}

/// Ten to any power is above zero.
pub proof fn lemma_ten_to_positive(k: nat)
    ensures
        ten_to(k) > 0real,
    decreases k,
{
    if k > 0 {
        lemma_ten_to_positive((k - 1) as nat);
    }
}

/// A decimal is below zero exactly if its digits are.
pub proof fn lemma_sign_of_value(d: BigDecimal)
    ensures
        decimal_value(d) < 0real <==> decimal_digits(d) < 0,
        decimal_value(d) == 0real <==> decimal_digits(d) == 0,
{
    let digits = decimal_digits(d) as real;
    if decimal_scale(d) >= 0 {
        let power = ten_to(decimal_scale(d) as nat);
        lemma_ten_to_positive(decimal_scale(d) as nat);
        let value = digits / power;
        assert(value * power == digits) by (nonlinear_arith)
            requires
                power > 0real,
                value == digits / power,
        ;
        assert((value < 0real <==> digits < 0real) && (value == 0real <==> digits == 0real))
            by (nonlinear_arith)
            requires
                power > 0real,
                value * power == digits,
        ;
    } else {
        let power = ten_to((-decimal_scale(d)) as nat);
        lemma_ten_to_positive((-decimal_scale(d)) as nat);
        let value = digits * power;
        assert((value < 0real <==> digits < 0real) && (value == 0real <==> digits == 0real))
            by (nonlinear_arith)
            requires
                power > 0real,
                value == digits * power,
        ;
    }
}

/// Whether a decimal is below zero.
pub(crate) fn dec_is_negative(a: &BigDecimal) -> (r: bool)
    ensures
        r == (decimal_value(*a) < 0real),
{
    proof {
        lemma_sign_of_value(*a);
    }
    dec_sign_is_minus(a)
}

/// Whether the first decimal is less than the second, whatever their
/// scales: whether their difference is below zero.
pub(crate) fn dec_lt(a: &BigDecimal, b: &BigDecimal) -> (r: bool)
    requires
        operable(*a),
        operable(*b),
    ensures
        r == (decimal_value(*a) < decimal_value(*b)),
{
    let difference = dec_sub(a, b);
    dec_is_negative(&difference)
}

/// The smaller of two decimals; the second where they are equal.
pub(crate) fn dec_min(a: &BigDecimal, b: &BigDecimal) -> (r: BigDecimal)
    requires
        operable(*a),
        operable(*b),
    ensures
        decimal_value(r) == min_real(decimal_value(*a), decimal_value(*b)),
        lower_scale(*a, *b) <= decimal_scale(r) <= upper_scale(*a, *b),
{
    if dec_lt(a, b) {
        dec_clone(a)
    } else {
        dec_clone(b)
    }
}

/// The whole number `n` as a decimal.
pub(crate) fn dec_from_count(n: u64) -> (r: BigDecimal)
    ensures
        decimal_value(r) == n as real,
        decimal_scale(r) == 0,
{
    proof {
        assert(ten_to(0) == 1real);
    }
    dec_from_parts(n, 0)
}

/// `n` hundredths as a decimal.
pub(crate) fn dec_hundredths(n: u64) -> (r: BigDecimal)
    ensures
        decimal_value(r) == n as real / 100real,
        decimal_scale(r) == 2,
{
    proof {
        assert(ten_to(0) == 1real);
        assert(ten_to(1) == 10real * ten_to(0));
        assert(ten_to(2) == 10real * ten_to(1));
    }
    dec_from_parts(n, 2)
}

/// Whether a decimal may be handed to the library: whether its scale is at
/// most `INPUT_SCALE` in absolute value.
pub fn is_admissible(d: &BigDecimal) -> (r: bool)
    ensures
        r == admissible(*d),
{
    let s: i64 = dec_scale(d);
    -INPUT_SCALE <= s && s <= INPUT_SCALE
}

/// Whether a decimal is zero or more.
pub fn is_non_negative(d: &BigDecimal) -> (r: bool)
    ensures
        r == (decimal_value(*d) >= 0real),
{
    !dec_is_negative(d)
}

} // verus!
