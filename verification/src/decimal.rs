//! Exact decimal arithmetic, done by the `bigdecimal` crate.
//!
//! A decimal is known to the contracts by its digits and its scale: the
//! number it stands for is `digits / 10^scale`. Of a product and of a
//! difference the number is stated; the digits and scale that the crate
//! writes them with, and a quotient as a whole, stand under a name. What the
//! simpler methods return is stated in full. The functions that call the
//! crate are taken on trust.
use vstd::prelude::*;
use bigdecimal::{BigDecimal, ParseBigDecimalError};

verus! {

/// `bigdecimal::BigDecimal`, known to the contracts by its digits and scale.
#[verifier::external_type_specification]
#[verifier::external_body]
pub struct ExBigDecimal(BigDecimal);

/// `bigdecimal::ParseBigDecimalError`: why a text is no decimal. Nothing
/// is read from it.
#[verifier::external_type_specification]
#[verifier::external_body]
pub struct ExParseBigDecimalError(ParseBigDecimalError);

/// The unscaled digits of a decimal and its scale, in that order.
pub uninterp spec fn decimal_repr(d: BigDecimal) -> (int, int);

/// What a text parses to, where it is a decimal number at all.
pub uninterp spec fn parsed(text: Seq<char>) -> Option<(int, int)>;

/// The digits and scale that the crate writes the product of two decimals
/// with.
pub uninterp spec fn product(a: (int, int), b: (int, int)) -> (int, int);

/// Digits and scale of the quotient of two decimals, as far as the crate
/// carries it out.
pub uninterp spec fn quotient(a: (int, int), b: (int, int)) -> (int, int);

/// The digits and scale that the crate writes the difference of two
/// decimals with.
pub uninterp spec fn difference(a: (int, int), b: (int, int)) -> (int, int);

/// The text a decimal is written as.
pub uninterp spec fn written(a: (int, int)) -> Seq<char>;

/// The largest scale, in either direction, that the library computes with.
/// It keeps every power of ten that an operation has to build small, and
/// every sum or difference of two scales inside the machine's integers.
pub const MAX_SCALE: i64 = 1_000_000;

/// Whether a decimal's scale is one the library computes with.
pub open spec fn computable(a: (int, int)) -> bool {
    -MAX_SCALE <= a.1 <= MAX_SCALE
}

/// Ten to the power `n`.
pub open spec fn pow10(n: nat) -> int
    decreases n,
{
    if n == 0 {
        1
    } else {
        10 * pow10((n - 1) as nat)
    }
}

/// `a / b` for positive `b`, with the fraction dropped.
pub open spec fn toward_zero(a: int, b: int) -> int {
    if a >= 0 {
        a / b
    } else {
        -((-a) / b)
    }
}

/// The decimal `a` brought to the given scale: zeros are appended where the
/// scale grows, digits are dropped, not rounded, where it shrinks.
pub open spec fn rescaled(a: (int, int), scale: int) -> (int, int) {
    if a.0 == 0 {
        (0, scale)
    } else if scale > a.1 {
        (a.0 * pow10((scale - a.1) as nat), scale)
    } else if scale < a.1 {
        (toward_zero(a.0, pow10((a.1 - scale) as nat)), scale)
    } else {
        a
    }
}

/// Whether the number `a` stands for is at least the one `b` stands for.
pub open spec fn at_least(a: (int, int), b: (int, int)) -> bool {
    let scale = if a.1 >= b.1 {
        a.1
    } else {
        b.1
    };
    a.0 * pow10((scale - a.1) as nat) >= b.0 * pow10((scale - b.1) as nat)
}

/// Whether two decimals stand for the same number, whatever their scales.
pub open spec fn same_number(a: (int, int), b: (int, int)) -> bool {
    let scale = if a.1 >= b.1 {
        a.1
    } else {
        b.1
    };
    a.0 * pow10((scale - a.1) as nat) == b.0 * pow10((scale - b.1) as nat)
}

/// The product of two decimals, written with the sum of their scales.
pub open spec fn times(a: (int, int), b: (int, int)) -> (int, int) {
    (a.0 * b.0, a.1 + b.1)
}

/// The difference of two decimals, written with the larger of their
/// scales.
pub open spec fn minus(a: (int, int), b: (int, int)) -> (int, int) {
    let scale = if a.1 >= b.1 {
        a.1
    } else {
        b.1
    };
    (a.0 * pow10((scale - a.1) as nat) - b.0 * pow10((scale - b.1) as nat), scale)
}

/// `BigDecimal::from_str`: succeeds exactly on the texts that `parsed` knows,
/// with the digits and scale it names. The crate's parser has no panicking
/// path.
#[verifier::external_body]
pub(crate) fn decimal_from_str(text: &str) -> (r: Result<BigDecimal, ParseBigDecimalError>)
    ensures
        r is Ok <==> parsed(text@) is Some,
        r is Ok ==> decimal_repr(r->Ok_0) == parsed(text@)->Some_0,
{
    <BigDecimal as std::str::FromStr>::from_str(text)
}

/// `BigDecimal::from(i64)`: the integer itself, at scale zero.
#[verifier::external_body]
pub(crate) fn decimal_from_int(n: i64) -> (r: BigDecimal)
    ensures
        decimal_repr(r) == (n as int, 0int),
{
    BigDecimal::from(n)
}

/// `&BigDecimal * &BigDecimal`: the product. The number is exact; the
/// digits and scale it is written with are the crate's choice and stand
/// under their name. The crate adds the two scales, so both have to be in
/// range.
#[verifier::external_body]
pub(crate) fn decimal_mul(a: &BigDecimal, b: &BigDecimal) -> (r: BigDecimal)
    requires
        computable(decimal_repr(*a)),
        computable(decimal_repr(*b)),
    ensures
        decimal_repr(r) == product(decimal_repr(*a), decimal_repr(*b)),
        same_number(decimal_repr(r), times(decimal_repr(*a), decimal_repr(*b))),
{
    a * b
}

/// `&BigDecimal / &BigDecimal`: the quotient, under its name. The crate
/// panics on a zero divisor and subtracts the two scales.
#[verifier::external_body]
pub(crate) fn decimal_div(a: &BigDecimal, b: &BigDecimal) -> (r: BigDecimal)
    requires
        computable(decimal_repr(*a)),
        computable(decimal_repr(*b)),
        decimal_repr(*b).0 != 0,
    ensures
        decimal_repr(r) == quotient(decimal_repr(*a), decimal_repr(*b)),
{
    a / b
}

/// `&BigDecimal - &BigDecimal`: the difference. The number is exact; the
/// digits and scale it is written with stand under their name. The crate
/// brings both to the larger scale first.
#[verifier::external_body]
pub(crate) fn decimal_sub(a: &BigDecimal, b: &BigDecimal) -> (r: BigDecimal)
    requires
        computable(decimal_repr(*a)),
        computable(decimal_repr(*b)),
    ensures
        decimal_repr(r) == difference(decimal_repr(*a), decimal_repr(*b)),
        same_number(decimal_repr(r), minus(decimal_repr(*a), decimal_repr(*b))),
{
    a - b
}

/// `BigDecimal::with_scale`: zero stays zero at the new scale; a larger
/// scale multiplies the digits by a power of ten; a smaller one divides them
/// by it and drops the remainder.
#[verifier::external_body]
pub(crate) fn decimal_with_scale(a: &BigDecimal, scale: i64) -> (r: BigDecimal)
    requires
        computable(decimal_repr(*a)),
        -MAX_SCALE <= scale <= MAX_SCALE,
    ensures
        decimal_repr(r) == rescaled(decimal_repr(*a), scale as int),
{
    a.with_scale(scale)
}

/// `BigDecimal::fractional_digit_count`: the scale.
#[verifier::external_body]
pub(crate) fn decimal_scale(a: &BigDecimal) -> (r: i64)
    ensures
        r == decimal_repr(*a).1,
{
    a.fractional_digit_count()
}

/// `Zero::is_zero` of `BigDecimal`: whether the digits are zero.
#[verifier::external_body]
pub(crate) fn decimal_is_zero(a: &BigDecimal) -> (r: bool)
    ensures
        r == (decimal_repr(*a).0 == 0),
{
    bigdecimal::Zero::is_zero(a)
}

/// `BigDecimal`'s `>=`: the comparison of the two numbers, whatever their
/// scales.
#[verifier::external_body]
pub(crate) fn decimal_at_least(a: &BigDecimal, b: &BigDecimal) -> (r: bool)
    requires
        computable(decimal_repr(*a)),
        computable(decimal_repr(*b)),
    ensures
        r == at_least(decimal_repr(*a), decimal_repr(*b)),
{
    a >= b
}

/// `BigDecimal`'s `Display`: the text, under its name.
#[verifier::external_body]
pub(crate) fn decimal_to_text(a: &BigDecimal) -> (r: String)
    requires
        computable(decimal_repr(*a)),
    ensures
        r@ == written(decimal_repr(*a)),
{
    a.to_string()
}

/// Whether the library computes with `a`.
pub fn is_computable(a: &BigDecimal) -> (r: bool)
    ensures
        r == computable(decimal_repr(*a)),
{
    let scale = decimal_scale(a);
    -MAX_SCALE <= scale && scale <= MAX_SCALE
}

} // verus!
