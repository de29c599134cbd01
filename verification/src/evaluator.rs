//! The profitability of one triangle at the prices now stored.
//!
//! One unit of the starting currency is carried through the three legs. A
//! `"SELL"` leg multiplies the amount by the pair's price, a `"BUY"` leg
//! divides it by the price, and after every leg the amount is cut to ten
//! fractional digits. The earn is the gain as a percentage of the final
//! amount, cut to two fractional digits.
use vstd::prelude::*;
use bigdecimal::BigDecimal;
use crate::decimal::{
    computable, decimal_div, decimal_from_int, decimal_from_str, decimal_is_zero, decimal_mul,
    decimal_repr, decimal_sub, decimal_with_scale, difference, is_computable, minus, parsed,
    product, quotient, rescaled, same_number, times,
};
use crate::decimal_laws::lemma_rescaled_number;
use crate::store::DataStorage;
use crate::text::same_text;
use crate::triangle::{TriangleElement, TriangleKey, TriangleKeyView};

verus! {

/// The fractional digits an amount keeps after every leg.
pub const AMOUNT_SCALE: i64 = 10;

/// The fractional digits of an earn percentage.
pub const EARN_SCALE: i64 = 2;

/// The amount after one leg. A sale gives the product of amount and price,
/// a purchase the quotient as the crate carries it out, both cut to ten
/// fractional digits. A product or quotient that the crate writes with a
/// scale the library does not compute with, and a purchase at price zero,
/// give nothing. A direction that is neither `"SELL"` nor `"BUY"` leaves the
/// amount as it is.
pub open spec fn traded(amount: (int, int), price: (int, int), direction: Seq<char>) -> Option<
    (int, int),
> {
    if direction == "SELL"@ {
        if computable(product(amount, price)) {
            Some(rescaled(times(amount, price), AMOUNT_SCALE as int))
        } else {
            None
        }
    } else if direction == "BUY"@ {
        if price.0 == 0 {
            None
        } else {
            let q = quotient(amount, price);
            if computable(q) {
                Some(rescaled(q, AMOUNT_SCALE as int))
            } else {
                None
            }
        }
    } else {
        Some(amount)
    }
}

/// The earn percentage of a final amount: `((amount - 1) / amount) * 100`,
/// cut to two fractional digits. The gain is the difference as the crate
/// writes it, the share the quotient as the crate carries it out, and the
/// percentage a hundred times the share. A final amount of zero has none.
pub open spec fn earn_percent(amount: (int, int)) -> Option<(int, int)> {
    if amount.0 == 0 {
        None
    } else {
        let gain = difference(amount, (1, 0));
        if !computable(gain) {
            None
        } else {
            let share = quotient(gain, amount);
            if !computable(share) {
                None
            } else {
                if !computable(product(share, (100, 0))) {
                    None
                } else {
                    Some(rescaled(times(share, (100, 0)), EARN_SCALE as int))
                }
            }
        }
    }
}

/// The price stored for `pair`, as a decimal the library computes with.
pub open spec fn price_of(prices: Map<Seq<char>, (Seq<char>, Seq<char>)>, pair: Seq<char>) -> Option<
    (int, int),
> {
    if !prices.contains_key(pair) {
        None
    } else {
        match parsed(prices[pair].0) {
            Some(p) => if computable(p) {
                Some(p)
            } else {
                None
            },
            None => None,
        }
    }
}

/// Final amount and earn percentage of one unit carried through three legs.
pub open spec fn profit(
    first: (int, int),
    second: (int, int),
    third: (int, int),
    directions: (Seq<char>, Seq<char>, Seq<char>),
) -> Option<((int, int), (int, int))> {
    match traded((1, 0), first, directions.0) {
        None => None,
        Some(a) => match traded(a, second, directions.1) {
            None => None,
            Some(b) => match traded(b, third, directions.2) {
                None => None,
                Some(c) => match earn_percent(c) {
                    None => None,
                    Some(e) => Some((c, e)),
                },
            },
        },
    }
}

/// Final amount and earn percentage of a triangle at the stored prices. The
/// first leg trades in the direction the key holds, the second and third in
/// the direction recorded with the leg. A triangle with fewer than three
/// legs, or with a leg whose pair has no usable price, has no outcome.
pub open spec fn outcome(
    prices: Map<Seq<char>, (Seq<char>, Seq<char>)>,
    key: TriangleKeyView,
    legs: Seq<(Seq<char>, Seq<char>)>,
) -> Option<((int, int), (int, int))> {
    if legs.len() < 3 {
        None
    } else {
        match (price_of(prices, legs[0].0), price_of(prices, legs[1].0), price_of(prices, legs[2].0)) {
            (Some(first), Some(second), Some(third)) => profit(
                first,
                second,
                third,
                (key.d, legs[1].1, legs[2].1),
            ),
            _ => None,
        }
    }
}

/// The outcome of a triangle is a matter of the prices of its three legs
/// alone: two stores that hold the same price for each of them give the
/// same final amount and the same earn, whatever else they hold.
pub proof fn lemma_outcome_needs_three_prices(
    one: Map<Seq<char>, (Seq<char>, Seq<char>)>,
    other: Map<Seq<char>, (Seq<char>, Seq<char>)>,
    key: TriangleKeyView,
    legs: Seq<(Seq<char>, Seq<char>)>,
)
    requires
        legs.len() >= 3,
        forall|i: int|
            0 <= i < 3 ==> one.contains_key((#[trigger] legs[i]).0) == other.contains_key(legs[i].0),
        forall|i: int|
            0 <= i < 3 && one.contains_key((#[trigger] legs[i]).0) ==> one[legs[i].0].0
                == other[legs[i].0].0,
    ensures
        outcome(one, key, legs) == outcome(other, key, legs),
{
    assert(price_of(one, legs[0].0) == price_of(other, legs[0].0));
    assert(price_of(one, legs[1].0) == price_of(other, legs[1].0));
    assert(price_of(one, legs[2].0) == price_of(other, legs[2].0));
}

/// Carries `amount` through one leg at `price`.
pub fn trade(amount: BigDecimal, price: &BigDecimal, direction: &str) -> (r: Option<BigDecimal>)
    requires
        computable(decimal_repr(amount)),
        computable(decimal_repr(*price)),
    ensures
        r is Some <==> traded(decimal_repr(amount), decimal_repr(*price), direction@) is Some,
        r is Some ==> decimal_repr(r->Some_0) == traded(
            decimal_repr(amount),
            decimal_repr(*price),
            direction@,
        )->Some_0,
        r is Some ==> computable(decimal_repr(r->Some_0)),
{
    if same_text(direction, "SELL") {
        let p = decimal_mul(&amount, price);
        if is_computable(&p) {
            proof {
                lemma_rescaled_number(
                    decimal_repr(p),
                    times(decimal_repr(amount), decimal_repr(*price)),
                    AMOUNT_SCALE as int,
                );
            }
            Some(decimal_with_scale(&p, AMOUNT_SCALE))
        } else {
            None
        }
    } else if same_text(direction, "BUY") {
        if decimal_is_zero(price) {
            None
        } else {
            let q = decimal_div(&amount, price);
            if is_computable(&q) {
                Some(decimal_with_scale(&q, AMOUNT_SCALE))
            } else {
                None
            }
        }
    } else {
        Some(amount)
    }
}

/// The earn percentage of a final amount.
pub fn earn_of(amount: &BigDecimal) -> (r: Option<BigDecimal>)
    requires
        computable(decimal_repr(*amount)),
    ensures
        r is Some <==> earn_percent(decimal_repr(*amount)) is Some,
        r is Some ==> decimal_repr(r->Some_0) == earn_percent(decimal_repr(*amount))->Some_0,
        r is Some ==> decimal_repr(r->Some_0).1 == EARN_SCALE,
        decimal_repr(*amount).0 != 0 ==> same_number(
            difference(decimal_repr(*amount), (1, 0)),
            minus(decimal_repr(*amount), (1, 0)),
        ),
{
    if decimal_is_zero(amount) {
        return None;
    }
    let one = decimal_from_int(1);
    let gain = decimal_sub(amount, &one);
    if !is_computable(&gain) {
        return None;
    }
    let share = decimal_div(&gain, amount);
    if !is_computable(&share) {
        return None;
    }
    let hundred = decimal_from_int(100);
    let percent = decimal_mul(&share, &hundred);
    if !is_computable(&percent) {
        return None;
    }
    proof {
        lemma_rescaled_number(decimal_repr(percent), times(decimal_repr(share), (100, 0)), EARN_SCALE as int);
    }
    Some(decimal_with_scale(&percent, EARN_SCALE))
}

/// The price stored for `pair`, parsed.
pub fn price_in(prices: &DataStorage, pair: &str) -> (r: Option<BigDecimal>)
    ensures
        r is Some <==> price_of(prices@, pair@) is Some,
        r is Some ==> decimal_repr(r->Some_0) == price_of(prices@, pair@)->Some_0,
{
    match prices.get(pair) {
        None => None,
        Some(entry) => match decimal_from_str(entry.0.as_str()) {
            Err(_) => None,
            Ok(p) => if is_computable(&p) {
                Some(p)
            } else {
                None
            },
        },
    }
}

/// Final amount and earn percentage of the triangle `t`, whose key is
/// `key`, at the prices in `prices`; nothing where the triangle has to be
/// skipped. The result depends on the stored prices, the key and the legs
/// alone.
pub fn calculate_triangle(prices: &DataStorage, key: &TriangleKey, t: &Vec<TriangleElement>) -> (r:
    Option<(BigDecimal, BigDecimal)>)
    ensures
        r is Some <==> outcome(prices@, key@, t.deep_view()) is Some,
        r is Some ==> (decimal_repr(r->Some_0.0), decimal_repr(r->Some_0.1)) == outcome(
            prices@,
            key@,
            t.deep_view(),
        )->Some_0,
        r is Some ==> decimal_repr(r->Some_0.1).1 == EARN_SCALE,
        r is Some ==> same_number(
            difference(decimal_repr(r->Some_0.0), (1, 0)),
            minus(decimal_repr(r->Some_0.0), (1, 0)),
        ),
{
    if t.len() < 3 {
        return None;
    }
    let first = match price_in(prices, t[0].0.as_str()) {
        Some(p) => p,
        None => {
            return None;
        },
    };
    let second = match price_in(prices, t[1].0.as_str()) {
        Some(p) => p,
        None => {
            return None;
        },
    };
    let third = match price_in(prices, t[2].0.as_str()) {
        Some(p) => p,
        None => {
            return None;
        },
    };
    let a = match trade(decimal_from_int(1), &first, key.d.as_str()) {
        Some(a) => a,
        None => {
            return None;
        },
    };
    let b = match trade(a, &second, t[1].1.as_str()) {
        Some(b) => b,
        None => {
            return None;
        },
    };
    let c = match trade(b, &third, t[2].1.as_str()) {
        Some(c) => c,
        None => {
            return None;
        },
    };
    match earn_of(&c) {
        Some(e) => Some((c, e)),
        None => None,
    }
}

} // verus!
