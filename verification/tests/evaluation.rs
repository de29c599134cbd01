use bigdecimal::BigDecimal;
use std::str::FromStr;
use tri_arbitrage::evaluator::{calculate_triangle, earn_of, price_in, trade};
use tri_arbitrage::index::build_immutable_storage;
use tri_arbitrage::reaction::{react_to_update, CandidateQueue, EarnSortedData};
use tri_arbitrage::report::opportunity_line;
use tri_arbitrage::store::DataStorage;
use tri_arbitrage::triangle::TriangleKey;

fn dec(text: &str) -> BigDecimal {
    BigDecimal::from_str(text).unwrap()
}

/// The digits of a decimal and its scale.
fn parts(d: &BigDecimal) -> (String, i64) {
    let (digits, scale) = d.as_bigint_and_exponent();
    (digits.to_string(), scale)
}

fn key(a: &str, b: &str, c: &str, d: &str) -> TriangleKey {
    TriangleKey { a: a.to_string(), b: b.to_string(), c: c.to_string(), d: d.to_string() }
}

fn legs(list: &[(&str, &str)]) -> Vec<(String, String)> {
    list.iter().map(|(a, b)| (a.to_string(), b.to_string())).collect()
}

fn store(prices: &[(&str, &str)]) -> DataStorage {
    let mut s = DataStorage::new();
    for (symbol, price) in prices {
        s.insert(symbol.to_string(), price.to_string(), "1".to_string());
    }
    s
}

fn market() -> DataStorage {
    store(&[
        ("ETHUSDT", "2000"),
        ("ETHBTC", "0.05"),
        ("BTCUSDT", "41000"),
        ("ETHEUR", "1900"),
        ("EURUSDT", "1.1"),
    ])
}

fn through_eth() -> (TriangleKey, Vec<(String, String)>) {
    (
        key("ETHBTC", "ETHUSDT", "BTCUSDT", "BUY"),
        legs(&[("ETHUSDT", "BUY"), ("ETHBTC", "SELL"), ("BTCUSDT", "SELL")]),
    )
}

fn through_btc() -> (TriangleKey, Vec<(String, String)>) {
    (
        key("BTCUSDT", "ETHBTC", "ETHUSDT", "BUY"),
        legs(&[("BTCUSDT", "BUY"), ("ETHBTC", "BUY"), ("ETHUSDT", "SELL")]),
    )
}

fn through_eur() -> (TriangleKey, Vec<(String, String)>) {
    (
        key("ETHUSDT", "ETHEUR", "EURUSDT", "BUY"),
        legs(&[("ETHUSDT", "BUY"), ("ETHEUR", "SELL"), ("EURUSDT", "SELL")]),
    )
}

#[test]
fn one_unit_round_the_triangle() {
    let (k, t) = through_eth();
    let (final_amount, earn) = calculate_triangle(&market(), &k, &t).unwrap();
    assert_eq!(final_amount.to_string(), "1.0250000000");
    assert_eq!(final_amount.with_scale(6).to_string(), "1.025000");
    assert_eq!(earn.to_string(), "2.43");
}

#[test]
fn one_unit_round_the_other_way_loses() {
    let (k, t) = through_btc();
    let (final_amount, earn) = calculate_triangle(&market(), &k, &t).unwrap();
    assert_eq!(final_amount.to_string(), "0.9756080000");
    assert_eq!(earn.to_string(), "-2.50");
}

#[test]
fn the_same_prices_give_the_same_result() {
    let (k, t) = through_eth();
    let prices = market();
    let once = calculate_triangle(&prices, &k, &t).unwrap();
    let twice = calculate_triangle(&prices, &k, &t).unwrap();
    assert_eq!(once.0.to_string(), twice.0.to_string());
    assert_eq!(once.1.to_string(), twice.1.to_string());
    assert_eq!(once, twice);
}

#[test]
fn the_first_leg_trades_as_the_key_says() {
    let (_, t) = through_eth();
    let sold_first = key("ETHBTC", "ETHUSDT", "BTCUSDT", "SELL");
    let (final_amount, earn) = calculate_triangle(&market(), &sold_first, &t).unwrap();
    // 1 * 2000 * 0.05 * 41000
    assert_eq!(final_amount.to_string(), "4100000.0000000000");
    assert_eq!(earn.to_string(), "99.99");
}

#[test]
fn a_missing_price_skips_the_triangle() {
    let (k, t) = through_eth();
    let prices = store(&[("ETHUSDT", "2000"), ("ETHBTC", "0.05")]);
    assert!(calculate_triangle(&prices, &k, &t).is_none());
}

#[test]
fn a_price_that_is_no_number_skips_the_triangle() {
    let (k, t) = through_eth();
    let prices = store(&[("ETHUSDT", "2000"), ("ETHBTC", "cheap"), ("BTCUSDT", "41000")]);
    assert!(calculate_triangle(&prices, &k, &t).is_none());
}

#[test]
fn a_purchase_at_price_zero_skips_the_triangle() {
    let (k, t) = through_eth();
    let prices = store(&[("ETHUSDT", "0"), ("ETHBTC", "0.05"), ("BTCUSDT", "41000")]);
    assert!(calculate_triangle(&prices, &k, &t).is_none());
}

#[test]
fn a_final_amount_of_zero_skips_the_triangle() {
    let (k, t) = through_eth();
    let prices = store(&[("ETHUSDT", "2000"), ("ETHBTC", "0"), ("BTCUSDT", "41000")]);
    assert!(calculate_triangle(&prices, &k, &t).is_none());
}

#[test]
fn a_price_with_a_scale_out_of_range_skips_the_triangle() {
    let (k, t) = through_eth();
    let prices = store(&[("ETHUSDT", "2e-2000000"), ("ETHBTC", "0.05"), ("BTCUSDT", "41000")]);
    assert!(calculate_triangle(&prices, &k, &t).is_none());
}

#[test]
fn fewer_than_three_legs_skip_the_triangle() {
    let (k, t) = through_eth();
    assert!(calculate_triangle(&market(), &k, &t[..2].to_vec()).is_none());
    assert!(calculate_triangle(&market(), &k, &Vec::new()).is_none());
}

#[test]
fn stored_prices_are_parsed() {
    let prices = store(&[("ETHUSDT", "2000.50"), ("BAD", "x"), ("FAR", "1e2000000")]);
    assert_eq!(price_in(&prices, "ETHUSDT"), Some(dec("2000.5")));
    assert_eq!(price_in(&prices, "BAD"), None);
    assert_eq!(price_in(&prices, "FAR"), None);
    assert_eq!(price_in(&prices, "NONE"), None);
}

#[test]
fn selling_multiplies_and_buying_divides() {
    assert_eq!(trade(dec("2"), &dec("3.5"), "SELL").unwrap().to_string(), "7.0000000000");
    assert_eq!(trade(dec("1"), &dec("3"), "BUY").unwrap().to_string(), "0.3333333333");
    assert_eq!(trade(dec("7"), &dec("3"), "HOLD").unwrap().to_string(), "7");
    assert!(trade(dec("1"), &dec("0"), "BUY").is_none());
    assert_eq!(parts(&trade(dec("1"), &dec("0"), "SELL").unwrap()), ("0".to_string(), 10));
    assert_eq!(parts(&trade(dec("2"), &dec("3.5"), "SELL").unwrap()), ("70000000000".to_string(), 10));
}

#[test]
fn amounts_are_cut_not_rounded() {
    assert_eq!(trade(dec("2"), &dec("3"), "BUY").unwrap().to_string(), "0.6666666666");
    assert_eq!(trade(dec("-2"), &dec("3"), "BUY").unwrap().to_string(), "-0.6666666666");
    assert_eq!(parts(&trade(dec("0.00000000019"), &dec("1"), "SELL").unwrap()), ("1".to_string(), 10));
    assert_eq!(parts(&trade(dec("-0.00000000019"), &dec("1"), "SELL").unwrap()), ("-1".to_string(), 10));
}

#[test]
fn earn_is_the_gain_over_the_final_amount() {
    assert_eq!(earn_of(&dec("2")).unwrap().to_string(), "50.00");
    assert_eq!(earn_of(&dec("0.5")).unwrap().to_string(), "-100.00");
    assert_eq!(earn_of(&dec("3")).unwrap().to_string(), "66.66");
    assert_eq!(parts(&earn_of(&dec("1")).unwrap()), ("0".to_string(), 2));
    assert_eq!(parts(&earn_of(&dec("3")).unwrap()), ("6666".to_string(), 2));
    assert!(earn_of(&dec("0")).is_none());
}

fn symbols(list: &[&str]) -> Vec<String> {
    list.iter().map(|s| s.to_string()).collect()
}

fn react(
    triangles: &Vec<(TriangleKey, Vec<(String, String)>)>,
    symbol: &str,
    rate: &str,
) -> Option<EarnSortedData> {
    let index = build_immutable_storage(
        triangles,
        &symbols(&["ETHUSDT", "ETHBTC", "BTCUSDT", "ETHEUR", "EURUSDT"]),
    );
    let mut queue = CandidateQueue::new();
    let found = react_to_update(&symbol.to_string(), &dec(rate), &index, &market(), &mut queue);
    assert_eq!(queue.pop(), None);
    found
}

#[test]
fn the_best_candidate_is_reported() {
    let triangles = vec![through_eth(), through_btc(), through_eur()];
    let found = react(&triangles, "ETHUSDT", "1").unwrap();
    assert_eq!(found.triangle_key, through_eur().0);
    assert_eq!(found.final_amount.to_string(), "1.0450000000");
    assert_eq!(found.earn.to_string(), "4.30");
}

#[test]
fn only_triangles_that_name_the_symbol_are_evaluated() {
    let triangles = vec![through_eth(), through_btc(), through_eur()];
    let found = react(&triangles, "BTCUSDT", "1").unwrap();
    assert_eq!(found.triangle_key, through_eth().0);
    assert_eq!(found.earn.to_string(), "2.43");
    assert!(react(&triangles, "LTCUSDT", "1").is_none());
}

#[test]
fn earn_below_the_rate_is_never_reported() {
    let triangles = vec![through_eth(), through_btc(), through_eur()];
    assert_eq!(react(&triangles, "ETHUSDT", "3").unwrap().triangle_key, through_eur().0);
    assert_eq!(react(&triangles, "ETHUSDT", "4.30").unwrap().earn.to_string(), "4.30");
    assert!(react(&triangles, "ETHUSDT", "4.31").is_none());
    assert!(react(&triangles, "BTCUSDT", "2.44").is_none());
    assert_eq!(react(&triangles, "BTCUSDT", "2.43").unwrap().earn.to_string(), "2.43");
    let loss = react(&vec![through_btc()], "BTCUSDT", "-3").unwrap();
    assert_eq!(loss.earn.to_string(), "-2.50");
    assert!(react(&vec![through_btc()], "BTCUSDT", "-2.49").is_none());
}

#[test]
fn of_equal_earns_the_first_is_reported() {
    let twin = (
        key("ETHUSDT", "ETHBTC", "BTCUSDT", "BUY"),
        legs(&[("ETHUSDT", "BUY"), ("ETHBTC", "SELL"), ("BTCUSDT", "SELL")]),
    );
    let found = react(&vec![through_btc(), twin.clone(), through_eth()], "ETHBTC", "1").unwrap();
    assert_eq!(found.triangle_key, twin.0);
    let found = react(&vec![through_eth(), through_btc(), twin], "ETHBTC", "1").unwrap();
    assert_eq!(found.triangle_key, through_eth().0);
}

#[test]
fn what_waited_in_the_queue_is_dropped() {
    let triangles = vec![through_eth()];
    let index = build_immutable_storage(&triangles, &symbols(&["ETHUSDT"]));
    let mut queue = CandidateQueue::new();
    queue.push(7);
    queue.push(0);
    let found = react_to_update(&"ETHUSDT".to_string(), &dec("1"), &index, &market(), &mut queue);
    assert_eq!(found.unwrap().earn.to_string(), "2.43");
    assert_eq!(queue.pop(), None);
}

#[test]
fn candidates_leave_in_the_order_they_came() {
    let mut queue = CandidateQueue::new();
    assert_eq!(queue.pop(), None);
    queue.push(3);
    queue.push(1);
    queue.push(2);
    assert_eq!(queue.pop(), Some(3));
    queue.push(9);
    assert_eq!(queue.drain(), vec![1, 2, 9]);
    assert_eq!(queue.pop(), None);
    assert!(queue.drain().is_empty());
}

#[test]
fn the_winner_is_reported_in_one_line() {
    let found = react(&vec![through_eth()], "ETHUSDT", "1").unwrap();
    let line = opportunity_line("aB3x", "12:30:05.000123", &found).unwrap();
    assert_eq!(
        line,
        "aB3x  12:30:05.000123 MAX -> TriangleKey { a: \"ETHBTC\", b: \"ETHUSDT\", c: \"BTCUSDT\", d: \"BUY\" }, Final Amount: 1.025000, Earn: 2.43\n"
    );
}

#[test]
fn no_line_for_amounts_out_of_range() {
    let found = EarnSortedData {
        triangle_key: through_eth().0,
        final_amount: dec("1e-2000000"),
        earn: dec("1"),
    };
    assert!(opportunity_line("id", "now", &found).is_none());
}
