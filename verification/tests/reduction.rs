use tri_arbitrage::currency::{AltCurrency, BaseCurrency, ParsedPairs, Template};
use tri_arbitrage::reduction::{
    clearing, find_differences, re_cycles, remove_duplicates, triangle_sorting,
};

fn texts(list: &[&str]) -> Vec<String> {
    list.iter().map(|s| s.to_string()).collect()
}

fn pairs(list: &[&str]) -> Vec<ParsedPairs> {
    list.iter()
        .map(|s| {
            ParsedPairs::new(
                s.to_string(),
                Template { ixs: 0, ixe: 1 },
                Template { ixs: 2, ixe: 3 },
                Template { ixs: 4, ixe: 5 },
            )
        })
        .collect()
}

#[test]
fn pair_new_keeps_its_arguments() {
    let pair = ParsedPairs::new(
        "ETHUSDT".to_string(),
        Template { ixs: 1, ixe: 2 },
        Template { ixs: 3, ixe: 4 },
        Template { ixs: 5, ixe: 6 },
    );
    assert_eq!(pair.symbol, "ETHUSDT");
    assert_eq!((pair.symbol_template.ixs, pair.symbol_template.ixe), (1, 2));
    assert_eq!((pair.price_template.ixs, pair.price_template.ixe), (3, 4));
    assert_eq!((pair.volume_template.ixs, pair.volume_template.ixe), (5, 6));
    let copy = pair.clone();
    assert_eq!(copy.symbol, "ETHUSDT");
    assert_eq!((copy.volume_template.ixs, copy.volume_template.ixe), (5, 6));
}

#[test]
fn cycles_resolve_to_their_pairs() {
    let clean = pairs(&["ETHBTC", "ETHUSDT", "BTCUSDT"]);
    let cycles = vec![texts(&["USDT", "ETH", "BTC", "USDT"]), texts(&["USDT", "BTC", "ETH", "USDT"])];
    assert_eq!(
        re_cycles(&cycles, &clean),
        vec![texts(&["ETHUSDT", "ETHBTC", "BTCUSDT"]), texts(&["BTCUSDT", "ETHBTC", "ETHUSDT"])]
    );
}

#[test]
fn the_step_from_the_last_currency_leads_to_the_first() {
    let clean = pairs(&["AB", "BC", "CA"]);
    assert_eq!(re_cycles(&vec![texts(&["A", "B", "C"])], &clean), vec![texts(&["AB", "BC", "CA"])]);
}

#[test]
fn first_then_second_is_tried_before_second_then_first() {
    let clean = pairs(&["BA", "AB"]);
    assert_eq!(re_cycles(&vec![texts(&["A", "B"])], &clean), vec![texts(&["AB", "BA"])]);
}

#[test]
fn steps_that_are_no_pair_leave_nothing() {
    let clean = pairs(&["ETHUSDT"]);
    assert_eq!(re_cycles(&vec![texts(&["USDT", "LTC", "ETH"])], &clean), vec![texts(&["ETHUSDT"])]);
    assert_eq!(re_cycles(&vec![Vec::new()], &clean), vec![Vec::<String>::new()]);
    assert!(re_cycles(&Vec::new(), &clean).is_empty());
}

#[test]
fn sorting_orders_and_drops_repeats() {
    let sorted = triangle_sorting(vec![
        texts(&["ETHUSDT", "ETHBTC", "BTCUSDT"]),
        texts(&["B", "A", "B", "AA", "", "A"]),
        Vec::new(),
    ]);
    assert_eq!(
        sorted,
        vec![texts(&["BTCUSDT", "ETHBTC", "ETHUSDT"]), texts(&["", "A", "AA", "B"]), Vec::new()]
    );
}

#[test]
fn sorting_orders_as_strings_do() {
    let mut expected = texts(&["b", "B", "a1", "a", "Z", "10", "9", "é", "e", "ab", "aB"]);
    let sorted = triangle_sorting(vec![expected.clone()]);
    expected.sort_unstable();
    assert_eq!(sorted, vec![expected]);
}

#[test]
fn sorting_twice_is_sorting_once() {
    let cycles = vec![texts(&["ETHUSDT", "ETHBTC", "BTCUSDT", "ETHBTC"]), texts(&["Z", "Y", "Z"])];
    let once = triangle_sorting(cycles);
    let twice = triangle_sorting(once.clone());
    assert_eq!(once, twice);
}

#[test]
fn duplicates_keep_their_first_occurrence() {
    let a = texts(&["BTCUSDT", "ETHBTC", "ETHUSDT"]);
    let b = texts(&["BTCUSDT", "LTCBTC", "LTCUSDT"]);
    assert_eq!(
        remove_duplicates(vec![a.clone(), b.clone(), a.clone(), b.clone(), a.clone()]),
        vec![a.clone(), b.clone()]
    );
    assert_eq!(remove_duplicates(vec![b.clone(), a.clone()]), vec![b, a]);
    assert!(remove_duplicates(Vec::new()).is_empty());
}

#[test]
fn removing_duplicates_twice_is_removing_once() {
    let a = texts(&["A"]);
    let b = texts(&["B"]);
    let once = remove_duplicates(vec![a.clone(), a.clone(), b.clone(), a, b]);
    assert_eq!(remove_duplicates(once.clone()), once);
}

#[test]
fn two_directions_collapse_to_one_triangle() {
    let clean = pairs(&["ETHBTC", "ETHUSDT", "BTCUSDT"]);
    let cycles = vec![texts(&["USDT", "ETH", "BTC", "USDT"]), texts(&["USDT", "BTC", "ETH", "USDT"])];
    let triangles = remove_duplicates(triangle_sorting(re_cycles(&cycles, &clean)));
    assert_eq!(triangles, vec![texts(&["BTCUSDT", "ETHBTC", "ETHUSDT"])]);
}

#[test]
fn differences_are_the_pairs_in_no_triangle() {
    let clean = pairs(&["LTCUSDT", "ETHBTC", "ETHUSDT", "XRPBTC", "BTCUSDT"]);
    let triangles = vec![texts(&["BTCUSDT", "ETHBTC", "ETHUSDT"])];
    let diff = find_differences(&clean, &triangles);
    assert_eq!(diff, vec![texts(&["LTCUSDT"]), texts(&["XRPBTC"])]);
    assert_eq!(clearing(&clean, &diff), texts(&["ETHBTC", "ETHUSDT", "BTCUSDT"]));
}

#[test]
fn with_no_triangle_every_pair_is_a_difference() {
    let clean = pairs(&["ETHBTC", "ETHUSDT"]);
    let diff = find_differences(&clean, &Vec::new());
    assert_eq!(diff, vec![texts(&["ETHBTC"]), texts(&["ETHUSDT"])]);
    assert!(clearing(&clean, &diff).is_empty());
    assert_eq!(clearing(&clean, &Vec::new()), texts(&["ETHBTC", "ETHUSDT"]));
}

#[test]
fn currencies_give_their_symbol() {
    let base = BaseCurrency { symbol: "USDT".to_string(), percentage: "0.5".to_string() };
    let alt = AltCurrency { symbol: "ETH".to_string() };
    assert_eq!(base.symbol(), "USDT");
    assert_eq!(alt.symbol(), "ETH");
}
