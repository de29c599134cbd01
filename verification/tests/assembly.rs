use tri_arbitrage::assembler::{assemble_triangles, create_triangles};
use tri_arbitrage::pipeline::count_symbols;
use tri_arbitrage::triangle::TriangleKey;
use tri_arbitrage::currency::BaseCurrency;

fn texts(list: &[&str]) -> Vec<String> {
    list.iter().map(|s| s.to_string()).collect()
}

fn bases(list: &[&str]) -> Vec<BaseCurrency> {
    list.iter()
        .map(|s| BaseCurrency { symbol: s.to_string(), percentage: "0".to_string() })
        .collect()
}

fn legs(list: &[(&str, &str)]) -> Vec<(String, String)> {
    list.iter().map(|(a, b)| (a.to_string(), b.to_string())).collect()
}

#[test]
fn buy_from_usdt_goes_round_the_triangle() {
    let cycles = texts(&["ETHBTC", "ETHUSDT", "BTCUSDT"]);
    let (sequence, held) =
        create_triangles(&cycles, &bases(&["USDT"]), String::new(), "BUY".to_string(), Vec::new());
    assert_eq!(sequence, legs(&[("ETHUSDT", "BUY"), ("ETHBTC", "SELL"), ("BTCUSDT", "SELL")]));
    assert_eq!(held, "USDT");
}

#[test]
fn buy_from_usdt_in_canonical_order() {
    let cycles = texts(&["BTCUSDT", "ETHBTC", "ETHUSDT"]);
    let (sequence, held) =
        create_triangles(&cycles, &bases(&["USDT"]), String::new(), "BUY".to_string(), Vec::new());
    assert_eq!(sequence, legs(&[("BTCUSDT", "BUY"), ("ETHBTC", "BUY"), ("ETHUSDT", "SELL")]));
    assert_eq!(held, "USDT");
}

#[test]
fn sell_anchors_at_the_first_base_that_begins_a_pair() {
    let cycles = texts(&["BTCUSDT", "ETHBTC", "ETHUSDT"]);
    let (sequence, held) = create_triangles(
        &cycles,
        &bases(&["USDT", "BTC"]),
        String::new(),
        "SELL".to_string(),
        Vec::new(),
    );
    assert_eq!(sequence, legs(&[("BTCUSDT", "SELL"), ("ETHUSDT", "BUY"), ("ETHBTC", "SELL")]));
    assert_eq!(held, "BTC");
}

#[test]
fn sell_with_no_base_in_front_of_a_pair_is_a_dead_end() {
    // No pair begins with USDT, so no currency is found to start from:
    // the empty currency fits the first pair and takes all of it.
    let cycles = texts(&["ETHBTC", "ETHUSDT", "BTCUSDT"]);
    let (sequence, held) =
        create_triangles(&cycles, &bases(&["USDT"]), String::new(), "SELL".to_string(), Vec::new());
    assert_eq!(sequence, legs(&[("ETHBTC", "SELL")]));
    assert_eq!(held, "ETHBTC");
}

#[test]
fn base_list_order_decides_the_anchor() {
    let cycles = texts(&["ETHBTC", "ETHUSDT", "BTCUSDT"]);
    let (first, held_first) = create_triangles(
        &cycles,
        &bases(&["BTC", "USDT"]),
        String::new(),
        "BUY".to_string(),
        Vec::new(),
    );
    assert_eq!(first, legs(&[("ETHBTC", "BUY"), ("ETHUSDT", "SELL"), ("BTCUSDT", "BUY")]));
    assert_eq!(held_first, "BTC");
    let (second, held_second) = create_triangles(
        &cycles,
        &bases(&["USDT", "BTC"]),
        String::new(),
        "BUY".to_string(),
        Vec::new(),
    );
    assert_eq!(second, legs(&[("ETHUSDT", "BUY"), ("ETHBTC", "SELL"), ("BTCUSDT", "SELL")]));
    assert_eq!(held_second, "USDT");
}

#[test]
fn assembly_is_the_same_every_time() {
    let cycles = texts(&["BTCUSDT", "ETHBTC", "ETHUSDT"]);
    let base = bases(&["USDT", "BTC"]);
    let once = create_triangles(&cycles, &base, String::new(), "BUY".to_string(), Vec::new());
    let twice = create_triangles(&cycles, &base, String::new(), "BUY".to_string(), Vec::new());
    assert_eq!(once, twice);
}

#[test]
fn every_pair_is_used_exactly_once() {
    let cycles = texts(&["BTCUSDT", "ETHBTC", "ETHUSDT"]);
    let (sequence, _) =
        create_triangles(&cycles, &bases(&["USDT"]), String::new(), "BUY".to_string(), Vec::new());
    assert_eq!(sequence.len(), 3);
    for pair in &cycles {
        assert_eq!(sequence.iter().filter(|leg| &leg.0 == pair).count(), 1);
    }
}

#[test]
fn no_pairs_give_the_accumulator_back() {
    let kept = legs(&[("XY", "BUY")]);
    let (sequence, held) = create_triangles(
        &Vec::new(),
        &bases(&["USDT"]),
        "ETH".to_string(),
        "SELL".to_string(),
        kept.clone(),
    );
    assert_eq!(sequence, kept);
    assert_eq!(held, "ETH");
}

#[test]
fn legs_are_appended_to_the_accumulator() {
    let cycles = texts(&["ETHBTC"]);
    let (sequence, held) = create_triangles(
        &cycles,
        &bases(&["USDT"]),
        "ETH".to_string(),
        "SELL".to_string(),
        legs(&[("ETHUSDT", "BUY")]),
    );
    assert_eq!(sequence, legs(&[("ETHUSDT", "BUY"), ("ETHBTC", "SELL")]));
    assert_eq!(held, "BTC");
}

#[test]
fn unknown_direction_assembles_nothing() {
    let cycles = texts(&["ETHBTC", "ETHUSDT", "BTCUSDT"]);
    let (sequence, held) =
        create_triangles(&cycles, &bases(&["USDT"]), String::new(), "HOLD".to_string(), Vec::new());
    assert!(sequence.is_empty());
    assert_eq!(held, "");
}

#[test]
fn current_currency_that_fits_no_pair_stops_at_once() {
    let cycles = texts(&["ETHBTC", "ETHUSDT"]);
    let (sequence, held) = create_triangles(
        &cycles,
        &bases(&["USDT"]),
        "LTC".to_string(),
        "BUY".to_string(),
        Vec::new(),
    );
    assert!(sequence.is_empty());
    assert_eq!(held, "LTC");
}

#[test]
fn direction_stays_where_no_remaining_pair_holds_the_currency() {
    // After ETHUSDT is bought the holdings are ETH; LTCBTC holds no ETH,
    // so the direction stays BUY and the assembly ends there.
    let cycles = texts(&["ETHUSDT", "LTCBTC"]);
    let (sequence, held) =
        create_triangles(&cycles, &bases(&["USDT"]), String::new(), "BUY".to_string(), Vec::new());
    assert_eq!(sequence, legs(&[("ETHUSDT", "BUY")]));
    assert_eq!(held, "ETH");
}

fn key(a: &str, b: &str, c: &str, d: &str) -> TriangleKey {
    TriangleKey { a: a.to_string(), b: b.to_string(), c: c.to_string(), d: d.to_string() }
}

#[test]
fn triangles_are_assembled_from_either_direction() {
    let unique = vec![
        texts(&["BTCUSDT", "ETHBTC", "ETHUSDT"]),
        texts(&["BTCUSDT", "LTCBTC"]),
        texts(&["BTCUSDT", "XRPBTC", "XRPUSDT"]),
    ];
    let found = assemble_triangles(&unique, &bases(&["USDT", "BTC"]));
    assert_eq!(
        found,
        vec![
            (
                key("BTCUSDT", "ETHBTC", "ETHUSDT", "BUY"),
                legs(&[("BTCUSDT", "BUY"), ("ETHBTC", "BUY"), ("ETHUSDT", "SELL")])
            ),
            (
                key("BTCUSDT", "ETHBTC", "ETHUSDT", "SELL"),
                legs(&[("BTCUSDT", "SELL"), ("ETHUSDT", "BUY"), ("ETHBTC", "SELL")])
            ),
            (
                key("BTCUSDT", "XRPBTC", "XRPUSDT", "BUY"),
                legs(&[("BTCUSDT", "BUY"), ("XRPBTC", "BUY"), ("XRPUSDT", "SELL")])
            ),
            (
                key("BTCUSDT", "XRPBTC", "XRPUSDT", "SELL"),
                legs(&[("BTCUSDT", "SELL"), ("XRPUSDT", "BUY"), ("XRPBTC", "SELL")])
            ),
        ]
    );
    assert_eq!(count_symbols(&found), 5);
    // with USDT as the only base no sale finds a currency to start from
    let bought = assemble_triangles(&unique, &bases(&["USDT"]));
    assert_eq!(bought.len(), 2);
    assert!(bought.iter().all(|(k, _)| k.d == "BUY"));
    assert_eq!(count_symbols(&bought), 5);
    assert_eq!(count_symbols(&Vec::new()), 0);
}
