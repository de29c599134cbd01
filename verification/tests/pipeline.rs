use bigdecimal::BigDecimal;
use std::str::FromStr;
use tri_arbitrage::index::build_immutable_storage;
use tri_arbitrage::pipeline::{initialize_observers, Rate, WarmUpGate};
use tri_arbitrage::store::DataStorage;
use tri_arbitrage::triangle::TriangleKey;

fn key(a: &str, b: &str, c: &str, d: &str) -> TriangleKey {
    TriangleKey { a: a.to_string(), b: b.to_string(), c: c.to_string(), d: d.to_string() }
}

fn legs(list: &[(&str, &str)]) -> Vec<(String, String)> {
    list.iter().map(|(a, b)| (a.to_string(), b.to_string())).collect()
}

fn triangles() -> Vec<(TriangleKey, Vec<(String, String)>)> {
    vec![
        (
            key("ETHBTC", "ETHUSDT", "BTCUSDT", "BUY"),
            legs(&[("ETHUSDT", "BUY"), ("ETHBTC", "SELL"), ("BTCUSDT", "SELL")]),
        ),
        (
            key("LTCBTC", "LTCUSDT", "BTCUSDT", "BUY"),
            legs(&[("LTCUSDT", "BUY"), ("LTCBTC", "SELL"), ("BTCUSDT", "SELL")]),
        ),
    ]
}

fn rate(text: &str) -> Rate {
    Rate::new(BigDecimal::from_str(text).unwrap()).unwrap()
}

fn tick(text: &str) -> String {
    text.to_string()
}

#[test]
fn the_store_keeps_the_last_write() {
    let mut store = DataStorage::new();
    assert_eq!(store.count(), 0);
    assert_eq!(store.get("ETHUSDT"), None);
    store.insert(tick("ETHUSDT"), tick("2000"), tick("3"));
    store.insert(tick("BTCUSDT"), tick("41000"), tick("1"));
    assert_eq!(store.count(), 2);
    assert_eq!(store.get("ETHUSDT"), Some((tick("2000"), tick("3"))));
    store.insert(tick("ETHUSDT"), tick("2001"), tick("4"));
    assert_eq!(store.count(), 2);
    assert_eq!(store.get("ETHUSDT"), Some((tick("2001"), tick("4"))));
    assert_eq!(store.get("BTCUSDT"), Some((tick("41000"), tick("1"))));
    assert_eq!(store.get("ETH"), None);
}

#[test]
fn the_index_lists_the_triangles_of_a_symbol() {
    let all = triangles();
    let listed: Vec<String> =
        ["BTCUSDT", "ETHBTC", "LTCUSDT", "XRPUSDT", "BTCUSDT"].iter().map(|s| s.to_string()).collect();
    let index = build_immutable_storage(&all, &listed);
    assert_eq!(index.len(), 2);
    assert_eq!(index.lookup("BTCUSDT"), Some(vec![0, 1]));
    assert_eq!(index.lookup("ETHBTC"), Some(vec![0]));
    assert_eq!(index.lookup("LTCUSDT"), Some(vec![1]));
    // named by no key
    assert_eq!(index.lookup("XRPUSDT"), None);
    // named by a key, but not listed
    assert_eq!(index.lookup("ETHUSDT"), None);
    // the direction of a key is no symbol of it
    assert_eq!(index.lookup("BUY"), None);
    assert_eq!(index.triangle(1).0, all[1].0);
    assert_eq!(index.triangle(1).1, all[1].1);
    assert_eq!(index.triangle(0).0, all[0].0);
}

#[test]
fn the_pipeline_indexes_every_symbol_of_every_key() {
    let pipeline = initialize_observers(5, &triangles(), rate("1"));
    assert_eq!(pipeline.index.lookup("BTCUSDT"), Some(vec![0, 1]));
    assert_eq!(pipeline.index.lookup("ETHUSDT"), Some(vec![0]));
    assert_eq!(pipeline.index.lookup("ETHBTC"), Some(vec![0]));
    assert_eq!(pipeline.index.lookup("LTCBTC"), Some(vec![1]));
    assert_eq!(pipeline.index.lookup("LTCUSDT"), Some(vec![1]));
    assert_eq!(pipeline.index.lookup("BUY"), None);
    assert_eq!(pipeline.prices.count(), 0);
    assert!(!pipeline.gate.is_regular());
    assert_eq!(pipeline.gate.required(), 5);
}

#[test]
fn ticks_are_only_stored_until_the_store_is_full() {
    let mut pipeline = initialize_observers(3, &triangles(), rate("1"));
    assert!(pipeline.on_tick(tick("ETHUSDT"), tick("2000"), tick("1")).is_none());
    assert!(!pipeline.gate.is_regular());
    assert!(pipeline.on_tick(tick("ETHBTC"), tick("0.05"), tick("1")).is_none());
    assert!(!pipeline.gate.is_regular());
    // a symbol written twice counts once
    assert!(pipeline.on_tick(tick("ETHBTC"), tick("0.05"), tick("2")).is_none());
    assert!(!pipeline.gate.is_regular());
    assert_eq!(pipeline.prices.count(), 2);
    // the tick that fills the store is not evaluated itself
    assert!(pipeline.on_tick(tick("BTCUSDT"), tick("41000"), tick("1")).is_none());
    assert!(pipeline.gate.is_regular());
    assert_eq!(pipeline.prices.count(), 3);
    // from now on every tick is
    let found = pipeline.on_tick(tick("BTCUSDT"), tick("41000"), tick("1")).unwrap();
    assert_eq!(found.triangle_key, triangles()[0].0);
    assert_eq!(found.final_amount.to_string(), "1.0250000000");
    assert_eq!(found.earn.to_string(), "2.43");
    assert!(pipeline.gate.is_regular());
}

#[test]
fn a_tick_is_evaluated_at_the_price_it_brings() {
    let mut pipeline = initialize_observers(3, &triangles(), rate("1"));
    pipeline.on_tick(tick("ETHUSDT"), tick("2000"), tick("1"));
    pipeline.on_tick(tick("ETHBTC"), tick("0.05"), tick("1"));
    pipeline.on_tick(tick("BTCUSDT"), tick("41000"), tick("1"));
    let found = pipeline.on_tick(tick("BTCUSDT"), tick("42000"), tick("1")).unwrap();
    assert_eq!(found.final_amount.to_string(), "1.0500000000");
    assert_eq!(found.earn.to_string(), "4.76");
    assert_eq!(pipeline.prices.get("BTCUSDT"), Some((tick("42000"), tick("1"))));
    // below the rate nothing is reported, and the pipeline stays regular
    assert!(pipeline.on_tick(tick("BTCUSDT"), tick("40000"), tick("1")).is_none());
    assert!(pipeline.gate.is_regular());
    // a symbol of no triangle is stored and reports nothing
    assert!(pipeline.on_tick(tick("XRPUSDT"), tick("0.5"), tick("1")).is_none());
    assert_eq!(pipeline.prices.count(), 4);
    assert!(pipeline.gate.is_regular());
}

#[test]
fn once_regular_always_regular() {
    let mut pipeline = initialize_observers(1, &triangles(), rate("1"));
    pipeline.on_tick(tick("A"), tick("1"), tick("1"));
    assert!(pipeline.gate.is_regular());
    for round in 0..20 {
        pipeline.on_tick(format!("S{}", round % 3), tick("x"), tick(""));
        assert!(pipeline.gate.is_regular());
    }
}

#[test]
fn a_pipeline_that_waits_for_nothing_still_skips_its_first_tick() {
    let mut pipeline = initialize_observers(0, &triangles(), rate("-100"));
    assert!(!pipeline.gate.is_regular());
    assert!(pipeline.on_tick(tick("ETHUSDT"), tick("2000"), tick("1")).is_none());
    assert!(pipeline.gate.is_regular());
}

#[test]
fn the_warm_up_ends_when_the_count_is_reached() {
    let mut gate = WarmUpGate::new(3);
    assert!(!gate.is_regular());
    assert_eq!(gate.required(), 3);
    assert!(!gate.observe(0));
    assert!(!gate.observe(2));
    assert!(!gate.is_regular());
    assert!(!gate.observe(3));
    assert!(gate.is_regular());
    assert!(gate.observe(0));
    assert!(gate.observe(1));
    assert!(gate.is_regular());
    let mut over = WarmUpGate::new(2);
    assert!(!over.observe(5));
    assert!(over.is_regular());
}

#[test]
fn a_rate_has_to_be_computable() {
    assert!(Rate::new(BigDecimal::from_str("1.5").unwrap()).is_some());
    assert!(Rate::new(BigDecimal::from_str("1e-1000000").unwrap()).is_some());
    assert!(Rate::new(BigDecimal::from_str("1e-1000001").unwrap()).is_none());
    assert!(Rate::new(BigDecimal::from_str("1e1000001").unwrap()).is_none());
    assert_eq!(rate("2.5").value().to_string(), "2.5");
}
