use bigdecimal::BigDecimal;
use std::str::FromStr;
use tri_arbitrage::assembler::assemble_triangles;
use tri_arbitrage::currency::{ParsedPairs, Template};
use tri_arbitrage::graph::build_graph;
use tri_arbitrage::pipeline::{count_symbols, initialize_observers, Rate};
use tri_arbitrage::reduction::{
    clearing, find_differences, re_cycles, remove_duplicates, triangle_sorting,
};
use tri_arbitrage::report::opportunity_line;
use tri_arbitrage::search::{depth_first_search, get_nodes_by_label};
use tri_arbitrage::settings::{parse_alt_currency, parse_base_currency};

const SETTINGS: &str = "\
[> BaseCurrency >]
USDT 0%
BTC 0.1%
[< BaseCurrency <]
[> AltCurrency >]
ETH
BTC
[< AltCurrency <]
";

fn pair(symbol: &str) -> ParsedPairs {
    ParsedPairs::new(
        symbol.to_string(),
        Template { ixs: 0, ixe: 0 },
        Template { ixs: 0, ixe: 0 },
        Template { ixs: 0, ixe: 0 },
    )
}

#[test]
fn from_the_lists_to_the_reported_line() {
    let lines: Vec<String> = SETTINGS.lines().map(|l| l.to_string()).collect();
    let base = parse_base_currency(&lines);
    let alt = parse_alt_currency(&lines);
    let clean = vec![pair("ETHBTC"), pair("ETHUSDT"), pair("BTCUSDT"), pair("LTCUSDT")];

    let graph = build_graph(&base, &alt, &clean).unwrap();
    assert_eq!(graph.node_count(), 3);
    assert_eq!(graph.edge_count(), 6);

    let starts = get_nodes_by_label(&graph, "base");
    let cycles = depth_first_search(&graph, &starts, 3);
    assert_eq!(cycles.len(), 4);

    let unique = remove_duplicates(triangle_sorting(re_cycles(&cycles, &clean)));
    assert_eq!(unique, vec![vec!["BTCUSDT".to_string(), "ETHBTC".to_string(), "ETHUSDT".to_string()]]);
    let differences = find_differences(&clean, &unique);
    assert_eq!(differences, vec![vec!["LTCUSDT".to_string()]]);
    assert_eq!(clearing(&clean, &differences).len(), 3);

    let triangles = assemble_triangles(&unique, &base);
    assert_eq!(triangles.len(), 2);
    let count = count_symbols(&triangles);
    assert_eq!(count, 3);

    let rate = Rate::new(BigDecimal::from_str("1").unwrap()).unwrap();
    let mut pipeline = initialize_observers(count, &triangles, rate);
    let ticks = [("ETHUSDT", "2000"), ("ETHBTC", "0.05"), ("BTCUSDT", "41000")];
    for (symbol, price) in ticks {
        assert!(pipeline.on_tick(symbol.to_string(), price.to_string(), "10".to_string()).is_none());
    }
    assert!(pipeline.gate.is_regular());

    let found = pipeline.on_tick("ETHBTC".to_string(), "0.05".to_string(), "11".to_string()).unwrap();
    assert_eq!(found.triangle_key.d, "SELL");
    assert_eq!(found.final_amount.to_string(), "1.0250000000");
    assert_eq!(found.earn.to_string(), "2.43");
    assert_eq!(
        opportunity_line("Zx81", "09:00:00.000001", &found).unwrap(),
        "Zx81  09:00:00.000001 MAX -> TriangleKey { a: \"BTCUSDT\", b: \"ETHBTC\", c: \"ETHUSDT\", d: \"SELL\" }, Final Amount: 1.025000, Earn: 2.43\n"
    );
}
