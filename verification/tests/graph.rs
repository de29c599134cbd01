use petgraph::graph::{DiGraph, NodeIndex};
use tri_arbitrage::currency::{AltCurrency, BaseCurrency, ParsedPairs, Template};
use tri_arbitrage::graph::{build_graph, create_graph, CurrencyGraph};
use tri_arbitrage::search::{depth_first_search, get_nodes_by_label};

fn bases(list: &[&str]) -> Vec<BaseCurrency> {
    list.iter()
        .map(|s| BaseCurrency { symbol: s.to_string(), percentage: "0".to_string() })
        .collect()
}

fn alts(list: &[&str]) -> Vec<AltCurrency> {
    list.iter().map(|s| AltCurrency { symbol: s.to_string() }).collect()
}

fn pairs(list: &[&str]) -> Vec<ParsedPairs> {
    list.iter()
        .map(|s| {
            ParsedPairs::new(
                s.to_string(),
                Template { ixs: 0, ixe: 0 },
                Template { ixs: 0, ixe: 0 },
                Template { ixs: 0, ixe: 0 },
            )
        })
        .collect()
}

fn texts(list: &[&str]) -> Vec<String> {
    list.iter().map(|s| s.to_string()).collect()
}

fn node(graph: &CurrencyGraph, at: usize) -> (String, String) {
    graph[NodeIndex::new(at)].clone()
}

fn edges(graph: &CurrencyGraph) -> Vec<(usize, usize)> {
    graph
        .edge_indices()
        .map(|e| {
            let (a, b) = graph.edge_endpoints(e).unwrap();
            (a.index(), b.index())
        })
        .collect()
}

fn two_base_graph() -> CurrencyGraph {
    create_graph(
        DiGraph::new(),
        &bases(&["USDT", "BTC"]),
        &alts(&["ETH", "BTC"]),
        &pairs(&["ETHBTC", "ETHUSDT", "BTCUSDT"]),
    )
}

#[test]
fn one_base_gives_three_nodes_and_four_edges() {
    let graph = create_graph(
        DiGraph::new(),
        &bases(&["USDT"]),
        &alts(&["ETH", "BTC"]),
        &pairs(&["ETHBTC", "ETHUSDT", "BTCUSDT"]),
    );
    assert_eq!(graph.node_count(), 3);
    assert_eq!(node(&graph, 0), ("USDT".to_string(), "base".to_string()));
    assert_eq!(node(&graph, 1), ("ETH".to_string(), "alt".to_string()));
    assert_eq!(node(&graph, 2), ("BTC".to_string(), "alt".to_string()));
    assert_eq!(edges(&graph), vec![(0, 1), (1, 0), (0, 2), (2, 0)]);
    // ETHBTC is a pair, but BTC is no base here: no edge joins ETH and BTC
    // and no cycle of three currencies closes.
    let cycles = depth_first_search(&graph, &texts(&["USDT"]), 3);
    assert!(cycles.is_empty());
}

#[test]
fn two_bases_give_three_nodes_and_six_edges() {
    let graph = two_base_graph();
    assert_eq!(graph.node_count(), 3);
    assert_eq!(graph.edge_count(), 6);
    assert_eq!(node(&graph, 0), ("USDT".to_string(), "base".to_string()));
    assert_eq!(node(&graph, 1), ("BTC".to_string(), "base".to_string()));
    assert_eq!(node(&graph, 2), ("ETH".to_string(), "alt".to_string()));
    assert_eq!(edges(&graph), vec![(0, 2), (2, 0), (0, 1), (1, 0), (1, 2), (2, 1)]);
}

#[test]
fn a_currency_in_both_lists_is_labelled_base_whatever_the_order() {
    let clean = pairs(&["ETHBTC", "ETHUSDT", "BTCUSDT"]);
    let one = create_graph(DiGraph::new(), &bases(&["USDT", "BTC"]), &alts(&["ETH", "BTC"]), &clean);
    let other = create_graph(DiGraph::new(), &bases(&["BTC", "USDT"]), &alts(&["BTC", "ETH"]), &clean);
    for graph in [&one, &other] {
        let mut labels = Vec::new();
        for at in 0..graph.node_count() {
            let (symbol, label) = node(graph, at);
            if symbol == "BTC" {
                labels.push(label);
            }
        }
        assert_eq!(labels, vec!["base".to_string()]);
    }
}

#[test]
fn a_listed_base_that_is_never_the_base_of_a_pair_is_labelled_alt() {
    // BTC is listed as a base, but no pair ends with BTC: it only ever
    // trades as the alt currency of BTCUSDT.
    let graph = create_graph(
        DiGraph::new(),
        &bases(&["USDT", "BTC"]),
        &alts(&["BTC"]),
        &pairs(&["BTCUSDT"]),
    );
    assert_eq!(graph.node_count(), 2);
    assert_eq!(node(&graph, 0), ("USDT".to_string(), "base".to_string()));
    assert_eq!(node(&graph, 1), ("BTC".to_string(), "alt".to_string()));
}

#[test]
fn currencies_in_no_valid_pair_get_no_node() {
    let graph = create_graph(
        DiGraph::new(),
        &bases(&["USDT", "EUR"]),
        &alts(&["ETH", "LTC"]),
        &pairs(&["ETHUSDT"]),
    );
    assert_eq!(graph.node_count(), 2);
    assert_eq!(graph.edge_count(), 2);
}

#[test]
fn no_pairs_leave_the_graph_empty() {
    let graph = create_graph(DiGraph::new(), &bases(&["USDT"]), &alts(&["ETH"]), &pairs(&[]));
    assert_eq!(graph.node_count(), 0);
    assert_eq!(graph.edge_count(), 0);
}

#[test]
fn nodes_that_were_there_stay_in_front() {
    let mut graph: CurrencyGraph = DiGraph::new();
    graph.add_node(("USDT".to_string(), "old".to_string()));
    let graph = create_graph(graph, &bases(&["USDT"]), &alts(&["ETH"]), &pairs(&["ETHUSDT"]));
    assert_eq!(graph.node_count(), 3);
    assert_eq!(node(&graph, 0), ("USDT".to_string(), "old".to_string()));
    assert_eq!(node(&graph, 1), ("USDT".to_string(), "base".to_string()));
    assert_eq!(node(&graph, 2), ("ETH".to_string(), "alt".to_string()));
    assert_eq!(edges(&graph), vec![(1, 2), (2, 1)]);
}

#[test]
fn nodes_are_listed_by_label() {
    let graph = two_base_graph();
    assert_eq!(get_nodes_by_label(&graph, "base"), texts(&["USDT", "BTC"]));
    assert_eq!(get_nodes_by_label(&graph, "alt"), texts(&["ETH"]));
    assert!(get_nodes_by_label(&graph, "other").is_empty());
}

#[test]
fn cycles_of_three_through_usdt() {
    let graph = two_base_graph();
    let cycles = depth_first_search(&graph, &texts(&["USDT"]), 3);
    assert_eq!(
        cycles,
        vec![texts(&["USDT", "ETH", "BTC", "USDT"]), texts(&["USDT", "BTC", "ETH", "USDT"])]
    );
}

#[test]
fn cycles_through_every_base() {
    let graph = two_base_graph();
    let starts = get_nodes_by_label(&graph, "base");
    let cycles = depth_first_search(&graph, &starts, 3);
    assert_eq!(
        cycles,
        vec![
            texts(&["USDT", "ETH", "BTC", "USDT"]),
            texts(&["USDT", "BTC", "ETH", "USDT"]),
            texts(&["BTC", "USDT", "ETH", "BTC"]),
            texts(&["BTC", "ETH", "USDT", "BTC"]),
        ]
    );
}

#[test]
fn every_cycle_found_is_closed() {
    let graph = two_base_graph();
    let starts = get_nodes_by_label(&graph, "base");
    for depth in 1..5 {
        for cycle in depth_first_search(&graph, &starts, depth) {
            assert_eq!(cycle.len(), depth + 1);
            assert_eq!(cycle[0], cycle[depth]);
            assert!(starts.contains(&cycle[0]));
            for i in 0..depth {
                for k in (i + 1)..depth {
                    assert_ne!(cycle[i], cycle[k]);
                }
                let from = (0..graph.node_count()).find(|&n| node(&graph, n).0 == cycle[i]).unwrap();
                let to = (0..graph.node_count()).find(|&n| node(&graph, n).0 == cycle[i + 1]).unwrap();
                assert!(edges(&graph).contains(&(from, to)));
            }
        }
    }
}

#[test]
fn cycles_of_two_go_there_and_back() {
    let graph = two_base_graph();
    let cycles = depth_first_search(&graph, &texts(&["USDT"]), 2);
    assert_eq!(cycles, vec![texts(&["USDT", "ETH", "USDT"]), texts(&["USDT", "BTC", "USDT"])]);
}

#[test]
fn depth_one_closes_only_on_a_loop() {
    let graph = two_base_graph();
    assert!(depth_first_search(&graph, &texts(&["USDT"]), 1).is_empty());
}

#[test]
fn depth_zero_finds_nothing() {
    let graph = two_base_graph();
    assert!(depth_first_search(&graph, &texts(&["USDT"]), 0).is_empty());
}

#[test]
fn depth_beyond_the_graph_finds_nothing() {
    let graph = two_base_graph();
    assert!(depth_first_search(&graph, &texts(&["USDT"]), 4).is_empty());
}

#[test]
fn no_start_finds_nothing() {
    let graph = two_base_graph();
    assert!(depth_first_search(&graph, &Vec::new(), 3).is_empty());
}

#[test]
fn a_graph_built_from_nothing_is_the_graph_built_on_an_empty_one() {
    let clean = pairs(&["ETHBTC", "ETHUSDT", "BTCUSDT"]);
    let built = build_graph(&bases(&["USDT", "BTC"]), &alts(&["ETH", "BTC"]), &clean).unwrap();
    let same = two_base_graph();
    assert_eq!(built.node_count(), 3);
    for at in 0..3 {
        assert_eq!(node(&built, at), node(&same, at));
    }
    assert_eq!(edges(&built), edges(&same));
    let none = build_graph(&[], &alts(&["ETH"]), &clean).unwrap();
    assert_eq!(none.node_count(), 0);
}
