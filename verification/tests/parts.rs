use bigdecimal::BigDecimal;
use std::str::FromStr;
use tri_arbitrage::control::{send_message, stop_status, Call, CallAction};
use tri_arbitrage::decimal::is_computable;
use tri_arbitrage::ident::generate_random_id;
use tri_arbitrage::lexical::stands_before;
use tri_arbitrage::observer::Observable;
use tri_arbitrage::queue::TwoWayQueue;
use tri_arbitrage::store::create_symbol_data_map;
use tri_arbitrage::text::{
    chars_of, copy_texts, ends_with, has_text, join, same_text, slice_of, starts_with,
};
use tri_arbitrage::triangle::TriangleKey;

#[test]
fn messages_leave_in_the_order_they_came() {
    let mut queue = TwoWayQueue::new();
    assert_eq!(queue.len(), 0);
    assert_eq!(queue.pop(), None);
    queue.push("one".to_string());
    queue.push("two".to_string());
    queue.push("three".to_string());
    assert_eq!(queue.len(), 3);
    assert_eq!(queue.pop(), Some("one".to_string()));
    queue.push("four".to_string());
    assert_eq!(queue.pop(), Some("two".to_string()));
    assert_eq!(queue.pop(), Some("three".to_string()));
    assert_eq!(queue.pop(), Some("four".to_string()));
    assert_eq!(queue.pop(), None);
    assert_eq!(queue.len(), 0);
}

#[test]
fn every_tick_goes_to_every_observer_in_turn() {
    let mut observable = Observable::new();
    assert!(observable.next_dispatch().is_none());
    observable.notify_observers("A".to_string(), "1".to_string(), "2".to_string());
    assert_eq!(observable.add_observer(), Some(0));
    assert_eq!(observable.add_observer(), Some(1));
    observable.notify_observers("B".to_string(), "3".to_string(), "4".to_string());
    let first = observable.next_dispatch().unwrap();
    assert_eq!(first.tick, ("A".to_string(), "1".to_string(), "2".to_string()));
    assert_eq!(first.observers, vec![0, 1]);
    assert_eq!(observable.add_observer(), Some(2));
    let second = observable.next_dispatch().unwrap();
    assert_eq!(second.tick, ("B".to_string(), "3".to_string(), "4".to_string()));
    assert_eq!(second.observers, vec![0, 1, 2]);
    assert!(observable.next_dispatch().is_none());
}

#[test]
fn a_tick_without_observers_goes_to_nobody() {
    let mut observable = Observable::new();
    observable.notify_observers("A".to_string(), "1".to_string(), "2".to_string());
    let only = observable.next_dispatch().unwrap();
    assert!(only.observers.is_empty());
}

#[test]
fn exit_closes_and_every_other_line_is_sent() {
    assert!(matches!(Call::NewLine("exit".to_string()).action(), CallAction::Close(word) if word == "adios!"));
    assert!(matches!(Call::NewLine("Exit".to_string()).action(), CallAction::Send(text) if text == "Exit"));
    assert!(matches!(Call::NewLine("exit ".to_string()).action(), CallAction::Send(text) if text == "exit "));
    assert!(matches!(Call::NewLine(String::new()).action(), CallAction::Send(text) if text.is_empty()));
    assert!(
        matches!(Call::NewLine("{\"op\":\"subscribe\"}".to_string()).action(), CallAction::Send(text) if text == "{\"op\":\"subscribe\"}")
    );
}

#[test]
fn identifiers_are_letters_and_digits() {
    for length in [0usize, 1, 4, 64] {
        let id = generate_random_id(length);
        assert_eq!(id.chars().count(), length);
        assert!(id.chars().all(|c| c.is_ascii_alphanumeric()));
    }
    let many: String = (0..50).map(|_| generate_random_id(40)).collect();
    assert!(many.chars().any(|c| c.is_ascii_lowercase()));
    assert!(many.chars().any(|c| c.is_ascii_uppercase()));
    assert!(many.chars().any(|c| c.is_ascii_digit()));
    assert_ne!(generate_random_id(40), generate_random_id(40));
}

#[test]
fn keys_are_written_out_and_told_apart() {
    let key = TriangleKey {
        a: "ETHBTC".to_string(),
        b: "ETHUSDT".to_string(),
        c: "BTCUSDT".to_string(),
        d: "SELL".to_string(),
    };
    assert_eq!(key.to_text(), "TriangleKey(a: ETHBTC, b: ETHUSDT, c: BTCUSDT, d: SELL)");
    assert!(key.names(&"ETHBTC".to_string()));
    assert!(key.names(&"ETHUSDT".to_string()));
    assert!(key.names(&"BTCUSDT".to_string()));
    assert!(!key.names(&"SELL".to_string()));
    assert!(!key.names(&"ETH".to_string()));
    let copy = key.clone();
    assert!(key.same_as(&copy));
    assert_eq!(key, copy);
    let other = TriangleKey { d: "BUY".to_string(), ..key.clone() };
    assert!(!key.same_as(&other));
    let swapped = TriangleKey { a: key.b.clone(), b: key.a.clone(), ..key.clone() };
    assert!(!key.same_as(&swapped));
}

#[test]
fn strings_begin_and_end() {
    assert!(starts_with("BTCUSDT", "BTC"));
    assert!(!starts_with("BTCUSDT", "USDT"));
    assert!(ends_with("BTCUSDT", "USDT"));
    assert!(!ends_with("BTCUSDT", "BTC"));
    assert!(starts_with("BTC", "BTC") && ends_with("BTC", "BTC"));
    assert!(starts_with("BTC", "") && ends_with("BTC", ""));
    assert!(starts_with("", "") && ends_with("", ""));
    assert!(!starts_with("BT", "BTC") && !ends_with("TC", "BTC"));
    assert!(!starts_with("", "B") && !ends_with("", "B"));
    assert!(starts_with("éaü", "éa") && ends_with("éaü", "aü"));
    assert!(!ends_with("éaü", "éa"));
}

#[test]
fn strings_are_joined_cut_and_compared() {
    assert_eq!(join("ETH", "USDT"), "ETHUSDT");
    assert_eq!(join("", "USDT"), "USDT");
    assert_eq!(join("ETH", ""), "ETH");
    assert_eq!(slice_of("ETHUSDT", 3, 7), "USDT");
    assert_eq!(slice_of("ETHUSDT", 0, 3), "ETH");
    assert_eq!(slice_of("ETHUSDT", 2, 2), "");
    assert_eq!(slice_of("éaüb", 1, 3), "aü");
    assert!(same_text("ETH", "ETH"));
    assert!(!same_text("ETH", "ETC"));
    assert!(!same_text("ETH", "ETHU"));
    assert!(same_text("", ""));
    assert_eq!(chars_of("aé1"), vec!['a', 'é', '1']);
    let list = vec!["ETH".to_string(), "BTC".to_string()];
    assert!(has_text(&list, "BTC"));
    assert!(!has_text(&list, "BT"));
    assert!(!has_text(&Vec::new(), ""));
    assert_eq!(copy_texts(&list), list);
}

#[test]
fn the_order_of_symbols_is_the_order_of_strings() {
    let words = ["", "A", "AA", "AB", "B", "a", "aB", "ab", "b", "1", "10", "9", "é", "e", "z", "ETHUSDT", "ETHBTC"];
    for a in words {
        for b in words {
            assert_eq!(stands_before(a, b), a < b);
        }
    }
}

#[test]
fn scales_up_to_a_million_are_computed_with() {
    assert!(is_computable(&BigDecimal::from_str("0.05").unwrap()));
    assert!(is_computable(&BigDecimal::from_str("41000").unwrap()));
    assert!(is_computable(&BigDecimal::from_str("1e1000000").unwrap()));
    assert!(!is_computable(&BigDecimal::from_str("1e1000001").unwrap()));
    assert!(!is_computable(&BigDecimal::from_str("1e-1000001").unwrap()));
}

#[test]
fn a_message_in_utf8_is_queued() {
    let mut queue = TwoWayQueue::new();
    let reply = send_message(&mut queue, "subscribe ETHUSDT é".as_bytes());
    assert_eq!((reply.status, reply.text.as_str()), (200, "Message received"));
    let reply = send_message(&mut queue, &[0x66, 0xff, 0x67]);
    assert_eq!((reply.status, reply.text.as_str()), (400, "Invalid message"));
    let reply = send_message(&mut queue, &[]);
    assert_eq!((reply.status, reply.text.as_str()), (200, "Message received"));
    assert_eq!(queue.len(), 2);
    assert_eq!(queue.pop(), Some("subscribe ETHUSDT é".to_string()));
    assert_eq!(queue.pop(), Some(String::new()));
}

#[test]
fn stopping_is_answered_by_what_closing_came_to() {
    assert_eq!(stop_status(&Ok(true)), 200);
    assert_eq!(stop_status(&Ok(false)), 500);
    assert_eq!(stop_status(&Err("Failed to lock the handle".to_string())), 500);
}

#[test]
fn every_listed_symbol_gets_a_placeholder() {
    let pairs = vec!["ETHUSDT".to_string(), "BTCUSDT".to_string(), "ETHUSDT".to_string()];
    let store = create_symbol_data_map(&pairs);
    assert_eq!(store.count(), 2);
    assert_eq!(store.get("ETHUSDT"), Some(("ETHUSDT".to_string(), "some_data".to_string())));
    assert_eq!(store.get("BTCUSDT"), Some(("BTCUSDT".to_string(), "some_data".to_string())));
    assert_eq!(store.get("ETHBTC"), None);
    assert_eq!(create_symbol_data_map(&Vec::new()).count(), 0);
}
