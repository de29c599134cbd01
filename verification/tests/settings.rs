use tri_arbitrage::settings::{parse_alt_currency, parse_base_currency, split_words, trim};

fn lines(text: &str) -> Vec<String> {
    text.lines().map(|l| l.to_string()).collect()
}

const FILE: &str = "\
; currencies
BTC
[> BaseCurrency >]
; symbol  percentage
USDT   0%
  BTC\t0.5%%
ETH
EUR 1 2
   ; USDC 1%
\u{3000}DAI 12.5 \u{a0}
[< BaseCurrency <]
LTC 3%
  [> AltCurrency >]  
ETH
 BTC 
;XRP
LTC 3%

[> BaseCurrency >]
BNB 7
[< AltCurrency <]
DOGE
[> AltCurrency >]
SOL
[<AltCurrency<]
ADA
";

#[test]
fn alt_currencies_are_read_off_their_section() {
    let alts = parse_alt_currency(&lines(FILE));
    let symbols: Vec<&str> = alts.iter().map(|a| a.symbol.as_str()).collect();
    // a marker written without its blanks is no marker: it is one word,
    // and inside the section one word is a symbol
    assert_eq!(symbols, vec!["ETH", "BTC", "SOL", "[<AltCurrency<]", "ADA"]);
}

#[test]
fn base_currencies_are_read_off_their_section() {
    let bases = parse_base_currency(&lines(FILE));
    let entries: Vec<(&str, &str)> =
        bases.iter().map(|b| (b.symbol.as_str(), b.percentage.as_str())).collect();
    assert_eq!(entries, vec![("USDT", "0"), ("BTC", "0.5"), ("DAI", "12.5"), ("BNB", "7")]);
}

#[test]
fn nothing_is_read_without_a_section() {
    assert!(parse_alt_currency(&lines("ETH\nBTC\n[< AltCurrency <]\nLTC")).is_empty());
    assert!(parse_base_currency(&lines("")).is_empty());
    assert!(parse_base_currency(&lines("[> BaseCurrency >]")).is_empty());
    assert!(parse_alt_currency(&lines("[> BaseCurrency >]\nETH")).is_empty());
}

#[test]
fn a_percentage_of_percent_signs_only_is_empty() {
    let bases = parse_base_currency(&lines("[> BaseCurrency >]\nUSDT %%\nBTC 5%a"));
    let entries: Vec<(&str, &str)> =
        bases.iter().map(|b| (b.symbol.as_str(), b.percentage.as_str())).collect();
    assert_eq!(entries, vec![("USDT", ""), ("BTC", "5%a")]);
}

#[test]
fn lines_are_trimmed_and_split_as_strings_are() {
    for line in ["", " ", "a", " a", "a ", "  a b  ", "\ta\u{a0}\u{2003}b c\r\n", "\u{3000}", "a\u{200b}b", "x  y   z"] {
        assert_eq!(trim(line), line.trim());
        let words: Vec<String> = line.split_whitespace().map(|w| w.to_string()).collect();
        assert_eq!(split_words(line), words);
    }
}
