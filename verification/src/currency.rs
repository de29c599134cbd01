//! The static inputs: base currencies, alt currencies and the tradable pairs.
use vstd::prelude::*;
use crate::text::same_text;

verus! {

/// Where a field sits inside a feed message: the index of its first
/// character and the index just past its last.
#[derive(Debug)]
pub struct Template {
    pub ixs: usize,
    pub ixe: usize,
}

impl Clone for Template {
    fn clone(&self) -> (r: Self)
        ensures
            r == *self,
    {
        Template { ixs: self.ixs, ixe: self.ixe }
    }
}

/// A currency that capital is held in. `percentage` is its profitability
/// floor as it was configured: a decimal number, without the percent sign.
#[derive(Debug)]
pub struct BaseCurrency {
    pub symbol: String,
    pub percentage: String,
}

/// A traded currency that is no base currency.
#[derive(Debug)]
pub struct AltCurrency {
    pub symbol: String,
}

impl BaseCurrency {
    /// The currency's symbol.
    pub fn symbol(&self) -> (r: &str)
        ensures
            r@ == self.symbol@,
    {
        self.symbol.as_str()
    }
}

impl AltCurrency {
    /// The currency's symbol.
    pub fn symbol(&self) -> (r: &str)
        ensures
            r@ == self.symbol@,
    {
        self.symbol.as_str()
    }
}

/// A tradable pair. Its symbol is the alt currency's symbol followed by the
/// base currency's; the templates say where the feed carries its fields.
#[derive(Debug)]
pub struct ParsedPairs {
    pub symbol: String,
    pub symbol_template: Template,
    pub price_template: Template,
    pub volume_template: Template,
}

impl Clone for ParsedPairs {
    fn clone(&self) -> (r: Self)
        ensures
            r == *self,
    {
        ParsedPairs {
            symbol: self.symbol.clone(),
            symbol_template: self.symbol_template.clone(),
            price_template: self.price_template.clone(),
            volume_template: self.volume_template.clone(),
        }
    }
}

impl ParsedPairs {
    pub fn new(
        symbol: String,
        symbol_template: Template,
        price_template: Template,
        volume_template: Template,
    ) -> (r: Self)
        ensures
            r.symbol == symbol,
            r.symbol_template == symbol_template,
            r.price_template == price_template,
            r.volume_template == volume_template,
    {
        ParsedPairs { symbol, symbol_template, price_template, volume_template }
    }
}

/// The symbols of a list of base currencies, in list order.
pub open spec fn base_symbols(base: Seq<BaseCurrency>) -> Seq<Seq<char>> {
    Seq::new(base.len(), |i: int| base[i].symbol@)
}

/// The symbols of a list of alt currencies, in list order.
pub open spec fn alt_symbols(alt: Seq<AltCurrency>) -> Seq<Seq<char>> {
    Seq::new(alt.len(), |i: int| alt[i].symbol@)
}

/// The symbols of a list of pairs, in list order.
pub open spec fn pair_symbols(pairs: Seq<ParsedPairs>) -> Seq<Seq<char>> {
    Seq::new(pairs.len(), |i: int| pairs[i].symbol@)
}

/// Whether `symbol` is the symbol of one of the pairs.
pub fn has_pair(clean: &[ParsedPairs], symbol: &str) -> (r: bool)
    ensures
        r == pair_symbols(clean@).contains(symbol@),
{
    let mut i: usize = 0;
    while i < clean.len()
        invariant
            i <= clean.len(),
            forall|j: int| 0 <= j < i ==> clean[j].symbol@ != symbol@,
        decreases clean.len() - i,
    {
        if same_text(clean[i].symbol.as_str(), symbol) {
            assert(pair_symbols(clean@)[i as int] == symbol@);
            return true;
        }
        i += 1;
    }
    false
}

} // verus!
