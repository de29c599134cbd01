//! The live price store: for every symbol the latest price and volume, as
//! the feed wrote them. The last write wins and nothing older is kept.
//!
//! The entries live in a `dashmap::DashMap`. To the contracts the store is a
//! map from a symbol's characters to the characters of its price and volume.
use vstd::prelude::*;
use dashmap::DashMap;
use std::collections::hash_map::RandomState;

verus! {

/// `dashmap::DashMap`, known to the contracts by its entries.
#[verifier::external_type_specification]
#[verifier::external_body]
#[verifier::reject_recursive_types(K)]
#[verifier::reject_recursive_types(V)]
#[verifier::reject_recursive_types(S)]
pub struct ExDashMap<K, V, S>(DashMap<K, V, S>);

/// What a price map holds: price and volume under each symbol.
pub uninterp spec fn price_entries(m: DashMap<String, (String, String), RandomState>) -> Map<
    Seq<char>,
    (Seq<char>, Seq<char>),
>;

/// The map that holds no price.
pub open spec fn no_prices() -> Map<Seq<char>, (Seq<char>, Seq<char>)> {
    Map::empty()
}

/// `DashMap::new`: a map without entries.
#[verifier::external_body]
fn prices_new() -> (m: DashMap<String, (String, String), RandomState>)
    ensures
        price_entries(m) == no_prices(),
{
    DashMap::new()
}

/// `DashMap::insert`: the entry under the key is set, every other entry
/// stays. The value that was there before is dropped.
#[verifier::external_body]
fn prices_insert(
    m: &mut DashMap<String, (String, String), RandomState>,
    symbol: String,
    price: String,
    volume: String,
)
    ensures
        price_entries(*final(m)) == price_entries(*old(m)).insert(symbol@, (price@, volume@)),
{
    m.insert(symbol, (price, volume));
}

/// Whether a map has finitely many entries, `n` of them.
pub open spec fn counts(entries: Map<Seq<char>, (Seq<char>, Seq<char>)>, n: usize) -> bool {
    entries.dom().finite() && entries.dom().len() == n
}

/// `DashMap::len`: the number of entries, of which there are finitely many.
#[verifier::external_body]
fn prices_len(m: &DashMap<String, (String, String), RandomState>) -> (n: usize)
    ensures
        counts(price_entries(*m), n),
{
    m.len()
}

/// `DashMap::get`: a copy of the entry under the key, where there is one.
#[verifier::external_body]
fn prices_get(m: &DashMap<String, (String, String), RandomState>, symbol: &str) -> (r: Option<
    (String, String),
>)
    ensures
        r is Some <==> price_entries(*m).contains_key(symbol@),
        r is Some ==> (r->Some_0.0@, r->Some_0.1@) == price_entries(*m)[symbol@],
{
    m.get(symbol).map(|entry| entry.value().clone())
}

/// The live price store.
pub struct DataStorage {
    map: DashMap<String, (String, String), RandomState>,
}

impl View for DataStorage {
    type V = Map<Seq<char>, (Seq<char>, Seq<char>)>;

    closed spec fn view(&self) -> Map<Seq<char>, (Seq<char>, Seq<char>)> {
        price_entries(self.map)
    }
}

impl DataStorage {
    /// A store that holds no price yet.
    pub fn new() -> (r: Self)
        ensures
            r@ == no_prices(),
    {
        DataStorage { map: prices_new() }
    }

    /// Writes the latest price and volume of `symbol`.
    pub fn insert(&mut self, symbol: String, price: String, volume: String)
        ensures
            final(self)@ == old(self)@.insert(symbol@, (price@, volume@)),
    {
        prices_insert(&mut self.map, symbol, price, volume);
    }

    /// The number of distinct symbols that have a price.
    pub fn count(&self) -> (n: usize)
        ensures
            self@.dom().finite(),
            n == self@.dom().len(),
    {
        prices_len(&self.map)
    }

    /// The latest price and volume of `symbol`, if the store has any.
    pub fn get(&self, symbol: &str) -> (r: Option<(String, String)>)
        ensures
            r is Some <==> self@.contains_key(symbol@),
            r is Some ==> (r->Some_0.0@, r->Some_0.1@) == self@[symbol@],
    {
        prices_get(&self.map, symbol)
    }
}

/// The entries of a store that holds a placeholder for each of the first
/// `upto` symbols: the symbol itself where the price belongs, and the word
/// `some_data` where the volume belongs.
pub open spec fn placeholders(pairs: Seq<Seq<char>>, upto: int) -> Map<Seq<char>, (Seq<char>, Seq<char>)>
    decreases upto,
{
    if upto <= 0 {
        no_prices()
    } else {
        placeholders(pairs, upto - 1).insert(pairs[upto - 1], (pairs[upto - 1], "some_data"@))
    }
}

/// A store with a placeholder entry for every symbol in `pairs`.
pub fn create_symbol_data_map(pairs: &Vec<String>) -> (r: DataStorage)
    ensures
        r@ == placeholders(pairs.deep_view(), pairs.len() as int),
{
    let mut store = DataStorage::new();
    let mut i: usize = 0;
    while i < pairs.len()
        invariant
            i <= pairs.len(),
            store@ == placeholders(pairs.deep_view(), i as int),
        decreases pairs.len() - i,
    {
        assert(pairs.deep_view()[i as int] == pairs[i as int]@);
        store.insert(pairs[i].clone(), pairs[i].clone(), String::from_str("some_data"));
        i += 1;
    }
    store
}

} // verus!
