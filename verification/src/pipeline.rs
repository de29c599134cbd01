//! The state one consumer drives, tick by tick: the price store, the reverse
//! index, the warm-up state, the rate and the candidate queue.
//!
//! While the warm-up is filling every tick is only stored. The warm-up turns
//! regular the first time the store holds as many symbols as required, and
//! from the next tick on every tick is stored and then evaluated.
use vstd::prelude::*;
use bigdecimal::BigDecimal;
use crate::decimal::{computable, decimal_repr, is_computable};
use crate::index::{build_immutable_storage, keys_of, legs_of, positions_naming, SymbolIndex};
use crate::reaction::{react_to_update, reported, CandidateQueue, EarnSortedData};
use crate::store::{no_prices, DataStorage};
use crate::text::has_text;
use crate::triangle::{TriangleElement, TriangleKey, TriangleKeyView};

verus! {

/// The warm-up state as the contracts see it.
pub struct GateView {
    pub regular: bool,
    pub required: nat,
}

/// The warm-up state after a tick that left `stored` symbols in the store.
pub open spec fn gate_step(gate: GateView, stored: nat) -> GateView {
    GateView { regular: gate.regular || stored >= gate.required, required: gate.required }
}

/// The warm-up state after a run of ticks, given the number of stored symbols that
/// each of them left.
pub open spec fn gate_after(gate: GateView, stored: Seq<nat>) -> GateView
    decreases stored.len(),
{
    if stored.len() == 0 {
        gate
    } else {
        gate_step(gate_after(gate, stored.drop_last()), stored.last())
    }
}

/// Once regular, always regular: no run of ticks brings the warm-up back to
/// filling.
pub proof fn lemma_regular_is_final(gate: GateView, stored: Seq<nat>)
    requires
        gate.regular,
    ensures
        gate_after(gate, stored).regular,
        gate_after(gate, stored).required == gate.required,
    decreases stored.len(),
{
    if stored.len() > 0 {
        lemma_regular_is_final(gate, stored.drop_last());
    }
}

/// A filling warm-up is regular after a run of ticks exactly where one of them
/// left the store with the required number of symbols.
pub proof fn lemma_gate_opens_when_filled(gate: GateView, stored: Seq<nat>)
    requires
        !gate.regular,
    ensures
        gate_after(gate, stored).required == gate.required,
        gate_after(gate, stored).regular <==> exists|i: int|
            0 <= i < stored.len() && #[trigger] stored[i] >= gate.required,
    decreases stored.len(),
{
    if stored.len() > 0 {
        let before = stored.drop_last();
        lemma_gate_opens_when_filled(gate, before);
        if gate_after(gate, before).regular {
            let i = choose|i: int| 0 <= i < before.len() && #[trigger] before[i] >= gate.required;
            assert(stored[i] == before[i]);
        } else if stored.last() >= gate.required {
            assert(stored[stored.len() - 1] >= gate.required);
        } else {
            assert forall|i: int| 0 <= i < stored.len() implies !(#[trigger] stored[i]
                >= gate.required) by {
                if i < before.len() {
                    assert(before[i] == stored[i]);
                }
            }
        }
    }
}

/// The warm-up state: filling at first, regular for good once the store is full.
pub struct WarmUpGate {
    regular: bool,
    required: usize,
}

impl View for WarmUpGate {
    type V = GateView;

    closed spec fn view(&self) -> GateView {
        GateView { regular: self.regular, required: self.required as nat }
    }
}

impl WarmUpGate {
    /// A filling warm-up that waits for `required` symbols.
    pub fn new(required: usize) -> (r: Self)
        ensures
            r@ == (GateView { regular: false, required: required as nat }),
    {
        WarmUpGate { regular: false, required }
    }

    /// Whether the warm-up is over.
    pub fn is_regular(&self) -> (r: bool)
        ensures
            r == self@.regular,
    {
        self.regular
    }

    /// The number of stored symbols at which the warm-up ends.
    pub fn required(&self) -> (r: usize)
        ensures
            r == self@.required,
    {
        self.required
    }

    /// Takes note of a tick that left `stored` symbols in the store, and
    /// says whether the tick is to be evaluated: it is where the warm-up was
    /// regular before.
    pub fn observe(&mut self, stored: usize) -> (evaluate: bool)
        ensures
            evaluate == old(self)@.regular,
            final(self)@ == gate_step(old(self)@, stored as nat),
    {
        if self.regular {
            true
        } else {
            if stored >= self.required {
                self.regular = true;
            }
            false
        }
    }
}

/// A rate that earn percentages can be held against.
pub struct Rate {
    value: BigDecimal,
}

impl View for Rate {
    type V = (int, int);

    closed spec fn view(&self) -> (int, int) {
        decimal_repr(self.value)
    }
}

impl Rate {
    #[verifier::type_invariant]
    spec fn in_range(self) -> bool {
        computable(decimal_repr(self.value))
    }

    /// The rate `value`, unless its scale is one the library does not
    /// compute with.
    pub fn new(value: BigDecimal) -> (r: Option<Self>)
        ensures
            r is Some <==> computable(decimal_repr(value)),
            r is Some ==> r->Some_0@ == decimal_repr(value),
    {
        if is_computable(&value) {
            Some(Rate { value })
        } else {
            None
        }
    }

    /// The rate as a decimal.
    pub fn value(&self) -> (r: &BigDecimal)
        ensures
            decimal_repr(*r) == self@,
            computable(self@),
    {
        proof {
            use_type_invariant(self);
        }
        &self.value
    }
}

/// What one consumer owns from start-up to shutdown.
pub struct Pipeline {
    pub prices: DataStorage,
    pub index: SymbolIndex,
    pub gate: WarmUpGate,
    pub rate: Rate,
    pub queue: CandidateQueue,
}

/// The reverse index over every symbol that some key names.
pub open spec fn full_index(keys: Seq<TriangleKeyView>) -> Map<Seq<char>, Seq<usize>> {
    Map::new(
        |s: Seq<char>| positions_naming(keys, s, keys.len() as int).len() > 0,
        |s: Seq<char>| positions_naming(keys, s, keys.len() as int),
    )
}

proof fn lemma_named_somewhere(keys: Seq<TriangleKeyView>, symbol: Seq<char>, upto: int)
    requires
        0 <= upto <= keys.len(),
        positions_naming(keys, symbol, upto).len() > 0,
    ensures
        exists|i: int| 0 <= i < upto && (#[trigger] keys[i]).names(symbol),
    decreases upto,
{
    if upto > 0 {
        if keys[upto - 1].names(symbol) {
        } else {
            lemma_named_somewhere(keys, symbol, upto - 1);
        }
    }
}

fn list_once(symbols: &mut Vec<String>, symbol: &String)
    requires
        old(symbols).deep_view().no_duplicates(),
    ensures
        final(symbols).deep_view().no_duplicates(),
        forall|s: Seq<char>| #[trigger]
            final(symbols).deep_view().contains(s) <==> (old(symbols).deep_view().contains(s) || s
                == symbol@),
{
    let ghost before = symbols.deep_view();
    if !has_text(symbols, symbol.as_str()) {
        symbols.push(symbol.clone());
        proof {
            let now = symbols.deep_view();
            assert(now =~= before.push(symbol@));
            assert forall|s: Seq<char>| #[trigger] now.contains(s) <==> (before.contains(s) || s == symbol@) by {
                if now.contains(s) {
                    let j = choose|j: int| 0 <= j < now.len() && now[j] == s;
                    if j < before.len() {
                        assert(before[j] == s);
                    }
                }
                if before.contains(s) {
                    let j = choose|j: int| 0 <= j < before.len() && before[j] == s;
                    assert(now[j] == s);
                }
                if s == symbol@ {
                    assert(now[before.len() as int] == s);
                }
            }
            assert forall|i: int, j: int| 0 <= i < now.len() && 0 <= j < now.len() && i != j implies now[i]
                != now[j] by {
                if i < before.len() && j < before.len() {
                    assert(now[i] == before[i] && now[j] == before[j]);
                } else if i < before.len() {
                    assert(now[i] == before[i]);
                } else {
                    assert(now[j] == before[j]);
                }
            }
        }
    }
}

/// The symbols that the keys name.
pub open spec fn named_by(keys: Seq<TriangleKeyView>) -> Set<Seq<char>> {
    Set::new(|s: Seq<char>| exists|i: int| 0 <= i < keys.len() && (#[trigger] keys[i]).names(s))
}

/// Every symbol that the keys of `triangles` name, each once.
fn named_symbols(triangles: &Vec<(TriangleKey, Vec<TriangleElement>)>) -> (symbols: Vec<String>)
    ensures
        symbols.deep_view().no_duplicates(),
        forall|s: Seq<char>| #[trigger]
            symbols.deep_view().contains(s) <==> exists|i: int|
                0 <= i < triangles.len() && (#[trigger] keys_of(triangles@)[i]).names(s),
{
    let ghost keys = keys_of(triangles@);
    let mut symbols: Vec<String> = Vec::new();
    let mut i: usize = 0;
    while i < triangles.len()
        invariant
            i <= triangles.len(),
            keys == keys_of(triangles@),
            symbols.deep_view().no_duplicates(),
            forall|s: Seq<char>| #[trigger]
                symbols.deep_view().contains(s) <==> exists|j: int|
                    0 <= j < i && (#[trigger] keys[j]).names(s),
        decreases triangles.len() - i,
    {
        let ghost first = symbols.deep_view();
        list_once(&mut symbols, &triangles[i].0.a);
        let ghost second = symbols.deep_view();
        list_once(&mut symbols, &triangles[i].0.b);
        let ghost third = symbols.deep_view();
        list_once(&mut symbols, &triangles[i].0.c);
        proof {
            let now = symbols.deep_view();
            assert forall|s: Seq<char>| #[trigger] now.contains(s) <==> exists|j: int|
                0 <= j < i + 1 && (#[trigger] keys[j]).names(s) by {
                assert(now.contains(s) <==> (third.contains(s) || s == triangles[i as int].0.c@));
                assert(third.contains(s) <==> (second.contains(s) || s == triangles[i as int].0.b@));
                assert(second.contains(s) <==> (first.contains(s) || s == triangles[i as int].0.a@));
                assert(keys[i as int].names(s) <==> (s == triangles[i as int].0.a@ || s
                    == triangles[i as int].0.b@ || s == triangles[i as int].0.c@));
                if first.contains(s) {
                    let j = choose|j: int| 0 <= j < i && (#[trigger] keys[j]).names(s);
                    assert(keys[j].names(s));
                }
                if exists|j: int| 0 <= j < i + 1 && (#[trigger] keys[j]).names(s) {
                    let j = choose|j: int| 0 <= j < i + 1 && (#[trigger] keys[j]).names(s);
                    if j < i {
                        assert(first.contains(s));
                    }
                }
            }
        }
        i += 1;
    }
    symbols
}

/// The number of distinct symbols that the keys of `triangles` name: the
/// number of symbols the store has to hold before the warm-up is over.
pub fn count_symbols(triangles: &Vec<(TriangleKey, Vec<TriangleElement>)>) -> (n: usize)
    ensures
        named_by(keys_of(triangles@)).finite(),
        n == named_by(keys_of(triangles@)).len(),
{
    let symbols = named_symbols(triangles);
    proof {
        let listed = symbols.deep_view();
        listed.unique_seq_to_set();
        assert(listed.to_set() =~= named_by(keys_of(triangles@)));
    }
    symbols.len()
}

/// Sets the pipeline up: an empty price store, the reverse index of
/// `triangles` over every symbol their keys name, a filling warm-up that waits
/// for `count` symbols, the rate, and no candidate.
pub fn initialize_observers(
    count: usize,
    triangles: &Vec<(TriangleKey, Vec<TriangleElement>)>,
    rate: Rate,
) -> (r: Pipeline)
    ensures
        r.prices@ == no_prices(),
        r.gate@ == (GateView { regular: false, required: count as nat }),
        r.rate == rate,
        r.queue@.len() == 0,
        keys_of(r.index.triangles()) == keys_of(triangles@),
        legs_of(r.index.triangles()) == legs_of(triangles@),
        r.index.positions() == full_index(keys_of(triangles@)),
{
    let symbols = named_symbols(triangles);
    let index = build_immutable_storage(triangles, &symbols);
    proof {
        let keys = keys_of(triangles@);
        assert forall|s: Seq<char>| positions_naming(keys, s, keys.len() as int).len() > 0 implies symbols.deep_view().contains(
            s,
        ) by {
            lemma_named_somewhere(keys, s, keys.len() as int);
        }
        assert(index.positions() =~= full_index(keys));
    }
    Pipeline {
        prices: DataStorage::new(),
        index,
        gate: WarmUpGate::new(count),
        rate,
        queue: CandidateQueue::new(),
    }
}

impl Pipeline {
    /// Takes one tick.
    ///
    /// The price and volume are written to the store, whatever the warm-up
    /// says. A tick that finds the warm-up filling is not evaluated and reports
    /// nothing; it turns the warm-up regular where the store now holds the
    /// required number of symbols. A tick that finds the warm-up regular is
    /// evaluated against the store as it stands after the write, and the
    /// warm-up stays regular.
    pub fn on_tick(&mut self, symbol: String, price: String, volume: String) -> (r: Option<
        EarnSortedData,
    >)
        ensures
            final(self).prices@ == old(self).prices@.insert(symbol@, (price@, volume@)),
            final(self).index == old(self).index,
            final(self).rate == old(self).rate,
            final(self).gate@ == gate_step(old(self).gate@, final(self).prices@.dom().len()),
            old(self).gate@.regular ==> final(self).gate@.regular,
            !old(self).gate@.regular ==> r is None,
            old(self).gate@.regular ==> reported(
                r,
                symbol@,
                old(self).rate@,
                &old(self).index,
                final(self).prices@,
            ),
            old(self).gate@.regular ==> final(self).queue@.len() == 0,
            !old(self).gate@.regular ==> final(self).queue == old(self).queue,
    {
        let updated = symbol.clone();
        self.prices.insert(symbol, price, volume);
        let stored = self.prices.count();
        if self.gate.observe(stored) {
            react_to_update(&updated, self.rate.value(), &self.index, &self.prices, &mut self.queue)
        } else {
            None
        }
    }
}

} // verus!
