//! The symbol reverse index: for every pair symbol, the triangles that name
//! it. It is built once from the assembled triangles and only read after.
//!
//! The triangles stay in one list, in the order they were given. Under each
//! symbol a `dashmap::DashMap` holds the positions, in that list, of the
//! triangles whose key names the symbol.
use vstd::prelude::*;
use dashmap::DashMap;
use std::collections::hash_map::RandomState;
use crate::triangle::{TriangleElement, TriangleKey, TriangleKeyView};

verus! {

/// What a position map holds: under each symbol a list of positions.
pub uninterp spec fn position_entries(m: DashMap<String, Vec<usize>, RandomState>) -> Map<
    Seq<char>,
    Seq<usize>,
>;

/// The map that holds no positions.
pub open spec fn no_positions() -> Map<Seq<char>, Seq<usize>> {
    Map::empty()
}

/// `DashMap::new`: a map without entries.
#[verifier::external_body]
fn positions_new() -> (m: DashMap<String, Vec<usize>, RandomState>)
    ensures
        position_entries(m) == no_positions(),
{
    DashMap::new()
}

/// `DashMap::insert`: the entry under the key is set, every other entry
/// stays. The value that was there before is dropped.
#[verifier::external_body]
fn positions_insert(
    m: &mut DashMap<String, Vec<usize>, RandomState>,
    symbol: String,
    positions: Vec<usize>,
)
    ensures
        position_entries(*final(m)) == position_entries(*old(m)).insert(symbol@, positions@),
{
    m.insert(symbol, positions);
}

/// `DashMap::get`: a copy of the entry under the key, where there is one.
#[verifier::external_body]
fn positions_get(m: &DashMap<String, Vec<usize>, RandomState>, symbol: &str) -> (r: Option<
    Vec<usize>,
>)
    ensures
        r is Some <==> position_entries(*m).contains_key(symbol@),
        r is Some ==> r->Some_0@ == position_entries(*m)[symbol@],
{
    m.get(symbol).map(|entry| entry.value().clone())
}

/// The keys of a list of triangles, in list order.
pub open spec fn keys_of(triangles: Seq<(TriangleKey, Vec<TriangleElement>)>) -> Seq<
    TriangleKeyView,
> {
    Seq::new(triangles.len(), |i: int| triangles[i].0@)
}

/// The positions below `upto`, in rising order, of the keys that name
/// `symbol`.
pub open spec fn positions_naming(keys: Seq<TriangleKeyView>, symbol: Seq<char>, upto: int) -> Seq<
    usize,
>
    decreases upto,
{
    if upto <= 0 {
        Seq::empty()
    } else {
        let before = positions_naming(keys, symbol, upto - 1);
        if keys[upto - 1].names(symbol) {
            before.push((upto - 1) as usize)
        } else {
            before
        }
    }
}

/// The reverse index of `keys` over `symbols`: every listed symbol that some
/// key names, with the positions of all keys that name it.
pub open spec fn reverse_index(keys: Seq<TriangleKeyView>, symbols: Seq<Seq<char>>) -> Map<
    Seq<char>,
    Seq<usize>,
> {
    Map::new(
        |s: Seq<char>| symbols.contains(s) && positions_naming(keys, s, keys.len() as int).len() > 0,
        |s: Seq<char>| positions_naming(keys, s, keys.len() as int),
    )
}

/// Every position listed is one of a key that names the symbol.
pub proof fn lemma_positions_name_the_symbol(keys: Seq<TriangleKeyView>, symbol: Seq<char>, upto: int)
    requires
        0 <= upto <= keys.len() <= usize::MAX,
    ensures
        forall|j: int|
            0 <= j < positions_naming(keys, symbol, upto).len() ==> {
                &&& (#[trigger] positions_naming(keys, symbol, upto)[j]) < upto
                &&& keys[positions_naming(keys, symbol, upto)[j] as int].names(symbol)
            },
    decreases upto,
{
    if upto > 0 {
        lemma_positions_name_the_symbol(keys, symbol, upto - 1);
        let before = positions_naming(keys, symbol, upto - 1);
        let now = positions_naming(keys, symbol, upto);
        assert forall|j: int| 0 <= j < now.len() implies (#[trigger] now[j]) < upto && keys[now[j] as int].names(
            symbol,
        ) by {
            if j < before.len() {
                assert(now[j] == before[j]);
            }
        }
    }
}

/// The symbol reverse index.
pub struct SymbolIndex {
    triangles: Vec<(TriangleKey, Vec<TriangleElement>)>,
    by_symbol: DashMap<String, Vec<usize>, RandomState>,
}

impl SymbolIndex {
    #[verifier::type_invariant]
    spec fn positions_are_valid(self) -> bool {
        forall|s: Seq<char>, j: int|
            #![trigger position_entries(self.by_symbol)[s][j]]
            position_entries(self.by_symbol).contains_key(s) && 0 <= j < position_entries(
                self.by_symbol,
            )[s].len() ==> position_entries(self.by_symbol)[s][j] < self.triangles.len()
    }

    /// The triangles the index was built from, in their order.
    pub closed spec fn triangles(&self) -> Seq<(TriangleKey, Vec<TriangleElement>)> {
        self.triangles@
    }

    /// Under each symbol, the positions of the triangles that name it.
    pub closed spec fn positions(&self) -> Map<Seq<char>, Seq<usize>> {
        position_entries(self.by_symbol)
    }

    /// The positions of the triangles that name `symbol`, if there are any.
    pub fn lookup(&self, symbol: &str) -> (r: Option<Vec<usize>>)
        ensures
            r is Some <==> self.positions().contains_key(symbol@),
            r is Some ==> r->Some_0@ == self.positions()[symbol@],
            r is Some ==> forall|j: int|
                0 <= j < r->Some_0.len() ==> (#[trigger] r->Some_0[j]) < self.triangles().len(),
    {
        proof {
            use_type_invariant(self);
        }
        let r = positions_get(&self.by_symbol, symbol);
        proof {
            if r is Some {
                assert forall|j: int| 0 <= j < r->Some_0.len() implies (#[trigger] r->Some_0[j])
                    < self.triangles().len() by {
                    assert(r->Some_0[j] == position_entries(self.by_symbol)[symbol@][j]);
                }
            }
        }
        r
    }

    /// The triangle at `position`.
    pub fn triangle(&self, position: usize) -> (r: &(TriangleKey, Vec<TriangleElement>))
        requires
            position < self.triangles().len(),
        ensures
            *r == self.triangles()[position as int],
    {
        &self.triangles[position]
    }

    /// The number of triangles in the index.
    pub fn len(&self) -> (n: usize)
        ensures
            n == self.triangles().len(),
    {
        self.triangles.len()
    }
}

fn copy_legs(legs: &Vec<TriangleElement>) -> (r: Vec<TriangleElement>)
    ensures
        r.deep_view() == legs.deep_view(),
{
    let mut out: Vec<TriangleElement> = Vec::new();
    let mut i: usize = 0;
    while i < legs.len()
        invariant
            i <= legs.len(),
            out.len() == i,
            forall|j: int| 0 <= j < i ==> out[j].0@ == legs[j].0@ && out[j].1@ == legs[j].1@,
        decreases legs.len() - i,
    {
        out.push((legs[i].0.clone(), legs[i].1.clone()));
        i += 1;
    }
    assert(out.deep_view() =~= legs.deep_view());
    out
}

/// The views of the legs of every triangle, in list order.
pub open spec fn legs_of(triangles: Seq<(TriangleKey, Vec<TriangleElement>)>) -> Seq<
    Seq<(Seq<char>, Seq<char>)>,
> {
    Seq::new(triangles.len(), |i: int| triangles[i].1.deep_view())
}

fn copy_triangles(triangles: &Vec<(TriangleKey, Vec<TriangleElement>)>) -> (r: Vec<
    (TriangleKey, Vec<TriangleElement>),
>)
    ensures
        keys_of(r@) == keys_of(triangles@),
        legs_of(r@) == legs_of(triangles@),
        r.len() == triangles.len(),
{
    let mut out: Vec<(TriangleKey, Vec<TriangleElement>)> = Vec::new();
    let mut i: usize = 0;
    while i < triangles.len()
        invariant
            i <= triangles.len(),
            out.len() == i,
            forall|j: int|
                0 <= j < i ==> out[j].0@ == triangles[j].0@ && out[j].1.deep_view()
                    == triangles[j].1.deep_view(),
        decreases triangles.len() - i,
    {
        out.push((triangles[i].0.clone(), copy_legs(&triangles[i].1)));
        i += 1;
    }
    assert(keys_of(out@) =~= keys_of(triangles@));
    assert(legs_of(out@) =~= legs_of(triangles@));
    out
}

fn positions_of(triangles: &Vec<(TriangleKey, Vec<TriangleElement>)>, symbol: &String) -> (r: Vec<
    usize,
>)
    ensures
        r@ == positions_naming(keys_of(triangles@), symbol@, triangles.len() as int),
{
    let ghost keys = keys_of(triangles@);
    let mut out: Vec<usize> = Vec::new();
    let mut i: usize = 0;
    while i < triangles.len()
        invariant
            i <= triangles.len(),
            keys == keys_of(triangles@),
            out@ == positions_naming(keys, symbol@, i as int),
        decreases triangles.len() - i,
    {
        if triangles[i].0.names(symbol) {
            out.push(i);
        }
        i += 1;
    }
    out
}

/// Builds the reverse index of `triangles` over the symbols in
/// `unique_values`: a symbol gets an entry exactly where it is listed and
/// some triangle's key names it, and the entry lists every such triangle.
pub fn build_immutable_storage(
    triangles: &Vec<(TriangleKey, Vec<TriangleElement>)>,
    unique_values: &Vec<String>,
) -> (index: SymbolIndex)
    ensures
        keys_of(index.triangles()) == keys_of(triangles@),
        legs_of(index.triangles()) == legs_of(triangles@),
        index.positions() == reverse_index(keys_of(triangles@), unique_values.deep_view()),
{
    let ghost keys = keys_of(triangles@);
    let ghost symbols = unique_values.deep_view();
    let kept = copy_triangles(triangles);
    let mut by_symbol = positions_new();
    let mut i: usize = 0;
    assert(position_entries(by_symbol) =~= reverse_index(keys, symbols.take(0)));
    while i < unique_values.len()
        invariant
            i <= unique_values.len(),
            keys == keys_of(triangles@),
            keys.len() == triangles.len(),
            symbols == unique_values.deep_view(),
            position_entries(by_symbol) == reverse_index(keys, symbols.take(i as int)),
        decreases unique_values.len() - i,
    {
        let matching = positions_of(triangles, &unique_values[i]);
        let ghost before = position_entries(by_symbol);
        if matching.len() > 0 {
            positions_insert(&mut by_symbol, unique_values[i].clone(), matching);
        }
        proof {
            let now = symbols.take(i + 1);
            let was = symbols.take(i as int);
            assert(now == was.push(symbols[i as int]));
            assert forall|s: Seq<char>| now.contains(s) <==> (was.contains(s) || s == symbols[i as int]) by {
                if now.contains(s) {
                    let j = choose|j: int| 0 <= j < now.len() && now[j] == s;
                    if j < i {
                        assert(was[j] == s);
                    }
                }
                if was.contains(s) {
                    let j = choose|j: int| 0 <= j < was.len() && was[j] == s;
                    assert(now[j] == s);
                }
                if s == symbols[i as int] {
                    assert(now[i as int] == s);
                }
            }
            assert(position_entries(by_symbol) =~= reverse_index(keys, now));
        }
        i += 1;
    }
    assert(symbols.take(i as int) == symbols);
    proof {
        assert forall|s: Seq<char>, j: int|
            #![trigger position_entries(by_symbol)[s][j]]
            position_entries(by_symbol).contains_key(s) && 0 <= j < position_entries(by_symbol)[s].len()
            implies position_entries(by_symbol)[s][j] < kept.len() by {
            lemma_positions_name_the_symbol(keys, s, keys.len() as int);
        }
    }
    SymbolIndex { triangles: kept, by_symbol }
}

} // verus!
