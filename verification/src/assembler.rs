//! Turning an unordered triangle into an ordered trade sequence.
//!
//! A triangle is three pair symbols. Starting from a base currency, each step
//! picks the pair that the currency now held can be traded through, records
//! the leg, moves the holdings to the other currency of that pair, and works
//! out whether the next leg buys or sells.
//!
//! A pair's symbol is the alt currency followed by the base currency. Selling
//! the currency held goes through a pair that begins with it; buying with the
//! currency held goes through a pair that ends with it.
use vstd::prelude::*;
use crate::currency::{base_symbols, BaseCurrency};
use crate::text::{ends_with, same_text, slice_of, starts_with};
use crate::triangle::{TriangleElement, TriangleKey, TriangleKeyView};

verus! {

/// Which end of a pair symbol a currency is looked for at.
#[derive(Clone, Copy, Debug, PartialEq, Eq, Structural)]
pub enum Side {
    Front,
    Back,
    Either,
}

/// Whether `currency` stands at the given end of `pair`.
pub open spec fn fits(currency: Seq<char>, pair: Seq<char>, side: Side) -> bool {
    match side {
        Side::Front => currency.is_prefix_of(pair),
        Side::Back => currency.is_suffix_of(pair),
        Side::Either => currency.is_prefix_of(pair) || currency.is_suffix_of(pair),
    }
}

/// The index of the first pair at or after `from` that `currency` fits, or
/// the number of pairs where it fits none.
pub open spec fn first_fit(pairs: Seq<Seq<char>>, currency: Seq<char>, side: Side, from: int) -> int
    decreases pairs.len() - from,
{
    if from < 0 || from >= pairs.len() {
        pairs.len() as int
    } else if fits(currency, pairs[from], side) {
        from
    } else {
        first_fit(pairs, currency, side, from + 1)
    }
}

/// The end of a pair at which a leg of the given direction finds the
/// currency held. A direction that is neither `"SELL"` nor `"BUY"` has none.
pub open spec fn leg_side(direction: Seq<char>) -> Option<Side> {
    if direction == "SELL"@ {
        Some(Side::Front)
    } else if direction == "BUY"@ {
        Some(Side::Back)
    } else {
        None
    }
}

/// The first base currency at or after `from`, in list order, with a
/// symbol that is not empty and fits some pair; the empty symbol if there is
/// none.
pub open spec fn anchor_from(
    bases: Seq<Seq<char>>,
    pairs: Seq<Seq<char>>,
    side: Side,
    from: int,
) -> Seq<char>
    decreases bases.len() - from,
{
    if from < 0 || from >= bases.len() {
        Seq::empty()
    } else if bases[from].len() > 0 && first_fit(pairs, bases[from], side, 0) < pairs.len() {
        bases[from]
    } else {
        anchor_from(bases, pairs, side, from + 1)
    }
}

/// The currency an assembly starts from when none is given.
pub open spec fn anchor(bases: Seq<Seq<char>>, pairs: Seq<Seq<char>>, direction: Seq<char>) -> Seq<
    char,
> {
    match leg_side(direction) {
        Some(side) => anchor_from(bases, pairs, side, 0),
        None => Seq::empty(),
    }
}

/// The index of the pair the next leg goes through, or the number of pairs
/// where the assembly has reached a dead end.
pub open spec fn leg_index(pairs: Seq<Seq<char>>, currency: Seq<char>, direction: Seq<char>) -> int {
    match leg_side(direction) {
        Some(side) => first_fit(pairs, currency, side, 0),
        None => pairs.len() as int,
    }
}

/// The other currency of `pair`: what is left of the symbol once `currency`
/// is taken from its end or, failing that, from its start.
pub open spec fn pivot(currency: Seq<char>, pair: Seq<char>) -> Seq<char> {
    if currency.is_suffix_of(pair) {
        pair.subrange(0, pair.len() - currency.len())
    } else if currency.is_prefix_of(pair) {
        pair.subrange(currency.len() as int, pair.len() as int)
    } else {
        currency
    }
}

/// The direction of the leg after this one. The first remaining pair that
/// holds `currency` at either end decides: at its start the currency is
/// sold, at its end it is what the next leg buys with. Where no pair holds
/// it the direction stays.
pub open spec fn flip(rest: Seq<Seq<char>>, currency: Seq<char>, direction: Seq<char>) -> Seq<char> {
    let k = first_fit(rest, currency, Side::Either, 0);
    if k >= rest.len() {
        direction
    } else if currency.is_prefix_of(rest[k]) {
        "SELL"@
    } else {
        "BUY"@
    }
}

/// The trade sequence assembled from `pairs`, and the currency held at its
/// end. `accumulator` holds the legs already recorded.
pub open spec fn assemble(
    pairs: Seq<Seq<char>>,
    bases: Seq<Seq<char>>,
    current: Seq<char>,
    direction: Seq<char>,
    accumulator: Seq<(Seq<char>, Seq<char>)>,
) -> (Seq<(Seq<char>, Seq<char>)>, Seq<char>)
    decreases pairs.len(),
{
    if pairs.len() == 0 {
        (accumulator, current)
    } else {
        let held = if current.len() == 0 {
            anchor(bases, pairs, direction)
        } else {
            current
        };
        let k = leg_index(pairs, held, direction);
        if 0 <= k < pairs.len() {
            let next = pivot(held, pairs[k]);
            let rest = pairs.remove(k);
            assemble(
                rest,
                bases,
                next,
                flip(rest, next, direction),
                accumulator.push((pairs[k], direction)),
            )
        } else {
            (accumulator, held)
        }
    }
}

/// The pair symbols of a trade sequence, leg by leg.
pub open spec fn leg_pairs(legs: Seq<(Seq<char>, Seq<char>)>) -> Seq<Seq<char>> {
    Seq::new(legs.len(), |i: int| legs[i].0)
}

/// The legs already recorded stay in front, untouched, and have no say in
/// what is assembled behind them.
pub proof fn lemma_accumulator_is_kept(
    pairs: Seq<Seq<char>>,
    bases: Seq<Seq<char>>,
    current: Seq<char>,
    direction: Seq<char>,
    accumulator: Seq<(Seq<char>, Seq<char>)>,
)
    ensures
        assemble(pairs, bases, current, direction, accumulator).0 == accumulator + assemble(
            pairs,
            bases,
            current,
            direction,
            Seq::empty(),
        ).0,
        assemble(pairs, bases, current, direction, accumulator).1 == assemble(
            pairs,
            bases,
            current,
            direction,
            Seq::empty(),
        ).1,
    decreases pairs.len(),
{
    let none = Seq::<(Seq<char>, Seq<char>)>::empty();
    if pairs.len() == 0 {
        assert(accumulator + none =~= accumulator);
    } else {
        let held = if current.len() == 0 {
            anchor(bases, pairs, direction)
        } else {
            current
        };
        let k = leg_index(pairs, held, direction);
        if 0 <= k < pairs.len() {
            let next = pivot(held, pairs[k]);
            let rest = pairs.remove(k);
            let turned = flip(rest, next, direction);
            let leg = (pairs[k], direction);
            lemma_accumulator_is_kept(rest, bases, next, turned, accumulator.push(leg));
            lemma_accumulator_is_kept(rest, bases, next, turned, none.push(leg));
            let tail = assemble(rest, bases, next, turned, none).0;
            assert(accumulator.push(leg) + tail =~= accumulator + (none.push(leg) + tail));
        } else {
            assert(accumulator + none =~= accumulator);
        }
    }
}

/// No pair carries more legs than the triangle holds copies of it, and an
/// assembly that has as many legs as the triangle has pairs uses every pair:
/// a complete assembly of three distinct pairs goes through each of them
/// exactly once.
pub proof fn lemma_each_pair_at_most_once(
    pairs: Seq<Seq<char>>,
    bases: Seq<Seq<char>>,
    current: Seq<char>,
    direction: Seq<char>,
)
    ensures
        ({
            let used = leg_pairs(assemble(pairs, bases, current, direction, Seq::empty()).0);
            &&& used.len() <= pairs.len()
            &&& used.to_multiset().subset_of(pairs.to_multiset())
            &&& used.len() == pairs.len() ==> used.to_multiset() == pairs.to_multiset()
            &&& used.len() == pairs.len() && pairs.no_duplicates() ==> forall|i: int|
                0 <= i < pairs.len() ==> used.to_multiset().count(#[trigger] pairs[i]) == 1
        }),
    decreases pairs.len(),
{
    broadcast use {vstd::seq_lib::group_to_multiset_ensures, vstd::multiset::group_multiset_axioms};

    let none = Seq::<(Seq<char>, Seq<char>)>::empty();
    let used = leg_pairs(assemble(pairs, bases, current, direction, none).0);
    if pairs.len() == 0 {
        assert(used =~= pairs);
    } else {
        let held = if current.len() == 0 {
            anchor(bases, pairs, direction)
        } else {
            current
        };
        let k = leg_index(pairs, held, direction);
        if 0 <= k < pairs.len() {
            let next = pivot(held, pairs[k]);
            let rest = pairs.remove(k);
            let turned = flip(rest, next, direction);
            let leg = (pairs[k], direction);
            lemma_accumulator_is_kept(rest, bases, next, turned, none.push(leg));
            lemma_each_pair_at_most_once(rest, bases, next, turned);
            let tail = leg_pairs(assemble(rest, bases, next, turned, none).0);
            assert(used =~= tail.insert(0, pairs[k]));
            vstd::seq_lib::to_multiset_insert(tail, 0, pairs[k]);
            vstd::seq_lib::to_multiset_remove(pairs, k);
            assert(pairs.to_multiset().count(pairs[k]) > 0);
            assert(used.to_multiset().subset_of(pairs.to_multiset()));
            if used.len() == pairs.len() {
                assert(used.to_multiset() =~= pairs.to_multiset());
            }
        } else {
            assert(used =~= Seq::<Seq<char>>::empty());
        }
    }
    if used.len() == pairs.len() && pairs.no_duplicates() {
        pairs.lemma_multiset_has_no_duplicates();
    }
}


fn fits_at(currency: &str, pair: &str, side: Side) -> (r: bool)
    ensures
        r == fits(currency@, pair@, side),
{
    match side {
        Side::Front => starts_with(pair, currency),
        Side::Back => ends_with(pair, currency),
        Side::Either => starts_with(pair, currency) || ends_with(pair, currency),
    }
}

fn find_fit(pairs: &Vec<String>, currency: &str, side: Side) -> (k: usize)
    ensures
        k == first_fit(pairs.deep_view(), currency@, side, 0),
        k <= pairs.len(),
        k < pairs.len() ==> fits(currency@, pairs[k as int]@, side),
{
    let ghost views = pairs.deep_view();
    let mut i: usize = 0;
    while i < pairs.len()
        invariant
            i <= pairs.len(),
            views == pairs.deep_view(),
            first_fit(views, currency@, side, 0) == first_fit(views, currency@, side, i as int),
        decreases pairs.len() - i,
    {
        if fits_at(currency, pairs[i].as_str(), side) {
            return i;
        }
        i += 1;
    }
    i
}

fn find_anchor(base: &Vec<BaseCurrency>, pairs: &Vec<String>, side: Side) -> (r: String)
    ensures
        r@ == anchor_from(base_symbols(base@), pairs.deep_view(), side, 0),
{
    let ghost bases = base_symbols(base@);
    let mut i: usize = 0;
    while i < base.len()
        invariant
            i <= base.len(),
            bases == base_symbols(base@),
            anchor_from(bases, pairs.deep_view(), side, 0) == anchor_from(
                bases,
                pairs.deep_view(),
                side,
                i as int,
            ),
        decreases base.len() - i,
    {
        let symbol = base[i].symbol.as_str();
        if symbol.unicode_len() > 0 && find_fit(pairs, symbol, side) < pairs.len() {
            return base[i].symbol.clone();
        }
        i += 1;
    }
    String::new()
}

fn without(pairs: &Vec<String>, k: usize) -> (rest: Vec<String>)
    requires
        k < pairs.len(),
    ensures
        rest.deep_view() == pairs.deep_view().remove(k as int),
{
    let mut rest: Vec<String> = Vec::new();
    let mut i: usize = 0;
    while i < pairs.len()
        invariant
            i <= pairs.len(),
            k < pairs.len(),
            rest.len() == if i <= k { i as int } else { i - 1 },
            forall|j: int| 0 <= j < rest.len() ==> rest[j]@ == (if j < k { pairs[j]@ } else { pairs[j + 1]@ }),
        decreases pairs.len() - i,
    {
        if i != k {
            rest.push(pairs[i].clone());
        }
        i += 1;
    }
    assert(rest.deep_view() =~= pairs.deep_view().remove(k as int));
    rest
}

fn pivot_of(currency: &str, pair: &str) -> (r: String)
    ensures
        r@ == pivot(currency@, pair@),
{
    let n = pair.unicode_len();
    let m = currency.unicode_len();
    if ends_with(pair, currency) {
        slice_of(pair, 0, n - m)
    } else if starts_with(pair, currency) {
        slice_of(pair, m, n)
    } else {
        String::from_str(currency)
    }
}

fn flip_of(rest: &Vec<String>, currency: &str, direction: String) -> (r: String)
    ensures
        r@ == flip(rest.deep_view(), currency@, direction@),
{
    let k = find_fit(rest, currency, Side::Either);
    if k >= rest.len() {
        direction
    } else if starts_with(rest[k].as_str(), currency) {
        String::from_str("SELL")
    } else {
        String::from_str("BUY")
    }
}

fn side_of(direction: &str) -> (r: Option<Side>)
    ensures
        r == leg_side(direction@),
{
    if same_text(direction, "SELL") {
        Some(Side::Front)
    } else if same_text(direction, "BUY") {
        Some(Side::Back)
    } else {
        None
    }
}

/// Assembles the pairs in `cycles` into a trade sequence, leg by leg, and
/// returns it with the currency held at its end.
///
/// With `current` empty the assembly starts from the first base currency, in
/// list order, that fits some pair: at its start for `"SELL"`, at its end
/// for `"BUY"`. Every leg found is appended to `accumulator`. Where no
/// remaining pair can carry the next leg the assembly stops with the legs
/// found so far.
///
/// The result is a function of the arguments alone: the same pairs, base
/// list, currency and direction give the same sequence and the same final
/// currency.
pub fn create_triangles(
    cycles: &Vec<String>,
    base: &Vec<BaseCurrency>,
    current: String,
    direction: String,
    accumulator: Vec<TriangleElement>,
) -> (r: (Vec<TriangleElement>, String))
    ensures
        (r.0.deep_view(), r.1@) == assemble(
            cycles.deep_view(),
            base_symbols(base@),
            current@,
            direction@,
            accumulator.deep_view(),
        ),
    decreases cycles.len(),
{
    if cycles.len() == 0 {
        return (accumulator, current);
    }
    let side = side_of(direction.as_str());
    let held = if current.as_str().unicode_len() == 0 {
        match side {
            Some(s) => find_anchor(base, cycles, s),
            None => String::new(),
        }
    } else {
        current
    };
    let k = match side {
        Some(s) => find_fit(cycles, held.as_str(), s),
        None => cycles.len(),
    };
    if k >= cycles.len() {
        return (accumulator, held);
    }
    let rest = without(cycles, k);
    let next = pivot_of(held.as_str(), cycles[k].as_str());
    let mut legs = accumulator;
    let ghost before = legs.deep_view();
    legs.push((cycles[k].clone(), direction.clone()));
    assert(legs.deep_view() =~= before.push((cycles[k as int]@, direction@)));
    let turned = flip_of(&rest, next.as_str(), direction);
    create_triangles(&rest, base, next, turned, legs)
}

/// The assembly of a triangle from nothing in one direction, where it is
/// complete: the triangle has three pairs and each of them has become a
/// leg. Its key holds the three pairs as they were given and the direction
/// the assembly began with.
pub open spec fn complete_assembly(pairs: Seq<Seq<char>>, bases: Seq<Seq<char>>, direction: Seq<char>) -> Option<
    (TriangleKeyView, Seq<(Seq<char>, Seq<char>)>),
> {
    let legs = assemble(pairs, bases, Seq::empty(), direction, Seq::empty()).0;
    if pairs.len() == 3 && legs.len() == 3 {
        Some((TriangleKeyView { a: pairs[0], b: pairs[1], c: pairs[2], d: direction }, legs))
    } else {
        None
    }
}

/// The assemblies found with the one of `pairs` in `direction` behind
/// them, where that is complete.
pub open spec fn with_assembly(
    found: Seq<(TriangleKeyView, Seq<(Seq<char>, Seq<char>)>)>,
    pairs: Seq<Seq<char>>,
    bases: Seq<Seq<char>>,
    direction: Seq<char>,
) -> Seq<(TriangleKeyView, Seq<(Seq<char>, Seq<char>)>)> {
    match complete_assembly(pairs, bases, direction) {
        Some(one) => found.push(one),
        None => found,
    }
}

/// The complete assemblies of the first `upto` triangles: triangle by
/// triangle, first the one that begins with a purchase, then the one that
/// begins with a sale.
pub open spec fn assembled(triangles: Seq<Seq<Seq<char>>>, bases: Seq<Seq<char>>, upto: int) -> Seq<
    (TriangleKeyView, Seq<(Seq<char>, Seq<char>)>),
>
    decreases upto,
{
    if upto <= 0 {
        Seq::empty()
    } else {
        let before = assembled(triangles, bases, upto - 1);
        let bought = with_assembly(before, triangles[upto - 1], bases, "BUY"@);
        with_assembly(bought, triangles[upto - 1], bases, "SELL"@)
    }
}

/// Keys and legs of a list of triangles, as the contracts see them.
pub open spec fn views_of(triangles: Seq<(TriangleKey, Vec<TriangleElement>)>) -> Seq<
    (TriangleKeyView, Seq<(Seq<char>, Seq<char>)>),
> {
    Seq::new(triangles.len(), |i: int| (triangles[i].0@, triangles[i].1.deep_view()))
}

fn assemble_one(
    found: &mut Vec<(TriangleKey, Vec<TriangleElement>)>,
    pairs: &Vec<String>,
    base: &Vec<BaseCurrency>,
    direction: &str,
)
    ensures
        views_of(final(found)@) == with_assembly(
            views_of(old(found)@),
            pairs.deep_view(),
            base_symbols(base@),
            direction@,
        ),
{
    let ghost before = views_of(found@);
    let none: Vec<TriangleElement> = Vec::new();
    assert(none.deep_view() =~= Seq::<(Seq<char>, Seq<char>)>::empty());
    let done = create_triangles(pairs, base, String::new(), String::from_str(direction), none);
    if pairs.len() == 3 && done.0.len() == 3 {
        let key = TriangleKey {
            a: pairs[0].clone(),
            b: pairs[1].clone(),
            c: pairs[2].clone(),
            d: String::from_str(direction),
        };
        assert(pairs.deep_view()[0] == pairs[0]@ && pairs.deep_view()[1] == pairs[1]@
            && pairs.deep_view()[2] == pairs[2]@);
        let ghost one = (key@, done.0.deep_view());
        found.push((key, done.0));
        assert(views_of(found@) =~= before.push(one));
    }
}

/// Assembles every triangle from either direction and keeps the assemblies
/// that are complete, each under its key: the three pairs of the triangle
/// and the direction of the first leg.
pub fn assemble_triangles(triangles: &Vec<Vec<String>>, base: &Vec<BaseCurrency>) -> (r: Vec<
    (TriangleKey, Vec<TriangleElement>),
>)
    ensures
        views_of(r@) == assembled(triangles.deep_view(), base_symbols(base@), triangles.len() as int),
{
    let mut found: Vec<(TriangleKey, Vec<TriangleElement>)> = Vec::new();
    let mut i: usize = 0;
    assert(views_of(found@) =~= assembled(triangles.deep_view(), base_symbols(base@), 0));
    while i < triangles.len()
        invariant
            i <= triangles.len(),
            views_of(found@) == assembled(triangles.deep_view(), base_symbols(base@), i as int),
        decreases triangles.len() - i,
    {
        assert(triangles.deep_view()[i as int] == triangles[i as int].deep_view());
        assemble_one(&mut found, &triangles[i], base, "BUY");
        assemble_one(&mut found, &triangles[i], base, "SELL");
        i += 1;
    }
    found
}

} // verus!
