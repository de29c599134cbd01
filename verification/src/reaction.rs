//! The reaction to one price tick: every triangle that names the updated
//! symbol is evaluated, those that earn at least the configured rate become
//! candidates, and the best candidate is reported.
//!
//! The candidates wait in a `crossbeam::queue::SegQueue`, each as its place
//! among the evaluated triangles; the amounts stay where they were computed.
//! The queue is filled and emptied within one reaction.
use vstd::prelude::*;
use bigdecimal::BigDecimal;
use crossbeam::queue::SegQueue;
use crate::decimal::{at_least, computable, decimal_at_least, decimal_repr, pow10};
use crate::evaluator::{calculate_triangle, outcome, EARN_SCALE};
use crate::index::{keys_of, legs_of, SymbolIndex};
use crate::store::DataStorage;
use crate::triangle::{TriangleKey, TriangleKeyView};

verus! {

/// `crossbeam::queue::SegQueue`, known to the contracts by what it holds.
#[verifier::external_type_specification]
#[verifier::external_body]
#[verifier::reject_recursive_types(T)]
pub struct ExSegQueue<T>(SegQueue<T>);

/// What a queue holds, the item that leaves next in front.
pub uninterp spec fn queued(q: SegQueue<usize>) -> Seq<usize>;

/// The queue that holds nothing.
pub open spec fn nothing_queued() -> Seq<usize> {
    Seq::empty()
}

/// `SegQueue::new`: an empty queue.
#[verifier::external_body]
fn queue_new() -> (q: SegQueue<usize>)
    ensures
        queued(q) == nothing_queued(),
{
    SegQueue::new()
}

/// `SegQueue::push`: the item joins the queue at its back.
#[verifier::external_body]
fn queue_push(q: &mut SegQueue<usize>, item: usize)
    ensures
        queued(*final(q)) == queued(*old(q)).push(item),
{
    q.push(item);
}

/// `SegQueue::pop`: the item in front leaves the queue; an empty queue
/// gives nothing and stays empty.
#[verifier::external_body]
fn queue_pop(q: &mut SegQueue<usize>) -> (r: Option<usize>)
    ensures
        r is Some <==> queued(*old(q)).len() > 0,
        r is Some ==> r->Some_0 == queued(*old(q))[0] && queued(*final(q)) == queued(
            *old(q),
        ).drop_first(),
        r is None ==> queued(*final(q)) == queued(*old(q)),
{
    q.pop()
}

/// The candidates of one reaction, in the order they were found.
pub struct CandidateQueue {
    waiting: SegQueue<usize>,
}

impl View for CandidateQueue {
    type V = Seq<usize>;

    closed spec fn view(&self) -> Seq<usize> {
        queued(self.waiting)
    }
}

impl CandidateQueue {
    /// A queue without candidates.
    pub fn new() -> (r: Self)
        ensures
            r@.len() == 0,
    {
        CandidateQueue { waiting: queue_new() }
    }

    /// Adds a candidate behind those that wait.
    pub fn push(&mut self, place: usize)
        ensures
            final(self)@ == old(self)@.push(place),
    {
        queue_push(&mut self.waiting, place);
    }

    /// Takes the candidate that has waited longest.
    pub fn pop(&mut self) -> (r: Option<usize>)
        ensures
            r is Some <==> old(self)@.len() > 0,
            r is Some ==> r->Some_0 == old(self)@[0] && final(self)@ == old(self)@.drop_first(),
            r is None ==> final(self)@ == old(self)@,
    {
        queue_pop(&mut self.waiting)
    }

    /// Takes every candidate that waits, the one that has waited longest
    /// first.
    pub fn drain(&mut self) -> (r: Vec<usize>)
        ensures
            r@ == old(self)@,
            final(self)@.len() == 0,
    {
        let ghost all = self@;
        let mut out: Vec<usize> = Vec::new();
        loop
            invariant
                out.len() <= all.len(),
                out@ == all.subrange(0, out.len() as int),
                self@ == all.subrange(out.len() as int, all.len() as int),
            ensures
                out@ == all,
                self@.len() == 0,
            decreases all.len() - out.len(),
        {
            match self.pop() {
                Some(place) => {
                    assert(place == all[out.len() as int]);
                    out.push(place);
                    assert(out@ =~= all.subrange(0, out.len() as int));
                    assert(self@ =~= all.subrange(out.len() as int, all.len() as int));
                },
                None => {
                    assert(out@ =~= all);
                    break ;
                },
            }
        }
        out
    }
}

/// A triangle found profitable: its key, the final amount of one unit
/// carried through it, and the earn percentage.
pub struct EarnSortedData {
    pub triangle_key: TriangleKey,
    pub final_amount: BigDecimal,
    pub earn: BigDecimal,
}

/// The outcomes of the triangles at the given positions, place by place.
pub open spec fn outcomes_at(
    prices: Map<Seq<char>, (Seq<char>, Seq<char>)>,
    keys: Seq<TriangleKeyView>,
    legs: Seq<Seq<(Seq<char>, Seq<char>)>>,
    positions: Seq<usize>,
) -> Seq<Option<((int, int), (int, int))>> {
    Seq::new(
        positions.len(),
        |i: int| outcome(prices, keys[positions[i] as int], legs[positions[i] as int]),
    )
}

/// Whether an outcome makes its triangle a candidate: it exists and its
/// earn is at least the rate.
pub open spec fn is_candidate(o: Option<((int, int), (int, int))>, rate: (int, int)) -> bool {
    o is Some && at_least(o->Some_0.1, rate)
}

/// Whether place `w` holds the candidate to report: no candidate earns
/// more, and every candidate before it earns less.
pub open spec fn is_winner(outcomes: Seq<Option<((int, int), (int, int))>>, rate: (int, int), w: int) -> bool {
    &&& 0 <= w < outcomes.len()
    &&& is_candidate(outcomes[w], rate)
    &&& forall|j: int|
        0 <= j < outcomes.len() && is_candidate(#[trigger] outcomes[j], rate) ==> at_least(
            outcomes[w]->Some_0.1,
            outcomes[j]->Some_0.1,
        )
    &&& forall|j: int|
        0 <= j < w && is_candidate(#[trigger] outcomes[j], rate) ==> !at_least(
            outcomes[j]->Some_0.1,
            outcomes[w]->Some_0.1,
        )
}

/// The places below `upto`, in rising order, that hold a candidate.
spec fn candidates_below(
    outcomes: Seq<Option<((int, int), (int, int))>>,
    rate: (int, int),
    upto: int,
) -> Seq<usize>
    decreases upto,
{
    if upto <= 0 {
        Seq::empty()
    } else {
        let before = candidates_below(outcomes, rate, upto - 1);
        if is_candidate(outcomes[upto - 1], rate) {
            before.push((upto - 1) as usize)
        } else {
            before
        }
    }
}

proof fn lemma_candidates_below(
    outcomes: Seq<Option<((int, int), (int, int))>>,
    rate: (int, int),
    upto: int,
)
    requires
        0 <= upto <= outcomes.len() <= usize::MAX,
    ensures
        forall|k: int|
            0 <= k < candidates_below(outcomes, rate, upto).len() ==> {
                &&& (#[trigger] candidates_below(outcomes, rate, upto)[k]) < upto
                &&& is_candidate(outcomes[candidates_below(outcomes, rate, upto)[k] as int], rate)
            },
        forall|k: int, l: int|
            0 <= k < l < candidates_below(outcomes, rate, upto).len() ==> (#[trigger] candidates_below(
                outcomes,
                rate,
                upto,
            )[k]) < (#[trigger] candidates_below(outcomes, rate, upto)[l]),
        forall|j: int|
            0 <= j < upto && is_candidate(#[trigger] outcomes[j], rate) ==> exists|k: int|
                0 <= k < candidates_below(outcomes, rate, upto).len() && candidates_below(
                    outcomes,
                    rate,
                    upto,
                )[k] == j,
    decreases upto,
{
    if upto > 0 {
        lemma_candidates_below(outcomes, rate, upto - 1);
        let before = candidates_below(outcomes, rate, upto - 1);
        let now = candidates_below(outcomes, rate, upto);
        assert forall|k: int| 0 <= k < now.len() implies (#[trigger] now[k]) < upto && is_candidate(
            outcomes[now[k] as int],
            rate,
        ) by {
            if k < before.len() {
                assert(now[k] == before[k]);
            }
        }
        assert forall|k: int, l: int| 0 <= k < l < now.len() implies (#[trigger] now[k]) < (
        #[trigger] now[l]) by {
            assert(now[k] == before[k]);
            if l < before.len() {
                assert(now[l] == before[l]);
            }
        }
        assert forall|j: int| 0 <= j < upto && is_candidate(#[trigger] outcomes[j], rate) implies exists|
            k: int,
        |
            0 <= k < now.len() && now[k] == j by {
            if j < upto - 1 {
                let k = choose|k: int| 0 <= k < before.len() && before[k] == j;
                assert(now[k] == j);
            } else {
                assert(now[now.len() - 1] == j);
            }
        }
    }
}

/// Two decimals of one scale compare as their digits do.
pub proof fn lemma_same_scale_order(a: (int, int), b: (int, int))
    requires
        a.1 == b.1,
    ensures
        at_least(a, b) <==> a.0 >= b.0,
{
    assert(pow10(0) == 1);
}

/// The digits of the earn computed at `place`.
spec fn earn_digits(results: Seq<Option<(BigDecimal, BigDecimal)>>, place: int) -> int {
    decimal_repr(results[place]->Some_0.1).0
}

/// Of the places in `order`, the first whose earn no other exceeds.
fn pick_best(results: &Vec<Option<(BigDecimal, BigDecimal)>>, order: &Vec<usize>) -> (r: Option<
    (usize, Ghost<int>),
>)
    requires
        forall|k: int|
            0 <= k < order.len() ==> {
                &&& (#[trigger] order[k]) < results.len()
                &&& results[order[k] as int] is Some
                &&& decimal_repr(results[order[k] as int]->Some_0.1).1 == EARN_SCALE
            },
    ensures
        r is None <==> order.len() == 0,
        r is Some ==> {
            let b = r->Some_0.1@;
            &&& 0 <= b < order.len()
            &&& order[b] == r->Some_0.0
            &&& forall|k: int|
                0 <= k < order.len() ==> earn_digits(results@, order[b] as int) >= earn_digits(
                    results@,
                    (#[trigger] order[k]) as int,
                )
            &&& forall|k: int|
                0 <= k < b ==> earn_digits(results@, (#[trigger] order[k]) as int) < earn_digits(
                    results@,
                    order[b] as int,
                )
        },
{
    if order.len() == 0 {
        return None;
    }
    let mut best: usize = order[0];
    let ghost mut b: int = 0;
    let mut k: usize = 1;
    while k < order.len()
        invariant
            1 <= k <= order.len(),
            0 <= b < k,
            order[b] == best,
            forall|j: int|
                0 <= j < order.len() ==> {
                    &&& (#[trigger] order[j]) < results.len()
                    &&& results[order[j] as int] is Some
                    &&& decimal_repr(results[order[j] as int]->Some_0.1).1 == EARN_SCALE
                },
            forall|j: int|
                0 <= j < k ==> earn_digits(results@, best as int) >= earn_digits(
                    results@,
                    (#[trigger] order[j]) as int,
                ),
            forall|j: int|
                0 <= j < b ==> earn_digits(results@, (#[trigger] order[j]) as int) < earn_digits(
                    results@,
                    best as int,
                ),
        decreases order.len() - k,
    {
        let place = order[k];
        assert(order[k as int] == place);
        let leads = match (&results[place], &results[best]) {
            (Some(new), Some(held)) => {
                proof {
                    lemma_same_scale_order(decimal_repr(held.1), decimal_repr(new.1));
                }
                !decimal_at_least(&held.1, &new.1)
            },
            _ => false,
        };
        assert(leads == (earn_digits(results@, place as int) > earn_digits(results@, best as int)));
        if leads {
            best = place;
            proof {
                b = k as int;
            }
        }
        k += 1;
    }
    Some((best, Ghost(b)))
}

proof fn lemma_winner(
    outcomes: Seq<Option<((int, int), (int, int))>>,
    rate: (int, int),
    order: Seq<usize>,
    b: int,
)
    requires
        outcomes.len() <= usize::MAX,
        order == candidates_below(outcomes, rate, outcomes.len() as int),
        forall|j: int|
            0 <= j < outcomes.len() && (#[trigger] outcomes[j]) is Some ==> outcomes[j]->Some_0.1.1
                == EARN_SCALE,
        0 <= b < order.len(),
        forall|k: int|
            0 <= k < order.len() ==> outcomes[order[b] as int]->Some_0.1.0 >= outcomes[(
            #[trigger] order[k]) as int]->Some_0.1.0,
        forall|k: int|
            0 <= k < b ==> outcomes[(#[trigger] order[k]) as int]->Some_0.1.0
                < outcomes[order[b] as int]->Some_0.1.0,
    ensures
        is_winner(outcomes, rate, order[b] as int),
{
    lemma_candidates_below(outcomes, rate, outcomes.len() as int);
    let w = order[b] as int;
    assert(is_candidate(outcomes[w], rate));
    assert forall|j: int|
        0 <= j < outcomes.len() && is_candidate(#[trigger] outcomes[j], rate) implies at_least(
        outcomes[w]->Some_0.1,
        outcomes[j]->Some_0.1,
    ) by {
        let k = choose|k: int| 0 <= k < order.len() && order[k] == j;
        assert(order[k] == j);
        lemma_same_scale_order(outcomes[w]->Some_0.1, outcomes[j]->Some_0.1);
    }
    assert forall|j: int| 0 <= j < w && is_candidate(#[trigger] outcomes[j], rate) implies !at_least(
        outcomes[j]->Some_0.1,
        outcomes[w]->Some_0.1,
    ) by {
        let k = choose|k: int| 0 <= k < order.len() && order[k] == j;
        assert(order[k] == j);
        if k > b {
            assert(order[b] < order[k]);
        }
        lemma_same_scale_order(outcomes[j]->Some_0.1, outcomes[w]->Some_0.1);
    }
}

/// What a reaction to a new price of `symbol` reports.
///
/// Nothing, where the index has no triangle for the symbol or none of its
/// triangles is a candidate. Otherwise the winner among the triangles that
/// name the symbol: its key, its final amount and its earn.
pub open spec fn reported(
    r: Option<EarnSortedData>,
    symbol: Seq<char>,
    rate: (int, int),
    index: &SymbolIndex,
    prices: Map<Seq<char>, (Seq<char>, Seq<char>)>,
) -> bool {
    if !index.positions().contains_key(symbol) {
        r is None
    } else {
        let places = index.positions()[symbol];
        let keys = keys_of(index.triangles());
        let outcomes = outcomes_at(prices, keys, legs_of(index.triangles()), places);
        &&& r is None <==> forall|j: int|
            0 <= j < outcomes.len() ==> !is_candidate(#[trigger] outcomes[j], rate)
        &&& r is Some ==> exists|w: int|
            {
                &&& #[trigger] is_winner(outcomes, rate, w)
                &&& r->Some_0.triangle_key@ == keys[places[w] as int]
                &&& decimal_repr(r->Some_0.final_amount) == outcomes[w]->Some_0.0
                &&& decimal_repr(r->Some_0.earn) == outcomes[w]->Some_0.1
            }
    }
}

/// What is reported earns at least the rate, and something is reported
/// wherever a triangle of the symbol earns at least the rate: a triangle
/// that earns less is never reported, and one that earns as much or more
/// is not passed over unless another earns at least as much.
pub proof fn lemma_reported_meets_the_rate(
    r: Option<EarnSortedData>,
    symbol: Seq<char>,
    rate: (int, int),
    index: &SymbolIndex,
    prices: Map<Seq<char>, (Seq<char>, Seq<char>)>,
)
    requires
        reported(r, symbol, rate, index, prices),
    ensures
        r is Some ==> at_least(decimal_repr(r->Some_0.earn), rate),
        r is Some ==> index.positions().contains_key(symbol),
        index.positions().contains_key(symbol) ==> ({
            let outcomes = outcomes_at(
                prices,
                keys_of(index.triangles()),
                legs_of(index.triangles()),
                index.positions()[symbol],
            );
            forall|j: int|
                0 <= j < outcomes.len() && is_candidate(#[trigger] outcomes[j], rate) ==> r is Some
                    && at_least(decimal_repr(r->Some_0.earn), outcomes[j]->Some_0.1)
        }),
{
    if index.positions().contains_key(symbol) {
        let outcomes = outcomes_at(
            prices,
            keys_of(index.triangles()),
            legs_of(index.triangles()),
            index.positions()[symbol],
        );
        if r is Some {
            let w = choose|w: int|
                {
                    &&& #[trigger] is_winner(outcomes, rate, w)
                    &&& r->Some_0.triangle_key@ == keys_of(index.triangles())[index.positions()[symbol][w] as int]
                    &&& decimal_repr(r->Some_0.final_amount) == outcomes[w]->Some_0.0
                    &&& decimal_repr(r->Some_0.earn) == outcomes[w]->Some_0.1
                };
            assert(is_winner(outcomes, rate, w));
        }
    }
}

/// Reacts to a new price of `symbol`.
///
/// Where the index has no triangle for the symbol nothing is reported.
/// Otherwise every triangle that names the symbol is evaluated at the stored
/// prices. Those with an outcome whose earn is at least `rate` are the
/// candidates; a triangle that earns less never is one. The candidate with
/// the highest earn is returned, the earliest of them where several earn
/// the same; nothing is returned where there is no candidate. The queue is
/// empty when the reaction ends, whatever it held before.
pub fn react_to_update(
    symbol: &String,
    rate: &BigDecimal,
    index: &SymbolIndex,
    prices: &DataStorage,
    queue: &mut CandidateQueue,
) -> (r: Option<EarnSortedData>)
    requires
        computable(decimal_repr(*rate)),
    ensures
        final(queue)@.len() == 0,
        reported(r, symbol@, decimal_repr(*rate), index, prices@),
{
    let _ = queue.drain();
    let positions = match index.lookup(symbol.as_str()) {
        Some(p) => p,
        None => {
            return None;
        },
    };
    let ghost keys = keys_of(index.triangles());
    let ghost legs = legs_of(index.triangles());
    let ghost outcomes = outcomes_at(prices@, keys, legs, positions@);
    let ghost floor = decimal_repr(*rate);
    let mut results: Vec<Option<(BigDecimal, BigDecimal)>> = Vec::new();
    let mut i: usize = 0;
    while i < positions.len()
        invariant
            i <= positions.len(),
            keys == keys_of(index.triangles()),
            legs == legs_of(index.triangles()),
            outcomes == outcomes_at(prices@, keys, legs, positions@),
            floor == decimal_repr(*rate),
            computable(floor),
            forall|j: int| 0 <= j < positions.len() ==> (#[trigger] positions[j]) < index.triangles().len(),
            results.len() == i,
            forall|j: int|
                0 <= j < i ==> {
                    &&& (#[trigger] results[j]) is Some <==> outcomes[j] is Some
                    &&& results[j] is Some ==> {
                        &&& decimal_repr(results[j]->Some_0.0) == outcomes[j]->Some_0.0
                        &&& decimal_repr(results[j]->Some_0.1) == outcomes[j]->Some_0.1
                        &&& outcomes[j]->Some_0.1.1 == EARN_SCALE
                    }
                },
            queue@ == candidates_below(outcomes, floor, i as int),
        decreases positions.len() - i,
    {
        let triangle = index.triangle(positions[i]);
        let result = calculate_triangle(prices, &triangle.0, &triangle.1);
        let fit = match &result {
            Some(pair) => decimal_at_least(&pair.1, rate),
            None => false,
        };
        assert(fit == is_candidate(outcomes[i as int], floor));
        if fit {
            queue.push(i);
        }
        results.push(result);
        i += 1;
    }
    let order = queue.drain();
    proof {
        lemma_candidates_below(outcomes, floor, outcomes.len() as int);
    }
    match pick_best(&results, &order) {
        None => {
            proof {
                assert forall|j: int| 0 <= j < outcomes.len() implies !is_candidate(
                    #[trigger] outcomes[j],
                    floor,
                ) by {
                    if is_candidate(outcomes[j], floor) {
                        let k = choose|k: int| 0 <= k < order.len() && order[k] == j;
                    }
                }
            }
            None
        },
        Some(picked) => {
            let w = picked.0;
            let ghost b = picked.1@;
            proof {
                assert forall|k: int| 0 <= k < order.len() implies outcomes[order[b] as int]->Some_0.1.0
                    >= outcomes[(#[trigger] order[k]) as int]->Some_0.1.0 by {
                    assert(earn_digits(results@, order[b] as int) >= earn_digits(results@, order[k] as int));
                }
                assert forall|k: int| 0 <= k < b implies outcomes[(#[trigger] order[k]) as int]->Some_0.1.0
                    < outcomes[order[b] as int]->Some_0.1.0 by {
                    assert(earn_digits(results@, order[k] as int) < earn_digits(results@, order[b] as int));
                }
                lemma_winner(outcomes, floor, order@, b);
            }
            let key = index.triangle(positions[w]).0.clone();
            let found = results.remove(w);
            match found {
                Some(pair) => Some(
                    EarnSortedData { triangle_key: key, final_amount: pair.0, earn: pair.1 },
                ),
                None => None,
            }
        },
    }
}

} // verus!
