//! What holds of every graph that `create_graph` builds.
use vstd::prelude::*;
use crate::search_laws::edges_are_sound;
use crate::graph::{
    built, find_node, is_valid_pair, labelled, lemma_find_node, linked, valid_pairs,
    valid_pairs_in_row, with_node,
};

verus! {

/// Whether `symbol` is the base currency of some valid pair.
pub open spec fn trades_as_base(
    bases: Seq<Seq<char>>,
    alts: Seq<Seq<char>>,
    clean: Seq<Seq<char>>,
    symbol: Seq<char>,
) -> bool {
    exists|b: int, a: int|
        0 <= b < bases.len() && 0 <= a < alts.len() && bases[b] == symbol && #[trigger] is_valid_pair(
            clean,
            bases[b],
            alts[a],
        )
}

/// Whether `symbol` is the alt currency of some valid pair.
pub open spec fn trades_as_alt(
    bases: Seq<Seq<char>>,
    alts: Seq<Seq<char>>,
    clean: Seq<Seq<char>>,
    symbol: Seq<char>,
) -> bool {
    exists|b: int, a: int|
        0 <= b < bases.len() && 0 <= a < alts.len() && alts[a] == symbol && #[trigger] is_valid_pair(
            clean,
            bases[b],
            alts[a],
        )
}

spec fn base_in(bases: Seq<Seq<char>>, pairs: Seq<(usize, usize)>, symbol: Seq<char>) -> bool {
    exists|j: int| 0 <= j < pairs.len() && bases[(#[trigger] pairs[j]).0 as int] == symbol
}

spec fn alt_in(alts: Seq<Seq<char>>, pairs: Seq<(usize, usize)>, symbol: Seq<char>) -> bool {
    exists|j: int| 0 <= j < pairs.len() && alts[(#[trigger] pairs[j]).1 as int] == symbol
}

spec fn has_node(nodes: Seq<(Seq<char>, Seq<char>)>, start: int, symbol: Seq<char>) -> bool {
    find_node(nodes, symbol, start) < nodes.len()
}

spec fn distinct_from(nodes: Seq<(Seq<char>, Seq<char>)>, start: int) -> bool {
    forall|i: int, k: int|
        start <= i < k < nodes.len() ==> (#[trigger] nodes[i]).0 != (#[trigger] nodes[k]).0
}

spec fn bases_have_nodes(
    nodes: Seq<(Seq<char>, Seq<char>)>,
    start: int,
    bases: Seq<Seq<char>>,
    pairs: Seq<(usize, usize)>,
) -> bool {
    forall|j: int| 0 <= j < pairs.len() ==> has_node(nodes, start, bases[(#[trigger] pairs[j]).0 as int])
}

spec fn alts_have_nodes(
    nodes: Seq<(Seq<char>, Seq<char>)>,
    start: int,
    alts: Seq<Seq<char>>,
    pairs: Seq<(usize, usize)>,
) -> bool {
    forall|j: int| 0 <= j < pairs.len() ==> has_node(nodes, start, alts[(#[trigger] pairs[j]).1 as int])
}

spec fn after_first_pass(
    nodes: Seq<(Seq<char>, Seq<char>)>,
    start: int,
    bases: Seq<Seq<char>>,
    pairs: Seq<(usize, usize)>,
) -> bool {
    &&& 0 <= start <= nodes.len()
    &&& forall|i: int|
        start <= i < nodes.len() ==> (#[trigger] nodes[i]).1 == "base"@ && base_in(
            bases,
            pairs,
            nodes[i].0,
        )
    &&& bases_have_nodes(nodes, start, bases, pairs)
    &&& distinct_from(nodes, start)
}

spec fn after_second_pass(
    nodes: Seq<(Seq<char>, Seq<char>)>,
    start: int,
    bases: Seq<Seq<char>>,
    alts: Seq<Seq<char>>,
    all: Seq<(usize, usize)>,
    done: Seq<(usize, usize)>,
) -> bool {
    &&& 0 <= start <= nodes.len()
    &&& forall|i: int|
        start <= i < nodes.len() ==> {
            ||| (#[trigger] nodes[i]).1 == "base"@ && base_in(bases, all, nodes[i].0)
            ||| nodes[i].1 == "alt"@ && !base_in(bases, all, nodes[i].0) && alt_in(
                alts,
                done,
                nodes[i].0,
            )
        }
    &&& bases_have_nodes(nodes, start, bases, all)
    &&& alts_have_nodes(nodes, start, alts, done)
    &&& distinct_from(nodes, start)
}

proof fn lemma_push_keeps_nodes(
    nodes: Seq<(Seq<char>, Seq<char>)>,
    start: int,
    symbol: Seq<char>,
    added: (Seq<char>, Seq<char>),
)
    requires
        0 <= start <= nodes.len(),
        has_node(nodes, start, symbol) || added.0 == symbol,
    ensures
        has_node(nodes.push(added), start, symbol),
{
    lemma_find_node(nodes, symbol, start);
    let more = nodes.push(added);
    if has_node(nodes, start, symbol) {
        let at = find_node(nodes, symbol, start);
        assert(more[at] == nodes[at]);
        lemma_find_node(more, symbol, start);
    } else {
        assert(more[nodes.len() as int] == added);
        lemma_find_node(more, symbol, start);
    }
}

proof fn lemma_first_pass(
    nodes: Seq<(Seq<char>, Seq<char>)>,
    bases: Seq<Seq<char>>,
    pairs: Seq<(usize, usize)>,
)
    ensures
        after_first_pass(labelled(nodes, nodes.len() as int, bases, pairs), nodes.len() as int, bases, pairs),
    decreases pairs.len(),
{
    let start = nodes.len() as int;
    if pairs.len() > 0 {
        let fewer = pairs.drop_last();
        lemma_first_pass(nodes, bases, fewer);
        let prev = labelled(nodes, start, bases, fewer);
        let symbol = bases[pairs.last().0 as int];
        let next = with_node(prev, start, symbol, "base"@);
        lemma_find_node(prev, symbol, start);
        assert forall|s: Seq<char>| base_in(bases, fewer, s) implies base_in(bases, pairs, s) by {
            let j = choose|j: int| 0 <= j < fewer.len() && bases[(#[trigger] fewer[j]).0 as int] == s;
            assert(pairs[j] == fewer[j]);
        }
        assert(pairs[pairs.len() - 1] == pairs.last());
        assert(base_in(bases, pairs, symbol));
        assert forall|j: int| 0 <= j < pairs.len() implies has_node(
            next,
            start,
            bases[(#[trigger] pairs[j]).0 as int],
        ) by {
            let s = bases[pairs[j].0 as int];
            if j < fewer.len() {
                assert(fewer[j] == pairs[j]);
                assert(has_node(prev, start, s));
            }
            if next != prev {
                lemma_push_keeps_nodes(prev, start, s, (symbol, "base"@));
            }
        }
        assert forall|i: int| start <= i < next.len() implies (#[trigger] next[i]).1 == "base"@ && base_in(
            bases,
            pairs,
            next[i].0,
        ) by {
            if i < prev.len() {
                assert(next[i] == prev[i]);
            }
        }
        assert forall|i: int, k: int| start <= i < k < next.len() implies (#[trigger] next[i]).0 != (
        #[trigger] next[k]).0 by {
            if k < prev.len() {
                assert(next[i] == prev[i] && next[k] == prev[k]);
            } else {
                assert(next[i] == prev[i]);
            }
        }
    }
}

proof fn lemma_second_pass(
    first: Seq<(Seq<char>, Seq<char>)>,
    edges: Seq<(usize, usize)>,
    start: int,
    bases: Seq<Seq<char>>,
    alts: Seq<Seq<char>>,
    all: Seq<(usize, usize)>,
    k: int,
)
    requires
        0 <= k <= all.len(),
        after_first_pass(first, start, bases, all),
    ensures
        after_second_pass(
            linked((first, edges), start, bases, alts, all.take(k)).0,
            start,
            bases,
            alts,
            all,
            all.take(k),
        ),
    decreases k,
{
    if k == 0 {
        assert(all.take(0).len() == 0);
    } else {
        lemma_second_pass(first, edges, start, bases, alts, all, k - 1);
        let done = all.take(k);
        let fewer = all.take(k - 1);
        assert(done.drop_last() == fewer);
        let prev = linked((first, edges), start, bases, alts, fewer).0;
        let base = bases[done.last().0 as int];
        let alt = alts[done.last().1 as int];
        assert(done.last() == all[k - 1]);
        assert(has_node(prev, start, base));
        assert(with_node(prev, start, base, ""@) == prev);
        let next = with_node(prev, start, alt, "alt"@);
        assert(linked((first, edges), start, bases, alts, done).0 == next);
        lemma_find_node(prev, alt, start);
        assert forall|s: Seq<char>| alt_in(alts, fewer, s) implies alt_in(alts, done, s) by {
            let j = choose|j: int| 0 <= j < fewer.len() && alts[(#[trigger] fewer[j]).1 as int] == s;
            assert(done[j] == fewer[j]);
        }
        assert(done[k - 1] == done.last());
        assert(alt_in(alts, done, alt));
        if next != prev {
            if base_in(bases, all, alt) {
                let j = choose|j: int| 0 <= j < all.len() && bases[(#[trigger] all[j]).0 as int] == alt;
                assert(has_node(prev, start, bases[all[j].0 as int]));
            }
            assert forall|j: int| 0 <= j < all.len() implies has_node(
                next,
                start,
                bases[(#[trigger] all[j]).0 as int],
            ) by {
                lemma_push_keeps_nodes(prev, start, bases[all[j].0 as int], (alt, "alt"@));
            }
        }
        assert forall|i: int| start <= i < next.len() implies {
            ||| (#[trigger] next[i]).1 == "base"@ && base_in(bases, all, next[i].0)
            ||| next[i].1 == "alt"@ && !base_in(bases, all, next[i].0) && alt_in(alts, done, next[i].0)
        } by {
            if i < prev.len() {
                assert(next[i] == prev[i]);
            }
        }
        assert forall|j: int| 0 <= j < done.len() implies has_node(
            next,
            start,
            alts[(#[trigger] done[j]).1 as int],
        ) by {
            let s = alts[done[j].1 as int];
            if j < fewer.len() {
                assert(fewer[j] == done[j]);
                assert(has_node(prev, start, s));
            }
            if next != prev {
                lemma_push_keeps_nodes(prev, start, s, (alt, "alt"@));
            }
        }
        assert forall|i: int, l: int| start <= i < l < next.len() implies (#[trigger] next[i]).0 != (
        #[trigger] next[l]).0 by {
            if l < prev.len() {
                assert(next[i] == prev[i] && next[l] == prev[l]);
            } else {
                assert(next[i] == prev[i]);
            }
        }
    }
}

proof fn lemma_row(bases: Seq<Seq<char>>, alts: Seq<Seq<char>>, clean: Seq<Seq<char>>, b: int, upto: int)
    requires
        0 <= b < bases.len() <= usize::MAX,
        0 <= upto <= alts.len() <= usize::MAX,
    ensures
        forall|j: int|
            0 <= j < valid_pairs_in_row(bases, alts, clean, b, upto).len() ==> {
                let p = #[trigger] valid_pairs_in_row(bases, alts, clean, b, upto)[j];
                p.0 == b && p.1 < upto && is_valid_pair(clean, bases[b], alts[p.1 as int])
            },
        forall|a: int|
            0 <= a < upto && #[trigger] is_valid_pair(clean, bases[b], alts[a]) ==> valid_pairs_in_row(
                bases,
                alts,
                clean,
                b,
                upto,
            ).contains((b as usize, a as usize)),
    decreases upto,
{
    if upto > 0 {
        lemma_row(bases, alts, clean, b, upto - 1);
        let before = valid_pairs_in_row(bases, alts, clean, b, upto - 1);
        let now = valid_pairs_in_row(bases, alts, clean, b, upto);
        assert forall|j: int| 0 <= j < now.len() implies {
            let p = #[trigger] now[j];
            p.0 == b && p.1 < upto && is_valid_pair(clean, bases[b], alts[p.1 as int])
        } by {
            if j < before.len() {
                assert(now[j] == before[j]);
            }
        }
        assert forall|a: int| 0 <= a < upto && #[trigger] is_valid_pair(clean, bases[b], alts[a]) implies now.contains(
            (b as usize, a as usize),
        ) by {
            if a < upto - 1 {
                let j = choose|j: int| 0 <= j < before.len() && before[j] == (b as usize, a as usize);
                assert(now[j] == before[j]);
            } else {
                assert(now[now.len() - 1] == (b as usize, a as usize));
            }
        }
    }
}

proof fn lemma_valid_pairs(bases: Seq<Seq<char>>, alts: Seq<Seq<char>>, clean: Seq<Seq<char>>, rows: int)
    requires
        0 <= rows <= bases.len() <= usize::MAX,
        alts.len() <= usize::MAX,
    ensures
        forall|j: int|
            0 <= j < valid_pairs(bases, alts, clean, rows).len() ==> {
                let p = #[trigger] valid_pairs(bases, alts, clean, rows)[j];
                p.0 < rows && p.1 < alts.len() && is_valid_pair(
                    clean,
                    bases[p.0 as int],
                    alts[p.1 as int],
                )
            },
        forall|b: int, a: int|
            0 <= b < rows && 0 <= a < alts.len() && #[trigger] is_valid_pair(clean, bases[b], alts[a])
                ==> valid_pairs(bases, alts, clean, rows).contains((b as usize, a as usize)),
    decreases rows,
{
    if rows > 0 {
        lemma_valid_pairs(bases, alts, clean, rows - 1);
        lemma_row(bases, alts, clean, rows - 1, alts.len() as int);
        let before = valid_pairs(bases, alts, clean, rows - 1);
        let row = valid_pairs_in_row(bases, alts, clean, rows - 1, alts.len() as int);
        let now = valid_pairs(bases, alts, clean, rows);
        assert(now == before + row);
        assert forall|j: int| 0 <= j < now.len() implies {
            let p = #[trigger] now[j];
            p.0 < rows && p.1 < alts.len() && is_valid_pair(clean, bases[p.0 as int], alts[p.1 as int])
        } by {
            if j < before.len() {
                assert(now[j] == before[j]);
            } else {
                assert(now[j] == row[j - before.len()]);
            }
        }
        assert forall|b: int, a: int|
            0 <= b < rows && 0 <= a < alts.len() && #[trigger] is_valid_pair(
                clean,
                bases[b],
                alts[a],
            ) implies now.contains((b as usize, a as usize)) by {
            if b < rows - 1 {
                let j = choose|j: int| 0 <= j < before.len() && before[j] == (b as usize, a as usize);
                assert(now[j] == before[j]);
            } else {
                let j = choose|j: int| 0 <= j < row.len() && row[j] == (b as usize, a as usize);
                assert(now[before.len() + j] == row[j]);
            }
        }
    }
}

/// The label of a node that a build adds says which side of a pair its
/// currency trades on, and the order of the lists has no say in it.
///
/// A currency that is the base of some valid pair has a node labelled
/// `"base"`, also where it is listed as an alt currency and whichever list
/// is read first. Any other node that the build adds belongs to the alt
/// currency of some valid pair and is labelled `"alt"`. No two nodes that
/// the build adds carry the same symbol.
pub proof fn lemma_base_label_wins(
    nodes: Seq<(Seq<char>, Seq<char>)>,
    edges: Seq<(usize, usize)>,
    bases: Seq<Seq<char>>,
    alts: Seq<Seq<char>>,
    clean: Seq<Seq<char>>,
)
    requires
        bases.len() <= usize::MAX,
        alts.len() <= usize::MAX,
    ensures
        ({
            let after = built(nodes, edges, bases, alts, clean).0;
            &&& nodes.len() <= after.len()
            &&& forall|i: int|
                nodes.len() <= i < after.len() ==> if trades_as_base(
                    bases,
                    alts,
                    clean,
                    (#[trigger] after[i]).0,
                ) {
                    after[i].1 == "base"@
                } else {
                    after[i].1 == "alt"@ && trades_as_alt(bases, alts, clean, after[i].0)
                }
            &&& forall|s: Seq<char>|
                trades_as_base(bases, alts, clean, s) ==> exists|i: int|
                    nodes.len() <= i < after.len() && #[trigger] after[i] == (s, "base"@)
            &&& forall|s: Seq<char>|
                trades_as_alt(bases, alts, clean, s) && !trades_as_base(bases, alts, clean, s)
                    ==> exists|i: int| nodes.len() <= i < after.len() && #[trigger] after[i] == (s, "alt"@)
            &&& forall|i: int, k: int|
                nodes.len() <= i < k < after.len() ==> (#[trigger] after[i]).0 != (#[trigger] after[k]).0
        }),
{
    let start = nodes.len() as int;
    let all = valid_pairs(bases, alts, clean, bases.len() as int);
    let first = labelled(nodes, start, bases, all);
    let after = built(nodes, edges, bases, alts, clean).0;
    lemma_first_pass(nodes, bases, all);
    lemma_second_pass(first, edges, start, bases, alts, all, all.len() as int);
    assert(all.take(all.len() as int) == all);
    lemma_valid_pairs(bases, alts, clean, bases.len() as int);
    reveal_strlit("base");
    reveal_strlit("alt");
    assert("base"@ != "alt"@) by {
        assert("base"@.len() == 4);
        assert("alt"@.len() == 3);
    }
    assert forall|s: Seq<char>| base_in(bases, all, s) <==> trades_as_base(bases, alts, clean, s) by {
        if base_in(bases, all, s) {
            let j = choose|j: int| 0 <= j < all.len() && bases[(#[trigger] all[j]).0 as int] == s;
            assert(is_valid_pair(clean, bases[all[j].0 as int], alts[all[j].1 as int]));
        }
        if trades_as_base(bases, alts, clean, s) {
            let (b, a) = choose|b: int, a: int|
                0 <= b < bases.len() && 0 <= a < alts.len() && bases[b] == s && #[trigger] is_valid_pair(
                    clean,
                    bases[b],
                    alts[a],
                );
            let j = choose|j: int| 0 <= j < all.len() && all[j] == (b as usize, a as usize);
            assert(bases[all[j].0 as int] == s);
        }
    }
    assert forall|i: int| nodes.len() <= i < after.len() implies if trades_as_base(
        bases,
        alts,
        clean,
        (#[trigger] after[i]).0,
    ) {
        after[i].1 == "base"@
    } else {
        after[i].1 == "alt"@ && trades_as_alt(bases, alts, clean, after[i].0)
    } by {
        let s = after[i].0;
        if !trades_as_base(bases, alts, clean, s) {
            assert(alt_in(alts, all, s));
            let j = choose|j: int| 0 <= j < all.len() && alts[(#[trigger] all[j]).1 as int] == s;
            assert(is_valid_pair(clean, bases[all[j].0 as int], alts[all[j].1 as int]));
        }
    }
    assert forall|s: Seq<char>| trades_as_base(bases, alts, clean, s) implies exists|i: int|
        nodes.len() <= i < after.len() && #[trigger] after[i] == (s, "base"@) by {
        let j = choose|j: int| 0 <= j < all.len() && bases[(#[trigger] all[j]).0 as int] == s;
        assert(has_node(after, start, bases[all[j].0 as int]));
        lemma_find_node(after, s, start);
        let at = find_node(after, s, start);
        assert(after[at].0 == s);
        assert(trades_as_base(bases, alts, clean, after[at].0));
        assert(after[at] == (s, "base"@));
    }
    assert forall|s: Seq<char>|
        trades_as_alt(bases, alts, clean, s) && !trades_as_base(bases, alts, clean, s) implies exists|
            i: int,
        |
            nodes.len() <= i < after.len() && #[trigger] after[i] == (s, "alt"@) by {
        let (b, a) = choose|b: int, a: int|
            0 <= b < bases.len() && 0 <= a < alts.len() && alts[a] == s && #[trigger] is_valid_pair(
                clean,
                bases[b],
                alts[a],
            );
        let j = choose|j: int| 0 <= j < all.len() && all[j] == (b as usize, a as usize);
        assert(has_node(after, start, alts[all[j].1 as int]));
        lemma_find_node(after, s, start);
        let at = find_node(after, s, start);
        assert(after[at].0 == s);
        assert(after[at] == (s, "alt"@));
    }
}

/// Whether two lists hold the same strings, in whatever order and however
/// often.
pub open spec fn same_members(one: Seq<Seq<char>>, other: Seq<Seq<char>>) -> bool {
    forall|s: Seq<char>| one.contains(s) <==> other.contains(s)
}

/// The nodes that a build adds, as a set of symbols with their labels.
pub open spec fn added_nodes(
    nodes: Seq<(Seq<char>, Seq<char>)>,
    edges: Seq<(usize, usize)>,
    bases: Seq<Seq<char>>,
    alts: Seq<Seq<char>>,
    clean: Seq<Seq<char>>,
) -> Set<(Seq<char>, Seq<char>)> {
    let after = built(nodes, edges, bases, alts, clean).0;
    Set::new(
        |n: (Seq<char>, Seq<char>)| exists|i: int| nodes.len() <= i < after.len() && #[trigger] after[i] == n,
    )
}

proof fn lemma_sides_ignore_order(
    bases: Seq<Seq<char>>,
    alts: Seq<Seq<char>>,
    clean: Seq<Seq<char>>,
    other_bases: Seq<Seq<char>>,
    other_alts: Seq<Seq<char>>,
    other_clean: Seq<Seq<char>>,
    s: Seq<char>,
)
    requires
        same_members(bases, other_bases),
        same_members(alts, other_alts),
        same_members(clean, other_clean),
    ensures
        trades_as_base(bases, alts, clean, s) ==> trades_as_base(other_bases, other_alts, other_clean, s),
        trades_as_alt(bases, alts, clean, s) ==> trades_as_alt(other_bases, other_alts, other_clean, s),
{
    if trades_as_base(bases, alts, clean, s) {
        let (b, a) = choose|b: int, a: int|
            0 <= b < bases.len() && 0 <= a < alts.len() && bases[b] == s && #[trigger] is_valid_pair(
                clean,
                bases[b],
                alts[a],
            );
        assert(bases.contains(bases[b]));
        assert(alts.contains(alts[a]));
        let ob = choose|ob: int| 0 <= ob < other_bases.len() && other_bases[ob] == bases[b];
        let oa = choose|oa: int| 0 <= oa < other_alts.len() && other_alts[oa] == alts[a];
        assert(clean.contains(alts[a] + bases[b]));
        assert(is_valid_pair(other_clean, other_bases[ob], other_alts[oa]));
    }
    if trades_as_alt(bases, alts, clean, s) {
        let (b, a) = choose|b: int, a: int|
            0 <= b < bases.len() && 0 <= a < alts.len() && alts[a] == s && #[trigger] is_valid_pair(
                clean,
                bases[b],
                alts[a],
            );
        assert(bases.contains(bases[b]));
        assert(alts.contains(alts[a]));
        let ob = choose|ob: int| 0 <= ob < other_bases.len() && other_bases[ob] == bases[b];
        let oa = choose|oa: int| 0 <= oa < other_alts.len() && other_alts[oa] == alts[a];
        assert(clean.contains(alts[a] + bases[b]));
        assert(is_valid_pair(other_clean, other_bases[ob], other_alts[oa]));
    }
}

proof fn lemma_added_nodes_within(
    nodes: Seq<(Seq<char>, Seq<char>)>,
    edges: Seq<(usize, usize)>,
    bases: Seq<Seq<char>>,
    alts: Seq<Seq<char>>,
    clean: Seq<Seq<char>>,
    other_nodes: Seq<(Seq<char>, Seq<char>)>,
    other_edges: Seq<(usize, usize)>,
    other_bases: Seq<Seq<char>>,
    other_alts: Seq<Seq<char>>,
    other_clean: Seq<Seq<char>>,
)
    requires
        bases.len() <= usize::MAX,
        alts.len() <= usize::MAX,
        other_bases.len() <= usize::MAX,
        other_alts.len() <= usize::MAX,
        same_members(bases, other_bases),
        same_members(alts, other_alts),
        same_members(clean, other_clean),
    ensures
        added_nodes(nodes, edges, bases, alts, clean).subset_of(
            added_nodes(other_nodes, other_edges, other_bases, other_alts, other_clean),
        ),
{
    lemma_base_label_wins(nodes, edges, bases, alts, clean);
    lemma_base_label_wins(other_nodes, other_edges, other_bases, other_alts, other_clean);
    let after = built(nodes, edges, bases, alts, clean).0;
    let other_after = built(other_nodes, other_edges, other_bases, other_alts, other_clean).0;
    assert forall|n: (Seq<char>, Seq<char>)|
        added_nodes(nodes, edges, bases, alts, clean).contains(n) implies added_nodes(
        other_nodes,
        other_edges,
        other_bases,
        other_alts,
        other_clean,
    ).contains(n) by {
        let i = choose|i: int| nodes.len() <= i < after.len() && #[trigger] after[i] == n;
        lemma_sides_ignore_order(bases, alts, clean, other_bases, other_alts, other_clean, n.0);
        lemma_sides_ignore_order(other_bases, other_alts, other_clean, bases, alts, clean, n.0);
        if trades_as_base(bases, alts, clean, n.0) {
            assert(n == (n.0, "base"@));
            let k = choose|k: int|
                other_nodes.len() <= k < other_after.len() && #[trigger] other_after[k] == (n.0, "base"@);
            assert(other_after[k] == n);
        } else {
            assert(n == (n.0, "alt"@));
            let k = choose|k: int|
                other_nodes.len() <= k < other_after.len() && #[trigger] other_after[k] == (n.0, "alt"@);
            assert(other_after[k] == n);
        }
    }
}

/// The order of the lists has no say in the labels: two builds from lists
/// that hold the same base currencies, the same alt currencies and the same
/// pairs, each in whatever order, add the same currencies with the same
/// labels.
pub proof fn lemma_labels_ignore_order(
    nodes: Seq<(Seq<char>, Seq<char>)>,
    edges: Seq<(usize, usize)>,
    bases: Seq<Seq<char>>,
    alts: Seq<Seq<char>>,
    clean: Seq<Seq<char>>,
    other_nodes: Seq<(Seq<char>, Seq<char>)>,
    other_edges: Seq<(usize, usize)>,
    other_bases: Seq<Seq<char>>,
    other_alts: Seq<Seq<char>>,
    other_clean: Seq<Seq<char>>,
)
    requires
        bases.len() <= usize::MAX,
        alts.len() <= usize::MAX,
        other_bases.len() <= usize::MAX,
        other_alts.len() <= usize::MAX,
        same_members(bases, other_bases),
        same_members(alts, other_alts),
        same_members(clean, other_clean),
    ensures
        added_nodes(nodes, edges, bases, alts, clean) == added_nodes(
            other_nodes,
            other_edges,
            other_bases,
            other_alts,
            other_clean,
        ),
{
    lemma_added_nodes_within(
        nodes,
        edges,
        bases,
        alts,
        clean,
        other_nodes,
        other_edges,
        other_bases,
        other_alts,
        other_clean,
    );
    lemma_added_nodes_within(
        other_nodes,
        other_edges,
        other_bases,
        other_alts,
        other_clean,
        nodes,
        edges,
        bases,
        alts,
        clean,
    );
    assert(added_nodes(nodes, edges, bases, alts, clean) =~= added_nodes(
        other_nodes,
        other_edges,
        other_bases,
        other_alts,
        other_clean,
    ));
}

proof fn lemma_row_is_short(bases: Seq<Seq<char>>, alts: Seq<Seq<char>>, clean: Seq<Seq<char>>, b: int, upto: int)
    requires
        0 <= upto,
    ensures
        valid_pairs_in_row(bases, alts, clean, b, upto).len() <= upto,
    decreases upto,
{
    if upto > 0 {
        lemma_row_is_short(bases, alts, clean, b, upto - 1);
    }
}

proof fn lemma_pairs_are_few(bases: Seq<Seq<char>>, alts: Seq<Seq<char>>, clean: Seq<Seq<char>>, rows: int)
    requires
        0 <= rows,
    ensures
        valid_pairs(bases, alts, clean, rows).len() <= rows * alts.len(),
    decreases rows,
{
    if rows > 0 {
        lemma_pairs_are_few(bases, alts, clean, rows - 1);
        lemma_row_is_short(bases, alts, clean, rows - 1, alts.len() as int);
        assert((rows - 1) * alts.len() + alts.len() == rows * alts.len()) by (nonlinear_arith);
    }
}

proof fn lemma_first_pass_size(
    nodes: Seq<(Seq<char>, Seq<char>)>,
    start: int,
    bases: Seq<Seq<char>>,
    pairs: Seq<(usize, usize)>,
)
    ensures
        nodes.len() <= labelled(nodes, start, bases, pairs).len() <= nodes.len() + pairs.len(),
    decreases pairs.len(),
{
    if pairs.len() > 0 {
        lemma_first_pass_size(nodes, start, bases, pairs.drop_last());
    }
}

proof fn lemma_second_pass_size(
    first: Seq<(Seq<char>, Seq<char>)>,
    edges: Seq<(usize, usize)>,
    start: int,
    bases: Seq<Seq<char>>,
    alts: Seq<Seq<char>>,
    all: Seq<(usize, usize)>,
    k: int,
)
    requires
        0 <= k <= all.len(),
        after_first_pass(first, start, bases, all),
        first.len() + all.len() <= usize::MAX,
        edges_are_sound(first, edges),
    ensures
        ({
            let g = linked((first, edges), start, bases, alts, all.take(k));
            &&& first.len() <= g.0.len() <= first.len() + k
            &&& g.1.len() == edges.len() + 2 * k
            &&& edges_are_sound(g.0, g.1)
        }),
    decreases k,
{
    if k == 0 {
        assert(all.take(0).len() == 0);
    } else {
        lemma_second_pass_size(first, edges, start, bases, alts, all, k - 1);
        lemma_second_pass(first, edges, start, bases, alts, all, k - 1);
        let done = all.take(k);
        let fewer = all.take(k - 1);
        assert(done.drop_last() == fewer);
        let prev = linked((first, edges), start, bases, alts, fewer);
        let base = bases[done.last().0 as int];
        let alt = alts[done.last().1 as int];
        assert(done.last() == all[k - 1]);
        assert(has_node(prev.0, start, base));
        let next = linked((first, edges), start, bases, alts, done);
        let with_alt = with_node(prev.0, start, alt, "alt"@);
        assert(next.0 == with_alt);
        lemma_find_node(with_alt, base, start);
        lemma_find_node(with_alt, alt, start);
        lemma_find_node(prev.0, alt, start);
        lemma_find_node(prev.0, base, start);
        lemma_push_keeps_nodes(prev.0, start, base, (alt, "alt"@));
        lemma_push_keeps_nodes(prev.0, start, alt, (alt, "alt"@));
        let b = find_node(prev.0, base, start);
        let a = find_node(with_alt, alt, start);
        assert(find_node(prev.0, base, start) < prev.0.len());
        assert(a < with_alt.len());
        assert(with_node(prev.0, start, base, ""@) == prev.0);
        assert(prev.0.len() <= with_alt.len() <= prev.0.len() + 1);
        assert(0 <= b < with_alt.len() <= usize::MAX);
        assert(0 <= a < with_alt.len());
        assert(next.1 == prev.1.push((b as usize, a as usize)).push((a as usize, b as usize)));
        assert forall|e: int| 0 <= e < next.1.len() implies (#[trigger] next.1[e]).0 < next.0.len() && next.1[e].1
            < next.0.len() by {
            if e < prev.1.len() {
                assert(next.1[e] == prev.1[e]);
            } else if e == prev.1.len() {
                assert(next.1[e] == (b as usize, a as usize));
            } else {
                assert(next.1[e] == (a as usize, b as usize));
            }
        }
    }
}

/// How large a built graph is, and that it hangs together.
///
/// The build adds two edges for every valid pair and at most two nodes,
/// and there are no more valid pairs than base currencies times alt
/// currencies. Where every edge that was there led from a node to a node,
/// every edge of the built graph does.
pub proof fn lemma_built_graph(
    nodes: Seq<(Seq<char>, Seq<char>)>,
    edges: Seq<(usize, usize)>,
    bases: Seq<Seq<char>>,
    alts: Seq<Seq<char>>,
    clean: Seq<Seq<char>>,
)
    requires
        nodes.len() + 2 * bases.len() * alts.len() <= usize::MAX,
        edges_are_sound(nodes, edges),
    ensures
        ({
            let pairs = valid_pairs(bases, alts, clean, bases.len() as int);
            let after = built(nodes, edges, bases, alts, clean);
            &&& pairs.len() <= bases.len() * alts.len()
            &&& nodes.len() <= after.0.len() <= nodes.len() + 2 * pairs.len()
            &&& after.1.len() == edges.len() + 2 * pairs.len()
            &&& edges_are_sound(after.0, after.1)
        }),
{
    let start = nodes.len() as int;
    let all = valid_pairs(bases, alts, clean, bases.len() as int);
    let first = labelled(nodes, start, bases, all);
    lemma_pairs_are_few(bases, alts, clean, bases.len() as int);
    lemma_first_pass(nodes, bases, all);
    lemma_first_pass_size(nodes, start, bases, all);
    assert(2 * all.len() <= 2 * bases.len() * alts.len()) by (nonlinear_arith)
        requires
            all.len() <= bases.len() * alts.len(),
    ;
    assert forall|e: int| 0 <= e < edges.len() implies (#[trigger] edges[e]).0 < first.len() && edges[e].1
        < first.len() by {}
    lemma_second_pass_size(first, edges, start, bases, alts, all, all.len() as int);
    assert(all.take(all.len() as int) == all);
}

} // verus!
