//! What holds of every cycle that the cycle finder returns.
use vstd::prelude::*;
use crate::graph::{find_node, lemma_find_node, out_neighbors};
use crate::search::{branches, closes, cycles_from, cycles_through, found_cycles, labelled_with};

verus! {

/// Whether every edge begins and ends at a node.
pub open spec fn edges_are_sound(nodes: Seq<(Seq<char>, Seq<char>)>, edges: Seq<(usize, usize)>) -> bool {
    forall|k: int|
        0 <= k < edges.len() ==> (#[trigger] edges[k]).0 < nodes.len() && edges[k].1 < nodes.len()
}

/// Whether an edge leads from a node that carries `from` to one that
/// carries `to`.
pub open spec fn linked_by_edge(
    nodes: Seq<(Seq<char>, Seq<char>)>,
    edges: Seq<(usize, usize)>,
    from: Seq<char>,
    to: Seq<char>,
) -> bool {
    exists|k: int|
        0 <= k < edges.len() && nodes[(#[trigger] edges[k]).0 as int].0 == from && nodes[edges[k].1 as int].0
            == to
}

/// Whether `cycle` is a closed path of `depth` currencies: it ends where it
/// began, holds no currency twice before it closes, and every step of it
/// follows an edge of the graph.
pub open spec fn is_closed_cycle(
    nodes: Seq<(Seq<char>, Seq<char>)>,
    edges: Seq<(usize, usize)>,
    cycle: Seq<Seq<char>>,
    depth: nat,
) -> bool {
    &&& cycle.len() == depth + 1
    &&& cycle[0] == cycle[depth as int]
    &&& cycle.take(depth as int).no_duplicates()
    &&& forall|i: int| 0 <= i < depth ==> linked_by_edge(nodes, edges, #[trigger] cycle[i], cycle[i + 1])
}

spec fn good_path(
    nodes: Seq<(Seq<char>, Seq<char>)>,
    edges: Seq<(usize, usize)>,
    start: Seq<char>,
    at: usize,
    path: Seq<Seq<char>>,
    depth: nat,
) -> bool {
    &&& 1 <= path.len() <= depth
    &&& path[0] == start
    &&& at < nodes.len()
    &&& nodes[at as int].0 == path.last()
    &&& path.no_duplicates()
    &&& forall|i: int| 0 <= i < path.len() - 1 ==> linked_by_edge(nodes, edges, #[trigger] path[i], path[i + 1])
}

proof fn lemma_out_neighbors(edges: Seq<(usize, usize)>, a: usize, upto: int)
    requires
        0 <= upto <= edges.len(),
    ensures
        forall|k: int|
            0 <= k < out_neighbors(edges, a, upto).len() ==> exists|e: int|
                0 <= e < upto && #[trigger] edges[e] == (a, #[trigger] out_neighbors(edges, a, upto)[k]),
    decreases upto,
{
    if upto > 0 {
        lemma_out_neighbors(edges, a, upto - 1);
        let earlier = out_neighbors(edges, a, upto - 1);
        let now = out_neighbors(edges, a, upto);
        assert forall|k: int| 0 <= k < now.len() implies exists|e: int|
            0 <= e < upto && #[trigger] edges[e] == (a, #[trigger] now[k]) by {
            if edges[upto - 1].0 == a {
                if k == 0 {
                    assert(edges[upto - 1] == (a, now[0]));
                } else {
                    assert(now[k] == earlier[k - 1]);
                    let e = choose|e: int| 0 <= e < upto - 1 && #[trigger] edges[e] == (a, earlier[k - 1]);
                    assert(edges[e] == (a, now[k]));
                }
            } else {
                let e = choose|e: int| 0 <= e < upto - 1 && #[trigger] edges[e] == (a, earlier[k]);
                assert(edges[e] == (a, now[k]));
            }
        }
    }
}

proof fn lemma_cycles_from(
    nodes: Seq<(Seq<char>, Seq<char>)>,
    edges: Seq<(usize, usize)>,
    start: Seq<char>,
    at: usize,
    path: Seq<Seq<char>>,
    depth: nat,
)
    requires
        edges_are_sound(nodes, edges),
        good_path(nodes, edges, start, at, path, depth),
    ensures
        forall|j: int|
            0 <= j < cycles_from(nodes, edges, start, at, path, depth).len() ==> {
                let c = #[trigger] cycles_from(nodes, edges, start, at, path, depth)[j];
                is_closed_cycle(nodes, edges, c, depth) && c[0] == start
            },
    decreases depth - path.len(), out_neighbors(edges, at, edges.len() as int).len() + 1,
{
    let next = out_neighbors(edges, at, edges.len() as int);
    let found = cycles_from(nodes, edges, start, at, path, depth);
    if path.len() >= depth {
        if closes(nodes, edges, at, start) {
            let c = path.push(start);
            assert(found =~= seq![c]);
            assert(c.take(depth as int) =~= path);
            let k = choose|k: int| 0 <= k < next.len() && nodes[(#[trigger] next[k]) as int].0 == start;
            lemma_out_neighbors(edges, at, edges.len() as int);
            let e = choose|e: int| 0 <= e < edges.len() && #[trigger] edges[e] == (at, next[k]);
            assert(nodes[edges[e].0 as int].0 == path.last());
            assert forall|i: int| 0 <= i < depth implies linked_by_edge(
                nodes,
                edges,
                #[trigger] c[i],
                c[i + 1],
            ) by {
                if i < depth - 1 {
                    assert(c[i] == path[i] && c[i + 1] == path[i + 1]);
                } else {
                    assert(c[i] == path.last() && c[i + 1] == start);
                    assert(nodes[edges[e].1 as int].0 == start);
                }
            }
            assert(c[0] == path[0]);
            assert(c[depth as int] == start);
            assert(is_closed_cycle(nodes, edges, c, depth));
            assert(found[0] == c);
        } else {
            assert(found.len() == 0);
        }
    } else {
        lemma_branches(nodes, edges, start, at, next, path, depth, next.len() as int);
        assert(found == branches(nodes, edges, start, next, path, depth, next.len() as int));
    }
}

proof fn lemma_branches(
    nodes: Seq<(Seq<char>, Seq<char>)>,
    edges: Seq<(usize, usize)>,
    start: Seq<char>,
    at: usize,
    next: Seq<usize>,
    path: Seq<Seq<char>>,
    depth: nat,
    upto: int,
)
    requires
        edges_are_sound(nodes, edges),
        good_path(nodes, edges, start, at, path, depth),
        path.len() < depth,
        next == out_neighbors(edges, at, edges.len() as int),
        0 <= upto <= next.len(),
    ensures
        forall|j: int|
            0 <= j < branches(nodes, edges, start, next, path, depth, upto).len() ==> {
                let c = #[trigger] branches(nodes, edges, start, next, path, depth, upto)[j];
                is_closed_cycle(nodes, edges, c, depth) && c[0] == start
            },
    decreases depth - path.len(), upto,
{
    if upto > 0 {
        let to = next[upto - 1];
        let symbol = nodes[to as int].0;
        lemma_out_neighbors(edges, at, edges.len() as int);
        let e = choose|e: int| 0 <= e < edges.len() && #[trigger] edges[e] == (at, next[upto - 1]);
        assert(to < nodes.len());
        lemma_branches(nodes, edges, start, at, next, path, depth, upto - 1);
        let rest = branches(nodes, edges, start, next, path, depth, upto - 1);
        let here = if path.contains(symbol) {
            Seq::<Seq<Seq<char>>>::empty()
        } else {
            cycles_from(nodes, edges, start, to, path.push(symbol), depth)
        };
        if !path.contains(symbol) {
            let longer = path.push(symbol);
            assert forall|i: int| 0 <= i < longer.len() - 1 implies linked_by_edge(
                nodes,
                edges,
                #[trigger] longer[i],
                longer[i + 1],
            ) by {
                if i < path.len() - 1 {
                    assert(longer[i] == path[i] && longer[i + 1] == path[i + 1]);
                } else {
                    assert(longer[i] == path.last() && longer[i + 1] == symbol);
                    assert(nodes[edges[e].0 as int].0 == path.last());
                    assert(nodes[edges[e].1 as int].0 == symbol);
                }
            }
            assert forall|i: int, k: int| 0 <= i < longer.len() && 0 <= k < longer.len() && i != k implies longer[i]
                != longer[k] by {
                if i < path.len() && k < path.len() {
                    assert(longer[i] == path[i] && longer[k] == path[k]);
                } else if i < path.len() {
                    assert(longer[i] == path[i]);
                } else {
                    assert(longer[k] == path[k]);
                }
            }
            assert(longer.no_duplicates());
            assert(good_path(nodes, edges, start, to, longer, depth));
            lemma_cycles_from(nodes, edges, start, to, longer, depth);
        }
        let all = branches(nodes, edges, start, next, path, depth, upto);
        assert(all == here + rest);
        assert forall|j: int| 0 <= j < all.len() implies {
            let c = #[trigger] all[j];
            is_closed_cycle(nodes, edges, c, depth) && c[0] == start
        } by {
            if j < here.len() {
                assert(all[j] == here[j]);
            } else {
                assert(all[j] == rest[j - here.len()]);
            }
        }
    }
}

proof fn lemma_cycles_through(
    nodes: Seq<(Seq<char>, Seq<char>)>,
    edges: Seq<(usize, usize)>,
    starts: Seq<Seq<char>>,
    depth: nat,
    upto: int,
)
    requires
        depth >= 1,
        nodes.len() <= usize::MAX,
        edges_are_sound(nodes, edges),
        0 <= upto <= starts.len(),
        forall|i: int| 0 <= i < starts.len() ==> find_node(nodes, #[trigger] starts[i], 0) < nodes.len(),
    ensures
        forall|j: int|
            0 <= j < cycles_through(nodes, edges, starts, depth, upto).len() ==> {
                let c = #[trigger] cycles_through(nodes, edges, starts, depth, upto)[j];
                is_closed_cycle(nodes, edges, c, depth) && starts.contains(c[0])
            },
    decreases upto,
{
    if upto > 0 {
        lemma_cycles_through(nodes, edges, starts, depth, upto - 1);
        let start = starts[upto - 1];
        lemma_find_node(nodes, start, 0);
        let at = find_node(nodes, start, 0) as usize;
        let path = seq![start];
        assert(path.last() == start);
        assert(good_path(nodes, edges, start, at, path, depth));
        lemma_cycles_from(nodes, edges, start, at, path, depth);
        let before = cycles_through(nodes, edges, starts, depth, upto - 1);
        let here = cycles_from(nodes, edges, start, at, path, depth);
        let all = cycles_through(nodes, edges, starts, depth, upto);
        assert(all == before + here);
        assert forall|j: int| 0 <= j < all.len() implies {
            let c = #[trigger] all[j];
            is_closed_cycle(nodes, edges, c, depth) && starts.contains(c[0])
        } by {
            if j < before.len() {
                assert(all[j] == before[j]);
            } else {
                assert(all[j] == here[j - before.len()]);
                assert(starts[upto - 1] == start);
            }
        }
    }
}

/// Every cycle found is closed: it holds `depth` currencies and the start
/// once more, it starts and ends on one of the start currencies, no
/// currency stands twice among the first `depth`, and an edge of the graph
/// leads from each currency to the next.
pub proof fn lemma_cycles_are_closed(
    nodes: Seq<(Seq<char>, Seq<char>)>,
    edges: Seq<(usize, usize)>,
    starts: Seq<Seq<char>>,
    depth: nat,
)
    requires
        nodes.len() <= usize::MAX,
        edges_are_sound(nodes, edges),
        forall|i: int| 0 <= i < starts.len() ==> find_node(nodes, #[trigger] starts[i], 0) < nodes.len(),
    ensures
        forall|j: int|
            0 <= j < found_cycles(nodes, edges, starts, depth).len() ==> {
                let c = #[trigger] found_cycles(nodes, edges, starts, depth)[j];
                is_closed_cycle(nodes, edges, c, depth) && starts.contains(c[0])
            },
{
    if depth >= 1 {
        lemma_cycles_through(nodes, edges, starts, depth, starts.len() as int);
    }
}

/// The symbols listed under a label are symbols of nodes that carry it: a
/// search can start from each of them, and where the label is `"base"`
/// every cycle found starts and ends on a base-labelled currency.
pub proof fn lemma_labelled_nodes_exist(nodes: Seq<(Seq<char>, Seq<char>)>, label: Seq<char>, upto: int)
    requires
        0 <= upto <= nodes.len(),
    ensures
        forall|i: int|
            0 <= i < labelled_with(nodes, label, upto).len() ==> exists|at: int|
                0 <= at < upto && #[trigger] nodes[at] == (
                    #[trigger] labelled_with(nodes, label, upto)[i],
                    label,
                ),
        forall|i: int|
            0 <= i < labelled_with(nodes, label, upto).len() ==> find_node(
                nodes,
                #[trigger] labelled_with(nodes, label, upto)[i],
                0,
            ) < nodes.len(),
    decreases upto,
{
    if upto > 0 {
        lemma_labelled_nodes_exist(nodes, label, upto - 1);
        let before = labelled_with(nodes, label, upto - 1);
        let now = labelled_with(nodes, label, upto);
        assert forall|i: int| 0 <= i < now.len() implies exists|at: int|
            0 <= at < upto && #[trigger] nodes[at] == (#[trigger] now[i], label) by {
            if i < before.len() {
                assert(now[i] == before[i]);
                let at = choose|at: int| 0 <= at < upto - 1 && #[trigger] nodes[at] == (before[i], label);
                assert(nodes[at] == (now[i], label));
            } else {
                assert(nodes[upto - 1] == (now[i], label));
            }
        }
        assert forall|i: int| 0 <= i < now.len() implies find_node(nodes, #[trigger] now[i], 0) < nodes.len() by {
            let at = choose|at: int| 0 <= at < upto && #[trigger] nodes[at] == (now[i], label);
            lemma_find_node(nodes, now[i], 0);
        }
    }
}

} // verus!
