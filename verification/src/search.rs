//! The cycle finder: every closed path of a fixed number of currencies
//! through a start currency.
//!
//! A path grows along the edges of the graph and never takes a currency it
//! holds already. A path that has reached the wanted length is a cycle where
//! an edge leads from its last node back to the start; the start is then
//! written behind it. A path of that length that does not close is dropped.
use vstd::prelude::*;
use crate::graph::{find_node, graph_edges, graph_nodes, neighbors, node_at, node_count, out_neighbors, CurrencyGraph};
use crate::search_laws::lemma_labelled_nodes_exist;
use crate::text::{copy_texts, has_text, same_text};

verus! {

/// The symbols of the nodes below `upto` that carry `label`, by position.
pub open spec fn labelled_with(nodes: Seq<(Seq<char>, Seq<char>)>, label: Seq<char>, upto: int) -> Seq<
    Seq<char>,
>
    decreases upto,
{
    if upto <= 0 {
        Seq::empty()
    } else {
        let before = labelled_with(nodes, label, upto - 1);
        if nodes[upto - 1].1 == label {
            before.push(nodes[upto - 1].0)
        } else {
            before
        }
    }
}

/// The symbols of the nodes that carry `label`, in the order of the nodes.
pub fn get_nodes_by_label(graph: &CurrencyGraph, label: &str) -> (r: Vec<String>)
    ensures
        r.deep_view() == labelled_with(graph_nodes(*graph), label@, graph_nodes(*graph).len() as int),
        forall|i: int|
            0 <= i < r.len() ==> find_node(graph_nodes(*graph), (#[trigger] r[i])@, 0) < graph_nodes(
                *graph,
            ).len(),
{
    let n = node_count(graph);
    let mut out: Vec<String> = Vec::new();
    let mut i: usize = 0;
    while i < n
        invariant
            i <= n,
            n == graph_nodes(*graph).len(),
            out.deep_view() == labelled_with(graph_nodes(*graph), label@, i as int),
        decreases n - i,
    {
        let node = node_at(graph, i);
        if same_text(node.1.as_str(), label) {
            let ghost before = out.deep_view();
            out.push(node.0.clone());
            assert(out.deep_view() =~= before.push(node.0@));
        }
        i += 1;
    }
    proof {
        lemma_labelled_nodes_exist(graph_nodes(*graph), label@, n as int);
        assert forall|i: int| 0 <= i < out.len() implies find_node(
            graph_nodes(*graph),
            (#[trigger] out[i])@,
            0,
        ) < graph_nodes(*graph).len() by {
            assert(out.deep_view()[i] == out[i]@);
        }
    }
    out
}

/// Whether an edge leads from node `at` to a node that carries `start`.
pub open spec fn closes(
    nodes: Seq<(Seq<char>, Seq<char>)>,
    edges: Seq<(usize, usize)>,
    at: usize,
    start: Seq<char>,
) -> bool {
    let next = out_neighbors(edges, at, edges.len() as int);
    exists|k: int| 0 <= k < next.len() && nodes[(#[trigger] next[k]) as int].0 == start
}

/// The cycles found from a path that stands at node `at`, in the order
/// they are found.
///
/// A path of `depth` currencies gives one cycle where it closes and none
/// where it does not. A shorter path gives the cycles of all its
/// extensions.
pub open spec fn cycles_from(
    nodes: Seq<(Seq<char>, Seq<char>)>,
    edges: Seq<(usize, usize)>,
    start: Seq<char>,
    at: usize,
    path: Seq<Seq<char>>,
    depth: nat,
) -> Seq<Seq<Seq<char>>>
    decreases depth - path.len(), out_neighbors(edges, at, edges.len() as int).len() + 1,
{
    if path.len() >= depth {
        if closes(nodes, edges, at, start) {
            seq![path.push(start)]
        } else {
            Seq::empty()
        }
    } else {
        let next = out_neighbors(edges, at, edges.len() as int);
        branches(nodes, edges, start, next, path, depth, next.len() as int)
    }
}

/// The cycles found by extending `path` to the first `upto` of the
/// neighbours in `next`. The neighbour that stands last in `next` is
/// searched first. A neighbour whose currency the path holds is passed
/// over.
pub open spec fn branches(
    nodes: Seq<(Seq<char>, Seq<char>)>,
    edges: Seq<(usize, usize)>,
    start: Seq<char>,
    next: Seq<usize>,
    path: Seq<Seq<char>>,
    depth: nat,
    upto: int,
) -> Seq<Seq<Seq<char>>>
    decreases depth - path.len(), upto,
{
    if upto <= 0 || path.len() >= depth {
        Seq::empty()
    } else {
        let symbol = nodes[next[upto - 1] as int].0;
        let here = if path.contains(symbol) {
            Seq::empty()
        } else {
            cycles_from(nodes, edges, start, next[upto - 1], path.push(symbol), depth)
        };
        here + branches(nodes, edges, start, next, path, depth, upto - 1)
    }
}

/// The cycles through the first `upto` start currencies, start by start.
/// The search from a start currency begins at the first node that carries
/// it.
pub open spec fn cycles_through(
    nodes: Seq<(Seq<char>, Seq<char>)>,
    edges: Seq<(usize, usize)>,
    starts: Seq<Seq<char>>,
    depth: nat,
    upto: int,
) -> Seq<Seq<Seq<char>>>
    decreases upto,
{
    if upto <= 0 {
        Seq::empty()
    } else {
        cycles_through(nodes, edges, starts, depth, upto - 1) + cycles_from(
            nodes,
            edges,
            starts[upto - 1],
            find_node(nodes, starts[upto - 1], 0) as usize,
            seq![starts[upto - 1]],
            depth,
        )
    }
}

/// The cycles that `depth_first_search` finds. A depth of zero finds none.
pub open spec fn found_cycles(
    nodes: Seq<(Seq<char>, Seq<char>)>,
    edges: Seq<(usize, usize)>,
    starts: Seq<Seq<char>>,
    depth: nat,
) -> Seq<Seq<Seq<char>>> {
    if depth == 0 {
        Seq::empty()
    } else {
        cycles_through(nodes, edges, starts, depth, starts.len() as int)
    }
}

/// The number of paths the search from one path goes through.
spec fn tree_size(
    nodes: Seq<(Seq<char>, Seq<char>)>,
    edges: Seq<(usize, usize)>,
    at: usize,
    path: Seq<Seq<char>>,
    depth: nat,
) -> nat
    decreases depth - path.len(), out_neighbors(edges, at, edges.len() as int).len() + 1,
{
    if path.len() >= depth {
        1
    } else {
        let next = out_neighbors(edges, at, edges.len() as int);
        1 + branches_size(nodes, edges, next, path, depth, next.len() as int)
    }
}

spec fn branches_size(
    nodes: Seq<(Seq<char>, Seq<char>)>,
    edges: Seq<(usize, usize)>,
    next: Seq<usize>,
    path: Seq<Seq<char>>,
    depth: nat,
    upto: int,
) -> nat
    decreases depth - path.len(), upto,
{
    if upto <= 0 || path.len() >= depth {
        0
    } else {
        let symbol = nodes[next[upto - 1] as int].0;
        let here = if path.contains(symbol) {
            0
        } else {
            tree_size(nodes, edges, next[upto - 1], path.push(symbol), depth)
        };
        here + branches_size(nodes, edges, next, path, depth, upto - 1)
    }
}

/// The paths that wait on the stack, as the contracts see them.
spec fn waiting(stack: Seq<(usize, Vec<String>)>) -> Seq<(usize, Seq<Seq<char>>)> {
    Seq::new(stack.len(), |i: int| (stack[i].0, stack[i].1.deep_view()))
}

/// The cycles still to come from the paths that wait, the last path first.
spec fn pending(
    nodes: Seq<(Seq<char>, Seq<char>)>,
    edges: Seq<(usize, usize)>,
    start: Seq<char>,
    stack: Seq<(usize, Seq<Seq<char>>)>,
    depth: nat,
) -> Seq<Seq<Seq<char>>>
    decreases stack.len(),
{
    if stack.len() == 0 {
        Seq::empty()
    } else {
        cycles_from(nodes, edges, start, stack.last().0, stack.last().1, depth) + pending(
            nodes,
            edges,
            start,
            stack.drop_last(),
            depth,
        )
    }
}

spec fn work(
    nodes: Seq<(Seq<char>, Seq<char>)>,
    edges: Seq<(usize, usize)>,
    stack: Seq<(usize, Seq<Seq<char>>)>,
    depth: nat,
) -> nat
    decreases stack.len(),
{
    if stack.len() == 0 {
        0
    } else {
        tree_size(nodes, edges, stack.last().0, stack.last().1, depth) + work(
            nodes,
            edges,
            stack.drop_last(),
            depth,
        )
    }
}

fn closes_at(graph: &CurrencyGraph, at: usize, start: &str) -> (r: bool)
    requires
        at < graph_nodes(*graph).len(),
    ensures
        r == closes(graph_nodes(*graph), graph_edges(*graph), at, start@),
{
    let next = neighbors(graph, at);
    let mut k: usize = 0;
    while k < next.len()
        invariant
            k <= next.len(),
            next@ == out_neighbors(graph_edges(*graph), at, graph_edges(*graph).len() as int),
            forall|i: int| 0 <= i < next.len() ==> (#[trigger] next[i]) < graph_nodes(*graph).len(),
            forall|j: int| 0 <= j < k ==> graph_nodes(*graph)[(#[trigger] next[j]) as int].0 != start@,
        decreases next.len() - k,
    {
        if same_text(node_at(graph, next[k]).0.as_str(), start) {
            return true;
        }
        k += 1;
    }
    false
}

/// Every cycle of `depth` currencies through each of `base_nodes`, start by
/// start. A cycle is the path of its currencies with the start currency
/// written once more at its end.
///
/// Every start currency has to be a node of the graph.
pub fn depth_first_search(graph: &CurrencyGraph, base_nodes: &[String], depth: usize) -> (r: Vec<
    Vec<String>,
>)
    requires
        forall|i: int|
            0 <= i < base_nodes.len() ==> find_node(graph_nodes(*graph), (#[trigger] base_nodes[i])@, 0)
                < graph_nodes(*graph).len(),
    ensures
        r.deep_view() == found_cycles(
            graph_nodes(*graph),
            graph_edges(*graph),
            base_nodes.deep_view(),
            depth as nat,
        ),
{
    let mut all_cycles: Vec<Vec<String>> = Vec::new();
    if depth == 0 {
        assert(all_cycles.deep_view() =~= Seq::<Seq<Seq<char>>>::empty());
        return all_cycles;
    }
    let ghost nodes = graph_nodes(*graph);
    let ghost edges = graph_edges(*graph);
    let ghost starts = base_nodes.deep_view();
    let n = node_count(graph);
    let mut s: usize = 0;
    assert(all_cycles.deep_view() =~= cycles_through(nodes, edges, starts, depth as nat, 0));
    while s < base_nodes.len()
        invariant
            s <= base_nodes.len(),
            depth >= 1,
            nodes == graph_nodes(*graph),
            edges == graph_edges(*graph),
            starts == base_nodes.deep_view(),
            n == nodes.len(),
            forall|i: int|
                0 <= i < base_nodes.len() ==> find_node(nodes, (#[trigger] base_nodes[i])@, 0) < nodes.len(),
            all_cycles.deep_view() == cycles_through(nodes, edges, starts, depth as nat, s as int),
        decreases base_nodes.len() - s,
    {
        let start_node = base_nodes[s].as_str();
        assert(starts[s as int] == start_node@);
        let start_index = find_start(graph, start_node);
        let ghost before = all_cycles.deep_view();
        let ghost target = before + cycles_from(
            nodes,
            edges,
            start_node@,
            start_index,
            seq![start_node@],
            depth as nat,
        );
        let mut first: Vec<String> = Vec::new();
        first.push(String::from_str(start_node));
        assert(first.deep_view() =~= seq![start_node@]);
        let mut stack: Vec<(usize, Vec<String>)> = Vec::new();
        stack.push((start_index, first));
        proof {
            let w = waiting(stack@);
            assert(w.last() == (start_index, seq![start_node@]));
            assert(w.drop_last() =~= Seq::<(usize, Seq<Seq<char>>)>::empty());
            assert(pending(nodes, edges, start_node@, w.drop_last(), depth as nat) =~= Seq::<
                Seq<Seq<char>>,
            >::empty());
            assert(pending(nodes, edges, start_node@, w, depth as nat) =~= cycles_from(
                nodes,
                edges,
                start_node@,
                start_index,
                seq![start_node@],
                depth as nat,
            ));
        }
        while stack.len() > 0
            invariant
                depth >= 1,
                nodes == graph_nodes(*graph),
                edges == graph_edges(*graph),
                n == nodes.len(),
                forall|i: int| 0 <= i < stack.len() ==> (#[trigger] stack[i]).0 < nodes.len(),
                all_cycles.deep_view() + pending(nodes, edges, start_node@, waiting(stack@), depth as nat)
                    == target,
            decreases work(nodes, edges, waiting(stack@), depth as nat),
        {
            let ghost old_stack = waiting(stack@);
            let ghost old_found = all_cycles.deep_view();
            let entry = stack.pop().unwrap();
            let current_index = entry.0;
            let path = entry.1;
            let ghost rest = waiting(stack@);
            proof {
                assert(old_stack.last() == (current_index, path.deep_view()));
                assert(old_stack.drop_last() =~= rest);
            }
            let ghost here = cycles_from(
                nodes,
                edges,
                start_node@,
                current_index,
                path.deep_view(),
                depth as nat,
            );
            let ghost later = pending(nodes, edges, start_node@, rest, depth as nat);
            assert(old_found + (here + later) == target);
            if path.len() >= depth {
                if closes_at(graph, current_index, start_node) {
                    let mut cycle_path = copy_texts(&path);
                    cycle_path.push(String::from_str(start_node));
                    assert(cycle_path.deep_view() =~= path.deep_view().push(start_node@));
                    all_cycles.push(cycle_path);
                    assert(all_cycles.deep_view() =~= old_found + here);
                }
                assert(all_cycles.deep_view() + later =~= old_found + (here + later));
                continue ;
            }
            let next = neighbors(graph, current_index);
            let mut k: usize = 0;
            assert((branches(nodes, edges, start_node@, next@, path.deep_view(), depth as nat, 0) + later)
                =~= later);
            while k < next.len()
                invariant
                    k <= next.len(),
                    depth >= 1,
                    path.len() < depth,
                    nodes == graph_nodes(*graph),
                    edges == graph_edges(*graph),
                    n == nodes.len(),
                    next@ == out_neighbors(edges, current_index, edges.len() as int),
                    forall|i: int| 0 <= i < next.len() ==> (#[trigger] next[i]) < nodes.len(),
                    forall|i: int| 0 <= i < stack.len() ==> (#[trigger] stack[i]).0 < nodes.len(),
                    later == pending(nodes, edges, start_node@, rest, depth as nat),
                    pending(nodes, edges, start_node@, waiting(stack@), depth as nat) == branches(
                        nodes,
                        edges,
                        start_node@,
                        next@,
                        path.deep_view(),
                        depth as nat,
                        k as int,
                    ) + later,
                    work(nodes, edges, waiting(stack@), depth as nat) == branches_size(
                        nodes,
                        edges,
                        next@,
                        path.deep_view(),
                        depth as nat,
                        k as int,
                    ) + work(nodes, edges, rest, depth as nat),
                decreases next.len() - k,
            {
                let neighbor_index = next[k];
                let neighbor_value = node_at(graph, neighbor_index).0.as_str();
                let ghost so_far = branches(
                    nodes,
                    edges,
                    start_node@,
                    next@,
                    path.deep_view(),
                    depth as nat,
                    k as int,
                );
                if !has_text(&path, neighbor_value) {
                    let ghost below = waiting(stack@);
                    let mut new_path = copy_texts(&path);
                    new_path.push(String::from_str(neighbor_value));
                    assert(new_path.deep_view() =~= path.deep_view().push(neighbor_value@));
                    stack.push((neighbor_index, new_path));
                    proof {
                        let above = waiting(stack@);
                        assert(above.last() == (neighbor_index, path.deep_view().push(neighbor_value@)));
                        assert(above.drop_last() =~= below);
                        let child = cycles_from(
                            nodes,
                            edges,
                            start_node@,
                            neighbor_index,
                            path.deep_view().push(neighbor_value@),
                            depth as nat,
                        );
                        assert(child + (so_far + later) =~= (child + so_far) + later);
                    }
                } else {
                    assert(Seq::<Seq<Seq<char>>>::empty() + so_far =~= so_far);
                }
                k += 1;
            }
        }
        proof {
            assert(waiting(stack@) =~= Seq::<(usize, Seq<Seq<char>>)>::empty());
            assert(all_cycles.deep_view() + Seq::<Seq<Seq<char>>>::empty() =~= all_cycles.deep_view());
        }
        s += 1;
    }
    all_cycles
}

/// The position of the first node that carries `symbol`.
fn find_start(graph: &CurrencyGraph, symbol: &str) -> (at: usize)
    requires
        find_node(graph_nodes(*graph), symbol@, 0) < graph_nodes(*graph).len(),
    ensures
        at == find_node(graph_nodes(*graph), symbol@, 0),
        at < graph_nodes(*graph).len(),
{
    let n = node_count(graph);
    let mut i: usize = 0;
    while i < n
        invariant
            i <= n,
            n == graph_nodes(*graph).len(),
            find_node(graph_nodes(*graph), symbol@, 0) == find_node(graph_nodes(*graph), symbol@, i as int),
            find_node(graph_nodes(*graph), symbol@, 0) < n,
        decreases n - i,
    {
        if same_text(node_at(graph, i).0.as_str(), symbol) {
            return i;
        }
        i += 1;
    }
    i
}

} // verus!
