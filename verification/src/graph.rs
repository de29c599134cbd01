//! The currency graph: one node for every currency that takes part in a
//! valid pair, labelled `"base"` or `"alt"`, and two edges, one each way,
//! for every valid pair.
//!
//! The graph is a `petgraph` graph. To the contracts it is the sequence of
//! its node weights, each a symbol and a label, and the sequence of its
//! edges, each the positions of its source and its target, both in the order
//! in which they were added.
use vstd::prelude::*;
use petgraph::graph::{Graph, NodeIndex};
use petgraph::Directed;
use crate::currency::{
    alt_symbols, base_symbols, has_pair, pair_symbols, AltCurrency, BaseCurrency, ParsedPairs,
};
use crate::graph_laws::lemma_built_graph;
use crate::text::join;

verus! {

/// `petgraph::graph::Graph`, known to the contracts by its nodes and edges.
#[verifier::external_type_specification]
#[verifier::external_body]
#[verifier::reject_recursive_types(N)]
#[verifier::reject_recursive_types(E)]
#[verifier::reject_recursive_types(Ty)]
#[verifier::reject_recursive_types(Ix)]
pub struct ExGraph<N, E, Ty, Ix>(Graph<N, E, Ty, Ix>);

/// `petgraph::Directed`, the marker of a graph whose edges have a direction.
#[verifier::external_type_specification]
#[verifier::external_body]
pub struct ExDirected(Directed);

/// A directed graph whose nodes carry a symbol and a label.
pub type CurrencyGraph = Graph<(String, String), (), Directed, u32>;

/// The node weights of a graph, symbol then label, by node position.
pub uninterp spec fn graph_nodes(g: CurrencyGraph) -> Seq<(Seq<char>, Seq<char>)>;

/// The edges of a graph, source then target, in the order they were added.
pub uninterp spec fn graph_edges(g: CurrencyGraph) -> Seq<(usize, usize)>;

/// The targets of the edges below `upto` that leave node `a`, the edge
/// added last first.
pub open spec fn out_neighbors(edges: Seq<(usize, usize)>, a: usize, upto: int) -> Seq<usize>
    decreases upto,
{
    if upto <= 0 {
        Seq::empty()
    } else {
        let earlier = out_neighbors(edges, a, upto - 1);
        if edges[upto - 1].0 == a {
            seq![edges[upto - 1].1] + earlier
        } else {
            earlier
        }
    }
}

/// No nodes.
pub open spec fn no_nodes() -> Seq<(Seq<char>, Seq<char>)> {
    Seq::empty()
}

/// No edges.
pub open spec fn no_edges() -> Seq<(usize, usize)> {
    Seq::empty()
}

/// `Graph::new`: a directed graph without nodes and without edges.
#[verifier::external_body]
pub(crate) fn new_graph() -> (g: CurrencyGraph)
    ensures
        graph_nodes(g) == no_nodes(),
        graph_edges(g) == no_edges(),
{
    Graph::new()
}

/// `Graph::node_count`: the number of nodes. A graph never holds more nodes
/// than its index type has positions.
#[verifier::external_body]
pub(crate) fn node_count(g: &CurrencyGraph) -> (n: usize)
    ensures
        n == graph_nodes(*g).len(),
        n <= u32::MAX,
{
    g.node_count()
}

/// `Graph::add_node`: the node is added behind the others and its position
/// returned; the edges stay. The crate panics once the positions of its
/// index type are used up.
#[verifier::external_body]
pub(crate) fn add_node(g: &mut CurrencyGraph, symbol: String, label: String) -> (at: usize)
    requires
        graph_nodes(*old(g)).len() < u32::MAX,
    ensures
        graph_nodes(*final(g)) == graph_nodes(*old(g)).push((symbol@, label@)),
        graph_edges(*final(g)) == graph_edges(*old(g)),
        at == graph_nodes(*old(g)).len(),
{
    g.add_node((symbol, label)).index()
}

/// `Graph::add_edge`: the edge is added behind the others; the nodes stay.
/// The crate panics where a node does not exist and once the positions of
/// its index type are used up.
#[verifier::external_body]
pub(crate) fn add_edge(g: &mut CurrencyGraph, a: usize, b: usize)
    requires
        a < graph_nodes(*old(g)).len(),
        b < graph_nodes(*old(g)).len(),
        graph_edges(*old(g)).len() < u32::MAX,
    ensures
        graph_edges(*final(g)) == graph_edges(*old(g)).push((a, b)),
        graph_nodes(*final(g)) == graph_nodes(*old(g)),
{
    g.add_edge(NodeIndex::new(a), NodeIndex::new(b), ());
}

/// Indexing a `Graph` by a node: the weight of the node at that position.
/// The crate panics where the node does not exist.
#[verifier::external_body]
pub(crate) fn node_at(g: &CurrencyGraph, at: usize) -> (w: &(String, String))
    requires
        at < graph_nodes(*g).len(),
    ensures
        (w.0@, w.1@) == graph_nodes(*g)[at as int],
{
    &g[NodeIndex::new(at)]
}

/// `Graph::neighbors`: the targets of the edges that leave the node, the
/// edge added last first. Every edge of a graph ends at one of its nodes.
#[verifier::external_body]
pub(crate) fn neighbors(g: &CurrencyGraph, a: usize) -> (r: Vec<usize>)
    requires
        a < graph_nodes(*g).len(),
    ensures
        r@ == out_neighbors(graph_edges(*g), a, graph_edges(*g).len() as int),
        forall|i: int| 0 <= i < r.len() ==> (#[trigger] r[i]) < graph_nodes(*g).len(),
{
    g.neighbors(NodeIndex::new(a)).map(|n| n.index()).collect()
}

/// The position of the first node at or after `from` that carries
/// `symbol`, or the number of nodes where none does.
pub open spec fn find_node(nodes: Seq<(Seq<char>, Seq<char>)>, symbol: Seq<char>, from: int) -> int
    decreases nodes.len() - from,
{
    if from < 0 || from >= nodes.len() {
        nodes.len() as int
    } else if nodes[from].0 == symbol {
        from
    } else {
        find_node(nodes, symbol, from + 1)
    }
}

/// The nodes with one for `symbol` among those at or after `start`: the
/// nodes as they are where there is one already, whatever its label, and
/// with a new node of the given label behind them where there is none.
pub open spec fn with_node(
    nodes: Seq<(Seq<char>, Seq<char>)>,
    start: int,
    symbol: Seq<char>,
    label: Seq<char>,
) -> Seq<(Seq<char>, Seq<char>)> {
    if find_node(nodes, symbol, start) < nodes.len() {
        nodes
    } else {
        nodes.push((symbol, label))
    }
}

/// Whether the alt currency followed by the base currency is a valid pair.
pub open spec fn is_valid_pair(clean: Seq<Seq<char>>, base: Seq<char>, alt: Seq<char>) -> bool {
    clean.contains(alt + base)
}

/// The valid pairs of base `b` with the alt currencies below `upto`, each as
/// the positions of its base and its alt currency.
pub open spec fn valid_pairs_in_row(
    bases: Seq<Seq<char>>,
    alts: Seq<Seq<char>>,
    clean: Seq<Seq<char>>,
    b: int,
    upto: int,
) -> Seq<(usize, usize)>
    decreases upto,
{
    if upto <= 0 {
        Seq::empty()
    } else {
        let before = valid_pairs_in_row(bases, alts, clean, b, upto - 1);
        if is_valid_pair(clean, bases[b], alts[upto - 1]) {
            before.push((b as usize, (upto - 1) as usize))
        } else {
            before
        }
    }
}

/// The valid pairs of the base currencies below `rows` with every alt
/// currency: base by base in list order, and for each base alt by alt.
pub open spec fn valid_pairs(
    bases: Seq<Seq<char>>,
    alts: Seq<Seq<char>>,
    clean: Seq<Seq<char>>,
    rows: int,
) -> Seq<(usize, usize)>
    decreases rows,
{
    if rows <= 0 {
        Seq::empty()
    } else {
        valid_pairs(bases, alts, clean, rows - 1) + valid_pairs_in_row(
            bases,
            alts,
            clean,
            rows - 1,
            alts.len() as int,
        )
    }
}

/// The nodes after the first pass over `pairs`: every pair makes sure that
/// its base currency has a node, labelled `"base"`.
pub open spec fn labelled(
    nodes: Seq<(Seq<char>, Seq<char>)>,
    start: int,
    bases: Seq<Seq<char>>,
    pairs: Seq<(usize, usize)>,
) -> Seq<(Seq<char>, Seq<char>)>
    decreases pairs.len(),
{
    if pairs.len() == 0 {
        nodes
    } else {
        with_node(
            labelled(nodes, start, bases, pairs.drop_last()),
            start,
            bases[pairs.last().0 as int],
            "base"@,
        )
    }
}

/// Nodes and edges after one pair of the second pass: its base currency has
/// a node, its alt currency has one, labelled `"alt"` where it is new, and
/// an edge runs from the base to the alt and one back.
pub open spec fn link_one(
    g: (Seq<(Seq<char>, Seq<char>)>, Seq<(usize, usize)>),
    start: int,
    base: Seq<char>,
    alt: Seq<char>,
) -> (Seq<(Seq<char>, Seq<char>)>, Seq<(usize, usize)>) {
    let with_base = with_node(g.0, start, base, ""@);
    let b = find_node(with_base, base, start) as usize;
    let with_alt = with_node(with_base, start, alt, "alt"@);
    let a = find_node(with_alt, alt, start) as usize;
    (with_alt, g.1.push((b, a)).push((a, b)))
}

/// Nodes and edges after the second pass over `pairs`.
pub open spec fn linked(
    g: (Seq<(Seq<char>, Seq<char>)>, Seq<(usize, usize)>),
    start: int,
    bases: Seq<Seq<char>>,
    alts: Seq<Seq<char>>,
    pairs: Seq<(usize, usize)>,
) -> (Seq<(Seq<char>, Seq<char>)>, Seq<(usize, usize)>)
    decreases pairs.len(),
{
    if pairs.len() == 0 {
        g
    } else {
        link_one(
            linked(g, start, bases, alts, pairs.drop_last()),
            start,
            bases[pairs.last().0 as int],
            alts[pairs.last().1 as int],
        )
    }
}

/// Nodes and edges of the graph that `create_graph` builds on top of the
/// given ones. Only the nodes added by this build are looked at when a
/// currency's node is searched for.
pub open spec fn built(
    nodes: Seq<(Seq<char>, Seq<char>)>,
    edges: Seq<(usize, usize)>,
    bases: Seq<Seq<char>>,
    alts: Seq<Seq<char>>,
    clean: Seq<Seq<char>>,
) -> (Seq<(Seq<char>, Seq<char>)>, Seq<(usize, usize)>) {
    let pairs = valid_pairs(bases, alts, clean, bases.len() as int);
    let start = nodes.len() as int;
    linked((labelled(nodes, start, bases, pairs), edges), start, bases, alts, pairs)
}

/// Where the search for a symbol ends: at the first node at or after
/// `from` that carries it, or behind the last node where none does.
pub proof fn lemma_find_node(nodes: Seq<(Seq<char>, Seq<char>)>, symbol: Seq<char>, from: int)
    requires
        0 <= from <= nodes.len(),
    ensures
        from <= find_node(nodes, symbol, from) <= nodes.len(),
        find_node(nodes, symbol, from) < nodes.len() ==> nodes[find_node(nodes, symbol, from)].0
            == symbol,
        forall|j: int| from <= j < find_node(nodes, symbol, from) ==> (#[trigger] nodes[j]).0 != symbol,
    decreases nodes.len() - from,
{
    if from < nodes.len() && nodes[from].0 != symbol {
        lemma_find_node(nodes, symbol, from + 1);
    }
}

/// The first node at or after `from` that carries `symbol` is the first
/// position at which the symbol stands and before which it does not.
pub proof fn lemma_find_node_is(nodes: Seq<(Seq<char>, Seq<char>)>, symbol: Seq<char>, from: int, at: int)
    requires
        0 <= from <= at <= nodes.len(),
        at < nodes.len() ==> nodes[at].0 == symbol,
        forall|j: int| from <= j < at ==> (#[trigger] nodes[j]).0 != symbol,
    ensures
        find_node(nodes, symbol, from) == at,
    decreases at - from,
{
    if from < at {
        lemma_find_node_is(nodes, symbol, from + 1, at);
    }
}

/// With a node added behind, a symbol that had a node keeps it.
proof fn lemma_find_node_after_push(
    nodes: Seq<(Seq<char>, Seq<char>)>,
    symbol: Seq<char>,
    from: int,
    added: (Seq<char>, Seq<char>),
)
    requires
        0 <= from <= nodes.len(),
    ensures
        find_node(nodes, symbol, from) < nodes.len() ==> find_node(nodes.push(added), symbol, from)
            == find_node(nodes, symbol, from),
        find_node(nodes, symbol, from) == nodes.len() && added.0 == symbol ==> find_node(
            nodes.push(added),
            symbol,
            from,
        ) == nodes.len(),
{
    lemma_find_node(nodes, symbol, from);
    let at = find_node(nodes, symbol, from);
    let more = nodes.push(added);
    assert forall|j: int| from <= j < at implies (#[trigger] more[j]).0 != symbol by {
        assert(more[j] == nodes[j]);
    }
    if at < nodes.len() {
        assert(more[at] == nodes[at]);
        lemma_find_node_is(more, symbol, from, at);
    } else if added.0 == symbol {
        lemma_find_node_is(more, symbol, from, at);
    }
}

/// The position of the first node at or after `start` that carries
/// `symbol`.
fn position_of(g: &CurrencyGraph, start: usize, symbol: &str) -> (r: Option<usize>)
    ensures
        r is Some <==> find_node(graph_nodes(*g), symbol@, start as int) < graph_nodes(*g).len(),
        r is Some ==> r->Some_0 == find_node(graph_nodes(*g), symbol@, start as int),
{
    let n = node_count(g);
    if start >= n {
        return None;
    }
    let mut i: usize = start;
    while i < n
        invariant
            start <= i <= n,
            n == graph_nodes(*g).len(),
            find_node(graph_nodes(*g), symbol@, start as int) == find_node(
                graph_nodes(*g),
                symbol@,
                i as int,
            ),
        decreases n - i,
    {
        if crate::text::same_text(node_at(g, i).0.as_str(), symbol) {
            return Some(i);
        }
        i += 1;
    }
    None
}

/// Makes sure that `value` has a node among those at or after `start`, and
/// returns its position. A node that is there keeps its label; a new one
/// gets `label`.
fn add_unique_node(g: &mut CurrencyGraph, start: usize, value: &str, label: &str) -> (at: usize)
    requires
        start <= graph_nodes(*old(g)).len(),
        with_node(graph_nodes(*old(g)), start as int, value@, label@).len() <= u32::MAX,
    ensures
        graph_nodes(*final(g)) == with_node(graph_nodes(*old(g)), start as int, value@, label@),
        graph_edges(*final(g)) == graph_edges(*old(g)),
        at == find_node(graph_nodes(*final(g)), value@, start as int),
        at < graph_nodes(*final(g)).len(),
{
    proof {
        lemma_find_node(graph_nodes(*g), value@, start as int);
        lemma_find_node_after_push(graph_nodes(*g), value@, start as int, (value@, label@));
    }
    match position_of(g, start, value) {
        Some(at) => at,
        None => add_node(g, String::from_str(value), String::from_str(label)),
    }
}

/// The valid pairs, base by base and alt by alt.
fn list_valid_pairs(base: &[BaseCurrency], alt: &[AltCurrency], clean: &[ParsedPairs]) -> (r: Vec<
    (usize, usize),
>)
    ensures
        r@ == valid_pairs(
            base_symbols(base@),
            alt_symbols(alt@),
            pair_symbols(clean@),
            base.len() as int,
        ),
        forall|k: int| 0 <= k < r.len() ==> (#[trigger] r[k]).0 < base.len() && r[k].1 < alt.len(),
{
    let ghost bases = base_symbols(base@);
    let ghost alts = alt_symbols(alt@);
    let ghost listed = pair_symbols(clean@);
    let mut out: Vec<(usize, usize)> = Vec::new();
    let mut b: usize = 0;
    while b < base.len()
        invariant
            b <= base.len(),
            bases == base_symbols(base@),
            alts == alt_symbols(alt@),
            listed == pair_symbols(clean@),
            out@ == valid_pairs(bases, alts, listed, b as int),
            forall|k: int| 0 <= k < out.len() ==> (#[trigger] out[k]).0 < base.len() && out[k].1 < alt.len(),
        decreases base.len() - b,
    {
        let ghost done = out@;
        let mut a: usize = 0;
        while a < alt.len()
            invariant
                a <= alt.len(),
                b < base.len(),
                bases == base_symbols(base@),
                alts == alt_symbols(alt@),
                listed == pair_symbols(clean@),
                out@ == done + valid_pairs_in_row(bases, alts, listed, b as int, a as int),
                forall|k: int|
                    0 <= k < out.len() ==> (#[trigger] out[k]).0 < base.len() && out[k].1 < alt.len(),
            decreases alt.len() - a,
        {
            let concatenated = join(alt[a].symbol.as_str(), base[b].symbol.as_str());
            let ghost row = valid_pairs_in_row(bases, alts, listed, b as int, a as int);
            if has_pair(clean, concatenated.as_str()) {
                out.push((b, a));
                assert(out@ =~= done + row.push((b, a)));
            }
            a += 1;
        }
        b += 1;
    }
    out
}

proof fn lemma_with_node_grows(
    nodes: Seq<(Seq<char>, Seq<char>)>,
    start: int,
    symbol: Seq<char>,
    label: Seq<char>,
)
    ensures
        nodes.len() <= with_node(nodes, start, symbol, label).len() <= nodes.len() + 1,
{
}

proof fn lemma_labelled_grows(
    nodes: Seq<(Seq<char>, Seq<char>)>,
    start: int,
    bases: Seq<Seq<char>>,
    pairs: Seq<(usize, usize)>,
    k: int,
)
    requires
        0 <= k <= pairs.len(),
    ensures
        nodes.len() <= labelled(nodes, start, bases, pairs.take(k)).len() <= labelled(
            nodes,
            start,
            bases,
            pairs,
        ).len(),
    decreases pairs.len() - k,
{
    lemma_labelled_at_least(nodes, start, bases, pairs.take(k));
    if k < pairs.len() {
        lemma_labelled_grows(nodes, start, bases, pairs, k + 1);
        assert(pairs.take(k + 1).drop_last() == pairs.take(k));
    } else {
        assert(pairs.take(k) == pairs);
    }
}

proof fn lemma_labelled_at_least(
    nodes: Seq<(Seq<char>, Seq<char>)>,
    start: int,
    bases: Seq<Seq<char>>,
    pairs: Seq<(usize, usize)>,
)
    ensures
        nodes.len() <= labelled(nodes, start, bases, pairs).len(),
    decreases pairs.len(),
{
    if pairs.len() > 0 {
        lemma_labelled_at_least(nodes, start, bases, pairs.drop_last());
    }
}

proof fn lemma_linked_at_least(
    g: (Seq<(Seq<char>, Seq<char>)>, Seq<(usize, usize)>),
    start: int,
    bases: Seq<Seq<char>>,
    alts: Seq<Seq<char>>,
    pairs: Seq<(usize, usize)>,
)
    ensures
        g.0.len() <= linked(g, start, bases, alts, pairs).0.len(),
        linked(g, start, bases, alts, pairs).1.len() == g.1.len() + 2 * pairs.len(),
    decreases pairs.len(),
{
    if pairs.len() > 0 {
        lemma_linked_at_least(g, start, bases, alts, pairs.drop_last());
    }
}

proof fn lemma_linked_grows(
    g: (Seq<(Seq<char>, Seq<char>)>, Seq<(usize, usize)>),
    start: int,
    bases: Seq<Seq<char>>,
    alts: Seq<Seq<char>>,
    pairs: Seq<(usize, usize)>,
    k: int,
)
    requires
        0 <= k <= pairs.len(),
    ensures
        linked(g, start, bases, alts, pairs.take(k)).0.len() <= linked(
            g,
            start,
            bases,
            alts,
            pairs,
        ).0.len(),
        linked(g, start, bases, alts, pairs.take(k)).1.len() <= linked(
            g,
            start,
            bases,
            alts,
            pairs,
        ).1.len(),
    decreases pairs.len() - k,
{
    lemma_linked_at_least(g, start, bases, alts, pairs.take(k));
    lemma_linked_at_least(g, start, bases, alts, pairs);
    if k < pairs.len() {
        lemma_linked_grows(g, start, bases, alts, pairs, k + 1);
        assert(pairs.take(k + 1).drop_last() == pairs.take(k));
    } else {
        assert(pairs.take(k) == pairs);
    }
}

/// Builds the currency graph on top of `graph`.
///
/// Every base currency is taken with every alt currency, base by base in
/// list order. Where the alt symbol followed by the base symbol is a symbol
/// in `clean`, the pair is valid. A first pass gives the base currency of
/// every valid pair a node labelled `"base"`. A second pass gives the alt
/// currency of every valid pair a node labelled `"alt"`, unless the currency
/// has a node already, and joins the two nodes by an edge each way. No label
/// is ever written twice. The nodes and edges that `graph` came with stay as
/// they are and in front.
///
/// The graph to be built has to fit the index type of the graph: at most
/// `u32::MAX` nodes and edges.
pub fn create_graph(graph: CurrencyGraph, base: &[BaseCurrency], alt: &[AltCurrency], clean: &[ParsedPairs]) -> (r:
    CurrencyGraph)
    requires
        built(
            graph_nodes(graph),
            graph_edges(graph),
            base_symbols(base@),
            alt_symbols(alt@),
            pair_symbols(clean@),
        ).0.len() <= u32::MAX,
        built(
            graph_nodes(graph),
            graph_edges(graph),
            base_symbols(base@),
            alt_symbols(alt@),
            pair_symbols(clean@),
        ).1.len() <= u32::MAX,
    ensures
        (graph_nodes(r), graph_edges(r)) == built(
            graph_nodes(graph),
            graph_edges(graph),
            base_symbols(base@),
            alt_symbols(alt@),
            pair_symbols(clean@),
        ),
{
    let ghost bases = base_symbols(base@);
    let ghost alts = alt_symbols(alt@);
    let ghost nodes0 = graph_nodes(graph);
    let ghost edges0 = graph_edges(graph);
    let mut graph = graph;
    let start = node_count(&graph);
    let pairs = list_valid_pairs(base, alt, clean);
    let ghost first = labelled(nodes0, start as int, bases, pairs@);
    proof {
        lemma_linked_at_least((first, edges0), start as int, bases, alts, pairs@);
        lemma_labelled_at_least(nodes0, start as int, bases, pairs@);
    }
    let mut k: usize = 0;
    while k < pairs.len()
        invariant
            k <= pairs.len(),
            start == nodes0.len(),
            bases == base_symbols(base@),
            first == labelled(nodes0, start as int, bases, pairs@),
            first.len() <= u32::MAX,
            forall|j: int| 0 <= j < pairs.len() ==> (#[trigger] pairs[j]).0 < base.len() && pairs[j].1 < alt.len(),
            graph_nodes(graph) == labelled(nodes0, start as int, bases, pairs@.take(k as int)),
            graph_edges(graph) == edges0,
        decreases pairs.len() - k,
    {
        proof {
            lemma_labelled_grows(nodes0, start as int, bases, pairs@, k as int);
            lemma_labelled_grows(nodes0, start as int, bases, pairs@, k + 1);
            assert(pairs@.take(k + 1).drop_last() == pairs@.take(k as int));
        }
        let _ = add_unique_node(&mut graph, start, base[pairs[k].0].symbol.as_str(), "base");
        k += 1;
    }
    assert(pairs@.take(k as int) == pairs@);
    let ghost all = linked((first, edges0), start as int, bases, alts, pairs@);
    let mut k: usize = 0;
    while k < pairs.len()
        invariant
            k <= pairs.len(),
            start == nodes0.len(),
            bases == base_symbols(base@),
            alts == alt_symbols(alt@),
            all == linked((first, edges0), start as int, bases, alts, pairs@),
            all.0.len() <= u32::MAX,
            all.1.len() <= u32::MAX,
            start <= first.len(),
            forall|j: int| 0 <= j < pairs.len() ==> (#[trigger] pairs[j]).0 < base.len() && pairs[j].1 < alt.len(),
            (graph_nodes(graph), graph_edges(graph)) == linked(
                (first, edges0),
                start as int,
                bases,
                alts,
                pairs@.take(k as int),
            ),
        decreases pairs.len() - k,
    {
        let ghost before = (graph_nodes(graph), graph_edges(graph));
        proof {
            lemma_linked_grows((first, edges0), start as int, bases, alts, pairs@, k as int);
            lemma_linked_grows((first, edges0), start as int, bases, alts, pairs@, k + 1);
            lemma_linked_at_least((first, edges0), start as int, bases, alts, pairs@.take(k as int));
            assert(pairs@.take(k + 1).drop_last() == pairs@.take(k as int));
            let base_symbol = bases[pairs[k as int].0 as int];
            let alt_symbol = alts[pairs[k as int].1 as int];
            lemma_with_node_grows(before.0, start as int, base_symbol, ""@);
            lemma_with_node_grows(
                with_node(before.0, start as int, base_symbol, ""@),
                start as int,
                alt_symbol,
                "alt"@,
            );
        }
        let b = add_unique_node(&mut graph, start, base[pairs[k].0].symbol.as_str(), "");
        let a = add_unique_node(&mut graph, start, alt[pairs[k].1].symbol.as_str(), "alt");
        proof {
            lemma_find_node(graph_nodes(graph), bases[pairs[k as int].0 as int], start as int);
            lemma_find_node_after_push(
                with_node(before.0, start as int, bases[pairs[k as int].0 as int], ""@),
                bases[pairs[k as int].0 as int],
                start as int,
                (alts[pairs[k as int].1 as int], "alt"@),
            );
        }
        add_edge(&mut graph, b, a);
        add_edge(&mut graph, a, b);
        k += 1;
    }
    assert(pairs@.take(k as int) == pairs@);
    graph
}

/// Builds the currency graph of the lists from nothing, where it is sure
/// to fit: a build adds at most two nodes and two edges for every base
/// currency taken with every alt currency, so twice the product of the two
/// list lengths must not exceed `u32::MAX`.
pub fn build_graph(base: &[BaseCurrency], alt: &[AltCurrency], clean: &[ParsedPairs]) -> (r: Option<
    CurrencyGraph,
>)
    ensures
        r is Some <==> 2 * base.len() * alt.len() <= u32::MAX,
        r is Some ==> (graph_nodes(r->Some_0), graph_edges(r->Some_0)) == built(
            no_nodes(),
            no_edges(),
            base_symbols(base@),
            alt_symbols(alt@),
            pair_symbols(clean@),
        ),
{
    let fits = match base.len().checked_mul(alt.len()) {
        Some(product) => match product.checked_mul(2) {
            Some(twice) => twice <= u32::MAX as usize,
            None => false,
        },
        None => false,
    };
    assert(fits <==> 2 * base.len() * alt.len() <= u32::MAX) by (nonlinear_arith)
        requires
            fits <==> (base.len() * alt.len() <= usize::MAX && (base.len() * alt.len()) * 2
                <= usize::MAX && (base.len() * alt.len()) * 2 <= u32::MAX),
    ;
    if !fits {
        return None;
    }
    let graph = new_graph();
    proof {
        lemma_built_graph(
            no_nodes(),
            no_edges(),
            base_symbols(base@),
            alt_symbols(alt@),
            pair_symbols(clean@),
        );
        assert(2 * valid_pairs(
            base_symbols(base@),
            alt_symbols(alt@),
            pair_symbols(clean@),
            base.len() as int,
        ).len() <= 2 * base.len() * alt.len()) by (nonlinear_arith)
            requires
                valid_pairs(
                    base_symbols(base@),
                    alt_symbols(alt@),
                    pair_symbols(clean@),
                    base.len() as int,
                ).len() <= base.len() * alt.len(),
        ;
    }
    Some(create_graph(graph, base, alt, clean))
}

} // verus!
