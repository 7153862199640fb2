//! The shape of a task graph, held by petgraph.
//!
//! A directed graph is described by its node labels, in index order, and by its edges as
//! pairs of node indices, oldest first. This module says what the petgraph operations do
//! in those terms, and proves what acyclicity means for such a graph.

use crate::text::lemma_filter_push;
use vstd::prelude::*;

verus! {

/// petgraph's graph type.
#[verifier::external_type_specification]
#[verifier::external_body]
#[verifier::reject_recursive_types(N)]
#[verifier::reject_recursive_types(E)]
#[verifier::reject_recursive_types(Ty)]
#[verifier::reject_recursive_types(Ix)]
pub struct ExGraph<N, E, Ty, Ix>(petgraph::graph::Graph<N, E, Ty, Ix>);

/// petgraph's marker for directed graphs.
#[verifier::external_type_specification]
#[verifier::external_body]
pub struct ExDirected(petgraph::Directed);

/// The node labels of a graph, in index order.
pub uninterp spec fn graph_labels(
    graph: petgraph::graph::Graph<u128, (), petgraph::Directed, u32>,
) -> Seq<u128>;

/// The edges of a graph as pairs of node indices, in the order in which they were added. Around
/// every node petgraph keeps that order, and only there can it be read off: how edges that share
/// no node are listed is nothing but this name's bookkeeping.
pub uninterp spec fn graph_edges(
    graph: petgraph::graph::Graph<u128, (), petgraph::Directed, u32>,
) -> Seq<(int, int)>;

/// The order in which petgraph lists the nodes of a graph with so many nodes and these
/// edges, dependencies first; or a node on a cycle, when there is one.
pub uninterp spec fn toposort_of(count: nat, edges: Seq<(int, int)>) -> Result<Seq<int>, int>;

/// Numbers as mathematical integers.
pub open spec fn ints(s: Seq<usize>) -> Seq<int> {
    s.map_values(|i: usize| i as int)
}

/// Whether an edge leads into node `n`.
pub open spec fn leads_into(n: int) -> spec_fn((int, int)) -> bool {
    |e: (int, int)| e.1 == n
}

/// Whether an edge leads out of node `n`.
pub open spec fn leads_out_of(n: int) -> spec_fn((int, int)) -> bool {
    |e: (int, int)| e.0 == n
}

/// Whether an edge leads anywhere but into node `n`.
pub open spec fn leads_elsewhere(n: int) -> spec_fn((int, int)) -> bool {
    |e: (int, int)| e.1 != n
}

/// Whether an edge does not touch node `n`.
pub open spec fn stays_apart(n: int) -> spec_fn((int, int)) -> bool {
    |e: (int, int)| e.0 != n && e.1 != n
}

/// Where the edges into node `n` come from, oldest edge first.
pub open spec fn sources(edges: Seq<(int, int)>, n: int) -> Seq<int> {
    edges.filter(leads_into(n)).map_values(|e: (int, int)| e.0)
}

/// Where the edges out of node `n` lead, oldest edge first.
pub open spec fn targets(edges: Seq<(int, int)>, n: int) -> Seq<int> {
    edges.filter(leads_out_of(n)).map_values(|e: (int, int)| e.1)
}

/// The edges that do not touch node `n`.
pub open spec fn apart_from(edges: Seq<(int, int)>, n: int) -> Seq<(int, int)> {
    edges.filter(stays_apart(n))
}

/// The edges that do not lead into node `n`.
pub open spec fn not_into(edges: Seq<(int, int)>, n: int) -> Seq<(int, int)> {
    edges.filter(leads_elsewhere(n))
}

/// The edges without the youngest one equal to `edge`.
pub open spec fn without_youngest(edges: Seq<(int, int)>, edge: (int, int)) -> Seq<(int, int)>
    decreases edges.len(),
{
    if edges.len() == 0 {
        edges
    } else if edges.last() == edge {
        edges.drop_last()
    } else {
        without_youngest(edges.drop_last(), edge).push(edges.last())
    }
}

/// Whether a walk of exactly `steps` edges leads from `a` to `b`.
pub open spec fn walk(edges: Seq<(int, int)>, a: int, b: int, steps: nat) -> bool
    decreases steps,
{
    if steps == 0 {
        a == b
    } else {
        exists|c: int| #[trigger]
            edges.contains((a, c)) && walk(edges, c, b, (steps - 1) as nat)
    }
}

/// Whether some walk leads from `a` to `b`.
pub open spec fn reaches(edges: Seq<(int, int)>, a: int, b: int) -> bool {
    exists|steps: nat| #[trigger] walk(edges, a, b, steps)
}

/// Whether node `n` lies on a cycle.
pub open spec fn on_cycle(edges: Seq<(int, int)>, n: int) -> bool {
    exists|steps: nat| steps >= 1 && #[trigger] walk(edges, n, n, steps)
}

/// Whether `order` lists every node once, with the start of every edge before its end.
pub open spec fn is_topological(order: Seq<int>, count: nat, edges: Seq<(int, int)>) -> bool {
    &&& order.len() == count
    &&& order.no_duplicates()
    &&& forall|i: int| 0 <= i < order.len() ==> 0 <= #[trigger] order[i] < count
    &&& forall|n: int| 0 <= n < count ==> #[trigger] order.contains(n)
    &&& forall|k: int, i: int, j: int|
        #![trigger edges[k], order[i], order[j]]
        0 <= k < edges.len() && 0 <= i < order.len() && 0 <= j < order.len() && order[i]
            == edges[k].0 && order[j] == edges[k].1 ==> i < j
}

/// Whether the nodes can be listed with the start of every edge before its end.
pub open spec fn sortable(count: nat, edges: Seq<(int, int)>) -> bool {
    exists|order: Seq<int>| #[trigger] is_topological(order, count, edges)
}

/// Whether every edge joins two of the first `count` nodes.
pub open spec fn in_range(count: nat, edges: Seq<(int, int)>) -> bool {
    forall|k: int|
        0 <= k < edges.len() ==> 0 <= (#[trigger] edges[k]).0 < count && 0 <= edges[k].1 < count
}

// ---------------------------------------------------------------------------
// petgraph
// ---------------------------------------------------------------------------
/// `Graph::new` (as `DiGraph::new`): a graph without nodes and edges.
#[verifier::external_body]
pub(crate) fn new_graph() -> (r: petgraph::graph::Graph<u128, (), petgraph::Directed, u32>)
    ensures
        graph_labels(r) == Seq::<u128>::empty(),
        graph_edges(r) == Seq::<(int, int)>::empty(),
{
    petgraph::graph::DiGraph::new()
}

/// `Graph::clone`: a graph with the same nodes and edges.
#[verifier::external_body]
pub(crate) fn clone_graph(
    graph: &petgraph::graph::Graph<u128, (), petgraph::Directed, u32>,
) -> (r: petgraph::graph::Graph<u128, (), petgraph::Directed, u32>)
    ensures
        graph_labels(r) == graph_labels(*graph),
        graph_edges(r) == graph_edges(*graph),
{
    graph.clone()
}

/// `Graph::add_node`: the label takes the next index. It panics when the index type is
/// used up.
#[verifier::external_body]
pub(crate) fn add_node(
    graph: &mut petgraph::graph::Graph<u128, (), petgraph::Directed, u32>,
    label: u128,
) -> (r: usize)
    requires
        graph_labels(*old(graph)).len() < u32::MAX,
    ensures
        r == graph_labels(*old(graph)).len(),
        graph_labels(*final(graph)) == graph_labels(*old(graph)).push(label),
        graph_edges(*final(graph)) == graph_edges(*old(graph)),
{
    graph.add_node(label).index()
}

/// `Graph::add_edge`: one more edge, also where there already is an equal one. It panics on
/// an index without a node, and when the index type for edges is used up.
#[verifier::external_body]
pub(crate) fn add_edge(
    graph: &mut petgraph::graph::Graph<u128, (), petgraph::Directed, u32>,
    from: usize,
    to: usize,
)
    requires
        from < graph_labels(*old(graph)).len(),
        to < graph_labels(*old(graph)).len(),
        graph_edges(*old(graph)).len() < u32::MAX,
    ensures
        graph_labels(*final(graph)) == graph_labels(*old(graph)),
        graph_edges(*final(graph)) == graph_edges(*old(graph)).push((from as int, to as int)),
{
    graph.add_edge((from as u32).into(), (to as u32).into(), ());
}

/// `Graph::remove_edge` on the edge that `Graph::find_edge` gives, which is the youngest one
/// that joins the two nodes. The remaining edges keep their order around every node.
#[verifier::external_body]
pub(crate) fn remove_edge(
    graph: &mut petgraph::graph::Graph<u128, (), petgraph::Directed, u32>,
    from: usize,
    to: usize,
)
    requires
        from < graph_labels(*old(graph)).len() <= u32::MAX,
        to < graph_labels(*old(graph)).len(),
    ensures
        graph_labels(*final(graph)) == graph_labels(*old(graph)),
        graph_edges(*final(graph)) == without_youngest(
            graph_edges(*old(graph)),
            (from as int, to as int),
        ),
{
    if let Some(edge) = graph.find_edge((from as u32).into(), (to as u32).into()) {
        graph.remove_edge(edge);
    }
}

/// `Graph::remove_node` on the node with the highest index: the node goes, and with it every
/// edge that touches it. No other node changes its index, and the remaining edges keep their
/// order around every node.
#[verifier::external_body]
pub(crate) fn remove_node(
    graph: &mut petgraph::graph::Graph<u128, (), petgraph::Directed, u32>,
    node: usize,
)
    requires
        node + 1 == graph_labels(*old(graph)).len() <= u32::MAX,
    ensures
        graph_labels(*final(graph)) == graph_labels(*old(graph)).drop_last(),
        graph_edges(*final(graph)) == apart_from(graph_edges(*old(graph)), node as int),
{
    graph.remove_node((node as u32).into());
}

/// `Graph::neighbors_directed`: the nodes at the other end of the edges into `node`, or out
/// of it, youngest edge first.
#[verifier::external_body]
pub(crate) fn neighbors(
    graph: &petgraph::graph::Graph<u128, (), petgraph::Directed, u32>,
    node: usize,
    incoming: bool,
) -> (r: Vec<usize>)
    requires
        node < graph_labels(*graph).len() <= u32::MAX,
    ensures
        ints(r@) == (if incoming {
            sources(graph_edges(*graph), node as int)
        } else {
            targets(graph_edges(*graph), node as int)
        }).reverse(),
{
    let direction = [petgraph::Direction::Outgoing, petgraph::Direction::Incoming][incoming as usize];
    graph.neighbors_directed((node as u32).into(), direction).map(|n| n.index()).collect()
}

/// `petgraph::algo::toposort`: every node once, each before the nodes its edges lead to; or,
/// exactly when the graph has a cycle, a node on one. Which of the possible orders it is
/// depends on the number of nodes and on the edges alone.
#[verifier::external_body]
pub(crate) fn toposort(graph: &petgraph::graph::Graph<u128, (), petgraph::Directed, u32>) -> (r:
    Result<Vec<usize>, usize>)
    ensures
        match r {
            Ok(order) => {
                &&& toposort_of(graph_labels(*graph).len(), graph_edges(*graph)) == Ok::<
                    Seq<int>,
                    int,
                >(ints(order@))
                &&& is_topological(
                    ints(order@),
                    graph_labels(*graph).len(),
                    graph_edges(*graph),
                )
            },
            Err(node) => {
                &&& toposort_of(graph_labels(*graph).len(), graph_edges(*graph)) == Err::<
                    Seq<int>,
                    int,
                >(node as int)
                &&& node < graph_labels(*graph).len()
                &&& on_cycle(graph_edges(*graph), node as int)
            },
        },
{
    match petgraph::algo::toposort(graph, None) {
        Ok(order) => Ok(order.into_iter().map(|n| n.index()).collect()),
        Err(cycle) => Err(cycle.node_id().index()),
    }
}

// ---------------------------------------------------------------------------
// Edges in and out
// ---------------------------------------------------------------------------
/// The sources of a graph that grew by one edge.
pub proof fn lemma_sources_push(edges: Seq<(int, int)>, e: (int, int), n: int)
    ensures
        sources(edges.push(e), n) == if e.1 == n {
            sources(edges, n).push(e.0)
        } else {
            sources(edges, n)
        },
{
    lemma_filter_push(edges, e, leads_into(n));
    assert(sources(edges.push(e), n) =~= if e.1 == n {
        sources(edges, n).push(e.0)
    } else {
        sources(edges, n)
    });
}

/// A node has a source exactly where an edge leads into it from there.
pub proof fn lemma_sources_contains(edges: Seq<(int, int)>, n: int, s: int)
    ensures
        sources(edges, n).contains(s) <==> edges.contains((s, n)),
{
    broadcast use vstd::seq_lib::group_filter_ensures;

    let into = leads_into(n);
    let kept = edges.filter(into);
    if edges.contains((s, n)) {
        let k = choose|k: int| 0 <= k < edges.len() && edges[k] == (s, n);
        assert(kept.contains(edges[k]));
        let j = choose|j: int| 0 <= j < kept.len() && kept[j] == (s, n);
        assert(sources(edges, n)[j] == s);
    }
    if sources(edges, n).contains(s) {
        let j = choose|j: int| 0 <= j < sources(edges, n).len() && sources(edges, n)[j] == s;
        let e = kept[j];
        assert(into(e));
        assert(kept.contains(e));
        edges.lemma_filter_contains_rev(into, e);
        assert(e == (s, n));
    }
}

/// A node has a target exactly where an edge leads there from it.
pub proof fn lemma_targets_contains(edges: Seq<(int, int)>, n: int, t: int)
    ensures
        targets(edges, n).contains(t) <==> edges.contains((n, t)),
{
    broadcast use vstd::seq_lib::group_filter_ensures;

    let out = leads_out_of(n);
    let kept = edges.filter(out);
    if edges.contains((n, t)) {
        let k = choose|k: int| 0 <= k < edges.len() && edges[k] == (n, t);
        assert(kept.contains(edges[k]));
        let j = choose|j: int| 0 <= j < kept.len() && kept[j] == (n, t);
        assert(targets(edges, n)[j] == t);
    }
    if targets(edges, n).contains(t) {
        let j = choose|j: int| 0 <= j < targets(edges, n).len() && targets(edges, n)[j] == t;
        let e = kept[j];
        assert(out(e));
        assert(kept.contains(e));
        edges.lemma_filter_contains_rev(out, e);
        assert(e == (n, t));
    }
}

/// Filtering keeps everything when everything passes.
pub proof fn lemma_filter_everything<A>(s: Seq<A>, keep: spec_fn(A) -> bool)
    requires
        forall|i: int| 0 <= i < s.len() ==> keep(#[trigger] s[i]),
    ensures
        s.filter(keep) == s,
    decreases s.len(),
{
    reveal(Seq::filter);
    if s.len() > 0 {
        lemma_filter_everything(s.drop_last(), keep);
        assert(keep(s[s.len() - 1]));
        assert(s.drop_last().push(s.last()) =~= s);
    } else {
        assert(s.filter(keep) =~= s);
    }
}

/// Filtering keeps nothing when nothing passes.
pub proof fn lemma_filter_nothing<A>(s: Seq<A>, keep: spec_fn(A) -> bool)
    requires
        forall|i: int| 0 <= i < s.len() ==> !keep(#[trigger] s[i]),
    ensures
        s.filter(keep) == Seq::<A>::empty(),
    decreases s.len(),
{
    reveal(Seq::filter);
    if s.len() > 0 {
        lemma_filter_nothing(s.drop_last(), keep);
        assert(!keep(s[s.len() - 1]));
    } else {
        assert(s.filter(keep) =~= Seq::<A>::empty());
    }
}

/// Filtering two sequences one after the other.
pub proof fn lemma_filter_concat<A>(a: Seq<A>, b: Seq<A>, keep: spec_fn(A) -> bool)
    ensures
        (a + b).filter(keep) == a.filter(keep) + b.filter(keep),
    decreases b.len(),
{
    reveal(Seq::filter);
    if b.len() > 0 {
        lemma_filter_concat(a, b.drop_last(), keep);
        assert((a + b).drop_last() =~= a + b.drop_last());
        assert((a + b).last() == b.last());
        if keep(b.last()) {
            assert(a.filter(keep) + b.drop_last().filter(keep).push(b.last()) =~= (a.filter(keep)
                + b.drop_last().filter(keep)).push(b.last()));
        }
    } else {
        assert(a + b =~= a);
        assert(b.filter(keep) =~= Seq::<A>::empty());
        assert(a.filter(keep) + b.filter(keep) =~= a.filter(keep));
    }
}

/// The edges from each of `from` to `to`.
pub open spec fn fan_in(from: Seq<int>, to: int) -> Seq<(int, int)> {
    from.map_values(|s: int| (s, to))
}

/// A node that just got its first edges has exactly their sources.
pub proof fn lemma_sources_fan_in(edges: Seq<(int, int)>, from: Seq<int>, to: int, n: int)
    ensures
        sources(edges + fan_in(from, to), n) == if n == to {
            sources(edges, n) + from
        } else {
            sources(edges, n)
        },
{
    let into = leads_into(n);
    let fan = fan_in(from, to);
    lemma_filter_concat(edges, fan, into);
    if n == to {
        lemma_filter_everything(fan, into);
        assert(sources(edges + fan, n) =~= sources(edges, n) + from);
    } else {
        lemma_filter_nothing(fan, into);
        assert(sources(edges + fan, n) =~= sources(edges, n));
    }
}

/// A node without edges into it has no sources.
pub proof fn lemma_no_sources(edges: Seq<(int, int)>, n: int)
    requires
        forall|k: int| 0 <= k < edges.len() ==> (#[trigger] edges[k]).1 != n,
    ensures
        sources(edges, n) == Seq::<int>::empty(),
{
    lemma_filter_nothing(edges, leads_into(n));
    assert(sources(edges, n) =~= Seq::<int>::empty());
}

// ---------------------------------------------------------------------------
// Walks
// ---------------------------------------------------------------------------
/// A walk survives when the edges it may use are all kept.
pub proof fn lemma_walk_grows(
    edges: Seq<(int, int)>,
    more: Seq<(int, int)>,
    a: int,
    b: int,
    steps: nat,
)
    requires
        forall|e: (int, int)| #[trigger] edges.contains(e) ==> more.contains(e),
        walk(edges, a, b, steps),
    ensures
        walk(more, a, b, steps),
    decreases steps,
{
    if steps > 0 {
        let c = choose|c: int| #[trigger]
            edges.contains((a, c)) && walk(edges, c, b, (steps - 1) as nat);
        lemma_walk_grows(edges, more, c, b, (steps - 1) as nat);
        assert(more.contains((a, c)));
    }
}

/// Two walks make one.
pub proof fn lemma_walk_joins(
    edges: Seq<(int, int)>,
    a: int,
    b: int,
    c: int,
    first: nat,
    second: nat,
)
    requires
        walk(edges, a, b, first),
        walk(edges, b, c, second),
    ensures
        walk(edges, a, c, first + second),
    decreases first,
{
    if first > 0 {
        let d = choose|d: int| #[trigger]
            edges.contains((a, d)) && walk(edges, d, b, (first - 1) as nat);
        lemma_walk_joins(edges, d, b, c, (first - 1) as nat, second);
        assert(edges.contains((a, d)));
        assert((first + second - 1) as nat == (first - 1) as nat + second);
    }
}

/// Reaching is transitive.
pub proof fn lemma_reaches_joins(edges: Seq<(int, int)>, a: int, b: int, c: int)
    requires
        reaches(edges, a, b),
        reaches(edges, b, c),
    ensures
        reaches(edges, a, c),
{
    let first = choose|steps: nat| #[trigger] walk(edges, a, b, steps);
    let second = choose|steps: nat| #[trigger] walk(edges, b, c, steps);
    lemma_walk_joins(edges, a, b, c, first, second);
}

/// Every node reaches itself, and the ends of its edges.
pub proof fn lemma_reaches_step(edges: Seq<(int, int)>, a: int, b: int)
    ensures
        reaches(edges, a, a),
        edges.contains((a, b)) ==> reaches(edges, a, b),
{
    assert(walk(edges, a, a, 0));
    if edges.contains((a, b)) {
        assert(walk(edges, b, b, 0));
        assert(walk(edges, a, b, 1));
    }
}

/// A walk in a graph that grew by one edge either avoids that edge, or leads to its start
/// and on from its end.
pub proof fn lemma_walk_push(
    edges: Seq<(int, int)>,
    e: (int, int),
    a: int,
    b: int,
    steps: nat,
)
    requires
        walk(edges.push(e), a, b, steps),
    ensures
        walk(edges, a, b, steps) || (reaches(edges, a, e.0) && reaches(edges, e.1, b)),
    decreases steps,
{
    let more = edges.push(e);
    if steps > 0 {
        let c = choose|c: int| #[trigger]
            more.contains((a, c)) && walk(more, c, b, (steps - 1) as nat);
        lemma_walk_push(edges, e, c, b, (steps - 1) as nat);
        let k = choose|k: int| 0 <= k < more.len() && more[k] == (a, c);
        if k < edges.len() {
            assert(edges[k] == (a, c));
            assert(edges.contains((a, c)));
            if !walk(edges, c, b, (steps - 1) as nat) {
                lemma_reaches_step(edges, a, c);
                lemma_reaches_joins(edges, a, c, e.0);
            }
        } else {
            assert(e == (a, c));
            lemma_reaches_step(edges, a, a);
            if walk(edges, c, b, (steps - 1) as nat) {
                assert(reaches(edges, e.1, b));
            }
        }
    }
}

/// In a listing with the start of every edge before its end, a walk of at least one step
/// leads forward.
pub proof fn lemma_walk_leads_forward(
    order: Seq<int>,
    count: nat,
    edges: Seq<(int, int)>,
    a: int,
    b: int,
    steps: nat,
)
    requires
        is_topological(order, count, edges),
        in_range(count, edges),
        walk(edges, a, b, steps),
        steps >= 1,
    ensures
        0 <= a < count,
        0 <= b < count,
        order.index_of(a) < order.index_of(b),
    decreases steps,
{
    let c = choose|c: int| #[trigger]
        edges.contains((a, c)) && walk(edges, c, b, (steps - 1) as nat);
    let k = choose|k: int| 0 <= k < edges.len() && edges[k] == (a, c);
    assert(0 <= edges[k].0 < count && 0 <= edges[k].1 < count);
    assert(order.contains(a) && order.contains(c));
    let i = order.index_of(a);
    let j = order.index_of(c);
    assert(order[i] == a && order[j] == c);
    assert(order[i] == edges[k].0 && order[j] == edges[k].1);
    assert(i < j);
    if steps > 1 {
        lemma_walk_leads_forward(order, count, edges, c, b, (steps - 1) as nat);
    } else {
        assert(c == b);
    }
}

/// A graph whose nodes can be listed with the start of every edge before its end has no
/// cycle.
pub proof fn lemma_sortable_is_acyclic(count: nat, edges: Seq<(int, int)>, n: int)
    requires
        sortable(count, edges),
        in_range(count, edges),
    ensures
        !on_cycle(edges, n),
{
    if on_cycle(edges, n) {
        let order = choose|order: Seq<int>| #[trigger] is_topological(order, count, edges);
        let steps = choose|steps: nat| steps >= 1 && #[trigger] walk(edges, n, n, steps);
        lemma_walk_leads_forward(order, count, edges, n, n, steps);
    }
}

/// Fewer edges are as easy to sort.
pub proof fn lemma_sortable_subset(count: nat, edges: Seq<(int, int)>, fewer: Seq<(int, int)>)
    requires
        sortable(count, edges),
        forall|k: int| 0 <= k < fewer.len() ==> edges.contains(#[trigger] fewer[k]),
    ensures
        sortable(count, fewer),
{
    let order = choose|order: Seq<int>| #[trigger] is_topological(order, count, edges);
    assert forall|k: int, i: int, j: int|
        #![trigger fewer[k], order[i], order[j]]
        0 <= k < fewer.len() && 0 <= i < order.len() && 0 <= j < order.len() && order[i]
            == fewer[k].0 && order[j] == fewer[k].1 implies i < j by {
        assert(edges.contains(fewer[k]));
        let m = choose|m: int| 0 <= m < edges.len() && edges[m] == fewer[k];
        assert(order[i] == edges[m].0 && order[j] == edges[m].1);
    }
    assert(is_topological(order, count, fewer));
}

/// A new node that only has edges into it keeps the graph sortable: it goes last.
pub proof fn lemma_sortable_new_node(count: nat, edges: Seq<(int, int)>, from: Seq<int>)
    requires
        sortable(count, edges),
        in_range(count, edges),
        forall|i: int| 0 <= i < from.len() ==> 0 <= #[trigger] from[i] < count,
    ensures
        sortable(count + 1, edges + fan_in(from, count as int)),
        in_range(count + 1, edges + fan_in(from, count as int)),
{
    let order = choose|order: Seq<int>| #[trigger] is_topological(order, count, edges);
    let longer = order.push(count as int);
    let more = edges + fan_in(from, count as int);
    assert forall|n: int| 0 <= n < count + 1 implies #[trigger] longer.contains(n) by {
        if n < count {
            assert(order.contains(n));
            let i = order.index_of(n);
            assert(longer[i] == n);
        } else {
            assert(longer[count as int] == n);
        }
    }
    assert forall|i: int| 0 <= i < longer.len() implies 0 <= #[trigger] longer[i] < count + 1 by {
        if i < order.len() {
            assert(longer[i] == order[i]);
        }
    }
    assert(longer.no_duplicates()) by {
        assert forall|i: int, j: int|
            0 <= i < longer.len() && 0 <= j < longer.len() && i != j implies longer[i]
            != longer[j] by {
            if i < order.len() {
                assert(longer[i] == order[i]);
            }
            if j < order.len() {
                assert(longer[j] == order[j]);
            }
        }
    }
    assert forall|k: int| 0 <= k < more.len() implies 0 <= (#[trigger] more[k]).0 < count + 1 && 0
        <= more[k].1 < count + 1 by {
        if k < edges.len() {
            assert(more[k] == edges[k]);
        } else {
            assert(more[k] == (from[k - edges.len()], count as int));
        }
    }
    assert forall|k: int, i: int, j: int|
        #![trigger more[k], longer[i], longer[j]]
        0 <= k < more.len() && 0 <= i < longer.len() && 0 <= j < longer.len() && longer[i]
            == more[k].0 && longer[j] == more[k].1 implies i < j by {
        if k < edges.len() {
            assert(more[k] == edges[k]);
            assert(0 <= edges[k].0 < count && 0 <= edges[k].1 < count);
            assert(i < order.len() && j < order.len());
            assert(longer[i] == order[i] && longer[j] == order[j]);
        } else {
            assert(more[k] == (from[k - edges.len()], count as int));
            if j < order.len() {
                assert(longer[j] == order[j]);
            }
            if i >= order.len() {
                assert(longer[i] == count);
            }
        }
    }
    assert(is_topological(longer, count + 1, more));
}

/// One more edge closes a cycle exactly when its end already reaches its start.
pub proof fn lemma_edge_closes_cycle(count: nat, edges: Seq<(int, int)>, e: (int, int))
    requires
        in_range(count, edges),
        0 <= e.0 < count,
        0 <= e.1 < count,
        sortable(count, edges),
    ensures
        sortable(count, edges.push(e)) ==> !reaches(edges, e.1, e.0),
        forall|n: int| #[trigger] on_cycle(edges.push(e), n) ==> reaches(edges, e.1, e.0),
{
    let more = edges.push(e);
    assert(in_range(count, more)) by {
        assert forall|k: int| 0 <= k < more.len() implies 0 <= (#[trigger] more[k]).0 < count && 0
            <= more[k].1 < count by {
            if k < edges.len() {
                assert(more[k] == edges[k]);
            }
        }
    }
    if sortable(count, more) && reaches(edges, e.1, e.0) {
        let steps = choose|steps: nat| #[trigger] walk(edges, e.1, e.0, steps);
        assert forall|x: (int, int)| #[trigger] edges.contains(x) implies more.contains(x) by {
            let k = choose|k: int| 0 <= k < edges.len() && edges[k] == x;
            assert(more[k] == x);
        }
        lemma_walk_grows(edges, more, e.1, e.0, steps);
        assert(more[edges.len() as int] == e);
        assert(more.contains((e.0, e.1)));
        assert(walk(more, e.0, e.0, steps + 1));
        assert(on_cycle(more, e.0));
        lemma_sortable_is_acyclic(count, more, e.0);
    }
    assert forall|n: int| #[trigger] on_cycle(more, n) implies reaches(edges, e.1, e.0) by {
        let steps = choose|steps: nat| steps >= 1 && #[trigger] walk(more, n, n, steps);
        lemma_walk_push(edges, e, n, n, steps);
        if walk(edges, n, n, steps) {
            assert(on_cycle(edges, n));
            lemma_sortable_is_acyclic(count, edges, n);
        } else {
            lemma_reaches_joins(edges, e.1, n, e.0);
        }
    }
}

} // verus!
