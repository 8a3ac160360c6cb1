//! The directed graphs of `petgraph` that order the nodes of a flow graph,
//! with the few of its functions that the ordering uses.
use vstd::prelude::*;
use petgraph::graph::NodeIndex;
use petgraph::Direction;

verus! {

#[verifier::external_type_specification]
#[verifier::external_body]
#[verifier::reject_recursive_types(N)]
#[verifier::reject_recursive_types(E)]
#[verifier::reject_recursive_types(Ty)]
#[verifier::reject_recursive_types(Ix)]
pub struct ExGraph<N, E, Ty, Ix>(petgraph::Graph<N, E, Ty, Ix>);

#[verifier::external_type_specification]
#[verifier::external_body]
pub struct ExDirected(petgraph::Directed);

/// The graphs used here: node weights are positions, edges carry nothing.
pub type FlowGraph = petgraph::Graph<usize, (), petgraph::Directed, u32>;

/// How many nodes a graph holds.
pub uninterp spec fn graph_node_count(g: FlowGraph) -> nat;

/// The edges of a graph, as (source, target) pairs in the order they were added.
pub uninterp spec fn graph_edges(g: FlowGraph) -> Seq<(usize, usize)>;

/// The node order that `petgraph::algo::toposort` returns for a graph with
/// the given number of nodes and edges, or `None` where it reports a cycle.
pub uninterp spec fn toposort_order(node_count: nat, edges: Seq<(usize, usize)>) -> Option<Seq<usize>>;

pub open spec fn has_edge(edges: Seq<(usize, usize)>, a: int, b: int) -> bool {
    exists|k: int| 0 <= k < edges.len() && edges[k].0 == a && edges[k].1 == b
}

/// Whether a node is the target of some edge.
pub open spec fn has_incoming(edges: Seq<(usize, usize)>, x: int) -> bool {
    exists|k: int| 0 <= k < edges.len() && edges[k].1 == x
}

/// Whether a node is the source of some edge.
pub open spec fn has_outgoing(edges: Seq<(usize, usize)>, x: int) -> bool {
    exists|k: int| 0 <= k < edges.len() && edges[k].0 == x
}

/// `p` is a walk along the edges.
pub open spec fn is_walk(edges: Seq<(usize, usize)>, p: Seq<int>) -> bool {
    &&& p.len() >= 1
    &&& forall|k: int| 0 <= k < p.len() - 1 ==> has_edge(edges, #[trigger] p[k], p[k + 1])
}

/// `b` can be reached from `a` by following edges (every node reaches itself).
pub open spec fn reachable(edges: Seq<(usize, usize)>, a: int, b: int) -> bool {
    exists|p: Seq<int>| is_walk(edges, p) && p[0] == a && p[p.len() - 1] == b
}

/// `order` lists every node exactly once, each before all of its successors.
pub open spec fn is_topological(n: nat, edges: Seq<(usize, usize)>, order: Seq<usize>) -> bool {
    &&& order.len() == n
    &&& forall|i: int| 0 <= i < n ==> #[trigger] order[i] < n
    &&& forall|x: usize| x < n ==> #[trigger] order.contains(x)
    &&& forall|i: int, j: int| 0 <= i < j < n ==> order[i] != order[j]
    &&& forall|i: int, j: int| 0 <= j <= i < n ==> !has_edge(edges, #[trigger] order[i] as int, #[trigger] order[j] as int)
}

/// The nodes, in increasing order, without edges into them (`incoming`) or
/// out of them (otherwise).
pub open spec fn externals_of(n: nat, edges: Seq<(usize, usize)>, incoming: bool) -> Seq<usize> {
    Seq::new(n, |i: int| i as usize).filter(
        |x: usize|
            if incoming {
                !has_incoming(edges, x as int)
            } else {
                !has_outgoing(edges, x as int)
            },
    )
}

/// `petgraph::Graph::new`: a graph with no nodes and no edges.
#[verifier::external_body]
pub(crate) fn graph_new() -> (g: FlowGraph)
    ensures
        graph_node_count(g) == 0,
        graph_edges(g) == Seq::<(usize, usize)>::empty(),
{
    petgraph::Graph::new()
}

/// `petgraph::Graph::add_node`: appends a node and returns its index, the
/// former node count. It panics at the index type's limit, which `requires`
/// leaves out.
#[verifier::external_body]
pub(crate) fn graph_add_node(g: &mut FlowGraph, weight: usize) -> (i: usize)
    requires
        graph_node_count(*old(g)) + 1 < u32::MAX,
    ensures
        i == graph_node_count(*old(g)),
        graph_node_count(*final(g)) == graph_node_count(*old(g)) + 1,
        graph_edges(*final(g)) == graph_edges(*old(g)),
{
    g.add_node(weight).index()
}

/// `petgraph::Graph::add_edge`: appends the edge `a -> b`. It panics on an
/// index out of bounds and at the index type's limit, which `requires` leaves out.
#[verifier::external_body]
pub(crate) fn graph_add_edge(g: &mut FlowGraph, a: usize, b: usize)
    requires
        a < graph_node_count(*old(g)),
        b < graph_node_count(*old(g)),
        graph_node_count(*old(g)) < u32::MAX,
        graph_edges(*old(g)).len() + 1 < u32::MAX,
    ensures
        graph_node_count(*final(g)) == graph_node_count(*old(g)),
        graph_edges(*final(g)) == graph_edges(*old(g)).push((a, b)),
{
    g.add_edge(NodeIndex::new(a), NodeIndex::new(b), ());
}

/// `petgraph::algo::toposort`: a topological order of all nodes, or `None`
/// where the graph has a cycle (self loops count).
#[verifier::external_body]
pub(crate) fn graph_toposort(g: &FlowGraph) -> (r: Option<Vec<usize>>)
    ensures
        match r {
            Some(order) => {
                &&& toposort_order(graph_node_count(*g), graph_edges(*g)) == Some(order@)
                &&& is_topological(graph_node_count(*g), graph_edges(*g), order@)
            },
            None => {
                &&& toposort_order(graph_node_count(*g), graph_edges(*g)) is None
                &&& forall|o: Seq<usize>| !is_topological(graph_node_count(*g), graph_edges(*g), o)
            },
        },
{
    match petgraph::algo::toposort(g, None) {
        Ok(order) => Some(order.iter().map(|i| i.index()).collect()),
        Err(_) => None,
    }
}

/// `petgraph::algo::has_path_connecting`: whether `to` can be reached from `from`.
#[verifier::external_body]
pub(crate) fn graph_has_path(g: &FlowGraph, from: usize, to: usize) -> (r: bool)
    requires
        from < graph_node_count(*g),
        to < graph_node_count(*g),
    ensures
        r == reachable(graph_edges(*g), from as int, to as int),
{
    petgraph::algo::has_path_connecting(g, NodeIndex::new(from), NodeIndex::new(to), None)
}

/// `petgraph::Graph::externals`: the sources (`incoming`) or the sinks of the
/// graph, by increasing index.
#[verifier::external_body]
pub(crate) fn graph_externals(g: &FlowGraph, incoming: bool) -> (r: Vec<usize>)
    ensures
        r@ == externals_of(graph_node_count(*g), graph_edges(*g), incoming),
{
    let dir = if incoming { Direction::Incoming } else { Direction::Outgoing };
    g.externals(dir).map(|i| i.index()).collect()
}

} // verus!
