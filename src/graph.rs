//! The sequence graph: a petgraph `Graph` of symbols with integer edge weights,
//! seen by the verifier through a few named models and thin wrappers.
use vstd::prelude::*;
use petgraph::graph::{EdgeIndex, NodeIndex};
use petgraph::visit::Topo;
use petgraph::{Directed, Direction, Graph};

verus! {

#[verifier::external_type_specification]
#[verifier::external_body]
pub struct ExDirected(Directed);

#[verifier::external_type_specification]
#[verifier::external_body]
#[verifier::reject_recursive_types(N)]
#[verifier::reject_recursive_types(E)]
#[verifier::reject_recursive_types(Ty)]
#[verifier::reject_recursive_types(Ix)]
pub struct ExGraph<N, E, Ty, Ix>(Graph<N, E, Ty, Ix>);

/// Nodes hold one symbol each; edges hold a vote count.
pub type POAGraph = Graph<u8, i32, Directed, usize>;

/// The symbols of the nodes, by node index.
pub uninterp spec fn node_syms(g: POAGraph) -> Seq<u8>;

/// The edges as (source, target, weight), by edge index.
pub uninterp spec fn edge_list(g: POAGraph) -> Seq<(usize, usize, i32)>;

/// The node order in which petgraph's `Topo` walks the graph.
pub uninterp spec fn topo_order(g: POAGraph) -> Seq<usize>;

/// The order in which petgraph lists the predecessors of node `v`.
pub uninterp spec fn incoming_of(g: POAGraph, v: usize) -> Seq<usize>;

/// Sources of the edges into `v`, by edge index.
pub open spec fn sources_into(edges: Seq<(usize, usize, i32)>, v: usize) -> Seq<usize>
    decreases edges.len(),
{
    if edges.len() == 0 {
        seq![]
    } else {
        let rest = sources_into(edges.drop_last(), v);
        if edges.last().1 == v {
            rest.push(edges.last().0)
        } else {
            rest
        }
    }
}

/// Every edge goes from a lower to a higher rank.
pub open spec fn ranks_up(edges: Seq<(usize, usize, i32)>, rank: spec_fn(usize) -> int) -> bool {
    forall|e: int| 0 <= e < edges.len() ==> #[trigger] rank(edges[e].0) < rank(edges[e].1)
}

/// Some ranking of the nodes makes every edge go up: the graph has no cycle.
pub open spec fn is_acyclic(edges: Seq<(usize, usize, i32)>) -> bool {
    exists|rank: spec_fn(usize) -> int| #[trigger] ranks_up(edges, rank)
}

/// Every edge joins two of `n` nodes, and no ordered pair has two edges.
pub open spec fn edges_wf(n: int, edges: Seq<(usize, usize, i32)>) -> bool {
    &&& forall|e: int| 0 <= e < edges.len() ==> #[trigger] edges[e].0 < n && edges[e].1 < n
    &&& forall|e1: int, e2: int|
        0 <= e1 < edges.len() && 0 <= e2 < edges.len() && #[trigger] edges[e1].0 == #[trigger] edges[e2].0
            && edges[e1].1 == edges[e2].1 ==> e1 == e2
}

/// The graph's edges are well formed.
pub open spec fn graph_wf(g: POAGraph) -> bool {
    edges_wf(node_syms(g).len() as int, edge_list(g))
}

/// What a topological walk yields: distinct nodes among `n`, each after the
/// sources of all its incoming edges, and every node when there is no cycle.
pub open spec fn is_topo_walk(n: int, edges: Seq<(usize, usize, i32)>, order: Seq<usize>) -> bool {
    &&& forall|k: int| 0 <= k < order.len() ==> #[trigger] order[k] < n
    &&& forall|a: int, b: int| 0 <= a < b < order.len() ==> order[a] != order[b]
    &&& forall|k: int, e: int|
        0 <= k < order.len() && 0 <= e < edges.len() && #[trigger] edges[e].1 == #[trigger] order[k]
            ==> exists|k2: int| 0 <= k2 < k && order[k2] == edges[e].0
    &&& is_acyclic(edges) ==> order.len() == n
}

/// Relies on petgraph's `Graph::with_capacity`: a graph with no nodes and no edges.
#[verifier::external_body]
pub(crate) fn graph_with_capacity(nodes: usize, edges: usize) -> (g: POAGraph)
    ensures
        node_syms(g) == Seq::<u8>::empty(),
        edge_list(g) == Seq::<(usize, usize, i32)>::empty(),
{
    Graph::with_capacity(nodes, edges)
}

/// Relies on petgraph's `Graph::node_count`: the number of nodes.
#[verifier::external_body]
pub(crate) fn node_count(g: &POAGraph) -> (r: usize)
    ensures
        r == node_syms(*g).len(),
{
    g.node_count()
}

/// Relies on petgraph's `Graph::add_node`: the node is appended, and its index is
/// the old node count (no capacity limit with `usize` indices).
#[verifier::external_body]
pub(crate) fn add_node(g: &mut POAGraph, sym: u8) -> (r: usize)
    requires
        node_syms(*old(g)).len() < usize::MAX,
    ensures
        r == node_syms(*old(g)).len(),
        node_syms(*final(g)) == node_syms(*old(g)).push(sym),
        edge_list(*final(g)) == edge_list(*old(g)),
{
    g.add_node(sym).index()
}

/// Relies on petgraph's `Graph::add_edge`: the edge is appended; it panics when an
/// endpoint does not exist.
#[verifier::external_body]
pub(crate) fn add_edge(g: &mut POAGraph, a: usize, b: usize, w: i32) -> (r: usize)
    requires
        a < node_syms(*old(g)).len(),
        b < node_syms(*old(g)).len(),
    ensures
        r == edge_list(*old(g)).len(),
        node_syms(*final(g)) == node_syms(*old(g)),
        edge_list(*final(g)) == edge_list(*old(g)).push((a, b, w)),
{
    g.add_edge(NodeIndex::new(a), NodeIndex::new(b), w).index()
}

/// Relies on petgraph's `Graph::find_edge`: some edge from `a` to `b`, if there is one.
#[verifier::external_body]
pub(crate) fn find_edge(g: &POAGraph, a: usize, b: usize) -> (r: Option<usize>)
    ensures
        match r {
            Some(e) => e < edge_list(*g).len() && edge_list(*g)[e as int].0 == a
                && edge_list(*g)[e as int].1 == b,
            None => forall|e: int|
                0 <= e < edge_list(*g).len() ==> !(#[trigger] edge_list(*g)[e].0 == a
                    && edge_list(*g)[e].1 == b),
        },
{
    g.find_edge(NodeIndex::new(a), NodeIndex::new(b)).map(|e| e.index())
}

/// Relies on petgraph's `Index<EdgeIndex>` for `Graph`: the weight of an existing
/// edge; it panics on a missing one.
#[verifier::external_body]
pub(crate) fn edge_weight(g: &POAGraph, e: usize) -> (r: i32)
    requires
        e < edge_list(*g).len(),
    ensures
        r == edge_list(*g)[e as int].2,
{
    g[EdgeIndex::new(e)]
}

/// Relies on petgraph's `IndexMut<EdgeIndex>` for `Graph`: only the weight of edge
/// `e` changes; it panics on a missing one.
#[verifier::external_body]
pub(crate) fn set_edge_weight(g: &mut POAGraph, e: usize, w: i32)
    requires
        e < edge_list(*old(g)).len(),
    ensures
        node_syms(*final(g)) == node_syms(*old(g)),
        edge_list(*final(g)) == edge_list(*old(g)).update(
            e as int,
            (edge_list(*old(g))[e as int].0, edge_list(*old(g))[e as int].1, w),
        ),
{
    g[EdgeIndex::new(e)] = w;
}

/// Relies on petgraph's `Index<NodeIndex>` for `Graph`: the symbol of an existing
/// node; it panics on a missing one.
#[verifier::external_body]
pub(crate) fn node_symbol(g: &POAGraph, v: usize) -> (r: u8)
    requires
        v < node_syms(*g).len(),
    ensures
        r == node_syms(*g)[v as int],
{
    g[NodeIndex::new(v)]
}

/// Relies on petgraph's `Graph::neighbors_directed` with `Incoming`: the source of
/// each edge into `v`, once per edge, in the order petgraph keeps them.
#[verifier::external_body]
pub(crate) fn incoming(g: &POAGraph, v: usize) -> (r: Vec<usize>)
    ensures
        r@ == incoming_of(*g, v),
        forall|k: int| 0 <= k < r@.len() ==> #[trigger] r@[k] < node_syms(*g).len(),
        r@.to_multiset() == sources_into(edge_list(*g), v).to_multiset(),
{
    g.neighbors_directed(NodeIndex::new(v), Direction::Incoming).map(|n| n.index()).collect()
}

/// Relies on petgraph's `Topo`: each node at most once, and a node only after the
/// sources of all its incoming edges; on a graph without cycles, every node.
#[verifier::external_body]
pub(crate) fn topological_order(g: &POAGraph) -> (r: Vec<usize>)
    ensures
        r@ == topo_order(*g),
        is_topo_walk(node_syms(*g).len() as int, edge_list(*g), r@),
{
    let mut topo = Topo::new(g);
    let mut order = Vec::new();
    while let Some(n) = topo.next(g) {
        order.push(n.index());
    }
    order
}

} // verus!
