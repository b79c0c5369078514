use vstd::prelude::*;

use petgraph::graph::{EdgeIndex, Graph, NodeIndex};
use petgraph::Directed;

verus! {

#[verifier::external_type_specification]
#[verifier::external_body]
#[verifier::reject_recursive_types(N)]
#[verifier::reject_recursive_types(E)]
#[verifier::reject_recursive_types(Ty)]
#[verifier::reject_recursive_types(Ix)]
pub struct ExGraph<N, E, Ty, Ix>(Graph<N, E, Ty, Ix>);

#[verifier::external_type_specification]
#[verifier::external_body]
pub struct ExDirected(Directed);

/// The directed graph that holds a module's statement ids as node weights and
/// edge-label indices as edge weights, with `usize` indices.
pub type IdGraph = Graph<usize, usize, Directed, usize>;

/// The node weights of `g`, by node index.
pub uninterp spec fn graph_nodes(g: IdGraph) -> Seq<usize>;

/// The edges of `g` as `(source, target, weight)`, by edge index.
pub uninterp spec fn graph_edges(g: IdGraph) -> Seq<(usize, usize, usize)>;

/// `g` has an edge from `a` to `b`.
pub open spec fn has_edge(g: IdGraph, a: usize, b: usize) -> bool {
    exists|e: int| 0 <= e < graph_edges(g).len() && (#[trigger] graph_edges(g)[e]).0 == a && graph_edges(g)[e].1 == b
}

/// Relies on `Graph::default`: a graph without nodes or edges.
#[verifier::external_body]
pub(crate) fn graph_new() -> (g: IdGraph)
    ensures
        graph_nodes(g) == Seq::<usize>::empty(),
        graph_edges(g) == Seq::<(usize, usize, usize)>::empty(),
{
    Graph::default()
}

/// Relies on `Graph::add_node`: appends a node, whose index is the old node
/// count (it cannot panic with `usize` indices).
#[verifier::external_body]
pub(crate) fn graph_add_node(g: &mut IdGraph, weight: usize) -> (r: usize)
    ensures
        r == graph_nodes(*old(g)).len(),
        graph_nodes(*final(g)) == graph_nodes(*old(g)).push(weight),
        graph_edges(*final(g)) == graph_edges(*old(g)),
{
    g.add_node(weight).index()
}

/// Relies on `Graph::add_edge`: appends an edge; it panics on a missing node,
/// so both ends must exist.
#[verifier::external_body]
pub(crate) fn graph_add_edge(g: &mut IdGraph, a: usize, b: usize, weight: usize)
    requires
        a < graph_nodes(*old(g)).len(),
        b < graph_nodes(*old(g)).len(),
    ensures
        graph_nodes(*final(g)) == graph_nodes(*old(g)),
        graph_edges(*final(g)) == graph_edges(*old(g)).push((a, b, weight)),
{
    g.add_edge(NodeIndex::new(a), NodeIndex::new(b), weight);
}

/// Relies on `Graph::find_edge`: an edge from `a` to `b`, if there is one.
#[verifier::external_body]
pub(crate) fn graph_find_edge(g: &IdGraph, a: usize, b: usize) -> (r: Option<usize>)
    ensures
        r is Some <==> has_edge(*g, a, b),
        r is Some ==> (r->0 < graph_edges(*g).len() && graph_edges(*g)[r->0 as int].0 == a && graph_edges(*g)[r->0 as int].1 == b),
{
    g.find_edge(NodeIndex::new(a), NodeIndex::new(b)).map(|e| e.index())
}

/// Relies on `Graph::edge_weight`: the weight of edge `e`, if it exists.
#[verifier::external_body]
pub(crate) fn graph_edge_weight(g: &IdGraph, e: usize) -> (r: Option<usize>)
    ensures
        e < graph_edges(*g).len() ==> r == Some(graph_edges(*g)[e as int].2),
        e >= graph_edges(*g).len() ==> r is None,
{
    g.edge_weight(EdgeIndex::new(e)).copied()
}

/// Relies on `Graph::neighbors` of a directed graph: the target of each edge
/// leaving `a`, one per edge, so that two equal entries come from two
/// different edges.
#[verifier::external_body]
pub(crate) fn graph_neighbors(g: &IdGraph, a: usize) -> (r: Vec<usize>)
    ensures
        forall|k: int| 0 <= k < r@.len() ==> has_edge(*g, a, #[trigger] r@[k]),
        forall|e: int| #![trigger graph_edges(*g)[e]] 0 <= e < graph_edges(*g).len() && graph_edges(*g)[e].0 == a ==> exists|k: int|
            0 <= k < r@.len() && r@[k] == graph_edges(*g)[e].1,
        forall|j: int, k: int| 0 <= j < r@.len() && 0 <= k < r@.len() && j != k && #[trigger] r@[j] == #[trigger] r@[k]
            ==> exists|e1: int, e2: int| 0 <= e1 < graph_edges(*g).len() && 0 <= e2 < graph_edges(*g).len() && e1 != e2
                && (#[trigger] graph_edges(*g)[e1]).0 == a && graph_edges(*g)[e1].1 == r@[j]
                && (#[trigger] graph_edges(*g)[e2]).0 == a && graph_edges(*g)[e2].1 == r@[j],
{
    g.neighbors(NodeIndex::new(a)).map(|n| n.index()).collect()
}

} // verus!
