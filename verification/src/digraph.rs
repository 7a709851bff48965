//! The directed graph that holds the hierarchy, kept in `petgraph`.
//!
//! Verus does not look inside the graph. What it holds is named by two
//! uninterpreted functions, the node labels by node number and the edges in
//! the order in which they were added, and every operation used by this
//! crate is a small function whose contract is stated over those two and
//! taken on trust.

use petgraph::graph::{Graph, NodeIndex};
use petgraph::{Directed, Direction};
use vstd::prelude::*;

verus! {

/// `petgraph::Directed`, the marker of a graph with directed edges.
#[verifier::external_type_specification]
#[verifier::external_body]
pub struct ExDirected(Directed);

/// `petgraph::graph::Graph`, opaque to the verifier.
#[verifier::external_type_specification]
#[verifier::external_body]
#[verifier::reject_recursive_types(N)]
#[verifier::reject_recursive_types(E)]
#[verifier::reject_recursive_types(Ty)]
#[verifier::reject_recursive_types(Ix)]
pub struct ExGraph<N, E, Ty, Ix>(Graph<N, E, Ty, Ix>);

/// The labels of the graph's nodes; node `i` carries `graph_labels(g)[i]`.
pub uninterp spec fn graph_labels(g: Graph<String, u32, Directed, u32>) -> Seq<Seq<char>>;

/// The graph's edges as pairs (source, target), oldest first.
pub uninterp spec fn graph_edges(g: Graph<String, u32, Directed, u32>) -> Seq<(usize, usize)>;

/// The targets of the edges that leave `a`, most recently added edge first.
pub open spec fn targets_of(edges: Seq<(usize, usize)>, a: usize) -> Seq<usize>
    decreases edges.len(),
{
    if edges.len() == 0 {
        Seq::empty()
    } else if edges.last().0 == a {
        seq![edges.last().1] + targets_of(edges.drop_last(), a)
    } else {
        targets_of(edges.drop_last(), a)
    }
}

/// Whether some edge enters `b`.
pub open spec fn has_incoming(edges: Seq<(usize, usize)>, b: usize) -> bool {
    exists|k: int| 0 <= k < edges.len() && (#[trigger] edges[k]).1 == b
}

/// `Graph::new`: a graph without nodes and without edges.
#[verifier::external_body]
pub(crate) fn graph_new() -> (g: Graph<String, u32, Directed, u32>)
    ensures
        graph_labels(g) == Seq::<Seq<char>>::empty(),
        graph_edges(g) == Seq::<(usize, usize)>::empty(),
{
    Graph::new()
}

/// `Graph::node_count`: the number of nodes.
#[verifier::external_body]
pub(crate) fn graph_node_count(g: &Graph<String, u32, Directed, u32>) -> (n: usize)
    ensures
        n == graph_labels(*g).len(),
{
    g.node_count()
}

/// `Graph::add_node`: appends a node with the given label and returns its
/// number; the edges stay. The call panics when the graph already holds
/// `u32::MAX` nodes, which `requires` excludes.
#[verifier::external_body]
pub(crate) fn graph_add_node(g: &mut Graph<String, u32, Directed, u32>, label: String) -> (n: usize)
    requires
        graph_labels(*old(g)).len() < u32::MAX,
    ensures
        n == graph_labels(*old(g)).len(),
        graph_labels(*final(g)) == graph_labels(*old(g)).push(label@),
        graph_edges(*final(g)) == graph_edges(*old(g)),
{
    g.add_node(label).index()
}

/// `Graph::add_edge`: appends an edge from `a` to `b` of the given weight,
/// of which nothing is said; the nodes stay. The
/// call panics on a node that does not exist and on a graph that already
/// holds `u32::MAX` edges, which `requires` excludes.
#[verifier::external_body]
pub(crate) fn graph_add_edge(
    g: &mut Graph<String, u32, Directed, u32>,
    a: usize,
    b: usize,
    weight: u32,
)
    requires
        a < graph_labels(*old(g)).len(),
        b < graph_labels(*old(g)).len(),
        graph_edges(*old(g)).len() < u32::MAX,
    ensures
        graph_labels(*final(g)) == graph_labels(*old(g)),
        graph_edges(*final(g)) == graph_edges(*old(g)).push((a, b)),
{
    g.add_edge(NodeIndex::new(a), NodeIndex::new(b), weight);
}

/// `Graph::contains_edge`: whether an edge runs from `a` to `b`.
#[verifier::external_body]
pub(crate) fn graph_contains_edge(g: &Graph<String, u32, Directed, u32>, a: usize, b: usize) -> (r: bool)
    requires
        a < graph_labels(*g).len(),
        b < graph_labels(*g).len(),
    ensures
        r == graph_edges(*g).contains((a, b)),
{
    g.contains_edge(NodeIndex::new(a), NodeIndex::new(b))
}

/// `Graph::neighbors_directed` with `Outgoing`: the targets of the edges
/// that leave `a`, the most recently added edge first.
#[verifier::external_body]
pub(crate) fn graph_successors(g: &Graph<String, u32, Directed, u32>, a: usize) -> (r: Vec<usize>)
    requires
        a < graph_labels(*g).len(),
    ensures
        r@ == targets_of(graph_edges(*g), a),
{
    g.neighbors_directed(NodeIndex::new(a), Direction::Outgoing).map(|n| n.index()).collect()
}

/// `Graph::externals` with `Incoming`: the nodes that no edge enters, by
/// rising node number.
#[verifier::external_body]
pub(crate) fn graph_sources(g: &Graph<String, u32, Directed, u32>) -> (r: Vec<usize>)
    ensures
        forall|i: int| 0 <= i < r@.len() ==> (#[trigger] r@[i]) < graph_labels(*g).len(),
        forall|i: int| 0 <= i < r@.len() ==> !has_incoming(graph_edges(*g), #[trigger] r@[i]),
        forall|i: int, j: int| 0 <= i < j < r@.len() ==> r@[i] < r@[j],
        forall|n: usize|
            n < graph_labels(*g).len() && !has_incoming(graph_edges(*g), n) ==> r@.contains(n),
{
    g.externals(Direction::Incoming).map(|n| n.index()).collect()
}

/// `Graph::node_weight`: a copy of the label of node `a`.
#[verifier::external_body]
pub(crate) fn graph_label(g: &Graph<String, u32, Directed, u32>, a: usize) -> (label: String)
    requires
        a < graph_labels(*g).len(),
    ensures
        label@ == graph_labels(*g)[a as int],
{
    g.node_weight(NodeIndex::new(a)).unwrap().clone()
}

} // verus!
