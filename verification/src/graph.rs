//! The directed graph that holds the shape of a tree: `petgraph`'s `Graph`, with what the
//! library relies on stated for each call.
//!
//! The graph holds no payloads. Its nodes are numbered from 0 in the order in which they were
//! added, and the payload of a node stands under the same number in a `Vec` beside the graph.
//! The graph is indexed by `usize`, so that it has room for every tree that memory holds.

use vstd::prelude::*;
use petgraph::graph::{Graph, NodeIndex};
use petgraph::visit::{DfsPostOrder, Walker};
use petgraph::{Directed, Direction};

verus! {

/// `petgraph::graph::Graph`, of which only what the wrappers below state is known.
#[verifier::external_type_specification]
#[verifier::external_body]
#[verifier::reject_recursive_types(N)]
#[verifier::reject_recursive_types(E)]
#[verifier::reject_recursive_types(Ty)]
#[verifier::reject_recursive_types(Ix)]
pub struct ExGraph<N, E, Ty, Ix>(Graph<N, E, Ty, Ix>);

/// `petgraph::Directed`, the marker of a graph whose edges have a direction.
#[verifier::external_type_specification]
#[verifier::external_body]
pub struct ExDirected(Directed);

/// `petgraph::graph::NodeIndex`, the number of a node as the graph hands it out.
#[verifier::external_type_specification]
#[verifier::external_body]
#[verifier::reject_recursive_types(Ix)]
pub struct ExNodeIndex<Ix>(NodeIndex<Ix>);

/// The number of nodes of a graph.
pub uninterp spec fn graph_node_count(graph: Graph<(), (), Directed, usize>) -> nat;

/// The edges of a graph, each as its source and its target, in the order in which they were
/// added.
pub uninterp spec fn graph_edges(graph: Graph<(), (), Directed, usize>) -> Seq<(int, int)>;

/// The number that a node index stands for.
pub uninterp spec fn node_index_value(index: NodeIndex<usize>) -> int;

/// The targets of the edges that leave `node`, the most recently added edge first.
pub open spec fn out_neighbors(edges: Seq<(int, int)>, node: int) -> Seq<int>
    decreases edges.len(),
{
    if edges.len() == 0 {
        Seq::empty()
    } else if edges.last().0 == node {
        seq![edges.last().1] + out_neighbors(edges.drop_last(), node)
    } else {
        out_neighbors(edges.drop_last(), node)
    }
}

/// Every edge leads from a node to a node that was added later; such a graph has no cycle.
pub open spec fn edges_ascend(edges: Seq<(int, int)>) -> bool {
    forall|e: int| 0 <= e < edges.len() ==> 0 <= (#[trigger] edges[e]).0 < edges[e].1
}

/// `order` lists nodes of the graph, none twice and `root` among them, and each node stands
/// behind all the nodes that its edges lead to.
pub open spec fn is_post_order(
    count: nat,
    edges: Seq<(int, int)>,
    root: int,
    order: Seq<usize>,
) -> bool {
    &&& forall|i: int| 0 <= i < order.len() ==> (#[trigger] order[i]) < count
    &&& forall|i: int, j: int| 0 <= i < j < order.len() ==> order[i] != order[j]
    &&& exists|i: int| 0 <= i < order.len() && order[i] == root
    &&& forall|i: int, e: int|
        0 <= i < order.len() && 0 <= e < edges.len() && (#[trigger] edges[e]).0
            == #[trigger] order[i] ==> exists|j: int| 0 <= j < i && order[j] == edges[e].1
}

/// `Graph::with_capacity` for no nodes and no edges: a graph without nodes and edges.
#[verifier::external_body]
pub(crate) fn graph_new() -> (graph: Graph<(), (), Directed, usize>)
    ensures
        graph_node_count(graph) == 0,
        graph_edges(graph) == Seq::<(int, int)>::empty(),
{
    Graph::with_capacity(0, 0)
}

/// `Graph::add_node`: adds a node and returns its number, which is the number of nodes that
/// the graph had. The edges stay. A graph that is indexed by `usize` has no limit of its own
/// at which `add_node` panics.
#[verifier::external_body]
pub(crate) fn graph_add_node(graph: &mut Graph<(), (), Directed, usize>) -> (node: usize)
    requires
        graph_node_count(*old(graph)) < usize::MAX,
    ensures
        node == graph_node_count(*old(graph)),
        graph_node_count(*final(graph)) == graph_node_count(*old(graph)) + 1,
        graph_edges(*final(graph)) == graph_edges(*old(graph)),
{
    graph.add_node(()).index()
}

/// `Graph::add_edge`: adds an edge from `from` to `to` behind the edges that the graph had.
/// The nodes stay. Both nodes must exist: `add_edge` panics otherwise.
#[verifier::external_body]
pub(crate) fn graph_add_edge(graph: &mut Graph<(), (), Directed, usize>, from: usize, to: usize)
    requires
        from < graph_node_count(*old(graph)),
        to < graph_node_count(*old(graph)),
        graph_edges(*old(graph)).len() < usize::MAX,
    ensures
        graph_node_count(*final(graph)) == graph_node_count(*old(graph)),
        graph_edges(*final(graph)) == graph_edges(*old(graph)).push((from as int, to as int)),
{
    graph.add_edge(NodeIndex::new(from), NodeIndex::new(to), ());
}

/// `Graph::neighbors_directed` with `Outgoing`: the targets of the edges that leave `node`,
/// the most recently added edge first; none where the graph has no such node.
#[verifier::external_body]
pub(crate) fn graph_children(graph: &Graph<(), (), Directed, usize>, node: usize) -> (children:
    Vec<usize>)
    ensures
        children@.map_values(|c: usize| c as int) == out_neighbors(
            graph_edges(*graph),
            node as int,
        ),
{
    graph.neighbors_directed(NodeIndex::new(node), Direction::Outgoing).map(|n| n.index()).collect()
}

/// `DfsPostOrder::new`, walked to its end: the nodes that can be reached from `root`, each
/// once, each behind all the nodes that its edges lead to. The walk returns a node when the
/// node comes to the top of its stack for the second time; in a graph without cycles, which
/// one whose edges ascend is, the nodes that its edges lead to have all been returned by
/// then. `root` must be a node of the graph: the walk panics on a node that the graph lacks.
#[verifier::external_body]
pub(crate) fn graph_post_order(graph: &Graph<(), (), Directed, usize>, root: usize) -> (order:
    Vec<usize>)
    requires
        root < graph_node_count(*graph),
        edges_ascend(graph_edges(*graph)),
    ensures
        is_post_order(graph_node_count(*graph), graph_edges(*graph), root as int, order@),
{
    DfsPostOrder::new(graph, NodeIndex::new(root)).iter(graph).map(|n| n.index()).collect()
}

/// `NodeIndex::new`: the index that stands for `node`.
#[verifier::external_body]
pub(crate) fn node_index(node: usize) -> (index: NodeIndex<usize>)
    ensures
        node_index_value(index) == node,
{
    NodeIndex::new(node)
}

} // verus!
