//! The graph store: `petgraph`'s directed graph, and what is assumed of it.
//!
//! Nothing in this file is proved. Each item states, over the two sequences
//! that name a store's contents, what the corresponding `petgraph` method does
//! to a graph from which nothing is ever removed.

use vstd::prelude::*;

verus! {

#[verifier::external_type_specification]
#[verifier::external_body]
#[verifier::reject_recursive_types(N)]
#[verifier::reject_recursive_types(E)]
#[verifier::reject_recursive_types(Ty)]
#[verifier::reject_recursive_types(Ix)]
pub struct ExGraph<N, E, Ty, Ix>(petgraph::graph::Graph<N, E, Ty, Ix>);

#[verifier::external_type_specification]
#[verifier::external_body]
pub struct ExDirected(petgraph::Directed);

/// A directed graph whose node weights are `(resource, rate)` pairs and whose
/// edge weights are consumption rates.
pub type Store = petgraph::graph::Graph<(u64, u64), u64, petgraph::Directed, u32>;

/// The node weights of a store, in index order.
pub uninterp spec fn graph_nodes(g: Store) -> Seq<(u64, u64)>;

/// The edges of a store as `(source index, target index, weight)`, in index
/// order.
pub uninterp spec fn graph_edges(g: Store) -> Seq<(usize, usize, u64)>;

/// Whether some edge of `edges` leads from node `source` to node `target`.
pub open spec fn joins(edges: Seq<(usize, usize, u64)>, source: usize, target: usize) -> bool {
    exists|k: int|
        0 <= k < edges.len() && (#[trigger] edges[k]).0 == source && edges[k].1 == target
}

/// `Graph::new`: a graph without nodes and without edges.
#[verifier::external_body]
pub(crate) fn store_new() -> (g: Store)
    ensures
        graph_nodes(g) == Seq::<(u64, u64)>::empty(),
        graph_edges(g) == Seq::<(usize, usize, u64)>::empty(),
{
    petgraph::graph::Graph::new()
}

/// `Graph::node_count`: the number of nodes.
#[verifier::external_body]
pub(crate) fn store_node_count(g: &Store) -> (n: usize)
    ensures
        n == graph_nodes(*g).len(),
{
    g.node_count()
}

/// `Graph::edge_count`: the number of edges.
#[verifier::external_body]
pub(crate) fn store_edge_count(g: &Store) -> (n: usize)
    ensures
        n == graph_edges(*g).len(),
{
    g.edge_count()
}

/// `Graph::add_node`: appends a node and returns its index, which is the
/// number of nodes before the call. The method panics once the node count has
/// reached the largest `u32`, so that state is excluded.
#[verifier::external_body]
pub(crate) fn store_add_node(g: &mut Store, resource: u64, rate: u64) -> (i: usize)
    requires
        graph_nodes(*old(g)).len() < u32::MAX,
    ensures
        graph_nodes(*final(g)) == graph_nodes(*old(g)).push((resource, rate)),
        graph_edges(*final(g)) == graph_edges(*old(g)),
        i == graph_nodes(*old(g)).len(),
{
    g.add_node((resource, rate)).index()
}

/// `Graph::add_edge`: appends an edge between two existing nodes and leaves
/// the nodes alone; parallel edges are accepted. The method panics on a
/// missing endpoint and once the edge count has reached the largest `u32`, so
/// both are excluded.
#[verifier::external_body]
pub(crate) fn store_add_edge(g: &mut Store, source: usize, target: usize, weight: u64)
    requires
        graph_nodes(*old(g)).len() <= u32::MAX,
        graph_edges(*old(g)).len() < u32::MAX,
        source < graph_nodes(*old(g)).len(),
        target < graph_nodes(*old(g)).len(),
    ensures
        graph_nodes(*final(g)) == graph_nodes(*old(g)),
        graph_edges(*final(g)) == graph_edges(*old(g)).push((source, target, weight)),
{
    g.add_edge(
        petgraph::graph::NodeIndex::new(source),
        petgraph::graph::NodeIndex::new(target),
        weight,
    );
}

/// `Graph::contains_edge`: whether some edge leads from `source` to `target`.
#[verifier::external_body]
pub(crate) fn store_contains_edge(g: &Store, source: usize, target: usize) -> (found: bool)
    requires
        graph_nodes(*g).len() <= u32::MAX,
        source < graph_nodes(*g).len(),
        target < graph_nodes(*g).len(),
    ensures
        found == joins(graph_edges(*g), source, target),
{
    g.contains_edge(
        petgraph::graph::NodeIndex::new(source),
        petgraph::graph::NodeIndex::new(target),
    )
}

/// Indexing a graph by a node index: the weight of that node. Indexing panics
/// on a missing node, so that is excluded.
#[verifier::external_body]
pub(crate) fn store_node(g: &Store, i: usize) -> (node: (u64, u64))
    requires
        graph_nodes(*g).len() <= u32::MAX,
        i < graph_nodes(*g).len(),
    ensures
        node == graph_nodes(*g)[i as int],
{
    g[petgraph::graph::NodeIndex::new(i)]
}

/// `Graph::edge_endpoints`: the source and target of an edge, `None` for an
/// index that names no edge.
#[verifier::external_body]
pub(crate) fn store_edge_endpoints(g: &Store, e: usize) -> (ends: Option<(usize, usize)>)
    requires
        e <= u32::MAX,
    ensures
        match ends {
            Some((s, t)) => e < graph_edges(*g).len() && s == graph_edges(*g)[e as int].0 && t
                == graph_edges(*g)[e as int].1,
            None => e >= graph_edges(*g).len(),
        },
{
    g.edge_endpoints(petgraph::graph::EdgeIndex::new(e)).map(|(s, t)| (s.index(), t.index()))
}

/// `Graph::edge_weight`: the weight of an edge, `None` for an index that names
/// no edge.
#[verifier::external_body]
pub(crate) fn store_edge_weight(g: &Store, e: usize) -> (weight: Option<u64>)
    requires
        e <= u32::MAX,
    ensures
        match weight {
            Some(w) => e < graph_edges(*g).len() && w == graph_edges(*g)[e as int].2,
            None => e >= graph_edges(*g).len(),
        },
{
    g.edge_weight(petgraph::graph::EdgeIndex::new(e)).copied()
}

} // verus!
