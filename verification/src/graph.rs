//! The graph model: resources with their rates, and who consumes what.

use crate::store::{
    graph_edges, graph_nodes, joins, store_add_edge, store_add_node, store_contains_edge,
    store_edge_count, store_edge_endpoints, store_edge_weight, store_new, store_node,
    store_node_count, Store,
};
use std::collections::HashMap;
use vstd::prelude::*;

verus! {

/// The mathematical content of a production graph.
///
/// A node is `(resource, rate)`: the resource's identity and the output of one
/// production unit of it per unit time. An edge is `(source, target, weight)`
/// over node indices: one production unit of `target` consumes `weight` of
/// `source` per unit time.
pub struct Network {
    pub nodes: Seq<(u64, u64)>,
    pub edges: Seq<(usize, usize, u64)>,
}

impl Network {
    /// Whether some node carries `resource`.
    pub open spec fn has_resource(self, resource: u64) -> bool {
        exists|i: int| 0 <= i < self.nodes.len() && (#[trigger] self.nodes[i]).0 == resource
    }

    /// The index of the node that carries `resource`, where there is one.
    pub open spec fn slot(self, resource: u64) -> int {
        choose|i: int| 0 <= i < self.nodes.len() && (#[trigger] self.nodes[i]).0 == resource
    }

    /// No two nodes share a resource.
    pub open spec fn distinct_resources(self) -> bool {
        forall|i: int, j: int|
            0 <= i < self.nodes.len() && 0 <= j < self.nodes.len() && (#[trigger] self.nodes[i]).0
                == (#[trigger] self.nodes[j]).0 ==> i == j
    }

    /// Every edge joins two nodes of the graph and has a positive weight.
    pub open spec fn edges_in_range(self) -> bool {
        forall|k: int|
            0 <= k < self.edges.len() ==> (#[trigger] self.edges[k]).0 < self.nodes.len()
                && self.edges[k].1 < self.nodes.len() && self.edges[k].2 > 0
    }

    /// No ordered pair of nodes is joined twice.
    pub open spec fn simple(self) -> bool {
        forall|k: int, l: int|
            0 <= k < self.edges.len() && 0 <= l < self.edges.len() && (#[trigger] self.edges[k]).0
                == (#[trigger] self.edges[l]).0 && self.edges[k].1 == self.edges[l].1 ==> k == l
    }

    /// The invariants of the data model.
    pub open spec fn valid(self) -> bool {
        &&& self.distinct_resources()
        &&& self.edges_in_range()
        &&& self.simple()
    }

    /// With distinct resources, the slot of a node's resource is that node.
    pub proof fn lemma_slot(self, i: int)
        requires
            self.distinct_resources(),
            0 <= i < self.nodes.len(),
        ensures
            self.has_resource(self.nodes[i].0),
            self.slot(self.nodes[i].0) == i,
    {
        let r = self.nodes[i].0;
        let j = self.slot(r);
        assert(0 <= j < self.nodes.len() && self.nodes[j].0 == r);
    }
}

/// Why a node or an edge was not added.
#[derive(Clone, Copy, Debug, PartialEq, Eq)]
pub enum GraphError {
    /// The resource is already a node of the graph.
    DuplicateResource,
    /// An endpoint of the edge is no node of the graph.
    UnknownResource,
    /// The edge has weight zero, which consumes nothing.
    ZeroWeight,
    /// The ordered pair of nodes is already joined by an edge.
    DuplicateEdge,
    /// The graph holds as many nodes, or edges, as its indices can number.
    CapacityExceeded,
}

/// A production dependency network: resources, their per-unit output rates,
/// and the consumption relations between them.
pub struct ProductionGraph {
    store: Store,
    slots: HashMap<u64, usize>,
}

impl View for ProductionGraph {
    type V = Network;

    closed spec fn view(&self) -> Network {
        Network { nodes: graph_nodes(self.store), edges: graph_edges(self.store) }
    }
}

impl ProductionGraph {
    /// Well-formedness: the model is valid, fits the store's indices, and the
    /// lookup table maps each resource to its node.
    pub closed spec fn wf(&self) -> bool {
        &&& self@.valid()
        &&& self@.nodes.len() <= u32::MAX
        &&& self@.edges.len() <= u32::MAX
        &&& forall|i: int|
            0 <= i < self@.nodes.len() ==> self.slots@.contains_key((#[trigger] self@.nodes[i]).0)
                && self.slots@[self@.nodes[i].0] == i
        &&& forall|r: u64| #[trigger]
            self.slots@.contains_key(r) ==> self.slots@[r] < self@.nodes.len()
                && self@.nodes[self.slots@[r] as int].0 == r
    }

    /// A well-formed graph has a valid model.
    pub proof fn lemma_valid(&self)
        requires
            self.wf(),
        ensures
            self@.valid(),
            self@.nodes.len() <= u32::MAX,
            self@.edges.len() <= u32::MAX,
    {
    }

    /// The empty graph.
    pub fn new() -> (graph: Self)
        ensures
            graph.wf(),
            graph@.nodes.len() == 0,
            graph@.edges.len() == 0,
    {
        ProductionGraph { store: store_new(), slots: HashMap::new() }
    }

    /// The number of nodes.
    pub fn node_count(&self) -> (n: usize)
        ensures
            n == self@.nodes.len(),
    {
        store_node_count(&self.store)
    }

    /// The number of edges.
    pub fn edge_count(&self) -> (n: usize)
        ensures
            n == self@.edges.len(),
    {
        store_edge_count(&self.store)
    }

    /// The dense index of `resource`, or `None` where it is no node.
    pub fn index_of(&self, resource: u64) -> (found: Option<usize>)
        requires
            self.wf(),
        ensures
            match found {
                Some(i) => self@.has_resource(resource) && i == self@.slot(resource),
                None => !self@.has_resource(resource),
            },
    {
        broadcast use vstd::std_specs::hash::group_hash_axioms;

        match self.slots.get(&resource) {
            Some(i) => {
                proof {
                    self@.lemma_slot(*i as int);
                }
                Some(*i)
            },
            None => None,
        }
    }

    /// Registers `resource` with the output rate of one production unit and
    /// returns its dense index. A resource is registered once.
    pub fn add_node(&mut self, resource: u64, rate: u64) -> (added: Result<usize, GraphError>)
        requires
            old(self).wf(),
        ensures
            final(self).wf(),
            match added {
                Ok(i) => {
                    &&& !old(self)@.has_resource(resource)
                    &&& old(self)@.nodes.len() < u32::MAX
                    &&& i == old(self)@.nodes.len()
                    &&& final(self)@.nodes == old(self)@.nodes.push((resource, rate))
                    &&& final(self)@.edges == old(self)@.edges
                },
                Err(GraphError::DuplicateResource) => {
                    &&& old(self)@.has_resource(resource)
                    &&& final(self)@ == old(self)@
                },
                Err(GraphError::CapacityExceeded) => {
                    &&& !old(self)@.has_resource(resource)
                    &&& old(self)@.nodes.len() >= u32::MAX
                    &&& final(self)@ == old(self)@
                },
                Err(_) => false,
            },
    {
        broadcast use vstd::std_specs::hash::group_hash_axioms;

        if self.slots.contains_key(&resource) {
            return Err(GraphError::DuplicateResource);
        }
        if store_node_count(&self.store) >= u32::MAX as usize {
            return Err(GraphError::CapacityExceeded);
        }
        let i: usize = store_add_node(&mut self.store, resource, rate);
        self.slots.insert(resource, i);
        proof {
            let before = old(self)@;
            let after = self@;
            assert(after.nodes[i as int] == (resource, rate));
            assert forall|a: int, b: int|
                0 <= a < after.nodes.len() && 0 <= b < after.nodes.len() && (
                #[trigger] after.nodes[a]).0 == (#[trigger] after.nodes[b]).0 implies a == b by {
                if a < i && b < i {
                    assert(before.nodes[a].0 == before.nodes[b].0);
                } else if a < i {
                    assert(old(self).slots@.contains_key(before.nodes[a].0));
                } else if b < i {
                    assert(old(self).slots@.contains_key(before.nodes[b].0));
                }
            }
            assert forall|k: int| 0 <= k < after.edges.len() implies (#[trigger] after.edges[k]).0
                < after.nodes.len() && after.edges[k].1 < after.nodes.len() && after.edges[k].2
                > 0 by {
                assert(before.edges[k].0 < before.nodes.len());
            }
            assert forall|a: int|
                0 <= a < after.nodes.len() implies self.slots@.contains_key(
                (#[trigger] after.nodes[a]).0,
            ) && self.slots@[after.nodes[a].0] == a by {
                if a < i {
                    assert(old(self).slots@.contains_key(before.nodes[a].0));
                }
            }
        }
        Ok(i)
    }

    /// Registers that one production unit of `target` consumes `weight` of
    /// `source` per unit time. Both resources must be nodes, the weight must
    /// not be zero, and an ordered pair is joined once.
    pub fn add_edge(&mut self, source: u64, target: u64, weight: u64) -> (added: Result<
        (),
        GraphError,
    >)
        requires
            old(self).wf(),
        ensures
            final(self).wf(),
            final(self)@.nodes == old(self)@.nodes,
            added is Ok <==> old(self)@.accepts_edge(source, target, weight),
            match added {
                Ok(_) => {
                    &&& old(self)@.has_resource(source)
                    &&& old(self)@.has_resource(target)
                    &&& weight > 0
                    &&& !joins(
                        old(self)@.edges,
                        old(self)@.slot(source) as usize,
                        old(self)@.slot(target) as usize,
                    )
                    &&& old(self)@.edges.len() < u32::MAX
                    &&& final(self)@.edges == old(self)@.edges.push(
                        (
                            old(self)@.slot(source) as usize,
                            old(self)@.slot(target) as usize,
                            weight,
                        ),
                    )
                },
                Err(e) => {
                    &&& final(self)@ == old(self)@
                    &&& e == old(self)@.edge_refusal(source, target, weight)
                },
            },
    {
        let s: usize = match self.index_of(source) {
            Some(i) => i,
            None => {
                return Err(GraphError::UnknownResource);
            },
        };
        let t: usize = match self.index_of(target) {
            Some(i) => i,
            None => {
                return Err(GraphError::UnknownResource);
            },
        };
        if weight == 0 {
            return Err(GraphError::ZeroWeight);
        }
        if store_contains_edge(&self.store, s, t) {
            return Err(GraphError::DuplicateEdge);
        }
        if store_edge_count(&self.store) >= u32::MAX as usize {
            return Err(GraphError::CapacityExceeded);
        }
        store_add_edge(&mut self.store, s, t, weight);
        proof {
            let before = old(self)@;
            let after = self@;
            let last = before.edges.len() as int;
            assert(after.edges[last] == (s, t, weight));
            assert forall|k: int| 0 <= k < after.edges.len() implies (#[trigger] after.edges[k]).0
                < after.nodes.len() && after.edges[k].1 < after.nodes.len() && after.edges[k].2
                > 0 by {
                if k < last {
                    assert(before.edges[k].0 < before.nodes.len());
                }
            }
            assert forall|k: int, l: int|
                0 <= k < after.edges.len() && 0 <= l < after.edges.len() && (
                #[trigger] after.edges[k]).0 == (#[trigger] after.edges[l]).0 && after.edges[k].1
                    == after.edges[l].1 implies k == l by {
                if k < last && l < last {
                    assert(before.edges[k].0 == before.edges[l].0);
                } else if k < last {
                    assert(before.edges[k].0 == s && before.edges[k].1 == t);
                } else if l < last {
                    assert(before.edges[l].0 == s && before.edges[l].1 == t);
                }
            }
        }
        Ok(())
    }

    /// The nodes as `(resource, rate)`, in index order.
    pub fn nodes(&self) -> (listed: Vec<(u64, u64)>)
        requires
            self.wf(),
        ensures
            listed@ == self@.nodes,
    {
        let n: usize = store_node_count(&self.store);
        let mut listed: Vec<(u64, u64)> = Vec::new();
        let mut i: usize = 0;
        while i < n
            invariant
                n == graph_nodes(self.store).len(),
                n <= u32::MAX,
                i <= n,
                listed@ == graph_nodes(self.store).take(i as int),
            decreases n - i,
        {
            listed.push(store_node(&self.store, i));
            i = i + 1;
        }
        listed
    }

    /// The edges as `(source index, target index, weight)`, in the order in
    /// which they were added.
    pub fn edges(&self) -> (listed: Vec<(usize, usize, u64)>)
        requires
            self.wf(),
        ensures
            listed@ == self@.edges,
    {
        let n: usize = store_edge_count(&self.store);
        let mut listed: Vec<(usize, usize, u64)> = Vec::new();
        let mut e: usize = 0;
        while e < n
            invariant
                n == graph_edges(self.store).len(),
                n <= u32::MAX,
                e <= n,
                listed@ == graph_edges(self.store).take(e as int),
            decreases n - e,
        {
            match (store_edge_endpoints(&self.store, e), store_edge_weight(&self.store, e)) {
                (Some((s, t)), Some(w)) => {
                    listed.push((s, t, w));
                },
                _ => {
                    assert(false);
                },
            }
            e = e + 1;
        }
        listed
    }
}

impl Network {
    /// The error with which `add_edge` refuses an edge, for an edge that it
    /// refuses: the first of the conditions that fails.
    pub open spec fn edge_refusal(self, source: u64, target: u64, weight: u64) -> GraphError {
        if !self.has_resource(source) || !self.has_resource(target) {
            GraphError::UnknownResource
        } else if weight == 0 {
            GraphError::ZeroWeight
        } else if joins(self.edges, self.slot(source) as usize, self.slot(target) as usize) {
            GraphError::DuplicateEdge
        } else {
            GraphError::CapacityExceeded
        }
    }

    /// Whether `add_edge` accepts the edge.
    pub open spec fn accepts_edge(self, source: u64, target: u64, weight: u64) -> bool {
        &&& self.has_resource(source)
        &&& self.has_resource(target)
        &&& weight > 0
        &&& !joins(self.edges, self.slot(source) as usize, self.slot(target) as usize)
        &&& self.edges.len() < u32::MAX
    }
}

} // verus!
