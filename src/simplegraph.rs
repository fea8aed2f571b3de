//! A mutable graph representation.
//!
//! While cheap to update, this representation should not be used in any algorithms.
//! It does not implement any of the more interesting feature traits like `ForwardNavigableGraph`.
//!
//! The `SimpleGraph`s main use is to aid construction of static graph representations.
use crate::{
    graph::{Edge, EdgeRef, EdgeView, Graph, GraphModificationError, MutableGraph, Node},
    edge_id_range, node_id_range, EdgeId, IdType, NodeId, INVALID_ID,
};
use vstd::prelude::*;

verus! {

/// A simple graph representation that is inefficient to use, but cheap to construct.
///
/// Nodes and edges are kept in the order in which they were added; the id of each is its
/// position. For actual usage, the graph should be converted into a different representation.
#[derive(Debug)]
pub struct SimpleGraph<N, E> {
    nodes: Vec<Node<N>>,
    edges: Vec<Edge<E>>,
}

/// Whether every edge of `edges` starts and ends at one of `node_len` nodes.
pub open spec fn edges_within<E>(edges: Seq<EdgeView<E>>, node_len: nat) -> bool {
    forall|e: int|
        0 <= e < edges.len() ==> #[trigger] edges[e].start < node_len && edges[e].end < node_len
}

impl<N, E> SimpleGraph<N, E> {
    /// Ids fit their integer type, every edge refers to nodes of the graph, and there is room
    /// for the counters that a conversion uses.
    #[verifier::type_invariant]
    pub closed spec fn well_formed(&self) -> bool {
        &&& self.nodes@.len() <= INVALID_ID
        &&& self.nodes@.len() + 2 <= usize::MAX
        &&& self.edges@.len() <= INVALID_ID
        &&& edges_within(self.edges@.map_values(|e: Edge<E>| e@), self.nodes@.len())
    }
}

impl<N, E> SimpleGraph<N, E> {
    /// The model of an edge is the view of the stored edge, and it refers to nodes of the graph.
    proof fn lemma_edge_view(&self, e: int)
        requires
            self.well_formed(),
            0 <= e < self.edges@.len(),
        ensures
            self.edges()[e] == self.edges@[e]@,
            self.edges()[e].start < self.node_payloads().len(),
            self.edges()[e].end < self.node_payloads().len(),
    {
        assert(self.edges()[e] == self.edges@[e]@);
    }
}

impl<N, E> SimpleGraph<N, E> {
    /// A well-formed graph leaves room for the `node_len + 2` counters of a conversion.
    pub proof fn lemma_room_for_conversion(&self)
        requires
            self.well_formed(),
        ensures
            self.node_payloads().len() + 2 <= usize::MAX,
    {
    }
}

impl<N, E> Graph<N, E> for SimpleGraph<N, E> {
    closed spec fn node_payloads(&self) -> Seq<N> {
        self.nodes@.map_values(|n: Node<N>| n@)
    }

    closed spec fn edges(&self) -> Seq<EdgeView<E>> {
        self.edges@.map_values(|e: Edge<E>| e@)
    }

    fn node_len(&self) -> (r: IdType) {
        proof {
            use_type_invariant(self);
        }
        self.nodes.len() as IdType
    }

    fn edge_len(&self) -> (r: IdType) {
        proof {
            use_type_invariant(self);
        }
        self.edges.len() as IdType
    }

    fn node_id_iter(&self) -> (r: Vec<NodeId>) {
        node_id_range(self.node_len())
    }

    fn edge_id_iter(&self) -> (r: Vec<EdgeId>) {
        edge_id_range(self.edge_len())
    }

    fn node_data(&self, id: NodeId) -> (r: &N) {
        self.nodes[id.id as usize].data()
    }

    fn edge_data(&self, id: EdgeId) -> (r: &E) {
        self.edges[id.id as usize].data()
    }

    fn edge(&self, id: EdgeId) -> (r: EdgeRef<'_, E>) {
        proof {
            use_type_invariant(self);
            self.lemma_edge_view(id@ as int);
        }
        EdgeRef::from(&self.edges[id.id as usize])
    }

    fn edge_start(&self, id: EdgeId) -> (r: NodeId) {
        proof {
            use_type_invariant(self);
            self.lemma_edge_view(id@ as int);
        }
        self.edges[id.id as usize].start()
    }

    fn edge_end(&self, id: EdgeId) -> (r: NodeId) {
        proof {
            use_type_invariant(self);
            self.lemma_edge_view(id@ as int);
        }
        self.edges[id.id as usize].end()
    }

    fn is_node_id_valid(&self, id: NodeId) -> (r: bool) {
        proof {
            use_type_invariant(self);
        }
        id.is_valid() && (id.id as usize) < self.nodes.len()
    }

    fn is_edge_id_valid(&self, id: EdgeId) -> (r: bool) {
        proof {
            use_type_invariant(self);
        }
        id.is_valid() && (id.id as usize) < self.edges.len()
    }
}

impl<N, E> MutableGraph<N, E> for SimpleGraph<N, E> {
    fn new() -> (r: Self) {
        Self::default()
    }

    fn add_node(&mut self, node: Node<N>) -> (r: NodeId) {
        proof {
            use_type_invariant(&*self);
        }
        let id = self.nodes.len() as IdType;
        let mut taken = Self::default();
        std::mem::swap(&mut taken, self);
        let SimpleGraph { mut nodes, edges } = taken;
        nodes.push(node);
        *self = SimpleGraph { nodes, edges };
        proof {
            assert(self.node_payloads() =~= old(self).node_payloads().push(node@));
        }
        NodeId::new(id)
    }

    fn add_edge(&mut self, edge: Edge<E>) -> (r: Result<EdgeId, GraphModificationError>) {
        proof {
            use_type_invariant(&*self);
        }
        let node_len = self.node_len();
        if !edge.start().is_valid() || edge.start().id >= node_len {
            return Err(GraphModificationError::StartNodeDoesNotExist);
        } else if !edge.end().is_valid() || edge.end().id >= node_len {
            return Err(GraphModificationError::EndNodeDoesNotExist);
        }
        let id = self.edges.len() as IdType;
        let mut taken = Self::default();
        std::mem::swap(&mut taken, self);
        let SimpleGraph { nodes, mut edges } = taken;
        let ghost old_view = edges@.map_values(|e: Edge<E>| e@);
        edges.push(edge);
        proof {
            assert(edges@.map_values(|e: Edge<E>| e@) =~= old_view.push(edge@));
        }
        *self = SimpleGraph { nodes, edges };
        Ok(EdgeId::new(id))
    }
}

impl<N, E> Default for SimpleGraph<N, E> {
    fn default() -> (r: Self)
        ensures
            r.node_payloads().len() == 0,
            r.edges().len() == 0,
    {
        SimpleGraph { nodes: Vec::new(), edges: Vec::new() }
    }
}

} // verus!
