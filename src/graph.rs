//! Defines different traits of graphs, and the containers for nodes and edges.
use crate::{EdgeId, IdType, NodeId};
use vstd::prelude::*;

verus! {

/// The mathematical model of an edge: its start node, its end node and its payload.
pub struct EdgeView<E> {
    pub start: nat,
    pub end: nat,
    pub data: E,
}

/// A basic graph.
///
/// Graphs defining this trait can act as containers for nodes and edges.
/// Their functionality is very limited though, as not even navigation is defined.
///
/// A graph is modelled by the payloads of its nodes, indexed by node id, and by its edges,
/// indexed by edge id.
pub trait Graph<N, E>: Sized {
    /// The node payloads, indexed by node id.
    spec fn node_payloads(&self) -> Seq<N>;

    /// The edges, indexed by edge id.
    spec fn edges(&self) -> Seq<EdgeView<E>>;

    /// The amount of nodes in the graph.
    fn node_len(&self) -> (r: IdType)
        ensures
            r == self.node_payloads().len(),
    ;

    /// The amount of edges in the graph.
    fn edge_len(&self) -> (r: IdType)
        ensures
            r == self.edges().len(),
    ;

    /// Returns all node ids in the graph, in increasing order.
    fn node_id_iter(&self) -> (r: Vec<NodeId>)
        ensures
            r@.map_values(|id: NodeId| id@) == crate::id_range(self.node_payloads().len()),
    ;

    /// Returns all edge ids in the graph, in increasing order.
    fn edge_id_iter(&self) -> (r: Vec<EdgeId>)
        ensures
            r@.map_values(|id: EdgeId| id@) == crate::id_range(self.edges().len()),
    ;

    /// Returns a reference to a nodes data, identified by the given id.
    fn node_data(&self, id: NodeId) -> (r: &N)
        requires
            id@ < self.node_payloads().len(),
        ensures
            *r == self.node_payloads()[id@ as int],
    ;

    /// Returns a reference to an edges data, identified by the given id.
    fn edge_data(&self, id: EdgeId) -> (r: &E)
        requires
            id@ < self.edges().len(),
        ensures
            *r == self.edges()[id@ as int].data,
    ;

    /// Returns an edge instance, identified by the given id.
    /// Both of its end points are nodes of the graph.
    fn edge(&self, id: EdgeId) -> (r: EdgeRef<'_, E>)
        requires
            id@ < self.edges().len(),
        ensures
            r@ == self.edges()[id@ as int],
            r@.start < self.node_payloads().len(),
            r@.end < self.node_payloads().len(),
    ;

    /// Returns the start node of the edge identified by the given id.
    fn edge_start(&self, id: EdgeId) -> (r: NodeId)
        requires
            id@ < self.edges().len(),
        ensures
            r@ == self.edges()[id@ as int].start,
            r@ < self.node_payloads().len(),
    ;

    /// Returns the end node of the edge identified by the given id.
    fn edge_end(&self, id: EdgeId) -> (r: NodeId)
        requires
            id@ < self.edges().len(),
        ensures
            r@ == self.edges()[id@ as int].end,
            r@ < self.node_payloads().len(),
    ;

    /// Returns true if the given `NodeId` refers to a node in this graph.
    fn is_node_id_valid(&self, id: NodeId) -> (r: bool)
        ensures
            r == (id@ < self.node_payloads().len()),
    ;

    /// Returns true if the given `EdgeId` refers to an edge in this graph.
    fn is_edge_id_valid(&self, id: EdgeId) -> (r: bool)
        ensures
            r == (id@ < self.edges().len()),
    ;
}

/// Whether `ids` lists, in increasing order, exactly the edges of `edges` that start at `node`.
pub open spec fn lists_out_edges<E>(ids: Seq<nat>, edges: Seq<EdgeView<E>>, node: nat) -> bool {
    &&& forall|i: int, j: int| 0 <= i < j < ids.len() ==> ids[i] < ids[j]
    &&& forall|i: int|
        0 <= i < ids.len() ==> #[trigger] ids[i] < edges.len() && edges[ids[i] as int].start == node
    &&& forall|e: nat| e < edges.len() && edges[e as int].start == node ==> #[trigger] ids.contains(e)
}

/// The out-edges of a node are exactly the edges that a scan of all edges finds starting at
/// that node.
pub proof fn lemma_out_edges_match_scan<E>(ids: Seq<nat>, edges: Seq<EdgeView<E>>, node: nat)
    requires
        lists_out_edges(ids, edges, node),
    ensures
        ids.to_set() == Set::new(|e: nat| e < edges.len() && edges[e as int].start == node),
{
    let scanned = Set::new(|e: nat| e < edges.len() && edges[e as int].start == node);
    assert forall|e: nat| ids.to_set().contains(e) implies scanned.contains(e) by {
        let i = choose|i: int| 0 <= i < ids.len() && ids[i] == e;
        assert(ids[i] < edges.len());
    }
    assert(ids.to_set() =~= scanned);
}

/// A forward navigable graph.
///
/// Graphs implementing this trait are able to output a nodes out-edges efficiently.
/// For undirected graphs, out-edges and in-edges are the same.
pub trait ForwardNavigableGraph<N, E>: Graph<N, E> {
    /// Returns the out-edges of the node identified by the given id, in increasing order.
    fn out_edges(&self, id: NodeId) -> (r: Vec<EdgeId>)
        requires
            id@ < self.node_payloads().len(),
        ensures
            lists_out_edges(r@.map_values(|e: EdgeId| e@), self.edges(), id@),
    ;
}

/// Whether `ids` lists, in increasing order, exactly the edges of `edges` that end at `node`.
pub open spec fn lists_in_edges<E>(ids: Seq<nat>, edges: Seq<EdgeView<E>>, node: nat) -> bool {
    &&& forall|i: int, j: int| 0 <= i < j < ids.len() ==> ids[i] < ids[j]
    &&& forall|i: int|
        0 <= i < ids.len() ==> #[trigger] ids[i] < edges.len() && edges[ids[i] as int].end == node
    &&& forall|e: nat| e < edges.len() && edges[e as int].end == node ==> #[trigger] ids.contains(e)
}

/// A backward navigable graph.
///
/// Graphs implementing this trait are able to output a nodes in-edges efficiently.
/// For undirected graphs, out-edges and in-edges are the same.
pub trait BackwardNavigableGraph<N, E>: Graph<N, E> {
    /// Returns the in-edges of the node identified by the given id, in increasing order.
    fn in_edges(&self, id: NodeId) -> (r: Vec<EdgeId>)
        requires
            id@ < self.node_payloads().len(),
        ensures
            lists_in_edges(r@.map_values(|e: EdgeId| e@), self.edges(), id@),
    ;
}

/// A mutable graph.
///
/// Graphs implementing this trait are able to be updated efficiently.
pub trait MutableGraph<N, E>: Graph<N, E> {
    /// Creates a new empty graph.
    fn new() -> (r: Self)
        ensures
            r.node_payloads().len() == 0,
            r.edges().len() == 0,
    ;

    /// Adds the given node to the graph.
    /// The return value is the id assigned to the new node.
    ///
    /// The new id must be a valid id, and a graph must stay small enough that the
    /// `node_len + 2` counters of a conversion can be addressed.
    fn add_node(&mut self, node: Node<N>) -> (r: NodeId)
        requires
            old(self).node_payloads().len() < crate::INVALID_ID,
            old(self).node_payloads().len() + 3 <= usize::MAX,
        ensures
            r@ == old(self).node_payloads().len(),
            final(self).node_payloads() == old(self).node_payloads().push(node@),
            final(self).edges() == old(self).edges(),
    ;

    /// Adds the given edge to the graph.
    /// The return value is the id assigned to the new edge, or an error, if the edge refers a
    /// non-existing node; on an error the graph is left unchanged.
    fn add_edge(&mut self, edge: Edge<E>) -> (r: Result<EdgeId, GraphModificationError>)
        requires
            old(self).edges().len() < crate::INVALID_ID,
        ensures
            final(self).node_payloads() == old(self).node_payloads(),
            match r {
                Ok(id) => {
                    &&& edge@.start < old(self).node_payloads().len()
                    &&& edge@.end < old(self).node_payloads().len()
                    &&& id@ == old(self).edges().len()
                    &&& final(self).edges() == old(self).edges().push(edge@)
                },
                Err(GraphModificationError::StartNodeDoesNotExist) => {
                    &&& edge@.start >= old(self).node_payloads().len()
                    &&& final(self).edges() == old(self).edges()
                },
                Err(GraphModificationError::EndNodeDoesNotExist) => {
                    &&& edge@.start < old(self).node_payloads().len()
                    &&& edge@.end >= old(self).node_payloads().len()
                    &&& final(self).edges() == old(self).edges()
                },
            },
    ;
}

/// An error type for graph modifications.
/// This type is used by the `MutableGraph` trait.
#[derive(Debug, PartialEq, Eq, Structural)]
pub enum GraphModificationError {
    /// An edge that refers to a nonexistent start node was added to the graph
    StartNodeDoesNotExist,
    /// An edge that refers to a nonexistent end node was added to the graph
    EndNodeDoesNotExist,
}

/// A container for a node.
/// Can be used to add nodes to a `MutableGraph`.
#[derive(Debug)]
pub struct Node<N> {
    data: N,
}

/// A container for an edge.
/// Can be used to add edges to a `MutableGraph`.
#[derive(Debug)]
pub struct Edge<E> {
    start: NodeId,
    end: NodeId,
    data: E,
}

/// A container for an edge.
/// Is returned by `Graph` when a complete edge instance is requested.
#[derive(Debug, Eq, PartialEq)]
pub struct EdgeRef<'a, E> {
    start: NodeId,
    end: NodeId,
    data: &'a E,
}

impl<N> View for Node<N> {
    type V = N;

    closed spec fn view(&self) -> N {
        self.data
    }
}

impl<E> View for Edge<E> {
    type V = EdgeView<E>;

    closed spec fn view(&self) -> EdgeView<E> {
        EdgeView { start: self.start@, end: self.end@, data: self.data }
    }
}

impl<'a, E> View for EdgeRef<'a, E> {
    type V = EdgeView<E>;

    closed spec fn view(&self) -> EdgeView<E> {
        EdgeView { start: self.start@, end: self.end@, data: *self.data }
    }
}

impl<N> Node<N> {
    /// Creates a new node with the given node data.
    pub fn new(data: N) -> (r: Self)
        ensures
            r@ == data,
    {
        Self { data }
    }

    /// Returns the data of this node.
    pub fn data(&self) -> (r: &N)
        ensures
            *r == self@,
    {
        &self.data
    }
}

impl<E> Edge<E> {
    /// Creates a new edge with the given edge data.
    pub fn new(start: NodeId, end: NodeId, data: E) -> (r: Self)
        ensures
            r@ == (EdgeView { start: start@, end: end@, data }),
    {
        Self { start, end, data }
    }

    /// Returns the id of the start node of this edge.
    pub fn start(&self) -> (r: NodeId)
        ensures
            r@ == self@.start,
    {
        self.start
    }

    /// Returns the id of the end node of this edge.
    pub fn end(&self) -> (r: NodeId)
        ensures
            r@ == self@.end,
    {
        self.end
    }

    /// Returns the data of this edge.
    pub fn data(&self) -> (r: &E)
        ensures
            *r == self@.data,
    {
        &self.data
    }
}

impl<'a, E> EdgeRef<'a, E> {
    /// Creates a new edge ref with the given edge data.
    /// This method should not be used by the client.
    pub fn new(start: NodeId, end: NodeId, data: &'a E) -> (r: Self)
        ensures
            r@ == (EdgeView { start: start@, end: end@, data: *data }),
    {
        Self { start, end, data }
    }

    /// Returns the id of the start node of this edge.
    pub fn start(&self) -> (r: NodeId)
        ensures
            r@ == self@.start,
    {
        self.start
    }

    /// Returns the id of the end node of this edge.
    pub fn end(&self) -> (r: NodeId)
        ensures
            r@ == self@.end,
    {
        self.end
    }

    /// Returns a reference to the data of this edge.
    pub fn data(&self) -> (r: &'a E)
        ensures
            *r == self@.data,
    {
        self.data
    }
}

impl<'a, E> From<&'a Edge<E>> for EdgeRef<'a, E> {
    fn from(edge: &'a Edge<E>) -> (r: Self)
        ensures
            r@ == edge@,
    {
        EdgeRef::new(edge.start(), edge.end(), edge.data())
    }
}

impl<'a, E> vstd::std_specs::convert::FromSpecImpl<&'a Edge<E>> for EdgeRef<'a, E> {
    open spec fn obeys_from_spec() -> bool {
        true
    }

    closed spec fn from_spec(v: &'a Edge<E>) -> Self {
        EdgeRef { start: v.start, end: v.end, data: &v.data }
    }
}

} // verus!
