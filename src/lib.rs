//! Graph representations.
//!
//! This crate provides different representations for graphs, some of which are efficient to use,
//! and others that are efficient to construct. A graph built in the mutable edge-list form can be
//! converted into the compact adjacency-array form; node ids are preserved by the conversion.
use vstd::prelude::*;

pub mod adjacencyarray;
pub mod bucketing;
pub mod graph;
pub mod simplegraph;
pub mod util;

verus! {

/// The internal type used for node and edge ids.
pub type IdType = u32;

/// The largest value of `IdType`; it is reserved as the invalid id.
pub const INVALID_ID: IdType = 0xffff_ffff;

/// The ids `0, 1, ..., len - 1`, in increasing order.
pub open spec fn id_range(len: nat) -> Seq<nat> {
    Seq::new(len, |i: int| i as nat)
}

/// Identifies a node in a graph.
///
/// This struct cannot be instantiated or modified by the client.
#[derive(Copy, Clone, PartialEq, Eq, Structural, Ord, PartialOrd, Debug)]
pub struct NodeId {
    id: IdType,
}

/// Identifies an edge in a graph.
///
/// This struct cannot be instantiated or modified by the client.
#[derive(Copy, Clone, PartialEq, Eq, Structural, Ord, PartialOrd, Debug)]
pub struct EdgeId {
    id: IdType,
}

impl View for NodeId {
    type V = nat;

    closed spec fn view(&self) -> nat {
        self.id as nat
    }
}

impl View for EdgeId {
    type V = nat;

    closed spec fn view(&self) -> nat {
        self.id as nat
    }
}

impl NodeId {
    /// Creates the id of the node with the given index; the invalid id cannot be created.
    pub(crate) fn new(id: IdType) -> (r: Self)
        requires
            id != INVALID_ID,
        ensures
            r@ == id,
    {
        NodeId { id }
    }

    /// The reserved id that refers to no node.
    pub fn invalid() -> (r: Self)
        ensures
            r@ == INVALID_ID,
    {
        NodeId { id: INVALID_ID }
    }

    /// Checks if this `NodeId` is valid.
    /// Does not account for id changes due to graph modifications.
    pub fn is_valid(&self) -> (r: bool)
        ensures
            r == (self@ != INVALID_ID),
    {
        *self != Self::invalid()
    }
}

impl EdgeId {
    /// Creates the id of the edge with the given index; the invalid id cannot be created.
    pub(crate) fn new(id: IdType) -> (r: Self)
        requires
            id != INVALID_ID,
        ensures
            r@ == id,
    {
        EdgeId { id }
    }

    /// The reserved id that refers to no edge.
    pub fn invalid() -> (r: Self)
        ensures
            r@ == INVALID_ID,
    {
        EdgeId { id: INVALID_ID }
    }

    /// Checks if this `EdgeId` is valid.
    /// Does not account for id changes due to graph modifications.
    pub fn is_valid(&self) -> (r: bool)
        ensures
            r == (self@ != INVALID_ID),
    {
        *self != Self::invalid()
    }
}

/// Builds the ids `0 .. len` in increasing order.
pub(crate) fn node_id_range(len: IdType) -> (r: Vec<NodeId>)
    ensures
        r@.map_values(|id: NodeId| id@) == id_range(len as nat),
{
    let mut ids: Vec<NodeId> = Vec::new();
    let mut i: IdType = 0;
    while i < len
        invariant
            i <= len,
            ids@.len() == i,
            forall|j: int| 0 <= j < i ==> #[trigger] ids@[j]@ == j,
        decreases len - i,
    {
        ids.push(NodeId::new(i));
        i = i + 1;
    }
    assert(ids@.map_values(|id: NodeId| id@) =~= id_range(len as nat));
    ids
}

/// Builds the ids `0 .. len` in increasing order.
pub(crate) fn edge_id_range(len: IdType) -> (r: Vec<EdgeId>)
    ensures
        r@.map_values(|id: EdgeId| id@) == id_range(len as nat),
{
    let mut ids: Vec<EdgeId> = Vec::new();
    let mut i: IdType = 0;
    while i < len
        invariant
            i <= len,
            ids@.len() == i,
            forall|j: int| 0 <= j < i ==> #[trigger] ids@[j]@ == j,
        decreases len - i,
    {
        ids.push(EdgeId::new(i));
        i = i + 1;
    }
    assert(ids@.map_values(|id: EdgeId| id@) =~= id_range(len as nat));
    ids
}

impl From<NodeId> for usize {
    fn from(id: NodeId) -> (r: usize) {
        id.id as usize
    }
}

impl vstd::std_specs::convert::FromSpecImpl<NodeId> for usize {
    open spec fn obeys_from_spec() -> bool {
        true
    }

    open spec fn from_spec(v: NodeId) -> usize {
        v@ as usize
    }
}

impl From<EdgeId> for usize {
    fn from(id: EdgeId) -> (r: usize) {
        id.id as usize
    }
}

impl vstd::std_specs::convert::FromSpecImpl<EdgeId> for usize {
    open spec fn obeys_from_spec() -> bool {
        true
    }

    open spec fn from_spec(v: EdgeId) -> usize {
        v@ as usize
    }
}

} // verus!
