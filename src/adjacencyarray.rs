//! Defines the adjacency array graph representation.
//!
//! This is a compact static graph representation that is often the most efficient solution if
//! updates to the topology are rare.
use crate::{
    bucketing::{
        count_below, count_equal, lemma_count_below_all, lemma_count_below_monotone,
        lemma_count_below_next, lemma_count_below_zero, lemma_count_equal_bound, lemma_count_step,
        lemma_sorted_position_bound, lemma_sorted_position_in_group,
        lemma_sorted_position_injective, lemma_sorted_position_of_sorted, lemma_sorted_position_stable,
        lemma_count_below_bound, lemma_sorted_position_onto, lemma_take_all, sorted_position,
        keys_sorted,
    },
    graph::{lists_out_edges, EdgeRef, EdgeView, ForwardNavigableGraph, Graph},
    simplegraph::SimpleGraph,
    util::{seq_sum, PrefixSum},
    edge_id_range, node_id_range, EdgeId, IdType, NodeId, INVALID_ID,
};
use superslice::Ext;
use vstd::prelude::*;

verus! {

/// A graph represented as adjacency array.
///
/// The edges are grouped by start node: the out-edges of node `i` have the ids
/// `first_out[i] .. first_out[i + 1]`.
pub struct AdjacencyArray<N, E> {
    first_out: Vec<u32>,
    edge_ends: Vec<NodeId>,
    node_data: Vec<N>,
    edge_data: Vec<E>,
}

/// Whether the entries never decrease.
pub open spec fn offsets_sorted(s: Seq<u32>) -> bool {
    forall|i: int, j: int| 0 <= i <= j < s.len() ==> s[i] <= s[j]
}

/// The node whose range of offsets `first_out[i] .. first_out[i + 1]` holds the edge id `e`.
pub open spec fn slot_owner(first_out: Seq<u32>, e: int) -> int {
    choose|i: int| 0 <= i < first_out.len() - 1 && #[trigger] first_out[i] <= e < first_out[i + 1]
}

/// The start nodes of `edges`, in edge order.
pub open spec fn edge_starts<E>(edges: Seq<EdgeView<E>>) -> Seq<nat> {
    edges.map_values(|e: EdgeView<E>| e.start)
}

/// The offsets of a graph whose edges start at `starts`, on `node_len` nodes: the out-edges of
/// node `i` begin after the edges of all smaller nodes.
pub open spec fn start_offsets(starts: Seq<nat>, node_len: nat) -> Seq<nat> {
    Seq::new(node_len + 1, |i: int| count_below(starts, i as nat))
}

/// Whether the graph with node payloads `nodes` and edges `edges` is the compressed form of the
/// graph with node payloads `source_nodes` and edges `source_edges`.
///
/// Every node keeps its id and a clone of its payload. The edges are grouped by start node,
/// keeping their order within a group: edge `e` moves to the position that a stable sort by start
/// node gives it, and keeps its end points and a clone of its payload.
pub open spec fn is_compressed_form<N: Clone, E: Clone>(
    nodes: Seq<N>,
    edges: Seq<EdgeView<E>>,
    source_nodes: Seq<N>,
    source_edges: Seq<EdgeView<E>>,
) -> bool {
    &&& nodes.len() == source_nodes.len()
    &&& forall|i: int| 0 <= i < nodes.len() ==> cloned(source_nodes[i], #[trigger] nodes[i])
    &&& edges.len() == source_edges.len()
    &&& forall|e: int|
        0 <= e < source_edges.len() ==> {
            let p = #[trigger] sorted_position(edge_starts(source_edges), e) as int;
            &&& edges[p].start == source_edges[e].start
            &&& edges[p].end == source_edges[e].end
            &&& cloned(source_edges[e].data, edges[p].data)
        }
}

/// Relies on superslice's `Ext::upper_bound`: its result is at most the length of the slice, and
/// on a slice sorted in non-decreasing order it is the index of the first element greater
/// than `x` (the length when there is none).
#[verifier::external_body]
fn upper_bound(s: &[u32], x: u32) -> (r: usize)
    ensures
        r <= s@.len(),
        offsets_sorted(s@) ==> (forall|i: int| 0 <= i < r ==> s@[i] <= x),
        offsets_sorted(s@) ==> (forall|i: int| r <= i < s@.len() ==> s@[i] > x),
{
    s.upper_bound(&x)
}

/// Some node's range of offsets holds `e`, when `first_out[0] <= e < first_out[k]`.
proof fn lemma_slot_exists(first_out: Seq<u32>, e: int, k: int)
    requires
        0 < k < first_out.len(),
        first_out[0] <= e < first_out[k],
    ensures
        exists|i: int| 0 <= i < k && #[trigger] first_out[i] <= e < first_out[i + 1],
    decreases k,
{
    if first_out[k - 1] <= e {
        assert(first_out[k - 1] <= e < first_out[k]);
    } else {
        lemma_slot_exists(first_out, e, k - 1);
    }
}

/// On sorted offsets, the node whose range holds `e` is `i` exactly when the range of `i`
/// holds `e`.
proof fn lemma_slot_owner(first_out: Seq<u32>, e: int, i: int)
    requires
        offsets_sorted(first_out),
        first_out.len() > 0,
        first_out[0] <= e < first_out.last(),
        0 <= i < first_out.len() - 1,
    ensures
        0 <= slot_owner(first_out, e) < first_out.len() - 1,
        first_out[slot_owner(first_out, e)] <= e < first_out[slot_owner(first_out, e) + 1],
        (first_out[i] <= e < first_out[i + 1]) <==> slot_owner(first_out, e) == i,
{
    lemma_slot_exists(first_out, e, first_out.len() - 1);
    let o = slot_owner(first_out, e);
    if first_out[i] <= e < first_out[i + 1] && o != i {
        if o < i {
            assert(first_out[o + 1] <= first_out[i]);
        } else {
            assert(first_out[i + 1] <= first_out[o]);
        }
    }
}

impl<N, E> AdjacencyArray<N, E> {
    /// The offsets partition the edge ids among the nodes in order, ids fit their integer type,
    /// and every edge ends at a node of the graph.
    #[verifier::type_invariant]
    pub closed spec fn well_formed(&self) -> bool {
        &&& self.first_out@.len() == self.node_data@.len() + 1
        &&& self.node_data@.len() <= INVALID_ID
        &&& self.edge_ends@.len() <= INVALID_ID
        &&& self.edge_data@.len() == self.edge_ends@.len()
        &&& self.first_out@[0] == 0
        &&& self.first_out@.last() == self.edge_ends@.len()
        &&& offsets_sorted(self.first_out@)
        &&& forall|e: int|
            0 <= e < self.edge_ends@.len() ==> #[trigger] self.edge_ends@[e]@
                < self.node_data@.len()
    }

    /// The offsets: the out-edges of node `i` have the ids `first_out()[i] .. first_out()[i + 1]`.
    pub closed spec fn first_out(&self) -> Seq<nat> {
        self.first_out@.map_values(|o: u32| o as nat)
    }

    /// The model of an edge, and the node whose range holds it.
    proof fn lemma_edge(&self, e: int)
        requires
            self.well_formed(),
            0 <= e < self.edge_ends@.len(),
        ensures
            self.edges()[e] == (EdgeView {
                start: slot_owner(self.first_out@, e) as nat,
                end: self.edge_ends@[e]@,
                data: self.edge_data@[e],
            }),
            0 <= slot_owner(self.first_out@, e) < self.node_data@.len(),
            self.first_out@[slot_owner(self.first_out@, e)] <= e < self.first_out@[slot_owner(
                self.first_out@,
                e,
            ) + 1],
    {
        let fo = self.first_out@;
        assert(fo[0] <= e < fo.last());
        lemma_slot_owner(fo, e, 0);
    }
}

impl<N, E> Graph<N, E> for AdjacencyArray<N, E> {
    closed spec fn node_payloads(&self) -> Seq<N> {
        self.node_data@
    }

    closed spec fn edges(&self) -> Seq<EdgeView<E>> {
        Seq::new(
            self.edge_ends@.len(),
            |e: int|
                EdgeView {
                    start: slot_owner(self.first_out@, e) as nat,
                    end: self.edge_ends@[e]@,
                    data: self.edge_data@[e],
                },
        )
    }

    fn node_len(&self) -> (r: IdType) {
        proof {
            use_type_invariant(self);
        }
        (self.first_out.len() - 1) as IdType
    }

    fn edge_len(&self) -> (r: IdType) {
        proof {
            use_type_invariant(self);
        }
        self.edge_ends.len() as IdType
    }

    fn node_id_iter(&self) -> (r: Vec<NodeId>) {
        node_id_range(self.node_len())
    }

    fn edge_id_iter(&self) -> (r: Vec<EdgeId>) {
        edge_id_range(self.edge_len())
    }

    fn node_data(&self, id: NodeId) -> (r: &N) {
        &self.node_data[id.id as usize]
    }

    fn edge_data(&self, id: EdgeId) -> (r: &E) {
        proof {
            use_type_invariant(self);
        }
        &self.edge_data[id.id as usize]
    }

    fn edge(&self, id: EdgeId) -> (r: EdgeRef<'_, E>) {
        let start = self.edge_start(id);
        let end = self.edge_end(id);
        let data = self.edge_data(id);
        EdgeRef::new(start, end, data)
    }

    fn edge_start(&self, id: EdgeId) -> (r: NodeId) {
        proof {
            use_type_invariant(self);
            self.lemma_edge(id@ as int);
        }
        let bound = upper_bound(self.first_out.as_slice(), id.id);
        proof {
            lemma_slot_owner(self.first_out@, id@ as int, bound - 1);
        }
        NodeId::new((bound - 1) as IdType)
    }

    fn edge_end(&self, id: EdgeId) -> (r: NodeId) {
        proof {
            use_type_invariant(self);
            self.lemma_edge(id@ as int);
        }
        self.edge_ends[id.id as usize]
    }

    fn is_node_id_valid(&self, id: NodeId) -> (r: bool) {
        proof {
            use_type_invariant(self);
        }
        id.is_valid() && (id.id as usize) < self.node_data.len()
    }

    fn is_edge_id_valid(&self, id: EdgeId) -> (r: bool) {
        proof {
            use_type_invariant(self);
        }
        id.is_valid() && (id.id as usize) < self.edge_ends.len()
    }
}

impl<N, E> AdjacencyArray<N, E> {
    /// An edge starts at `node` exactly when its id lies in the range of offsets of `node`.
    proof fn lemma_out_edge_range(&self, node: int, x: int)
        requires
            self.well_formed(),
            0 <= node < self.node_data@.len(),
            0 <= x < self.edge_ends@.len(),
        ensures
            self.edges()[x].start == node <==> self.first_out@[node] <= x < self.first_out@[node
                + 1],
    {
        self.lemma_edge(x);
        lemma_slot_owner(self.first_out@, x, node);
    }
}

impl<N, E> ForwardNavigableGraph<N, E> for AdjacencyArray<N, E> {
    fn out_edges(&self, id: NodeId) -> (r: Vec<EdgeId>) {
        proof {
            use_type_invariant(self);
        }
        let node_index = id.id as usize;
        let edge_id_offset = self.first_out[node_index];
        let edge_id_limit = self.first_out[node_index + 1];
        let ghost m = self.edge_ends@.len();
        proof {
            assert(edge_id_limit <= self.first_out@.last());
        }
        let mut out: Vec<EdgeId> = Vec::new();
        let mut e: IdType = edge_id_offset;
        while e < edge_id_limit
            invariant
                edge_id_offset <= e <= edge_id_limit <= m <= INVALID_ID,
                out@.len() == e - edge_id_offset,
                forall|k: int| 0 <= k < out@.len() ==> #[trigger] out@[k]@ == edge_id_offset + k,
            decreases edge_id_limit - e,
        {
            out.push(EdgeId::new(e));
            e = e + 1;
        }
        proof {
            let ids = out@.map_values(|x: EdgeId| x@);
            let node = id@ as int;
            assert forall|i: int| 0 <= i < ids.len() implies #[trigger] ids[i] < self.edges().len()
                && self.edges()[ids[i] as int].start == id@ by {
                assert(ids[i] == edge_id_offset + i);
                self.lemma_out_edge_range(node, ids[i] as int);
            }
            assert forall|x: nat| x < self.edges().len() && self.edges()[x as int].start == id@
                implies #[trigger] ids.contains(x) by {
                self.lemma_out_edge_range(node, x as int);
                assert(ids[x - edge_id_offset] == x);
            }
        }
        out
    }
}

/// Clones the node payloads of `source`, in node id order.
fn clone_node_data<N: Clone, E, G: Graph<N, E>>(source: &G) -> (r: Vec<N>)
    ensures
        r@.len() == source.node_payloads().len(),
        forall|j: int| 0 <= j < r@.len() ==> cloned(source.node_payloads()[j], #[trigger] r@[j]),
{
    let node_len = source.node_len();
    let mut node_data: Vec<N> = Vec::new();
    let mut i: IdType = 0;
    while i < node_len
        invariant
            node_len == source.node_payloads().len(),
            i <= node_len,
            node_data@.len() == i,
            forall|j: int| 0 <= j < i ==> cloned(source.node_payloads()[j], #[trigger] node_data@[j]),
        decreases node_len - i,
    {
        node_data.push(source.node_data(NodeId::new(i)).clone());
        i = i + 1;
    }
    node_data
}

/// Counts the out-edges of each node `i` of `source` in entry `i + 2` of the result; the first
/// two entries are zero.
fn count_out_edges<N, E, G: Graph<N, E>>(source: &G) -> (r: Vec<u32>)
    requires
        source.node_payloads().len() + 2 <= usize::MAX,
    ensures
        r@.len() == source.node_payloads().len() + 2,
        r@[0] == 0,
        r@[1] == 0,
        forall|k: int|
            2 <= k < r@.len() ==> #[trigger] r@[k] == count_equal(
                edge_starts(source.edges()),
                (k - 2) as nat,
            ),
        forall|f: int|
            0 <= f < source.edges().len() ==> #[trigger] edge_starts(source.edges())[f]
                < source.node_payloads().len(),
{
    let ghost starts = edge_starts(source.edges());
    let ghost n = source.node_payloads().len();
    let node_len = source.node_len() as usize;
    let edge_len = source.edge_len();
    let mut first_out: Vec<u32> = vec![0u32; node_len + 2];
    let mut e: IdType = 0;
    while e < edge_len
        invariant
            n == source.node_payloads().len(),
            node_len == n,
            n + 2 <= usize::MAX,
            edge_len == source.edges().len(),
            starts == edge_starts(source.edges()),
            e <= edge_len,
            first_out@.len() == n + 2,
            first_out@[0] == 0,
            first_out@[1] == 0,
            forall|k: int|
                2 <= k < n + 2 ==> #[trigger] first_out@[k] == count_equal(
                    starts.take(e as int),
                    (k - 2) as nat,
                ),
            forall|f: int| 0 <= f < e ==> #[trigger] starts[f] < n,
        decreases edge_len - e,
    {
        let edge = source.edge(EdgeId::new(e));
        let count_index: usize = edge.start().id as usize + 2;
        proof {
            assert(starts[e as int] == edge@.start);
            assert forall|v: nat|
                #[trigger] count_equal(starts.take(e + 1), v) == count_equal(
                    starts.take(e as int),
                    v,
                ) + if starts[e as int] == v {
                    1nat
                } else {
                    0nat
                } by {
                lemma_count_step(starts, e as int, v);
            }
            lemma_count_equal_bound(starts.take(e as int), starts[e as int]);
        }
        first_out.set(count_index, first_out[count_index] + 1);
        e = e + 1;
    }
    proof {
        lemma_take_all(starts);
    }
    first_out
}

/// Places every edge of `source` at the cursor of its start node, where `first_out[i + 1]` holds
/// the first slot of node `i`; afterwards `first_out[i + 1]` holds the first slot after node `i`.
fn place_edges<N, E: Default + Clone, G: Graph<N, E>>(
    source: &G,
    first_out: &mut Vec<u32>,
) -> (r: (Vec<NodeId>, Vec<E>))
    requires
        source.node_payloads().len() + 2 <= usize::MAX,
        old(first_out)@.len() == source.node_payloads().len() + 2,
        old(first_out)@[0] == 0,
        old(first_out)@[source.node_payloads().len() + 1 as int] == source.edges().len(),
        forall|k: int|
            1 <= k <= source.node_payloads().len() ==> #[trigger] old(first_out)@[k] == count_below(
                edge_starts(source.edges()),
                (k - 1) as nat,
            ),
        forall|f: int|
            0 <= f < source.edges().len() ==> #[trigger] edge_starts(source.edges())[f]
                < source.node_payloads().len(),
    ensures
        final(first_out)@.len() == old(first_out)@.len(),
        final(first_out)@[0] == 0,
        final(first_out)@[source.node_payloads().len() + 1 as int] == source.edges().len(),
        forall|k: int|
            1 <= k <= source.node_payloads().len() ==> #[trigger] final(first_out)@[k] == count_below(
                edge_starts(source.edges()),
                k as nat,
            ),
        r.0@.len() == source.edges().len(),
        r.1@.len() == source.edges().len(),
        forall|p: int| 0 <= p < r.0@.len() ==> #[trigger] r.0@[p]@ < source.node_payloads().len(),
        forall|f: int|
            0 <= f < source.edges().len() ==> {
                let p = #[trigger] sorted_position(edge_starts(source.edges()), f) as int;
                &&& r.0@[p]@ == source.edges()[f].end
                &&& cloned(source.edges()[f].data, r.1@[p])
            },
{
    let ghost starts = edge_starts(source.edges());
    let ghost n = source.node_payloads().len();
    let ghost m = source.edges().len();
    let edge_len = source.edge_len();
    proof {
        lemma_take_all(starts);
        lemma_count_below_all(starts, n);
        if m > 0 {
            assert(starts[0] < n);
        }
    }
    let mut edge_ends: Vec<NodeId> = vec![NodeId::new(0); edge_len as usize];
    let mut edge_data: Vec<E> = vec![E::default(); edge_len as usize];
    let mut e: IdType = 0;
    while e < edge_len
        invariant
            n == source.node_payloads().len(),
            m == source.edges().len(),
            n + 2 <= usize::MAX,
            edge_len == m,
            starts == edge_starts(source.edges()),
            count_below(starts, n) == m,
            forall|f: int| 0 <= f < m ==> #[trigger] starts[f] < n,
            e <= edge_len,
            first_out@.len() == n + 2,
            first_out@[0] == 0,
            first_out@[n + 1 as int] == m,
            forall|k: int|
                1 <= k <= n ==> #[trigger] first_out@[k] == count_below(starts, (k - 1) as nat)
                    + count_equal(starts.take(e as int), (k - 1) as nat),
            edge_ends@.len() == m,
            edge_data@.len() == m,
            forall|p: int| 0 <= p < m ==> #[trigger] edge_ends@[p]@ < n,
            forall|f: int|
                0 <= f < e ==> {
                    let p = #[trigger] sorted_position(starts, f) as int;
                    &&& edge_ends@[p]@ == source.edges()[f].end
                    &&& cloned(source.edges()[f].data, edge_data@[p])
                },
        decreases edge_len - e,
    {
        let edge = source.edge(EdgeId::new(e));
        let node_index: usize = edge.start().id as usize + 1;
        let edge_index: usize = first_out[node_index] as usize;
        proof {
            assert(starts[e as int] == edge@.start);
            assert forall|v: nat|
                #[trigger] count_equal(starts.take(e + 1), v) == count_equal(
                    starts.take(e as int),
                    v,
                ) + if starts[e as int] == v {
                    1nat
                } else {
                    0nat
                } by {
                lemma_count_step(starts, e as int, v);
            }
            assert(edge_index == sorted_position(starts, e as int));
            lemma_sorted_position_bound(starts, e as int, n);
            assert forall|f: int| 0 <= f < e implies sorted_position(starts, f) != edge_index by {
                lemma_sorted_position_injective(starts, f, e as int);
            }
            lemma_sorted_position_in_group(starts, e as int);
            lemma_count_below_monotone(starts, starts[e as int] + 1, n);
        }
        let data = edge.data().clone();
        proof {
            assert(cloned(source.edges()[e as int].data, data));
        }
        let end = edge.end();
        let ghost old_ends = edge_ends@;
        let ghost old_data = edge_data@;
        edge_ends.set(edge_index, end);
        edge_data.set(edge_index, data);
        first_out.set(node_index, first_out[node_index] + 1);
        proof {
            assert(end@ == source.edges()[e as int].end);
            assert(edge_ends@[edge_index as int]@ == source.edges()[e as int].end);
            assert(cloned(source.edges()[e as int].data, edge_data@[edge_index as int]));
            assert forall|f: int| 0 <= f < e + 1 implies {
                let p = #[trigger] sorted_position(starts, f) as int;
                &&& edge_ends@[p]@ == source.edges()[f].end
                &&& cloned(source.edges()[f].data, edge_data@[p])
            } by {
                let p = sorted_position(starts, f) as int;
                if f < e {
                    lemma_sorted_position_injective(starts, f, e as int);
                    lemma_sorted_position_bound(starts, f, n);
                    assert(old_ends[p]@ == source.edges()[f].end);
                    assert(cloned(source.edges()[f].data, old_data[p]));
                    assert(edge_ends@[p] == old_ends[p]);
                    assert(edge_data@[p] == old_data[p]);
                } else {
                    assert(f == e);
                    assert(p == edge_index);
                }
            }
        }
        e = e + 1;
    }
    proof {
        assert forall|k: int| 1 <= k <= n implies #[trigger] first_out@[k] == count_below(
            starts,
            k as nat,
        ) by {
            lemma_count_below_next(starts, (k - 1) as nat);
        }
    }
    (edge_ends, edge_data)
}

/// Turns the counters of `count_out_edges` into running sums: afterwards `first_out[i + 1]` is
/// the first slot of node `i`, and the last entry is the number of edges.
fn start_offsets_from_counts<N, E, G: Graph<N, E>>(source: &G, first_out: &mut Vec<u32>)
    requires
        old(first_out)@.len() == source.node_payloads().len() + 2,
        old(first_out)@[0] == 0,
        old(first_out)@[1] == 0,
        forall|k: int|
            2 <= k < old(first_out)@.len() ==> #[trigger] old(first_out)@[k] == count_equal(
                edge_starts(source.edges()),
                (k - 2) as nat,
            ),
        forall|f: int|
            0 <= f < source.edges().len() ==> #[trigger] edge_starts(source.edges())[f]
                < source.node_payloads().len(),
    ensures
        final(first_out)@.len() == old(first_out)@.len(),
        final(first_out)@[0] == 0,
        final(first_out)@[source.node_payloads().len() + 1 as int] == source.edges().len(),
        forall|k: int|
            1 <= k <= source.node_payloads().len() + 1 ==> #[trigger] final(first_out)@[k]
                == count_below(edge_starts(source.edges()), (k - 1) as nat),
{
    let ghost starts = edge_starts(source.edges());
    let ghost n = source.node_payloads().len();
    let ghost counts = first_out@;
    let edge_len = source.edge_len();
    proof {
        lemma_counter_sums(counts, starts, n);
        assert(seq_sum(counts.take(n + 2 as int)) == count_below(starts, n));
        lemma_take_all_u32(counts);
        lemma_count_below_all(starts, n);
        assert(starts.len() == source.edges().len());
    }
    first_out.prefix_sum();
    proof {
        assert forall|k: int| 1 <= k <= n + 1 implies #[trigger] first_out@[k] == count_below(
            starts,
            (k - 1) as nat,
        ) by {
            assert(counts.take(k + 1) == counts.take((k - 1) + 2));
        }
        assert(counts.take(1).drop_last() =~= Seq::<u32>::empty());
        assert(counts.take(1).last() == counts[0]);
        assert(seq_sum(Seq::<u32>::empty()) == 0);
    }
}

impl<N: Clone, E: Clone> AdjacencyArray<N, E> {
    /// Offsets that count the edges below each node, with every edge placed at its sorted
    /// position, make the compressed form of `source`.
    proof fn lemma_built_from<G: Graph<N, E>>(&self, source: &G)
        requires
            self.well_formed(),
            self.node_data@.len() == source.node_payloads().len(),
            forall|j: int|
                0 <= j < self.node_data@.len() ==> cloned(
                    source.node_payloads()[j],
                    #[trigger] self.node_data@[j],
                ),
            self.edge_ends@.len() == source.edges().len(),
            forall|k: int|
                0 <= k < self.first_out@.len() ==> #[trigger] self.first_out@[k] == count_below(
                    edge_starts(source.edges()),
                    k as nat,
                ),
            forall|f: int|
                0 <= f < source.edges().len() ==> #[trigger] edge_starts(source.edges())[f]
                    < source.node_payloads().len(),
            forall|f: int|
                0 <= f < source.edges().len() ==> {
                    let p = #[trigger] sorted_position(edge_starts(source.edges()), f) as int;
                    &&& self.edge_ends@[p]@ == source.edges()[f].end
                    &&& cloned(source.edges()[f].data, self.edge_data@[p])
                },
        ensures
            is_compressed_form(
                self.node_payloads(),
                self.edges(),
                source.node_payloads(),
                source.edges(),
            ),
            self.first_out() == start_offsets(
                edge_starts(source.edges()),
                source.node_payloads().len(),
            ),
    {
        let starts = edge_starts(source.edges());
        let n = source.node_payloads().len();
        let m = source.edges().len();
        assert(self.first_out() =~= start_offsets(starts, n));
        assert forall|f: int| 0 <= f < m implies {
            let p = #[trigger] sorted_position(starts, f) as int;
            &&& self.edges()[p].start == source.edges()[f].start
            &&& self.edges()[p].end == source.edges()[f].end
            &&& cloned(source.edges()[f].data, self.edges()[p].data)
        } by {
            let p = sorted_position(starts, f) as int;
            lemma_sorted_position_bound(starts, f, n);
            lemma_sorted_position_in_group(starts, f);
            lemma_count_below_next(starts, starts[f]);
            self.lemma_edge(p);
            lemma_slot_owner(self.first_out@, p, starts[f] as int);
        }
    }
}

/// Builds the compressed form of `source` by a stable counting sort of its edges by start node.
fn convert_from<N: Clone, E: Default + Clone, G: Graph<N, E>>(source: &G) -> (r: AdjacencyArray<
    N,
    E,
>)
    requires
        source.node_payloads().len() + 2 <= usize::MAX,
    ensures
        is_compressed_form(r.node_payloads(), r.edges(), source.node_payloads(), source.edges()),
        r.first_out() == start_offsets(edge_starts(source.edges()), source.node_payloads().len()),
{
    let ghost starts = edge_starts(source.edges());
    let ghost n = source.node_payloads().len();
    let ghost m = source.edges().len();
    let node_len = source.node_len();
    let edge_len = source.edge_len();
    let node_data = clone_node_data(source);

    // Count the out-edges of each node `i` in `first_out[i + 2]`.
    let mut first_out = count_out_edges(source);

    // Running sums: `first_out[i + 1]` becomes the first slot of node `i`.
    start_offsets_from_counts(source, &mut first_out);

    // Place every edge at the cursor of its start node.
    let (edge_ends, edge_data) = place_edges(source, &mut first_out);

    // Drop the trailing slot: `first_out[i]` is now the first slot of node `i`.
    first_out.pop();
    proof {
        lemma_count_below_zero(starts);
        assert forall|k: int| 0 <= k <= n implies #[trigger] first_out@[k] == count_below(
            starts,
            k as nat,
        ) by {}
        assert forall|i: int, j: int| 0 <= i <= j < first_out@.len() implies first_out@[i]
            <= first_out@[j] by {
            lemma_count_below_monotone(starts, i as nat, j as nat);
        }
    }
    let r = AdjacencyArray { first_out, edge_ends, node_data, edge_data };
    proof {
        r.lemma_built_from(source);
    }
    r
}


/// The running sums of the counters up to node `i` are the numbers of edges that start
/// below `i`.
proof fn lemma_counter_sums(counts: Seq<u32>, starts: Seq<nat>, n: nat)
    requires
        counts.len() == n + 2,
        counts[0] == 0,
        counts[1] == 0,
        forall|k: int| 2 <= k < n + 2 ==> #[trigger] counts[k] == count_equal(starts, (k - 2) as nat),
    ensures
        forall|i: int| 0 <= i <= n ==> #[trigger] seq_sum(counts.take(i + 2)) == count_below(starts, i as nat),
{
    assert forall|i: int| 0 <= i <= n implies #[trigger] seq_sum(counts.take(i + 2)) == count_below(starts, i as nat) by {
        lemma_counter_sum(counts, starts, n, i);
    }
}

/// One instance of `lemma_counter_sums`, by induction on `i`.
proof fn lemma_counter_sum(counts: Seq<u32>, starts: Seq<nat>, n: nat, i: int)
    requires
        counts.len() == n + 2,
        counts[0] == 0,
        counts[1] == 0,
        forall|k: int| 2 <= k < n + 2 ==> #[trigger] counts[k] == count_equal(starts, (k - 2) as nat),
        0 <= i <= n,
    ensures
        seq_sum(counts.take(i + 2)) == count_below(starts, i as nat),
    decreases i,
{
    if i == 0 {
        assert(counts.take(2).drop_last() =~= counts.take(1));
        assert(counts.take(1).drop_last() =~= Seq::<u32>::empty());
        assert(counts.take(1).last() == counts[0]);
        assert(seq_sum(Seq::<u32>::empty()) == 0);
        assert(seq_sum(counts.take(1)) == 0);
        lemma_count_below_zero(starts);
    } else {
        lemma_counter_sum(counts, starts, n, i - 1);
        assert(counts.take(i + 2).drop_last() =~= counts.take(i + 1));
        lemma_count_below_next(starts, (i - 1) as nat);
    }
}

proof fn lemma_take_all_u32(s: Seq<u32>)
    ensures
        s.take(s.len() as int) == s,
{
    assert(s.take(s.len() as int) =~= s);
}

impl<'a, N: Clone, E: Default + Clone> From<&'a SimpleGraph<N, E>> for AdjacencyArray<N, E> {
    fn from(source: &'a SimpleGraph<N, E>) -> (r: Self)
        ensures
            is_compressed_form(r.node_payloads(), r.edges(), source.node_payloads(), source.edges()),
            r.first_out() == start_offsets(edge_starts(source.edges()), source.node_payloads().len()),
    {
        proof {
            use_type_invariant(source);
            source.lemma_room_for_conversion();
        }
        convert_from(source)
    }
}

impl<'a, N: Clone, E: Default + Clone> vstd::std_specs::convert::FromSpecImpl<&'a SimpleGraph<N, E>> for AdjacencyArray<N, E> {
    /// The conversion clones payloads, and a clone need not be determined by its original, so
    /// no spec function gives its result; its contract is stated on `from` itself.
    open spec fn obeys_from_spec() -> bool {
        false
    }

    closed spec fn from_spec(v: &'a SimpleGraph<N, E>) -> Self {
        arbitrary()
    }
}

impl<N, E> AdjacencyArray<N, E> {
    /// The offsets partition the edge ids among the nodes: they start at zero, never decrease,
    /// and end at the number of edges.
    pub proof fn lemma_first_out_partition(&self)
        requires
            self.well_formed(),
        ensures
            self.first_out().len() == self.node_payloads().len() + 1,
            self.first_out()[0] == 0,
            self.first_out()[self.node_payloads().len() as int] == self.edges().len(),
            forall|i: int, j: int|
                0 <= i <= j < self.first_out().len() ==> self.first_out()[i] <= self.first_out()[j],
            forall|e: int|
                0 <= e < self.edges().len() ==> {
                    let i = #[trigger] self.edges()[e].start as int;
                    self.first_out()[i] <= e < self.first_out()[i + 1]
                },
    {
        assert forall|e: int| 0 <= e < self.edges().len() implies {
            let i = #[trigger] self.edges()[e].start as int;
            self.first_out()[i] <= e < self.first_out()[i + 1]
        } by {
            self.lemma_edge(e);
        }
    }
}

/// A stable sort position lies within the sequence.
proof fn lemma_sorted_position_within(s: Seq<nat>, e: int)
    requires
        0 <= e < s.len(),
    ensures
        sorted_position(s, e) < s.len(),
{
    lemma_sorted_position_in_group(s, e);
    lemma_count_below_bound(s, s[e] + 1);
}

/// Conversion keeps the ids: the compressed form has the same node ids and the same edge ids,
/// in the same order, as the graph it was built from.
pub proof fn lemma_conversion_keeps_ids<N: Clone, E: Clone>(
    nodes: Seq<N>,
    edges: Seq<EdgeView<E>>,
    source_nodes: Seq<N>,
    source_edges: Seq<EdgeView<E>>,
)
    requires
        is_compressed_form(nodes, edges, source_nodes, source_edges),
    ensures
        crate::id_range(nodes.len()) == crate::id_range(source_nodes.len()),
        crate::id_range(edges.len()) == crate::id_range(source_edges.len()),
{
}

/// Conversion keeps the payloads: every node holds a clone of the payload of the node with the
/// same id. When the edges were added in order of their start nodes, every edge keeps its id,
/// its end points and a clone of its payload.
pub proof fn lemma_conversion_keeps_payloads<N: Clone, E: Clone>(
    nodes: Seq<N>,
    edges: Seq<EdgeView<E>>,
    source_nodes: Seq<N>,
    source_edges: Seq<EdgeView<E>>,
)
    requires
        is_compressed_form(nodes, edges, source_nodes, source_edges),
    ensures
        forall|i: int| 0 <= i < nodes.len() ==> cloned(source_nodes[i], #[trigger] nodes[i]),
        keys_sorted(edge_starts(source_edges)) ==> forall|e: int|
            0 <= e < edges.len() ==> {
                &&& #[trigger] edges[e].start == source_edges[e].start
                &&& edges[e].end == source_edges[e].end
                &&& cloned(source_edges[e].data, edges[e].data)
            },
{
    let starts = edge_starts(source_edges);
    if keys_sorted(starts) {
        assert forall|e: int| 0 <= e < edges.len() implies {
            &&& #[trigger] edges[e].start == source_edges[e].start
            &&& edges[e].end == source_edges[e].end
            &&& cloned(source_edges[e].data, edges[e].data)
        } by {
            lemma_sorted_position_of_sorted(starts, e);
            assert(sorted_position(starts, e) == e);
        }
    }
}

/// Conversion keeps the order of edges: of two edges added with the same start node, the
/// earlier one comes first among the out-edges of that node in the compressed form.
pub proof fn lemma_conversion_keeps_edge_order<N: Clone, E: Clone>(
    nodes: Seq<N>,
    edges: Seq<EdgeView<E>>,
    source_nodes: Seq<N>,
    source_edges: Seq<EdgeView<E>>,
    out: Seq<nat>,
    first: int,
    second: int,
)
    requires
        is_compressed_form(nodes, edges, source_nodes, source_edges),
        0 <= first < second < source_edges.len(),
        source_edges[first].start == source_edges[second].start,
        lists_out_edges(out, edges, source_edges[first].start),
    ensures
        exists|i: int, j: int|
            0 <= i < j < out.len() && out[i] == sorted_position(edge_starts(source_edges), first)
                && out[j] == sorted_position(edge_starts(source_edges), second),
{
    let starts = edge_starts(source_edges);
    let p1 = sorted_position(starts, first);
    let p2 = sorted_position(starts, second);
    lemma_sorted_position_within(starts, first);
    lemma_sorted_position_within(starts, second);
    lemma_sorted_position_stable(starts, first, second);
    assert(edges[p1 as int].start == source_edges[first].start);
    assert(edges[p2 as int].start == source_edges[second].start);
    assert(out.contains(p1));
    assert(out.contains(p2));
    let i = choose|i: int| 0 <= i < out.len() && out[i] == p1;
    let j = choose|j: int| 0 <= j < out.len() && out[j] == p2;
    if j <= i {
        if j < i {
            assert(out[j] < out[i]);
        }
    }
    assert(0 <= i < j < out.len() && out[i] == p1 && out[j] == p2);
}

/// Conversion permutes the edges: every edge of the compressed form comes from exactly one
/// edge of the source graph, and keeps its end points and a clone of its payload.
pub proof fn lemma_conversion_permutes_edges<N: Clone, E: Clone>(
    nodes: Seq<N>,
    edges: Seq<EdgeView<E>>,
    source_nodes: Seq<N>,
    source_edges: Seq<EdgeView<E>>,
    p: int,
)
    requires
        is_compressed_form(nodes, edges, source_nodes, source_edges),
        0 <= p < edges.len(),
    ensures
        exists|e: int|
            0 <= e < source_edges.len() && #[trigger] sorted_position(edge_starts(source_edges), e)
                == p && edges[p].start == source_edges[e].start && edges[p].end
                == source_edges[e].end && cloned(source_edges[e].data, edges[p].data),
        forall|e: int, f: int|
            0 <= e < f < source_edges.len() ==> sorted_position(edge_starts(source_edges), e)
                != sorted_position(edge_starts(source_edges), f),
{
    let starts = edge_starts(source_edges);
    lemma_sorted_position_onto(starts, p as nat);
    assert forall|e: int, f: int| 0 <= e < f < source_edges.len() implies sorted_position(
        starts,
        e,
    ) != sorted_position(starts, f) by {
        lemma_sorted_position_injective(starts, e, f);
    }
}

} // verus!
