use graphrepresentations::adjacencyarray::AdjacencyArray;
use graphrepresentations::graph::{
    Edge, EdgeRef, ForwardNavigableGraph, Graph, GraphModificationError, MutableGraph, Node,
};
use graphrepresentations::simplegraph::SimpleGraph;
use graphrepresentations::util::PrefixSum;
use graphrepresentations::{EdgeId, NodeId};

fn navigation_graph() -> SimpleGraph<char, i32> {
    let mut graph = SimpleGraph::new();
    let ids: Vec<NodeId> = "abcde".chars().map(|c| graph.add_node(Node::new(c))).collect();
    for (start, end, data) in [(0, 1, 1), (1, 0, 2), (2, 3, 5), (1, 4, 3), (1, 2, 4), (3, 3, 6)] {
        graph.add_edge(Edge::new(ids[start], ids[end], data)).unwrap();
    }
    graph
}

#[test]
fn round_trip_keeps_counts_and_edge() {
    let mut graph = SimpleGraph::new();
    let n0 = graph.add_node(Node::new(4));
    let n1 = graph.add_node(Node::new(5));
    let e0 = graph.add_edge(Edge::new(n0, n1, 'x')).unwrap();
    let compressed = AdjacencyArray::from(&graph);
    assert_eq!(compressed.node_len(), 2);
    assert_eq!(compressed.edge_len(), 1);
    assert_eq!(compressed.edge(e0), EdgeRef::new(n0, n1, &'x'));
    assert_eq!(compressed.edge_start(e0), n0);
    assert_eq!(compressed.edge_end(e0), n1);
    assert_eq!(compressed.edge_data(e0), &'x');
}

#[test]
fn conversion_keeps_node_and_edge_ids() {
    let graph = navigation_graph();
    let compressed = AdjacencyArray::from(&graph);
    assert_eq!(graph.node_id_iter(), compressed.node_id_iter());
    assert_eq!(graph.edge_id_iter(), compressed.edge_id_iter());
    assert_eq!(compressed.node_id_iter().len(), 5);
    assert_eq!(compressed.edge_id_iter().len(), 6);
}

#[test]
fn conversion_keeps_node_payloads() {
    let graph = navigation_graph();
    let compressed = AdjacencyArray::from(&graph);
    for id in graph.node_id_iter() {
        assert_eq!(graph.node_data(id), compressed.node_data(id));
    }
    let ids = compressed.node_id_iter();
    assert_eq!(compressed.node_data(ids[4]), &'e');
}

#[test]
fn conversion_keeps_edges_added_in_start_order() {
    let mut graph = SimpleGraph::new();
    let n: Vec<NodeId> = (0..4).map(|i| graph.add_node(Node::new(i))).collect();
    graph.add_edge(Edge::new(n[0], n[2], 10)).unwrap();
    graph.add_edge(Edge::new(n[0], n[1], 11)).unwrap();
    graph.add_edge(Edge::new(n[2], n[2], 12)).unwrap();
    graph.add_edge(Edge::new(n[3], n[0], 13)).unwrap();
    let compressed = AdjacencyArray::from(&graph);
    for id in graph.edge_id_iter() {
        assert_eq!(graph.edge(id), compressed.edge(id));
        assert_eq!(graph.edge_data(id), compressed.edge_data(id));
    }
}

#[test]
fn conversion_groups_edges_by_start_node() {
    let graph = navigation_graph();
    let compressed = AdjacencyArray::from(&graph);
    let starts: Vec<u32> = compressed
        .edge_id_iter()
        .into_iter()
        .map(|e| usize::from(compressed.edge_start(e)) as u32)
        .collect();
    assert_eq!(starts, vec![0, 1, 1, 1, 2, 3]);
    let payloads: Vec<i32> =
        compressed.edge_id_iter().into_iter().map(|e| *compressed.edge_data(e)).collect();
    assert_eq!(payloads, vec![1, 2, 3, 4, 5, 6]);
}

#[test]
fn out_edges_match_a_scan_of_all_edges() {
    let graph = navigation_graph();
    let compressed = AdjacencyArray::from(&graph);
    for node in compressed.node_id_iter() {
        let scanned: Vec<EdgeId> = compressed
            .edge_id_iter()
            .into_iter()
            .filter(|&e| compressed.edge_start(e) == node)
            .collect();
        assert_eq!(compressed.out_edges(node), scanned);
    }
    let nodes = compressed.node_id_iter();
    assert_eq!(compressed.out_edges(nodes[4]), Vec::<EdgeId>::new());
    assert_eq!(compressed.out_edges(nodes[1]).len(), 3);
}

#[test]
fn out_edges_keep_insertion_order() {
    let graph = navigation_graph();
    let compressed = AdjacencyArray::from(&graph);
    let nodes = compressed.node_id_iter();
    let payloads: Vec<i32> =
        compressed.out_edges(nodes[1]).into_iter().map(|e| *compressed.edge_data(e)).collect();
    assert_eq!(payloads, vec![2, 3, 4]);
    let ends: Vec<NodeId> =
        compressed.out_edges(nodes[1]).into_iter().map(|e| compressed.edge_end(e)).collect();
    assert_eq!(ends, vec![nodes[0], nodes[4], nodes[2]]);
}

#[test]
fn self_loop_is_an_out_edge_of_its_node() {
    let graph = navigation_graph();
    let compressed = AdjacencyArray::from(&graph);
    let nodes = compressed.node_id_iter();
    let out = compressed.out_edges(nodes[3]);
    assert_eq!(out.len(), 1);
    assert_eq!(compressed.edge(out[0]), EdgeRef::new(nodes[3], nodes[3], &6));
}

#[test]
fn empty_graph_converts() {
    let graph: SimpleGraph<u8, u8> = SimpleGraph::new();
    let compressed = AdjacencyArray::from(&graph);
    assert_eq!(compressed.node_len(), 0);
    assert_eq!(compressed.edge_len(), 0);
    assert!(compressed.node_id_iter().is_empty());
    assert!(compressed.edge_id_iter().is_empty());
}

#[test]
fn graph_without_edges_converts() {
    let mut graph: SimpleGraph<u8, u8> = SimpleGraph::new();
    let a = graph.add_node(Node::new(1));
    let b = graph.add_node(Node::new(2));
    let compressed = AdjacencyArray::from(&graph);
    assert_eq!(compressed.node_len(), 2);
    assert_eq!(compressed.edge_len(), 0);
    assert!(compressed.out_edges(a).is_empty());
    assert!(compressed.out_edges(b).is_empty());
}

#[test]
fn ids_beyond_the_graph_are_invalid() {
    let mut small: SimpleGraph<u8, u8> = SimpleGraph::new();
    let mut large: SimpleGraph<u8, u8> = SimpleGraph::new();
    let a = small.add_node(Node::new(1));
    small.add_node(Node::new(2));
    for i in 0..3 {
        large.add_node(Node::new(i));
    }
    let beyond = large.node_id_iter()[2];
    assert!(small.is_node_id_valid(a));
    assert!(!small.is_node_id_valid(beyond));
    assert!(!small.is_node_id_valid(NodeId::invalid()));
    let compressed = AdjacencyArray::from(&small);
    assert!(compressed.is_node_id_valid(a));
    assert!(!compressed.is_node_id_valid(beyond));
    assert!(!compressed.is_node_id_valid(NodeId::invalid()));
    assert!(!compressed.is_edge_id_valid(EdgeId::invalid()));
    assert!(!small.is_edge_id_valid(EdgeId::invalid()));
}

#[test]
fn add_edge_to_missing_start_node_is_rejected() {
    let mut small: SimpleGraph<u8, u8> = SimpleGraph::new();
    let mut large: SimpleGraph<u8, u8> = SimpleGraph::new();
    let a = small.add_node(Node::new(1));
    for i in 0..3 {
        large.add_node(Node::new(i));
    }
    let missing = large.node_id_iter()[2];
    let result = small.add_edge(Edge::new(missing, a, 7));
    assert_eq!(result, Err(GraphModificationError::StartNodeDoesNotExist));
    assert_eq!(small.edge_len(), 0);
    let result = small.add_edge(Edge::new(NodeId::invalid(), a, 7));
    assert_eq!(result, Err(GraphModificationError::StartNodeDoesNotExist));
    assert_eq!(small.edge_len(), 0);
}

#[test]
fn add_edge_to_missing_end_node_is_rejected() {
    let mut small: SimpleGraph<u8, u8> = SimpleGraph::new();
    let mut large: SimpleGraph<u8, u8> = SimpleGraph::new();
    let a = small.add_node(Node::new(1));
    for i in 0..3 {
        large.add_node(Node::new(i));
    }
    let missing = large.node_id_iter()[2];
    let result = small.add_edge(Edge::new(a, missing, 7));
    assert_eq!(result, Err(GraphModificationError::EndNodeDoesNotExist));
    assert_eq!(small.edge_len(), 0);
    let ok = small.add_edge(Edge::new(a, a, 8)).unwrap();
    assert_eq!(usize::from(ok), 0);
    assert_eq!(small.edge_len(), 1);
}

#[test]
fn ids_are_assigned_in_order() {
    let mut graph: SimpleGraph<u8, u8> = SimpleGraph::new();
    let a = graph.add_node(Node::new(1));
    let b = graph.add_node(Node::new(2));
    assert_eq!(usize::from(a), 0);
    assert_eq!(usize::from(b), 1);
    assert!(a < b);
    assert!(a.is_valid());
    assert!(!NodeId::invalid().is_valid());
    assert!(!EdgeId::invalid().is_valid());
    let e = graph.add_edge(Edge::new(b, a, 3)).unwrap();
    assert!(e.is_valid());
    assert_eq!(graph.edge_start(e), b);
    assert_eq!(graph.edge_end(e), a);
    assert_eq!(graph.edge_data(e), &3);
}

#[test]
fn edge_and_edge_ref_accessors() {
    let mut graph: SimpleGraph<u8, u8> = SimpleGraph::new();
    let a = graph.add_node(Node::new(1));
    let b = graph.add_node(Node::new(2));
    let edge = Edge::new(a, b, 9u8);
    assert_eq!(edge.start(), a);
    assert_eq!(edge.end(), b);
    assert_eq!(edge.data(), &9);
    let edge_ref = EdgeRef::from(&edge);
    assert_eq!(edge_ref.start(), a);
    assert_eq!(edge_ref.end(), b);
    assert_eq!(edge_ref.data(), &9);
    let node = Node::new(5u8);
    assert_eq!(node.data(), &5);
}

#[test]
fn prefix_sum_is_inclusive_running_sum() {
    let mut counts: Vec<u32> = vec![0, 0, 2, 0, 3, 1];
    assert_eq!(counts.prefix_sum(), 6);
    assert_eq!(counts, vec![0, 0, 2, 2, 5, 6]);
    let mut empty: Vec<u32> = Vec::new();
    assert_eq!(empty.prefix_sum(), 0);
    assert!(empty.is_empty());
}
