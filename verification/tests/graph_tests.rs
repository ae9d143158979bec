use edgegraph::graph::Graph;
use edgegraph::graph::ID;
use edgegraph::graph::NodeData;

#[test]
fn test_add_remove_nodes() {
    let mut graph = Graph::new();

    let node1 = graph.add_node(NodeData::default());
    let node2 = graph.add_node(NodeData::default());

    assert!(graph.get_node(node1).is_some());
    assert!(graph.get_node(node2).is_some());

    let removed = graph.remove_node(node1);
    assert!(removed.is_some());
    assert!(graph.get_node(node1).is_none());
    assert!(graph.get_node(node2).is_some());
}

#[test]
fn test_add_remove_edges() {
    let mut graph = Graph::new();

    let node1 = graph.add_node(NodeData::default());
    let node2 = graph.add_node(NodeData::default());

    // Test adding an edge
    let edge_id = graph.add_edge(node1, node2).unwrap();

    let edge = graph.get_edge(edge_id);
    assert!(edge.is_some());

    let edge = edge.unwrap();
    assert_eq!(edge.source, node1);
    assert_eq!(edge.target, node2);

    // Test adding an edge with non-existent source
    let non_existent_id = ID::default(); // This ID doesn't exist in the graph
    assert!(graph.add_edge(non_existent_id, node2).is_none());

    // Test adding an edge with non-existent target
    assert!(graph.add_edge(node1, non_existent_id).is_none());

    // Test removing edge
    let removed_edge = graph.remove_edge(edge_id);
    assert!(removed_edge.is_some());
    assert!(graph.get_edge(edge_id).is_none());

    // Test removing the same edge twice (should return None)
    let removed_again = graph.remove_edge(edge_id);
    assert!(removed_again.is_none());

    // Add edge again
    let edge_id = graph.add_edge(node1, node2).unwrap();

    // Remove node - should cascade remove the edge
    graph.remove_node(node1);
    assert!(graph.get_edge(edge_id).is_none());
}

#[test]
fn test_edge_to_edge_connection() {
    let mut graph = Graph::new();

    let node1 = graph.add_node(NodeData::default());
    let node2 = graph.add_node(NodeData::default());

    // Create an edge between nodes
    let edge1 = graph.add_edge(node1, node2).unwrap();

    // Create second-order edge (edge connecting to another edge)
    let edge2 = graph.add_edge(edge1, node2).unwrap();

    // Create third-order edge (edge connecting to an edge that connects to another edge)
    let edge3 = graph.add_edge(edge2, node1).unwrap();

    // Check all edges exist
    assert!(graph.get_edge(edge1).is_some());
    assert!(graph.get_edge(edge2).is_some());
    assert!(graph.get_edge(edge3).is_some());

    // Check the edge connections
    let outgoing_from_edge1 = graph.get_outgoing_edges(edge1);
    assert_eq!(outgoing_from_edge1.len(), 1);
    assert!(outgoing_from_edge1.contains(&edge2));

    let outgoing_from_edge2 = graph.get_outgoing_edges(edge2);
    assert_eq!(outgoing_from_edge2.len(), 1);
    assert!(outgoing_from_edge2.contains(&edge3));

    // Test removing the middle edge (edge2)
    // This should also remove edge3 due to cascade
    graph.remove_edge(edge2);
    assert!(graph.get_edge(edge2).is_none());
    assert!(graph.get_edge(edge3).is_none());
    assert!(graph.get_edge(edge1).is_some()); // edge1 should still exist

    // Test circular reference
    let edge4 = graph.add_edge(edge1, node2).unwrap();
    let edge5 = graph.add_edge(edge4, edge1).unwrap();

    // Check the circular reference
    let outgoing_from_edge4 = graph.get_outgoing_edges(edge4);
    assert!(outgoing_from_edge4.contains(&edge5));

    assert_eq!(graph.get_edge(edge5).unwrap().target, edge1);

    // Removing edge1 should remove both edge4 and edge5 due to cascade
    graph.remove_edge(edge1);
    assert!(graph.get_edge(edge1).is_none());
    assert!(graph.get_edge(edge4).is_none());
    assert!(graph.get_edge(edge5).is_none());
}

#[test]
fn test_complex_cascading_removal() {
    let mut graph = Graph::new();

    // Create some nodes
    let node1 = graph.add_node(NodeData::default());
    let node2 = graph.add_node(NodeData::default());
    let node3 = graph.add_node(NodeData::default());

    // Create a chain of edges: node1 -> edge1 -> edge2 -> edge3 -> node3
    let edge1 = graph.add_edge(node1, node2).unwrap();
    let edge2 = graph.add_edge(edge1, node2).unwrap();
    let edge3 = graph.add_edge(edge2, node3).unwrap();

    // Create a branch: edge2 -> edge4 -> node3
    let edge4 = graph.add_edge(edge2, node3).unwrap();

    // Remove edge2 - should cascade to edge3 and edge4
    graph.remove_edge(edge2);
    assert!(graph.get_edge(edge2).is_none());
    assert!(graph.get_edge(edge3).is_none());
    assert!(graph.get_edge(edge4).is_none());
    assert!(graph.get_edge(edge1).is_some()); // edge1 should remain

    // Test removing a node that's part of multiple edge connections
    let edge5 = graph.add_edge(node1, node2).unwrap();
    let edge6 = graph.add_edge(node2, node3).unwrap();
    let edge7 = graph.add_edge(edge5, edge6).unwrap();

    // Remove node2 - should cascade to all connected edges
    graph.remove_node(node2);
    assert!(graph.get_edge(edge5).is_none());
    assert!(graph.get_edge(edge6).is_none());
    assert!(graph.get_edge(edge7).is_none());
}

#[test]
fn test_node_connections() {
    let mut graph = Graph::new();

    let node1 = graph.add_node(NodeData::default());
    let node2 = graph.add_node(NodeData::default());
    let node3 = graph.add_node(NodeData::default());

    let edge1 = graph.add_edge(node1, node2).unwrap();
    let edge2 = graph.add_edge(node1, node3).unwrap();
    let edge3 = graph.add_edge(node2, node3).unwrap();

    let outgoing_from_1 = graph.get_outgoing_edges(node1);
    assert_eq!(outgoing_from_1.len(), 2);
    assert!(outgoing_from_1.contains(&edge1));
    assert!(outgoing_from_1.contains(&edge2));

    let incoming_to_3 = graph.get_incoming_edges(node3);
    assert_eq!(incoming_to_3.len(), 2);
    assert!(incoming_to_3.contains(&edge2));
    assert!(incoming_to_3.contains(&edge3));
}

#[test]
fn test_serialization() {
    let mut graph = Graph::new();

    let node1 = graph.add_node(NodeData::default());
    let node2 = graph.add_node(NodeData::default());

    graph.add_edge(node1, node2);

    // Test binary serialization
    let binary = graph.to_binary();
    let deserialized = Graph::from_binary(&binary).unwrap();

    assert!(deserialized.get_node(node1).is_some());
    assert!(deserialized.get_node(node2).is_some());
}
