use edgegraph::graph::Graph;
use edgegraph::graph::NodeData;
use edgegraph::state::Camera;
use edgegraph::state::Coord;
use edgegraph::state::GraphState;
use edgegraph::state::COORD_ORIGIN;
use edgegraph::state::ZOOM_UNIT;

fn at(x: u64, y: u64) -> Coord {
    Coord { x, y }
}

#[test]
fn cascade_removes_dependent_edges_only() {
    // Two nodes, then a chain of edges hanging off the first edge:
    // removing e1 removes e2 and e3 but leaves both nodes.
    let mut graph = Graph::new();
    let n1 = graph.add_node(NodeData::default());
    let n2 = graph.add_node(NodeData::default());
    let e1 = graph.add_edge(n1, n2).unwrap();
    let e2 = graph.add_edge(e1, n2).unwrap();
    let e3 = graph.add_edge(e2, n1).unwrap();

    graph.remove_edge(e1);
    assert!(graph.get_edge(e1).is_none());
    assert!(graph.get_edge(e2).is_none());
    assert!(graph.get_edge(e3).is_none());
    assert!(graph.get_node(n1).is_some());
    assert!(graph.get_node(n2).is_some());
}

#[test]
fn cycle_removal_terminates_and_removes_each_once() {
    // e5 targets e1 while e4 hangs off e1: a cycle through e1. Removing
    // e1 terminates and removes e1, e4 and e5 exactly once each.
    let mut graph = Graph::new();
    let n1 = graph.add_node(NodeData::default());
    let n2 = graph.add_node(NodeData::default());
    let e1 = graph.add_edge(n1, n2).unwrap();
    let e4 = graph.add_edge(e1, n2).unwrap();
    let e5 = graph.add_edge(e4, e1).unwrap();

    let removed = graph.remove_edge(e1);
    assert!(removed.is_some());
    assert!(graph.get_edge(e1).is_none());
    assert!(graph.get_edge(e4).is_none());
    assert!(graph.get_edge(e5).is_none());
    // Only the two nodes survive; a double-free would have broken the count.
    assert_eq!(graph.element_count(), 2);
    // A second removal of any of them reports absence.
    assert!(graph.remove_edge(e1).is_none());
    assert!(graph.remove_edge(e4).is_none());
    assert!(graph.remove_edge(e5).is_none());
}

#[test]
fn invalid_endpoint_leaves_arena_unchanged() {
    let mut graph = Graph::new();
    let n1 = graph.add_node(NodeData::default());
    let n2 = graph.add_node(NodeData::default());
    let count_before = graph.element_count();

    let unknown_id = 9999;
    assert!(graph.add_edge(unknown_id, n2).is_none());
    assert!(graph.add_edge(n1, unknown_id).is_none());
    assert_eq!(graph.element_count(), count_before);
}

#[test]
fn removal_is_idempotent() {
    let mut state = GraphState::new();
    let n1 = state.add_node_at(at(100, 100));
    let n2 = state.add_node_at(at(300, 100));
    let e1 = state.add_edge_between(n1, n2).unwrap();

    state.remove_element(e1);
    assert!(state.graph.get_edge(e1).is_none());
    // Second removal of the same identity is a no-op, not an error.
    state.remove_element(e1);
    assert!(state.graph.get_edge(e1).is_none());
    assert_eq!(state.graph.element_count(), 2);

    state.remove_element(n1);
    state.remove_element(n1);
    assert!(state.graph.get_node(n1).is_none());
    assert_eq!(state.graph.element_count(), 1);
}

#[test]
fn stale_identities_never_resolve_to_new_elements() {
    let mut graph = Graph::new();
    let n1 = graph.add_node(NodeData::default());
    graph.remove_node(n1);
    // Allocate more elements after the removal; the stale identity must
    // keep reporting absence rather than resolving to any of them.
    let n2 = graph.add_node(NodeData::default());
    let n3 = graph.add_node(NodeData::default());
    assert!(graph.get_node(n1).is_none());
    assert_ne!(n1, n2);
    assert_ne!(n1, n3);
}

#[test]
fn edge_created_at_midpoint_of_endpoints() {
    let mut state = GraphState::new();
    let n1 = state.add_node_at(at(100, 100));
    let n2 = state.add_node_at(at(300, 200));
    let e1 = state.add_edge_between(n1, n2).unwrap();
    assert_eq!(state.get_position(e1), Some(at(200, 150)));
}

#[test]
fn propagation_updates_midpoints_through_edge_chains() {
    let mut state = GraphState::new();
    let n1 = state.add_node_at(at(100, 100));
    let n2 = state.add_node_at(at(300, 100));
    let e1 = state.add_edge_between(n1, n2).unwrap();
    let e2 = state.add_edge_between(e1, n2).unwrap();

    // Moving n1 re-derives e1 as the midpoint of n1 and n2.
    state.move_node(n1, at(100, 300));
    assert_eq!(state.get_position(e1), Some(at(200, 200)));

    // The dependent edge e2 converges to the midpoint of e1 and n2
    // within one additional propagation pass.
    state.update_positions_recursive(n1);
    assert_eq!(state.get_position(e2), Some(at(250, 150)));
}

#[test]
fn midpoint_rounds_down() {
    let mut state = GraphState::new();
    let n1 = state.add_node_at(at(1, 1));
    let n2 = state.add_node_at(at(2, 4));
    let e1 = state.add_edge_between(n1, n2).unwrap();
    // (1 + 2) / 2 == 1 and (1 + 4) / 2 == 2 in fixed-point units.
    assert_eq!(state.get_position(e1), Some(at(1, 2)));
}

#[test]
fn cleanup_drops_positions_of_removed_elements() {
    let mut state = GraphState::new();
    let n1 = state.add_node_at(at(100, 100));
    let n2 = state.add_node_at(at(300, 100));
    let e1 = state.add_edge_between(n1, n2).unwrap();

    // Removing n1 cascades to e1 but its overlay entry lingers until the
    // lazy cleanup pass runs.
    state.remove_element(n1);
    assert!(state.get_position(n1).is_none());
    assert!(state.get_position(e1).is_some());

    state.cleanup_positions();
    assert!(state.get_position(e1).is_none());
    assert_eq!(state.get_position(n2), Some(at(300, 100)));
}

#[test]
fn find_element_near_position() {
    let mut state = GraphState::new();
    let n1 = state.add_node_at(at(1000, 1000));
    let _n2 = state.add_node_at(at(5000, 5000));

    // Within the radius of n1 only.
    assert_eq!(state.find_element_at(at(1003, 1004), 10), Some(n1));
    // Exactly at distance 5 with radius 5: strictly-within misses.
    assert_eq!(state.find_element_at(at(1003, 1004), 5), None);
    // Nowhere near anything.
    assert_eq!(state.find_element_at(at(9000, 9000), 10), None);
}

#[test]
fn camera_resets_to_home_view() {
    let mut state = GraphState::new();
    state.camera.offset_x = 17;
    state.camera.offset_y = 18;
    state.camera.zoom = 4 * ZOOM_UNIT;
    state.camera.reset();
    assert_eq!(state.camera.offset_x, COORD_ORIGIN);
    assert_eq!(state.camera.offset_y, COORD_ORIGIN);
    assert_eq!(state.camera.zoom, ZOOM_UNIT);
    assert_eq!(Camera::default(), state.camera);
}

#[test]
fn index_stays_consistent_with_arena() {
    // After an arbitrary mix of additions and removals, every live edge
    // appears in the outgoing index of its source and the incoming index
    // of its target, and the indexes name only live edges.
    let mut graph = Graph::new();
    let n1 = graph.add_node(NodeData::default());
    let n2 = graph.add_node(NodeData::default());
    let n3 = graph.add_node(NodeData::default());
    let e1 = graph.add_edge(n1, n2).unwrap();
    let _e2 = graph.add_edge(e1, n3).unwrap();
    let e3 = graph.add_edge(n2, n3).unwrap();
    graph.add_edge(e3, e1).unwrap();
    graph.remove_edge(e3);
    graph.remove_node(n3);
    graph.add_edge(n1, n2).unwrap();

    let edges = graph.edges_iter();
    for edge in &edges {
        assert!(graph.get_outgoing_edges(edge.source).contains(&edge.id));
        assert!(graph.get_incoming_edges(edge.target).contains(&edge.id));
    }
    let mut ids: Vec<u64> = graph.nodes_iter().iter().map(|n| n.id).collect();
    ids.extend(edges.iter().map(|e| e.id));
    for id in ids {
        for out in graph.get_outgoing_edges(id) {
            let edge = graph.get_edge(out).expect("index entry names a live edge");
            assert_eq!(edge.source, id);
        }
        for inc in graph.get_incoming_edges(id) {
            let edge = graph.get_edge(inc).expect("index entry names a live edge");
            assert_eq!(edge.target, id);
        }
    }
}

#[test]
fn moving_an_absent_identity_changes_nothing() {
    let mut state = GraphState::new();
    let n1 = state.add_node_at(at(100, 100));
    state.move_node(9999, at(5, 5));
    assert!(state.get_position(9999).is_none());
    assert_eq!(state.get_position(n1), Some(at(100, 100)));
}

#[test]
fn iterators_report_live_elements() {
    let mut graph = Graph::new();
    let n1 = graph.add_node(NodeData::default());
    let n2 = graph.add_node(NodeData::default());
    let n3 = graph.add_node(NodeData::default());
    let e1 = graph.add_edge(n1, n2).unwrap();
    let e2 = graph.add_edge(e1, n3).unwrap();

    let nodes = graph.nodes_iter();
    assert_eq!(nodes.len(), 3);
    assert!(nodes.iter().any(|n| n.id == n1));
    assert!(nodes.iter().any(|n| n.id == n2));
    assert!(nodes.iter().any(|n| n.id == n3));

    let edges = graph.edges_iter();
    assert_eq!(edges.len(), 2);
    assert!(edges.iter().any(|e| e.id == e1 && e.source == n1 && e.target == n2));
    assert!(edges.iter().any(|e| e.id == e2 && e.source == e1 && e.target == n3));

    graph.remove_node(n3);
    assert_eq!(graph.nodes_iter().len(), 2);
    assert_eq!(graph.edges_iter().len(), 1);
}
