use edgegraph::codec::DecodeError;
use edgegraph::graph::Graph;
use edgegraph::state::Coord;
use edgegraph::state::GraphState;

fn at(x: u64, y: u64) -> Coord {
    Coord { x, y }
}

#[test]
fn snapshot_round_trip_preserves_identities_and_overlay() {
    let mut state = GraphState::new();
    let n1 = state.add_node_at(at(100, 100));
    let n2 = state.add_node_at(at(300, 200));
    // One node-to-node edge and one edge-to-edge edge.
    let e1 = state.add_edge_between(n1, n2).unwrap();
    let e2 = state.add_edge_between(e1, n2).unwrap();
    state.camera.offset_x = 42;
    state.camera.zoom = 2048;

    let blob = state.to_binary();
    let restored = GraphState::from_binary(&blob).unwrap();

    // Identities and endpoints survive unchanged.
    let r1 = restored.graph.get_edge(e1).unwrap();
    assert_eq!(r1.source, n1);
    assert_eq!(r1.target, n2);
    let r2 = restored.graph.get_edge(e2).unwrap();
    assert_eq!(r2.source, e1);
    assert_eq!(r2.target, n2);
    assert!(restored.graph.get_node(n1).is_some());
    assert!(restored.graph.get_node(n2).is_some());
    assert_eq!(restored.graph.element_count(), state.graph.element_count());

    // The overlay is identical, entry for entry.
    assert_eq!(restored.get_position(n1), state.get_position(n1));
    assert_eq!(restored.get_position(n2), state.get_position(n2));
    assert_eq!(restored.get_position(e1), state.get_position(e1));
    assert_eq!(restored.get_position(e2), state.get_position(e2));
    assert_eq!(restored.positions_list(), state.positions_list());

    // View parameters ride along.
    assert_eq!(restored.camera, state.camera);
}

#[test]
fn identities_stay_fresh_after_reload() {
    // Elements added after a reload must not collide with identities
    // already present in the snapshot.
    let mut state = GraphState::new();
    let n1 = state.add_node_at(at(1, 1));
    let n2 = state.add_node_at(at(2, 2));

    let blob = state.to_binary();
    let mut restored = GraphState::from_binary(&blob).unwrap();
    let n3 = restored.add_node_at(at(3, 3));
    assert_ne!(n3, n1);
    assert_ne!(n3, n2);
}

#[test]
fn truncated_snapshot_fails_cleanly() {
    let mut state = GraphState::new();
    let n1 = state.add_node_at(at(100, 100));
    let n2 = state.add_node_at(at(300, 200));
    state.add_edge_between(n1, n2).unwrap();

    let blob = state.to_binary();
    for cut in [0, 1, 3, 4, 12, blob.len() - 1] {
        assert_eq!(GraphState::from_binary(&blob[..cut]).err(), Some(DecodeError));
    }
}

#[test]
fn corrupt_magic_fails_cleanly() {
    let state = GraphState::new();
    let mut blob = state.to_binary();
    blob[0] ^= 0xff;
    assert!(GraphState::from_binary(&blob).is_err());
}

#[test]
fn trailing_bytes_fail_cleanly() {
    let state = GraphState::new();
    let mut blob = state.to_binary();
    blob.push(0);
    assert!(GraphState::from_binary(&blob).is_err());
}

#[test]
fn garbage_fails_cleanly() {
    let junk: Vec<u8> = (0..64).map(|i| (i * 37) as u8).collect();
    assert!(GraphState::from_binary(&junk).is_err());
    assert!(Graph::from_binary(&junk).is_err());
}

#[test]
fn graph_blob_rejects_snapshot_blob() {
    // The two blob layouts carry distinct leading bytes; feeding one to
    // the other decoder fails rather than misreading it.
    let state = GraphState::new();
    let snapshot = state.to_binary();
    assert!(Graph::from_binary(&snapshot).is_err());
    let graph_blob = state.graph.to_binary();
    assert!(GraphState::from_binary(&graph_blob).is_err());
}

#[test]
fn dangling_endpoint_in_blob_is_rejected() {
    // Hand-craft a graph blob whose single element is an edge referring
    // to absent endpoints; validation must refuse it.
    let mut blob: Vec<u8> = vec![0x45, 0x47, 0x47, 0x31];
    blob.extend_from_slice(&10u64.to_le_bytes()); // allocation counter
    blob.extend_from_slice(&1u64.to_le_bytes()); // one element
    blob.extend_from_slice(&1u64.to_le_bytes()); // its identity
    blob.push(1); // an edge ...
    blob.extend_from_slice(&7u64.to_le_bytes()); // ... from an absent source
    blob.extend_from_slice(&8u64.to_le_bytes()); // ... to an absent target
    assert!(Graph::from_binary(&blob).is_err());
}

#[test]
fn duplicate_identity_in_blob_is_rejected() {
    let mut blob: Vec<u8> = vec![0x45, 0x47, 0x47, 0x31];
    blob.extend_from_slice(&10u64.to_le_bytes());
    blob.extend_from_slice(&2u64.to_le_bytes());
    blob.extend_from_slice(&1u64.to_le_bytes());
    blob.push(0);
    blob.extend_from_slice(&1u64.to_le_bytes()); // the same identity twice
    blob.push(0);
    assert!(Graph::from_binary(&blob).is_err());
}

#[test]
fn well_formed_graph_blob_is_accepted() {
    // A hand-written blob in the documented layout: two nodes and one
    // edge between them.
    let mut blob: Vec<u8> = vec![0x45, 0x47, 0x47, 0x31];
    blob.extend_from_slice(&4u64.to_le_bytes());
    blob.extend_from_slice(&3u64.to_le_bytes());
    blob.extend_from_slice(&1u64.to_le_bytes());
    blob.push(0);
    blob.extend_from_slice(&2u64.to_le_bytes());
    blob.push(0);
    blob.extend_from_slice(&3u64.to_le_bytes());
    blob.push(1);
    blob.extend_from_slice(&1u64.to_le_bytes());
    blob.extend_from_slice(&2u64.to_le_bytes());
    let graph = Graph::from_binary(&blob).unwrap();
    assert!(graph.get_node(1).is_some());
    assert!(graph.get_node(2).is_some());
    let edge = graph.get_edge(3).unwrap();
    assert_eq!(edge.source, 1);
    assert_eq!(edge.target, 2);
}
