use mapgraph::GraphError;
use mapgraph::Graph;

#[test]
fn new_graph_starts_at_root() {
    let g = Graph::new("Room A".to_string());
    assert_eq!(g.root_id(), g.current_id());
    assert_eq!(g.current_node().element(), "Room A");
    assert!(g.current_node().edge_elements().is_empty());
}

#[test]
fn generated_ids_are_uuid_sized() {
    let g = Graph::new("Room A".to_string());
    assert_eq!(g.root_id().chars().count(), 36);
}

#[test]
fn traverse_absent_label_fails_and_keeps_cursor() {
    let mut g = Graph::new("Room A".to_string());
    g.insert_edge_to_new_node("north".to_string(), "Room B".to_string());
    let before = g.current_id().clone();
    let r = g.traverse("south".to_string());
    assert_eq!(r.err(), Some(GraphError::NoSuchEdge));
    assert_eq!(g.current_id(), &before);
    assert_eq!(g.current_node().element(), "Room A");
}

#[test]
fn reset_is_idempotent() {
    let mut g = Graph::new("Room A".to_string());
    let id2 = g.insert_edge_to_new_node("north".to_string(), "Room B".to_string());
    g.traverse("north".to_string()).unwrap();
    assert_eq!(g.current_id(), &id2);
    g.reset();
    assert_eq!(g.current_id(), g.root_id());
    let after_once = g.current_id().clone();
    g.reset();
    assert_eq!(g.current_id(), &after_once);
    assert_eq!(g.current_node().element(), "Room A");
}

#[test]
fn new_node_is_reachable_by_its_label() {
    let mut g = Graph::new("Room A".to_string());
    let id2 = g.insert_edge_to_new_node("north".to_string(), "Room B".to_string());
    assert_eq!(g.current_node().element(), "Room A");
    let n = g.traverse("north".to_string()).unwrap();
    assert_eq!(n.id(), &id2);
    assert_eq!(n.element(), "Room B");
    assert_eq!(g.current_id(), &id2);
}

#[test]
fn same_label_twice_keeps_only_the_second_target() {
    let mut g = Graph::new("Room A".to_string());
    let id_a = g.insert_edge_to_new_node("door".to_string(), "Room B".to_string());
    let id_b = g.insert_edge_to_new_node("door".to_string(), "Room C".to_string());
    assert_ne!(id_a, id_b);
    let labels = g.current_node().edge_elements();
    assert_eq!(labels, vec!["door".to_string()]);
    let n = g.traverse("door".to_string()).unwrap();
    assert_eq!(n.id(), &id_b);
    assert_eq!(n.element(), "Room C");
}

#[test]
fn same_label_twice_to_existing_nodes_keeps_only_the_second_target() {
    let mut g = Graph::new("Room A".to_string());
    let id_a = g.insert_edge_to_new_node("a".to_string(), "Room B".to_string());
    let id_b = g.insert_edge_to_new_node("b".to_string(), "Room C".to_string());
    g.insert_edge_to_existing_node("door".to_string(), id_a.clone()).unwrap();
    g.insert_edge_to_existing_node("door".to_string(), id_b.clone()).unwrap();
    let labels = g.current_node().edge_elements();
    assert_eq!(labels.iter().filter(|l| l.as_str() == "door").count(), 1);
    assert_eq!(
        g.current_node().node_for_edge_element(&"door".to_string()),
        Some(id_b.clone())
    );
}

#[test]
fn edge_to_unknown_id_is_rejected() {
    let mut g = Graph::new("Room A".to_string());
    let r = g.insert_edge_to_existing_node("door".to_string(), "no-such-id".to_string());
    assert_eq!(r.err(), Some(GraphError::NodeNotFound));
    assert!(g.current_node().edge_elements().is_empty());
}

#[test]
fn edge_to_existing_node_builds_a_way_back() {
    let mut g = Graph::new("Room A".to_string());
    let root = g.root_id().clone();
    g.insert_edge_to_new_node("north".to_string(), "Room B".to_string());
    g.traverse("north".to_string()).unwrap();
    g.insert_edge_to_existing_node("south".to_string(), root.clone()).unwrap();
    let n = g.traverse("south".to_string()).unwrap();
    assert_eq!(n.id(), &root);
    assert_eq!(g.current_node().element(), "Room A");
}

#[test]
fn nodes_enumerate_in_creation_order() {
    let mut g = Graph::new("Room A".to_string());
    let id_b = g.insert_edge_to_new_node("north".to_string(), "Room B".to_string());
    let id_c = g.insert_edge_to_new_node("east".to_string(), "Room C".to_string());
    let elements: Vec<String> = g.nodes().iter().map(|n| n.element().clone()).collect();
    assert_eq!(
        elements,
        vec!["Room A".to_string(), "Room B".to_string(), "Room C".to_string()]
    );
    let ids: Vec<String> = g.nodes().iter().map(|n| n.id().clone()).collect();
    assert_eq!(ids[0], g.root_id().clone());
    assert_eq!(ids[1], id_b);
    assert_eq!(ids[2], id_c);
}

#[test]
fn update_current_element_changes_only_the_cursor_node() {
    let mut g = Graph::new("Room A".to_string());
    let id_b = g.insert_edge_to_new_node("north".to_string(), "Room B".to_string());
    g.update_current_element("Entrance Hall".to_string());
    assert_eq!(g.current_node().element(), "Entrance Hall");
    let n = g.traverse("north".to_string()).unwrap();
    assert_eq!(n.id(), &id_b);
    assert_eq!(g.current_node().element(), "Room B");
    g.reset();
    assert_eq!(g.current_node().element(), "Entrance Hall");
}

#[test]
fn has_node_tracks_the_store() {
    let mut g = Graph::new("Room A".to_string());
    let root = g.root_id().clone();
    assert!(g.has_node(&root));
    assert!(!g.has_node(&"absent".to_string()));
    let id_b = g.insert_edge_to_new_node("north".to_string(), "Room B".to_string());
    assert!(g.has_node(&id_b));
}
