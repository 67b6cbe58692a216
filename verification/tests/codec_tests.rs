use mapgraph::decode;
use mapgraph::encode;
use mapgraph::DecodeError;
use mapgraph::Edge;
use mapgraph::Graph;
use mapgraph::Record;

fn record(id: &str, element: &str, edges: Vec<(&str, &str)>) -> Record {
    Record {
        id: id.to_string(),
        element: element.to_string(),
        edges: edges
            .into_iter()
            .map(|(label, dest)| Edge { label: label.to_string(), dest: dest.to_string() })
            .collect(),
    }
}

#[test]
fn encode_lists_nodes_in_creation_order() {
    let mut g = Graph::new("Room A".to_string());
    let id_b = g.insert_edge_to_new_node("north".to_string(), "Room B".to_string());
    let records = encode(&g);
    assert_eq!(records.len(), 2);
    assert_eq!(&records[0].id, g.root_id());
    assert_eq!(records[0].element, "Room A");
    assert_eq!(records[0].edges.len(), 1);
    assert_eq!(records[0].edges[0].label, "north");
    assert_eq!(records[0].edges[0].dest, id_b);
    assert_eq!(records[1].id, id_b);
    assert_eq!(records[1].element, "Room B");
    assert!(records[1].edges.is_empty());
}

#[test]
fn decode_of_encode_rebuilds_the_graph_at_its_root() {
    let mut g = Graph::new("Room A".to_string());
    let id_b = g.insert_edge_to_new_node("north".to_string(), "Room B".to_string());
    let id_c = g.insert_edge_to_new_node("east".to_string(), "Room C".to_string());
    g.traverse("north".to_string()).unwrap();
    assert_ne!(g.current_id(), g.root_id());

    let records = encode(&g);
    let g2 = decode(records).unwrap();

    assert_eq!(g2.root_id(), g.root_id());
    assert_eq!(g2.current_id(), g2.root_id());
    let ids: Vec<String> = g2.nodes().iter().map(|n| n.id().clone()).collect();
    let originals: Vec<String> = g.nodes().iter().map(|n| n.id().clone()).collect();
    assert_eq!(ids, originals);
    let elements: Vec<String> = g2.nodes().iter().map(|n| n.element().clone()).collect();
    assert_eq!(
        elements,
        vec!["Room A".to_string(), "Room B".to_string(), "Room C".to_string()]
    );
    let mut g2 = g2;
    let n = g2.traverse("east".to_string()).unwrap();
    assert_eq!(n.id(), &id_c);
    g2.reset();
    let n = g2.traverse("north".to_string()).unwrap();
    assert_eq!(n.id(), &id_b);
}

#[test]
fn two_room_scenario_survives_a_round_trip() {
    let mut g = Graph::new("Room A".to_string());
    let id2 = g.insert_edge_to_new_node("north".to_string(), "Room B".to_string());
    let n = g.traverse("north".to_string()).unwrap();
    assert_eq!(n.element(), "Room B");
    assert_eq!(n.id(), &id2);
    g.reset();
    assert_eq!(g.current_node().element(), "Room A");

    let mut g2 = decode(encode(&g)).unwrap();
    assert_eq!(g2.nodes().len(), 2);
    assert_eq!(g2.current_id(), g2.root_id());
    assert_eq!(g2.current_node().element(), "Room A");
    let n = g2.traverse("north".to_string()).unwrap();
    assert_eq!(n.element(), "Room B");
}

#[test]
fn decode_empty_list_fails() {
    let r = decode(Vec::new());
    assert_eq!(r.err(), Some(DecodeError::Empty));
}

#[test]
fn decode_duplicate_id_fails() {
    let records = vec![
        record("a", "Room A", vec![]),
        record("b", "Room B", vec![]),
        record("a", "Room C", vec![]),
    ];
    let r = decode(records);
    assert_eq!(r.err(), Some(DecodeError::DuplicateId));
}

#[test]
fn decode_dangling_edge_fails() {
    let records = vec![
        record("a", "Room A", vec![("north", "b"), ("east", "ghost-town")]),
        record("b", "Room B", vec![]),
    ];
    let r = decode(records);
    assert_eq!(r.err(), Some(DecodeError::DanglingEdge));
}

#[test]
fn decode_hand_written_records_builds_a_navigable_graph() {
    let records = vec![
        record("a", "Room A", vec![("north", "b")]),
        record("b", "Room B", vec![("south", "a")]),
    ];
    let mut g = decode(records).unwrap();
    assert_eq!(g.root_id(), "a");
    assert_eq!(g.current_node().element(), "Room A");
    let n = g.traverse("north".to_string()).unwrap();
    assert_eq!(n.id(), "b");
    let n = g.traverse("south".to_string()).unwrap();
    assert_eq!(n.id(), "a");
}

#[test]
fn decode_repeated_label_keeps_the_last_destination() {
    let records = vec![
        record("a", "Room A", vec![("door", "b"), ("door", "c")]),
        record("b", "Room B", vec![]),
        record("c", "Room C", vec![]),
    ];
    let mut g = decode(records).unwrap();
    let labels = g.current_node().edge_elements();
    assert_eq!(labels, vec!["door".to_string()]);
    let n = g.traverse("door".to_string()).unwrap();
    assert_eq!(n.id(), "c");
}
