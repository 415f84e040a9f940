use ctci::graph::Graph;
use ctci::graphtraits::{EdgeTriplet, GraphCrud, GraphDisplay};

#[test]
fn test_node_crud() {
    let mut g: Graph<i32> = Graph::new();
    let a = g.new_node(10);
    let b = g.new_node(20);
    assert_eq!(a, 1);
    assert_eq!(b, 2);
    assert_eq!(g.get_node_val(a), Some(&10));
    assert_eq!(g.get_node_val(b), Some(&20));
    assert_eq!(g.get_node_val(99), None);
    g.set_node_val(a, 11);
    assert_eq!(g.get_node_val(a), Some(&11));
    g.set_node_val(99, 5); // absent id: a no-op, not an error
    assert_eq!(g.get_node_val(99), None);
    assert!(g.del_node(a));
    assert!(!g.del_node(a));
    assert_eq!(g.get_node_val(a), None);
}

#[test]
fn test_upsert_overwrites() {
    let mut g: Graph<i32> = Graph::new();
    let id = g.set_node(7, 42);
    assert_eq!(id, 42);
    assert_eq!(g.get_node_val(42), Some(&7));
    let id2 = g.set_node(8, 42);
    assert_eq!(id2, 42);
    assert_eq!(g.get_node_val(42), Some(&8));
    // auto-assigned identifiers never collide with the adopted one
    let fresh = g.new_node(9);
    assert!(fresh != 42);
    assert_eq!(g.get_node_val(42), Some(&8));
}

#[test]
fn test_edge_crud() {
    let mut g: Graph<i32> = Graph::new();
    let e1 = g.new_edge(1, 2, 5);
    let e2 = g.new_edge(2, 3, 7);
    assert_eq!(e1, 1);
    assert_eq!(e2, 2);
    assert_eq!(g.get_edge(e1), Some(EdgeTriplet(1, 2, 5)));
    g.set_edge(e1, EdgeTriplet(1, 3, 9));
    assert_eq!(g.get_edge(e1), Some(EdgeTriplet(1, 3, 9)));
    g.set_edge(99, EdgeTriplet(0, 0, 0)); // absent id: a no-op
    assert_eq!(g.get_edge(99), None);
    assert!(g.del_edge(e1));
    assert!(!g.del_edge(e1));
    assert_eq!(g.get_edge(e1), None);
    assert_eq!(g.get_edge(e2), Some(EdgeTriplet(2, 3, 7)));
}

#[test]
fn test_delete_cascades_to_incident_edges() {
    let mut g: Graph<i32> = Graph::new();
    let a = g.new_node(1);
    let b = g.new_node(2);
    let c = g.new_node(3);
    let e_ab = g.new_edge(a, b, 1);
    let e_bc = g.new_edge(b, c, 1);
    let e_ca = g.new_edge(c, a, 1);
    assert!(g.del_node(b));
    // every edge whose source or destination was b is gone
    assert_eq!(g.get_edge(e_ab), None);
    assert_eq!(g.get_edge(e_bc), None);
    assert_eq!(g.get_edge(e_ca), Some(EdgeTriplet(c, a, 1)));
}

#[test]
fn test_find_edges_from_and_to() {
    let mut g: Graph<i32> = Graph::new();
    let a = g.new_node(1);
    let b = g.new_node(2);
    let e1 = g.new_edge(a, b, 1);
    let e2 = g.new_edge(a, a, 1);
    let e3 = g.new_edge(b, a, 1);
    // None exactly when the node id is not live
    assert_eq!(g.find_edges_from(99), None);
    assert_eq!(g.find_edges_to(99), None);
    let from_a = g.find_edges_from(a).unwrap();
    assert_eq!(from_a, vec![e1, e2]);
    let to_a = g.find_edges_to(a).unwrap();
    assert_eq!(to_a, vec![e2, e3]);
    // a live node with no outgoing edges yields an empty list, not None
    let c = g.new_node(3);
    assert_eq!(g.find_edges_from(c), Some(Vec::new()));
}

#[test]
fn test_node_and_edge_to_string() {
    let mut g: Graph<i32> = Graph::new();
    let a = g.new_node(-7);
    let e = g.new_edge(a, a, 3);
    assert_eq!(
        g.node_to_string(a).unwrap(),
        "{ \"nodeid\": 1, \"value\": -7 }"
    );
    assert_eq!(
        g.edge_to_string(e).unwrap(),
        "{ \"edge_id\": 1, \"from\": \"1\", \"to\": \"1\", \"weight\": 3 }"
    );
    assert!(g.node_to_string(99).is_none());
    assert!(g.edge_to_string(99).is_none());
}

#[test]
fn test_path_to_string() {
    let mut g: Graph<i32> = Graph::new();
    let a = g.new_node(1);
    let b = g.new_node(2);
    let p = vec![a, b];
    let s = g.path_to_string(&p).unwrap();
    assert_eq!(
        s,
        "{ \"nodeid\": 1, \"value\": 1 }{ \"nodeid\": 2, \"value\": 2 }"
    );
    let bad = vec![a, 99];
    assert!(g.path_to_string(&bad).is_none());
    let whole = g.to_string();
    assert!(whole.len() > 0);
}
