use ctci::adjgraph;
use ctci::graph::Graph;
use ctci::graphtraits::{GraphAlgo, GraphCrud};
use ctci::idgraph;

#[test]
fn test_path_exists_self_loop_free() {
    // path_exists(a, a) holds on every graph, even for unknown ids
    let g: Graph<i32> = Graph::new();
    assert!(g.path_exists(7, 7));
    let mut g2: Graph<i32> = Graph::new();
    let a = g2.new_node(1);
    assert!(g2.path_exists(a, a));
}

#[test]
fn test_no_edges_no_path() {
    // with no edges, distinct nodes are unreachable from one another
    let mut g: Graph<i32> = Graph::new();
    let a = g.new_node(1);
    let b = g.new_node(2);
    assert!(!g.path_exists(a, b));
    assert!(!g.path_exists(b, a));
}

#[test]
fn test_six_node_scenario() {
    // edges 1->2, 2->3, 3->4, 3->5, 4->6, 3->1, 1->5, 2->5, 5->2, 6->4
    let mut g: Graph<i32> = Graph::new();
    for v in 1..=6 {
        g.new_node(v);
    }
    let edges = [
        (1, 2),
        (2, 3),
        (3, 4),
        (3, 5),
        (4, 6),
        (3, 1),
        (1, 5),
        (2, 5),
        (5, 2),
        (6, 4),
    ];
    for (f, t) in edges {
        g.new_edge(f, t, 1);
    }
    // reachable via 1 -> 2 -> 3 -> 4 -> 6
    assert!(g.path_exists(1, 6));
    // no directed path back
    assert!(!g.path_exists(6, 1));
    let p = g.shortest_path(1, 6).unwrap();
    assert_eq!(p.first(), Some(&1));
    assert_eq!(p.last(), Some(&6));
    assert!(g.shortest_path(6, 1).is_none());
}

#[test]
fn test_all_paths_two_parallel_routes() {
    // two parallel simple routes from a to b
    let mut g: Graph<i32> = Graph::new();
    let a = g.new_node(0);
    let m1 = g.new_node(1);
    let m2 = g.new_node(2);
    let b = g.new_node(3);
    g.new_edge(a, m1, 1);
    g.new_edge(m1, b, 1);
    g.new_edge(a, m2, 1);
    g.new_edge(m2, b, 1);
    let paths = g.all_paths(a, b).unwrap();
    assert_eq!(paths.len(), 2);
    for p in &paths {
        // no repeated node inside one path
        for i in 0..p.len() {
            for j in (i + 1)..p.len() {
                assert!(p[i] != p[j]);
            }
        }
        assert_eq!(p.first(), Some(&a));
        assert_eq!(p.last(), Some(&b));
    }
    // no path at all yields None
    let lone = g.new_node(9);
    assert!(g.all_paths(lone, a).is_none());
    // the trivial path from a node to itself
    let self_paths = g.all_paths(a, a).unwrap();
    assert_eq!(self_paths, vec![vec![a]]);
}

#[test]
fn test_all_paths_cycle() {
    // a cycle must not trap the enumeration
    let mut g: Graph<i32> = Graph::new();
    let a = g.new_node(0);
    let b = g.new_node(1);
    let c = g.new_node(2);
    g.new_edge(a, b, 1);
    g.new_edge(b, a, 1);
    g.new_edge(b, c, 1);
    let paths = g.all_paths(a, c).unwrap();
    assert_eq!(paths, vec![vec![a, b, c]]);
}

#[test]
fn test_adjgraph_scenario() {
    let mut g = adjgraph::new_graph();
    let n1 = adjgraph::new_node(&mut g, 1);
    let n2 = adjgraph::new_node(&mut g, 2);
    let n3 = adjgraph::new_node(&mut g, 3);
    let n4 = adjgraph::new_node(&mut g, 4);
    let n5 = adjgraph::new_node(&mut g, 5);
    let n6 = adjgraph::new_node(&mut g, 6);
    adjgraph::add_edge(&mut g, n1, n2, 1);
    adjgraph::add_edge(&mut g, n2, n3, 2);
    adjgraph::add_edge(&mut g, n3, n4, 3);
    adjgraph::add_edge(&mut g, n3, n5, 4);
    adjgraph::add_edge(&mut g, n4, n6, 5);
    adjgraph::add_edge(&mut g, n3, n1, 6);
    adjgraph::add_edge(&mut g, n1, n5, 7);
    adjgraph::add_edge(&mut g, n2, n5, 8);
    adjgraph::add_edge(&mut g, n5, n2, 9);
    adjgraph::add_edge(&mut g, n6, n4, 10);
    assert!(adjgraph::find_path(&g, n1, n6));
    assert!(!adjgraph::find_path(&g, n6, n1));
    assert_eq!(adjgraph::node_value(&g, n3), 3);
    assert_eq!(adjgraph::node_edge_list(&g, n6), vec![(10, n4)]);
}

#[test]
fn test_idgraph_paths() {
    let mut g = idgraph::new_graph();
    let a = idgraph::new_node(&mut g, 10);
    let b = idgraph::new_node(&mut g, 20);
    let c = idgraph::new_node(&mut g, 30);
    idgraph::add_edge(&mut g, a, b);
    idgraph::add_edge(&mut g, b, c);
    assert!(idgraph::find_path(&g, a, c));
    assert!(!idgraph::find_path(&g, c, a));
    assert!(idgraph::find_path(&g, b, b));
    assert_eq!(idgraph::get_value(&g, b), 20);
    assert_eq!(idgraph::get_neighbors(&g, a), vec![20]);
}

#[test]
fn test_search_helper_guards() {
    // trivial success leaves the buffers untouched, even with the id
    // already in the visited set; the cycle guard answers false untouched;
    // a dangling start id is treated as "no such node"
    let mut g = idgraph::new_graph();
    let a = idgraph::new_node(&mut g, 1);
    let b = idgraph::new_node(&mut g, 2);
    idgraph::add_edge(&mut g, a, b);
    let mut visited: Vec<usize> = vec![a];
    let mut path: Vec<usize> = Vec::new();
    assert!(idgraph::find_directed_path(&g, a, a, &mut visited, &mut path));
    assert_eq!(visited, vec![a]);
    assert_eq!(path, Vec::<usize>::new());
    assert!(!idgraph::find_directed_path(&g, a, b, &mut visited, &mut path));
    assert_eq!(visited, vec![a]);
    assert_eq!(path, Vec::<usize>::new());
    let mut fresh: Vec<usize> = Vec::new();
    assert!(!idgraph::find_directed_path(&g, 99, b, &mut fresh, &mut path));
    assert_eq!(fresh, Vec::<usize>::new());
    assert!(!idgraph::find_path(&g, 99, b));
    assert!(idgraph::find_path(&g, 99, 99));
}

#[test]
fn test_search_avoids_visited_set() {
    // a pre-filled visited set blocks the only route through it
    let mut g = adjgraph::new_graph();
    let a = adjgraph::new_node(&mut g, 1);
    let m = adjgraph::new_node(&mut g, 2);
    let b = adjgraph::new_node(&mut g, 3);
    adjgraph::add_edge(&mut g, a, m, 1);
    adjgraph::add_edge(&mut g, m, b, 1);
    let mut visited: Vec<usize> = vec![m];
    let mut path: Vec<usize> = Vec::new();
    assert!(!adjgraph::find_recursive_path(&g, a, b, &mut visited, &mut path));
    assert_eq!(path, Vec::<usize>::new());
    // only the nodes before the target must avoid the set: the target
    // itself may stand in it
    let mut visited2: Vec<usize> = vec![b];
    let mut path2: Vec<usize> = Vec::new();
    assert!(adjgraph::find_recursive_path(&g, a, b, &mut visited2, &mut path2));
    assert_eq!(path2, vec![a, m]);
    // trivial success and cycle guard leave the buffers untouched
    let mut visited3: Vec<usize> = vec![a];
    let mut path3: Vec<usize> = Vec::new();
    assert!(adjgraph::find_recursive_path(&g, a, a, &mut visited3, &mut path3));
    assert_eq!(visited3, vec![a]);
    assert!(!adjgraph::find_recursive_path(&g, a, b, &mut visited3, &mut path3));
    assert_eq!(visited3, vec![a]);
    assert_eq!(path3, Vec::<usize>::new());
}
