use graph_search::graph::{create_example_graph, Graph};

#[test]
fn test_graph_bfs() {
    let g = create_example_graph();

    let bfs_result = g.bfs("A");
    assert_eq!(bfs_result, vec!["A", "B", "D", "C", "E"]);
}

#[test]
fn test_graph_dfs() {
    let g = create_example_graph();

    let dfs_result = g.dfs("A");
    assert_eq!(dfs_result, vec!["A", "D", "E", "B", "C"]);
}

#[test]
fn bfs_and_dfs_are_deterministic() {
    let g = create_example_graph();
    assert_eq!(g.bfs("A"), g.bfs("A"));
    assert_eq!(g.dfs("A"), g.dfs("A"));
    assert_eq!(g.bfs("C"), g.bfs("C"));
    assert_eq!(g.dfs("C"), g.dfs("C"));
}

#[test]
fn bfs_and_dfs_visit_the_same_vertices() {
    let g = create_example_graph();
    for start in ["A", "B", "C", "D", "E"] {
        let mut b = g.bfs(start);
        let mut d = g.dfs(start);
        b.sort();
        d.sort();
        assert_eq!(b, d);
    }
}

#[test]
fn isolated_start_yields_singleton() {
    let g: Graph<u64> = Graph::new();
    assert_eq!(g.bfs(7), vec![7]);
    assert_eq!(g.dfs(7), vec![7]);

    let mut h: Graph<u64> = Graph::new();
    h.push_edge(1, 2, ());
    assert_eq!(h.bfs(3), vec![3]);
    assert_eq!(h.dfs(3), vec![3]);
}

#[test]
fn registered_vertex_without_edges_is_singleton() {
    let mut g: Graph<u64> = Graph::new();
    g.push_vid(5);
    assert_eq!(g.bfs(5), vec![5]);
    assert_eq!(g.dfs(5), vec![5]);
}

#[test]
fn undirected_edge_is_symmetric() {
    let mut g: Graph<u64, &'static str> = Graph::new();
    g.push_undirected_edge(1, 2, "one - two");
    assert!(g.bfs(1).contains(&2));
    assert!(g.bfs(2).contains(&1));
    assert!(g.dfs(1).contains(&2));
    assert!(g.dfs(2).contains(&1));
}

#[test]
fn no_duplicates_with_parallel_edges_and_self_loops() {
    let mut g: Graph<u64> = Graph::new();
    g.push_edge(1, 1, ());
    g.push_edge(1, 2, ());
    g.push_edge(1, 2, ());
    g.push_edge(2, 1, ());
    assert_eq!(g.bfs(1), vec![1, 2]);
    assert_eq!(g.dfs(1), vec![1, 2]);
}

#[test]
fn unregistered_endpoints_are_traversable() {
    let mut g: Graph<u64> = Graph::new();
    g.push_edge(1, 2, ());
    assert_eq!(g.bfs(1), vec![1, 2]);
    assert_eq!(g.dfs(1), vec![1, 2]);
}

#[test]
fn bfs_follows_insertion_order_not_value_order() {
    let mut g: Graph<u64> = Graph::new();
    g.push_edge(5, 9, ());
    g.push_edge(5, 4, ());
    g.push_edge(5, 7, ());
    assert_eq!(g.bfs(5), vec![5, 9, 4, 7]);
}

#[test]
fn dfs_processes_last_listed_neighbour_first() {
    let mut g: Graph<u64> = Graph::new();
    g.push_edge(1, 2, ());
    g.push_edge(1, 3, ());
    assert_eq!(g.dfs(1), vec![1, 3, 2]);
    assert_eq!(g.bfs(1), vec![1, 2, 3]);
}

#[test]
fn traversals_terminate_on_cycles() {
    let mut g: Graph<u64> = Graph::new();
    g.push_edge(1, 2, ());
    g.push_edge(2, 3, ());
    g.push_edge(3, 1, ());
    assert_eq!(g.bfs(1), vec![1, 2, 3]);
    assert_eq!(g.dfs(1), vec![1, 2, 3]);
}

#[test]
fn unreachable_vertices_are_not_visited() {
    let mut g: Graph<u64> = Graph::new();
    g.push_edge(1, 2, ());
    g.push_edge(3, 4, ());
    assert_eq!(g.bfs(1), vec![1, 2]);
    assert_eq!(g.dfs(1), vec![1, 2]);
}

#[test]
fn char_identifiers_traverse() {
    let mut g: Graph<char, u64> = Graph::new();
    g.push_undirected_edge('a', 'b', 1);
    g.push_edge('b', 'c', 2);
    assert_eq!(g.bfs('a'), vec!['a', 'b', 'c']);
    assert_eq!(g.dfs('c'), vec!['c']);
}

#[test]
fn payloads_do_not_affect_traversal() {
    let mut g: Graph<u64, (), u64> = Graph::new();
    g.push_vertex(1, 10);
    g.push_vertex(1, 20);
    g.push_vertex(2, 30);
    g.push_edge(1, 2, ());
    assert_eq!(g.bfs(1), vec![1, 2]);
}
