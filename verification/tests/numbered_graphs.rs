use cs260::domtree;
use cs260::graph::Graph;
use std::collections::HashSet;

fn loop_graph() -> Graph {
    let mut graph = Graph::new();
    graph.add_edge(0, 1);
    graph.add_edge(1, 2);
    graph.add_edge(2, 4);
    graph.add_edge(4, 1);
    graph.add_edge(1, 3);
    graph.add_edge(3, 5);
    graph.add_edge(5, 6);
    graph.add_edge(6, 8);
    graph.add_edge(8, 5);
    graph.add_edge(5, 7);
    graph
}

#[test]
fn graph_add_edge_groups_targets_by_source() {
    let graph = loop_graph();
    assert_eq!(graph.edges[0], (0, vec![1]));
    assert_eq!(graph.edges[1], (1, vec![2, 3]));
    assert_eq!(graph.edges.len(), 8);
}

#[test]
fn graph_loop_headers_are_cycle_entries() {
    let graph = loop_graph();
    let headers: HashSet<usize> = graph.find_loop_headers(0).into_iter().collect();
    assert_eq!(headers, HashSet::from_iter(vec![1, 5]));
    for h in &headers {
        assert!(graph.is_path(*h, *h));
        assert!(graph.edges.iter().any(|(from, tos)| tos.contains(h) && graph.is_edge_in_cycle(*from, *h)));
    }
}

#[test]
fn graph_loop_headers_from_a_start_inside_a_loop() {
    let mut graph = Graph::new();
    graph.add_edge(0, 1);
    graph.add_edge(1, 2);
    graph.add_edge(2, 1);
    graph.add_edge(1, 3);
    graph.add_edge(3, 4);
    graph.add_edge(4, 5);
    graph.add_edge(5, 4);
    graph.add_edge(4, 6);
    let headers: HashSet<usize> = graph.find_loop_headers(0).into_iter().collect();
    assert_eq!(headers, HashSet::from_iter(vec![1, 4]));
}

#[test]
fn graph_paths_and_cycles() {
    let graph = loop_graph();
    assert!(graph.is_path(0, 7));
    assert!(!graph.is_path(7, 0));
    assert!(graph.is_path(3, 3));
    assert!(graph.is_edge_in_cycle(2, 4));
    assert!(graph.is_edge_in_cycle(8, 5));
    assert!(!graph.is_edge_in_cycle(0, 1));
    assert!(!graph.is_edge_in_cycle(5, 7));
}

#[test]
fn graph_dominators_of_each_source() {
    let mut graph = Graph::new();
    graph.add_edge(0, 1);
    graph.add_edge(1, 2);
    graph.add_edge(1, 3);
    graph.add_edge(2, 4);
    graph.add_edge(3, 4);
    assert_eq!(graph.get_dominators(1), vec![1]);
    let all = graph.get_all_dominators();
    assert_eq!(all, vec![(0, vec![0]), (1, vec![1]), (2, vec![2]), (3, vec![3])]);
}

#[test]
fn graph_graphml_text() {
    let mut graph = Graph::new();
    graph.add_edge(0, 1);
    graph.add_edge(0, 12);
    let text = graph.to_graphml_text();
    assert!(text.starts_with("<?xml version=\"1.0\" encoding=\"UTF-8\"?>\n<graphml "));
    assert!(text.ends_with(
        "<graph id=\"G\" edgedefault=\"directed\">\n<edge source=\"0\" target=\"1\"/>\n<edge source=\"0\" target=\"12\"/>\n</graph>\n</graphml>\n"
    ));
}

#[test]
fn dominator_tree_of_a_diamond() {
    let mut cfg = domtree::ControlFlowGraph::new();
    cfg.add_node(1, vec![2]);
    cfg.add_node(2, vec![3, 4]);
    cfg.add_node(3, vec![5]);
    cfg.add_node(4, vec![5]);
    let tree = cfg.compute_dominator_tree(1);
    assert_eq!(tree, vec![(1, 1), (2, 1), (3, 2), (5, 3), (4, 2)]);
}

#[test]
fn dominator_tree_add_node_replaces() {
    let mut cfg = domtree::ControlFlowGraph::new();
    cfg.add_node(1, vec![2]);
    cfg.add_node(1, vec![3]);
    assert_eq!(cfg.nodes.len(), 1);
    assert_eq!(cfg.nodes[0].1.successors, vec![3]);
    let mut dominators = vec![(7, 7)];
    let mut visited = Vec::new();
    cfg.dfs(1, &mut dominators, &mut visited);
    assert_eq!(dominators, vec![(7, 7), (3, 1)]);
    assert_eq!(visited, vec![1, 3]);
}
