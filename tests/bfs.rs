use algo_structures::bfs::bfs;
use algo_structures::bfs::fill_list_graph;
use std::collections::HashMap;

#[test]
fn test_sin_iniciar() {
    let graph: HashMap<usize, Vec<usize>> = HashMap::new();
    assert_eq!(bfs(&graph), vec![0]);
}

#[test]
fn test_con_fill() {
    let graph = fill_list_graph();
    assert_eq!(bfs(&graph), vec![0, 1, 2, 3, 4]);
}

#[test]
fn bfs_skips_unreachable_and_visits_leaves() {
    let mut graph: HashMap<usize, Vec<usize>> = HashMap::new();
    graph.insert(0, vec![5, 5, 2]);
    graph.insert(2, vec![0, 9]);
    graph.insert(7, vec![0]);
    assert_eq!(bfs(&graph), vec![0, 5, 2, 9]);
}

#[test]
fn fill_list_graph_edges() {
    let graph = fill_list_graph();
    assert_eq!(graph.len(), 5);
    assert_eq!(graph[&0], vec![1, 2]);
    assert_eq!(graph[&3], vec![2, 4]);
    assert_eq!(graph[&4], vec![0, 3]);
}
