use maxclique::graph::Graph;
use maxclique::solver::backtracking::solve;

#[test]
fn backtracking_1_clique() {
    let clique = Graph::new(1);
    let result = solve(&clique);
    assert_eq!(clique, result);
}

#[test]
fn backtracking_2_clique() {
    let mut clique = Graph::new(2);
    clique.insert_edge((1, 2));
    let result = solve(&clique);
    assert_eq!(clique, result);
}

#[test]
fn backtracking_3_clique_i() {
    let mut clique = Graph::new(3);
    clique.insert_edge((1, 2));
    clique.insert_edge((1, 3));
    clique.insert_edge((3, 2));
    let mut clique_nodes = clique.nodes();
    clique_nodes.sort();
    let mut clique_edges = clique.edges();
    clique_edges.sort();
    let result = solve(&clique);
    let mut result_nodes = result.nodes();
    result_nodes.sort();
    let mut result_edges = result.edges();
    result_edges.sort();
    assert_eq!(clique_nodes, result_nodes);
    assert_eq!(clique_edges, result_edges);
}

#[test]
fn backtracking_3_clique_ii() {
    let mut graph = Graph::new(5);
    graph.insert_edge((1, 2));
    graph.insert_edge((1, 3));
    graph.insert_edge((2, 4));
    graph.insert_edge((3, 2));
    graph.insert_edge((3, 4));
    graph.insert_edge((1, 5));
    let result = solve(&graph);
    let mut result_nodes = result.nodes();
    result_nodes.sort();
    let mut result_edges = result.edges();
    result_edges.sort();
    let mut clique = Graph::new(4);
    if result_nodes.contains(&1) {
        clique.remove_node(4);
        clique.insert_edge((1, 2));
        clique.insert_edge((1, 3));
        clique.insert_edge((3, 2));
    } else {
        clique.remove_node(1);
        clique.insert_edge((2, 3));
        clique.insert_edge((2, 4));
        clique.insert_edge((3, 4));
    }
    let mut clique_nodes = clique.nodes();
    clique_nodes.sort();
    let mut clique_edges = clique.edges();
    clique_edges.sort();
    assert_eq!(clique_nodes, result_nodes);
    assert_eq!(clique_edges, result_edges);
}

#[test]
fn backtracking_no_nodes() {
    let graph = Graph::default();
    let result = solve(&graph);
    assert!(result.is_empty());
    assert_eq!(result.nlen(), 0);
}

#[test]
fn backtracking_edgeless_returns_single_node() {
    let graph = Graph::new(4);
    let result = solve(&graph);
    assert_eq!(result.nlen(), 1);
    assert_eq!(result.elen(), 0);
    assert!(result.is_complete());
}

#[test]
fn backtracking_triangle_with_tail() {
    // a triangle {2, 3, 4} with a pendant edge (1, 2)
    let mut graph = Graph::new(4);
    graph.insert_edge((1, 2));
    graph.insert_edge((2, 3));
    graph.insert_edge((2, 4));
    graph.insert_edge((3, 4));
    let result = solve(&graph);
    let mut nodes = result.nodes();
    nodes.sort();
    assert_eq!(nodes, vec![2, 3, 4]);
    assert_eq!(result.elen(), 3);
    assert!(result.is_complete());
}

#[test]
fn backtracking_result_is_clique_of_input() {
    let mut graph = Graph::new(6);
    graph.insert_edge((1, 2));
    graph.insert_edge((2, 3));
    graph.insert_edge((1, 3));
    graph.insert_edge((4, 5));
    let result = solve(&graph);
    assert!(result.is_complete());
    for n in result.nodes() {
        assert!(graph.contains_node(n));
    }
    for e in result.edges() {
        assert!(graph.contains_edge(e));
    }
    assert_eq!(result.nlen(), 3);
}
