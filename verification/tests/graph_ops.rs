use maxclique::graph::Graph;

#[test]
fn new_graph_has_disconnected_nodes() {
    let g = Graph::new(3);
    assert_eq!(g.nlen(), 3);
    assert_eq!(g.elen(), 0);
    assert_eq!(g.degree(), 0);
    assert!(!g.is_complete());
    assert!(g.contains_node(1));
    assert!(g.contains_node(2));
    assert!(g.contains_node(3));
    assert!(!g.contains_node(4));
    assert!(!g.contains_node(0));
}

#[test]
fn single_node_graph_is_complete() {
    let g = Graph::new(1);
    assert_eq!(g.nlen(), 1);
    assert_eq!(g.elen(), 0);
    assert_eq!(g.degree(), 0);
    assert!(g.is_complete());
}

#[test]
fn edge_insertion_is_symmetric() {
    let mut g = Graph::new(3);
    g.insert_edge((1, 2));
    assert!(g.contains_edge((1, 2)));
    assert!(g.contains_edge((2, 1)));
    assert!(!g.contains_edge((1, 3)));
    g.remove_edge((1, 2));
    assert!(!g.contains_edge((1, 2)));
    assert!(!g.contains_edge((2, 1)));
}

#[test]
fn contains_edge_is_false_for_absent_endpoints() {
    let g = Graph::new(2);
    assert!(!g.contains_edge((1, 7)));
    assert!(!g.contains_edge((7, 1)));
    assert!(!g.contains_edge((8, 9)));
}

#[test]
fn elen_matches_edges_listing() {
    let mut g = Graph::new(5);
    g.insert_edge((1, 2));
    g.insert_edge((1, 3));
    g.insert_edge((2, 4));
    g.insert_edge((3, 2));
    g.insert_edge((3, 4));
    g.insert_edge((1, 5));
    assert_eq!(g.elen(), 6);
    assert_eq!(g.edges().len(), 6);
    g.remove_edge((2, 4));
    assert_eq!(g.elen(), 5);
    assert_eq!(g.edges().len(), 5);
    g.remove_node(3);
    assert_eq!(g.elen(), 2);
    assert_eq!(g.edges().len(), 2);
}

#[test]
fn edges_reports_each_pair_once_smaller_first() {
    let mut g = Graph::new(3);
    g.insert_edge((2, 1));
    g.insert_edge((3, 1));
    g.insert_edge((2, 3));
    let mut e = g.edges();
    e.sort();
    assert_eq!(e, vec![(1, 2), (1, 3), (2, 3)]);
}

#[test]
fn queries_are_idempotent() {
    let mut g = Graph::new(4);
    g.insert_edge((1, 2));
    g.insert_edge((3, 4));
    let c1 = g.is_complete();
    let c2 = g.is_complete();
    assert_eq!(c1, c2);
    let e1 = g.edges();
    let e2 = g.edges();
    assert_eq!(e1, e2);
}

#[test]
fn degree_is_a_high_water_mark() {
    let mut g = Graph::new(3);
    assert_eq!(g.degree(), 0);
    g.insert_edge((1, 2));
    assert_eq!(g.degree(), 1);
    g.insert_edge((1, 3));
    assert_eq!(g.degree(), 2);
    assert_eq!(g.degree_of(1), 2);
    assert_eq!(g.degree_of(2), 1);
    g.remove_edge((1, 2));
    // not recomputed on removal
    assert_eq!(g.degree(), 2);
    assert_eq!(g.degree_of(1), 1);
}

#[test]
fn remove_node_strips_neighbour_entries() {
    let mut g = Graph::new(3);
    g.insert_edge((1, 2));
    g.insert_edge((1, 3));
    g.remove_node(1);
    assert_eq!(g.nlen(), 2);
    assert_eq!(g.elen(), 0);
    assert!(!g.contains_node(1));
    assert_eq!(g.degree_of(2), 0);
    assert_eq!(g.degree_of(3), 0);
}

#[test]
fn insert_node_adds_an_isolated_node() {
    let mut g = Graph::new(2);
    g.insert_node(9);
    assert_eq!(g.nlen(), 3);
    assert!(g.contains_node(9));
    assert_eq!(g.degree_of(9), 0);
    let mut nodes = g.nodes();
    nodes.sort();
    assert_eq!(nodes, vec![1, 2, 9]);
}

#[test]
fn adjlst_of_lists_neighbours() {
    let mut g = Graph::new(3);
    g.insert_edge((1, 2));
    g.insert_edge((1, 3));
    let l = g.adjlst_of(1);
    assert_eq!(l.len(), 2);
    assert!(l.contains(&2));
    assert!(l.contains(&3));
    assert_eq!(g.adjlst_of(2), &vec![1]);
}

#[test]
fn nodes_ord_by_degree_sorts_descending() {
    let mut g = Graph::new(4);
    g.insert_edge((1, 2));
    g.insert_edge((1, 3));
    g.insert_edge((1, 4));
    g.insert_edge((2, 3));
    let ord = g.nodes_ord_by_degree();
    assert_eq!(ord.len(), 4);
    assert_eq!(ord[0], 1);
    assert_eq!(g.degree_of(ord[0]), 3);
    assert_eq!(g.degree_of(ord[3]), 1);
    for w in ord.windows(2) {
        assert!(g.degree_of(w[0]) >= g.degree_of(w[1]));
    }
}

#[test]
fn is_empty_only_on_the_empty_graph() {
    let g = Graph::default();
    assert!(g.is_empty());
    let h = Graph::new(1);
    assert!(!h.is_empty());
}

#[test]
fn clone_and_equality_follow_the_stored_graph() {
    let mut g = Graph::new(3);
    g.insert_edge((1, 2));
    let h = g.clone();
    assert_eq!(g, h);
    let mut k = Graph::new(3);
    k.insert_edge((1, 2));
    assert_eq!(g, k);
    k.insert_edge((2, 3));
    assert_ne!(g, k);
}

#[test]
fn duplicate_edge_insertion_duplicates_entries() {
    let mut g = Graph::new(2);
    g.insert_edge((1, 2));
    g.insert_edge((1, 2));
    assert_eq!(g.degree_of(1), 2);
    assert_eq!(g.degree_of(2), 2);
    assert_eq!(g.elen(), 2);
    g.remove_edge((1, 2));
    // one duplicate remains in each direction
    assert!(g.contains_edge((1, 2)));
    assert_eq!(g.degree_of(1), 1);
}
