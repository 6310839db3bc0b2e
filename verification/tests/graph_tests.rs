use graph_search::AdjacencyMatrix;
use graph_search::Graph;
use graph_search::Node;
use graph_search::VisitedWrapper;

fn node(label: &str) -> Node {
    Node::new_ref(label.to_string())
}

#[test]
fn unknown_start_returns_minus_one_on_empty_graph() {
    let g = Graph::new();
    assert_eq!(g.depth_search(node("A"), node("A")), -1);
}

#[test]
fn unknown_start_returns_minus_one() {
    let mut g = Graph::new();
    g.add_adjacency(node("B"), node("C"), 4);
    assert_eq!(g.depth_search(node("A"), node("C")), -1);
}

#[test]
fn start_equal_target_returns_zero() {
    let mut g = Graph::new();
    g.add_adjacency(node("A"), node("B"), 5);
    assert_eq!(g.depth_search(node("A"), node("A")), 0);
}

#[test]
fn single_edge_costs_its_weight() {
    let mut g = Graph::new();
    g.add_adjacency(node("A"), node("B"), 5);
    assert_eq!(g.depth_search(node("A"), node("B")), 5);
    assert_eq!(g.depth_search(node("B"), node("A")), -1);
}

#[test]
fn unreachable_target_costs_the_whole_walk() {
    let mut g = Graph::new();
    g.add_adjacency(node("A"), node("B"), 3);
    g.add_adjacency(node("A"), node("C"), 4);
    assert_eq!(g.depth_search(node("A"), node("Z")), 7);
}

#[test]
fn cycle_terminates_and_counts_each_edge_once() {
    let mut g = Graph::new();
    g.add_adjacency(node("A"), node("B"), 1);
    g.add_adjacency(node("B"), node("A"), 1);
    // Both edges are taken once: entering A again is pruned, but the edge
    // back to it was already paid for when it was taken.
    assert_eq!(g.depth_search(node("A"), node("Z")), 2);
}

#[test]
fn fresh_search_walks_afresh() {
    let mut g = Graph::new();
    g.add_adjacency(node("A"), node("B"), 1);
    g.add_adjacency(node("B"), node("A"), 1);
    assert_eq!(g.depth_search(node("A"), node("Z")), 2);
    assert_eq!(g.depth_search(node("A"), node("Z")), 2);
}

#[test]
fn equal_labels_are_one_entity() {
    let mut g = Graph::new();
    g.add_adjacency(node("A"), node("X"), 1);
    g.add_adjacency(node("X"), node("D"), 10);
    g.add_adjacency(node("A"), node("C"), 2);
    g.add_adjacency(node("C"), node("X"), 100);
    // X is expanded through the first edge referencing it; the second edge
    // into X still costs 100 but must not expand X (and D) again:
    // 1 + 10 + 2 + 100.
    assert_eq!(g.depth_search(node("A"), node("Z")), 113);
}

#[test]
fn negative_costs_sum_through() {
    let mut g = Graph::new();
    g.add_adjacency(node("A"), node("B"), -4);
    g.add_adjacency(node("A"), node("C"), 2);
    assert_eq!(g.depth_search(node("A"), node("Z")), -2);
}

#[test]
fn target_stops_expansion_but_not_siblings() {
    let mut g = Graph::new();
    g.add_adjacency(node("A"), node("T"), 5);
    g.add_adjacency(node("A"), node("B"), 3);
    g.add_adjacency(node("T"), node("D"), 100);
    // T is the target: the edge into it costs 5, its own edges are never
    // taken, and the sibling branch through B is still walked.
    assert_eq!(g.depth_search(node("A"), node("T")), 8);
}

#[test]
fn neighbours_keep_insertion_order_and_duplicates() {
    let mut m = AdjacencyMatrix::new();
    m.add_adjacency(node("A"), node("B"), 1);
    m.add_adjacency(node("A"), node("C"), 2);
    m.add_adjacency(node("A"), node("B"), 3);
    let ns = m.get_neighbours_for_node(&node("A")).unwrap();
    let seen: Vec<(String, i32)> = ns.iter().map(|p| (p.0.data.clone(), p.1)).collect();
    assert_eq!(
        seen,
        vec![
            ("B".to_string(), 1),
            ("C".to_string(), 2),
            ("B".to_string(), 3),
        ]
    );
}

#[test]
fn contains_node_means_source_of_an_edge() {
    let mut m = AdjacencyMatrix::new();
    m.add_adjacency(node("A"), node("B"), 1);
    assert!(m.contains_node(&node("A")));
    // A node referenced only as a target heads no row.
    assert!(!m.contains_node(&node("B")));
    assert!(m.get_neighbours_for_node(&node("B")).is_none());
}

#[test]
fn visited_wrapper_marks_by_label() {
    let mut v = VisitedWrapper::new();
    assert!(!v.visited(&node("X")));
    v.visit(&node("X"));
    // Any node carrying an equal label now counts as visited.
    assert!(v.visited(&node("X")));
    assert!(!v.visited(&node("Y")));
    assert_eq!(v.get_visited().len(), 1);
    assert_eq!(v.get_visited()[0].data, "X");
}

#[test]
fn node_new_ref_keeps_its_label() {
    let n = Node::new_ref("hello".to_string());
    assert_eq!(n.data, "hello");
}
