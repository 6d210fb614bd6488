use fast_hampath::fastpath::HampathBuilder;
use fast_hampath::tngraph::TournamentGraph;

#[test]
fn test_randomized_hampath_solve() {
    let b = HampathBuilder::new_random(500);
    let (path, graph) = b.solution_pair();
    assert!(graph.validate_path(&path[..]), "Path {:?} is invalid for graph:\n{:?}", path, graph.sign_matrix());
}

#[test]
fn example_1() {
    let edges = vec![
        (0, 1), (2, 0), (0, 3), (0, 4),
        (2, 1), (3, 1), (4, 1),
        (3, 2), (2, 4),
        (3, 4),
    ];
    let b = HampathBuilder::new(5, edges);
    let (path, graph) = b.solution_pair();
    assert!(graph.validate_path(&path[..]), "Path {:?} is invalid for graph:\n{:?}", path, graph.sign_matrix());
}

#[test]
fn example_2() {
    let edges = vec![
        (1, 0), (0, 2), (3, 0), (0, 4),
        (2, 1), (3, 1), (1, 4),
        (2, 3), (2, 4),
        (4, 3),
    ];
    let b = HampathBuilder::new(5, edges);
    let (path, graph) = b.solution_pair();
    assert!(graph.validate_path(&path[..]), "Path {:?} is invalid for graph:\n{:?}", path, graph.sign_matrix());
}

#[test]
fn two_nodes_single_edge() {
    let (path, graph) = HampathBuilder::new(2, vec![(0, 1)]).solution_pair();
    assert_eq!(path, vec![0, 1]);
    assert!(graph.validate_path(&path));
}

#[test]
fn one_node_no_edges() {
    let (path, graph) = HampathBuilder::new(1, vec![]).solution_pair();
    assert_eq!(path, vec![0]);
    assert!(graph.validate_path(&path));
}

#[test]
fn five_nodes_gives_a_valid_permutation() {
    let edges = vec![(0, 1), (2, 0), (0, 3), (0, 4), (2, 1), (3, 1), (4, 1), (3, 2), (2, 4), (3, 4)];
    let (path, graph) = HampathBuilder::new(5, edges).solution_pair();
    let mut sorted = path.clone();
    sorted.sort();
    assert_eq!(sorted, vec![0, 1, 2, 3, 4]);
    assert!(graph.validate_path(&path));
    // node 1 is appended, 2 and 3 go in front, 4 goes between 0 and 1
    assert_eq!(path, vec![3, 2, 0, 4, 1]);
}

#[test]
fn insertion_cases_in_order() {
    // 1 -> 0: front; 0 -> 2 from the tail: back; 3 beats 0 and loses to 1:
    // inserted after 1, the first node followed by one that 3 beats.
    let edges = vec![(1, 0), (0, 2), (1, 2), (1, 3), (3, 0), (3, 2)];
    let (path, _) = HampathBuilder::new(4, edges).solution_pair();
    assert_eq!(path, vec![1, 3, 0, 2]);
}

#[test]
fn solving_is_deterministic() {
    let g = TournamentGraph::new_random(60);
    let edges: Vec<(usize, usize)> = (0..60)
        .flat_map(|i| g.get_node(i).neighbor_ids().into_iter().map(move |j| (i, j)))
        .collect();
    let (p1, g1) = HampathBuilder::from_graph(g).solution_pair();
    let (p2, _) = HampathBuilder::new(60, edges).solution_pair();
    assert_eq!(p1, p2);
    assert!(g1.validate_path(&p1));
}

#[test]
fn solve_path_then_into_graph() {
    let mut b = HampathBuilder::new(3, vec![(2, 1), (1, 0), (2, 0)]);
    let path = b.solve_path();
    assert_eq!(path, vec![2, 1, 0]);
    let g = b.into_graph();
    assert!(g.validate_path(&path));
}

#[test]
fn random_builders_solve_small_sizes() {
    for n in 1..40 {
        let (path, graph) = HampathBuilder::new_random(n).solution_pair();
        assert_eq!(path.len(), n);
        assert!(graph.validate_path(&path));
    }
}
