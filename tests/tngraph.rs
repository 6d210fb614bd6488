use fast_hampath::tngraph::{TournamentGraph, ValidationError};

#[test]
fn simple_test_generation() {
    let size = 2;
    let r = vec![(0, 1)];
    let n = TournamentGraph::new_unchecked(size, r.clone());
    assert!(n.is_valid_tournament_graph(), "Edges {:?} result in an invalid tournament graph", r);
}

#[test]
fn randomized_test_generation() {
    let size = 100;
    for _ in 0..100 {
        let r = TournamentGraph::random_edges(size);
        let n = TournamentGraph::new_unchecked(size, r.clone());
        assert!(n.is_valid_tournament_graph(), "Edges {:?} result in an invalid tournament graph", r);
    }
}

#[test]
fn build_graph_missing_pair_is_rejected() {
    assert_eq!(TournamentGraph::new(2, vec![]).err(), Some(ValidationError));
}

#[test]
fn build_graph_both_directions_is_rejected() {
    assert_eq!(TournamentGraph::new(2, vec![(0, 1), (1, 0)]).err(), Some(ValidationError));
}

#[test]
fn build_graph_self_edge_is_rejected() {
    assert!(TournamentGraph::new(2, vec![(0, 1), (1, 1)]).is_err());
    assert!(TournamentGraph::new(1, vec![(0, 0)]).is_err());
}

#[test]
fn build_graph_duplicate_edge_is_rejected() {
    assert!(TournamentGraph::new(2, vec![(0, 1), (0, 1)]).is_err());
}

#[test]
fn build_graph_out_of_range_is_rejected() {
    assert!(TournamentGraph::new(2, vec![(0, 2)]).is_err());
    assert!(TournamentGraph::new(2, vec![(0, 1), (5, 0)]).is_err());
}

#[test]
fn build_graph_accepts_tournaments() {
    let g = TournamentGraph::new(3, vec![(0, 1), (2, 0), (1, 2)]).unwrap();
    assert_eq!(g.len(), 3);
    assert_eq!(g.get_node(0).neighbor_ids(), vec![1]);
    assert_eq!(g.get_node(2).neighbor_ids(), vec![0]);
    assert_eq!(g.get_node(2).nodeid(), 2);
    assert!(g.get_node(1).has_neighbor(2));
    assert!(!g.get_node(1).has_neighbor(0));
    assert!(TournamentGraph::new(0, vec![]).is_ok());
    assert!(TournamentGraph::new(1, vec![]).is_ok());
}

#[test]
fn unchecked_graph_can_fail_the_check() {
    let g = TournamentGraph::new_unchecked(3, vec![(0, 1), (1, 2)]);
    assert!(!g.is_valid_tournament_graph());
    let g = TournamentGraph::new_unchecked(2, vec![(0, 1), (0, 1)]);
    assert!(!g.is_valid_tournament_graph());
}

#[test]
fn random_graph_is_a_tournament() {
    for n in 0..20 {
        let g = TournamentGraph::new_random(n);
        assert_eq!(g.len(), n);
        assert!(g.is_valid_tournament_graph());
    }
}

#[test]
fn random_edges_cover_each_pair_once() {
    let edges = TournamentGraph::random_edges(6);
    assert_eq!(edges.len(), 15);
    assert!(TournamentGraph::new(6, edges).is_ok());
}

#[test]
fn validate_path_checks_each_condition() {
    let g = TournamentGraph::new(3, vec![(0, 1), (1, 2), (0, 2)]).unwrap();
    assert!(g.validate_path(&[0, 1, 2]));
    assert!(!g.validate_path(&[0, 2, 1]));
    assert!(!g.validate_path(&[0, 1]));
    assert!(!g.validate_path(&[0, 1, 2, 0]));
    assert!(!g.validate_path(&[0, 1, 7]));
    assert!(!g.validate_path(&[]));
}

#[test]
fn validate_path_rejects_repeated_nodes() {
    // 0 -> 1 -> 2 -> 0 is a cycle, and node 3 loses to everyone.
    let g = TournamentGraph::new(4, vec![(0, 1), (1, 2), (2, 0), (0, 3), (1, 3), (2, 3)]).unwrap();
    assert!(!g.validate_path(&[0, 1, 2, 0]));
    assert!(g.validate_path(&[0, 1, 2, 3]));
}

#[test]
fn validate_path_is_repeatable() {
    let g = TournamentGraph::new(2, vec![(1, 0)]).unwrap();
    for _ in 0..3 {
        assert!(g.validate_path(&[1, 0]));
        assert!(!g.validate_path(&[0, 1]));
    }
}

#[test]
fn sign_matrix_values() {
    let g = TournamentGraph::new(3, vec![(0, 1), (2, 0), (1, 2)]).unwrap();
    assert_eq!(g.sign_matrix(), vec![vec![-1, 1, -1], vec![-1, -1, 1], vec![1, -1, -1]]);
}

#[test]
fn edges_from_coins_follow_each_coin() {
    let edges = TournamentGraph::edges_from_coins(3, &vec![true, false, true]);
    assert_eq!(edges, vec![(1, 0), (0, 2), (2, 1)]);
    let edges = TournamentGraph::edges_from_coins(3, &vec![false, false, false]);
    assert_eq!(edges, vec![(0, 1), (0, 2), (1, 2)]);
    assert!(TournamentGraph::new(3, edges).is_ok());
}

#[test]
fn edges_from_coins_small_sizes() {
    assert_eq!(TournamentGraph::edges_from_coins(0, &vec![]), vec![]);
    assert_eq!(TournamentGraph::edges_from_coins(1, &vec![]), vec![]);
    assert_eq!(TournamentGraph::edges_from_coins(2, &vec![false]), vec![(0, 1)]);
}

#[test]
fn edges_from_coins_same_coins_same_graph() {
    let coins: Vec<bool> = (0..45).map(|k| k % 3 == 0).collect();
    let a = TournamentGraph::edges_from_coins(10, &coins);
    let b = TournamentGraph::edges_from_coins(10, &coins);
    assert_eq!(a, b);
    assert_eq!(a[0], (1, 0));
    assert_eq!(a[44], (8, 9));
    assert!(TournamentGraph::new(10, a).is_ok());
}
