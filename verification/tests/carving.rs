//! Clique carving over ranked edges.

use dry_core::comparison::carving::{
    best_clique_candidate, build_adjacency, candidate_beats_best, carve, carving_order,
    component_size_by_node, min_edge_into_clique, min_intra_clique_score, rank_lookup,
    residual_pair, CarveEdge,
};
use std::collections::BTreeMap;

fn e(i: usize, j: usize, rank: u64) -> CarveEdge {
    CarveEdge::new(i, j, rank)
}

fn ident(n: usize) -> Vec<u64> {
    (0..n as u64).collect()
}

#[test]
fn triangle_carves_into_one_clique() {
    let edges = vec![e(0, 1, 5), e(1, 2, 5), e(0, 2, 5)];
    let c = carve(&edges, &ident(3), 512);
    assert_eq!(c.cliques, vec![vec![0, 1, 2]]);
    assert_eq!(c.scores, vec![5]);
    assert!(c.residual.is_empty());
}

#[test]
fn path_of_four_keeps_every_edge() {
    let edges = vec![e(0, 1, 1), e(1, 2, 1), e(2, 3, 1)];
    let c = carve(&edges, &ident(4), 512);
    assert_eq!(c.cliques, vec![vec![0, 1], vec![2, 3]]);
    assert_eq!(c.residual, vec![1]);
}

#[test]
fn chain_emits_clique_plus_residual_pair() {
    // 0-1-2 form a triangle, 2-3 hangs off it.
    let edges = vec![e(0, 1, 9), e(1, 2, 9), e(0, 2, 9), e(2, 3, 8)];
    let c = carve(&edges, &ident(4), 512);
    assert_eq!(c.cliques, vec![vec![0, 1, 2]]);
    assert_eq!(c.residual, vec![3]);
}

#[test]
fn component_cap_is_strictly_greater_than() {
    let edges = vec![
        e(0, 1, 3),
        e(0, 2, 3),
        e(0, 3, 3),
        e(1, 2, 3),
        e(1, 3, 3),
        e(2, 3, 3),
    ];
    let at = carve(&edges, &ident(4), 4);
    assert_eq!(at.cliques.len(), 1);
    assert_eq!(at.cliques[0].len(), 4);
    let above = carve(&edges, &ident(4), 5);
    assert_eq!(above.cliques.len(), 1);
    let below = carve(&edges, &ident(4), 3);
    assert!(below.cliques.is_empty());
    assert_eq!(below.residual.len(), 6);
}

#[test]
fn two_disjoint_triangles_carve_separately() {
    let edges = vec![
        e(0, 1, 4),
        e(1, 2, 4),
        e(0, 2, 4),
        e(3, 4, 4),
        e(4, 5, 4),
        e(3, 5, 4),
    ];
    let c = carve(&edges, &ident(6), 512);
    assert_eq!(c.cliques, vec![vec![0, 1, 2], vec![3, 4, 5]]);
    assert!(c.residual.is_empty());
}

#[test]
fn clique_score_is_the_weakest_pair() {
    // A-C and B-C strong, A-B weaker.
    let edges = vec![e(0, 2, 20), e(1, 2, 20), e(0, 1, 19)];
    let c = carve(&edges, &ident(3), 512);
    assert_eq!(c.cliques, vec![vec![0, 1, 2]]);
    assert_eq!(c.scores, vec![19]);
}

#[test]
fn non_adjacent_node_is_not_admitted() {
    // 0,1,2 a triangle; 3 joined only to 0.
    let edges = vec![e(0, 1, 5), e(0, 2, 5), e(1, 2, 5), e(0, 3, 6)];
    let c = carve(&edges, &ident(4), 512);
    // The strongest edge 0-3 seeds first; 1 and 2 lack an edge to 3.
    assert_eq!(c.cliques, vec![vec![0, 3], vec![1, 2]]);
    assert_eq!(c.residual.len(), 2);
}

#[test]
fn members_are_ordered_by_identity() {
    let edges = vec![e(0, 1, 5), e(1, 2, 5), e(0, 2, 5)];
    // Node 2 has the smallest identity, node 0 the largest.
    let c = carve(&edges, &[9, 5, 1], 512);
    assert_eq!(c.cliques, vec![vec![2, 1, 0]]);
}

#[test]
fn carving_order_puts_strong_edges_first_then_identity() {
    let edges = vec![e(2, 3, 1), e(0, 1, 1), e(1, 2, 7)];
    assert_eq!(carving_order(&edges, &ident(4)), vec![2, 1, 0]);
    let reversed_ident = vec![3, 2, 1, 0];
    assert_eq!(carving_order(&edges, &reversed_ident), vec![2, 0, 1]);
}

#[test]
fn component_sizes_follow_connectivity() {
    let edges = vec![e(0, 1, 1), e(5, 6, 1), e(1, 2, 1)];
    let sizes = component_size_by_node(&edges);
    let expected: BTreeMap<usize, usize> = [(0, 3), (1, 3), (2, 3), (5, 2), (6, 2)].into_iter().collect();
    assert_eq!(sizes, expected);
}

#[test]
fn adjacency_lists_both_ends() {
    let edges = vec![e(0, 1, 4), e(1, 2, 6)];
    let adj = build_adjacency(&edges);
    assert_eq!(adj.get(&1), Some(&vec![(0, 4), (2, 6)]));
    assert_eq!(rank_lookup(&adj, 2, 1), Some(6));
    assert_eq!(rank_lookup(&adj, 0, 2), None);
    assert_eq!(rank_lookup(&adj, 7, 0), None);
}

#[test]
fn min_edge_into_clique_needs_every_member() {
    let edges = vec![e(0, 1, 4), e(0, 2, 6), e(1, 2, 3), e(0, 3, 9)];
    let adj = build_adjacency(&edges);
    assert_eq!(min_edge_into_clique(&vec![0, 1], &adj, 2), Some(3));
    assert_eq!(min_edge_into_clique(&vec![0, 1], &adj, 3), None);
}

#[test]
fn candidate_ties_go_to_the_smaller_identity() {
    let id = vec![5, 3, 9];
    assert!(candidate_beats_best(4, 0, None, &id));
    assert!(candidate_beats_best(5, 0, Some((4, 1)), &id));
    assert!(!candidate_beats_best(3, 0, Some((4, 1)), &id));
    assert!(candidate_beats_best(4, 1, Some((4, 0)), &id));
    assert!(!candidate_beats_best(4, 2, Some((4, 0)), &id));
}

#[test]
fn best_candidate_skips_members_and_assigned_nodes() {
    let edges = vec![e(0, 1, 5), e(0, 2, 5), e(1, 2, 5), e(0, 3, 5), e(1, 3, 5)];
    let adj = build_adjacency(&edges);
    let none: BTreeMap<usize, usize> = BTreeMap::new();
    assert_eq!(best_clique_candidate(&vec![0, 1], &adj, &ident(4), &none), Some(2));
    let mut taken: BTreeMap<usize, usize> = BTreeMap::new();
    taken.insert(2, 0);
    assert_eq!(best_clique_candidate(&vec![0, 1], &adj, &ident(4), &taken), Some(3));
    assert_eq!(best_clique_candidate(&vec![0, 1, 2], &adj, &ident(4), &none), None);
}

#[test]
fn min_intra_clique_score_takes_the_minimum() {
    let edges = vec![e(0, 1, 8), e(0, 2, 6), e(1, 2, 7)];
    let adj = build_adjacency(&edges);
    assert_eq!(min_intra_clique_score(&vec![0, 1, 2], &adj), 6);
}

#[test]
fn residual_pair_orders_by_identity() {
    assert_eq!(residual_pair(e(0, 1, 1), &[7, 2]), (1, 0));
    assert_eq!(residual_pair(e(0, 1, 1), &[2, 7]), (0, 1));
}

#[test]
fn carving_is_stable_across_edge_permutation() {
    let edges = vec![e(0, 1, 9), e(1, 2, 9), e(0, 2, 8), e(2, 3, 8), e(3, 4, 5), e(4, 5, 5), e(3, 5, 5)];
    let mut reversed = edges.clone();
    reversed.reverse();
    let rotated: Vec<CarveEdge> = edges[3..].iter().chain(edges[..3].iter()).copied().collect();
    let id = ident(6);
    let base = carve(&edges, &id, 512);
    for other in [&reversed, &rotated] {
        let c = carve(other, &id, 512);
        assert_eq!(c.cliques, base.cliques);
        assert_eq!(c.scores, base.scores);
        let pairs = |v: &Vec<CarveEdge>, r: &Vec<usize>| r.iter().map(|&k| v[k]).collect::<Vec<_>>();
        assert_eq!(pairs(other, &c.residual), pairs(&edges, &base.residual));
    }
    assert_eq!(base.cliques, vec![vec![0, 1, 2], vec![3, 4, 5]]);
    assert_eq!(base.scores, vec![8, 5]);
}
