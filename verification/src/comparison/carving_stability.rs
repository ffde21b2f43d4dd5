//! Carving does not depend on the order in which the edges are listed:
//! for a simple graph and distinct node identities, any rearrangement of
//! the edge list carves the same cliques.
use vstd::prelude::*;

use super::carving::{
    adjacency_of, beats, best_among, best_candidate, carve_from, entries_at, entry_rank, grown,
    min_into, nb, nbr_entries, nodes_below, rank_between, CarveEdge, edge_key, ends_below,
    is_carving_order, key_le, add_node, component_map, component_size, count_rooted, endpoint_seq,
    lemma_endpoint_seq_has, root_after, absorbed, residual_spec, scores_of, clique_score, pairs_min,
    row_min, lemma_entries_below,
};
use super::carving_laws::{joins, joined, joined_any, lemma_joined_same_component};

verus! {

/// No edge joins a node to itself, and no two edges join the same pair.
pub open spec fn simple_graph(edges: Seq<CarveEdge>) -> bool {
    &&& forall|k: int| 0 <= k < edges.len() ==> (#[trigger] edges[k]).i != edges[k].j
    &&& forall|k: int, l: int|
        0 <= k < l < edges.len() ==> !joins(#[trigger] edges[l], (#[trigger] edges[k]).i, edges[k].j)
}

/// No two nodes share an identity.
pub open spec fn distinct_idents(ident: Seq<u64>) -> bool {
    forall|a: int, b: int| 0 <= a < b < ident.len() ==> #[trigger] ident[a] != #[trigger] ident[b]
}

/// No two entries of a list name the same neighbour.
pub open spec fn unique_nodes(s: Seq<(usize, u64)>) -> bool {
    forall|t: int, u: int| 0 <= t < u < s.len() ==> (#[trigger] s[t]).0 != (#[trigger] s[u]).0
}

/// The entry `(b, r)` is in `a`'s list exactly when an edge of rank `r`
/// joins `a` and `b`.
pub proof fn lemma_entry_iff_edge(edges: Seq<CarveEdge>, a: usize, b: usize, r: u64)
    ensures
        nbr_entries(edges, a).contains((b, r)) <==> exists|k: int|
            0 <= k < edges.len() && joins(#[trigger] edges[k], a, b) && edges[k].rank == r,
    decreases edges.len(),
{
    if edges.len() > 0 {
        let prev = edges.drop_last();
        let e = edges.last();
        lemma_entry_iff_edge(prev, a, b, r);
        let s = nbr_entries(prev, a);
        let t = entries_at(e, a);
        let all = s + t;
        assert(nbr_entries(edges, a) == all);
        assert(edges[edges.len() - 1] == e);
        if e.i == a && e.j == a {
            assert(t =~= seq![(e.j, e.rank), (e.i, e.rank)]);
        } else if e.i == a {
            assert(t =~= seq![(e.j, e.rank)]);
        } else if e.j == a {
            assert(t =~= seq![(e.i, e.rank)]);
        } else {
            assert(t =~= Seq::<(usize, u64)>::empty());
        }
        if all.contains((b, r)) {
            let w = choose|w: int| 0 <= w < all.len() && all[w] == (b, r);
            if w < s.len() {
                assert(s[w] == (b, r));
                let k = choose|k: int| 0 <= k < prev.len() && joins(#[trigger] prev[k], a, b) && prev[k].rank == r;
                assert(edges[k] == prev[k]);
            } else {
                assert(joins(edges[edges.len() - 1], a, b) && edges[edges.len() - 1].rank == r);
            }
        }
        if exists|k: int| 0 <= k < edges.len() && joins(#[trigger] edges[k], a, b) && edges[k].rank == r {
            let k = choose|k: int| 0 <= k < edges.len() && joins(#[trigger] edges[k], a, b) && edges[k].rank == r;
            if k < edges.len() - 1 {
                assert(prev[k] == edges[k]);
                let w = choose|w: int| 0 <= w < s.len() && s[w] == (b, r);
                assert(all[w] == (b, r));
            } else if e.i == a && e.j == b {
                assert(all[s.len() as int] == (b, r));
            } else {
                if e.i == a {
                    assert(all[s.len() as int] == (b, r));
                } else {
                    assert(all[s.len() as int] == (b, r));
                }
            }
        }
    }
}

/// In a simple graph each neighbour appears once in a node's list.
pub proof fn lemma_unique_nodes(edges: Seq<CarveEdge>, a: usize)
    requires
        simple_graph(edges),
    ensures
        unique_nodes(nbr_entries(edges, a)),
    decreases edges.len(),
{
    if edges.len() > 0 {
        let prev = edges.drop_last();
        let e = edges.last();
        assert(simple_graph(prev)) by {
            assert forall|k: int| 0 <= k < prev.len() implies (#[trigger] prev[k]).i != prev[k].j by {
                assert(prev[k] == edges[k]);
            }
            assert forall|k: int, l: int| 0 <= k < l < prev.len() implies !joins(#[trigger] prev[l], (#[trigger] prev[k]).i, prev[k].j) by {
                assert(prev[k] == edges[k] && prev[l] == edges[l]);
            }
        }
        lemma_unique_nodes(prev, a);
        let s = nbr_entries(prev, a);
        let t = entries_at(e, a);
        assert(edges[edges.len() - 1] == e);
        assert(e.i != e.j);
        if e.i == a {
            assert(t =~= seq![(e.j, e.rank)]);
        } else if e.j == a {
            assert(t =~= seq![(e.i, e.rank)]);
        } else {
            assert(t =~= Seq::<(usize, u64)>::empty());
        }
        let all = s + t;
        assert(nbr_entries(edges, a) == all);
        assert forall|x: int, y: int| 0 <= x < y < all.len() implies (#[trigger] all[x]).0 != (#[trigger] all[y]).0 by {
            if y >= s.len() {
                assert(x < s.len());
                let b = all[y].0;
                if all[x].0 == b {
                    lemma_entry_iff_edge(prev, a, b, s[x].1);
                    assert(s.contains(s[x]));
                    let k = choose|k: int| 0 <= k < prev.len() && joins(#[trigger] prev[k], a, b) && prev[k].rank == s[x].1;
                    assert(prev[k] == edges[k]);
                    assert(joins(edges[edges.len() - 1], edges[k].i, edges[k].j));
                }
            } else {
                assert(all[x] == s[x] && all[y] == s[y]);
            }
        }
    }
}

/// With one entry per neighbour, the rank found for `b` is the rank of
/// its entry.
pub proof fn lemma_entry_rank_unique(s: Seq<(usize, u64)>, b: usize, r: u64)
    requires
        unique_nodes(s),
    ensures
        entry_rank(s, b) == Some(r) <==> s.contains((b, r)),
        entry_rank(s, b) is None <==> forall|t: int| 0 <= t < s.len() ==> (#[trigger] s[t]).0 != b,
    decreases s.len(),
{
    if s.len() > 0 {
        let prev = s.drop_last();
        assert(unique_nodes(prev)) by {
            assert forall|t: int, u: int| 0 <= t < u < prev.len() implies (#[trigger] prev[t]).0 != (#[trigger] prev[u]).0 by {
                assert(prev[t] == s[t] && prev[u] == s[u]);
            }
        }
        lemma_entry_rank_unique(prev, b, r);
        assert(s[s.len() - 1] == s.last());
        if s.contains((b, r)) {
            let w = choose|w: int| 0 <= w < s.len() && s[w] == (b, r);
            if w < s.len() - 1 {
                assert(prev[w] == (b, r));
                assert(prev.contains((b, r)));
            } else {
                assert forall|t: int| 0 <= t < prev.len() implies (#[trigger] prev[t]).0 != b by {
                    assert(prev[t] == s[t]);
                }
            }
        }
        if entry_rank(s, b) == Some(r) {
            if entry_rank(prev, b) == Some(r) {
                let w = choose|w: int| 0 <= w < prev.len() && prev[w] == (b, r);
                assert(s[w] == (b, r));
            } else {
                assert(s.last() == (b, r));
            }
        }
        if forall|t: int| 0 <= t < s.len() ==> (#[trigger] s[t]).0 != b {
            assert forall|t: int| 0 <= t < prev.len() implies (#[trigger] prev[t]).0 != b by {
                assert(prev[t] == s[t]);
            }
        }
        if entry_rank(s, b) is None {
            assert forall|t: int| 0 <= t < s.len() implies (#[trigger] s[t]).0 != b by {
                if t < s.len() - 1 {
                    assert(prev[t] == s[t]);
                }
            }
        }
    }
}

/// Two adjacencies give every pair of nodes the same rank.
pub open spec fn same_ranks(g1: Map<usize, Seq<(usize, u64)>>, g2: Map<usize, Seq<(usize, u64)>>) -> bool {
    forall|a: usize, b: usize| #[trigger] rank_between(g1, a, b) == rank_between(g2, a, b)
}

/// The weakest edge into a clique depends only on the ranks.
pub proof fn lemma_min_into_same(
    g1: Map<usize, Seq<(usize, u64)>>,
    g2: Map<usize, Seq<(usize, u64)>>,
    s: Seq<usize>,
    c: usize,
)
    requires
        same_ranks(g1, g2),
    ensures
        min_into(g1, s, c) == min_into(g2, s, c),
    decreases s.len(),
{
    if s.len() > 0 {
        lemma_min_into_same(g1, g2, s.drop_last(), c);
        assert(rank_between(g1, s.last(), c) == rank_between(g2, s.last(), c));
    }
}

/// A node can join the clique: unassigned, not a member, and joined to
/// every member.
pub open spec fn admissible(
    g: Map<usize, Seq<(usize, u64)>>,
    taken: Map<usize, usize>,
    clique: Seq<usize>,
    c: usize,
) -> bool {
    !taken.contains_key(c) && !clique.contains(c) && min_into(g, clique, c) is Some
}

/// The preferred candidate of a list is admissible, comes from the list,
/// and no other admissible candidate of the list is preferred to it; with
/// no admissible candidate there is none.
pub proof fn lemma_best_among_max(
    g: Map<usize, Seq<(usize, u64)>>,
    ident: Seq<u64>,
    taken: Map<usize, usize>,
    clique: Seq<usize>,
    cands: Seq<(usize, u64)>,
)
    ensures
        match best_among(g, ident, taken, clique, cands) {
            None => forall|t: int| 0 <= t < cands.len() ==> !admissible(g, taken, clique, (#[trigger] cands[t]).0),
            Some((w, c)) => {
                &&& admissible(g, taken, clique, c)
                &&& min_into(g, clique, c) == Some(w)
                &&& exists|t: int| 0 <= t < cands.len() && (#[trigger] cands[t]).0 == c
                &&& forall|t: int|
                    0 <= t < cands.len() && admissible(g, taken, clique, (#[trigger] cands[t]).0) && cands[t].0 != c
                        ==> !beats(min_into(g, clique, cands[t].0)->0, cands[t].0, Some((w, c)), ident)
            },
        },
    decreases cands.len(),
{
    if cands.len() > 0 {
        let prev = cands.drop_last();
        lemma_best_among_max(g, ident, taken, clique, prev);
        let cn = cands.last().0;
        assert(cands[cands.len() - 1] == cands.last());
        let pb = best_among(g, ident, taken, clique, prev);
        assert forall|t: int| 0 <= t < prev.len() implies #[trigger] prev[t] == cands[t] by {}
        match best_among(g, ident, taken, clique, cands) {
            None => {
                assert forall|t: int| 0 <= t < cands.len() implies !admissible(g, taken, clique, (#[trigger] cands[t]).0) by {
                    if t < cands.len() - 1 {
                        assert(prev[t] == cands[t]);
                    }
                }
            },
            Some((w, c)) => {
                if pb == Some((w, c)) {
                    let t0 = choose|t: int| 0 <= t < prev.len() && (#[trigger] prev[t]).0 == c;
                    assert(cands[t0].0 == c);
                    assert forall|t: int|
                        0 <= t < cands.len() && admissible(g, taken, clique, (#[trigger] cands[t]).0) && cands[t].0 != c
                        implies !beats(min_into(g, clique, cands[t].0)->0, cands[t].0, Some((w, c)), ident) by {
                        if t < cands.len() - 1 {
                            assert(prev[t] == cands[t]);
                        }
                    }
                } else {
                    assert(c == cn);
                    assert(cands[cands.len() - 1].0 == c);
                    assert forall|t: int|
                        0 <= t < cands.len() && admissible(g, taken, clique, (#[trigger] cands[t]).0) && cands[t].0 != c
                        implies !beats(min_into(g, clique, cands[t].0)->0, cands[t].0, Some((w, c)), ident) by {
                        let ct = cands[t].0;
                        assert(t < cands.len() - 1);
                        assert(prev[t] == cands[t]);
                        match pb {
                            None => {
                                assert(!admissible(g, taken, clique, prev[t].0));
                            },
                            Some((pw, pc)) => {
                                if ct != pc {
                                    assert(!beats(min_into(g, clique, ct)->0, ct, Some((pw, pc)), ident));
                                }
                            },
                        }
                    }
                }
            },
        }
    }
}


/// Node `a`'s list in `g` has an entry for `c`.
pub open spec fn lists(g: Map<usize, Seq<(usize, u64)>>, a: usize, c: usize) -> bool {
    exists|t: int| 0 <= t < nb(g, a).len() && (#[trigger] nb(g, a)[t]).0 == c
}

/// Two adjacencies list the same neighbours for every node, in lists of
/// the same length.
pub open spec fn same_nbrs(g1: Map<usize, Seq<(usize, u64)>>, g2: Map<usize, Seq<(usize, u64)>>) -> bool {
    &&& forall|a: usize, c: usize| #[trigger] lists(g1, a, c) == lists(g2, a, c)
    &&& forall|a: usize| #[trigger] nb(g1, a).len() == nb(g2, a).len()
}

/// With the same ranks and neighbours and distinct identities, both
/// adjacencies pick the same next candidate.
pub proof fn lemma_best_candidate_same(
    g1: Map<usize, Seq<(usize, u64)>>,
    g2: Map<usize, Seq<(usize, u64)>>,
    ident: Seq<u64>,
    taken: Map<usize, usize>,
    clique: Seq<usize>,
)
    requires
        same_ranks(g1, g2),
        same_nbrs(g1, g2),
        distinct_idents(ident),
        nodes_below(g1, ident.len() as int),
        nodes_below(g2, ident.len() as int),
    ensures
        best_candidate(g1, ident, taken, clique) == best_candidate(g2, ident, taken, clique),
{
    let a = clique[0];
    let c1s = nb(g1, a);
    let c2s = nb(g2, a);
    lemma_best_among_max(g1, ident, taken, clique, c1s);
    lemma_best_among_max(g2, ident, taken, clique, c2s);
    let b1 = best_among(g1, ident, taken, clique, c1s);
    let b2 = best_among(g2, ident, taken, clique, c2s);
    assert forall|c: usize| #[trigger] admissible(g1, taken, clique, c) == admissible(g2, taken, clique, c) by {
        lemma_min_into_same(g1, g2, clique, c);
    }
    assert(lists(g1, a, 0) == lists(g2, a, 0));
    match (b1, b2) {
        (None, None) => {},
        (Some((w1, x1)), None) => {
            let t = choose|t: int| 0 <= t < c1s.len() && (#[trigger] c1s[t]).0 == x1;
            assert(lists(g1, a, x1));
            assert(lists(g2, a, x1));
            let u = choose|u: int| 0 <= u < c2s.len() && (#[trigger] c2s[u]).0 == x1;
            assert(!admissible(g2, taken, clique, c2s[u].0));
        },
        (None, Some((w2, x2))) => {
            let t = choose|t: int| 0 <= t < c2s.len() && (#[trigger] c2s[t]).0 == x2;
            assert(lists(g2, a, x2));
            assert(lists(g1, a, x2));
            let u = choose|u: int| 0 <= u < c1s.len() && (#[trigger] c1s[u]).0 == x2;
            assert(!admissible(g1, taken, clique, c1s[u].0));
        },
        (Some((w1, x1)), Some((w2, x2))) => {
            lemma_min_into_same(g1, g2, clique, x1);
            lemma_min_into_same(g1, g2, clique, x2);
            if x1 != x2 {
                let t1 = choose|t: int| 0 <= t < c1s.len() && (#[trigger] c1s[t]).0 == x1;
                let t2 = choose|t: int| 0 <= t < c2s.len() && (#[trigger] c2s[t]).0 == x2;
                assert(lists(g1, a, x1));
                assert(lists(g2, a, x1));
                assert(lists(g2, a, x2));
                assert(lists(g1, a, x2));
                let u1 = choose|u: int| 0 <= u < c2s.len() && (#[trigger] c2s[u]).0 == x1;
                let u2 = choose|u: int| 0 <= u < c1s.len() && (#[trigger] c1s[u]).0 == x2;
                assert(!beats(w1, x1, Some((w2, x2)), ident));
                assert(!beats(w2, x2, Some((w1, x1)), ident));
                assert(g1.contains_key(a));
                assert(g1[a][t1].0 < ident.len());
                assert(g1[a][u2].0 < ident.len());
                if x1 < x2 {
                    assert(ident[x1 as int] != ident[x2 as int]);
                } else {
                    assert(ident[x2 as int] != ident[x1 as int]);
                }
            }
        },
    }
}

/// With the same ranks and neighbours and distinct identities, growing a
/// clique gives the same clique in both adjacencies.
pub proof fn lemma_grown_same(
    g1: Map<usize, Seq<(usize, u64)>>,
    g2: Map<usize, Seq<(usize, u64)>>,
    ident: Seq<u64>,
    taken: Map<usize, usize>,
    clique: Seq<usize>,
    fuel: nat,
)
    requires
        same_ranks(g1, g2),
        same_nbrs(g1, g2),
        distinct_idents(ident),
        nodes_below(g1, ident.len() as int),
        nodes_below(g2, ident.len() as int),
    ensures
        grown(g1, ident, taken, clique, fuel) == grown(g2, ident, taken, clique, fuel),
    decreases fuel,
{
    if fuel > 0 {
        lemma_best_candidate_same(g1, g2, ident, taken, clique);
        match best_candidate(g1, ident, taken, clique) {
            None => {},
            Some(c) => {
                lemma_grown_same(g1, g2, ident, taken, clique.push(c), (fuel - 1) as nat);
            },
        }
    }
}

/// Carving two edge lists along orders that visit equal edges in turn,
/// over adjacencies with the same ranks and neighbours, carves the same.
pub proof fn lemma_carve_from_same(
    e1: Seq<CarveEdge>,
    e2: Seq<CarveEdge>,
    g1: Map<usize, Seq<(usize, u64)>>,
    g2: Map<usize, Seq<(usize, u64)>>,
    ident: Seq<u64>,
    comp: Map<usize, usize>,
    cap: usize,
    o1: Seq<usize>,
    o2: Seq<usize>,
)
    requires
        o1.len() == o2.len(),
        forall|p: int| 0 <= p < o1.len() ==> e1[#[trigger] o1[p] as int] == e2[o2[p] as int],
        same_ranks(g1, g2),
        same_nbrs(g1, g2),
        distinct_idents(ident),
        nodes_below(g1, ident.len() as int),
        nodes_below(g2, ident.len() as int),
    ensures
        carve_from(e1, g1, ident, comp, cap, o1) == carve_from(e2, g2, ident, comp, cap, o2),
    decreases o1.len(),
{
    if o1.len() > 0 {
        let p1 = o1.drop_last();
        let p2 = o2.drop_last();
        assert forall|p: int| 0 <= p < p1.len() implies e1[#[trigger] p1[p] as int] == e2[p2[p] as int] by {
            assert(p1[p] == o1[p] && p2[p] == o2[p]);
        }
        lemma_carve_from_same(e1, e2, g1, g2, ident, comp, cap, p1, p2);
        assert(o1[o1.len() - 1] == o1.last());
        assert(o2[o2.len() - 1] == o2.last());
        let e = e1[o1.last() as int];
        assert(e == e2[o2.last() as int]);
        let of = carve_from(e1, g1, ident, comp, cap, p1).1;
        assert(nb(g1, e.i).len() == nb(g2, e.i).len());
        lemma_grown_same(g1, g2, ident, of, seq![e.i, e.j], nb(g1, e.i).len());
    }
}

/// For simple graphs holding the same edges, the adjacencies have the
/// same ranks and neighbours.
pub proof fn lemma_adjacency_same(e1: Seq<CarveEdge>, e2: Seq<CarveEdge>)
    requires
        simple_graph(e1),
        simple_graph(e2),
        forall|x: CarveEdge| #[trigger] e1.contains(x) <==> e2.contains(x),
    ensures
        same_ranks(adjacency_of(e1), adjacency_of(e2)),
        same_nbrs(adjacency_of(e1), adjacency_of(e2)),
{
    let g1 = adjacency_of(e1);
    let g2 = adjacency_of(e2);
    assert forall|a: usize| #[trigger] nb(g1, a) == nbr_entries(e1, a) && nb(g2, a) == nbr_entries(e2, a) by {}
    assert forall|a: usize, b: usize, r: u64| #[trigger] nbr_entries(e1, a).contains((b, r)) == nbr_entries(e2, a).contains((b, r)) by {
        lemma_entry_iff_edge(e1, a, b, r);
        lemma_entry_iff_edge(e2, a, b, r);
        if exists|k: int| 0 <= k < e1.len() && joins(#[trigger] e1[k], a, b) && e1[k].rank == r {
            let k = choose|k: int| 0 <= k < e1.len() && joins(#[trigger] e1[k], a, b) && e1[k].rank == r;
            assert(e1.contains(e1[k]));
            let l = choose|l: int| 0 <= l < e2.len() && e2[l] == e1[k];
            assert(joins(e2[l], a, b) && e2[l].rank == r);
        }
        if exists|k: int| 0 <= k < e2.len() && joins(#[trigger] e2[k], a, b) && e2[k].rank == r {
            let k = choose|k: int| 0 <= k < e2.len() && joins(#[trigger] e2[k], a, b) && e2[k].rank == r;
            assert(e2.contains(e2[k]));
            assert(e1.contains(e2[k]));
            let l = choose|l: int| 0 <= l < e1.len() && e1[l] == e2[k];
            assert(joins(e1[l], a, b) && e1[l].rank == r);
        }
    }
    assert forall|a: usize, b: usize| #[trigger] rank_between(g1, a, b) == rank_between(g2, a, b) by {
        lemma_unique_nodes(e1, a);
        lemma_unique_nodes(e2, a);
        let s1 = nbr_entries(e1, a);
        let s2 = nbr_entries(e2, a);
        match entry_rank(s1, b) {
            Some(r) => {
                lemma_entry_rank_unique(s1, b, r);
                lemma_entry_rank_unique(s2, b, r);
                assert(nbr_entries(e1, a).contains((b, r)) == nbr_entries(e2, a).contains((b, r)));
            },
            None => {
                lemma_entry_rank_unique(s1, b, 0);
                lemma_entry_rank_unique(s2, b, 0);
                if entry_rank(s2, b) is Some {
                    let r = entry_rank(s2, b)->0;
                    lemma_entry_rank_unique(s2, b, r);
                    lemma_entry_rank_unique(s1, b, r);
                    assert(nbr_entries(e1, a).contains((b, r)) == nbr_entries(e2, a).contains((b, r)));
                    let w = choose|w: int| 0 <= w < s1.len() && s1[w] == (b, r);
                    assert(s1[w].0 == b);
                }
            },
        }
    }
    assert forall|a: usize, c: usize| #[trigger] lists(g1, a, c) == lists(g2, a, c) by {
        let s1 = nbr_entries(e1, a);
        let s2 = nbr_entries(e2, a);
        assert(nb(g1, a) == s1 && nb(g2, a) == s2);
        if lists(g1, a, c) {
            let t = choose|t: int| 0 <= t < s1.len() && (#[trigger] s1[t]).0 == c;
            assert(s1.contains(s1[t]));
            assert(nbr_entries(e1, a).contains((c, s1[t].1)) == nbr_entries(e2, a).contains((c, s1[t].1)));
            let u = choose|u: int| 0 <= u < s2.len() && s2[u] == (c, s1[t].1);
            assert(s2[u].0 == c);
        }
        if lists(g2, a, c) {
            let t = choose|t: int| 0 <= t < s2.len() && (#[trigger] s2[t]).0 == c;
            assert(s2.contains(s2[t]));
            assert(nbr_entries(e1, a).contains((c, s2[t].1)) == nbr_entries(e2, a).contains((c, s2[t].1)));
            let u = choose|u: int| 0 <= u < s1.len() && s1[u] == (c, s2[t].1);
            assert(s1[u].0 == c);
        }
    }
    assert forall|a: usize| #[trigger] nb(g1, a).len() == nb(g2, a).len() by {
        lemma_unique_nodes(e1, a);
        lemma_unique_nodes(e2, a);
        let s1 = nbr_entries(e1, a);
        let s2 = nbr_entries(e2, a);
        assert forall|x: (usize, u64)| #[trigger] s1.contains(x) <==> s2.contains(x) by {
            assert(nbr_entries(e1, a).contains((x.0, x.1)) == nbr_entries(e2, a).contains((x.0, x.1)));
            assert(x == (x.0, x.1));
        }
        lemma_same_entries_len(s1, s2);
    }
}

/// Two lists with one entry per neighbour and the same entries have the
/// same length.
pub proof fn lemma_same_entries_len(s1: Seq<(usize, u64)>, s2: Seq<(usize, u64)>)
    requires
        unique_nodes(s1),
        unique_nodes(s2),
        forall|x: (usize, u64)| #[trigger] s1.contains(x) <==> s2.contains(x),
    ensures
        s1.len() == s2.len(),
{
    lemma_unique_no_dup(s1);
    lemma_unique_no_dup(s2);
    s1.unique_seq_to_set();
    s2.unique_seq_to_set();
    assert(s1.to_set() =~= s2.to_set());
}


/// A list with one entry per neighbour has no repeated entry.
pub proof fn lemma_unique_no_dup(s: Seq<(usize, u64)>)
    requires
        unique_nodes(s),
    ensures
        s.no_duplicates(),
{
    assert forall|t: int, u: int| 0 <= t < s.len() && 0 <= u < s.len() && t != u implies s[t] != s[u] by {
        if t < u {
            assert(s[t].0 != s[u].0);
        } else {
            assert(s[u].0 != s[t].0);
        }
    }
}


/// An edge's carving key without its position: stronger first, then the
/// ends' identities, smaller end first.
pub open spec fn key3(e: CarveEdge, ident: Seq<u64>) -> (u64, u64, u64) {
    let a = ident[e.i as int];
    let b = ident[e.j as int];
    ((u64::MAX - e.rank) as u64, if a <= b { a } else { b }, if a <= b { b } else { a })
}

/// Strict lexicographic order on those keys.
pub open spec fn lt3(a: (u64, u64, u64), b: (u64, u64, u64)) -> bool {
    a.0 < b.0 || (a.0 == b.0 && (a.1 < b.1 || (a.1 == b.1 && a.2 < b.2)))
}

/// The edges in strictly ascending key order.
pub open spec fn strictly_sorted(s: Seq<CarveEdge>, ident: Seq<u64>) -> bool {
    forall|p: int, q: int| 0 <= p < q < s.len() ==> lt3(key3(#[trigger] s[p], ident), key3(#[trigger] s[q], ident))
}

/// The edges an order visits, in turn.
pub open spec fn visited(edges: Seq<CarveEdge>, order: Seq<usize>) -> Seq<CarveEdge> {
    Seq::new(order.len(), |p: int| edges[order[p] as int])
}

/// In a simple graph with distinct identities, a carving order visits
/// every edge once, in strictly ascending key order.
pub proof fn lemma_visited_sorted(edges: Seq<CarveEdge>, ident: Seq<u64>, order: Seq<usize>)
    requires
        edges.len() <= usize::MAX,
        simple_graph(edges),
        distinct_idents(ident),
        ends_below(edges, ident.len() as int),
        is_carving_order(edges, ident, order),
    ensures
        strictly_sorted(visited(edges, order), ident),
        forall|x: CarveEdge| #[trigger] visited(edges, order).contains(x) <==> edges.contains(x),
{
    let v = visited(edges, order);
    assert forall|p: int, q: int| 0 <= p < q < v.len() implies lt3(key3(#[trigger] v[p], ident), key3(#[trigger] v[q], ident)) by {
        let x = order[p];
        let y = order[q];
        assert(key_le(edge_key(edges, ident, x), edge_key(edges, ident, y)) && x != y);
        let a = edges[x as int];
        let b = edges[y as int];
        assert(v[p] == a && v[q] == b);
        if !lt3(key3(a, ident), key3(b, ident)) {
            assert(key3(a, ident) == key3(b, ident));
            assert(a.i != a.j && b.i != b.j);
            assert(a.i < ident.len() && a.j < ident.len() && b.i < ident.len() && b.j < ident.len());
            assert(joins(b, a.i, a.j)) by {
                let ai = ident[a.i as int];
                let aj = ident[a.j as int];
                let bi = ident[b.i as int];
                let bj = ident[b.j as int];
                assert forall|m: usize, n: usize| m < ident.len() && n < ident.len() && ident[m as int] == ident[n as int] implies m == n by {
                    if m < n {
                        assert(ident[m as int] != ident[n as int]);
                    } else if n < m {
                        assert(ident[n as int] != ident[m as int]);
                    }
                }
                assert(ai != aj);
            }
            if x < y {
                assert(!joins(edges[y as int], edges[x as int].i, edges[x as int].j));
            } else {
                assert(joins(a, b.i, b.j));
                assert(!joins(edges[x as int], edges[y as int].i, edges[y as int].j));
            }
        }
    }
    assert forall|x: CarveEdge| #[trigger] v.contains(x) <==> edges.contains(x) by {
        if v.contains(x) {
            let p = choose|p: int| 0 <= p < v.len() && v[p] == x;
            assert(edges[order[p] as int] == x);
        }
        if edges.contains(x) {
            let k = choose|k: int| 0 <= k < edges.len() && edges[k] == x;
            assert(order.contains(k as usize));
            let p = choose|p: int| 0 <= p < order.len() && order[p] == k as usize;
            assert(v[p] == x);
        }
    }
}

/// Two strictly sorted lists of the same edges are equal.
pub proof fn lemma_sorted_unique(s1: Seq<CarveEdge>, s2: Seq<CarveEdge>, ident: Seq<u64>)
    requires
        strictly_sorted(s1, ident),
        strictly_sorted(s2, ident),
        forall|x: CarveEdge| #[trigger] s1.contains(x) <==> s2.contains(x),
    ensures
        s1 == s2,
    decreases s1.len(),
{
    if s1.len() == 0 {
        if s2.len() > 0 {
            assert(s2.contains(s2[0]));
            assert(s1.contains(s2[0]));
        }
        assert(s1 =~= s2);
    } else {
        assert(s1.contains(s1[0]));
        assert(s2.len() > 0);
        assert(s2.contains(s1[0]));
        assert(s2.len() > 0);
        assert(s2.contains(s2[0]));
        assert(s1.contains(s2[0]));
        if s1[0] != s2[0] {
            let q = choose|q: int| 0 <= q < s2.len() && s2[q] == s1[0];
            let p = choose|p: int| 0 <= p < s1.len() && s1[p] == s2[0];
            assert(q > 0 && p > 0);
            assert(lt3(key3(s2[0], ident), key3(s2[q], ident)));
            assert(lt3(key3(s1[0], ident), key3(s1[p], ident)));
            assert(false);
        }
        let r1 = s1.drop_first();
        let r2 = s2.drop_first();
        assert(strictly_sorted(r1, ident)) by {
            assert forall|p: int, q: int| 0 <= p < q < r1.len() implies lt3(key3(#[trigger] r1[p], ident), key3(#[trigger] r1[q], ident)) by {
                assert(r1[p] == s1[p + 1] && r1[q] == s1[q + 1]);
            }
        }
        assert(strictly_sorted(r2, ident)) by {
            assert forall|p: int, q: int| 0 <= p < q < r2.len() implies lt3(key3(#[trigger] r2[p], ident), key3(#[trigger] r2[q], ident)) by {
                assert(r2[p] == s2[p + 1] && r2[q] == s2[q + 1]);
            }
        }
        assert forall|x: CarveEdge| #[trigger] r1.contains(x) <==> r2.contains(x) by {
            if r1.contains(x) {
                let p = choose|p: int| 0 <= p < r1.len() && r1[p] == x;
                assert(s1[p + 1] == x);
                assert(lt3(key3(s1[0], ident), key3(s1[p + 1], ident)));
                assert(s1.contains(x));
                let q = choose|q: int| 0 <= q < s2.len() && s2[q] == x;
                assert(q != 0);
                assert(r2[q - 1] == x);
            }
            if r2.contains(x) {
                let p = choose|p: int| 0 <= p < r2.len() && r2[p] == x;
                assert(s2[p + 1] == x);
                assert(lt3(key3(s2[0], ident), key3(s2[p + 1], ident)));
                assert(s2.contains(x));
                assert(s1.contains(x));
                let q = choose|q: int| 0 <= q < s1.len() && s1[q] == x;
                assert(q != 0);
                assert(r1[q - 1] == x);
            }
        }
        lemma_sorted_unique(r1, r2, ident);
        assert(s1 =~= seq![s1[0]] + r1);
        assert(s2 =~= seq![s2[0]] + r2);
    }
}


/// `p` is a walk along edges of the list.
pub open spec fn is_path(edges: Seq<CarveEdge>, p: Seq<usize>) -> bool {
    p.len() > 0 && forall|k: int| 0 <= k < p.len() - 1 ==> joined(edges, #[trigger] p[k], p[k + 1])
}

/// Some walk along the edges leads from `a` to `b`.
pub open spec fn connected(edges: Seq<CarveEdge>, a: usize, b: usize) -> bool {
    exists|p: Seq<usize>| #[trigger] is_path(edges, p) && p[0] == a && p.last() == b
}

/// Walks joined by an edge make a walk.
pub proof fn lemma_path_concat(edges: Seq<CarveEdge>, p: Seq<usize>, q: Seq<usize>)
    requires
        is_path(edges, p),
        is_path(edges, q),
        joined(edges, p.last(), q[0]),
    ensures
        is_path(edges, p + q),
        (p + q)[0] == p[0],
        (p + q).last() == q.last(),
{
    let r = p + q;
    assert forall|k: int| 0 <= k < r.len() - 1 implies joined(edges, #[trigger] r[k], r[k + 1]) by {
        if k < p.len() - 1 {
            assert(r[k] == p[k] && r[k + 1] == p[k + 1]);
        } else if k == p.len() - 1 {
            assert(r[k] == p.last() && r[k + 1] == q[0]);
        } else {
            assert(r[k] == q[k - p.len()] && r[k + 1] == q[k - p.len() + 1]);
        }
    }
}

/// Joining is symmetric.
pub proof fn lemma_joined_symmetric(edges: Seq<CarveEdge>, a: usize, b: usize)
    ensures
        joined(edges, a, b) == joined(edges, b, a),
{
    if joined(edges, a, b) {
        let k = choose|k: int| 0 <= k < edges.len() && joins(#[trigger] edges[k], a, b);
        assert(joins(edges[k], b, a));
    }
    if joined(edges, b, a) {
        let k = choose|k: int| 0 <= k < edges.len() && joins(#[trigger] edges[k], b, a);
        assert(joins(edges[k], a, b));
    }
}

/// A walk along a prefix of the edges is a walk along all of them.
pub proof fn lemma_path_grow(edges: Seq<CarveEdge>, p: Seq<usize>)
    requires
        edges.len() > 0,
        is_path(edges.drop_last(), p),
    ensures
        is_path(edges, p),
{
    let prev = edges.drop_last();
    assert forall|k: int| 0 <= k < p.len() - 1 implies joined(edges, #[trigger] p[k], p[k + 1]) by {
        assert(joined(prev, p[k], p[k + 1]));
        let m = choose|m: int| 0 <= m < prev.len() && joins(#[trigger] prev[m], p[k], p[k + 1]);
        assert(edges[m] == prev[m]);
    }
}

/// Nodes on one walk share a root.
pub proof fn lemma_path_same_root(edges: Seq<CarveEdge>, p: Seq<usize>)
    requires
        is_path(edges, p),
    ensures
        root_after(edges, p[0]) == root_after(edges, p.last()),
    decreases p.len(),
{
    if p.len() > 1 {
        let q = p.drop_last();
        assert(is_path(edges, q)) by {
            assert forall|k: int| 0 <= k < q.len() - 1 implies joined(edges, #[trigger] q[k], q[k + 1]) by {
                assert(q[k] == p[k] && q[k + 1] == p[k + 1]);
                assert(joined(edges, p[k], p[k + 1]));
            }
        }
        lemma_path_same_root(edges, q);
        assert(joined(edges, p[p.len() - 2], p[p.len() - 1]));
        lemma_joined_same_component(edges, p[p.len() - 2], p[p.len() - 1]);
    }
}

/// Two nodes share a root exactly when a walk connects them.
pub proof fn lemma_root_iff_connected(edges: Seq<CarveEdge>, a: usize, b: usize)
    ensures
        (root_after(edges, a) == root_after(edges, b)) == connected(edges, a, b),
    decreases edges.len(),
{
    if connected(edges, a, b) {
        let p = choose|p: Seq<usize>| #[trigger] is_path(edges, p) && p[0] == a && p.last() == b;
        lemma_path_same_root(edges, p);
    }
    if root_after(edges, a) == root_after(edges, b) {
        if edges.len() == 0 {
            let p = seq![a];
            assert(is_path(edges, p));
        } else {
            let prev = edges.drop_last();
            let e = edges.last();
            assert(edges[edges.len() - 1] == e);
            assert(joins(edges[edges.len() - 1], e.i, e.j));
            assert(joined(edges, e.i, e.j));
            lemma_joined_symmetric(edges, e.i, e.j);
            let ra = root_after(prev, e.i);
            let rb = root_after(prev, e.j);
            if root_after(prev, a) == root_after(prev, b) {
                lemma_root_iff_connected(prev, a, b);
                let p = choose|p: Seq<usize>| #[trigger] is_path(prev, p) && p[0] == a && p.last() == b;
                lemma_path_grow(edges, p);
            } else if root_after(prev, a) == ra && root_after(prev, b) == rb {
                lemma_root_iff_connected(prev, a, e.i);
                lemma_root_iff_connected(prev, e.j, b);
                let p = choose|p: Seq<usize>| #[trigger] is_path(prev, p) && p[0] == a && p.last() == e.i;
                let q = choose|q: Seq<usize>| #[trigger] is_path(prev, q) && q[0] == e.j && q.last() == b;
                lemma_path_grow(edges, p);
                lemma_path_grow(edges, q);
                lemma_path_concat(edges, p, q);
                assert(is_path(edges, p + q));
            } else {
                assert(root_after(prev, a) == rb && root_after(prev, b) == ra);
                lemma_root_iff_connected(prev, a, e.j);
                lemma_root_iff_connected(prev, e.i, b);
                let p = choose|p: Seq<usize>| #[trigger] is_path(prev, p) && p[0] == a && p.last() == e.j;
                let q = choose|q: Seq<usize>| #[trigger] is_path(prev, q) && q[0] == e.i && q.last() == b;
                lemma_path_grow(edges, p);
                lemma_path_grow(edges, q);
                lemma_path_concat(edges, p, q);
                assert(is_path(edges, p + q));
            }
        }
    }
}

/// The list of edge ends holds exactly the nodes that end an edge, each
/// once.
pub proof fn lemma_endpoint_seq_props(edges: Seq<CarveEdge>)
    ensures
        endpoint_seq(edges).no_duplicates(),
        forall|n: usize| #[trigger] endpoint_seq(edges).contains(n) <==> joined_any(edges, n),
    decreases edges.len(),
{
    if edges.len() > 0 {
        let prev = edges.drop_last();
        let e = edges.last();
        lemma_endpoint_seq_props(prev);
        let s0 = endpoint_seq(prev);
        let s1 = add_node(s0, e.i);
        let s2 = add_node(s1, e.j);
        assert(edges[edges.len() - 1] == e);
        assert forall|x: usize| #[trigger] s1.contains(x) <==> (s0.contains(x) || x == e.i) by {
            if !s0.contains(e.i) {
                if s1.contains(x) {
                    let w = choose|w: int| 0 <= w < s1.len() && s1[w] == x;
                    if w < s0.len() {
                        assert(s0[w] == x);
                    }
                }
                if s0.contains(x) {
                    let w = choose|w: int| 0 <= w < s0.len() && s0[w] == x;
                    assert(s1[w] == x);
                }
                assert(s1[s0.len() as int] == e.i);
            }
        }
        assert forall|x: usize| #[trigger] s2.contains(x) <==> (s1.contains(x) || x == e.j) by {
            if !s1.contains(e.j) {
                if s2.contains(x) {
                    let w = choose|w: int| 0 <= w < s2.len() && s2[w] == x;
                    if w < s1.len() {
                        assert(s1[w] == x);
                    }
                }
                if s1.contains(x) {
                    let w = choose|w: int| 0 <= w < s1.len() && s1[w] == x;
                    assert(s2[w] == x);
                }
                assert(s2[s1.len() as int] == e.j);
            }
        }
        assert(s1.no_duplicates());
        assert(s2.no_duplicates());
        assert forall|n: usize| #[trigger] s2.contains(n) <==> joined_any(edges, n) by {
            if joined_any(edges, n) {
                let k = choose|k: int| 0 <= k < edges.len() && ((#[trigger] edges[k]).i == n || edges[k].j == n);
                if k < edges.len() - 1 {
                    assert(prev[k] == edges[k]);
                    assert(joined_any(prev, n));
                }
            }
            if s0.contains(n) {
                let k = choose|k: int| 0 <= k < prev.len() && ((#[trigger] prev[k]).i == n || prev[k].j == n);
                assert(edges[k] == prev[k]);
            }
        }
    }
}

/// Counting the nodes of a list without repeats that have root `r`
/// counts a set.
pub proof fn lemma_count_rooted_set(s: Seq<usize>, edges: Seq<CarveEdge>, r: usize)
    requires
        s.no_duplicates(),
    ensures
        count_rooted(s, edges, r) == s.to_set().filter(|m: usize| root_after(edges, m) == r).len(),
    decreases s.len(),
{
    broadcast use vstd::set::group_set_axioms;
    let f = |m: usize| root_after(edges, m) == r;
    if s.len() == 0 {
        assert(s.to_set().filter(f) =~= Set::empty());
    } else {
        let prev = s.drop_last();
        let x = s.last();
        assert(prev.no_duplicates());
        lemma_count_rooted_set(prev, edges, r);
        assert(s =~= prev.push(x));
        Seq::<usize>::lemma_to_set_insert_commutes(prev, x);
        assert(prev + seq![x] =~= s);
        assert(!prev.contains(x)) by {
            if prev.contains(x) {
                let w = choose|w: int| 0 <= w < prev.len() && prev[w] == x;
                assert(s[w] == s[s.len() - 1]);
            }
        }
        vstd::seq_lib::seq_to_set_is_finite(prev);
        let fp = prev.to_set().filter(f);
        vstd::set_lib::lemma_set_subset_finite(prev.to_set(), fp);
        if f(x) {
            assert(s.to_set().filter(f) =~= fp.insert(x));
        } else {
            assert(s.to_set().filter(f) =~= fp);
        }
    }
}

/// Lists holding the same edges give every node the same component size,
/// and the same edge ends.
pub proof fn lemma_component_map_same(e1: Seq<CarveEdge>, e2: Seq<CarveEdge>)
    requires
        forall|x: CarveEdge| #[trigger] e1.contains(x) <==> e2.contains(x),
    ensures
        component_map(e1) == component_map(e2),
{
    lemma_endpoint_seq_props(e1);
    lemma_endpoint_seq_props(e2);
    assert forall|a: usize, b: usize| #[trigger] joined(e1, a, b) == joined(e2, a, b) by {
        if joined(e1, a, b) {
            let k = choose|k: int| 0 <= k < e1.len() && joins(#[trigger] e1[k], a, b);
            assert(e1.contains(e1[k]));
            let l = choose|l: int| 0 <= l < e2.len() && e2[l] == e1[k];
            assert(joins(e2[l], a, b));
        }
        if joined(e2, a, b) {
            let k = choose|k: int| 0 <= k < e2.len() && joins(#[trigger] e2[k], a, b);
            assert(e2.contains(e2[k]));
            assert(e1.contains(e2[k]));
            let l = choose|l: int| 0 <= l < e1.len() && e1[l] == e2[k];
            assert(joins(e1[l], a, b));
        }
    }
    assert forall|n: usize| #[trigger] joined_any(e1, n) == joined_any(e2, n) by {
        if joined_any(e1, n) {
            let k = choose|k: int| 0 <= k < e1.len() && ((#[trigger] e1[k]).i == n || e1[k].j == n);
            assert(e1.contains(e1[k]));
            let l = choose|l: int| 0 <= l < e2.len() && e2[l] == e1[k];
            assert(e2[l].i == n || e2[l].j == n);
        }
        if joined_any(e2, n) {
            let k = choose|k: int| 0 <= k < e2.len() && ((#[trigger] e2[k]).i == n || e2[k].j == n);
            assert(e2.contains(e2[k]));
            assert(e1.contains(e2[k]));
            let l = choose|l: int| 0 <= l < e1.len() && e1[l] == e2[k];
            assert(e1[l].i == n || e1[l].j == n);
        }
    }
    assert forall|a: usize, b: usize| #[trigger] connected(e1, a, b) == connected(e2, a, b) by {
        assert forall|p: Seq<usize>| #[trigger] is_path(e1, p) == is_path(e2, p) by {
            if is_path(e1, p) {
                assert forall|k: int| 0 <= k < p.len() - 1 implies joined(e2, #[trigger] p[k], p[k + 1]) by {
                    assert(joined(e1, p[k], p[k + 1]));
                }
            }
            if is_path(e2, p) {
                assert forall|k: int| 0 <= k < p.len() - 1 implies joined(e1, #[trigger] p[k], p[k + 1]) by {
                    assert(joined(e2, p[k], p[k + 1]));
                }
            }
        }
        if connected(e1, a, b) {
            let p = choose|p: Seq<usize>| #[trigger] is_path(e1, p) && p[0] == a && p.last() == b;
            assert(is_path(e2, p));
        }
        if connected(e2, a, b) {
            let p = choose|p: Seq<usize>| #[trigger] is_path(e2, p) && p[0] == a && p.last() == b;
            assert(is_path(e1, p));
        }
    }
    let s1 = endpoint_seq(e1);
    let s2 = endpoint_seq(e2);
    assert(s1.to_set() =~= s2.to_set()) by {
        assert forall|n: usize| s1.to_set().contains(n) <==> s2.to_set().contains(n) by {
            assert(s1.contains(n) == joined_any(e1, n));
            assert(s2.contains(n) == joined_any(e2, n));
        }
    }
    assert forall|n: usize| #[trigger] component_size(e1, n) == component_size(e2, n) by {
        let r1 = root_after(e1, n);
        let r2 = root_after(e2, n);
        lemma_count_rooted_set(s1, e1, r1);
        lemma_count_rooted_set(s2, e2, r2);
        let f1 = |m: usize| root_after(e1, m) == r1;
        let f2 = |m: usize| root_after(e2, m) == r2;
        assert forall|m: usize| #[trigger] f1(m) == f2(m) by {
            lemma_root_iff_connected(e1, m, n);
            lemma_root_iff_connected(e2, m, n);
        }
        assert(s1.to_set().filter(f1) =~= s2.to_set().filter(f2));
    }
    assert(component_map(e1) =~= component_map(e2)) by {
        assert forall|n: usize| #[trigger] s1.contains(n) == s2.contains(n) by {
            assert(s1.contains(n) == joined_any(e1, n));
            assert(s2.contains(n) == joined_any(e2, n));
        }
    }
}


/// The edges of `vs` that no clique absorbs, in order.
pub open spec fn residual_visit(of: Map<usize, usize>, vs: Seq<CarveEdge>) -> Seq<CarveEdge>
    decreases vs.len(),
{
    if vs.len() == 0 {
        Seq::empty()
    } else {
        residual_visit(of, vs.drop_last()) + if absorbed(of, vs.last()) {
            Seq::empty()
        } else {
            seq![vs.last()]
        }
    }
}

/// The residual positions name the unabsorbed edges the order visits.
pub proof fn lemma_residual_visit(edges: Seq<CarveEdge>, of: Map<usize, usize>, order: Seq<usize>)
    requires
        forall|p: int| 0 <= p < order.len() ==> #[trigger] order[p] < edges.len(),
    ensures
        visited(edges, residual_spec(edges, of, order)) == residual_visit(of, visited(edges, order)),
    decreases order.len(),
{
    if order.len() > 0 {
        let prev = order.drop_last();
        assert forall|p: int| 0 <= p < prev.len() implies #[trigger] prev[p] < edges.len() by {
            assert(prev[p] == order[p]);
        }
        lemma_residual_visit(edges, of, prev);
        let vo = visited(edges, order);
        assert(vo.drop_last() =~= visited(edges, prev));
        assert(order[order.len() - 1] == order.last());
        assert(vo.last() == edges[order.last() as int]);
        let rp = residual_spec(edges, of, prev);
        let tail = if absorbed(of, edges[order.last() as int]) { Seq::<usize>::empty() } else { seq![order.last()] };
        assert(residual_spec(edges, of, order) == rp + tail);
        assert(visited(edges, rp + tail) =~= visited(edges, rp) + visited(edges, tail));
        if absorbed(of, edges[order.last() as int]) {
            assert(visited(edges, tail) =~= Seq::<CarveEdge>::empty());
        } else {
            assert(visited(edges, tail) =~= seq![vo.last()]);
        }
    }
}

/// A row's weakest edge depends only on the ranks.
proof fn lemma_row_min_same(
    g1: Map<usize, Seq<(usize, u64)>>,
    g2: Map<usize, Seq<(usize, u64)>>,
    a: usize,
    t: Seq<usize>,
)
    requires
        same_ranks(g1, g2),
    ensures
        row_min(g1, a, t) == row_min(g2, a, t),
    decreases t.len(),
{
    if t.len() > 0 {
        lemma_row_min_same(g1, g2, a, t.drop_last());
        assert(rank_between(g1, a, t.last()) == rank_between(g2, a, t.last()));
    }
}

/// The weakest pair depends only on the ranks.
proof fn lemma_pairs_min_same(
    g1: Map<usize, Seq<(usize, u64)>>,
    g2: Map<usize, Seq<(usize, u64)>>,
    s: Seq<usize>,
    n: int,
)
    requires
        same_ranks(g1, g2),
    ensures
        pairs_min(g1, s, n) == pairs_min(g2, s, n),
    decreases n,
{
    if n > 0 {
        lemma_pairs_min_same(g1, g2, s, n - 1);
        lemma_row_min_same(g1, g2, s[n - 1], s.skip(n));
    }
}

/// Carving does not depend on the order in which the edges are listed.
/// For a simple graph and distinct node identities, two lists holding
/// the same edges carve the same cliques with the same scores, assign
/// every node to the same clique, and leave the same edges, in the same
/// order, as pairs.
pub proof fn lemma_carving_ignores_edge_order(
    e1: Seq<CarveEdge>,
    e2: Seq<CarveEdge>,
    ident: Seq<u64>,
    cap: usize,
    o1: Seq<usize>,
    o2: Seq<usize>,
)
    requires
        e1.len() <= usize::MAX,
        e1.to_multiset() == e2.to_multiset(),
        simple_graph(e1),
        simple_graph(e2),
        distinct_idents(ident),
        ends_below(e1, ident.len() as int),
        ends_below(e2, ident.len() as int),
        is_carving_order(e1, ident, o1),
        is_carving_order(e2, ident, o2),
    ensures
        ({
            let (cl1, of1) = carve_from(e1, adjacency_of(e1), ident, component_map(e1), cap, o1);
            let (cl2, of2) = carve_from(e2, adjacency_of(e2), ident, component_map(e2), cap, o2);
            &&& cl1 == cl2
            &&& of1 == of2
            &&& scores_of(adjacency_of(e1), cl1) == scores_of(adjacency_of(e2), cl2)
            &&& visited(e1, residual_spec(e1, of1, o1)) == visited(e2, residual_spec(e2, of2, o2))
        }),
{
    broadcast use vstd::seq_lib::group_to_multiset_ensures;
    assert forall|x: CarveEdge| #[trigger] e1.contains(x) <==> e2.contains(x) by {
        vstd::seq_lib::to_multiset_contains(e1, x);
        vstd::seq_lib::to_multiset_contains(e2, x);
        assert(e1.to_multiset().count(x) == e2.to_multiset().count(x));
    }
    assert(e2.len() == e1.len()) by {
        vstd::seq_lib::to_multiset_len(e1);
        vstd::seq_lib::to_multiset_len(e2);
    }
    let g1 = adjacency_of(e1);
    let g2 = adjacency_of(e2);
    lemma_adjacency_same(e1, e2);
    assert(nodes_below(g1, ident.len() as int)) by {
        assert forall|a: usize, k: int| g1.contains_key(a) && 0 <= k < g1[a].len() implies (#[trigger] g1[a][k]).0 < ident.len() by {
            lemma_entries_below(e1, a, ident.len() as int);
        }
    }
    assert(nodes_below(g2, ident.len() as int)) by {
        assert forall|a: usize, k: int| g2.contains_key(a) && 0 <= k < g2[a].len() implies (#[trigger] g2[a][k]).0 < ident.len() by {
            lemma_entries_below(e2, a, ident.len() as int);
        }
    }
    lemma_component_map_same(e1, e2);
    lemma_visited_sorted(e1, ident, o1);
    lemma_visited_sorted(e2, ident, o2);
    let v1 = visited(e1, o1);
    let v2 = visited(e2, o2);
    assert forall|x: CarveEdge| #[trigger] v1.contains(x) <==> v2.contains(x) by {
        assert(v1.contains(x) == e1.contains(x));
        assert(v2.contains(x) == e2.contains(x));
    }
    lemma_sorted_unique(v1, v2, ident);
    assert forall|p: int| 0 <= p < o1.len() implies e1[#[trigger] o1[p] as int] == e2[o2[p] as int] by {
        assert(v1[p] == v2[p]);
    }
    let comp = component_map(e1);
    lemma_carve_from_same(e1, e2, g1, g2, ident, comp, cap, o1, o2);
    let (cl, of) = carve_from(e1, g1, ident, comp, cap, o1);
    assert(scores_of(g1, cl) =~= scores_of(g2, cl)) by {
        assert forall|q: int| 0 <= q < cl.len() implies #[trigger] clique_score(g1, cl[q]) == clique_score(g2, cl[q]) by {
            lemma_pairs_min_same(g1, g2, cl[q], cl[q].len() as int);
        }
    }
    lemma_residual_visit(e1, of, o1);
    lemma_residual_visit(e2, of, o2);
}

} // verus!
