//! What carving guarantees: every carved clique is a clique of the edge
//! graph, no node is in two cliques, members are ordered by identity,
//! each clique is maximal among the nodes still unassigned when it was
//! carved, capped components are left alone, and every edge is either
//! absorbed by one clique or reported as a pair.
use vstd::prelude::*;

use super::carving::{
    adjacency_of, beats, best_among, best_candidate, entries_at, entry_rank, grown, ins_pos,
    lemma_best_among_from, lemma_ins_pos_bounds, lemma_sort_len, min_into, nb, nbr_entries,
    rank_between, sort_by_ident, CarveEdge, assign, carve_from, component_map, component_size,
    count_rooted, endpoint_seq, lemma_count_rooted_bound, lemma_endpoint_seq_has, root_after,
    add_node, absorbed, residual_spec, is_carving_order, ends_below, clique_score, pairs_min,
    row_min, min_rank,
};

verus! {

/// Edge `e` joins `a` and `b`, in either direction.
pub open spec fn joins(e: CarveEdge, a: usize, b: usize) -> bool {
    (e.i == a && e.j == b) || (e.i == b && e.j == a)
}

/// Some edge of the list joins `a` and `b`.
pub open spec fn joined(edges: Seq<CarveEdge>, a: usize, b: usize) -> bool {
    exists|k: int| 0 <= k < edges.len() && joins(#[trigger] edges[k], a, b)
}

/// A list has an entry for `b` exactly when its first one has a rank.
pub proof fn lemma_entry_rank_some(s: Seq<(usize, u64)>, b: usize)
    ensures
        entry_rank(s, b) is Some <==> exists|t: int| 0 <= t < s.len() && (#[trigger] s[t]).0 == b,
    decreases s.len(),
{
    if s.len() > 0 {
        lemma_entry_rank_some(s.drop_last(), b);
        if exists|t: int| 0 <= t < s.len() && (#[trigger] s[t]).0 == b {
            let t = choose|t: int| 0 <= t < s.len() && (#[trigger] s[t]).0 == b;
            if t < s.len() - 1 {
                assert(s.drop_last()[t].0 == b);
            }
        }
        if exists|t: int| 0 <= t < s.drop_last().len() && (#[trigger] s.drop_last()[t]).0 == b {
            let t = choose|t: int| 0 <= t < s.drop_last().len() && (#[trigger] s.drop_last()[t]).0 == b;
            assert(s[t].0 == b);
        }
    }
}

/// Node `a`'s list has an entry for `b` exactly when an edge joins them.
pub proof fn lemma_nbr_entries_join(edges: Seq<CarveEdge>, a: usize, b: usize)
    ensures
        (exists|t: int| 0 <= t < nbr_entries(edges, a).len() && (#[trigger] nbr_entries(edges, a)[t]).0 == b)
            <==> joined(edges, a, b),
    decreases edges.len(),
{
    if edges.len() > 0 {
        let prev = edges.drop_last();
        let e = edges.last();
        lemma_nbr_entries_join(prev, a, b);
        let s = nbr_entries(prev, a);
        let t = entries_at(e, a);
        let all = nbr_entries(edges, a);
        assert(all == s + t);
        if e.i == a && e.j == a {
            assert(t =~= seq![(e.j, e.rank), (e.i, e.rank)]);
        } else if e.i == a {
            assert(t =~= seq![(e.j, e.rank)]);
        } else if e.j == a {
            assert(t =~= seq![(e.i, e.rank)]);
        } else {
            assert(t =~= Seq::<(usize, u64)>::empty());
        }
        if exists|w: int| 0 <= w < all.len() && (#[trigger] all[w]).0 == b {
            let w = choose|w: int| 0 <= w < all.len() && (#[trigger] all[w]).0 == b;
            if w < s.len() {
                assert(s[w].0 == b);
                let k = choose|k: int| 0 <= k < prev.len() && joins(#[trigger] prev[k], a, b);
                assert(edges[k] == prev[k]);
            } else {
                assert(joins(edges[edges.len() - 1], a, b));
            }
        }
        if joined(edges, a, b) {
            let k = choose|k: int| 0 <= k < edges.len() && joins(#[trigger] edges[k], a, b);
            if k < edges.len() - 1 {
                assert(prev[k] == edges[k]);
                assert(joined(prev, a, b));
                let w = choose|w: int| 0 <= w < s.len() && (#[trigger] s[w]).0 == b;
                assert(all[w] == s[w]);
            } else {
                assert(edges[k] == e);
                if e.i == a {
                    assert(all[s.len() as int] == t[0]);
                } else {
                    assert(all[s.len() as int] == t[0]);
                }
            }
        }
    }
}

/// In the adjacency of an edge list, `a` has a rank to `b` exactly when
/// an edge joins them; so adjacency is symmetric.
pub proof fn lemma_adjacent(edges: Seq<CarveEdge>, a: usize, b: usize)
    ensures
        rank_between(adjacency_of(edges), a, b) is Some <==> joined(edges, a, b),
        rank_between(adjacency_of(edges), a, b) is Some <==> rank_between(adjacency_of(edges), b, a) is Some,
{
    let g = adjacency_of(edges);
    assert(nb(g, a) == nbr_entries(edges, a));
    assert(nb(g, b) == nbr_entries(edges, b));
    lemma_entry_rank_some(nbr_entries(edges, a), b);
    lemma_entry_rank_some(nbr_entries(edges, b), a);
    lemma_nbr_entries_join(edges, a, b);
    lemma_nbr_entries_join(edges, b, a);
    if joined(edges, a, b) {
        let k = choose|k: int| 0 <= k < edges.len() && joins(#[trigger] edges[k], a, b);
        assert(joins(edges[k], b, a));
    }
    if joined(edges, b, a) {
        let k = choose|k: int| 0 <= k < edges.len() && joins(#[trigger] edges[k], b, a);
        assert(joins(edges[k], a, b));
    }
}


/// Adjacency in `g` goes both ways.
pub open spec fn symmetric(g: Map<usize, Seq<(usize, u64)>>) -> bool {
    forall|a: usize, b: usize| #[trigger] rank_between(g, a, b) is Some <==> rank_between(g, b, a) is Some
}

/// Every two distinct members are joined by an edge.
pub open spec fn is_clique(g: Map<usize, Seq<(usize, u64)>>, s: Seq<usize>) -> bool {
    forall|x: usize, y: usize|
        #![trigger s.contains(x), s.contains(y)]
        #![trigger rank_between(g, x, y)]
        s.contains(x) && s.contains(y) && x != y ==> rank_between(g, x, y) is Some
}

/// A candidate has a weakest edge into the clique exactly when every
/// member has an edge to it.
pub proof fn lemma_min_into_some(g: Map<usize, Seq<(usize, u64)>>, s: Seq<usize>, c: usize)
    ensures
        min_into(g, s, c) is Some <==> forall|m: usize| #[trigger] s.contains(m) ==> rank_between(g, m, c) is Some,
    decreases s.len(),
{
    if s.len() > 0 {
        let prev = s.drop_last();
        lemma_min_into_some(g, prev, c);
        assert(s =~= prev.push(s.last()));
        if forall|m: usize| #[trigger] s.contains(m) ==> rank_between(g, m, c) is Some {
            assert forall|m: usize| #[trigger] prev.contains(m) implies rank_between(g, m, c) is Some by {
                let w = choose|w: int| 0 <= w < prev.len() && prev[w] == m;
                assert(s[w] == m);
                assert(s.contains(m));
            }
            assert(s[s.len() - 1] == s.last());
            assert(s.contains(s.last()));
        }
        if min_into(g, s, c) is Some {
            assert forall|m: usize| #[trigger] s.contains(m) implies rank_between(g, m, c) is Some by {
                let w = choose|w: int| 0 <= w < s.len() && s[w] == m;
                if w < s.len() - 1 {
                    assert(prev[w] == m);
                    assert(prev.contains(m));
                }
            }
        }
    }
}

/// Growing keeps a clique of unassigned nodes a clique of unassigned
/// nodes, and keeps every member it started with in front.
pub proof fn lemma_grown_clique(
    g: Map<usize, Seq<(usize, u64)>>,
    ident: Seq<u64>,
    taken: Map<usize, usize>,
    clique: Seq<usize>,
    fuel: nat,
)
    requires
        symmetric(g),
        clique.len() > 0,
        is_clique(g, clique),
        forall|x: usize| #[trigger] clique.contains(x) ==> !taken.contains_key(x),
    ensures
        is_clique(g, grown(g, ident, taken, clique, fuel)),
        forall|x: usize| #[trigger] grown(g, ident, taken, clique, fuel).contains(x) ==> !taken.contains_key(x),
        grown(g, ident, taken, clique, fuel).len() >= clique.len(),
        grown(g, ident, taken, clique, fuel).take(clique.len() as int) == clique,
    decreases fuel,
{
    if fuel > 0 {
        match best_candidate(g, ident, taken, clique) {
            None => {
                assert(clique.take(clique.len() as int) =~= clique);
            },
            Some(c) => {
                lemma_best_among_from(g, ident, taken, clique, nb(g, clique[0]));
                lemma_min_into_some(g, clique, c);
                let next = clique.push(c);
                assert forall|x: usize| #[trigger] next.contains(x) <==> (clique.contains(x) || x == c) by {
                    if next.contains(x) {
                        let w = choose|w: int| 0 <= w < next.len() && next[w] == x;
                        if w < clique.len() {
                            assert(clique[w] == x);
                        }
                    }
                    if clique.contains(x) {
                        let w = choose|w: int| 0 <= w < clique.len() && clique[w] == x;
                        assert(next[w] == x);
                    }
                    if x == c {
                        assert(next[clique.len() as int] == x);
                    }
                }
                assert(is_clique(g, next)) by {
                    assert forall|x: usize, y: usize| next.contains(x) && next.contains(y) && x != y implies #[trigger] rank_between(g, x, y) is Some by {
                        if x == c {
                            assert(rank_between(g, y, x) is Some);
                        } else if y == c {
                        } else {
                            assert(clique.contains(x) && clique.contains(y));
                        }
                    }
                }
                lemma_grown_clique(g, ident, taken, next, (fuel - 1) as nat);
                let gr = grown(g, ident, taken, next, (fuel - 1) as nat);
                assert(gr.take(clique.len() as int) =~= gr.take(next.len() as int).take(clique.len() as int));
                assert(next.take(clique.len() as int) =~= clique);
            },
        }
    } else {
        assert(clique.take(clique.len() as int) =~= clique);
    }
}

/// Where `x` is inserted into a list sorted by identity: after every
/// element not above it, before every element above it.
pub proof fn lemma_ins_pos_split(t: Seq<usize>, x: usize, ident: Seq<u64>)
    requires
        forall|p: int, q: int| 0 <= p < q < t.len() ==> ident[#[trigger] t[p] as int] <= ident[#[trigger] t[q] as int],
    ensures
        0 <= ins_pos(t, x, ident) <= t.len(),
        forall|k: int| 0 <= k < ins_pos(t, x, ident) ==> ident[#[trigger] t[k] as int] <= ident[x as int],
        forall|k: int| ins_pos(t, x, ident) <= k < t.len() ==> ident[#[trigger] t[k] as int] > ident[x as int],
    decreases t.len(),
{
    lemma_ins_pos_bounds(t, x, ident);
    if t.len() > 0 {
        let prev = t.drop_last();
        if ident[t.last() as int] > ident[x as int] {
            assert forall|p: int, q: int| 0 <= p < q < prev.len() implies ident[#[trigger] prev[p] as int] <= ident[#[trigger] prev[q] as int] by {
                assert(prev[p] == t[p] && prev[q] == t[q]);
            }
            lemma_ins_pos_split(prev, x, ident);
            assert forall|k: int| 0 <= k < ins_pos(t, x, ident) implies ident[#[trigger] t[k] as int] <= ident[x as int] by {
                assert(t[k] == prev[k]);
            }
            assert forall|k: int| ins_pos(t, x, ident) <= k < t.len() implies ident[#[trigger] t[k] as int] > ident[x as int] by {
                if k < t.len() - 1 {
                    assert(t[k] == prev[k]);
                }
            }
        } else {
            assert forall|k: int| 0 <= k < ins_pos(t, x, ident) implies ident[#[trigger] t[k] as int] <= ident[x as int] by {
                if k < t.len() - 1 {
                    assert(ident[t[k] as int] <= ident[t[t.len() - 1] as int]);
                }
            }
        }
    }
}

/// Sorting by identity leaves the list in ascending identity order.
pub proof fn lemma_sort_sorted(s: Seq<usize>, ident: Seq<u64>)
    ensures
        forall|p: int, q: int|
            0 <= p < q < sort_by_ident(s, ident).len() ==> ident[#[trigger] sort_by_ident(s, ident)[p] as int]
                <= ident[#[trigger] sort_by_ident(s, ident)[q] as int],
    decreases s.len(),
{
    if s.len() > 0 {
        let t = sort_by_ident(s.drop_last(), ident);
        lemma_sort_sorted(s.drop_last(), ident);
        let x = s.last();
        lemma_ins_pos_split(t, x, ident);
        lemma_ins_pos_bounds(t, x, ident);
        let ip = ins_pos(t, x, ident);
        let u = t.insert(ip, x);
        assert(u == sort_by_ident(s, ident));
        assert forall|p: int, q: int| 0 <= p < q < u.len() implies ident[#[trigger] u[p] as int] <= ident[#[trigger] u[q] as int] by {
            if q < ip {
                assert(u[p] == t[p] && u[q] == t[q]);
            } else if q == ip {
                assert(u[p] == t[p]);
            } else if p < ip {
                assert(u[p] == t[p] && u[q] == t[q - 1]);
            } else if p == ip {
                assert(u[q] == t[q - 1]);
            } else {
                assert(u[p] == t[p - 1] && u[q] == t[q - 1]);
            }
        }
    }
}


/// The nodes in `a`'s neighbour list.
pub open spec fn nb_nodes(g: Map<usize, Seq<(usize, u64)>>, a: usize) -> Set<usize> {
    nb(g, a).map_values(|p: (usize, u64)| p.0).to_set()
}

/// How many neighbours of `a` the clique does not yet hold.
pub open spec fn room(g: Map<usize, Seq<(usize, u64)>>, a: usize, clique: Seq<usize>) -> nat {
    nb_nodes(g, a).difference(clique.to_set()).len()
}

/// No admissible entry is left when the preferred one is `None`.
pub proof fn lemma_best_among_none(
    g: Map<usize, Seq<(usize, u64)>>,
    ident: Seq<u64>,
    taken: Map<usize, usize>,
    clique: Seq<usize>,
    cands: Seq<(usize, u64)>,
)
    requires
        best_among(g, ident, taken, clique, cands) is None,
    ensures
        forall|k: int|
            0 <= k < cands.len() ==> taken.contains_key(#[trigger] cands[k].0) || clique.contains(cands[k].0)
                || min_into(g, clique, cands[k].0) is None,
    decreases cands.len(),
{
    if cands.len() > 0 {
        let prev = cands.drop_last();
        let c = cands.last().0;
        if !(taken.contains_key(c) || clique.contains(c)) && min_into(g, clique, c) is Some {
            assert(beats(min_into(g, clique, c)->0, c, best_among(g, ident, taken, clique, prev), ident) || best_among(g, ident, taken, clique, prev) is Some);
        }
        assert(best_among(g, ident, taken, clique, prev) is None);
        lemma_best_among_none(g, ident, taken, clique, prev);
        assert forall|k: int| 0 <= k < cands.len() implies taken.contains_key(#[trigger] cands[k].0) || clique.contains(cands[k].0)
            || min_into(g, clique, cands[k].0) is None by {
            if k < cands.len() - 1 {
                assert(prev[k] == cands[k]);
            }
        }
    }
}

/// With at least `room` rounds left, growing stops because no candidate
/// is left, not because the rounds run out.
pub proof fn lemma_fuel_enough(
    g: Map<usize, Seq<(usize, u64)>>,
    ident: Seq<u64>,
    taken: Map<usize, usize>,
    clique: Seq<usize>,
    fuel: nat,
)
    requires
        clique.len() > 0,
        fuel >= room(g, clique[0], clique),
    ensures
        grown(g, ident, taken, clique, fuel).len() > 0,
        grown(g, ident, taken, clique, fuel)[0] == clique[0],
        best_candidate(g, ident, taken, grown(g, ident, taken, clique, fuel)) is None,
    decreases fuel,
{
    broadcast use vstd::set::group_set_axioms;
    let a = clique[0];
    let nodes = nb_nodes(g, a);
    let d = nodes.difference(clique.to_set());
    vstd::seq_lib::seq_to_set_is_finite(nb(g, a).map_values(|p: (usize, u64)| p.0));
    vstd::set_lib::lemma_set_subset_finite(nodes, d);
    match best_candidate(g, ident, taken, clique) {
        None => {},
        Some(c) => {
            lemma_best_among_from(g, ident, taken, clique, nb(g, a));
            let k = choose|k: int| 0 <= k < nb(g, a).len() && #[trigger] nb(g, a)[k].0 == c;
            assert(nb(g, a).map_values(|p: (usize, u64)| p.0)[k] == c);
            assert(nodes.contains(c));
            assert(!clique.to_set().contains(c));
            assert(d.contains(c));
            if fuel == 0 {
                assert(d.len() == 0);
                d.lemma_len0_is_empty();
                assert(false);
            } else {
                let next = clique.push(c);
                assert(next[0] == a);
                assert(next.to_set() =~= clique.to_set().insert(c)) by {
                    Seq::<usize>::lemma_to_set_insert_commutes(clique, c);
                    assert(clique + seq![c] =~= next);
                }
                assert(nodes.difference(next.to_set()) =~= d.remove(c));
                lemma_fuel_enough(g, ident, taken, next, (fuel - 1) as nat);
            }
        },
    }
}

/// A neighbour list has no more distinct nodes than entries.
pub proof fn lemma_room_bound(g: Map<usize, Seq<(usize, u64)>>, clique: Seq<usize>)
    requires
        clique.len() > 0,
    ensures
        room(g, clique[0], clique) <= nb(g, clique[0]).len(),
{
    let ms = nb(g, clique[0]).map_values(|p: (usize, u64)| p.0);
    ms.lemma_cardinality_of_set();
    vstd::seq_lib::seq_to_set_is_finite(ms);
    let d = nb_nodes(g, clique[0]).difference(clique.to_set());
    vstd::set_lib::lemma_len_subset(d, nb_nodes(g, clique[0]));
}

/// A grown clique is maximal: every node that is neither assigned nor a
/// member lacks an edge from some member.
pub proof fn lemma_grown_maximal(
    g: Map<usize, Seq<(usize, u64)>>,
    ident: Seq<u64>,
    taken: Map<usize, usize>,
    clique: Seq<usize>,
    x: usize,
)
    requires
        clique.len() > 0,
        !taken.contains_key(x),
        !grown(g, ident, taken, clique, nb(g, clique[0]).len()).contains(x),
    ensures
        exists|m: usize|
            #[trigger] grown(g, ident, taken, clique, nb(g, clique[0]).len()).contains(m) && rank_between(g, m, x) is None,
{
    let gr = grown(g, ident, taken, clique, nb(g, clique[0]).len());
    lemma_room_bound(g, clique);
    lemma_fuel_enough(g, ident, taken, clique, nb(g, clique[0]).len());
    lemma_best_among_none(g, ident, taken, gr, nb(g, gr[0]));
    lemma_min_into_some(g, gr, x);
    if forall|m: usize| #[trigger] gr.contains(m) ==> rank_between(g, m, x) is Some {
        assert(gr.contains(gr[0]));
        lemma_entry_rank_some(nb(g, gr[0]), x);
        let t = choose|t: int| 0 <= t < nb(g, gr[0]).len() && (#[trigger] nb(g, gr[0])[t]).0 == x;
        assert(taken.contains_key(nb(g, gr[0])[t].0) || gr.contains(x) || min_into(g, gr, x) is None);
        assert(false);
    }
}


/// What holds of the cliques carved along any list of edge positions.
pub open spec fn carve_inv(
    edges: Seq<CarveEdge>,
    ident: Seq<u64>,
    comp: Map<usize, usize>,
    cap: usize,
    cl: Seq<Seq<usize>>,
    of: Map<usize, usize>,
) -> bool {
    let g = adjacency_of(edges);
    &&& forall|q: int, x: usize|
        0 <= q < cl.len() ==> (#[trigger] cl[q].contains(x) <==> (of.contains_key(x) && of[x] == q))
    &&& forall|x: usize| #[trigger] of.contains_key(x) ==> of[x] < cl.len()
    &&& forall|q: int| 0 <= q < cl.len() ==> is_clique(g, #[trigger] cl[q])
    &&& forall|q: int| 0 <= q < cl.len() ==> (#[trigger] cl[q]).len() >= 2
    &&& forall|q: int, a: int, b: int|
        0 <= q < cl.len() && 0 <= a < b < cl[q].len() ==> ident[#[trigger] cl[q][a] as int]
            <= ident[#[trigger] cl[q][b] as int]
    &&& forall|q: int| 0 <= q < cl.len() ==> has_seed(edges, comp, cap, #[trigger] cl[q])
    &&& forall|q: int, x: usize|
        0 <= q < cl.len() && !(#[trigger] cl[q].contains(x)) && (forall|r: int| 0 <= r < q ==> !cl[r].contains(x))
            ==> exists|m: usize| #[trigger] cl[q].contains(m) && rank_between(g, m, x) is None
}

/// Some member ends an edge and lies in a component within the cap.
pub open spec fn has_seed(edges: Seq<CarveEdge>, comp: Map<usize, usize>, cap: usize, c: Seq<usize>) -> bool {
    exists|s: usize| #[trigger] c.contains(s) && comp[s] <= cap && joined_any(edges, s)
}

/// Node `s` ends some edge.
pub open spec fn joined_any(edges: Seq<CarveEdge>, s: usize) -> bool {
    exists|k: int| 0 <= k < edges.len() && ((#[trigger] edges[k]).i == s || edges[k].j == s)
}

/// The carving invariant holds along any list of edge positions.
pub proof fn lemma_carve_from(
    edges: Seq<CarveEdge>,
    ident: Seq<u64>,
    comp: Map<usize, usize>,
    cap: usize,
    order: Seq<usize>,
)
    requires
        forall|p: int| 0 <= p < order.len() ==> #[trigger] order[p] < edges.len(),
        order.len() <= usize::MAX,
    ensures
        carve_from(edges, adjacency_of(edges), ident, comp, cap, order).0.len() <= order.len(),
        carve_inv(
            edges,
            ident,
            comp,
            cap,
            carve_from(edges, adjacency_of(edges), ident, comp, cap, order).0,
            carve_from(edges, adjacency_of(edges), ident, comp, cap, order).1,
        ),
    decreases order.len(),
{
    let g = adjacency_of(edges);
    if order.len() > 0 {
        let prev = order.drop_last();
        assert forall|p: int| 0 <= p < prev.len() implies #[trigger] prev[p] < edges.len() by {
            assert(prev[p] == order[p]);
        }
        lemma_carve_from(edges, ident, comp, cap, prev);
        let (cl, of) = carve_from(edges, g, ident, comp, cap, prev);
        let x0 = order.last();
        assert(order[order.len() - 1] == x0);
        let e = edges[x0 as int];
        if !(comp[e.i] > cap || of.contains_key(e.i) || of.contains_key(e.j)) {
            let seed = seq![e.i, e.j];
            assert forall|a: usize, b: usize| #[trigger] rank_between(g, a, b) is Some <==> rank_between(g, b, a) is Some by {
                lemma_adjacent(edges, a, b);
            }
            assert(symmetric(g));
            assert(joins(edges[x0 as int], e.i, e.j));
            lemma_adjacent(edges, e.i, e.j);
            assert forall|x: usize| #[trigger] seed.contains(x) <==> (x == e.i || x == e.j) by {
                if x == e.j {
                    assert(seed[1] == x);
                }
                if x == e.i {
                    assert(seed[0] == x);
                }
            }
            assert(is_clique(g, seed));
            let fuel = nb(g, e.i).len();
            lemma_grown_clique(g, ident, of, seed, fuel);
            let gr = grown(g, ident, of, seed, fuel);
            let members = sort_by_ident(gr, ident);
            lemma_sort_len(gr, ident);
            lemma_sort_sorted(gr, ident);
            let id = cl.len();
            let ncl = cl.push(members);
            let nof = assign(of, members, id as usize);
            assert(gr.take(2) == seed);
            assert(gr[0] == e.i) by {
                assert(gr.take(2)[0] == gr[0]);
            }
            assert(gr.contains(e.i)) by {
                assert(gr.take(2)[0] == e.i);
            }
            assert(is_clique(g, members));
            assert(carve_inv(edges, ident, comp, cap, ncl, nof)) by {
                assert forall|x: usize| #[trigger] nof.contains_key(x) implies nof[x] < ncl.len() by {
                    if members.contains(x) {
                        assert(nof[x] == id);
                    } else {
                        assert(nof[x] == of[x]);
                    }
                }
                assert forall|q: int, x: usize| 0 <= q < ncl.len() implies (#[trigger] ncl[q].contains(x) <==> (nof.contains_key(x) && nof[x] == q)) by {
                    if q < cl.len() {
                        assert(ncl[q] == cl[q]);
                        if members.contains(x) {
                            assert(!of.contains_key(x));
                        }
                    } else {
                        assert(ncl[q] == members);
                        if !members.contains(x) && of.contains_key(x) {
                            assert(of[x] < cl.len());
                        }
                    }
                }
                assert forall|q: int| 0 <= q < ncl.len() implies has_seed(edges, comp, cap, #[trigger] ncl[q]) by {
                    if q < cl.len() {
                        assert(ncl[q] == cl[q]);
                    } else {
                        assert(ncl[q] == members);
                        assert(members.contains(e.i));
                        assert(joined_any(edges, e.i)) by {
                            assert(edges[x0 as int].i == e.i);
                        }
                        assert(ncl[q].contains(e.i) && comp[e.i] <= cap && joined_any(edges, e.i));
                    }
                }
                assert forall|q: int, x: usize|
                    0 <= q < ncl.len() && !(#[trigger] ncl[q].contains(x)) && (forall|r: int| 0 <= r < q ==> !ncl[r].contains(x))
                    implies exists|m: usize| #[trigger] ncl[q].contains(m) && rank_between(g, m, x) is None by {
                    if q < cl.len() {
                        assert(ncl[q] == cl[q]);
                        assert forall|r: int| 0 <= r < q implies !cl[r].contains(x) by {
                            assert(ncl[r] == cl[r]);
                        }
                    } else {
                        assert(ncl[q] == members);
                        assert(!of.contains_key(x)) by {
                            if of.contains_key(x) {
                                let r = of[x] as int;
                                assert(cl[r].contains(x));
                                assert(ncl[r] == cl[r]);
                            }
                        }
                        assert(!gr.contains(x));
                        lemma_grown_maximal(g, ident, of, seed, x);
                        let m = choose|m: usize| #[trigger] gr.contains(m) && rank_between(g, m, x) is None;
                        assert(members.contains(m));
                    }
                }
                assert forall|q: int, a: int, b: int| 0 <= q < ncl.len() && 0 <= a < b < ncl[q].len() implies ident[#[trigger] ncl[q][a] as int]
                    <= ident[#[trigger] ncl[q][b] as int] by {
                    if q < cl.len() {
                        assert(ncl[q] == cl[q]);
                    } else {
                        assert(ncl[q] == members);
                    }
                }
                assert forall|q: int| 0 <= q < ncl.len() implies is_clique(g, #[trigger] ncl[q]) by {
                    if q < cl.len() {
                        assert(ncl[q] == cl[q]);
                    } else {
                        assert(ncl[q] == members);
                    }
                }
                assert forall|q: int| 0 <= q < ncl.len() implies (#[trigger] ncl[q]).len() >= 2 by {
                    if q < cl.len() {
                        assert(ncl[q] == cl[q]);
                    } else {
                        assert(ncl[q] == members);
                    }
                }
            }
        }
    }
}


/// The ends of every edge share a root once all edges are merged.
pub proof fn lemma_edge_roots(edges: Seq<CarveEdge>)
    ensures
        forall|k: int| 0 <= k < edges.len() ==> root_after(edges, (#[trigger] edges[k]).i) == root_after(edges, edges[k].j),
    decreases edges.len(),
{
    if edges.len() > 0 {
        let prev = edges.drop_last();
        lemma_edge_roots(prev);
        assert forall|k: int| 0 <= k < edges.len() implies root_after(edges, (#[trigger] edges[k]).i) == root_after(edges, edges[k].j) by {
            if k < edges.len() - 1 {
                assert(prev[k] == edges[k]);
            }
        }
    }
}

/// Nodes joined by an edge lie in one component.
pub proof fn lemma_joined_same_component(edges: Seq<CarveEdge>, a: usize, b: usize)
    requires
        joined(edges, a, b),
    ensures
        root_after(edges, a) == root_after(edges, b),
        component_size(edges, a) == component_size(edges, b),
{
    lemma_edge_roots(edges);
    let k = choose|k: int| 0 <= k < edges.len() && joins(#[trigger] edges[k], a, b);
    assert(root_after(edges, edges[k].i) == root_after(edges, edges[k].j));
}

/// The list of edge ends holds at most two nodes per edge.
pub proof fn lemma_endpoint_seq_len(edges: Seq<CarveEdge>)
    ensures
        endpoint_seq(edges).len() <= 2 * edges.len(),
    decreases edges.len(),
{
    if edges.len() > 0 {
        lemma_endpoint_seq_len(edges.drop_last());
    }
}

/// Every carved clique is a clique of the edge graph; no node is in two
/// cliques; each clique has at least two members, in ascending identity
/// order; every member's component is within the cap; and each clique is
/// maximal: a node outside it and outside every clique carved before it
/// misses an edge to some member.
pub proof fn lemma_carved_cliques(edges: Seq<CarveEdge>, ident: Seq<u64>, cap: usize, order: Seq<usize>)
    requires
        2 * edges.len() <= usize::MAX,
        ends_below(edges, ident.len() as int),
        is_carving_order(edges, ident, order),
    ensures
        ({
            let cl = carve_from(edges, adjacency_of(edges), ident, component_map(edges), cap, order).0;
            &&& forall|q: int, x: usize, y: usize|
                0 <= q < cl.len() && #[trigger] cl[q].contains(x) && #[trigger] cl[q].contains(y) && x != y
                    ==> joined(edges, x, y)
            &&& forall|q1: int, q2: int, x: usize|
                0 <= q1 < q2 < cl.len() && #[trigger] cl[q1].contains(x) ==> !(#[trigger] cl[q2].contains(x))
            &&& forall|q: int| 0 <= q < cl.len() ==> (#[trigger] cl[q]).len() >= 2
            &&& forall|q: int, a: int, b: int|
                0 <= q < cl.len() && 0 <= a < b < cl[q].len() ==> ident[#[trigger] cl[q][a] as int]
                    <= ident[#[trigger] cl[q][b] as int]
            &&& forall|q: int, x: usize| 0 <= q < cl.len() && #[trigger] cl[q].contains(x) ==> component_size(edges, x) <= cap
            &&& forall|q: int, x: usize|
                0 <= q < cl.len() && !(#[trigger] cl[q].contains(x)) && (forall|r: int| 0 <= r < q ==> !cl[r].contains(x))
                    ==> exists|m: usize| #[trigger] cl[q].contains(m) && !joined(edges, m, x)
        }),
{
    let g = adjacency_of(edges);
    let comp = component_map(edges);
    lemma_carve_from(edges, ident, comp, cap, order);
    let (cl, of) = carve_from(edges, g, ident, comp, cap, order);
    assert forall|q: int, x: usize, y: usize|
        0 <= q < cl.len() && #[trigger] cl[q].contains(x) && #[trigger] cl[q].contains(y) && x != y
        implies joined(edges, x, y) by {
        assert(is_clique(g, cl[q]));
        lemma_adjacent(edges, x, y);
    }
    assert forall|q1: int, q2: int, x: usize|
        0 <= q1 < q2 < cl.len() && #[trigger] cl[q1].contains(x) implies !(#[trigger] cl[q2].contains(x)) by {
    }
    assert forall|q: int, x: usize| 0 <= q < cl.len() && #[trigger] cl[q].contains(x) implies component_size(edges, x) <= cap by {
        assert(has_seed(edges, comp, cap, cl[q]));
        let s = choose|s: usize| #[trigger] cl[q].contains(s) && comp[s] <= cap && joined_any(edges, s);
        let k = choose|k: int| 0 <= k < edges.len() && ((#[trigger] edges[k]).i == s || edges[k].j == s);
        lemma_endpoint_seq_has(edges, k);
        assert(comp.contains_key(s));
        lemma_count_rooted_bound(endpoint_seq(edges), edges, root_after(edges, s));
        lemma_endpoint_seq_len(edges);
        assert(component_size(edges, s) <= cap);
        if x != s {
            assert(is_clique(g, cl[q]));
            lemma_adjacent(edges, x, s);
            lemma_joined_same_component(edges, x, s);
        }
    }
    assert forall|q: int, x: usize|
        0 <= q < cl.len() && !(#[trigger] cl[q].contains(x)) && (forall|r: int| 0 <= r < q ==> !cl[r].contains(x))
        implies exists|m: usize| #[trigger] cl[q].contains(m) && !joined(edges, m, x) by {
        let m = choose|m: usize| #[trigger] cl[q].contains(m) && rank_between(g, m, x) is None;
        lemma_adjacent(edges, m, x);
    }
}

/// `x` is kept by the residual filter exactly when it is listed and not
/// absorbed.
pub proof fn lemma_residual_contains(edges: Seq<CarveEdge>, of: Map<usize, usize>, order: Seq<usize>, x: usize)
    ensures
        residual_spec(edges, of, order).contains(x) <==> (order.contains(x) && !absorbed(of, edges[x as int])),
    decreases order.len(),
{
    if order.len() > 0 {
        let prev = order.drop_last();
        lemma_residual_contains(edges, of, prev, x);
        let rp = residual_spec(edges, of, prev);
        let last = order.last();
        let tail = if absorbed(of, edges[last as int]) { Seq::<usize>::empty() } else { seq![last] };
        let r = rp + tail;
        assert(residual_spec(edges, of, order) == r);
        assert(order =~= prev.push(last));
        if r.contains(x) {
            let w = choose|w: int| 0 <= w < r.len() && r[w] == x;
            if w < rp.len() {
                assert(rp[w] == x);
                let v = choose|v: int| 0 <= v < prev.len() && prev[v] == x;
                assert(order[v] == x);
            } else {
                assert(tail[w - rp.len()] == x);
                assert(order[order.len() - 1] == x);
            }
        }
        if order.contains(x) && !absorbed(of, edges[x as int]) {
            let v = choose|v: int| 0 <= v < order.len() && order[v] == x;
            if v < order.len() - 1 {
                assert(prev[v] == x);
                let w = choose|w: int| 0 <= w < rp.len() && rp[w] == x;
                assert(r[w] == x);
            } else {
                assert(r[rp.len() as int] == x);
            }
        }
    }
}

/// Every edge is represented exactly once: it is reported as a pair
/// exactly when no carved clique holds both its ends.
pub proof fn lemma_carving_conserves_edges(edges: Seq<CarveEdge>, ident: Seq<u64>, cap: usize, order: Seq<usize>)
    requires
        edges.len() <= usize::MAX,
        is_carving_order(edges, ident, order),
    ensures
        ({
            let (cl, of) = carve_from(edges, adjacency_of(edges), ident, component_map(edges), cap, order);
            forall|x: usize|
                x < edges.len() ==> (#[trigger] residual_spec(edges, of, order).contains(x) <==> !exists|q: int|
                    0 <= q < cl.len() && #[trigger] cl[q].contains(edges[x as int].i) && cl[q].contains(edges[x as int].j))
        }),
{
    let comp = component_map(edges);
    lemma_carve_from(edges, ident, comp, cap, order);
    let (cl, of) = carve_from(edges, adjacency_of(edges), ident, comp, cap, order);
    assert forall|x: usize| x < edges.len() implies (#[trigger] residual_spec(edges, of, order).contains(x) <==> !exists|q: int|
        0 <= q < cl.len() && #[trigger] cl[q].contains(edges[x as int].i) && cl[q].contains(edges[x as int].j)) by {
        lemma_residual_contains(edges, of, order, x);
        let e = edges[x as int];
        assert(order.contains(x));
        if absorbed(of, e) {
            let q = of[e.i] as int;
            assert(cl[q].contains(e.i) && cl[q].contains(e.j));
        }
        if exists|q: int| 0 <= q < cl.len() && #[trigger] cl[q].contains(e.i) && cl[q].contains(e.j) {
            let q = choose|q: int| 0 <= q < cl.len() && #[trigger] cl[q].contains(e.i) && cl[q].contains(e.j);
            assert(absorbed(of, e));
        }
    }
}


/// A row's minimum is no stronger than any edge it covers, and when every
/// edge is present and the row is not empty it is one of them.
pub proof fn lemma_row_min(g: Map<usize, Seq<(usize, u64)>>, a: usize, t: Seq<usize>)
    ensures
        forall|k: int|
            0 <= k < t.len() ==> (rank_between(g, a, #[trigger] t[k]) matches Some(r) ==> row_min(g, a, t) <= r),
        t.len() > 0 && (forall|k: int| 0 <= k < t.len() ==> rank_between(g, a, #[trigger] t[k]) is Some) ==> exists|k: int|
            0 <= k < t.len() && rank_between(g, a, #[trigger] t[k]) == Some(row_min(g, a, t)),
    decreases t.len(),
{
    if t.len() > 0 {
        let prev = t.drop_last();
        lemma_row_min(g, a, prev);
        assert forall|k: int| 0 <= k < t.len() implies (rank_between(g, a, #[trigger] t[k]) matches Some(r) ==> row_min(g, a, t) <= r) by {
            if k < t.len() - 1 {
                assert(prev[k] == t[k]);
            }
        }
        if forall|k: int| 0 <= k < t.len() ==> rank_between(g, a, #[trigger] t[k]) is Some {
            assert(rank_between(g, a, t[t.len() - 1]) is Some);
            if prev.len() > 0 {
                assert forall|k: int| 0 <= k < prev.len() implies rank_between(g, a, #[trigger] prev[k]) is Some by {
                    assert(prev[k] == t[k]);
                }
                let k = choose|k: int| 0 <= k < prev.len() && rank_between(g, a, #[trigger] prev[k]) == Some(row_min(g, a, prev));
                assert(prev[k] == t[k]);
            }
        }
    }
}

/// A clique's score is no stronger than the edge between any two of its
/// members (taken from the earlier to the later), and, when every such
/// edge exists and there are two members, it is one of them.
pub proof fn lemma_clique_score(g: Map<usize, Seq<(usize, u64)>>, s: Seq<usize>)
    ensures
        forall|p: int, q: int|
            0 <= p < q < s.len() ==> (rank_between(g, #[trigger] s[p], #[trigger] s[q]) matches Some(r)
                ==> clique_score(g, s) <= r),
        s.len() >= 2 && (forall|p: int, q: int| 0 <= p < q < s.len() ==> rank_between(g, #[trigger] s[p], #[trigger] s[q]) is Some)
            ==> exists|p: int, q: int| 0 <= p < q < s.len() && rank_between(g, #[trigger] s[p], #[trigger] s[q]) == Some(clique_score(g, s)),
{
    lemma_pairs_min(g, s, s.len() as int);
}

proof fn lemma_pairs_min(g: Map<usize, Seq<(usize, u64)>>, s: Seq<usize>, n: int)
    requires
        0 <= n <= s.len(),
    ensures
        forall|p: int, q: int|
            0 <= p < n && p < q < s.len() ==> (rank_between(g, #[trigger] s[p], #[trigger] s[q]) matches Some(r)
                ==> pairs_min(g, s, n) <= r),
        n >= 1 && s.len() >= 2 && (forall|p: int, q: int| 0 <= p < q < s.len() ==> rank_between(g, #[trigger] s[p], #[trigger] s[q]) is Some)
            ==> exists|p: int, q: int| 0 <= p < q < s.len() && rank_between(g, #[trigger] s[p], #[trigger] s[q]) == Some(pairs_min(g, s, n)),
    decreases n,
{
    if n > 0 {
        lemma_pairs_min(g, s, n - 1);
        let a = s[n - 1];
        let t = s.skip(n);
        lemma_row_min(g, a, t);
        assert forall|p: int, q: int|
            0 <= p < n && p < q < s.len() implies (rank_between(g, #[trigger] s[p], #[trigger] s[q]) matches Some(r)
                ==> pairs_min(g, s, n) <= r) by {
            if p == n - 1 {
                assert(t[q - n] == s[q]);
            }
        }
        if n >= 1 && s.len() >= 2 && (forall|p: int, q: int| 0 <= p < q < s.len() ==> rank_between(g, #[trigger] s[p], #[trigger] s[q]) is Some) {
            let pm = pairs_min(g, s, n - 1);
            let rm = row_min(g, a, t);
            if t.len() > 0 {
                assert forall|k: int| 0 <= k < t.len() implies rank_between(g, a, #[trigger] t[k]) is Some by {
                    assert(t[k] == s[n + k]);
                    assert(rank_between(g, s[n - 1], s[n + k]) is Some);
                }
                let k = choose|k: int| 0 <= k < t.len() && rank_between(g, a, #[trigger] t[k]) == Some(rm);
                assert(t[k] == s[n + k]);
                if n - 1 == 0 || rm <= pm {
                    if n - 1 == 0 {
                        assert(pm == u64::MAX);
                    }
                    assert(rank_between(g, s[n - 1], s[n + k]) == Some(pairs_min(g, s, n)));
                } else {
                    assert(pairs_min(g, s, n) == pm);
                }
            } else {
                assert(rm == u64::MAX);
                assert(pairs_min(g, s, n) == pm);
                assert(n - 1 >= 1);
            }
        }
    }
}

} // verus!
