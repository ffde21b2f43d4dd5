//! Clique carving over the graph of pairwise near-matches.
//!
//! The graph's edges join two forms (by index) and carry a rank that
//! orders them by similarity: a larger rank is a more similar pair, and
//! equal ranks are equally similar. Nodes are ordered by an identity
//! rank. Carving seeds a clique at the best unassigned edge, grows it
//! greedily to maximality, and leaves every edge that no clique absorbs
//! as a residual pair.
use vstd::prelude::*;

use std::collections::BTreeMap;

use super::union_find::{uf_find, uf_root, uf_union, uf_wf};

verus! {

broadcast use {vstd::laws_cmp::group_laws_cmp, vstd::std_specs::btree::group_btree_axioms};

/// An edge between forms `i` and `j`, ranked by similarity.
#[derive(Clone, Copy, Debug, PartialEq, Eq)]
pub struct CarveEdge {
    pub i: usize,
    pub j: usize,
    pub rank: u64,
}

impl CarveEdge {
    /// An edge between `i` and `j` of the given rank.
    pub fn new(i: usize, j: usize, rank: u64) -> (r: Self)
        ensures
            r == (CarveEdge { i, j, rank }),
    {
        CarveEdge { i, j, rank }
    }
}

/// The neighbour entries that edge `e` adds to node `a`'s list.
pub open spec fn entries_at(e: CarveEdge, a: usize) -> Seq<(usize, u64)> {
    (if e.i == a {
        seq![(e.j, e.rank)]
    } else {
        Seq::empty()
    }) + (if e.j == a {
        seq![(e.i, e.rank)]
    } else {
        Seq::empty()
    })
}

/// Node `a`'s neighbour list: one entry per edge end at `a`, in edge
/// order.
pub open spec fn nbr_entries(edges: Seq<CarveEdge>, a: usize) -> Seq<(usize, u64)>
    decreases edges.len(),
{
    if edges.len() == 0 {
        Seq::empty()
    } else {
        nbr_entries(edges.drop_last(), a) + entries_at(edges.last(), a)
    }
}

/// The adjacency of an edge list: every node that ends an edge, with its
/// neighbour list.
pub open spec fn adjacency_of(edges: Seq<CarveEdge>) -> Map<usize, Seq<(usize, u64)>> {
    Map::new(|a: usize| nbr_entries(edges, a).len() > 0, |a: usize| nbr_entries(edges, a))
}

/// The lists of an adjacency map, taken as sequences.
pub open spec fn adj_view(adj: BTreeMap<usize, Vec<(usize, u64)>>) -> Map<usize, Seq<(usize, u64)>> {
    adj@.map_values(|v: Vec<(usize, u64)>| v@)
}

/// Node `a`'s neighbour list in `g`, empty for a node without one.
pub open spec fn nb(g: Map<usize, Seq<(usize, u64)>>, a: usize) -> Seq<(usize, u64)> {
    if g.contains_key(a) {
        g[a]
    } else {
        Seq::empty()
    }
}

/// The rank of the first entry for `b` in a neighbour list.
pub open spec fn entry_rank(s: Seq<(usize, u64)>, b: usize) -> Option<u64>
    decreases s.len(),
{
    if s.len() == 0 {
        None
    } else {
        match entry_rank(s.drop_last(), b) {
            Some(r) => Some(r),
            None => if s.last().0 == b {
                Some(s.last().1)
            } else {
                None
            },
        }
    }
}

/// The rank of the edge from `a` to `b`, if there is one.
pub open spec fn rank_between(g: Map<usize, Seq<(usize, u64)>>, a: usize, b: usize) -> Option<u64> {
    entry_rank(nb(g, a), b)
}

/// The smaller of two ranks.
pub open spec fn min_rank(a: u64, b: u64) -> u64 {
    if b < a {
        b
    } else {
        a
    }
}

/// The weakest edge from `cand` into the members of `clique`, or `None`
/// when some member has no edge to it.
pub open spec fn min_into(g: Map<usize, Seq<(usize, u64)>>, clique: Seq<usize>, cand: usize) -> Option<u64>
    decreases clique.len(),
{
    if clique.len() == 0 {
        Some(u64::MAX)
    } else {
        match (min_into(g, clique.drop_last(), cand), rank_between(g, clique.last(), cand)) {
            (Some(w), Some(r)) => Some(min_rank(w, r)),
            _ => None,
        }
    }
}

/// A candidate with weakest edge `worst` is preferred over `best`: a
/// stronger weakest edge wins, and a tie goes to the smaller identity.
pub open spec fn beats(worst: u64, cand: usize, best: Option<(u64, usize)>, ident: Seq<u64>) -> bool {
    match best {
        None => true,
        Some((bw, bc)) => worst > bw || (worst == bw && ident[cand as int] < ident[bc as int]),
    }
}

/// The preferred admissible candidate among `cands`: not assigned to a
/// clique, not a member, and joined to every member.
pub open spec fn best_among(
    g: Map<usize, Seq<(usize, u64)>>,
    ident: Seq<u64>,
    taken: Map<usize, usize>,
    clique: Seq<usize>,
    cands: Seq<(usize, u64)>,
) -> Option<(u64, usize)>
    decreases cands.len(),
{
    if cands.len() == 0 {
        None
    } else {
        let prev = best_among(g, ident, taken, clique, cands.drop_last());
        let c = cands.last().0;
        if taken.contains_key(c) || clique.contains(c) {
            prev
        } else {
            match min_into(g, clique, c) {
                None => prev,
                Some(w) => if beats(w, c, prev, ident) {
                    Some((w, c))
                } else {
                    prev
                },
            }
        }
    }
}

/// The next node to admit into `clique`, drawn from the neighbours of
/// its first member.
pub open spec fn best_candidate(
    g: Map<usize, Seq<(usize, u64)>>,
    ident: Seq<u64>,
    taken: Map<usize, usize>,
    clique: Seq<usize>,
) -> Option<usize> {
    match best_among(g, ident, taken, clique, nb(g, clique[0])) {
        Some((_, c)) => Some(c),
        None => None,
    }
}

/// `clique` after admitting the best candidate up to `fuel` times.
pub open spec fn grown(
    g: Map<usize, Seq<(usize, u64)>>,
    ident: Seq<u64>,
    taken: Map<usize, usize>,
    clique: Seq<usize>,
    fuel: nat,
) -> Seq<usize>
    decreases fuel,
{
    if fuel == 0 {
        clique
    } else {
        match best_candidate(g, ident, taken, clique) {
            None => clique,
            Some(c) => grown(g, ident, taken, clique.push(c), (fuel - 1) as nat),
        }
    }
}

/// Every neighbour named in `g` is below `n`.
pub open spec fn nodes_below(g: Map<usize, Seq<(usize, u64)>>, n: int) -> bool {
    forall|a: usize, k: int|
        g.contains_key(a) && 0 <= k < g[a].len() ==> (#[trigger] g[a][k]).0 < n
}

proof fn lemma_entries_push(edges: Seq<CarveEdge>, e: CarveEdge, a: usize)
    ensures
        nbr_entries(edges.push(e), a) == nbr_entries(edges, a) + entries_at(e, a),
{
    assert(edges.push(e).drop_last() =~= edges);
}

/// Append `(b, r)` to node `a`'s list.
fn push_entry(adj: &mut BTreeMap<usize, Vec<(usize, u64)>>, a: usize, b: usize, r: u64)
    ensures
        adj_view(*final(adj)) == adj_view(*old(adj)).insert(a, nb(adj_view(*old(adj)), a).push((b, r))),
{
    let ghost g = adj_view(*adj);
    let mut list = match adj.remove(&a) {
        Some(v) => v,
        None => Vec::new(),
    };
    assert(list@ == nb(g, a));
    list.push((b, r));
    adj.insert(a, list);
    assert(adj_view(*adj) =~= g.insert(a, nb(g, a).push((b, r))));
}

/// The adjacency of the edge graph: node to neighbour list.
pub fn build_adjacency(edges: &[CarveEdge]) -> (r: BTreeMap<usize, Vec<(usize, u64)>>)
    ensures
        adj_view(r) == adjacency_of(edges@),
{
    let mut adj: BTreeMap<usize, Vec<(usize, u64)>> = BTreeMap::new();
    let mut k: usize = 0;
    while k < edges.len()
        invariant
            k <= edges@.len(),
            adj_view(adj) =~= adjacency_of(edges@.take(k as int)),
        decreases edges@.len() - k,
    {
        let e = edges[k];
        let ghost before = adj_view(adj);
        push_entry(&mut adj, e.i, e.j, e.rank);
        let ghost mid = adj_view(adj);
        push_entry(&mut adj, e.j, e.i, e.rank);
        proof {
            let pre = edges@.take(k as int);
            let post = edges@.take(k + 1);
            assert(post =~= pre.push(e));
            assert forall|a: usize| #[trigger] nbr_entries(post, a) == nbr_entries(pre, a) + entries_at(e, a) by {
                lemma_entries_push(pre, e, a);
            }
            assert(adj_view(adj) =~= adjacency_of(post)) by {
                assert forall|a: usize| #[trigger] adj_view(adj).contains_key(a) == adjacency_of(post).contains_key(a) by {
                    if a == e.i || a == e.j {
                        assert(entries_at(e, a).len() > 0);
                    } else {
                        assert(entries_at(e, a) =~= Seq::<(usize, u64)>::empty());
                    }
                }
                assert forall|a: usize| #[trigger] adj_view(adj).contains_key(a) implies adj_view(adj)[a] == adjacency_of(post)[a] by {
                    if a == e.i && a == e.j {
                        assert(entries_at(e, a) =~= seq![(e.j, e.rank), (e.i, e.rank)]);
                    } else if a == e.i {
                        assert(entries_at(e, a) =~= seq![(e.j, e.rank)]);
                    } else if a == e.j {
                        assert(entries_at(e, a) =~= seq![(e.i, e.rank)]);
                    } else {
                        assert(entries_at(e, a) =~= Seq::<(usize, u64)>::empty());
                    }
                }
            }
        }
        k = k + 1;
    }
    assert(edges@.take(edges@.len() as int) =~= edges@);
    adj
}

/// The rank of the edge from `a` to `b`, looked up in `a`'s list.
pub fn rank_lookup(adj: &BTreeMap<usize, Vec<(usize, u64)>>, a: usize, b: usize) -> (r: Option<u64>)
    ensures
        r == rank_between(adj_view(*adj), a, b),
{
    let ghost g = adj_view(*adj);
    let list = match adj.get(&a) {
        Some(v) => v,
        None => {
            return None;
        },
    };
    assert(list@ == nb(g, a));
    let mut k: usize = 0;
    while k < list.len()
        invariant
            k <= list@.len(),
            g == adj_view(*adj),
            list@ == nb(g, a),
            entry_rank(list@.take(k as int), b) is None,
        decreases list@.len() - k,
    {
        assert(list@.take(k + 1).drop_last() =~= list@.take(k as int));
        if list[k].0 == b {
            proof {
                assert(list@.take(k + 1).last() == list@[k as int]);
                assert(entry_rank(list@.take(k + 1), b) == Some(list@[k as int].1));
                lemma_entry_rank_prefix(list@, k + 1, b);
            }
            return Some(list[k].1);
        }
        k = k + 1;
    }
    assert(list@.take(list@.len() as int) =~= list@);
    None
}

/// A match found in a prefix of a list is the list's match.
proof fn lemma_entry_rank_prefix(s: Seq<(usize, u64)>, n: int, b: usize)
    requires
        0 <= n <= s.len(),
        entry_rank(s.take(n), b) is Some,
    ensures
        entry_rank(s, b) == entry_rank(s.take(n), b),
    decreases s.len() - n,
{
    if n == s.len() {
        assert(s.take(n) =~= s);
    } else {
        assert(s.take(n + 1).drop_last() =~= s.take(n));
        lemma_entry_rank_prefix(s, n + 1, b);
    }
}

/// A member without an edge to `cand` in a prefix stays fatal for the
/// whole clique.
proof fn lemma_min_into_none(g: Map<usize, Seq<(usize, u64)>>, s: Seq<usize>, n: int, cand: usize)
    requires
        0 <= n <= s.len(),
        min_into(g, s.take(n), cand) is None,
    ensures
        min_into(g, s, cand) is None,
    decreases s.len() - n,
{
    if n == s.len() {
        assert(s.take(n) =~= s);
    } else {
        assert(s.take(n + 1).drop_last() =~= s.take(n));
        lemma_min_into_none(g, s, n + 1, cand);
    }
}

/// The weakest edge from `cand` into the clique, or `None` when `cand`
/// misses an edge to some member.
pub fn min_edge_into_clique(clique: &Vec<usize>, adj: &BTreeMap<usize, Vec<(usize, u64)>>, cand: usize) -> (r: Option<u64>)
    ensures
        r == min_into(adj_view(*adj), clique@, cand),
{
    let ghost g = adj_view(*adj);
    let mut worst: u64 = u64::MAX;
    let mut k: usize = 0;
    assert(clique@.take(0) =~= Seq::<usize>::empty());
    while k < clique.len()
        invariant
            k <= clique@.len(),
            g == adj_view(*adj),
            min_into(g, clique@.take(k as int), cand) == Some(worst),
        decreases clique@.len() - k,
    {
        assert(clique@.take(k + 1).drop_last() =~= clique@.take(k as int));
        match rank_lookup(adj, clique[k], cand) {
            None => {
                proof {
                    lemma_min_into_none(g, clique@, k + 1, cand);
                }
                return None;
            },
            Some(w) => {
                if w < worst {
                    worst = w;
                }
            },
        }
        k = k + 1;
    }
    assert(clique@.take(clique@.len() as int) =~= clique@);
    Some(worst)
}

/// Whether a candidate with weakest edge `worst` displaces the best one
/// so far.
pub fn candidate_beats_best(worst: u64, cand: usize, best: Option<(u64, usize)>, ident: &[u64]) -> (r: bool)
    requires
        cand < ident@.len(),
        best matches Some((_, bc)) ==> bc < ident@.len(),
    ensures
        r == beats(worst, cand, best, ident@),
{
    match best {
        None => true,
        Some((best_worst, best_cand)) => {
            if worst > best_worst {
                true
            } else if worst < best_worst {
                false
            } else {
                ident[cand] < ident[best_cand]
            }
        },
    }
}

/// Whether `x` occurs in `v`.
fn contains_node(v: &Vec<usize>, x: usize) -> (r: bool)
    ensures
        r == v@.contains(x),
{
    let mut k: usize = 0;
    while k < v.len()
        invariant
            k <= v@.len(),
            forall|p: int| 0 <= p < k ==> v@[p] != x,
        decreases v@.len() - k,
    {
        if v[k] == x {
            assert(v@[k as int] == x);
            return true;
        }
        k = k + 1;
    }
    false
}

/// The next node to admit into the clique: among the unassigned
/// neighbours of its first member that are joined to every member, the
/// one whose weakest edge into the clique is strongest, ties going to the
/// smaller identity.
pub fn best_clique_candidate(
    clique: &Vec<usize>,
    adj: &BTreeMap<usize, Vec<(usize, u64)>>,
    ident: &[u64],
    clique_of: &BTreeMap<usize, usize>,
) -> (r: Option<usize>)
    requires
        clique@.len() > 0,
        nodes_below(adj_view(*adj), ident@.len() as int),
    ensures
        r == best_candidate(adj_view(*adj), ident@, clique_of@, clique@),
        r matches Some(c) ==> c < ident@.len(),
{
    let ghost g = adj_view(*adj);
    let list = match adj.get(&clique[0]) {
        Some(v) => v,
        None => {
            return None;
        },
    };
    assert(list@ == nb(g, clique@[0]));
    let mut best: Option<(u64, usize)> = None;
    let mut k: usize = 0;
    while k < list.len()
        invariant
            k <= list@.len(),
            g == adj_view(*adj),
            g.contains_key(clique@[0]),
            list@ == nb(g, clique@[0]),
            nodes_below(g, ident@.len() as int),
            best == best_among(g, ident@, clique_of@, clique@, list@.take(k as int)),
            best matches Some((_, bc)) ==> bc < ident@.len(),
        decreases list@.len() - k,
    {
        assert(list@.take(k + 1).drop_last() =~= list@.take(k as int));
        let cand = list[k].0;
        assert(g[clique@[0]][k as int].0 < ident@.len());
        if !(clique_of.contains_key(&cand) || contains_node(clique, cand)) {
            match min_edge_into_clique(clique, adj, cand) {
                None => {},
                Some(w) => {
                    if candidate_beats_best(w, cand, best, ident) {
                        best = Some((w, cand));
                    }
                },
            }
        }
        k = k + 1;
    }
    assert(list@.take(list@.len() as int) =~= list@);
    match best {
        Some((_, c)) => Some(c),
        None => None,
    }
}

/// Grow the clique to maximality: admit the best candidate while one
/// remains.
pub fn grow_clique(
    clique: &mut Vec<usize>,
    adj: &BTreeMap<usize, Vec<(usize, u64)>>,
    ident: &[u64],
    clique_of: &BTreeMap<usize, usize>,
)
    requires
        old(clique)@.len() > 0,
        nodes_below(adj_view(*adj), ident@.len() as int),
    ensures
        final(clique)@ == grown(
            adj_view(*adj),
            ident@,
            clique_of@,
            old(clique)@,
            nb(adj_view(*adj), old(clique)@[0]).len(),
        ),
{
    let ghost g = adj_view(*adj);
    let ghost start = clique@;
    let ghost fuel = nb(g, start[0]).len();
    let mut left: usize = match adj.get(&clique[0]) {
        Some(v) => v.len(),
        None => 0,
    };
    assert(left == fuel);
    loop
        invariant
            g == adj_view(*adj),
            nodes_below(g, ident@.len() as int),
            clique@.len() > 0,
            clique@[0] == start[0],
            grown(g, ident@, clique_of@, clique@, left as nat) == grown(g, ident@, clique_of@, start, fuel),
        ensures
            clique@ == grown(g, ident@, clique_of@, start, fuel),
        decreases left,
    {
        if left == 0 {
            break;
        }
        match best_clique_candidate(clique, adj, ident, clique_of) {
            None => {
                break;
            },
            Some(c) => {
                let ghost before = clique@;
                clique.push(c);
                assert(clique@ == before.push(c));
                left = left - 1;
            },
        }
    }
}


/// Lexicographic order on carving keys.
pub open spec fn key_le(a: (u64, u64, u64, usize), b: (u64, u64, u64, usize)) -> bool {
    a.0 < b.0 || (a.0 == b.0 && (a.1 < b.1 || (a.1 == b.1 && (a.2 < b.2 || (a.2 == b.2 && a.3
        <= b.3)))))
}

/// The carving key of edge `x`: stronger edges first, then the edge's
/// ends by identity, smaller end first, then the edge's position.
pub open spec fn edge_key(edges: Seq<CarveEdge>, ident: Seq<u64>, x: usize) -> (u64, u64, u64, usize) {
    let e = edges[x as int];
    let a = ident[e.i as int];
    let b = ident[e.j as int];
    ((u64::MAX - e.rank) as u64, if a <= b { a } else { b }, if a <= b { b } else { a }, x)
}

/// Every edge's ends have an identity.
pub open spec fn ends_below(edges: Seq<CarveEdge>, n: int) -> bool {
    forall|k: int| 0 <= k < edges.len() ==> (#[trigger] edges[k]).i < n && edges[k].j < n
}

/// `order` lists every edge position once, in carving order.
pub open spec fn is_carving_order(edges: Seq<CarveEdge>, ident: Seq<u64>, order: Seq<usize>) -> bool {
    &&& order.len() == edges.len()
    &&& forall|p: int| 0 <= p < order.len() ==> #[trigger] order[p] < edges.len()
    &&& forall|x: usize| x < edges.len() ==> #[trigger] order.contains(x)
    &&& forall|p: int, q: int|
        0 <= p < q < order.len() ==> key_le(
            edge_key(edges, ident, #[trigger] order[p]),
            edge_key(edges, ident, #[trigger] order[q]),
        ) && order[p] != order[q]
}

/// Sorts the keys ascending with `slice::sort`. Its documentation promises
/// a slice holding the same elements in ascending order, and tuples are
/// ordered lexicographically, field by field.
#[verifier::external_body]
fn sort_keys(v: &mut Vec<(u64, u64, u64, usize)>)
    ensures
        final(v)@.to_multiset() == old(v)@.to_multiset(),
        forall|p: int, q: int|
            0 <= p < q < final(v)@.len() ==> key_le(#[trigger] final(v)@[p], #[trigger] final(v)@[q]),
{
    v.sort();
}

/// The order in which edges seed cliques: stronger edges first, ties
/// broken by the identities of the ends.
pub fn carving_order(edges: &[CarveEdge], ident: &[u64]) -> (r: Vec<usize>)
    requires
        ends_below(edges@, ident@.len() as int),
    ensures
        is_carving_order(edges@, ident@, r@),
{
    let mut keys: Vec<(u64, u64, u64, usize)> = Vec::new();
    let mut k: usize = 0;
    while k < edges.len()
        invariant
            k <= edges@.len(),
            ends_below(edges@, ident@.len() as int),
            keys@.len() == k,
            forall|p: int| 0 <= p < k ==> #[trigger] keys@[p] == edge_key(edges@, ident@, p as usize),
        decreases edges@.len() - k,
    {
        let e = edges[k];
        assert(edges@[k as int].i < ident@.len());
        let a = ident[e.i];
        let b = ident[e.j];
        let lo = if a <= b { a } else { b };
        let hi = if a <= b { b } else { a };
        keys.push((u64::MAX - e.rank, lo, hi, k));
        k = k + 1;
    }
    let ghost unsorted = keys@;
    sort_keys(&mut keys);
    proof {
        broadcast use vstd::seq_lib::group_to_multiset_ensures;
        vstd::seq_lib::to_multiset_len(keys@);
        vstd::seq_lib::to_multiset_len(unsorted);
        assert(keys@.len() == unsorted.len());
        assert forall|p: int| 0 <= p < keys@.len() implies #[trigger] keys@[p] == edge_key(edges@, ident@, keys@[p].3) && keys@[p].3 < edges@.len() by {
            assert(keys@.contains(keys@[p]));
            assert(keys@.to_multiset().count(keys@[p]) > 0);
            assert(unsorted.contains(keys@[p]));
            let t = choose|t: int| 0 <= t < unsorted.len() && unsorted[t] == keys@[p];
            assert(unsorted[t] == edge_key(edges@, ident@, t as usize));
        }
        assert forall|x: usize| x < edges@.len() implies #[trigger] keys@.contains(edge_key(edges@, ident@, x)) by {
            assert(unsorted[x as int] == edge_key(edges@, ident@, x));
            assert(unsorted.contains(unsorted[x as int]));
            assert(unsorted.to_multiset().count(unsorted[x as int]) > 0);
        }
    }
    let mut out: Vec<usize> = Vec::new();
    let mut q: usize = 0;
    while q < keys.len()
        invariant
            q <= keys@.len(),
            keys@.len() == edges@.len(),
            out@.len() == q,
            forall|p: int| 0 <= p < q ==> #[trigger] out@[p] == keys@[p].3,
        decreases keys@.len() - q,
    {
        out.push(keys[q].3);
        q = q + 1;
    }
    proof {
        assert forall|x: usize| x < edges@.len() implies #[trigger] out@.contains(x) by {
            assert(keys@.contains(edge_key(edges@, ident@, x)));
            let t = choose|t: int| 0 <= t < keys@.len() && keys@[t] == edge_key(edges@, ident@, x);
            assert(out@[t] == x);
        }
        assert forall|p: int, q2: int| 0 <= p < q2 < out@.len() implies key_le(
            edge_key(edges@, ident@, #[trigger] out@[p]),
            edge_key(edges@, ident@, #[trigger] out@[q2]),
        ) && out@[p] != out@[q2] by {
            assert(keys@[p] == edge_key(edges@, ident@, keys@[p].3));
            assert(keys@[q2] == edge_key(edges@, ident@, keys@[q2].3));
            assert(key_le(keys@[p], keys@[q2]));
            if out@[p] == out@[q2] {
                assert(keys@[p] == keys@[q2]);
                assert(keys@.to_multiset().count(keys@[p]) >= 2) by {
                    lemma_two_positions_count(keys@, p, q2);
                }
                lemma_distinct_keys_count(unsorted, keys@[p]);
            }
        }
    }
    out
}

/// Two positions holding one value make it occur at least twice.
proof fn lemma_two_positions_count<A>(s: Seq<A>, p: int, q: int)
    requires
        0 <= p < q < s.len(),
        s[p] == s[q],
    ensures
        s.to_multiset().count(s[p]) >= 2,
    decreases s.len(),
{
    broadcast use vstd::seq_lib::group_to_multiset_ensures;
    broadcast use vstd::multiset::group_multiset_axioms;
    let x = s[p];
    assert(s.drop_last().push(s.last()) =~= s);
    if q == s.len() - 1 {
        assert(s.drop_last().contains(x)) by {
            assert(s.drop_last()[p] == x);
        }
        assert(s.drop_last().to_multiset().count(x) >= 1);
    } else {
        lemma_two_positions_count(s.drop_last(), p, q);
    }
}

/// The keys built from positions `0..n` occur once each.
proof fn lemma_distinct_keys_count(s: Seq<(u64, u64, u64, usize)>, x: (u64, u64, u64, usize))
    requires
        forall|t: int| 0 <= t < s.len() ==> (#[trigger] s[t]).3 == t,
    ensures
        s.to_multiset().count(x) <= 1,
    decreases s.len(),
{
    broadcast use vstd::seq_lib::group_to_multiset_ensures;
    broadcast use vstd::multiset::group_multiset_axioms;
    if s.len() > 0 {
        assert(s.drop_last().push(s.last()) =~= s);
        lemma_distinct_keys_count(s.drop_last(), x);
        if x == s.last() {
            assert(!s.drop_last().contains(x)) by {
                if s.drop_last().contains(x) {
                    let t = choose|t: int| 0 <= t < s.drop_last().len() && s.drop_last()[t] == x;
                    assert(s[t].3 == t);
                }
            }
        }
    }
}

/// Where `x` goes in a list sorted by identity: after every element whose
/// identity is not larger.
pub open spec fn ins_pos(s: Seq<usize>, x: usize, ident: Seq<u64>) -> int
    decreases s.len(),
{
    if s.len() == 0 {
        0
    } else if ident[s.last() as int] > ident[x as int] {
        ins_pos(s.drop_last(), x, ident)
    } else {
        s.len() as int
    }
}

/// A list sorted by identity, stably: insertion of each element in turn.
pub open spec fn sort_by_ident(s: Seq<usize>, ident: Seq<u64>) -> Seq<usize>
    decreases s.len(),
{
    if s.len() == 0 {
        Seq::empty()
    } else {
        let t = sort_by_ident(s.drop_last(), ident);
        t.insert(ins_pos(t, s.last(), ident), s.last())
    }
}

pub proof fn lemma_ins_pos_bounds(s: Seq<usize>, x: usize, ident: Seq<u64>)
    ensures
        0 <= ins_pos(s, x, ident) <= s.len(),
    decreases s.len(),
{
    if s.len() > 0 {
        lemma_ins_pos_bounds(s.drop_last(), x, ident);
    }
}

pub proof fn lemma_sort_len(s: Seq<usize>, ident: Seq<u64>)
    ensures
        sort_by_ident(s, ident).len() == s.len(),
        forall|y: usize| #[trigger] sort_by_ident(s, ident).contains(y) <==> s.contains(y),
    decreases s.len(),
{
    if s.len() > 0 {
        let t = sort_by_ident(s.drop_last(), ident);
        lemma_sort_len(s.drop_last(), ident);
        lemma_ins_pos_bounds(t, s.last(), ident);
        let p = ins_pos(t, s.last(), ident);
        let u = t.insert(p, s.last());
        assert(s.drop_last().push(s.last()) =~= s);
        assert forall|y: usize| #[trigger] u.contains(y) <==> s.contains(y) by {
            if u.contains(y) {
                let k = choose|k: int| 0 <= k < u.len() && u[k] == y;
                if k < p {
                    assert(t[k] == y);
                    assert(t.contains(y));
                    let m = choose|m: int| 0 <= m < s.drop_last().len() && s.drop_last()[m] == y;
                    assert(s[m] == y);
                } else if k == p {
                    assert(s[s.len() - 1] == y);
                } else {
                    assert(t[k - 1] == y);
                    assert(t.contains(y));
                    let m = choose|m: int| 0 <= m < s.drop_last().len() && s.drop_last()[m] == y;
                    assert(s[m] == y);
                }
            }
            if s.contains(y) {
                let m = choose|m: int| 0 <= m < s.len() && s[m] == y;
                if m == s.len() - 1 {
                    assert(u[p] == y);
                } else {
                    assert(s.drop_last()[m] == y);
                    assert(t.contains(y));
                    let k = choose|k: int| 0 <= k < t.len() && t[k] == y;
                    if k < p {
                        assert(u[k] == y);
                    } else {
                        assert(u[k + 1] == y);
                    }
                }
            }
        }
    }
}

/// The clique's members ordered by identity.
pub fn sort_members(clique: &Vec<usize>, ident: &[u64]) -> (r: Vec<usize>)
    requires
        forall|k: int| 0 <= k < clique@.len() ==> #[trigger] clique@[k] < ident@.len(),
    ensures
        r@ == sort_by_ident(clique@, ident@),
{
    let mut out: Vec<usize> = Vec::new();
    let mut k: usize = 0;
    assert(clique@.take(0) =~= Seq::<usize>::empty());
    while k < clique.len()
        invariant
            k <= clique@.len(),
            forall|t: int| 0 <= t < clique@.len() ==> #[trigger] clique@[t] < ident@.len(),
            out@ == sort_by_ident(clique@.take(k as int), ident@),
        decreases clique@.len() - k,
    {
        proof {
            lemma_sort_len(clique@.take(k as int), ident@);
        }
        let x = clique[k];
        proof {
            assert forall|t: int| 0 <= t < out@.len() implies #[trigger] out@[t] < ident@.len() by {
                assert(out@.contains(out@[t]));
                assert(clique@.take(k as int).contains(out@[t]));
            }
        }
        let mut p: usize = out.len();
        assert(out@.take(p as int) =~= out@);
        while p > 0 && ident[out[p - 1]] > ident[x]
            invariant
                p <= out@.len(),
                x < ident@.len(),
                forall|t: int| 0 <= t < out@.len() ==> #[trigger] out@[t] < ident@.len(),
                ins_pos(out@, x, ident@) == ins_pos(out@.take(p as int), x, ident@),
            decreases p,
        {
            assert(out@.take(p as int).drop_last() =~= out@.take(p - 1));
            p = p - 1;
        }
        proof {
            if p > 0 {
                assert(out@.take(p as int).last() == out@[p - 1]);
            }
        }
        assert(ins_pos(out@, x, ident@) == p);
        assert(clique@.take(k + 1).drop_last() =~= clique@.take(k as int));
        out.insert(p, x);
        k = k + 1;
    }
    assert(clique@.take(clique@.len() as int) =~= clique@);
    out
}

/// `of` with every member of `members` assigned to clique `id`.
pub open spec fn assign(of: Map<usize, usize>, members: Seq<usize>, id: usize) -> Map<usize, usize> {
    Map::new(
        |m: usize| of.contains_key(m) || members.contains(m),
        |m: usize| if members.contains(m) { id } else { of[m] },
    )
}

/// The cliques carved by seeding at each edge of `order` in turn, with
/// the node-to-clique assignment.
pub open spec fn carve_from(
    edges: Seq<CarveEdge>,
    g: Map<usize, Seq<(usize, u64)>>,
    ident: Seq<u64>,
    comp: Map<usize, usize>,
    cap: usize,
    order: Seq<usize>,
) -> (Seq<Seq<usize>>, Map<usize, usize>)
    decreases order.len(),
{
    if order.len() == 0 {
        (Seq::empty(), Map::empty())
    } else {
        let (cl, of) = carve_from(edges, g, ident, comp, cap, order.drop_last());
        let e = edges[order.last() as int];
        if comp[e.i] > cap || of.contains_key(e.i) || of.contains_key(e.j) {
            (cl, of)
        } else {
            let members = sort_by_ident(grown(g, ident, of, seq![e.i, e.j], nb(g, e.i).len()), ident);
            (cl.push(members), assign(of, members, cl.len() as usize))
        }
    }
}

/// The lists of a list of cliques.
pub open spec fn cliques_view(cl: Seq<Vec<usize>>) -> Seq<Seq<usize>> {
    cl.map_values(|c: Vec<usize>| c@)
}

/// Every member of a grown clique has an identity.
proof fn lemma_grown_below(
    g: Map<usize, Seq<(usize, u64)>>,
    ident: Seq<u64>,
    taken: Map<usize, usize>,
    clique: Seq<usize>,
    fuel: nat,
)
    requires
        nodes_below(g, ident.len() as int),
        forall|k: int| 0 <= k < clique.len() ==> #[trigger] clique[k] < ident.len(),
    ensures
        forall|k: int|
            0 <= k < grown(g, ident, taken, clique, fuel).len() ==> #[trigger] grown(g, ident, taken, clique, fuel)[k] < ident.len(),
    decreases fuel,
{
    if fuel > 0 {
        match best_candidate(g, ident, taken, clique) {
            None => {
                assert(grown(g, ident, taken, clique, fuel) == clique);
            },
            Some(c) => {
                assert(grown(g, ident, taken, clique, fuel) == grown(g, ident, taken, clique.push(c), (fuel - 1) as nat));
                lemma_best_among_from(g, ident, taken, clique, nb(g, clique[0]));
                let k = choose|k: int| 0 <= k < nb(g, clique[0]).len() && #[trigger] nb(g, clique[0])[k].0 == c;
                assert(g[clique[0]][k].0 < ident.len());
                let next = clique.push(c);
                assert forall|t: int| 0 <= t < next.len() implies #[trigger] next[t] < ident.len() by {
                    if t < clique.len() {
                        assert(next[t] == clique[t]);
                    }
                }
                lemma_grown_below(g, ident, taken, next, (fuel - 1) as nat);
            },
        }
    }
}

/// The preferred candidate is an admissible entry of the list.
pub proof fn lemma_best_among_from(
    g: Map<usize, Seq<(usize, u64)>>,
    ident: Seq<u64>,
    taken: Map<usize, usize>,
    clique: Seq<usize>,
    cands: Seq<(usize, u64)>,
)
    ensures
        best_among(g, ident, taken, clique, cands) matches Some((w, c)) ==> {
            &&& exists|k: int| 0 <= k < cands.len() && #[trigger] cands[k].0 == c
            &&& !taken.contains_key(c)
            &&& !clique.contains(c)
            &&& min_into(g, clique, c) == Some(w)
        },
    decreases cands.len(),
{
    if cands.len() > 0 {
        lemma_best_among_from(g, ident, taken, clique, cands.drop_last());
        match best_among(g, ident, taken, clique, cands.drop_last()) {
            Some((w, c)) => {
                let k = choose|k: int| 0 <= k < cands.drop_last().len() && #[trigger] cands.drop_last()[k].0 == c;
                assert(cands[k].0 == c);
            },
            None => {},
        }
        assert(cands[cands.len() - 1].0 == cands.last().0);
    }
}

/// Carve maximal cliques, seeding at each edge of `order` whose
/// component is within `cap` and whose ends are both unassigned. Each
/// clique's members are ordered by identity; the map sends each
/// assigned node to its clique's position.
pub fn carve_cliques(
    edges: &[CarveEdge],
    order: &[usize],
    adj: &BTreeMap<usize, Vec<(usize, u64)>>,
    ident: &[u64],
    component_size: &BTreeMap<usize, usize>,
    cap: usize,
) -> (r: (Vec<Vec<usize>>, BTreeMap<usize, usize>))
    requires
        forall|p: int| 0 <= p < order@.len() ==> #[trigger] order@[p] < edges@.len(),
        ends_below(edges@, ident@.len() as int),
        nodes_below(adj_view(*adj), ident@.len() as int),
        forall|k: int| 0 <= k < edges@.len() ==> component_size@.contains_key(#[trigger] edges@[k].i),
    ensures
        (cliques_view(r.0@), r.1@) == carve_from(
            edges@,
            adj_view(*adj),
            ident@,
            component_size@,
            cap,
            order@,
        ),
{
    let ghost g = adj_view(*adj);
    let mut clique_of: BTreeMap<usize, usize> = BTreeMap::new();
    let mut cliques: Vec<Vec<usize>> = Vec::new();
    let mut p: usize = 0;
    assert(order@.take(0) =~= Seq::<usize>::empty());
    assert(cliques_view(cliques@) =~= Seq::<Seq<usize>>::empty());
    assert(clique_of@ =~= Map::<usize, usize>::empty());
    while p < order.len()
        invariant
            p <= order@.len(),
            g == adj_view(*adj),
            forall|t: int| 0 <= t < order@.len() ==> #[trigger] order@[t] < edges@.len(),
            ends_below(edges@, ident@.len() as int),
            nodes_below(g, ident@.len() as int),
            forall|k: int| 0 <= k < edges@.len() ==> component_size@.contains_key(#[trigger] edges@[k].i),
            (cliques_view(cliques@), clique_of@) == carve_from(edges@, g, ident@, component_size@, cap, order@.take(p as int)),
        decreases order@.len() - p,
    {
        let ghost pre = order@.take(p as int);
        assert(order@.take(p + 1).drop_last() =~= pre);
        assert(order@.take(p + 1).last() == order@[p as int]);
        let ei = order[p];
        let e = edges[ei];
        assert(edges@[ei as int].i < ident@.len());
        let size = match component_size.get(&e.i) {
            Some(s) => *s,
            None => 0,
        };
        if size > cap || clique_of.contains_key(&e.i) || clique_of.contains_key(&e.j) {
            p = p + 1;
            continue;
        }
        let mut clique: Vec<usize> = Vec::new();
        clique.push(e.i);
        clique.push(e.j);
        assert(clique@ =~= seq![e.i, e.j]);
        grow_clique(&mut clique, adj, ident, &clique_of);
        proof {
            lemma_grown_below(g, ident@, clique_of@, seq![e.i, e.j], nb(g, e.i).len());
        }
        let members = sort_members(&clique, ident);
        let id = cliques.len();
        let mut t: usize = 0;
        let ghost of0 = clique_of@;
        while t < members.len()
            invariant
                t <= members@.len(),
                clique_of@ == Map::new(
                    |m: usize| of0.contains_key(m) || members@.take(t as int).contains(m),
                    |m: usize| if members@.take(t as int).contains(m) { id } else { of0[m] },
                ),
            decreases members@.len() - t,
        {
            proof {
                assert forall|m: usize| #[trigger] members@.take(t + 1).contains(m) <==> (members@.take(t as int).contains(m) || m == members@[t as int]) by {
                    if members@.take(t + 1).contains(m) {
                        let w = choose|w: int| 0 <= w < t + 1 && #[trigger] members@.take(t + 1)[w] == m;
                        if w < t {
                            assert(members@.take(t as int)[w] == m);
                        }
                    }
                    if members@.take(t as int).contains(m) {
                        let w = choose|w: int| 0 <= w < t && #[trigger] members@.take(t as int)[w] == m;
                        assert(members@.take(t + 1)[w] == m);
                    }
                    if m == members@[t as int] {
                        assert(members@.take(t + 1)[t as int] == m);
                    }
                }
            }
            clique_of.insert(members[t], id);
            proof {
                let target = Map::new(
                    |m: usize| of0.contains_key(m) || members@.take(t + 1).contains(m),
                    |m: usize| if members@.take(t + 1).contains(m) { id } else { of0[m] },
                );
                assert(clique_of@ =~= target);
            }
            t = t + 1;
        }
        assert(members@.take(members@.len() as int) =~= members@);
        assert(clique_of@ =~= assign(of0, members@, id));
        let ghost cl0 = cliques@;
        cliques.push(members);
        assert(cliques_view(cliques@) =~= cliques_view(cl0).push(members@));
        p = p + 1;
    }
    assert(order@.take(order@.len() as int) =~= order@);
    (cliques, clique_of)
}


/// The root of `y` once the edges have been merged in turn, each merge
/// linking the larger root under the smaller.
pub open spec fn root_after(edges: Seq<CarveEdge>, y: usize) -> usize
    decreases edges.len(),
{
    if edges.len() == 0 {
        y
    } else {
        let prev = edges.drop_last();
        let e = edges.last();
        let ra = root_after(prev, e.i);
        let rb = root_after(prev, e.j);
        let hi = if ra < rb { rb } else { ra };
        let lo = if ra < rb { ra } else { rb };
        if ra != rb && root_after(prev, y) == hi {
            lo
        } else {
            root_after(prev, y)
        }
    }
}

/// `s` with `x` appended unless it already holds it.
pub open spec fn add_node(s: Seq<usize>, x: usize) -> Seq<usize> {
    if s.contains(x) {
        s
    } else {
        s.push(x)
    }
}

/// The nodes that end an edge, each once, in order of first appearance.
pub open spec fn endpoint_seq(edges: Seq<CarveEdge>) -> Seq<usize>
    decreases edges.len(),
{
    if edges.len() == 0 {
        Seq::empty()
    } else {
        add_node(add_node(endpoint_seq(edges.drop_last()), edges.last().i), edges.last().j)
    }
}

/// How many of `nodes` have root `r` after the edges are merged.
pub open spec fn count_rooted(nodes: Seq<usize>, edges: Seq<CarveEdge>, r: usize) -> nat
    decreases nodes.len(),
{
    if nodes.len() == 0 {
        0
    } else {
        count_rooted(nodes.drop_last(), edges, r) + if root_after(edges, nodes.last()) == r {
            1nat
        } else {
            0nat
        }
    }
}

/// The size of `n`'s connected component among the edge ends.
pub open spec fn component_size(edges: Seq<CarveEdge>, n: usize) -> nat {
    count_rooted(endpoint_seq(edges), edges, root_after(edges, n))
}

/// Each edge end's component size.
pub open spec fn component_map(edges: Seq<CarveEdge>) -> Map<usize, usize> {
    Map::new(|n: usize| endpoint_seq(edges).contains(n), |n: usize| component_size(edges, n) as usize)
}

pub proof fn lemma_count_rooted_bound(nodes: Seq<usize>, edges: Seq<CarveEdge>, r: usize)
    ensures
        count_rooted(nodes, edges, r) <= nodes.len(),
    decreases nodes.len(),
{
    if nodes.len() > 0 {
        lemma_count_rooted_bound(nodes.drop_last(), edges, r);
    }
}

/// The distinct edge ends, in order of first appearance.
fn endpoint_list(edges: &[CarveEdge]) -> (r: Vec<usize>)
    ensures
        r@ == endpoint_seq(edges@),
{
    let mut seen: BTreeMap<usize, bool> = BTreeMap::new();
    let mut out: Vec<usize> = Vec::new();
    let mut k: usize = 0;
    while k < edges.len()
        invariant
            k <= edges@.len(),
            out@ == endpoint_seq(edges@.take(k as int)),
            forall|x: usize| #[trigger] seen@.contains_key(x) <==> out@.contains(x),
        decreases edges@.len() - k,
    {
        assert(edges@.take(k + 1).drop_last() =~= edges@.take(k as int));
        let e = edges[k];
        let ghost s0 = out@;
        if !seen.contains_key(&e.i) {
            seen.insert(e.i, true);
            out.push(e.i);
            assert forall|x: usize| #[trigger] seen@.contains_key(x) <==> out@.contains(x) by {
                if x != e.i && s0.contains(x) {
                    let w = choose|w: int| 0 <= w < s0.len() && s0[w] == x;
                    assert(out@[w] == x);
                }
                if out@.contains(x) && x != e.i {
                    let w = choose|w: int| 0 <= w < out@.len() && out@[w] == x;
                    assert(s0[w] == x);
                }
                if x == e.i {
                    assert(out@[s0.len() as int] == x);
                }
            }
        }
        assert(out@ == add_node(s0, e.i));
        let ghost s1 = out@;
        if !seen.contains_key(&e.j) {
            seen.insert(e.j, true);
            out.push(e.j);
            assert forall|x: usize| #[trigger] seen@.contains_key(x) <==> out@.contains(x) by {
                if x != e.j && s1.contains(x) {
                    let w = choose|w: int| 0 <= w < s1.len() && s1[w] == x;
                    assert(out@[w] == x);
                }
                if out@.contains(x) && x != e.j {
                    let w = choose|w: int| 0 <= w < out@.len() && out@[w] == x;
                    assert(s1[w] == x);
                }
                if x == e.j {
                    assert(out@[s1.len() as int] == x);
                }
            }
        }
        assert(out@ == add_node(s1, e.j));
        k = k + 1;
    }
    assert(edges@.take(edges@.len() as int) =~= edges@);
    out
}

/// The size of each edge end's connected component, found with
/// union-find over the edges.
pub fn component_size_by_node(edges: &[CarveEdge]) -> (r: BTreeMap<usize, usize>)
    ensures
        forall|n: usize| #[trigger] r@.contains_key(n) <==> endpoint_seq(edges@).contains(n),
        forall|n: usize| #[trigger] r@.contains_key(n) ==> r@[n] == component_size(edges@, n),
{
    let mut parent: BTreeMap<usize, usize> = BTreeMap::new();
    let mut k: usize = 0;
    while k < edges.len()
        invariant
            k <= edges@.len(),
            uf_wf(parent@),
            forall|y: usize| #[trigger] uf_root(parent@, y) == root_after(edges@.take(k as int), y),
        decreases edges@.len() - k,
    {
        assert(edges@.take(k + 1).drop_last() =~= edges@.take(k as int));
        assert(edges@.take(k + 1).last() == edges@[k as int]);
        let e = edges[k];
        uf_union(&mut parent, e.i, e.j);
        k = k + 1;
    }
    assert(edges@.take(edges@.len() as int) =~= edges@);
    let ghost es = edges@;
    let nodes = endpoint_list(edges);
    let mut size_by_root: BTreeMap<usize, usize> = BTreeMap::new();
    let mut t: usize = 0;
    while t < nodes.len()
        invariant
            t <= nodes@.len(),
            es == edges@,
            nodes@ == endpoint_seq(es),
            uf_wf(parent@),
            forall|y: usize| #[trigger] uf_root(parent@, y) == root_after(es, y),
            forall|r: usize| #[trigger] size_by_root@.contains_key(r) ==> size_by_root@[r] == count_rooted(nodes@.take(t as int), es, r),
            forall|r: usize| !(#[trigger] size_by_root@.contains_key(r)) ==> count_rooted(nodes@.take(t as int), es, r) == 0,
        decreases nodes@.len() - t,
    {
        assert(nodes@.take(t + 1).drop_last() =~= nodes@.take(t as int));
        assert(nodes@.take(t + 1).last() == nodes@[t as int]);
        let n = nodes[t];
        let r = uf_find(&mut parent, n);
        proof {
            lemma_count_rooted_bound(nodes@.take(t as int), es, r);
        }
        let c = match size_by_root.get(&r) {
            Some(c) => *c,
            None => 0,
        };
        size_by_root.insert(r, c + 1);
        t = t + 1;
    }
    assert(nodes@.take(nodes@.len() as int) =~= nodes@);
    let mut by_node: BTreeMap<usize, usize> = BTreeMap::new();
    let mut u: usize = 0;
    while u < nodes.len()
        invariant
            u <= nodes@.len(),
            es == edges@,
            nodes@ == endpoint_seq(es),
            uf_wf(parent@),
            forall|y: usize| #[trigger] uf_root(parent@, y) == root_after(es, y),
            forall|r: usize| #[trigger] size_by_root@.contains_key(r) ==> size_by_root@[r] == count_rooted(nodes@, es, r),
            forall|r: usize| !(#[trigger] size_by_root@.contains_key(r)) ==> count_rooted(nodes@, es, r) == 0,
            forall|n: usize| #[trigger] by_node@.contains_key(n) <==> nodes@.take(u as int).contains(n),
            forall|n: usize| #[trigger] by_node@.contains_key(n) ==> by_node@[n] == component_size(es, n),
        decreases nodes@.len() - u,
    {
        let n = nodes[u];
        let r = uf_find(&mut parent, n);
        let c = match size_by_root.get(&r) {
            Some(c) => *c,
            None => 0,
        };
        by_node.insert(n, c);
        proof {
            assert forall|m: usize| #[trigger] by_node@.contains_key(m) <==> nodes@.take(u + 1).contains(m) by {
                if nodes@.take(u + 1).contains(m) {
                    let w = choose|w: int| 0 <= w < u + 1 && #[trigger] nodes@.take(u + 1)[w] == m;
                    if w < u {
                        assert(nodes@.take(u as int)[w] == m);
                    }
                }
                if nodes@.take(u as int).contains(m) {
                    let w = choose|w: int| 0 <= w < u && #[trigger] nodes@.take(u as int)[w] == m;
                    assert(nodes@.take(u + 1)[w] == m);
                }
                if m == n {
                    assert(nodes@.take(u + 1)[u as int] == m);
                }
            }
        }
        u = u + 1;
    }
    assert(nodes@.take(nodes@.len() as int) =~= nodes@);
    by_node
}

/// The weakest edge from `a` to the nodes of `s`; a node without an edge
/// from `a` counts as no bound.
pub open spec fn row_min(g: Map<usize, Seq<(usize, u64)>>, a: usize, s: Seq<usize>) -> u64
    decreases s.len(),
{
    if s.len() == 0 {
        u64::MAX
    } else {
        min_rank(
            row_min(g, a, s.drop_last()),
            match rank_between(g, a, s.last()) {
                Some(r) => r,
                None => u64::MAX,
            },
        )
    }
}

/// The weakest edge between a member among the first `p` and a later
/// member.
pub open spec fn pairs_min(g: Map<usize, Seq<(usize, u64)>>, s: Seq<usize>, p: int) -> u64
    decreases p,
{
    if p <= 0 {
        u64::MAX
    } else {
        min_rank(pairs_min(g, s, p - 1), row_min(g, s[p - 1], s.skip(p)))
    }
}

/// A clique's score: its weakest pair.
pub open spec fn clique_score(g: Map<usize, Seq<(usize, u64)>>, s: Seq<usize>) -> u64 {
    pairs_min(g, s, s.len() as int)
}

/// The weakest edge over every pair of the clique's members.
pub fn min_intra_clique_score(clique: &Vec<usize>, adj: &BTreeMap<usize, Vec<(usize, u64)>>) -> (r: u64)
    ensures
        r == clique_score(adj_view(*adj), clique@),
{
    let ghost g = adj_view(*adj);
    let mut worst: u64 = u64::MAX;
    let mut p: usize = 0;
    while p < clique.len()
        invariant
            p <= clique@.len(),
            g == adj_view(*adj),
            worst == pairs_min(g, clique@, p as int),
        decreases clique@.len() - p,
    {
        let a = clique[p];
        let ghost rest = clique@.skip(p + 1);
        let mut q: usize = p + 1;
        let ghost base = worst;
        assert(rest.take(0) =~= Seq::<usize>::empty());
        while q < clique.len()
            invariant
                p < q <= clique@.len(),
                g == adj_view(*adj),
                a == clique@[p as int],
                rest == clique@.skip(p + 1),
                worst == min_rank(base, row_min(g, a, rest.take(q - p - 1))),
            decreases clique@.len() - q,
        {
            assert(rest.take(q - p).drop_last() =~= rest.take(q - p - 1));
            assert(rest.take(q - p).last() == clique@[q as int]);
            match rank_lookup(adj, a, clique[q]) {
                Some(w) => {
                    if w < worst {
                        worst = w;
                    }
                },
                None => {},
            }
            q = q + 1;
        }
        assert(rest.take(rest.len() as int) =~= rest);
        p = p + 1;
    }
    worst
}

/// Both ends of edge `e` belong to one clique.
pub open spec fn absorbed(of: Map<usize, usize>, e: CarveEdge) -> bool {
    of.contains_key(e.i) && of.contains_key(e.j) && of[e.i] == of[e.j]
}

/// The edges of `order` that no clique absorbs, in order.
pub open spec fn residual_spec(edges: Seq<CarveEdge>, of: Map<usize, usize>, order: Seq<usize>) -> Seq<usize>
    decreases order.len(),
{
    if order.len() == 0 {
        Seq::empty()
    } else {
        residual_spec(edges, of, order.drop_last()) + if absorbed(of, edges[order.last() as int]) {
            Seq::empty()
        } else {
            seq![order.last()]
        }
    }
}

/// The edges of `order` whose ends no single clique holds: they are
/// reported as pairs.
pub fn residual_edges(edges: &[CarveEdge], order: &[usize], clique_of: &BTreeMap<usize, usize>) -> (r: Vec<usize>)
    requires
        forall|p: int| 0 <= p < order@.len() ==> #[trigger] order@[p] < edges@.len(),
    ensures
        r@ == residual_spec(edges@, clique_of@, order@),
{
    let mut out: Vec<usize> = Vec::new();
    let mut p: usize = 0;
    while p < order.len()
        invariant
            p <= order@.len(),
            forall|t: int| 0 <= t < order@.len() ==> #[trigger] order@[t] < edges@.len(),
            out@ == residual_spec(edges@, clique_of@, order@.take(p as int)),
        decreases order@.len() - p,
    {
        assert(order@.take(p + 1).drop_last() =~= order@.take(p as int));
        assert(order@.take(p + 1).last() == order@[p as int]);
        let ei = order[p];
        let e = edges[ei];
        let ghost before = out@;
        if !crate::comparison::clustering::edge_absorbed(clique_of, e.i, e.j) {
            out.push(ei);
            assert(out@ =~= before + seq![ei]);
        } else {
            assert(out@ =~= before + Seq::<usize>::empty());
        }
        p = p + 1;
    }
    assert(order@.take(order@.len() as int) =~= order@);
    out
}

/// The ends of an edge, the one with the smaller identity first.
pub fn residual_pair(e: CarveEdge, ident: &[u64]) -> (r: (usize, usize))
    requires
        e.i < ident@.len(),
        e.j < ident@.len(),
    ensures
        r == if ident@[e.i as int] <= ident@[e.j as int] { (e.i, e.j) } else { (e.j, e.i) },
{
    if ident[e.i] <= ident[e.j] {
        (e.i, e.j)
    } else {
        (e.j, e.i)
    }
}

/// The outcome of carving: the carving order, the cliques with their
/// scores, and the edges left as pairs.
pub struct Carving {
    pub order: Vec<usize>,
    pub cliques: Vec<Vec<usize>>,
    pub scores: Vec<u64>,
    pub residual: Vec<usize>,
}

/// The scores of a list of cliques.
pub open spec fn scores_of(g: Map<usize, Seq<(usize, u64)>>, cl: Seq<Seq<usize>>) -> Seq<u64> {
    cl.map_values(|c: Seq<usize>| clique_score(g, c))
}

/// Partition the edge graph into maximal cliques and residual pairs.
/// Components with more than `cap` nodes are not carved: all their edges
/// stay pairs.
pub fn carve(edges: &[CarveEdge], ident: &[u64], cap: usize) -> (r: Carving)
    requires
        ends_below(edges@, ident@.len() as int),
    ensures
        is_carving_order(edges@, ident@, r.order@),
        ({
            let g = adjacency_of(edges@);
            let (cl, of) = carve_from(edges@, g, ident@, component_map(edges@), cap, r.order@);
            &&& cliques_view(r.cliques@) == cl
            &&& r.scores@ == scores_of(g, cl)
            &&& r.residual@ == residual_spec(edges@, of, r.order@)
        }),
{
    let adj = build_adjacency(edges);
    proof {
        assert forall|a: usize, k: int| adj_view(adj).contains_key(a) && 0 <= k < adj_view(adj)[a].len() implies (#[trigger] adj_view(adj)[a][k]).0 < ident@.len() by {
            lemma_entries_below(edges@, a, ident@.len() as int);
        }
    }
    let comp = component_size_by_node(edges);
    proof {
        assert forall|k: int| 0 <= k < edges@.len() implies comp@.contains_key(#[trigger] edges@[k].i) by {
            lemma_endpoint_seq_has(edges@, k);
        }
    }
    let order = carving_order(edges, ident);
    let (cliques, clique_of) = carve_cliques(edges, &order, &adj, ident, &comp, cap);
    proof {
        lemma_component_sizes_fit(edges@, comp@);
    }
    let mut scores: Vec<u64> = Vec::new();
    let mut q: usize = 0;
    while q < cliques.len()
        invariant
            q <= cliques@.len(),
            adj_view(adj) == adjacency_of(edges@),
            scores@ =~= scores_of(adjacency_of(edges@), cliques_view(cliques@)).take(q as int),
        decreases cliques@.len() - q,
    {
        let s = min_intra_clique_score(&cliques[q], &adj);
        scores.push(s);
        q = q + 1;
    }
    let residual = residual_edges(edges, &order, &clique_of);
    Carving { order, cliques, scores, residual }
}

/// Every neighbour listed for a node ends an edge, so it has an identity.
pub proof fn lemma_entries_below(edges: Seq<CarveEdge>, a: usize, n: int)
    requires
        ends_below(edges, n),
    ensures
        forall|k: int| 0 <= k < nbr_entries(edges, a).len() ==> (#[trigger] nbr_entries(edges, a)[k]).0 < n,
    decreases edges.len(),
{
    if edges.len() > 0 {
        let prev = edges.drop_last();
        assert(ends_below(prev, n)) by {
            assert forall|k: int| 0 <= k < prev.len() implies (#[trigger] prev[k]).i < n && prev[k].j < n by {
                assert(prev[k] == edges[k]);
            }
        }
        lemma_entries_below(prev, a, n);
        let e = edges.last();
        assert(edges[edges.len() - 1] == e);
        let s = nbr_entries(prev, a);
        let t = entries_at(e, a);
        assert forall|k: int| 0 <= k < (s + t).len() implies (#[trigger] (s + t)[k]).0 < n by {
            if k >= s.len() {
                if e.i == a && e.j == a {
                    assert(t =~= seq![(e.j, e.rank), (e.i, e.rank)]);
                } else if e.i == a {
                    assert(t =~= seq![(e.j, e.rank)]);
                } else if e.j == a {
                    assert(t =~= seq![(e.i, e.rank)]);
                }
            }
        }
    }
}

/// Both ends of every edge are listed among the edge ends.
pub proof fn lemma_endpoint_seq_has(edges: Seq<CarveEdge>, k: int)
    requires
        0 <= k < edges.len(),
    ensures
        endpoint_seq(edges).contains(edges[k].i),
        endpoint_seq(edges).contains(edges[k].j),
    decreases edges.len(),
{
    let prev = edges.drop_last();
    let e = edges.last();
    let s0 = endpoint_seq(prev);
    let s1 = add_node(s0, e.i);
    let s2 = add_node(s1, e.j);
    assert forall|x: usize| s0.contains(x) implies #[trigger] s2.contains(x) by {
        let w = choose|w: int| 0 <= w < s0.len() && s0[w] == x;
        assert(s1[w] == x);
        assert(s1.contains(x));
        let v = choose|v: int| 0 <= v < s1.len() && s1[v] == x;
        assert(s2[v] == x);
    }
    assert(s1.contains(e.i)) by {
        if !s0.contains(e.i) {
            assert(s1[s0.len() as int] == e.i);
        }
    }
    assert(s2.contains(e.i)) by {
        let v = choose|v: int| 0 <= v < s1.len() && s1[v] == e.i;
        assert(s2[v] == e.i);
    }
    assert(s2.contains(e.j)) by {
        if !s1.contains(e.j) {
            assert(s2[s1.len() as int] == e.j);
        }
    }
    if k < edges.len() - 1 {
        assert(prev[k] == edges[k]);
        lemma_endpoint_seq_has(prev, k);
    }
}

/// The sizes fit in a `usize`: a component counts at most the edge ends,
/// and the map from the union-find pass holds them.
proof fn lemma_component_sizes_fit(edges: Seq<CarveEdge>, comp: Map<usize, usize>)
    requires
        forall|n: usize| #[trigger] comp.contains_key(n) <==> endpoint_seq(edges).contains(n),
        forall|n: usize| #[trigger] comp.contains_key(n) ==> comp[n] == component_size(edges, n),
    ensures
        comp =~= component_map(edges),
{
}

} // verus!
