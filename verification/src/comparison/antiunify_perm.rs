//! Permutation stability of anti-unification: reordering the members
//! leaves the template's structure, its hole kinds and divergence
//! summaries unchanged, and reorders every hole's bindings the same way.
use vstd::prelude::*;

use crate::domain::template::{HoleShape, SubElement};
use crate::domain::tree::NormalizedTree;
use super::antiunify::{
    align, align_positional, all_identical, all_internal, all_same_arity, all_same_label,
    anchor_nodes, anchors_of, antiunify_spec, block_label, child_fp_lists, classify, column,
    emit_group, fps_of, gap_ends, gaps_before, lcs_walk, lemma_anchors_subseq,
    lemma_gap_end_anchor, new_hole, same_shape, same_shapes, scalar_bindings, scalar_kind,
    trailing_gaps, tree_shape, tree_shapes, zero_cursors, any_nonempty,
};
use super::antiunify_laws::lemma_same_shape_refl;
use super::divergence::divergence_spec;
use super::divergence_laws::lemma_divergence_order_free;
use super::lcs::{is_subseq, lemma_lex_total_ordering, lex_leq};

verus! {

/// `p` lists every position `0..n` exactly once.
pub open spec fn is_permutation(p: Seq<int>, n: int) -> bool {
    &&& p.len() == n
    &&& forall|i: int| 0 <= i < n ==> 0 <= #[trigger] p[i] < n
    &&& forall|i: int, j: int| 0 <= i < n && 0 <= j < n && i != j ==> p[i] != p[j]
    &&& forall|k: int| 0 <= k < n ==> #[trigger] listed(p, k)
}

/// Some position of `p` holds `k`.
pub open spec fn listed(p: Seq<int>, k: int) -> bool {
    exists|i: int| 0 <= i < p.len() && #[trigger] p[i] == k
}

/// `s` reordered by `p`: position `i` holds `s[p[i]]`.
pub open spec fn permute<A>(s: Seq<A>, p: Seq<int>) -> Seq<A> {
    Seq::new(p.len(), |i: int| s[p[i]])
}

/// A hole whose bindings are reordered by `p`.
pub open spec fn perm_hole(h: HoleShape, p: Seq<int>) -> HoleShape {
    HoleShape {
        id: h.id,
        kind: h.kind,
        bindings: permute(h.bindings, p),
        divergence: h.divergence,
    }
}

/// A hole table whose bindings are all reordered by `p`.
pub open spec fn perm_table(hs: Seq<HoleShape>, p: Seq<int>) -> Seq<HoleShape> {
    hs.map_values(|h: HoleShape| perm_hole(h, p))
}

/// The divergence summary of a hole does not depend on the order of its
/// bindings.
pub open spec fn divergence_order_free() -> bool {
    forall|bs: Seq<Seq<SubElement>>, p: Seq<int>|
        is_permutation(p, bs.len() as int) ==> #[trigger] divergence_spec(permute(bs, p))
            == divergence_spec(bs)
}

// ---- shapes ----

proof fn lemma_same_shape_tree_shape(a: NormalizedTree, b: NormalizedTree)
    requires
        same_shape(a, b),
    ensures
        tree_shape(a) == tree_shape(b),
    decreases a, a.children@.len() + 1,
{
    assert(a.children@.take(a.children@.len() as int) =~= a.children@);
    assert(b.children@.take(b.children@.len() as int) =~= b.children@);
    lemma_same_shapes_prefix(a, b, a.children@.len() as int);
}

proof fn lemma_same_shapes_prefix(root: NormalizedTree, other: NormalizedTree, n: int)
    requires
        0 <= n <= root.children@.len(),
        root.children@.len() == other.children@.len(),
        same_shapes(root.children@.take(n), other.children@.take(n)),
    ensures
        tree_shapes(root.children@.take(n)) == tree_shapes(other.children@.take(n)),
    decreases root, n,
{
    let xs = root.children@.take(n);
    let ys = other.children@.take(n);
    if n > 0 {
        assert(xs.drop_last() =~= root.children@.take(n - 1));
        assert(ys.drop_last() =~= other.children@.take(n - 1));
        lemma_same_shapes_prefix(root, other, n - 1);
        assert(decreases_to!(root => root.children@[n - 1]));
        lemma_same_shape_tree_shape(xs.last(), ys.last());
    }
}

proof fn lemma_same_shape_sym(a: NormalizedTree, b: NormalizedTree)
    requires
        same_shape(a, b),
    ensures
        same_shape(b, a),
    decreases a, a.children@.len() + 1,
{
    lemma_same_shapes_sym(a, b, a.children@.len() as int);
    assert(a.children@.take(a.children@.len() as int) =~= a.children@);
    assert(b.children@.take(b.children@.len() as int) =~= b.children@);
}

proof fn lemma_same_shapes_sym(root: NormalizedTree, other: NormalizedTree, n: int)
    requires
        0 <= n <= root.children@.len(),
        root.children@.len() == other.children@.len(),
        same_shapes(root.children@, other.children@),
    ensures
        same_shapes(other.children@.take(n), root.children@.take(n)),
    decreases root, n,
{
    if n > 0 {
        assert(other.children@.take(n).drop_last() =~= other.children@.take(n - 1));
        assert(root.children@.take(n).drop_last() =~= root.children@.take(n - 1));
        lemma_same_shapes_sym(root, other, n - 1);
        lemma_same_shapes_at(root.children@, other.children@, n - 1);
        assert(decreases_to!(root => root.children@[n - 1]));
        lemma_same_shape_sym(root.children@[n - 1], other.children@[n - 1]);
    }
}

/// Pairwise same shapes give the same shape at each position.
proof fn lemma_same_shapes_at(xs: Seq<NormalizedTree>, ys: Seq<NormalizedTree>, i: int)
    requires
        same_shapes(xs, ys),
        0 <= i < xs.len(),
    ensures
        ys.len() == xs.len(),
        same_shape(xs[i], ys[i]),
    decreases xs.len(),
{
    if i < xs.len() - 1 {
        lemma_same_shapes_at(xs.drop_last(), ys.drop_last(), i);
    }
}

/// Pairwise same shapes at each position give same shapes.
proof fn lemma_same_shapes_from(xs: Seq<NormalizedTree>, ys: Seq<NormalizedTree>)
    requires
        xs.len() == ys.len(),
        forall|i: int| 0 <= i < xs.len() ==> same_shape(#[trigger] xs[i], ys[i]),
    ensures
        same_shapes(xs, ys),
    decreases xs.len(),
{
    if xs.len() > 0 {
        assert forall|i: int| 0 <= i < xs.drop_last().len() implies same_shape(
            #[trigger] xs.drop_last()[i],
            ys.drop_last()[i],
        ) by {
            assert(xs.drop_last()[i] == xs[i]);
        }
        lemma_same_shapes_from(xs.drop_last(), ys.drop_last());
        assert(same_shape(xs[xs.len() - 1], ys[xs.len() - 1]));
    }
}

proof fn lemma_same_shape_trans(a: NormalizedTree, b: NormalizedTree, c: NormalizedTree)
    requires
        same_shape(a, b),
        same_shape(b, c),
    ensures
        same_shape(a, c),
    decreases a,
{
    let n = a.children@.len();
    assert forall|i: int| 0 <= i < n implies same_shape(
        #[trigger] a.children@[i],
        c.children@[i],
    ) by {
        lemma_same_shapes_at(a.children@, b.children@, i);
        lemma_same_shapes_at(b.children@, c.children@, i);
        assert(decreases_to!(a => a.children@[i]));
        lemma_same_shape_trans(a.children@[i], b.children@[i], c.children@[i]);
    }
    lemma_same_shapes_from(a.children@, c.children@);
}


/// The anchors of a node list do not depend on the order of the nodes.
pub open spec fn anchors_order_free() -> bool {
    forall|nodes: Seq<NormalizedTree>, p: Seq<int>|
        is_permutation(p, nodes.len() as int) ==> #[trigger] anchors_of(permute(nodes, p))
            == anchors_of(nodes)
}

// ---- the decisions of one alignment step ----

/// The position listing `k`.
pub proof fn lemma_listed(p: Seq<int>, n: int, k: int) -> (i: int)
    requires
        is_permutation(p, n),
        0 <= k < n,
    ensures
        0 <= i < n,
        p[i] == k,
{
    assert(listed(p, k));
    choose|i: int| 0 <= i < p.len() && #[trigger] p[i] == k
}

proof fn lemma_step_decisions(nodes: Seq<NormalizedTree>, p: Seq<int>)
    requires
        nodes.len() >= 1,
        is_permutation(p, nodes.len() as int),
    ensures
        all_identical(permute(nodes, p)) == all_identical(nodes),
        all_identical(nodes) ==> tree_shape(permute(nodes, p)[0]) == tree_shape(nodes[0]),
        all_same_label(permute(nodes, p)) == all_same_label(nodes),
        all_same_label(nodes) ==> permute(nodes, p)[0].label@ == nodes[0].label@,
        all_internal(permute(nodes, p)) == all_internal(nodes),
        all_same_arity(permute(nodes, p)) == all_same_arity(nodes),
        all_same_arity(nodes) ==> permute(nodes, p)[0].children@.len() == nodes[0].children@.len(),
        scalar_kind(permute(nodes, p)) == scalar_kind(nodes),
        scalar_bindings(permute(nodes, p)) == permute(scalar_bindings(nodes), p),
{
    let n = nodes.len() as int;
    let q = permute(nodes, p);
    let z = lemma_listed(p, n, 0);
    assert(q[z] == nodes[0]);
    if all_identical(nodes) {
        lemma_same_shape_refl(nodes[0]);
        assert(q[0] == nodes[p[0]]);
        assert(same_shape(nodes[0], q[0]));
        lemma_same_shape_sym(nodes[0], q[0]);
        assert forall|k: int| 1 <= k < q.len() implies same_shape(q[0], #[trigger] q[k]) by {
            assert(q[k] == nodes[p[k]]);
            assert(same_shape(nodes[0], q[k]));
            lemma_same_shape_trans(q[0], nodes[0], q[k]);
        }
        lemma_same_shape_tree_shape(nodes[0], q[0]);
    }
    if all_identical(q) {
        assert(same_shape(q[0], q[z]) || z == 0);
        if z != 0 {
            lemma_same_shape_sym(q[0], q[z]);
        }
        assert forall|k: int| 1 <= k < nodes.len() implies same_shape(nodes[0], #[trigger] nodes[k]) by {
            let i = lemma_listed(p, n, k);
            assert(q[i] == nodes[k]);
            if i == 0 {
                if z == 0 {
                } else {
                    lemma_same_shape_sym(q[0], q[z]);
                }
            } else if z == 0 {
            } else {
                lemma_same_shape_trans(q[z], q[0], q[i]);
            }
        }
    }
    if all_same_label(q) {
        assert forall|k: int| 0 <= k < nodes.len() implies (#[trigger] nodes[k]).label@ == nodes[0].label@ by {
            let i = lemma_listed(p, n, k);
            assert(q[i] == nodes[k]);
        }
    }
    if all_internal(q) {
        assert forall|k: int| 0 <= k < nodes.len() implies (#[trigger] nodes[k]).leaf is None by {
            let i = lemma_listed(p, n, k);
            assert(q[i] == nodes[k]);
        }
    }
    if all_same_arity(q) {
        assert forall|k: int| 0 <= k < nodes.len() implies (#[trigger] nodes[k]).children@.len() == nodes[0].children@.len() by {
            let i = lemma_listed(p, n, k);
            assert(q[i] == nodes[k]);
        }
    }
    if all_same_label(nodes) {
        assert(q[0] == nodes[p[0]]);
    }
    if all_same_arity(nodes) {
        assert(q[0] == nodes[p[0]]);
    }
    let allb_n = forall|k: int| 0 <= k < nodes.len() ==> block_label((#[trigger] nodes[k]).label@);
    let allb_q = forall|k: int| 0 <= k < q.len() ==> block_label((#[trigger] q[k]).label@);
    if allb_q {
        assert forall|k: int| 0 <= k < nodes.len() implies block_label((#[trigger] nodes[k]).label@) by {
            let i = lemma_listed(p, n, k);
            assert(q[i] == nodes[k]);
        }
    }
    if allb_n {
        assert forall|k: int| 0 <= k < q.len() implies block_label((#[trigger] q[k]).label@) by {
            assert(q[k] == nodes[p[k]]);
        }
    }
    assert(scalar_bindings(q) =~= permute(scalar_bindings(nodes), p));
}

// ---- grouped holes ----

proof fn lemma_emit_perm(gs: Seq<Seq<SubElement>>, hs: Seq<HoleShape>, p: Seq<int>)
    requires
        is_permutation(p, gs.len() as int),
        divergence_order_free(),
    ensures
        emit_group(permute(gs, p), perm_table(hs, p)) == (
            emit_group(gs, hs).0,
            perm_table(emit_group(gs, hs).1, p),
        ),
{
    let n = gs.len() as int;
    let g2 = permute(gs, p);
    if any_nonempty(gs) {
        let k = choose|k: int| 0 <= k < gs.len() && (#[trigger] gs[k]).len() > 0;
        let i = lemma_listed(p, n, k);
        assert(g2[i] == gs[k]);
    }
    if any_nonempty(g2) {
        let i = choose|i: int| 0 <= i < g2.len() && (#[trigger] g2[i]).len() > 0;
        assert(g2[i] == gs[p[i]]);
    }
    let v1 = exists|k: int| 0 <= k < gs.len() && (#[trigger] gs[k]).len() > 1;
    let v2 = exists|k: int| 0 <= k < g2.len() && (#[trigger] g2[k]).len() > 1;
    if v1 {
        let k = choose|k: int| 0 <= k < gs.len() && (#[trigger] gs[k]).len() > 1;
        let i = lemma_listed(p, n, k);
        assert(g2[i] == gs[k]);
    }
    if v2 {
        let i = choose|i: int| 0 <= i < g2.len() && (#[trigger] g2[i]).len() > 1;
        assert(g2[i] == gs[p[i]]);
    }
    let o1 = exists|k: int| 0 <= k < gs.len() && (#[trigger] gs[k]).len() == 0;
    let o2 = exists|k: int| 0 <= k < g2.len() && (#[trigger] g2[k]).len() == 0;
    if o1 {
        let k = choose|k: int| 0 <= k < gs.len() && (#[trigger] gs[k]).len() == 0;
        let i = lemma_listed(p, n, k);
        assert(g2[i] == gs[k]);
    }
    if o2 {
        let i = choose|i: int| 0 <= i < g2.len() && (#[trigger] g2[i]).len() == 0;
        assert(g2[i] == gs[p[i]]);
    }
    assert(classify(g2) == classify(gs));
    lemma_push_new_hole(classify(gs), gs, hs, p);
}

proof fn lemma_push_new_hole(
    kind: crate::domain::template::HoleKind,
    bs: Seq<Seq<SubElement>>,
    hs: Seq<HoleShape>,
    p: Seq<int>,
)
    requires
        is_permutation(p, bs.len() as int),
        divergence_order_free(),
    ensures
        perm_table(hs.push(new_hole(kind, bs, hs)), p) == perm_table(hs, p).push(
            new_hole(kind, permute(bs, p), perm_table(hs, p)),
        ),
{
    assert(divergence_spec(permute(bs, p)) == divergence_spec(bs));
    assert(perm_table(hs.push(new_hole(kind, bs, hs)), p) =~= perm_table(hs, p).push(
        new_hole(kind, permute(bs, p), perm_table(hs, p)),
    ));
}


// ---- the alignment, step by step ----

/// The hypotheses under which the common-subsequence walk is stable:
/// every cursor lies within its node's children and the anchors still to
/// come are a subsequence of what follows it.
pub open spec fn walk_ready(
    nodes: Seq<NormalizedTree>,
    anchors: Seq<u64>,
    a: int,
    cursors: Seq<int>,
) -> bool {
    &&& 0 <= a <= anchors.len()
    &&& cursors.len() == nodes.len()
    &&& forall|k: int|
        0 <= k < nodes.len() ==> {
            &&& 0 <= cursors[k] <= (#[trigger] nodes[k]).children@.len()
            &&& is_subseq(
                anchors.subrange(a, anchors.len() as int),
                fps_of(nodes[k].children@).subrange(cursors[k], nodes[k].children@.len() as int),
            )
        }
}

/// Aligning reordered nodes gives the same template node and the same
/// holes, each with its bindings reordered the same way.
proof fn lemma_align_perm(nodes: Seq<NormalizedTree>, hs: Seq<HoleShape>, p: Seq<int>)
    requires
        is_permutation(p, nodes.len() as int),
        divergence_order_free(),
        anchors_order_free(),
    ensures
        align(permute(nodes, p), perm_table(hs, p)) == (
            align(nodes, hs).0,
            perm_table(align(nodes, hs).1, p),
        ),
    decreases nodes[0], 2int, 0int,
{
    let n = nodes.len() as int;
    let q = permute(nodes, p);
    if n == 0 {
        assert(q.len() == 0);
    } else {
        lemma_step_decisions(nodes, p);
        if n == 1 {
            assert(p[0] == 0);
            assert(q[0] == nodes[0]);
        } else if all_identical(nodes) {
        } else if all_same_label(nodes) && all_internal(nodes) {
            if all_same_arity(nodes) {
                lemma_positional_perm(nodes, 0, hs, p);
            } else {
                assert(anchors_of(q) == anchors_of(nodes));
                let anchors = anchors_of(nodes);
                lemma_anchors_subseq(nodes);
                assert(anchors.subrange(0, anchors.len() as int) =~= anchors);
                assert forall|k: int| 0 <= k < nodes.len() implies {
                    &&& 0 <= zero_cursors(n as nat)[k] <= (#[trigger] nodes[k]).children@.len()
                    &&& is_subseq(
                        anchors.subrange(0, anchors.len() as int),
                        fps_of(nodes[k].children@).subrange(
                            zero_cursors(n as nat)[k],
                            nodes[k].children@.len() as int,
                        ),
                    )
                } by {
                    assert(fps_of(nodes[k].children@).subrange(0, nodes[k].children@.len() as int)
                        =~= fps_of(nodes[k].children@));
                }
                assert(permute(zero_cursors(n as nat), p) =~= zero_cursors(n as nat));
                lemma_walk_perm(nodes, anchors, 0, zero_cursors(n as nat), hs, p);
            }
        } else {
            lemma_push_new_hole(scalar_kind(nodes), scalar_bindings(nodes), hs, p);
        }
    }
}

proof fn lemma_positional_perm(nodes: Seq<NormalizedTree>, pos: int, hs: Seq<HoleShape>, p: Seq<int>)
    requires
        nodes.len() >= 1,
        is_permutation(p, nodes.len() as int),
        all_same_arity(nodes),
        divergence_order_free(),
        anchors_order_free(),
    ensures
        align_positional(permute(nodes, p), pos, perm_table(hs, p)) == (
            align_positional(nodes, pos, hs).0,
            perm_table(align_positional(nodes, pos, hs).1, p),
        ),
    decreases nodes[0], 1int, nodes[0].children@.len() - pos,
{
    let q = permute(nodes, p);
    lemma_step_decisions(nodes, p);
    if pos < 0 || pos >= nodes[0].children@.len() {
    } else {
        let col = column(nodes, pos);
        assert(col[0] == nodes[0].children@[pos]);
        assert forall|i: int| 0 <= i < q.len() implies (#[trigger] q[i]).children@.len()
            == nodes[0].children@.len() by {
            assert(q[i] == nodes[p[i]]);
        }
        assert(column(q, pos) =~= permute(col, p));
        lemma_align_perm(col, hs, p);
        let first = align(col, hs);
        lemma_positional_perm(nodes, pos + 1, first.1, p);
    }
}

proof fn lemma_walk_perm(
    nodes: Seq<NormalizedTree>,
    anchors: Seq<u64>,
    a: int,
    cursors: Seq<int>,
    hs: Seq<HoleShape>,
    p: Seq<int>,
)
    requires
        nodes.len() >= 1,
        is_permutation(p, nodes.len() as int),
        walk_ready(nodes, anchors, a, cursors),
        divergence_order_free(),
        anchors_order_free(),
    ensures
        lcs_walk(permute(nodes, p), anchors, a, permute(cursors, p), perm_table(hs, p)) == (
            lcs_walk(nodes, anchors, a, cursors, hs).0,
            perm_table(lcs_walk(nodes, anchors, a, cursors, hs).1, p),
        ),
    decreases nodes[0], 1int, anchors.len() - a,
{
    let n = nodes.len() as int;
    let q = permute(nodes, p);
    let c2 = permute(cursors, p);
    assert forall|i: int| 0 <= i < n implies #[trigger] q[i] == nodes[p[i]] && c2[i] == cursors[p[i]] by {
    }
    if a >= anchors.len() {
        assert(trailing_gaps(q, c2) =~= permute(trailing_gaps(nodes, cursors), p));
        lemma_emit_perm(trailing_gaps(nodes, cursors), hs, p);
    } else {
        let fp = anchors[a];
        let ends = gap_ends(nodes, cursors, fp);
        assert(gap_ends(q, c2, fp) =~= permute(ends, p));
        let gs = gaps_before(nodes, cursors, fp);
        assert(gaps_before(q, c2, fp) =~= permute(gs, p));
        lemma_emit_perm(gs, hs, p);
        let g = emit_group(gs, hs);
        let x = anchors.subrange(a, anchors.len() as int);
        assert(x[0] == fp);
        assert(x.drop_first() =~= anchors.subrange(a + 1, anchors.len() as int));
        let nc = Seq::new(n as nat, |k: int| ends[k] + 1);
        assert forall|k: int| 0 <= k < n implies {
            &&& 0 <= ends[k] < (#[trigger] nodes[k]).children@.len()
            &&& 0 <= nc[k] <= nodes[k].children@.len()
            &&& is_subseq(
                anchors.subrange(a + 1, anchors.len() as int),
                fps_of(nodes[k].children@).subrange(nc[k], nodes[k].children@.len() as int),
            )
        } by {
            assert(fps_of(nodes[k].children@).len() == nodes[k].children@.len());
            lemma_gap_end_anchor(nodes[k].children@, cursors[k], x);
        }
        assert(0 <= ends[0] < nodes[0].children@.len());
        assert(q[0] == nodes[p[0]]);
        assert(0 <= gap_ends(q, c2, fp)[0] < q[0].children@.len());
        let an = anchor_nodes(nodes, ends);
        assert(an[0] == nodes[0].children@[ends[0]]);
        assert(anchor_nodes(q, gap_ends(q, c2, fp)) =~= permute(an, p));
        lemma_align_perm(an, g.1, p);
        let t = align(an, g.1);
        assert(Seq::new(n as nat, |k: int| gap_ends(q, c2, fp)[k] + 1) =~= permute(nc, p));
        lemma_walk_perm(nodes, anchors, a + 1, nc, t.1, p);
    }
}


// ---- reordering and multisets ----

/// Removing the position that lists the last index leaves a permutation
/// of the smaller range.
pub proof fn lemma_perm_remove_last(p: Seq<int>, n: int, j: int)
    requires
        n >= 1,
        is_permutation(p, n),
        0 <= j < n,
        p[j] == n - 1,
    ensures
        is_permutation(p.remove(j), n - 1),
{
    let r = p.remove(j);
    assert forall|i: int| 0 <= i < n - 1 implies 0 <= #[trigger] r[i] < n - 1 by {
        let ii = if i < j { i } else { i + 1 };
        assert(r[i] == p[ii]);
        assert(ii != j);
    }
    assert forall|i: int, k: int| 0 <= i < n - 1 && 0 <= k < n - 1 && i != k implies r[i] != r[k] by {
        let ii = if i < j { i } else { i + 1 };
        let kk = if k < j { k } else { k + 1 };
        assert(r[i] == p[ii] && r[k] == p[kk]);
    }
    assert forall|k: int| 0 <= k < n - 1 implies #[trigger] listed(r, k) by {
        let i = lemma_listed(p, n, k);
        assert(i != j);
        let ii = if i < j { i } else { i - 1 };
        assert(r[ii] == k);
    }
}

/// Reordering a sequence keeps its multiset of elements.
pub proof fn lemma_permute_multiset<A>(s: Seq<A>, p: Seq<int>)
    requires
        is_permutation(p, s.len() as int),
    ensures
        permute(s, p).to_multiset() == s.to_multiset(),
    decreases s.len(),
{
    broadcast use vstd::seq_lib::group_to_multiset_ensures;
    broadcast use vstd::multiset::group_multiset_axioms;
    let n = s.len() as int;
    let x = permute(s, p);
    if n == 0 {
        assert(x =~= s);
    } else {
        let j = lemma_listed(p, n, n - 1);
        lemma_perm_remove_last(p, n, j);
        let r = p.remove(j);
        assert(permute(s.drop_last(), r) =~= x.remove(j)) by {
            assert forall|i: int| 0 <= i < n - 1 implies #[trigger] permute(s.drop_last(), r)[i]
                == x.remove(j)[i] by {
                let ii = if i < j { i } else { i + 1 };
                assert(r[i] == p[ii]);
            }
        }
        lemma_permute_multiset(s.drop_last(), r);
        vstd::seq_lib::to_multiset_remove(x, j);
        assert(x[j] == s[n - 1]);
        assert(s =~= s.drop_last().push(s[n - 1]));
        vstd::seq_lib::to_multiset_build(s.drop_last(), s[n - 1]);
        assert(x.to_multiset().count(x[j]) > 0) by {
            assert(x.contains(x[j]));
        }
        assert(x.to_multiset() =~= x.to_multiset().remove(x[j]).insert(x[j]));
    }
}

/// The anchors do not depend on the order of the nodes.
pub proof fn lemma_anchors_order_free()
    ensures
        anchors_order_free(),
{
    assert forall|nodes: Seq<NormalizedTree>, p: Seq<int>|
        is_permutation(p, nodes.len() as int) implies #[trigger] anchors_of(permute(nodes, p))
        == anchors_of(nodes) by {
        let ls = child_fp_lists(nodes);
        let lq = child_fp_lists(permute(nodes, p));
        assert(lq =~= permute(ls, p));
        lemma_permute_multiset(ls, p);
        lemma_lex_total_ordering();
        ls.lemma_sort_by_ensures(lex_leq());
        lq.lemma_sort_by_ensures(lex_leq());
        vstd::seq_lib::lemma_sorted_unique(ls.sort_by(lex_leq()), lq.sort_by(lex_leq()), lex_leq());
    }
}


// ---- the law ----

/// Permutation stability: reordering the members by a permutation `p`
/// leaves the template's root unchanged, and leaves every hole's number,
/// kind and divergence summary unchanged while reordering its bindings
/// by `p` (hole `h` of the reordered members binds, for member `i`, what
/// hole `h` of the original members binds for member `p[i]`).
pub proof fn lemma_antiunify_permutation_stable(members: Seq<NormalizedTree>, p: Seq<int>)
    requires
        is_permutation(p, members.len() as int),
    ensures
        antiunify_spec(permute(members, p)).0 == antiunify_spec(members).0,
        antiunify_spec(permute(members, p)).1 == perm_table(antiunify_spec(members).1, p),
        antiunify_spec(permute(members, p)).1.len() == antiunify_spec(members).1.len(),
        forall|h: int|
            0 <= h < antiunify_spec(members).1.len() ==> {
                &&& (#[trigger] antiunify_spec(permute(members, p)).1[h]).id
                    == antiunify_spec(members).1[h].id
                &&& antiunify_spec(permute(members, p)).1[h].kind
                    == antiunify_spec(members).1[h].kind
                &&& antiunify_spec(permute(members, p)).1[h].divergence
                    == antiunify_spec(members).1[h].divergence
                &&& antiunify_spec(permute(members, p)).1[h].bindings
                    == permute(antiunify_spec(members).1[h].bindings, p)
            },
{
    lemma_divergence_order_free();
    lemma_anchors_order_free();
    lemma_align_perm(members, Seq::empty(), p);
    assert(perm_table(Seq::<HoleShape>::empty(), p) =~= Seq::<HoleShape>::empty());
}

} // verus!
