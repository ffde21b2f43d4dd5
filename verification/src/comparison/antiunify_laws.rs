//! What every template computed by [`antiunify`](super::antiunify::antiunify)
//! satisfies: its hole table is numbered in order with one binding per
//! member, degenerate member lists give hole-free templates, and every
//! member is rebuilt exactly from the template.
use vstd::prelude::*;

use crate::domain::template::{HoleKind, HoleShape, SubElement, TemplateShape};
use crate::domain::tree::{tree_views, NormalizedTree, TreeView};
use super::antiunify::{
    align, align_positional, all_identical, all_internal, all_same_arity, all_same_label,
    anchor_nodes, anchors_of, antiunify_spec, children_fit, column, emit_group, empty_leaf_shape,
    fits, fps_of, gap_ends, gaps_before, lcs_walk, lemma_anchors_subseq, lemma_gap_end_anchor,
    lemma_tree_views_concat, new_hole, rebuild, rebuild_children, same_shape, same_shapes,
    scalar_bindings, scalar_kind, trailing_gaps, tree_shape, tree_shapes, zero_cursors,
};
use super::divergence::sat_u32;
use super::lcs::is_subseq;

verus! {

/// `r` is `hs` followed by holes that each carry their own position as
/// number and one binding per member of an `n`-member list.
pub open spec fn appended_ok(hs: Seq<HoleShape>, r: Seq<HoleShape>, n: nat) -> bool {
    &&& hs.len() <= r.len()
    &&& forall|i: int| 0 <= i < hs.len() ==> #[trigger] r[i] == hs[i]
    &&& forall|i: int|
        hs.len() <= i < r.len() ==> {
            &&& (#[trigger] r[i]).id == sat_u32(i as nat)
            &&& r[i].bindings.len() == n
            &&& r[i].divergence.members == sat_u32(n)
        }
}

proof fn lemma_appended_trans(a: Seq<HoleShape>, b: Seq<HoleShape>, c: Seq<HoleShape>, n: nat)
    requires
        appended_ok(a, b, n),
        appended_ok(b, c, n),
    ensures
        appended_ok(a, c, n),
{
    assert forall|i: int| 0 <= i < a.len() implies #[trigger] c[i] == a[i] by {
        assert(c[i] == b[i]);
    }
    assert forall|i: int| a.len() <= i < c.len() implies {
        &&& (#[trigger] c[i]).id == sat_u32(i as nat)
        &&& c[i].bindings.len() == n
        &&& c[i].divergence.members == sat_u32(n)
    } by {
        if i < b.len() {
            assert(c[i] == b[i]);
        }
    }
}

proof fn lemma_appended_push(hs: Seq<HoleShape>, kind: HoleKind, bs: Seq<Seq<SubElement>>)
    ensures
        appended_ok(hs, hs.push(new_hole(kind, bs, hs)), bs.len()),
{
}

proof fn lemma_emit_group_appended(gs: Seq<Seq<SubElement>>, hs: Seq<HoleShape>)
    ensures
        appended_ok(hs, emit_group(gs, hs).1, gs.len()),
{
}

/// Aligning `nodes` appends to the table only holes numbered by their
/// position with one binding per node.
pub proof fn lemma_align_appended(nodes: Seq<NormalizedTree>, hs: Seq<HoleShape>)
    ensures
        appended_ok(hs, align(nodes, hs).1, nodes.len()),
    decreases nodes[0], 2int, 0int,
{
    if nodes.len() == 0 || nodes.len() == 1 || all_identical(nodes) {
    } else if all_same_label(nodes)
        && all_internal(nodes) {
        if all_same_arity(nodes) {
            lemma_positional_appended(nodes, 0, hs);
        } else {
            lemma_walk_appended(nodes, anchors_of(nodes), 0, zero_cursors(nodes.len()), hs);
        }
    } else {
        lemma_appended_push(hs, scalar_kind(nodes), scalar_bindings(nodes));
    }
}

/// Child-wise alignment appends only well-numbered holes of the members'
/// arity.
pub proof fn lemma_positional_appended(nodes: Seq<NormalizedTree>, pos: int, hs: Seq<HoleShape>)
    ensures
        appended_ok(hs, align_positional(nodes, pos, hs).1, nodes.len()),
    decreases nodes[0], 1int, nodes[0].children@.len() - pos,
{
    if nodes.len() == 0 || pos < 0 || pos >= nodes[0].children@.len() {
    } else {
        let col = column(nodes, pos);
        assert(col[0] == nodes[0].children@[pos]);
        let first = align(col, hs);
        lemma_align_appended(col, hs);
        lemma_positional_appended(nodes, pos + 1, first.1);
        lemma_appended_trans(hs, first.1, align_positional(nodes, pos + 1, first.1).1, nodes.len());
    }
}

/// The common-subsequence walk appends only well-numbered holes of the
/// members' arity.
pub proof fn lemma_walk_appended(
    nodes: Seq<NormalizedTree>,
    anchors: Seq<u64>,
    a: int,
    cursors: Seq<int>,
    hs: Seq<HoleShape>,
)
    ensures
        appended_ok(hs, lcs_walk(nodes, anchors, a, cursors, hs).1, nodes.len()),
    decreases nodes[0], 1int, anchors.len() - a,
{
    if nodes.len() == 0 || a < 0 || a >= anchors.len() {
        lemma_emit_group_appended(trailing_gaps(nodes, cursors), hs);
    } else {
        let fp = anchors[a];
        let ends = gap_ends(nodes, cursors, fp);
        let g = emit_group(gaps_before(nodes, cursors, fp), hs);
        lemma_emit_group_appended(gaps_before(nodes, cursors, fp), hs);
        if 0 <= ends[0] < nodes[0].children@.len() {
            let an = anchor_nodes(nodes, ends);
            assert(an[0] == nodes[0].children@[ends[0]]);
            let t = align(an, g.1);
            lemma_align_appended(an, g.1);
            let nc = Seq::new(nodes.len(), |k: int| ends[k] + 1);
            lemma_walk_appended(nodes, anchors, a + 1, nc, t.1);
            lemma_appended_trans(hs, g.1, t.1, nodes.len());
            lemma_appended_trans(hs, t.1, lcs_walk(nodes, anchors, a + 1, nc, t.1).1, nodes.len());
        }
    }
}

/// The hole table of a template: hole `i` is numbered `i` (saturated
/// into `u32`), binds one element list per member, and its divergence
/// counts every member.
pub proof fn lemma_hole_table(members: Seq<NormalizedTree>)
    ensures
        forall|i: int|
            0 <= i < antiunify_spec(members).1.len() ==> {
                &&& (#[trigger] antiunify_spec(members).1[i]).id == sat_u32(i as nat)
                &&& antiunify_spec(members).1[i].bindings.len() == members.len()
                &&& antiunify_spec(members).1[i].divergence.members == sat_u32(members.len())
            },
{
    lemma_align_appended(members, Seq::empty());
}

/// An empty member list gives the unlabelled empty fixed root and no
/// holes.
pub proof fn lemma_empty_members()
    ensures
        antiunify_spec(Seq::<NormalizedTree>::empty()) == (
            empty_leaf_shape(),
            Seq::<HoleShape>::empty(),
        ),
{
}

/// A single member, or members identical up to spans, give the first
/// member's own structure and no holes: a tree is its own
/// generalization.
pub proof fn lemma_identical_members(members: Seq<NormalizedTree>)
    requires
        members.len() >= 1,
        all_identical(members),
    ensures
        antiunify_spec(members) == (tree_shape(members[0]), Seq::<HoleShape>::empty()),
{
}

// ---- reconstruction ----

/// `big` starts with `small`.
pub open spec fn extends(small: Seq<HoleShape>, big: Seq<HoleShape>) -> bool {
    small.len() <= big.len() && forall|i: int| 0 <= i < small.len() ==> #[trigger] big[i] == small[i]
}

proof fn lemma_extends_trans(a: Seq<HoleShape>, b: Seq<HoleShape>, c: Seq<HoleShape>)
    requires
        extends(a, b),
        extends(b, c),
    ensures
        extends(a, c),
{
    assert forall|i: int| 0 <= i < a.len() implies #[trigger] c[i] == a[i] by {
        assert(c[i] == b[i]);
    }
}

/// Every tree has its own shape.
pub proof fn lemma_same_shape_refl(t: NormalizedTree)
    ensures
        same_shape(t, t),
    decreases t, 1int,
{
    lemma_same_shapes_refl(t.children@);
}

/// Every sequence of trees agrees pairwise with itself.
pub proof fn lemma_same_shapes_refl(xs: Seq<NormalizedTree>)
    ensures
        same_shapes(xs, xs),
    decreases xs, 0int,
{
    if xs.len() > 0 {
        lemma_same_shapes_refl(xs.drop_last());
        lemma_same_shape_refl(xs.last());
    }
}

proof fn lemma_same_shapes_index(xs: Seq<NormalizedTree>, ys: Seq<NormalizedTree>)
    requires
        same_shapes(xs, ys),
    ensures
        xs.len() == ys.len(),
        forall|i: int| 0 <= i < xs.len() ==> same_shape(#[trigger] xs[i], ys[i]),
    decreases xs.len(),
{
    if xs.len() > 0 {
        lemma_same_shapes_index(xs.drop_last(), ys.drop_last());
        assert forall|i: int| 0 <= i < xs.len() implies same_shape(#[trigger] xs[i], ys[i]) by {
            if i < xs.len() - 1 {
                assert(xs.drop_last()[i] == xs[i]);
                assert(ys.drop_last()[i] == ys[i]);
            }
        }
    }
}

proof fn lemma_tree_shapes_index(ts: Seq<NormalizedTree>)
    ensures
        tree_shapes(ts).len() == ts.len(),
        forall|i: int| 0 <= i < ts.len() ==> #[trigger] tree_shapes(ts)[i] == tree_shape(ts[i]),
    decreases ts.len(),
{
    if ts.len() > 0 {
        lemma_tree_shapes_index(ts.drop_last());
    }
}

/// The views of a non-empty sequence: the first view, then the rest.
proof fn lemma_tree_views_cons(s: Seq<NormalizedTree>)
    requires
        s.len() > 0,
    ensures
        tree_views(s) == seq![s[0].tree_view()] + tree_views(s.drop_first()),
{
    let head = s.subrange(0, 1);
    assert(s =~= head + s.drop_first());
    lemma_tree_views_concat(head, s.drop_first());
    assert(head.drop_last() =~= Seq::<NormalizedTree>::empty());
    assert(tree_views(head.drop_last()) =~= Seq::<TreeView>::empty());
    assert(head.last() == s[0]);
    assert(tree_views(head) =~= seq![s[0].tree_view()]);
}

/// The children `m.children[j..]` views.
pub open spec fn tail_views(m: NormalizedTree, j: int) -> Seq<TreeView> {
    tree_views(m.children@.subrange(j, m.children@.len() as int))
}

/// The view of the children from `j` on is the view of child `j`
/// followed by the view of the children from `j + 1` on.
proof fn lemma_tail_views_step(m: NormalizedTree, j: int)
    requires
        0 <= j < m.children@.len(),
    ensures
        tail_views(m, j) == seq![m.children@[j].tree_view()] + tail_views(m, j + 1),
{
    let s = m.children@.subrange(j, m.children@.len() as int);
    lemma_tree_views_cons(s);
    assert(s.drop_first() =~= m.children@.subrange(j + 1, m.children@.len() as int));
}

/// The view of `m.children[c..e]` followed by that of the children from
/// `e` on is the view of the children from `c` on.
proof fn lemma_tail_views_split(m: NormalizedTree, c: int, e: int)
    requires
        0 <= c <= e <= m.children@.len(),
    ensures
        tree_views(m.children@.subrange(c, e)) + tail_views(m, e) == tail_views(m, c),
{
    let len = m.children@.len() as int;
    assert(m.children@.subrange(c, len) =~= m.children@.subrange(c, e) + m.children@.subrange(e, len));
    lemma_tree_views_concat(m.children@.subrange(c, e), m.children@.subrange(e, len));
}

/// The verbatim projection of a tree rebuilds every tree of the same
/// shape exactly.
pub proof fn lemma_tree_shape_rebuild(t: NormalizedTree, m: NormalizedTree, holes: Seq<HoleShape>, k: int)
    requires
        same_shape(t, m),
    ensures
        fits(tree_shape(t), holes, k, m),
        rebuild(tree_shape(t), holes, k, m) == m.tree_view(),
    decreases t, 1int, 0int,
{
    lemma_same_shapes_index(t.children@, m.children@);
    lemma_tree_shapes_rebuild(t.children@, m, holes, k, 0);
    let ts = tree_shapes(t.children@);
    lemma_tree_shapes_index(t.children@);
    assert(ts.subrange(0, ts.len() as int) =~= ts);
    assert(m.children@.subrange(0, m.children@.len() as int) =~= m.children@);
}

/// The verbatim projections of `ts[j..]` rebuild `m`'s children from
/// `j` on when they agree in shape pairwise.
proof fn lemma_tree_shapes_rebuild(
    ts: Seq<NormalizedTree>,
    m: NormalizedTree,
    holes: Seq<HoleShape>,
    k: int,
    j: int,
)
    requires
        ts.len() == m.children@.len(),
        forall|i: int| 0 <= i < ts.len() ==> same_shape(#[trigger] ts[i], m.children@[i]),
        0 <= j <= ts.len(),
    ensures
        children_fit(tree_shapes(ts).subrange(j, ts.len() as int), holes, k, m, j),
        rebuild_children(tree_shapes(ts).subrange(j, ts.len() as int), holes, k, m, j)
            == tail_views(m, j),
    decreases ts, 0int, ts.len() - j,
{
    lemma_tree_shapes_index(ts);
    let sub = tree_shapes(ts).subrange(j, ts.len() as int);
    if j == ts.len() {
        assert(m.children@.subrange(j, j) =~= Seq::<NormalizedTree>::empty());
        assert(tree_views(Seq::<NormalizedTree>::empty()) =~= Seq::<TreeView>::empty());
    } else {
        assert(sub[0] == tree_shape(ts[j]));
        assert(sub.drop_first() =~= tree_shapes(ts).subrange(j + 1, ts.len() as int));
        assert(decreases_to!(ts => ts[j]));
        lemma_tree_shape_rebuild(ts[j], m.children@[j], holes, k);
        lemma_tree_shapes_rebuild(ts, m, holes, k, j + 1);
        lemma_tail_views_step(m, j);
    }
}

/// The template node aligned from `nodes` rebuilds every node exactly
/// against any hole table that starts with the one the alignment left;
/// when it is a hole, that hole binds one element of every node.
pub proof fn lemma_align_rebuild(nodes: Seq<NormalizedTree>, hs: Seq<HoleShape>, k: int, holes: Seq<HoleShape>)
    requires
        1 <= nodes.len(),
        0 <= k < nodes.len(),
        extends(align(nodes, hs).1, holes),
        holes.len() <= u32::MAX + 1,
    ensures
        fits(align(nodes, hs).0, holes, k, nodes[k]),
        rebuild(align(nodes, hs).0, holes, k, nodes[k]) == nodes[k].tree_view(),
        align(nodes, hs).0 matches TemplateShape::Hole(id) ==> {
            &&& id < holes.len()
            &&& k < holes[id as int].bindings.len()
            &&& holes[id as int].bindings[k].len() == 1
        },
    decreases nodes[0], 2int, 0int,
{
    let n = nodes.len();
    if n == 1 || all_identical(nodes) {
        if k == 0 {
            lemma_same_shape_refl(nodes[0]);
        } else {
            assert(same_shape(nodes[0], nodes[k]));
        }
        lemma_tree_shape_rebuild(nodes[0], nodes[k], holes, k);
    } else if all_same_label(nodes) && all_internal(nodes) {
        let m = nodes[k];
        assert(m.children@.subrange(0, m.children@.len() as int) =~= m.children@);
        if all_same_arity(nodes) {
            lemma_positional_rebuild(nodes, 0, hs, k, holes);
            assert(nodes[k].children@.len() == nodes[0].children@.len());
        } else {
            let anchors = anchors_of(nodes);
            lemma_anchors_subseq(nodes);
            assert forall|q: int| 0 <= q < n implies is_subseq(
                anchors.subrange(0, anchors.len() as int),
                fps_of((#[trigger] nodes[q]).children@).subrange(
                    zero_cursors(n)[q],
                    nodes[q].children@.len() as int,
                ),
            ) by {
                assert(anchors.subrange(0, anchors.len() as int) =~= anchors);
                assert(fps_of(nodes[q].children@).subrange(0, nodes[q].children@.len() as int)
                    =~= fps_of(nodes[q].children@));
                assert(is_subseq(anchors, fps_of(nodes[q].children@)));
            }
            lemma_walk_rebuild(nodes, anchors, 0, zero_cursors(n), hs, k, holes);
        }
    } else {
        assert(hs.len() < holes.len());
        assert(holes[hs.len() as int] == align(nodes, hs).1[hs.len() as int]);
        assert(scalar_bindings(nodes)[k] == seq![crate::comparison::antiunify::sub_element_spec(nodes[k])]);
    }
}

/// Child-wise alignment from `pos` on rebuilds every node's children
/// from `pos` on.
pub proof fn lemma_positional_rebuild(
    nodes: Seq<NormalizedTree>,
    pos: int,
    hs: Seq<HoleShape>,
    k: int,
    holes: Seq<HoleShape>,
)
    requires
        1 <= nodes.len(),
        0 <= k < nodes.len(),
        all_same_arity(nodes),
        0 <= pos <= nodes[0].children@.len(),
        extends(align_positional(nodes, pos, hs).1, holes),
        holes.len() <= u32::MAX + 1,
    ensures
        children_fit(align_positional(nodes, pos, hs).0, holes, k, nodes[k], pos),
        rebuild_children(align_positional(nodes, pos, hs).0, holes, k, nodes[k], pos)
            == tail_views(nodes[k], pos),
    decreases nodes[0], 1int, nodes[0].children@.len() - pos,
{
    let m = nodes[k];
    assert(m.children@.len() == nodes[0].children@.len());
    if pos == nodes[0].children@.len() {
        assert(m.children@.subrange(pos, pos) =~= Seq::<NormalizedTree>::empty());
        assert(tree_views(Seq::<NormalizedTree>::empty()) =~= Seq::<TreeView>::empty());
    } else {
        let col = column(nodes, pos);
        assert(col[0] == nodes[0].children@[pos]);
        assert(col[k] == m.children@[pos]);
        let first = align(col, hs);
        let rest = align_positional(nodes, pos + 1, first.1);
        lemma_positional_appended(nodes, pos + 1, first.1);
        assert(extends(first.1, rest.1));
        lemma_extends_trans(first.1, rest.1, holes);
        lemma_align_rebuild(col, hs, k, holes);
        lemma_positional_rebuild(nodes, pos + 1, first.1, k, holes);
        let cs = seq![first.0] + rest.0;
        assert(cs[0] == first.0);
        assert(cs.drop_first() =~= rest.0);
        lemma_tail_views_step(m, pos);
        match first.0 {
            TemplateShape::Fixed { .. } => {},
            TemplateShape::Hole(id) => {
                lemma_tail_views_split(m, pos, pos + 1);
                lemma_tree_views_cons(m.children@.subrange(pos, pos + 1));
                assert(m.children@.subrange(pos, pos + 1).drop_first() =~= Seq::<NormalizedTree>::empty());
                assert(tree_views(Seq::<NormalizedTree>::empty()) =~= Seq::<TreeView>::empty());
            },
        }
    }
}

/// The common-subsequence walk from anchor `a` on, each node's cursor
/// at `cursors`, rebuilds every node's children from its cursor on.
pub proof fn lemma_walk_rebuild(
    nodes: Seq<NormalizedTree>,
    anchors: Seq<u64>,
    a: int,
    cursors: Seq<int>,
    hs: Seq<HoleShape>,
    k: int,
    holes: Seq<HoleShape>,
)
    requires
        1 <= nodes.len(),
        0 <= k < nodes.len(),
        0 <= a <= anchors.len(),
        cursors.len() == nodes.len(),
        forall|q: int| 0 <= q < nodes.len() ==> 0 <= #[trigger] cursors[q] <= nodes[q].children@.len(),
        forall|q: int|
            0 <= q < nodes.len() ==> is_subseq(
                anchors.subrange(a, anchors.len() as int),
                fps_of((#[trigger] nodes[q]).children@).subrange(
                    cursors[q],
                    nodes[q].children@.len() as int,
                ),
            ),
        extends(lcs_walk(nodes, anchors, a, cursors, hs).1, holes),
        holes.len() <= u32::MAX + 1,
    ensures
        children_fit(lcs_walk(nodes, anchors, a, cursors, hs).0, holes, k, nodes[k], cursors[k]),
        rebuild_children(lcs_walk(nodes, anchors, a, cursors, hs).0, holes, k, nodes[k], cursors[k])
            == tail_views(nodes[k], cursors[k]),
    decreases nodes[0], 1int, anchors.len() - a,
{
    let m = nodes[k];
    let ck = cursors[k];
    let len = m.children@.len() as int;
    if a == anchors.len() {
        let gs = trailing_gaps(nodes, cursors);
        assert(gs[k].len() == len - ck);
        let g = emit_group(gs, hs);
        assert(lcs_walk(nodes, anchors, a, cursors, hs) == g);
        if g.0.len() > 0 {
            assert(crate::comparison::antiunify::any_nonempty(gs));
            assert(hs.len() < holes.len());
            let id = sat_u32(hs.len());
            assert(id == hs.len());
            assert(g.0 == seq![TemplateShape::Hole(id)]);
            assert(holes[hs.len() as int] == g.1[hs.len() as int]);
            assert(holes[id as int].bindings[k] == gs[k]);
            assert(g.0.drop_first() =~= Seq::<TemplateShape>::empty());
            assert(children_fit(g.0.drop_first(), holes, k, m, ck + (len - ck)));
            assert(children_fit(g.0, holes, k, m, ck));
            assert(rebuild_children(g.0.drop_first(), holes, k, m, ck + (len - ck)) =~= Seq::<
                TreeView,
            >::empty());
            assert(m.children@.subrange(ck, len) =~= m.children@.subrange(ck, ck + (len - ck)));
            assert(tree_views(m.children@.subrange(ck, len)) + Seq::<TreeView>::empty() =~= tree_views(
                m.children@.subrange(ck, len),
            ));
            assert(rebuild_children(g.0, holes, k, m, ck) == tail_views(m, ck));
        } else {
            assert(!crate::comparison::antiunify::any_nonempty(gs));
            assert(gs[k].len() == 0);
            assert(g.0 =~= Seq::<TemplateShape>::empty());
            assert(m.children@.subrange(ck, len) =~= Seq::<NormalizedTree>::empty());
            assert(tree_views(Seq::<NormalizedTree>::empty()) =~= Seq::<TreeView>::empty());
        }
    } else {
        let fp = anchors[a];
        let x = anchors.subrange(a, anchors.len() as int);
        assert(x[0] == fp);
        assert(x.drop_first() =~= anchors.subrange(a + 1, anchors.len() as int));
        let ends = gap_ends(nodes, cursors, fp);
        assert forall|q: int| 0 <= q < nodes.len() implies cursors[q] <= #[trigger] ends[q] < nodes[q].children@.len()
            && is_subseq(
                anchors.subrange(a + 1, anchors.len() as int),
                fps_of(nodes[q].children@).subrange(ends[q] + 1, nodes[q].children@.len() as int),
            ) by {
            lemma_gap_end_anchor(nodes[q].children@, cursors[q], x);
        }
        let gs = gaps_before(nodes, cursors, fp);
        let g = emit_group(gs, hs);
        let an = anchor_nodes(nodes, ends);
        assert(an[0] == nodes[0].children@[ends[0]]);
        assert(an[k] == m.children@[ends[k]]);
        let t = align(an, g.1);
        let nc = Seq::new(nodes.len(), |q: int| ends[q] + 1);
        let rest = lcs_walk(nodes, anchors, a + 1, nc, t.1);
        assert(lcs_walk(nodes, anchors, a, cursors, hs) == (g.0 + seq![t.0] + rest.0, rest.1));
        lemma_walk_appended(nodes, anchors, a + 1, nc, t.1);
        lemma_align_appended(an, g.1);
        assert(extends(t.1, rest.1));
        assert(extends(g.1, t.1));
        lemma_extends_trans(t.1, rest.1, holes);
        lemma_extends_trans(g.1, t.1, holes);
        lemma_align_rebuild(an, g.1, k, holes);
        lemma_walk_rebuild(nodes, anchors, a + 1, nc, t.1, k, holes);
        let ek = ends[k];
        assert(nc[k] == ek + 1);
        // the anchor and what follows it
        let tail = seq![t.0] + rest.0;
        assert(tail[0] == t.0);
        assert(tail.drop_first() =~= rest.0);
        lemma_tail_views_step(m, ek);
        match t.0 {
            TemplateShape::Fixed { .. } => {},
            TemplateShape::Hole(id) => {
                lemma_tree_views_cons(m.children@.subrange(ek, ek + 1));
                assert(m.children@.subrange(ek, ek + 1).drop_first() =~= Seq::<NormalizedTree>::empty());
                assert(tree_views(Seq::<NormalizedTree>::empty()) =~= Seq::<TreeView>::empty());
                assert(m.children@.subrange(ek, ek + 1)[0] == m.children@[ek]);
            },
        }
        assert(children_fit(tail, holes, k, m, ek));
        assert(rebuild_children(tail, holes, k, m, ek) == tail_views(m, ek));
        // the gap before the anchor
        assert(gs[k].len() == ek - ck);
        if g.0.len() > 0 {
            let cs = g.0 + seq![t.0] + rest.0;
            assert(cs[0] == g.0[0]);
            assert(cs.drop_first() =~= tail);
            assert(hs.len() < holes.len());
            assert(holes[hs.len() as int] == g.1[hs.len() as int]);
            lemma_tail_views_split(m, ck, ek);
        } else {
            assert(!crate::comparison::antiunify::any_nonempty(gs));
            assert(gs[k].len() == 0);
            assert(g.0 + seq![t.0] + rest.0 =~= tail);
        }
    }
}

/// Every member is rebuilt exactly from the template of the members:
/// the template fits it and [`instantiate`](super::antiunify::instantiate)
/// gives back its every field — label, fingerprint, leaf, span and,
/// recursively, children. (Hole numbers are `u32`; the law needs the
/// hole table to fit that numbering.)
pub proof fn lemma_reconstruction(members: Seq<NormalizedTree>, k: int)
    requires
        0 <= k < members.len(),
        antiunify_spec(members).1.len() <= u32::MAX + 1,
    ensures
        fits(antiunify_spec(members).0, antiunify_spec(members).1, k, members[k]),
        rebuild(antiunify_spec(members).0, antiunify_spec(members).1, k, members[k])
            == members[k].tree_view(),
{
    lemma_align_rebuild(members, Seq::empty(), k, antiunify_spec(members).1);
}

} // verus!
