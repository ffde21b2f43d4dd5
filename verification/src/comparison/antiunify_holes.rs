//! What every hole of a template satisfies: the holes of the root, read
//! in left-to-right pre-order, are numbered 0, 1, 2, … (each once), and
//! a hole's kind agrees with how many elements its members bind.
use vstd::prelude::*;

use crate::domain::template::{HoleKind, HoleShape, SubElement, TemplateShape};
use crate::domain::tree::NormalizedTree;
use super::antiunify::{
    align, align_positional, block_label, all_identical, all_internal, all_same_arity, all_same_label,
    anchor_nodes, anchors_of, antiunify_spec, classify, column, emit_group, empty_leaf_shape,
    gap_ends, gaps_before, lcs_walk, new_hole, scalar_bindings, scalar_kind, trailing_gaps,
    tree_shape, tree_shapes, zero_cursors, any_nonempty,
};
use super::antiunify_laws::{lemma_align_appended, lemma_positional_appended, lemma_walk_appended};
use super::divergence::sat_u32;

verus! {

// ---- pre-order numbering ----

/// The hole numbers of a template shape, in left-to-right pre-order.
pub open spec fn preorder_ids(t: TemplateShape) -> Seq<u32>
    decreases t,
{
    match t {
        TemplateShape::Hole(i) => seq![i],
        TemplateShape::Fixed { children, .. } => preorder_ids_list(children),
    }
}

/// The hole numbers of a sequence of template shapes, in order.
pub open spec fn preorder_ids_list(cs: Seq<TemplateShape>) -> Seq<u32>
    decreases cs,
{
    if cs.len() == 0 {
        Seq::empty()
    } else {
        preorder_ids_list(cs.drop_last()) + preorder_ids(cs.last())
    }
}

/// The numbers `lo, lo + 1, …, hi - 1`, each saturated into `u32`.
pub open spec fn id_range(lo: int, hi: int) -> Seq<u32> {
    Seq::new((hi - lo) as nat, |i: int| sat_u32((lo + i) as nat))
}

proof fn lemma_ids_list_concat(a: Seq<TemplateShape>, b: Seq<TemplateShape>)
    ensures
        preorder_ids_list(a + b) == preorder_ids_list(a) + preorder_ids_list(b),
    decreases b.len(),
{
    if b.len() == 0 {
        assert(a + b =~= a);
        assert(preorder_ids_list(a) + preorder_ids_list(b) =~= preorder_ids_list(a));
    } else {
        lemma_ids_list_concat(a, b.drop_last());
        assert((a + b).drop_last() =~= a + b.drop_last());
        assert((a + b).last() == b.last());
        assert(preorder_ids_list(a) + preorder_ids_list(b.drop_last()) + preorder_ids(b.last())
            =~= preorder_ids_list(a) + (preorder_ids_list(b.drop_last()) + preorder_ids(b.last())));
    }
}

proof fn lemma_ids_single(t: TemplateShape)
    ensures
        preorder_ids_list(seq![t]) == preorder_ids(t),
{
    let s = seq![t];
    assert(s.drop_last() =~= Seq::<TemplateShape>::empty());
    assert(preorder_ids_list(Seq::<TemplateShape>::empty()) == Seq::<u32>::empty());
    assert(s.last() == t);
    assert(preorder_ids_list(s) == preorder_ids_list(s.drop_last()) + preorder_ids(s.last()));
    assert(Seq::<u32>::empty() + preorder_ids(t) =~= preorder_ids(t));
}

proof fn lemma_range_concat(a: int, b: int, c: int)
    requires
        a <= b <= c,
    ensures
        id_range(a, b) + id_range(b, c) == id_range(a, c),
{
    assert(id_range(a, b) + id_range(b, c) =~= id_range(a, c));
}

/// A verbatim projection has no holes.
proof fn lemma_tree_shape_no_holes(t: NormalizedTree)
    ensures
        preorder_ids(tree_shape(t)) == Seq::<u32>::empty(),
    decreases t, 1int,
{
    lemma_tree_shapes_no_holes(t.children@);
}

proof fn lemma_tree_shapes_no_holes(cs: Seq<NormalizedTree>)
    ensures
        preorder_ids_list(tree_shapes(cs)) == Seq::<u32>::empty(),
    decreases cs, 0int,
{
    if cs.len() > 0 {
        lemma_tree_shapes_no_holes(cs.drop_last());
        lemma_tree_shape_no_holes(cs.last());
        let ts = tree_shapes(cs);
        assert(ts.drop_last() == tree_shapes(cs.drop_last()));
        assert(ts.last() == tree_shape(cs.last()));
        assert(Seq::<u32>::empty() + Seq::<u32>::empty() =~= Seq::<u32>::empty());
    }
}

proof fn lemma_emit_ids(gs: Seq<Seq<SubElement>>, hs: Seq<HoleShape>)
    ensures
        hs.len() <= emit_group(gs, hs).1.len(),
        preorder_ids_list(emit_group(gs, hs).0) == id_range(
            hs.len() as int,
            emit_group(gs, hs).1.len() as int,
        ),
{
    if any_nonempty(gs) {
        lemma_ids_single(TemplateShape::Hole(sat_u32(hs.len())));
        assert(id_range(hs.len() as int, hs.len() as int + 1) =~= seq![sat_u32(hs.len())]);
    } else {
        assert(id_range(hs.len() as int, hs.len() as int) =~= Seq::<u32>::empty());
    }
}

/// Aligning `nodes` numbers the holes it creates in pre-order, after
/// those already in the table.
pub proof fn lemma_align_ids(nodes: Seq<NormalizedTree>, hs: Seq<HoleShape>)
    ensures
        hs.len() <= align(nodes, hs).1.len(),
        preorder_ids(align(nodes, hs).0) == id_range(hs.len() as int, align(nodes, hs).1.len() as int),
    decreases nodes[0], 2int, 0int,
{
    lemma_align_appended(nodes, hs);
    if nodes.len() == 0 {
        assert(id_range(hs.len() as int, hs.len() as int) =~= Seq::<u32>::empty());
        assert(preorder_ids(empty_leaf_shape()) =~= Seq::<u32>::empty());
    } else if nodes.len() == 1 || all_identical(nodes) {
        lemma_tree_shape_no_holes(nodes[0]);
        assert(id_range(hs.len() as int, hs.len() as int) =~= Seq::<u32>::empty());
    } else if all_same_label(nodes) && all_internal(nodes) {
        if all_same_arity(nodes) {
            lemma_positional_ids(nodes, 0, hs);
        } else {
            lemma_walk_ids(nodes, anchors_of(nodes), 0, zero_cursors(nodes.len()), hs);
        }
    } else {
        assert(id_range(hs.len() as int, hs.len() as int + 1) =~= seq![sat_u32(hs.len())]);
    }
}

proof fn lemma_positional_ids(nodes: Seq<NormalizedTree>, pos: int, hs: Seq<HoleShape>)
    ensures
        hs.len() <= align_positional(nodes, pos, hs).1.len(),
        preorder_ids_list(align_positional(nodes, pos, hs).0) == id_range(
            hs.len() as int,
            align_positional(nodes, pos, hs).1.len() as int,
        ),
    decreases nodes[0], 1int, nodes[0].children@.len() - pos,
{
    lemma_positional_appended(nodes, pos, hs);
    if nodes.len() == 0 || pos < 0 || pos >= nodes[0].children@.len() {
        assert(id_range(hs.len() as int, hs.len() as int) =~= Seq::<u32>::empty());
    } else {
        let col = column(nodes, pos);
        assert(col[0] == nodes[0].children@[pos]);
        let first = align(col, hs);
        lemma_align_ids(col, hs);
        lemma_positional_ids(nodes, pos + 1, first.1);
        let rest = align_positional(nodes, pos + 1, first.1);
        lemma_ids_list_concat(seq![first.0], rest.0);
        lemma_ids_single(first.0);
        lemma_range_concat(hs.len() as int, first.1.len() as int, rest.1.len() as int);
    }
}

proof fn lemma_walk_ids(
    nodes: Seq<NormalizedTree>,
    anchors: Seq<u64>,
    a: int,
    cursors: Seq<int>,
    hs: Seq<HoleShape>,
)
    ensures
        hs.len() <= lcs_walk(nodes, anchors, a, cursors, hs).1.len(),
        preorder_ids_list(lcs_walk(nodes, anchors, a, cursors, hs).0) == id_range(
            hs.len() as int,
            lcs_walk(nodes, anchors, a, cursors, hs).1.len() as int,
        ),
    decreases nodes[0], 1int, anchors.len() - a,
{
    lemma_walk_appended(nodes, anchors, a, cursors, hs);
    if nodes.len() == 0 || a < 0 || a >= anchors.len() {
        lemma_emit_ids(trailing_gaps(nodes, cursors), hs);
    } else {
        let fp = anchors[a];
        let ends = gap_ends(nodes, cursors, fp);
        let gs = gaps_before(nodes, cursors, fp);
        let g = emit_group(gs, hs);
        lemma_emit_ids(gs, hs);
        if 0 <= ends[0] < nodes[0].children@.len() {
            let an = anchor_nodes(nodes, ends);
            assert(an[0] == nodes[0].children@[ends[0]]);
            let t = align(an, g.1);
            lemma_align_ids(an, g.1);
            let nc = Seq::new(nodes.len(), |k: int| ends[k] + 1);
            lemma_walk_ids(nodes, anchors, a + 1, nc, t.1);
            let rest = lcs_walk(nodes, anchors, a + 1, nc, t.1);
            lemma_ids_list_concat(g.0, seq![t.0]);
            lemma_ids_list_concat(g.0 + seq![t.0], rest.0);
            lemma_ids_single(t.0);
            lemma_range_concat(hs.len() as int, g.1.len() as int, t.1.len() as int);
            lemma_range_concat(hs.len() as int, t.1.len() as int, rest.1.len() as int);
        }
    }
}

/// Pre-order numbering: the holes of a template's root, read left to
/// right in pre-order, are numbered 0, 1, 2, … up to the size of the
/// hole table (saturated into `u32`), so each entry of the table is
/// referenced exactly once, in table order.
pub proof fn lemma_holes_in_preorder(members: Seq<NormalizedTree>)
    ensures
        preorder_ids(antiunify_spec(members).0) == Seq::new(
            antiunify_spec(members).1.len(),
            |i: int| sat_u32(i as nat),
        ),
{
    lemma_align_ids(members, Seq::empty());
    assert(id_range(0, antiunify_spec(members).1.len() as int) =~= Seq::new(
        antiunify_spec(members).1.len(),
        |i: int| sat_u32(i as nat),
    ));
}

// ---- hole kinds ----

/// A hole's kind agrees with its bindings: a sub-expression or block hole
/// binds exactly one element per member; an optional hole binds at most
/// one and some member binds none; a variadic hole has some member that
/// binds more than one.
pub open spec fn kind_fits(h: HoleShape) -> bool {
    if h.kind is Variadic {
        exists|i: int| 0 <= i < h.bindings.len() && (#[trigger] h.bindings[i]).len() > 1
    } else if h.kind is Optional {
        &&& exists|i: int| 0 <= i < h.bindings.len() && (#[trigger] h.bindings[i]).len() == 0
        &&& forall|i: int| 0 <= i < h.bindings.len() ==> (#[trigger] h.bindings[i]).len() <= 1
    } else {
        forall|i: int| 0 <= i < h.bindings.len() ==> (#[trigger] h.bindings[i]).len() == 1
    }
}

/// Every hole that `r` adds beyond `hs` fits its kind.
pub open spec fn added_fit(hs: Seq<HoleShape>, r: Seq<HoleShape>) -> bool {
    &&& hs.len() <= r.len()
    &&& forall|i: int| 0 <= i < hs.len() ==> #[trigger] r[i] == hs[i]
    &&& forall|i: int| hs.len() <= i < r.len() ==> kind_fits(#[trigger] r[i])
}

proof fn lemma_added_fit_trans(a: Seq<HoleShape>, b: Seq<HoleShape>, c: Seq<HoleShape>)
    requires
        added_fit(a, b),
        added_fit(b, c),
    ensures
        added_fit(a, c),
{
    assert forall|i: int| 0 <= i < a.len() implies #[trigger] c[i] == a[i] by {
        assert(c[i] == b[i]);
    }
    assert forall|i: int| a.len() <= i < c.len() implies kind_fits(#[trigger] c[i]) by {
        if i < b.len() {
            assert(c[i] == b[i]);
        }
    }
}

proof fn lemma_emit_fit(gs: Seq<Seq<SubElement>>, hs: Seq<HoleShape>)
    ensures
        added_fit(hs, emit_group(gs, hs).1),
{
    if any_nonempty(gs) {
        let h = new_hole(classify(gs), gs, hs);
        let r = hs.push(h);
        assert(r[hs.len() as int] == h);
        assert(h.bindings == gs);
        if exists|k: int| 0 <= k < gs.len() && (#[trigger] gs[k]).len() > 1 {
            assert(h.kind is Variadic);
        } else if exists|k: int| 0 <= k < gs.len() && (#[trigger] gs[k]).len() == 0 {
            assert(h.kind is Optional);
            assert forall|i: int| 0 <= i < gs.len() implies (#[trigger] gs[i]).len() <= 1 by {
                if gs[i].len() > 1 {
                    assert(exists|k: int| 0 <= k < gs.len() && (#[trigger] gs[k]).len() > 1);
                }
            }
        } else {
            assert(h.kind is SubExpr);
            assert forall|i: int| 0 <= i < gs.len() implies (#[trigger] gs[i]).len() == 1 by {
                if gs[i].len() > 1 {
                    assert(exists|k: int| 0 <= k < gs.len() && (#[trigger] gs[k]).len() > 1);
                }
                if gs[i].len() == 0 {
                    assert(exists|k: int| 0 <= k < gs.len() && (#[trigger] gs[k]).len() == 0);
                }
            }
        }
        assert(kind_fits(h));
    }
}

/// Aligning `nodes` adds only holes whose kinds fit their bindings.
pub proof fn lemma_align_fit(nodes: Seq<NormalizedTree>, hs: Seq<HoleShape>)
    ensures
        added_fit(hs, align(nodes, hs).1),
    decreases nodes[0], 2int, 0int,
{
    if nodes.len() == 0 || nodes.len() == 1 || all_identical(nodes) {
    } else if all_same_label(nodes) && all_internal(nodes) {
        if all_same_arity(nodes) {
            lemma_positional_fit(nodes, 0, hs);
        } else {
            lemma_walk_fit(nodes, anchors_of(nodes), 0, zero_cursors(nodes.len()), hs);
        }
    } else {
        let bs = scalar_bindings(nodes);
        let h = new_hole(scalar_kind(nodes), bs, hs);
        assert(hs.push(h)[hs.len() as int] == h);
        assert forall|i: int| 0 <= i < bs.len() implies (#[trigger] bs[i]).len() == 1 by {
            assert(bs[i] == seq![crate::comparison::antiunify::sub_element_spec(nodes[i])]);
        }
        assert(h.bindings == bs);
        assert(h.kind == HoleKind::Block || h.kind == HoleKind::SubExpr);
        assert(forall|i: int| 0 <= i < h.bindings.len() ==> (#[trigger] h.bindings[i]).len() == 1);
        assert(kind_fits(h));
    }
}

proof fn lemma_positional_fit(nodes: Seq<NormalizedTree>, pos: int, hs: Seq<HoleShape>)
    ensures
        added_fit(hs, align_positional(nodes, pos, hs).1),
    decreases nodes[0], 1int, nodes[0].children@.len() - pos,
{
    if nodes.len() == 0 || pos < 0 || pos >= nodes[0].children@.len() {
    } else {
        let col = column(nodes, pos);
        assert(col[0] == nodes[0].children@[pos]);
        let first = align(col, hs);
        lemma_align_fit(col, hs);
        lemma_positional_fit(nodes, pos + 1, first.1);
        lemma_added_fit_trans(hs, first.1, align_positional(nodes, pos + 1, first.1).1);
    }
}

proof fn lemma_walk_fit(
    nodes: Seq<NormalizedTree>,
    anchors: Seq<u64>,
    a: int,
    cursors: Seq<int>,
    hs: Seq<HoleShape>,
)
    ensures
        added_fit(hs, lcs_walk(nodes, anchors, a, cursors, hs).1),
    decreases nodes[0], 1int, anchors.len() - a,
{
    if nodes.len() == 0 || a < 0 || a >= anchors.len() {
        lemma_emit_fit(trailing_gaps(nodes, cursors), hs);
    } else {
        let fp = anchors[a];
        let ends = gap_ends(nodes, cursors, fp);
        let gs = gaps_before(nodes, cursors, fp);
        let g = emit_group(gs, hs);
        lemma_emit_fit(gs, hs);
        if 0 <= ends[0] < nodes[0].children@.len() {
            let an = anchor_nodes(nodes, ends);
            assert(an[0] == nodes[0].children@[ends[0]]);
            let t = align(an, g.1);
            lemma_align_fit(an, g.1);
            let nc = Seq::new(nodes.len(), |k: int| ends[k] + 1);
            lemma_walk_fit(nodes, anchors, a + 1, nc, t.1);
            lemma_added_fit_trans(hs, g.1, t.1);
            lemma_added_fit_trans(hs, t.1, lcs_walk(nodes, anchors, a + 1, nc, t.1).1);
        }
    }
}

/// Hole kinds: every hole of a template fits its kind — sub-expression
/// and block holes bind one element per member, optional holes bind at
/// most one with some member binding none, and variadic holes have a
/// member binding several.
pub proof fn lemma_hole_kinds(members: Seq<NormalizedTree>)
    ensures
        forall|i: int|
            0 <= i < antiunify_spec(members).1.len() ==> kind_fits(
                #[trigger] antiunify_spec(members).1[i],
            ),
{
    lemma_align_fit(members, Seq::empty());
}

// ---- block-like labels ----

/// The label starts with `ExprBlock`, `Block` or `Stmt`.
pub open spec fn starts_block_like(l: Seq<char>) -> bool {
    ||| ("ExprBlock"@.len() <= l.len() && l.subrange(0, "ExprBlock"@.len() as int) == "ExprBlock"@)
    ||| ("Block"@.len() <= l.len() && l.subrange(0, "Block"@.len() as int) == "Block"@)
    ||| ("Stmt"@.len() <= l.len() && l.subrange(0, "Stmt"@.len() as int) == "Stmt"@)
}

/// A label is block-like exactly when it starts with `ExprBlock`,
/// `Block` or `Stmt`.
pub proof fn lemma_block_label_prefixes(l: Seq<char>)
    ensures
        block_label(l) <==> starts_block_like(l),
{
}

/// A scalar hole is a block hole exactly when every node it binds has a
/// label starting with `ExprBlock`, `Block` or `Stmt`, and a
/// sub-expression hole otherwise.
pub proof fn lemma_scalar_kind_prefixes(nodes: Seq<NormalizedTree>)
    ensures
        scalar_kind(nodes) == HoleKind::Block <==> forall|k: int|
            0 <= k < nodes.len() ==> starts_block_like(#[trigger] nodes[k].label@),
        scalar_kind(nodes) != HoleKind::Block ==> scalar_kind(nodes) == HoleKind::SubExpr,
{
    assert forall|k: int| 0 <= k < nodes.len() implies block_label(#[trigger] nodes[k].label@)
        == starts_block_like(nodes[k].label@) by {
        lemma_block_label_prefixes(nodes[k].label@);
    }
}

/// When the members neither coincide nor share an internal label, the
/// template is a single scalar hole binding each member, and it is a
/// block hole exactly when every member's label starts with `ExprBlock`,
/// `Block` or `Stmt`.
pub proof fn lemma_scalar_root_kind(members: Seq<NormalizedTree>)
    requires
        members.len() >= 2,
        !all_identical(members),
        !(all_same_label(members) && all_internal(members)),
    ensures
        antiunify_spec(members).0 == TemplateShape::Hole(0),
        antiunify_spec(members).1.len() == 1,
        antiunify_spec(members).1[0].kind == HoleKind::Block <==> forall|k: int|
            0 <= k < members.len() ==> starts_block_like(#[trigger] members[k].label@),
        antiunify_spec(members).1[0].kind != HoleKind::Block ==> antiunify_spec(members).1[0].kind
            == HoleKind::SubExpr,
{
    lemma_scalar_kind_prefixes(members);
    assert(sat_u32(0) == 0);
}

} // verus!
