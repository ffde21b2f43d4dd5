//! First-order anti-unification (least general generalization) over
//! the member [`NormalizedTree`]s of a cluster.
//!
//! The N member trees are generalized simultaneously into one
//! [`Template`]: the structure every member shares, with numbered
//! [`Hole`]s where they diverge. Each hole records, in member order,
//! what every member binds there, and a [`Divergence`] summary.
//!
//! At each aligned position the candidate nodes resolve by a fixed
//! ladder: structurally identical nodes (ignoring spans) are emitted
//! verbatim; shared-label internal nodes recurse, child-wise when their
//! arities agree and through a longest-common-subsequence alignment of
//! child fingerprints otherwise (the gaps between anchors become
//! optional / variadic holes); anything else becomes a scalar hole.
//! The anchors fold the members' child fingerprint sequences in
//! lexicographic order, so no decision depends on the order in which the
//! members are given (see `antiunify_perm`). Holes are numbered in
//! left-to-right pre-order.
//!
//! [`antiunify_spec`] states the whole computation; [`antiunify`]
//! meets it exactly.
use vstd::prelude::*;

use crate::domain::template::{
    bindings_of, hole_shapes, shapes_of, Hole, HoleId, HoleKind, HoleShape, SubElement,
    Substitution, Template, TemplateNode, TemplateShape,
};
use crate::domain::tree::{leaf_view, tree_views, NormalizedTree, TreeView};
use super::divergence::{build_divergence, divergence_spec, sat_u32, saturating_u32};
use super::lcs::{
    is_subseq, lcs, lcs_fp_sequence, lemma_lcs_subseq, lemma_lex_total_ordering,
    lemma_subseq_trans, lex_leq, sort_fp_lists, vec_views,
};

verus! {

// ---- the mathematical model ----

/// The trees a slice of references points to.
pub open spec fn derefs(s: Seq<&NormalizedTree>) -> Seq<NormalizedTree> {
    s.map_values(|r: &NormalizedTree| *r)
}

/// The leaf lexeme of a node, `None` for an internal node.
pub open spec fn leaf_lexeme_of(t: NormalizedTree) -> Option<Seq<char>> {
    match t.leaf {
        Some(l) => Some(l.lexeme@),
        None => None,
    }
}

/// The fixed template a tree projects to verbatim: its label, its leaf
/// lexeme and, recursively, its children.
pub open spec fn tree_shape(t: NormalizedTree) -> TemplateShape
    decreases t,
{
    TemplateShape::Fixed {
        label: t.label@,
        children: tree_shapes(t.children@),
        leaf_lexeme: leaf_lexeme_of(t),
    }
}

/// The verbatim projections of a sequence of trees, in order.
pub open spec fn tree_shapes(cs: Seq<NormalizedTree>) -> Seq<TemplateShape>
    decreases cs,
{
    if cs.len() == 0 {
        Seq::empty()
    } else {
        tree_shapes(cs.drop_last()).push(tree_shape(cs.last()))
    }
}

/// Two trees agree in fingerprint, label, leaf lexeme, arity and,
/// recursively, children — every field but the span.
pub open spec fn same_shape(a: NormalizedTree, b: NormalizedTree) -> bool
    decreases a,
{
    &&& a.fp == b.fp
    &&& a.label@ == b.label@
    &&& leaf_lexeme_of(a) == leaf_lexeme_of(b)
    &&& a.children@.len() == b.children@.len()
    &&& same_shapes(a.children@, b.children@)
}

/// Pairwise [`same_shape`] of two sequences of trees of equal length.
pub open spec fn same_shapes(xs: Seq<NormalizedTree>, ys: Seq<NormalizedTree>) -> bool
    decreases xs,
{
    if xs.len() == 0 {
        ys.len() == 0
    } else {
        ys.len() == xs.len() && same_shapes(xs.drop_last(), ys.drop_last()) && same_shape(
            xs.last(),
            ys.last(),
        )
    }
}

/// Every node has the first node's shape (ignoring spans).
pub open spec fn all_identical(nodes: Seq<NormalizedTree>) -> bool {
    forall|k: int| 1 <= k < nodes.len() ==> same_shape(nodes[0], #[trigger] nodes[k])
}

/// Every node carries the first node's label.
pub open spec fn all_same_label(nodes: Seq<NormalizedTree>) -> bool {
    forall|k: int| 0 <= k < nodes.len() ==> (#[trigger] nodes[k]).label@ == nodes[0].label@
}

/// Every node is internal.
pub open spec fn all_internal(nodes: Seq<NormalizedTree>) -> bool {
    forall|k: int| 0 <= k < nodes.len() ==> (#[trigger] nodes[k]).leaf is None
}

/// Every node has the first node's number of children.
pub open spec fn all_same_arity(nodes: Seq<NormalizedTree>) -> bool {
    forall|k: int|
        0 <= k < nodes.len() ==> (#[trigger] nodes[k]).children@.len() == nodes[0].children@.len()
}

/// `s` starts with `p`.
pub open spec fn has_prefix(s: Seq<char>, p: Seq<char>) -> bool {
    p.len() <= s.len() && s.subrange(0, p.len() as int) == p
}

/// A label names a block / statement-group construct: it starts with
/// `"ExprBlock"`, `"Block"` or `"Stmt"`.
pub open spec fn block_label(l: Seq<char>) -> bool {
    has_prefix(l, "ExprBlock"@) || has_prefix(l, "Block"@) || has_prefix(l, "Stmt"@)
}

/// The kind of a scalar hole: `Block` when every bound node is
/// block-like, else `SubExpr`.
pub open spec fn scalar_kind(nodes: Seq<NormalizedTree>) -> HoleKind {
    if forall|k: int| 0 <= k < nodes.len() ==> block_label((#[trigger] nodes[k]).label@) {
        HoleKind::Block
    } else {
        HoleKind::SubExpr
    }
}

/// What a node binds at a hole: its leaf lexeme (its label for an
/// internal node), its fingerprint and its span.
pub open spec fn sub_element_spec(t: NormalizedTree) -> SubElement {
    SubElement {
        lexeme: match t.leaf {
            Some(l) => l.lexeme,
            None => t.label,
        },
        fp: t.fp,
        span: t.span,
    }
}

/// The kind of a grouped hole from its per-member element lists: any
/// list of more than one element makes it `Variadic`, else any empty
/// list `Optional`, else `SubExpr`.
pub open spec fn classify(pm: Seq<Seq<SubElement>>) -> HoleKind {
    if exists|k: int| 0 <= k < pm.len() && (#[trigger] pm[k]).len() > 1 {
        HoleKind::Variadic
    } else if exists|k: int| 0 <= k < pm.len() && (#[trigger] pm[k]).len() == 0 {
        HoleKind::Optional
    } else {
        HoleKind::SubExpr
    }
}

/// The element lists of executable per-member vectors.
pub open spec fn element_lists(pm: Seq<Vec<SubElement>>) -> Seq<Seq<SubElement>> {
    pm.map_values(|v: Vec<SubElement>| v@)
}

/// The hole appended to the table `hs`: numbered by the table's length,
/// with its bindings and their divergence summary.
pub open spec fn new_hole(kind: HoleKind, bs: Seq<Seq<SubElement>>, hs: Seq<HoleShape>) -> HoleShape {
    HoleShape { id: sat_u32(hs.len()), kind, bindings: bs, divergence: divergence_spec(bs) }
}

/// The bindings of a scalar hole: each node binds itself.
pub open spec fn scalar_bindings(nodes: Seq<NormalizedTree>) -> Seq<Seq<SubElement>> {
    nodes.map_values(|n: NormalizedTree| seq![sub_element_spec(n)])
}

/// The placeholder root for an empty member list: an unlabelled fixed
/// node with no children and no lexeme.
pub open spec fn empty_leaf_shape() -> TemplateShape {
    TemplateShape::Fixed { label: Seq::empty(), children: Seq::empty(), leaf_lexeme: None }
}

/// The fingerprints of a sequence of trees.
pub open spec fn fps_of(cs: Seq<NormalizedTree>) -> Seq<u64> {
    cs.map_values(|c: NormalizedTree| c.fp)
}

/// The children of every node at one position.
pub open spec fn column(nodes: Seq<NormalizedTree>, pos: int) -> Seq<NormalizedTree> {
    nodes.map_values(|n: NormalizedTree| n.children@[pos])
}

/// The child fingerprint sequence of every node, in node order.
pub open spec fn child_fp_lists(nodes: Seq<NormalizedTree>) -> Seq<Seq<u64>> {
    nodes.map_values(|n: NormalizedTree| fps_of(n.children@))
}

/// The first `k` fingerprint sequences folded through the chosen longest
/// common subsequence, starting from the first.
pub open spec fn fp_fold(ss: Seq<Seq<u64>>, k: int) -> Seq<u64>
    decreases k,
{
    if k <= 1 {
        ss[0]
    } else {
        lcs(fp_fold(ss, k - 1), ss[k - 1])
    }
}

/// The alignment anchors of the nodes: their child fingerprint
/// sequences, taken in lexicographic order (so that the order of the
/// nodes plays no part), folded through the chosen longest common
/// subsequence.
pub open spec fn anchors_of(nodes: Seq<NormalizedTree>) -> Seq<u64> {
    let ss = child_fp_lists(nodes).sort_by(lex_leq());
    fp_fold(ss, ss.len() as int)
}

/// The position of the first child at or after `c` whose fingerprint is
/// `fp` (the length when there is none).
pub open spec fn gap_end(cs: Seq<NormalizedTree>, c: int, fp: u64) -> int
    decreases cs.len() - c,
{
    if c < 0 || c >= cs.len() || cs[c].fp == fp {
        c
    } else {
        gap_end(cs, c + 1, fp)
    }
}

/// The elements bound by the children `cs[c..e]`.
pub open spec fn gap_elements(cs: Seq<NormalizedTree>, c: int, e: int) -> Seq<SubElement> {
    cs.subrange(c, e).map_values(|n: NormalizedTree| sub_element_spec(n))
}

/// Where each node's gap before the anchor `fp` ends.
pub open spec fn gap_ends(nodes: Seq<NormalizedTree>, cursors: Seq<int>, fp: u64) -> Seq<int> {
    Seq::new(nodes.len(), |k: int| gap_end(nodes[k].children@, cursors[k], fp))
}

/// Each node's gap before the anchor `fp`.
pub open spec fn gaps_before(nodes: Seq<NormalizedTree>, cursors: Seq<int>, fp: u64) -> Seq<
    Seq<SubElement>,
> {
    Seq::new(
        nodes.len(),
        |k: int|
            gap_elements(
                nodes[k].children@,
                cursors[k],
                gap_end(nodes[k].children@, cursors[k], fp),
            ),
    )
}

/// Each node's children from its cursor to its end.
pub open spec fn trailing_gaps(nodes: Seq<NormalizedTree>, cursors: Seq<int>) -> Seq<
    Seq<SubElement>,
> {
    Seq::new(
        nodes.len(),
        |k: int| gap_elements(nodes[k].children@, cursors[k], nodes[k].children@.len() as int),
    )
}

/// The anchor child of every node, at the given positions.
pub open spec fn anchor_nodes(nodes: Seq<NormalizedTree>, ends: Seq<int>) -> Seq<NormalizedTree> {
    Seq::new(nodes.len(), |k: int| nodes[k].children@[ends[k]])
}

/// Some member's gap is not empty.
pub open spec fn any_nonempty(gs: Seq<Seq<SubElement>>) -> bool {
    exists|k: int| 0 <= k < gs.len() && (#[trigger] gs[k]).len() > 0
}

/// A gap becomes one grouped hole when some member's part of it is not
/// empty, and nothing otherwise.
pub open spec fn emit_group(gs: Seq<Seq<SubElement>>, hs: Seq<HoleShape>) -> (
    Seq<TemplateShape>,
    Seq<HoleShape>,
) {
    if any_nonempty(gs) {
        (seq![TemplateShape::Hole(sat_u32(hs.len()))], hs.push(new_hole(classify(gs), gs, hs)))
    } else {
        (Seq::empty(), hs)
    }
}

/// Cursors as integers.
pub open spec fn cursor_ints(c: Seq<usize>) -> Seq<int> {
    c.map_values(|x: usize| x as int)
}

/// Every cursor at the start.
pub open spec fn zero_cursors(n: nat) -> Seq<int> {
    Seq::new(n, |k: int| 0int)
}

/// Generalize the candidate `nodes` into one template node, appending
/// the holes it creates to the table `hs` in pre-order.
pub open spec fn align(nodes: Seq<NormalizedTree>, hs: Seq<HoleShape>) -> (
    TemplateShape,
    Seq<HoleShape>,
)
    decreases nodes[0], 2int, 0int,
{
    if nodes.len() == 0 {
        (empty_leaf_shape(), hs)
    } else if nodes.len() == 1 || all_identical(nodes) {
        (tree_shape(nodes[0]), hs)
    } else if all_same_label(nodes) && all_internal(nodes) {
        let r = if all_same_arity(nodes) {
            align_positional(nodes, 0, hs)
        } else {
            lcs_walk(nodes, anchors_of(nodes), 0, zero_cursors(nodes.len()), hs)
        };
        (TemplateShape::Fixed { label: nodes[0].label@, children: r.0, leaf_lexeme: None }, r.1)
    } else {
        let bs = scalar_bindings(nodes);
        (
            TemplateShape::Hole(sat_u32(hs.len())),
            hs.push(new_hole(scalar_kind(nodes), bs, hs)),
        )
    }
}

/// Align equal-arity nodes child-wise, from position `pos` on.
pub open spec fn align_positional(nodes: Seq<NormalizedTree>, pos: int, hs: Seq<HoleShape>) -> (
    Seq<TemplateShape>,
    Seq<HoleShape>,
)
    decreases nodes[0], 1int, nodes[0].children@.len() - pos,
{
    if nodes.len() == 0 || pos < 0 || pos >= nodes[0].children@.len() {
        (Seq::empty(), hs)
    } else {
        let col = column(nodes, pos);
        proof {
            assert(col[0] == nodes[0].children@[pos]);
        }
        let first = align(col, hs);
        let rest = align_positional(nodes, pos + 1, first.1);
        (seq![first.0] + rest.0, rest.1)
    }
}

/// Align differing-arity nodes from anchor `a` on, each node's next
/// unconsumed child at `cursors`: the gap before the anchor becomes a
/// grouped hole, the anchor children are aligned, and after the last
/// anchor the trailing gap becomes a grouped hole.
pub open spec fn lcs_walk(
    nodes: Seq<NormalizedTree>,
    anchors: Seq<u64>,
    a: int,
    cursors: Seq<int>,
    hs: Seq<HoleShape>,
) -> (Seq<TemplateShape>, Seq<HoleShape>)
    decreases nodes[0], 1int, anchors.len() - a,
{
    if nodes.len() == 0 || a < 0 || a >= anchors.len() {
        emit_group(trailing_gaps(nodes, cursors), hs)
    } else {
        let fp = anchors[a];
        let ends = gap_ends(nodes, cursors, fp);
        let g = emit_group(gaps_before(nodes, cursors, fp), hs);
        if 0 <= ends[0] < nodes[0].children@.len() {
            let an = anchor_nodes(nodes, ends);
            proof {
                assert(an[0] == nodes[0].children@[ends[0]]);
            }
            let t = align(an, g.1);
            let rest = lcs_walk(
                nodes,
                anchors,
                a + 1,
                Seq::new(nodes.len(), |k: int| ends[k] + 1),
                t.1,
            );
            (g.0 + seq![t.0] + rest.0, rest.1)
        } else {
            g
        }
    }
}

/// The template of a member list: its root and its hole table.
pub open spec fn antiunify_spec(members: Seq<NormalizedTree>) -> (TemplateShape, Seq<HoleShape>) {
    align(members, Seq::empty())
}

// ---- verbatim projection and shape predicates ----

/// A placeholder fixed leaf for the degenerate empty-members case.
fn empty_leaf_node() -> (r: TemplateNode)
    ensures
        r.shape() == empty_leaf_shape(),
{
    let r = TemplateNode::Fixed { label: String::new(), children: Vec::new(), leaf_lexeme: None };
    assert(shapes_of(Seq::<TemplateNode>::empty()) =~= Seq::<TemplateShape>::empty());
    r
}

/// Project a tree verbatim into a fixed template node (no holes).
pub fn fixed_from_tree(tree: &NormalizedTree) -> (r: TemplateNode)
    ensures
        r.shape() == tree_shape(*tree),
    decreases tree,
{
    let mut children: Vec<TemplateNode> = Vec::new();
    let mut i: usize = 0;
    while i < tree.children.len()
        invariant
            i <= tree.children@.len(),
            shapes_of(children@) == tree_shapes(tree.children@.take(i as int)),
        decreases tree.children@.len() - i,
    {
        proof {
            assert(decreases_to!(tree => tree.children@[i as int]));
        }
        let c = fixed_from_tree(&tree.children[i]);
        let ghost prev = children@;
        children.push(c);
        proof {
            assert(children@.drop_last() =~= prev);
            assert(tree.children@.take(i + 1).drop_last() =~= tree.children@.take(i as int));
        }
        i = i + 1;
    }
    assert(tree.children@.take(tree.children@.len() as int) =~= tree.children@);
    let leaf_lexeme = match &tree.leaf {
        Some(l) => Some(l.lexeme.clone()),
        None => None,
    };
    TemplateNode::Fixed { label: tree.label.clone(), children, leaf_lexeme }
}

/// Structural and lexical equality of two trees ignoring spans: same
/// fingerprint, label, leaf lexeme, arity and recursively identical
/// children.
pub fn same_shape_ignoring_span(a: &NormalizedTree, b: &NormalizedTree) -> (r: bool)
    ensures
        r == same_shape(*a, *b),
    decreases a,
{
    if a.fp != b.fp || a.label != b.label {
        return false;
    }
    let lex_eq = match (&a.leaf, &b.leaf) {
        (Some(x), Some(y)) => x.lexeme == y.lexeme,
        (None, None) => true,
        _ => false,
    };
    if !lex_eq || a.children.len() != b.children.len() {
        return false;
    }
    let mut i: usize = 0;
    while i < a.children.len()
        invariant
            i <= a.children@.len(),
            a.children@.len() == b.children@.len(),
            same_shapes(a.children@.take(i as int), b.children@.take(i as int)),
        decreases a.children@.len() - i,
    {
        proof {
            assert(decreases_to!(a => a.children@[i as int]));
        }
        let ok = same_shape_ignoring_span(&a.children[i], &b.children[i]);
        proof {
            assert(a.children@.take(i + 1).drop_last() =~= a.children@.take(i as int));
            assert(b.children@.take(i + 1).drop_last() =~= b.children@.take(i as int));
        }
        if !ok {
            proof {
                if same_shapes(a.children@, b.children@) {
                    lemma_same_shapes_prefix(a.children@, b.children@, i + 1);
                }
            }
            return false;
        }
        i = i + 1;
    }
    assert(a.children@.take(a.children@.len() as int) =~= a.children@);
    assert(b.children@.take(b.children@.len() as int) =~= b.children@);
    true
}

/// Pairwise shape agreement of two sequences holds of every pair of
/// equal-length prefixes.
proof fn lemma_same_shapes_prefix(xs: Seq<NormalizedTree>, ys: Seq<NormalizedTree>, n: int)
    requires
        0 <= n <= xs.len(),
        xs.len() == ys.len(),
        same_shapes(xs, ys),
    ensures
        same_shapes(xs.take(n), ys.take(n)),
    decreases xs.len(),
{
    if n < xs.len() {
        lemma_same_shapes_prefix(xs.drop_last(), ys.drop_last(), n);
        assert(xs.drop_last().take(n) =~= xs.take(n));
        assert(ys.drop_last().take(n) =~= ys.take(n));
    } else {
        assert(xs.take(n) =~= xs);
        assert(ys.take(n) =~= ys);
    }
}

/// Every node is identical to the first, ignoring spans.
fn all_structurally_identical(nodes: &[&NormalizedTree]) -> (r: bool)
    requires
        nodes@.len() > 0,
    ensures
        r == all_identical(derefs(nodes@)),
{
    let ghost ns = derefs(nodes@);
    let mut k: usize = 1;
    while k < nodes.len()
        invariant
            1 <= k <= nodes@.len(),
            ns == derefs(nodes@),
            forall|q: int| 1 <= q < k ==> same_shape(ns[0], #[trigger] ns[q]),
        decreases nodes@.len() - k,
    {
        if !same_shape_ignoring_span(nodes[0], nodes[k]) {
            assert(!same_shape(ns[0], ns[k as int]));
            return false;
        }
        k = k + 1;
    }
    true
}

/// Every node shares the first node's label.
fn all_labels_equal(nodes: &[&NormalizedTree]) -> (r: bool)
    requires
        nodes@.len() > 0,
    ensures
        r == all_same_label(derefs(nodes@)),
{
    let ghost ns = derefs(nodes@);
    let mut k: usize = 0;
    while k < nodes.len()
        invariant
            k <= nodes@.len(),
            ns == derefs(nodes@),
            forall|q: int| 0 <= q < k ==> (#[trigger] ns[q]).label@ == ns[0].label@,
        decreases nodes@.len() - k,
    {
        if nodes[k].label != nodes[0].label {
            assert(ns[k as int].label@ != ns[0].label@);
            return false;
        }
        k = k + 1;
    }
    true
}

/// Every node is internal (not a leaf).
fn all_nodes_internal(nodes: &[&NormalizedTree]) -> (r: bool)
    ensures
        r == all_internal(derefs(nodes@)),
{
    let ghost ns = derefs(nodes@);
    let mut k: usize = 0;
    while k < nodes.len()
        invariant
            k <= nodes@.len(),
            ns == derefs(nodes@),
            forall|q: int| 0 <= q < k ==> (#[trigger] ns[q]).leaf is None,
        decreases nodes@.len() - k,
    {
        if nodes[k].is_leaf() {
            assert(ns[k as int].leaf is Some);
            return false;
        }
        k = k + 1;
    }
    true
}

/// Every node has the first node's child count.
fn all_arities_equal(nodes: &[&NormalizedTree]) -> (r: bool)
    requires
        nodes@.len() > 0,
    ensures
        r == all_same_arity(derefs(nodes@)),
{
    let ghost ns = derefs(nodes@);
    let arity = nodes[0].children.len();
    let mut k: usize = 0;
    while k < nodes.len()
        invariant
            k <= nodes@.len(),
            ns == derefs(nodes@),
            arity == ns[0].children@.len(),
            forall|q: int| 0 <= q < k ==> (#[trigger] ns[q]).children@.len() == arity,
        decreases nodes@.len() - k,
    {
        if nodes[k].children.len() != arity {
            assert(ns[k as int].children@.len() != arity);
            return false;
        }
        k = k + 1;
    }
    true
}

/// Whether `s` starts with `p`.
pub fn starts_with(s: &str, p: &str) -> (r: bool)
    ensures
        r == has_prefix(s@, p@),
{
    let ls = s.unicode_len();
    let lp = p.unicode_len();
    if lp > ls {
        return false;
    }
    let mut i: usize = 0;
    while i < lp
        invariant
            i <= lp,
            lp <= ls,
            ls == s@.len(),
            lp == p@.len(),
            s@.subrange(0, i as int) == p@.subrange(0, i as int),
        decreases lp - i,
    {
        if s.get_char(i) != p.get_char(i) {
            assert(s@.subrange(0, lp as int)[i as int] != p@[i as int]);
            return false;
        }
        assert(s@.subrange(0, i + 1) =~= s@.subrange(0, i as int).push(s@[i as int]));
        assert(p@.subrange(0, i + 1) =~= p@.subrange(0, i as int).push(p@[i as int]));
        i = i + 1;
    }
    assert(p@.subrange(0, lp as int) =~= p@);
    true
}

/// Whether a node label names a block / statement-group construct.
pub fn is_block_label(label: &str) -> (r: bool)
    ensures
        r == block_label(label@),
{
    starts_with(label, "ExprBlock") || starts_with(label, "Block") || starts_with(label, "Stmt")
}

/// Classify a scalar hole: `Block` when every bound node is block-like,
/// else `SubExpr`.
fn scalar_hole_kind(nodes: &[&NormalizedTree]) -> (r: HoleKind)
    ensures
        r == scalar_kind(derefs(nodes@)),
{
    let ghost ns = derefs(nodes@);
    let mut k: usize = 0;
    while k < nodes.len()
        invariant
            k <= nodes@.len(),
            ns == derefs(nodes@),
            forall|q: int| 0 <= q < k ==> block_label((#[trigger] ns[q]).label@),
        decreases nodes@.len() - k,
    {
        if !is_block_label(nodes[k].label.as_str()) {
            assert(!block_label(ns[k as int].label@));
            return HoleKind::SubExpr;
        }
        k = k + 1;
    }
    HoleKind::Block
}

/// Project a single node into what it binds at a hole: a leaf binds its
/// lexeme, an internal node its label, with its fingerprint and span.
pub fn sub_element_of(node: &NormalizedTree) -> (r: SubElement)
    ensures
        r == sub_element_spec(*node),
{
    let lexeme = match &node.leaf {
        Some(l) => l.lexeme.clone(),
        None => node.label.clone(),
    };
    SubElement::new(lexeme, node.fp, node.span)
}

/// Classify a grouped hole's kind from its per-member element lists:
/// any member binding more than one element makes it `Variadic`; else
/// any member binding none makes it `Optional`; else `SubExpr`.
pub fn classify_hole_kind(per_member: &[Vec<SubElement>]) -> (r: HoleKind)
    ensures
        r == classify(element_lists(per_member@)),
{
    let ghost pm = element_lists(per_member@);
    let mut k: usize = 0;
    while k < per_member.len()
        invariant
            k <= per_member@.len(),
            pm == element_lists(per_member@),
            forall|q: int| 0 <= q < k ==> (#[trigger] pm[q]).len() <= 1,
        decreases per_member@.len() - k,
    {
        if per_member[k].len() > 1 {
            assert(pm[k as int].len() > 1);
            return HoleKind::Variadic;
        }
        k = k + 1;
    }
    let mut k: usize = 0;
    while k < per_member.len()
        invariant
            k <= per_member@.len(),
            pm == element_lists(per_member@),
            forall|q: int| 0 <= q < pm.len() ==> (#[trigger] pm[q]).len() <= 1,
            forall|q: int| 0 <= q < k ==> (#[trigger] pm[q]).len() > 0,
        decreases per_member@.len() - k,
    {
        if per_member[k].len() == 0 {
            assert(pm[k as int].len() == 0);
            return HoleKind::Optional;
        }
        k = k + 1;
    }
    HoleKind::SubExpr
}


// ---- the hole table ----

/// Stable left-to-right pre-order hole numbering plus the hole table:
/// a hole's number is the table's length when it is reserved.
struct HoleAllocator {
    holes: Vec<Hole>,
}

impl HoleAllocator {
    /// The table's holes as shapes.
    spec fn table(&self) -> Seq<HoleShape> {
        hole_shapes(self.holes@)
    }

    /// An empty table.
    fn new() -> (r: Self)
        ensures
            r.table() == Seq::<HoleShape>::empty(),
    {
        let r = HoleAllocator { holes: Vec::new() };
        assert(r.table() =~= Seq::<HoleShape>::empty());
        r
    }

    /// The next hole number: the table's length (saturated into `u32`).
    fn reserve(&self) -> (r: HoleId)
        ensures
            r.index == sat_u32(self.table().len()),
    {
        HoleId::new(saturating_u32(self.holes.len()))
    }

    /// Record a fully built hole at the end of the table.
    fn push(&mut self, hole: Hole)
        ensures
            final(self).table() == old(self).table().push(hole.shape()),
    {
        self.holes.push(hole);
        assert(self.table() =~= old(self).table().push(hole.shape()));
    }

    /// The finished table.
    fn into_holes(self) -> (r: Vec<Hole>)
        ensures
            hole_shapes(r@) == self.table(),
    {
        self.holes
    }
}

/// Build a scalar hole: each member binds exactly its own node at this
/// position. The number is reserved before the bindings are built.
fn make_hole(nodes: &[&NormalizedTree], kind: HoleKind, alloc: &mut HoleAllocator) -> (r:
    TemplateNode)
    requires
        nodes@.len() <= u32::MAX,
    ensures
        r.shape() == TemplateShape::Hole(sat_u32(old(alloc).table().len())),
        final(alloc).table() == old(alloc).table().push(
            new_hole(kind, scalar_bindings(derefs(nodes@)), old(alloc).table()),
        ),
{
    let ghost bs = scalar_bindings(derefs(nodes@));
    let id = alloc.reserve();
    let mut substitutions: Vec<Substitution> = Vec::new();
    let mut k: usize = 0;
    while k < nodes.len()
        invariant
            k <= nodes@.len(),
            bs == scalar_bindings(derefs(nodes@)),
            bindings_of(substitutions@) == bs.take(k as int),
        decreases nodes@.len() - k,
    {
        let e = sub_element_of(nodes[k]);
        let v = vec![e];
        let ghost prev = substitutions@;
        substitutions.push(Substitution::new(v));
        assert(v@ =~= seq![sub_element_spec(*nodes@[k as int])]);
        assert(bindings_of(substitutions@) =~= bindings_of(prev).push(v@));
        assert(bs.take(k + 1) =~= bs.take(k as int).push(bs[k as int]));
        k = k + 1;
    }
    assert(bs.take(nodes@.len() as int) =~= bs);
    let divergence = build_divergence(substitutions.as_slice());
    let hole = Hole::new(id, kind, substitutions, divergence);
    alloc.push(hole);
    TemplateNode::Hole(id)
}

/// Build a hole from already grouped per-member element lists (a gap of
/// the child alignment, where a member may bind zero or many elements);
/// its kind comes from the element counts.
fn make_grouped_hole(per_member: Vec<Vec<SubElement>>, alloc: &mut HoleAllocator) -> (r:
    TemplateNode)
    requires
        per_member@.len() <= u32::MAX,
    ensures
        r.shape() == TemplateShape::Hole(sat_u32(old(alloc).table().len())),
        final(alloc).table() == old(alloc).table().push(
            new_hole(
                classify(element_lists(per_member@)),
                element_lists(per_member@),
                old(alloc).table(),
            ),
        ),
{
    let ghost pm = element_lists(per_member@);
    let id = alloc.reserve();
    let kind = classify_hole_kind(per_member.as_slice());
    let mut rest = per_member;
    let mut substitutions: Vec<Substitution> = Vec::new();
    while rest.len() > 0
        invariant
            pm.len() <= u32::MAX,
            substitutions@.len() + rest@.len() == pm.len(),
            bindings_of(substitutions@) + element_lists(rest@) == pm,
        decreases rest@.len(),
    {
        let ghost prev_s = substitutions@;
        let ghost prev_r = rest@;
        let v = rest.remove(0);
        substitutions.push(Substitution::new(v));
        assert(bindings_of(substitutions@) =~= bindings_of(prev_s).push(v@));
        assert(element_lists(prev_r) =~= seq![v@] + element_lists(rest@));
        assert(bindings_of(substitutions@) + element_lists(rest@) =~= bindings_of(prev_s) + element_lists(prev_r));
    }
    assert(element_lists(rest@) =~= Seq::<Seq<SubElement>>::empty());
    assert(bindings_of(substitutions@) =~= pm);
    let divergence = build_divergence(substitutions.as_slice());
    let hole = Hole::new(id, kind, substitutions, divergence);
    alloc.push(hole);
    TemplateNode::Hole(id)
}

// ---- child alignment by common subsequence ----

/// A sequence is a subsequence of itself.
pub proof fn lemma_subseq_refl(x: Seq<u64>)
    ensures
        is_subseq(x, x),
    decreases x.len(),
{
    if x.len() > 0 {
        lemma_subseq_refl(x.drop_first());
    }
}

/// The fold of the first `j` sequences is a subsequence of each of them.
pub proof fn lemma_fp_fold_subseq(ss: Seq<Seq<u64>>, j: int)
    requires
        1 <= j <= ss.len(),
    ensures
        forall|k: int| 0 <= k < j ==> is_subseq(fp_fold(ss, j), #[trigger] ss[k]),
    decreases j,
{
    if j == 1 {
        lemma_subseq_refl(ss[0]);
    } else {
        lemma_fp_fold_subseq(ss, j - 1);
        let prev = fp_fold(ss, j - 1);
        lemma_lcs_subseq(prev, ss[j - 1]);
        assert forall|k: int| 0 <= k < j implies is_subseq(fp_fold(ss, j), #[trigger] ss[k]) by {
            if k < j - 1 {
                lemma_subseq_trans(fp_fold(ss, j), prev, ss[k]);
            }
        }
    }
}

/// The anchors of non-empty nodes are a subsequence of each node's child
/// fingerprints.
pub proof fn lemma_anchors_subseq(ns: Seq<NormalizedTree>)
    requires
        ns.len() > 0,
    ensures
        forall|k: int| 0 <= k < ns.len() ==> is_subseq(anchors_of(ns), fps_of(#[trigger] ns[k].children@)),
{
    broadcast use vstd::seq_lib::group_to_multiset_ensures;
    let ls = child_fp_lists(ns);
    let ss = ls.sort_by(lex_leq());
    lemma_lex_total_ordering();
    ls.lemma_sort_by_ensures(lex_leq());
    assert(ss.len() == ls.len()) by {
        vstd::seq_lib::to_multiset_len(ls);
        vstd::seq_lib::to_multiset_len(ss);
    }
    lemma_fp_fold_subseq(ss, ss.len() as int);
    assert forall|k: int| 0 <= k < ns.len() implies is_subseq(anchors_of(ns), fps_of(#[trigger] ns[k].children@)) by {
        assert(ls[k] == fps_of(ns[k].children@));
        assert(ls.contains(ls[k]));
        vstd::seq_lib::to_multiset_contains(ls, ls[k]);
        vstd::seq_lib::to_multiset_contains(ss, ls[k]);
        let q = choose|q: int| 0 <= q < ss.len() && ss[q] == ls[k];
        assert(is_subseq(fp_fold(ss, ss.len() as int), ss[q]));
    }
}

/// Once the fold runs empty it stays empty.
proof fn lemma_fp_fold_empty(ss: Seq<Seq<u64>>, k: int, j: int)
    requires
        1 <= k <= j,
        fp_fold(ss, k).len() == 0,
    ensures
        fp_fold(ss, j).len() == 0,
    decreases j - k,
{
    if j > k {
        lemma_fp_fold_empty(ss, k, j - 1);
        assert(fp_fold(ss, j) =~= Seq::<u64>::empty());
    }
}

/// Scanning for the next anchor of a subsequence finds it, and the
/// remaining anchors stay a subsequence of what follows it.
pub proof fn lemma_gap_end_anchor(cs: Seq<NormalizedTree>, c: int, x: Seq<u64>)
    requires
        0 <= c <= cs.len(),
        x.len() > 0,
        is_subseq(x, fps_of(cs).subrange(c, cs.len() as int)),
    ensures
        c <= gap_end(cs, c, x[0]) < cs.len(),
        cs[gap_end(cs, c, x[0])].fp == x[0],
        is_subseq(x.drop_first(), fps_of(cs).subrange(gap_end(cs, c, x[0]) + 1, cs.len() as int)),
    decreases cs.len() - c,
{
    let y = fps_of(cs).subrange(c, cs.len() as int);
    assert(y.len() > 0);
    assert(y[0] == cs[c].fp);
    assert(y.drop_first() =~= fps_of(cs).subrange(c + 1, cs.len() as int));
    if cs[c].fp != x[0] {
        lemma_gap_end_anchor(cs, c + 1, x);
    }
}

/// The fingerprints of a node's children.
fn child_fps(node: &NormalizedTree) -> (r: Vec<u64>)
    ensures
        r@ == fps_of(node.children@),
{
    let mut out: Vec<u64> = Vec::new();
    let mut i: usize = 0;
    while i < node.children.len()
        invariant
            i <= node.children@.len(),
            out@ == fps_of(node.children@).take(i as int),
        decreases node.children@.len() - i,
    {
        out.push(node.children[i].fp);
        assert(fps_of(node.children@).take(i + 1) =~= fps_of(node.children@).take(i as int).push(
            node.children@[i as int].fp,
        ));
        i = i + 1;
    }
    assert(fps_of(node.children@).take(node.children@.len() as int) =~= fps_of(node.children@));
    out
}

/// The ordered child fingerprints present, in order, in every node —
/// the alignment anchors: the nodes' child fingerprint sequences, in
/// lexicographic order, folded through the chosen longest common
/// subsequence.
pub fn common_anchor_fps(nodes: &[&NormalizedTree]) -> (r: Vec<u64>)
    requires
        nodes@.len() > 0,
    ensures
        r@ == anchors_of(derefs(nodes@)),
        forall|k: int|
            0 <= k < nodes@.len() ==> is_subseq(r@, fps_of(#[trigger] nodes@[k].children@)),
{
    broadcast use vstd::seq_lib::group_to_multiset_ensures;
    let ghost ns = derefs(nodes@);
    let mut lists: Vec<Vec<u64>> = Vec::new();
    let mut i: usize = 0;
    while i < nodes.len()
        invariant
            i <= nodes@.len(),
            ns == derefs(nodes@),
            vec_views(lists@) == child_fp_lists(ns).take(i as int),
        decreases nodes@.len() - i,
    {
        let l = child_fps(nodes[i]);
        let ghost prev = lists@;
        lists.push(l);
        assert(vec_views(lists@) =~= vec_views(prev).push(l@));
        assert(child_fp_lists(ns).take(i + 1) =~= child_fp_lists(ns).take(i as int).push(
            fps_of(ns[i as int].children@),
        ));
        i = i + 1;
    }
    assert(child_fp_lists(ns).take(nodes@.len() as int) =~= child_fp_lists(ns));
    let sorted = sort_fp_lists(lists);
    let ghost ss = vec_views(sorted@);
    proof {
        lemma_lex_total_ordering();
        child_fp_lists(ns).lemma_sort_by_ensures(lex_leq());
        vstd::seq_lib::to_multiset_len(child_fp_lists(ns));
        vstd::seq_lib::to_multiset_len(ss);
    }
    assert(ss.len() == nodes@.len());
    let mut anchors = sorted[0].clone();
    assert(anchors@ == fp_fold(ss, 1));
    let mut k: usize = 1;
    while k < sorted.len()
        invariant
            1 <= k <= sorted@.len(),
            ss == vec_views(sorted@),
            anchors@ == fp_fold(ss, k as int),
        ensures
            anchors@ == fp_fold(ss, sorted@.len() as int),
        decreases sorted@.len() - k,
    {
        anchors = lcs_fp_sequence(anchors.as_slice(), sorted[k].as_slice());
        assert(sorted@[k as int]@ == ss[k as int]);
        k = k + 1;
        if anchors.len() == 0 {
            proof {
                lemma_fp_fold_empty(ss, k as int, sorted@.len() as int);
            }
            assert(anchors@ =~= fp_fold(ss, sorted@.len() as int));
            break;
        }
    }
    proof {
        lemma_anchors_subseq(ns);
        assert forall|k: int| 0 <= k < nodes@.len() implies is_subseq(anchors@, fps_of(#[trigger] nodes@[k].children@)) by {
            assert(ns[k] == *nodes@[k]);
        }
    }
    anchors
}

/// Collect one member's children from `*cursor` up to, not including,
/// the first child whose fingerprint is `anchor_fp`, advancing `*cursor`
/// to that child (to the end when there is none).
fn collect_gap_until(node: &NormalizedTree, cursor: &mut usize, anchor_fp: u64) -> (gap: Vec<
    SubElement,
>)
    requires
        *old(cursor) <= node.children@.len(),
    ensures
        *final(cursor) == gap_end(node.children@, *old(cursor) as int, anchor_fp),
        *final(cursor) <= node.children@.len(),
        gap@ == gap_elements(node.children@, *old(cursor) as int, *final(cursor) as int),
{
    let c0 = *cursor;
    let ghost cs = node.children@;
    let mut cur: usize = c0;
    let mut gap: Vec<SubElement> = Vec::new();
    while cur < node.children.len() && node.children[cur].fp != anchor_fp
        invariant
            c0 <= cur <= cs.len(),
            cs == node.children@,
            gap_end(cs, cur as int, anchor_fp) == gap_end(cs, c0 as int, anchor_fp),
            gap@ == gap_elements(cs, c0 as int, cur as int),
        decreases cs.len() - cur,
    {
        let e = sub_element_of(&node.children[cur]);
        gap.push(e);
        assert(cs.subrange(c0 as int, cur + 1) =~= cs.subrange(c0 as int, cur as int).push(cs[cur as int]));
        assert(gap_elements(cs, c0 as int, cur + 1) =~= gap_elements(cs, c0 as int, cur as int).push(e));
        cur = cur + 1;
    }
    *cursor = cur;
    gap
}


/// Every member's cursor is within its children.
spec fn cursors_within(ns: Seq<NormalizedTree>, cursors: Seq<usize>) -> bool {
    &&& cursors.len() == ns.len()
    &&& forall|k: int| 0 <= k < ns.len() ==> #[trigger] cursors[k] <= ns[k].children@.len()
}

/// Whether some member's gap is not empty.
fn any_gap(per_member: &Vec<Vec<SubElement>>) -> (r: bool)
    ensures
        r == any_nonempty(element_lists(per_member@)),
{
    let ghost pm = element_lists(per_member@);
    let mut k: usize = 0;
    while k < per_member.len()
        invariant
            k <= per_member@.len(),
            pm == element_lists(per_member@),
            forall|q: int| 0 <= q < k ==> (#[trigger] pm[q]).len() == 0,
        decreases per_member@.len() - k,
    {
        if per_member[k].len() > 0 {
            assert(pm[k as int].len() > 0);
            return true;
        }
        k = k + 1;
    }
    false
}

/// Turn each member's part of a gap into a grouped hole when some part
/// is not empty.
fn emit_group_hole(per_member: Vec<Vec<SubElement>>, alloc: &mut HoleAllocator) -> (r: Option<
    TemplateNode,
>)
    requires
        per_member@.len() <= u32::MAX,
    ensures
        ({
            let g = emit_group(element_lists(per_member@), old(alloc).table());
            &&& final(alloc).table() == g.1
            &&& match r {
                Some(t) => g.0 == seq![t.shape()],
                None => g.0 == Seq::<TemplateShape>::empty(),
            }
        }),
{
    if any_gap(&per_member) {
        Some(make_grouped_hole(per_member, alloc))
    } else {
        None
    }
}

/// Collect, for every member, the children before the next child whose
/// fingerprint is `anchor_fp`, advancing each member's cursor to that
/// child; the gap becomes a grouped hole when some member's part of it
/// is not empty.
fn emit_gap_before_anchor(
    nodes: &[&NormalizedTree],
    cursors: &mut Vec<usize>,
    anchor_fp: u64,
    alloc: &mut HoleAllocator,
) -> (r: Option<TemplateNode>)
    requires
        nodes@.len() <= u32::MAX,
        cursors_within(derefs(nodes@), old(cursors)@),
    ensures
        cursors_within(derefs(nodes@), final(cursors)@),
        cursor_ints(final(cursors)@) == gap_ends(
            derefs(nodes@),
            cursor_ints(old(cursors)@),
            anchor_fp,
        ),
        ({
            let g = emit_group(
                gaps_before(derefs(nodes@), cursor_ints(old(cursors)@), anchor_fp),
                old(alloc).table(),
            );
            &&& final(alloc).table() == g.1
            &&& match r {
                Some(t) => g.0 == seq![t.shape()],
                None => g.0 == Seq::<TemplateShape>::empty(),
            }
        }),
{
    let ghost ns = derefs(nodes@);
    let ghost c0 = cursor_ints(cursors@);
    let ghost gs = gaps_before(ns, c0, anchor_fp);
    let ghost es = gap_ends(ns, c0, anchor_fp);
    let mut per_member: Vec<Vec<SubElement>> = Vec::new();
    let mut k: usize = 0;
    while k < nodes.len()
        invariant
            k <= nodes@.len(),
            ns == derefs(nodes@),
            cursors@.len() == ns.len(),
            c0.len() == ns.len(),
            gs == gaps_before(ns, c0, anchor_fp),
            es == gap_ends(ns, c0, anchor_fp),
            forall|q: int| k <= q < ns.len() ==> #[trigger] cursors@[q] as int == c0[q],
            forall|q: int| 0 <= q < ns.len() ==> #[trigger] c0[q] <= ns[q].children@.len(),
            forall|q: int| 0 <= q < k ==> #[trigger] cursors@[q] as int == es[q],
            forall|q: int| 0 <= q < ns.len() ==> #[trigger] cursors@[q] <= ns[q].children@.len(),
            element_lists(per_member@) == gs.take(k as int),
        decreases nodes@.len() - k,
    {
        let mut c = cursors[k];
        let g = collect_gap_until(nodes[k], &mut c, anchor_fp);
        cursors.set(k, c);
        let ghost prev = per_member@;
        per_member.push(g);
        assert(element_lists(per_member@) =~= element_lists(prev).push(g@));
        assert(gs.take(k + 1) =~= gs.take(k as int).push(gs[k as int]));
        k = k + 1;
    }
    assert(gs.take(nodes@.len() as int) =~= gs);
    assert(cursor_ints(cursors@) =~= es);
    emit_group_hole(per_member, alloc)
}

/// Collect, for every member, the children after its cursor (the
/// trailing gap); it becomes a grouped hole when some member's part of
/// it is not empty.
fn emit_trailing_gap(nodes: &[&NormalizedTree], cursors: &Vec<usize>, alloc: &mut HoleAllocator) -> (r:
    Option<TemplateNode>)
    requires
        nodes@.len() <= u32::MAX,
        cursors_within(derefs(nodes@), cursors@),
    ensures
        ({
            let g = emit_group(
                trailing_gaps(derefs(nodes@), cursor_ints(cursors@)),
                old(alloc).table(),
            );
            &&& final(alloc).table() == g.1
            &&& match r {
                Some(t) => g.0 == seq![t.shape()],
                None => g.0 == Seq::<TemplateShape>::empty(),
            }
        }),
{
    let ghost ns = derefs(nodes@);
    let ghost gs = trailing_gaps(ns, cursor_ints(cursors@));
    let mut per_member: Vec<Vec<SubElement>> = Vec::new();
    let mut k: usize = 0;
    while k < nodes.len()
        invariant
            k <= nodes@.len(),
            ns == derefs(nodes@),
            cursors_within(ns, cursors@),
            gs == trailing_gaps(ns, cursor_ints(cursors@)),
            element_lists(per_member@) == gs.take(k as int),
        decreases nodes@.len() - k,
    {
        let node = nodes[k];
        let mut c = cursors[k];
        let mut g: Vec<SubElement> = Vec::new();
        let c_start = c;
        let ghost c0 = c_start as int;
        let ghost cs = node.children@;
        assert(c <= cs.len()) by {
            assert(cursors@[k as int] <= ns[k as int].children@.len());
        }
        while c < node.children.len()
            invariant
                c_start <= c <= cs.len(),
                c0 == c_start as int,
                cs == node.children@,
                g@ == gap_elements(cs, c0, c as int),
            decreases cs.len() - c,
        {
            let e = sub_element_of(&node.children[c]);
            g.push(e);
            assert(cs.subrange(c0, c + 1) =~= cs.subrange(c0, c as int).push(cs[c as int]));
            assert(gap_elements(cs, c0, c + 1) =~= gap_elements(cs, c0, c as int).push(e));
            c = c + 1;
        }
        let ghost prev = per_member@;
        per_member.push(g);
        assert(element_lists(per_member@) =~= element_lists(prev).push(g@));
        assert(gs.take(k + 1) =~= gs.take(k as int).push(gs[k as int]));
        k = k + 1;
    }
    assert(gs.take(nodes@.len() as int) =~= gs);
    emit_group_hole(per_member, alloc)
}

// ---- the alignment recursion ----

/// Align the candidate nodes into one template node, recording the
/// holes it creates in `alloc` in pre-order.
fn align_node(nodes: &[&NormalizedTree], alloc: &mut HoleAllocator) -> (r: TemplateNode)
    requires
        nodes@.len() <= u32::MAX,
    ensures
        (r.shape(), final(alloc).table()) == align(derefs(nodes@), old(alloc).table()),
    decreases nodes@[0], 6int, 0int,
{
    if nodes.len() == 0 {
        empty_leaf_node()
    } else if nodes.len() == 1 {
        fixed_from_tree(nodes[0])
    } else {
        align_many(nodes, alloc)
    }
}

/// Align two or more candidate nodes: identical nodes are emitted
/// verbatim, shared-label internal nodes recurse, and anything else is a
/// scalar hole (`Block` when every node is block-like).
fn align_many(nodes: &[&NormalizedTree], alloc: &mut HoleAllocator) -> (r: TemplateNode)
    requires
        2 <= nodes@.len() <= u32::MAX,
    ensures
        (r.shape(), final(alloc).table()) == align(derefs(nodes@), old(alloc).table()),
    decreases nodes@[0], 5int, 0int,
{
    if all_structurally_identical(nodes) {
        return fixed_from_tree(nodes[0]);
    }
    match try_align_shared_internal(nodes, alloc) {
        Some(node) => node,
        None => {
            let kind = scalar_hole_kind(nodes);
            make_hole(nodes, kind, alloc)
        },
    }
}

/// When every node shares one label and is internal, emit a fixed node
/// and recurse into the children (child-wise for equal arity, through
/// the common-subsequence alignment otherwise); `None` otherwise.
fn try_align_shared_internal(nodes: &[&NormalizedTree], alloc: &mut HoleAllocator) -> (r: Option<
    TemplateNode,
>)
    requires
        2 <= nodes@.len() <= u32::MAX,
        !all_identical(derefs(nodes@)),
    ensures
        r is None <==> !(all_same_label(derefs(nodes@)) && all_internal(derefs(nodes@))),
        r is None ==> final(alloc).table() == old(alloc).table(),
        r matches Some(t) ==> (t.shape(), final(alloc).table()) == align(
            derefs(nodes@),
            old(alloc).table(),
        ),
    decreases nodes@[0], 4int, 0int,
{
    if !all_labels_equal(nodes) || !all_nodes_internal(nodes) {
        return None;
    }
    let label = nodes[0].label.clone();
    let children = if all_arities_equal(nodes) {
        align_children_positional(nodes, alloc)
    } else {
        lcs_children(nodes, alloc)
    };
    Some(TemplateNode::Fixed { label, children, leaf_lexeme: None })
}

/// Align equal-arity internal nodes position by position.
fn align_children_positional(nodes: &[&NormalizedTree], alloc: &mut HoleAllocator) -> (r: Vec<
    TemplateNode,
>)
    requires
        1 <= nodes@.len() <= u32::MAX,
        all_same_arity(derefs(nodes@)),
    ensures
        ({
            let w = align_positional(derefs(nodes@), 0, old(alloc).table());
            shapes_of(r@) == w.0 && final(alloc).table() == w.1
        }),
    decreases nodes@[0], 3int, 0int,
{
    let ghost ns = derefs(nodes@);
    let ghost w = align_positional(ns, 0, alloc.table());
    let arity = nodes[0].children.len();
    let mut children: Vec<TemplateNode> = Vec::new();
    let mut pos: usize = 0;
    while pos < arity
        invariant
            pos <= arity,
            1 <= nodes@.len() <= u32::MAX,
            ns == derefs(nodes@),
            arity == ns[0].children@.len(),
            all_same_arity(ns),
            w == align_positional(ns, 0, old(alloc).table()),
            shapes_of(children@) + align_positional(ns, pos as int, alloc.table()).0 == w.0,
            align_positional(ns, pos as int, alloc.table()).1 == w.1,
        decreases arity - pos,
    {
        let mut at_pos: Vec<&NormalizedTree> = Vec::new();
        let mut k: usize = 0;
        while k < nodes.len()
            invariant
                k <= nodes@.len(),
                pos < arity,
                ns == derefs(nodes@),
                arity == ns[0].children@.len(),
                all_same_arity(ns),
                derefs(at_pos@) == column(ns, pos as int).take(k as int),
                at_pos@.len() == k,
                k > 0 ==> at_pos@[0] == &nodes@[0].children@[pos as int],
            decreases nodes@.len() - k,
        {
            assert(ns[k as int].children@.len() == arity);
            let ghost prev = at_pos@;
            at_pos.push(&nodes[k].children[pos]);
            assert(derefs(at_pos@) =~= derefs(prev).push(ns[k as int].children@[pos as int]));
            assert(column(ns, pos as int).take(k + 1) =~= column(ns, pos as int).take(k as int).push(
                ns[k as int].children@[pos as int],
            ));
            k = k + 1;
        }
        assert(derefs(at_pos@) =~= column(ns, pos as int));
        let ghost hs0 = alloc.table();
        proof {
            assert(decreases_to!(nodes@[0] => at_pos@[0]));
        }
        let t = align_node(at_pos.as_slice(), alloc);
        let ghost prev = children@;
        children.push(t);
        proof {
            assert(children@.drop_last() =~= prev);
            let rest = align_positional(ns, pos + 1, alloc.table());
            assert(shapes_of(children@) + rest.0 =~= shapes_of(prev) + (seq![t.shape()] + rest.0));
        }
        pos = pos + 1;
    }
    assert(shapes_of(children@) + Seq::<TemplateShape>::empty() =~= shapes_of(children@));
    children
}

/// Emit the anchor children (each member's child at its cursor),
/// aligned, and advance every cursor past it.
fn emit_anchor(nodes: &[&NormalizedTree], cursors: &mut Vec<usize>, alloc: &mut HoleAllocator) -> (r:
    TemplateNode)
    requires
        1 <= nodes@.len() <= u32::MAX,
        old(cursors)@.len() == nodes@.len(),
        forall|k: int|
            0 <= k < nodes@.len() ==> #[trigger] old(cursors)@[k] < nodes@[k].children@.len(),
    ensures
        ({
            let t = align(
                anchor_nodes(derefs(nodes@), cursor_ints(old(cursors)@)),
                old(alloc).table(),
            );
            r.shape() == t.0 && final(alloc).table() == t.1
        }),
        cursor_ints(final(cursors)@) == Seq::new(
            nodes@.len(),
            |k: int| cursor_ints(old(cursors)@)[k] + 1,
        ),
        cursors_within(derefs(nodes@), final(cursors)@),
    decreases nodes@[0], 2int, 0int,
{
    let ghost ns = derefs(nodes@);
    let ghost c0 = cursor_ints(cursors@);
    let ghost an = anchor_nodes(ns, c0);
    let mut picked: Vec<&NormalizedTree> = Vec::new();
    let mut k: usize = 0;
    while k < nodes.len()
        invariant
            k <= nodes@.len(),
            1 <= nodes@.len(),
            ns == derefs(nodes@),
            cursors@.len() == nodes@.len(),
            c0 == cursor_ints(old(cursors)@),
            old(cursors)@.len() == nodes@.len(),
            an == anchor_nodes(ns, c0),
            forall|q: int| k <= q < ns.len() ==> #[trigger] cursors@[q] == old(cursors)@[q],
            forall|q: int| 0 <= q < k ==> #[trigger] cursors@[q] == old(cursors)@[q] + 1,
            forall|q: int|
                0 <= q < nodes@.len() ==> #[trigger] old(cursors)@[q] < nodes@[q].children@.len(),
            derefs(picked@) == an.take(k as int),
            picked@.len() == k,
            k > 0 ==> picked@[0] == &nodes@[0].children@[c0[0]],
        decreases nodes@.len() - k,
    {
        let c = cursors[k];
        assert(old(cursors)@[k as int] < nodes@[k as int].children@.len());
        assert(c == old(cursors)@[k as int]);
        assert(cursor_ints(old(cursors)@)[k as int] == old(cursors)@[k as int] as int);
        assert(c0[k as int] == c as int);
        assert(nodes@[k as int].children.len() == nodes@[k as int].children@.len());
        assert(ns[k as int] == *nodes@[k as int]);
        let ghost prev = picked@;
        picked.push(&nodes[k].children[c]);
        assert(an[k as int] == ns[k as int].children@[c as int]);
        assert(derefs(picked@) =~= derefs(prev).push(ns[k as int].children@[c as int]));
        assert(an.take(k + 1) =~= an.take(k as int).push(an[k as int]));
        cursors.set(k, c + 1);
        k = k + 1;
    }
    assert(derefs(picked@) =~= an);
    assert(cursor_ints(cursors@) =~= Seq::new(nodes@.len(), |q: int| c0[q] + 1));
    proof {
        assert(decreases_to!(nodes@[0] => picked@[0]));
    }
    align_node(picked.as_slice(), alloc)
}

/// Align the children of differing-arity internal nodes: the child
/// fingerprints every member holds in order are the anchors; the
/// children between consecutive anchors become grouped holes and the
/// anchors themselves are aligned recursively.
fn lcs_children(nodes: &[&NormalizedTree], alloc: &mut HoleAllocator) -> (r: Vec<TemplateNode>)
    requires
        1 <= nodes@.len() <= u32::MAX,
    ensures
        ({
            let w = lcs_walk(
                derefs(nodes@),
                anchors_of(derefs(nodes@)),
                0,
                zero_cursors(nodes@.len()),
                old(alloc).table(),
            );
            shapes_of(r@) == w.0 && final(alloc).table() == w.1
        }),
    decreases nodes@[0], 3int, 0int,
{
    let ghost ns = derefs(nodes@);
    let anchors = common_anchor_fps(nodes);
    let ghost w = lcs_walk(ns, anchors@, 0, zero_cursors(nodes@.len()), alloc.table());
    let mut out: Vec<TemplateNode> = Vec::new();
    let mut cursors: Vec<usize> = Vec::new();
    let mut k: usize = 0;
    while k < nodes.len()
        invariant
            k <= nodes@.len(),
            cursors@.len() == k,
            forall|q: int| 0 <= q < k ==> #[trigger] cursors@[q] == 0,
        decreases nodes@.len() - k,
    {
        cursors.push(0);
        k = k + 1;
    }
    assert(cursor_ints(cursors@) =~= zero_cursors(nodes@.len()));
    proof {
        assert forall|q: int| 0 <= q < ns.len() implies is_subseq(
            anchors@.subrange(0, anchors@.len() as int),
            fps_of(#[trigger] ns[q].children@).subrange(0, ns[q].children@.len() as int),
        ) by {
            assert(anchors@.subrange(0, anchors@.len() as int) =~= anchors@);
            assert(fps_of(ns[q].children@).subrange(0, ns[q].children@.len() as int) =~= fps_of(
                ns[q].children@,
            ));
            assert(ns[q] == *nodes@[q]);
        }
    }
    let mut a: usize = 0;
    while a < anchors.len()
        invariant
            a <= anchors@.len(),
            1 <= nodes@.len() <= u32::MAX,
            ns == derefs(nodes@),
            cursors_within(ns, cursors@),
            forall|q: int|
                0 <= q < ns.len() ==> is_subseq(
                    anchors@.subrange(a as int, anchors@.len() as int),
                    fps_of(#[trigger] ns[q].children@).subrange(
                        cursors@[q] as int,
                        ns[q].children@.len() as int,
                    ),
                ),
            shapes_of(out@) + lcs_walk(ns, anchors@, a as int, cursor_ints(cursors@), alloc.table()).0
                == w.0,
            lcs_walk(ns, anchors@, a as int, cursor_ints(cursors@), alloc.table()).1 == w.1,
        decreases anchors@.len() - a,
    {
        let fp = anchors[a];
        let ghost c0 = cursor_ints(cursors@);
        let ghost hs0 = alloc.table();
        let ghost x = anchors@.subrange(a as int, anchors@.len() as int);
        proof {
            assert forall|q: int| 0 <= q < ns.len() implies c0[q] <= #[trigger] gap_end(
                ns[q].children@,
                c0[q],
                fp,
            ) < ns[q].children@.len() && is_subseq(
                anchors@.subrange(a + 1, anchors@.len() as int),
                fps_of(ns[q].children@).subrange(
                    gap_end(ns[q].children@, c0[q], fp) + 1,
                    ns[q].children@.len() as int,
                ),
            ) by {
                lemma_gap_end_anchor(ns[q].children@, c0[q], x);
                assert(x.drop_first() =~= anchors@.subrange(a + 1, anchors@.len() as int));
            }
        }
        let g = emit_gap_before_anchor(nodes, &mut cursors, fp, alloc);
        let ghost prev_out = out@;
        match g {
            Some(h) => {
                out.push(h);
                assert(out@.drop_last() =~= prev_out);
            },
            None => {},
        }
        let ghost c1 = cursor_ints(cursors@);
        let ghost hs1 = alloc.table();
        let ghost out1 = out@;
        proof {
            assert forall|q: int| 0 <= q < nodes@.len() implies #[trigger] cursors@[q]
                < nodes@[q].children@.len() by {
                assert(ns[q] == *nodes@[q]);
                assert(c1[q] == gap_end(ns[q].children@, c0[q], fp));
            }
        }
        let t = emit_anchor(nodes, &mut cursors, alloc);
        out.push(t);
        proof {
            assert(out@.drop_last() =~= out1);
            let ends = gap_ends(ns, c0, fp);
            assert(c1 =~= ends);
            let gg = emit_group(gaps_before(ns, c0, fp), hs0);
            assert(shapes_of(out1) == shapes_of(prev_out) + gg.0);
            assert(anchors@[a as int] == fp);
            let tt = align(anchor_nodes(ns, ends), gg.1);
            let rest = lcs_walk(ns, anchors@, a + 1, cursor_ints(cursors@), alloc.table());
            assert(cursor_ints(cursors@) =~= Seq::new(ns.len(), |q: int| ends[q] + 1));
            assert(lcs_walk(ns, anchors@, a as int, c0, hs0) == (gg.0 + seq![tt.0] + rest.0, rest.1));
            assert(shapes_of(out@) + rest.0 =~= shapes_of(prev_out) + (gg.0 + seq![tt.0] + rest.0));
            assert forall|q: int| 0 <= q < ns.len() implies is_subseq(
                anchors@.subrange(a + 1, anchors@.len() as int),
                fps_of(#[trigger] ns[q].children@).subrange(
                    cursors@[q] as int,
                    ns[q].children@.len() as int,
                ),
            ) by {
                assert(cursor_ints(cursors@)[q] == ends[q] + 1);
                assert(cursors@[q] as int == ends[q] + 1);
            }
        }
        a = a + 1;
    }
    let ghost out0 = out@;
    let ghost hs_end = alloc.table();
    let tail = emit_trailing_gap(nodes, &cursors, alloc);
    match tail {
        Some(h) => {
            out.push(h);
            assert(out@.drop_last() =~= out0);
        },
        None => {},
    }
    proof {
        let gg = emit_group(trailing_gaps(ns, cursor_ints(cursors@)), hs_end);
        assert(shapes_of(out@) =~= shapes_of(out0) + gg.0);
    }
    out
}

/// The first-order least general generalization of a cluster's member
/// trees: the shared structure with numbered holes where the members
/// diverge, and per hole the bindings of every member in member order
/// with their divergence summary.
///
/// An empty member list yields an unlabelled empty fixed root and no
/// holes; a single member yields its own structure and no holes.
pub fn antiunify(members: &[NormalizedTree]) -> (r: Template)
    requires
        members@.len() <= u32::MAX,
    ensures
        r.root.shape() == antiunify_spec(members@).0,
        hole_shapes(r.holes@) == antiunify_spec(members@).1,
{
    let mut refs: Vec<&NormalizedTree> = Vec::new();
    let mut i: usize = 0;
    while i < members.len()
        invariant
            i <= members@.len(),
            derefs(refs@) == members@.take(i as int),
        decreases members@.len() - i,
    {
        let ghost prev = refs@;
        refs.push(&members[i]);
        assert(derefs(refs@) =~= derefs(prev).push(members@[i as int]));
        assert(members@.take(i + 1) =~= members@.take(i as int).push(members@[i as int]));
        i = i + 1;
    }
    assert(members@.take(members@.len() as int) =~= members@);
    assert(derefs(refs@) == members@);
    let mut alloc = HoleAllocator::new();
    let root = align_node(refs.as_slice(), &mut alloc);
    let holes = alloc.into_holes();
    Template::new(root, holes)
}

// ---- reconstruction ----

/// How many of a member's children the template children `tcs` stand
/// for: one per fixed node, and per hole the number of elements member
/// `k` binds there.
pub open spec fn consumed(tcs: Seq<TemplateShape>, holes: Seq<HoleShape>, k: int) -> int
    decreases tcs.len(),
{
    if tcs.len() == 0 {
        0
    } else {
        (match tcs[0] {
            TemplateShape::Fixed { .. } => 1,
            TemplateShape::Hole(id) => holes[id as int].bindings[k].len() as int,
        }) + consumed(tcs.drop_first(), holes, k)
    }
}

/// Member `k`'s tree can be rebuilt from the template node: every hole
/// the node reaches is in the table and has a binding for member `k`,
/// and the member has every child the template addresses.
pub open spec fn fits(node: TemplateShape, holes: Seq<HoleShape>, k: int, member: NormalizedTree) -> bool
    decreases node,
{
    match node {
        TemplateShape::Fixed { children, .. } => children_fit(children, holes, k, member, 0),
        TemplateShape::Hole(_) => true,
    }
}

/// The template children `tcs` can be rebuilt against `member`'s
/// children from position `cursor` on.
pub open spec fn children_fit(
    tcs: Seq<TemplateShape>,
    holes: Seq<HoleShape>,
    k: int,
    member: NormalizedTree,
    cursor: int,
) -> bool
    decreases tcs,
{
    if tcs.len() == 0 {
        true
    } else {
        match tcs[0] {
            TemplateShape::Fixed { .. } => {
                &&& 0 <= cursor < member.children@.len()
                &&& fits(tcs[0], holes, k, member.children@[cursor])
                &&& children_fit(tcs.drop_first(), holes, k, member, cursor + 1)
            },
            TemplateShape::Hole(id) => {
                &&& id < holes.len()
                &&& 0 <= k < holes[id as int].bindings.len()
                &&& 0 <= cursor
                &&& cursor + holes[id as int].bindings[k].len() <= member.children@.len()
                &&& children_fit(
                    tcs.drop_first(),
                    holes,
                    k,
                    member,
                    cursor + holes[id as int].bindings[k].len(),
                )
            },
        }
    }
}

/// Member `k`'s tree rebuilt from a template node: a fixed node copies
/// the member node's own label, fingerprint, leaf and span and rebuilds
/// its children; a hole stands for the member node itself.
pub open spec fn rebuild(node: TemplateShape, holes: Seq<HoleShape>, k: int, member: NormalizedTree) -> TreeView
    decreases node,
{
    match node {
        TemplateShape::Fixed { children, .. } => TreeView::Node {
            label: member.label@,
            fp: member.fp,
            children: rebuild_children(children, holes, k, member, 0),
            leaf: leaf_view(member.leaf),
            span: member.span,
        },
        TemplateShape::Hole(_) => member.tree_view(),
    }
}

/// Member `k`'s children rebuilt from the template children `tcs`, from
/// its child `cursor` on: a fixed template child rebuilds one member
/// child; a hole splices in the member children it binds, verbatim.
pub open spec fn rebuild_children(
    tcs: Seq<TemplateShape>,
    holes: Seq<HoleShape>,
    k: int,
    member: NormalizedTree,
    cursor: int,
) -> Seq<TreeView>
    decreases tcs,
{
    if tcs.len() == 0 {
        Seq::empty()
    } else {
        match tcs[0] {
            TemplateShape::Fixed { .. } => seq![rebuild(tcs[0], holes, k, member.children@[cursor])]
                + rebuild_children(tcs.drop_first(), holes, k, member, cursor + 1),
            TemplateShape::Hole(id) => {
                let n = holes[id as int].bindings[k].len() as int;
                tree_views(member.children@.subrange(cursor, cursor + n)) + rebuild_children(
                    tcs.drop_first(),
                    holes,
                    k,
                    member,
                    cursor + n,
                )
            },
        }
    }
}

/// The views of a concatenation are the concatenation of the views.
pub proof fn lemma_tree_views_concat(a: Seq<NormalizedTree>, b: Seq<NormalizedTree>)
    ensures
        tree_views(a + b) == tree_views(a) + tree_views(b),
    decreases b.len(),
{
    if b.len() == 0 {
        assert(a + b =~= a);
        assert(tree_views(a) + tree_views(b) =~= tree_views(a));
    } else {
        lemma_tree_views_concat(a, b.drop_last());
        assert((a + b).drop_last() =~= a + b.drop_last());
        assert(tree_views(a) + tree_views(b) =~= tree_views(a) + tree_views(b.drop_last()) + seq![
            b.last().tree_view(),
        ]);
    }
}

/// Rebuild member `k`'s tree from a template and the members the
/// template was computed from: the fixed skeleton takes the member's
/// own labels, fingerprints, leaves and spans, and each hole splices in
/// the member's subtrees it binds. For the template of the members this
/// gives member `k` back exactly.
pub fn instantiate(template: &Template, members: &[NormalizedTree], k: usize) -> (r: NormalizedTree)
    requires
        k < members@.len(),
        fits(template.root.shape(), hole_shapes(template.holes@), k as int, members@[k as int]),
    ensures
        r.tree_view() == rebuild(
            template.root.shape(),
            hole_shapes(template.holes@),
            k as int,
            members@[k as int],
        ),
{
    rebuild_against_member(&template.root, template.holes.as_slice(), k, &members[k])
}

/// Rebuild the subtree a template node yields against the member node
/// it aligns with.
fn rebuild_against_member(node: &TemplateNode, holes: &[Hole], k: usize, member: &NormalizedTree) -> (r:
    NormalizedTree)
    requires
        fits(node.shape(), hole_shapes(holes@), k as int, *member),
    ensures
        r.tree_view() == rebuild(node.shape(), hole_shapes(holes@), k as int, *member),
    decreases node, 1int,
{
    match node {
        TemplateNode::Fixed { children, .. } => {
            let kids = rebuild_children_exec(children.as_slice(), holes, k, member);
            NormalizedTree {
                label: member.label.clone(),
                fp: member.fp,
                children: kids,
                leaf: match &member.leaf {
                    Some(l) => Some(l.clone()),
                    None => None,
                },
                span: member.span,
            }
        },
        TemplateNode::Hole(_) => member.clone(),
    }
}

/// Rebuild a fixed node's children: a fixed template child consumes and
/// rebuilds one member child; a hole splices in, verbatim, the member
/// children it binds.
fn rebuild_children_exec(
    tmpl_children: &[TemplateNode],
    holes: &[Hole],
    k: usize,
    member: &NormalizedTree,
) -> (r: Vec<NormalizedTree>)
    requires
        children_fit(shapes_of(tmpl_children@), hole_shapes(holes@), k as int, *member, 0),
    ensures
        tree_views(r@) == rebuild_children(
            shapes_of(tmpl_children@),
            hole_shapes(holes@),
            k as int,
            *member,
            0,
        ),
    decreases tmpl_children@, 0int,
{
    let ghost hs = hole_shapes(holes@);
    let ghost tcs = shapes_of(tmpl_children@);
    proof {
        lemma_shapes_of_index(tmpl_children@);
    }
    let mut kids: Vec<NormalizedTree> = Vec::new();
    let mut cursor: usize = 0;
    let mut i: usize = 0;
    assert(tcs.subrange(0, tcs.len() as int) =~= tcs);
    assert(member.children.len() == member.children@.len());
    while i < tmpl_children.len()
        invariant
            i <= tmpl_children@.len(),
            hs == hole_shapes(holes@),
            tcs == shapes_of(tmpl_children@),
            tcs.len() == tmpl_children@.len(),
            member.children@.len() <= usize::MAX,
            forall|q: int| 0 <= q < tcs.len() ==> #[trigger] tcs[q] == tmpl_children@[q].shape(),
            children_fit(tcs.subrange(i as int, tcs.len() as int), hs, k as int, *member, cursor as int),
            tree_views(kids@) + rebuild_children(
                tcs.subrange(i as int, tcs.len() as int),
                hs,
                k as int,
                *member,
                cursor as int,
            ) == rebuild_children(tcs, hs, k as int, *member, 0),
        decreases tmpl_children@.len() - i,
    {
        let ghost rest = tcs.subrange(i as int, tcs.len() as int);
        assert(rest[0] == tcs[i as int]);
        assert(rest.drop_first() =~= tcs.subrange(i + 1, tcs.len() as int));
        let ghost prev = kids@;
        match &tmpl_children[i] {
            TemplateNode::Fixed { .. } => {
                proof {
                    assert(decreases_to!(tmpl_children@ => tmpl_children@[i as int]));
                }
                let kid = rebuild_against_member(&tmpl_children[i], holes, k, &member.children[cursor]);
                kids.push(kid);
                proof {
                    assert(kids@.drop_last() =~= prev);
                    let tail = rebuild_children(rest.drop_first(), hs, k as int, *member, cursor + 1);
                    assert(tree_views(kids@) + tail =~= tree_views(prev) + (seq![kid.tree_view()] + tail));
                }
                cursor = cursor + 1;
            },
            TemplateNode::Hole(id) => {
                let h = &holes[id.index as usize];
                assert(hs[id.index as int] == h.shape());
                assert(h.shape().bindings == bindings_of(h.substitutions@));
                let count = h.substitutions[k].elements.len();
                assert(count == hs[id.index as int].bindings[k as int].len());
                let ghost start = cursor as int;
                let mut offset: usize = 0;
                while offset < count
                    invariant
                        offset <= count,
                        start + count <= member.children@.len(),
                        member.children@.len() <= usize::MAX,
                        start == cursor as int,
                        tree_views(kids@) == tree_views(prev) + tree_views(
                            member.children@.subrange(start, start + offset),
                        ),
                    decreases count - offset,
                {
                    let ghost before = kids@;
                    let c = member.children[cursor + offset].clone();
                    kids.push(c);
                    proof {
                        assert(kids@.drop_last() =~= before);
                        assert(member.children@.subrange(start, start + offset + 1).drop_last()
                            =~= member.children@.subrange(start, start + offset));
                        assert(member.children@.subrange(start, start + offset + 1).last()
                            == member.children@[start + offset]);
                    }
                    offset = offset + 1;
                }
                proof {
                    let tail = rebuild_children(rest.drop_first(), hs, k as int, *member, start + count);
                    assert(tree_views(kids@) + tail =~= tree_views(prev) + (tree_views(
                        member.children@.subrange(start, start + count),
                    ) + tail));
                }
                cursor = cursor + count;
            },
        }
        i = i + 1;
    }
    assert(tcs.subrange(i as int, tcs.len() as int) =~= Seq::<TemplateShape>::empty());
    assert(tree_views(kids@) + Seq::<TreeView>::empty() =~= tree_views(kids@));
    kids
}

/// The shape sequence has one shape per node, in order.
pub proof fn lemma_shapes_of_index(a: Seq<TemplateNode>)
    ensures
        shapes_of(a).len() == a.len(),
        forall|i: int| 0 <= i < a.len() ==> #[trigger] shapes_of(a)[i] == a[i].shape(),
    decreases a.len(),
{
    if a.len() > 0 {
        lemma_shapes_of_index(a.drop_last());
    }
}

} // verus!
