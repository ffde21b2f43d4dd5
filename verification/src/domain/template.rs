//! Anti-unification template types — [`Template`], [`TemplateNode`],
//! [`HoleId`], [`Hole`], [`HoleKind`], [`Substitution`],
//! [`SubElement`], [`Divergence`], [`DistinctValue`] — and their
//! mathematical shapes.
//!
//! A [`Template`] is the shared structure of a cluster — its
//! [`TemplateNode`] tree with named [`Hole`]s where the members diverge
//! — plus, per hole, the per-member [`Substitution`] that fills it and a
//! [`Divergence`] summary.
use vstd::prelude::*;

use super::Span;

verus! {

/// A generalized template over a cluster's member trees: the shared
/// structure plus the per-hole divergence data, `holes` indexed by
/// [`HoleId::index`].
#[derive(Debug, Clone, PartialEq)]
pub struct Template {
    /// Root of the shared-structure tree.
    pub root: TemplateNode,
    /// Per-hole substitution + divergence data.
    pub holes: Vec<Hole>,
}

impl Template {
    /// Construct a [`Template`] from its root node and hole table.
    pub fn new(root: TemplateNode, holes: Vec<Hole>) -> (r: Self)
        ensures
            r.root == root,
            r.holes == holes,
    {
        Self { root, holes }
    }
}

/// A node in a [`Template`]'s shared-structure tree: a fixed node
/// (structure shared by every member) or a hole marking a divergent
/// position whose bindings live in [`Template::holes`].
#[derive(Debug, PartialEq)]
#[non_exhaustive]
pub enum TemplateNode {
    /// Structure shared by every member at this position.
    Fixed {
        /// Adapter node-discriminator label shared by every member.
        label: String,
        /// Ordered children; a leaf node has an empty `children`.
        children: Vec<TemplateNode>,
        /// `Some` when every member's node here is a leaf with the same
        /// lexeme.
        leaf_lexeme: Option<String>,
    },
    /// A divergent position; its bindings live in
    /// [`Template::holes`]`[index]`.
    Hole(HoleId),
}

impl Clone for TemplateNode {
    #[verifier::loop_isolation(false)]
    fn clone(&self) -> (r: Self)
        ensures
            r.shape() == self.shape(),
        decreases self,
    {
        match self {
            TemplateNode::Fixed { label, children, leaf_lexeme } => {
                let mut kids: Vec<TemplateNode> = Vec::new();
                let mut i: usize = 0;
                while i < children.len()
                    invariant
                        i <= children@.len(),
                        shapes_of(kids@) == shapes_of(children@.take(i as int)),
                    decreases children@.len() - i,
                {
                    proof {
                        assert(decreases_to!(self => children@[i as int]));
                    }
                    let c = children[i].clone();
                    let ghost prev = kids@;
                    kids.push(c);
                    proof {
                        assert(kids@.drop_last() =~= prev);
                                                assert(children@.take(i + 1).drop_last() =~= children@.take(i as int));
                    }
                    i = i + 1;
                }
                assert(children@.take(children@.len() as int) =~= children@);
                let lex = match leaf_lexeme {
                    Some(l) => Some(l.clone()),
                    None => None,
                };
                TemplateNode::Fixed { label: label.clone(), children: kids, leaf_lexeme: lex }
            },
            TemplateNode::Hole(id) => TemplateNode::Hole(*id),
        }
    }
}

/// Stable identifier for a [`Hole`] — its index into [`Template::holes`].
#[derive(Debug, Clone, Copy, PartialEq, Eq, Structural, PartialOrd, Ord, Hash)]
pub struct HoleId {
    /// Index into [`Template::holes`].
    pub index: u32,
}

impl HoleId {
    /// Construct a [`HoleId`] from its index.
    pub fn new(index: u32) -> (r: Self)
        ensures
            r.index == index,
    {
        Self { index }
    }
}

/// Per-member bindings + divergence for one hole; `substitutions[k]` is
/// what member `k` binds at this hole.
#[derive(Debug, Clone, PartialEq)]
pub struct Hole {
    /// This hole's identifier.
    pub id: HoleId,
    /// What kind of position this hole generalizes.
    pub kind: HoleKind,
    /// Per-member bindings, in member order.
    pub substitutions: Vec<Substitution>,
    /// Divergence summary across the member bindings.
    pub divergence: Divergence,
}

impl Hole {
    /// Construct a [`Hole`] from its parts.
    pub fn new(
        id: HoleId,
        kind: HoleKind,
        substitutions: Vec<Substitution>,
        divergence: Divergence,
    ) -> (r: Self)
        ensures
            r.id == id,
            r.kind == kind,
            r.substitutions == substitutions,
            r.divergence == divergence,
    {
        Self { id, kind, substitutions, divergence }
    }
}

/// What a [`Hole`] generalizes.
#[derive(Debug, Clone, Copy, PartialEq, Eq, Structural)]
#[non_exhaustive]
pub enum HoleKind {
    /// A scalar sub-expression position — each member binds one subtree.
    SubExpr,
    /// A block / statement-group position — each member binds one
    /// (block) subtree.
    Block,
    /// A position absent in at least one member.
    Optional,
    /// A repetition group — at least one member binds more than one
    /// element.
    Variadic,
}

/// One member's binding at a [`Hole`]: zero (absent), one (scalar) or
/// several (repetition) bound subtrees.
#[derive(Debug, Clone, PartialEq)]
pub struct Substitution {
    /// The subtree(s) this member binds at the hole.
    pub elements: Vec<SubElement>,
}

impl Substitution {
    /// Construct a [`Substitution`] from its element list.
    pub fn new(elements: Vec<SubElement>) -> (r: Self)
        ensures
            r.elements == elements,
    {
        Self { elements }
    }
}

/// A single bound subtree inside a [`Substitution`]: display lexeme,
/// fold fingerprint, and source range.
#[derive(Debug, Clone, PartialEq)]
pub struct SubElement {
    /// Display label for the bound subtree.
    pub lexeme: String,
    /// Fold fingerprint of the bound subtree.
    pub fp: u64,
    /// Source range of the bound subtree.
    pub span: Span,
}

impl SubElement {
    /// Construct a [`SubElement`] from its parts.
    pub fn new(lexeme: String, fp: u64, span: Span) -> (r: Self)
        ensures
            r.lexeme == lexeme,
            r.fp == fp,
            r.span == span,
    {
        Self { lexeme, fp, span }
    }
}

/// Divergence summary for one [`Hole`]: distinct binding fingerprints,
/// members differing from the modal binding, member count, and the
/// per-value tallies (descending count, then ascending fingerprint).
#[derive(Debug, Clone, PartialEq)]
pub struct Divergence {
    /// Number of distinct binding fingerprints across the members.
    pub distinct: u32,
    /// Number of members whose binding differs from the modal baseline.
    pub differing: u32,
    /// Number of members.
    pub members: u32,
    /// Per-distinct-value tallies.
    pub distinct_values: Vec<DistinctValue>,
}

impl Divergence {
    /// Construct a [`Divergence`] from its parts.
    pub fn new(distinct: u32, differing: u32, members: u32, distinct_values: Vec<DistinctValue>) -> (r: Self)
        ensures
            r.distinct == distinct,
            r.differing == differing,
            r.members == members,
            r.distinct_values == distinct_values,
    {
        Self { distinct, differing, members, distinct_values }
    }
}

/// One distinct binding value in a [`Divergence`] tally.
#[derive(Debug, Clone, PartialEq)]
pub struct DistinctValue {
    /// The binding fingerprint (`0` is the "absent" key).
    pub fp: u64,
    /// A representative display lexeme for this value.
    pub lexeme: String,
    /// How many members bind this value.
    pub count: u32,
}

impl DistinctValue {
    /// Construct a [`DistinctValue`] from its parts.
    pub fn new(fp: u64, lexeme: String, count: u32) -> (r: Self)
        ensures
            r.fp == fp,
            r.lexeme == lexeme,
            r.count == count,
    {
        Self { fp, lexeme, count }
    }
}

// ---- mathematical shapes ----

/// The mathematical shape of a [`TemplateNode`].
pub enum TemplateShape {
    /// A fixed node.
    Fixed { label: Seq<char>, children: Seq<TemplateShape>, leaf_lexeme: Option<Seq<char>> },
    /// A hole with its index.
    Hole(u32),
}

/// The view of an optional string.
pub open spec fn opt_string_view(o: Option<String>) -> Option<Seq<char>> {
    match o {
        Some(s) => Some(s@),
        None => None,
    }
}

/// The shapes of a sequence of template nodes, in order.
pub open spec fn shapes_of(cs: Seq<TemplateNode>) -> Seq<TemplateShape>
    decreases cs,
{
    if cs.len() == 0 {
        Seq::empty()
    } else {
        shapes_of(cs.drop_last()).push(cs.last().shape())
    }
}

impl TemplateNode {
    /// The mathematical shape of this node.
    pub open spec fn shape(&self) -> TemplateShape
        decreases self,
    {
        match self {
            TemplateNode::Fixed { label, children, leaf_lexeme } => TemplateShape::Fixed {
                label: label@,
                children: shapes_of(children@),
                leaf_lexeme: opt_string_view(*leaf_lexeme),
            },
            TemplateNode::Hole(id) => TemplateShape::Hole(id.index),
        }
    }
}

/// The mathematical shape of a [`DistinctValue`]: fingerprint,
/// representative lexeme, count.
pub struct DistinctShape {
    pub fp: u64,
    pub lexeme: Seq<char>,
    pub count: u32,
}

/// The mathematical shape of a [`Divergence`].
pub struct DivergenceShape {
    pub distinct: u32,
    pub differing: u32,
    pub members: u32,
    pub values: Seq<DistinctShape>,
}

/// The mathematical shape of a [`Hole`]: per-member element sequences.
pub struct HoleShape {
    pub id: u32,
    pub kind: HoleKind,
    pub bindings: Seq<Seq<SubElement>>,
    pub divergence: DivergenceShape,
}

impl DistinctValue {
    /// The shape of this tally entry.
    pub open spec fn shape(&self) -> DistinctShape {
        DistinctShape { fp: self.fp, lexeme: self.lexeme@, count: self.count }
    }
}

impl Divergence {
    /// The shape of this divergence summary.
    pub open spec fn shape(&self) -> DivergenceShape {
        DivergenceShape {
            distinct: self.distinct,
            differing: self.differing,
            members: self.members,
            values: self.distinct_values@.map_values(|v: DistinctValue| v.shape()),
        }
    }
}

/// The per-member element sequences of a substitution list.
pub open spec fn bindings_of(subs: Seq<Substitution>) -> Seq<Seq<SubElement>> {
    subs.map_values(|s: Substitution| s.elements@)
}

impl Hole {
    /// The shape of this hole.
    pub open spec fn shape(&self) -> HoleShape {
        HoleShape {
            id: self.id.index,
            kind: self.kind,
            bindings: bindings_of(self.substitutions@),
            divergence: self.divergence.shape(),
        }
    }
}

/// The shapes of a hole table.
pub open spec fn hole_shapes(hs: Seq<Hole>) -> Seq<HoleShape> {
    hs.map_values(|h: Hole| h.shape())
}

} // verus!
