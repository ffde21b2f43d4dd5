//! Language-agnostic ordered tree IR — [`NormalizedTree`],
//! [`LeafToken`], [`LeafClass`] — the input of anti-unification.
use vstd::prelude::*;

use super::Span;

verus! {

/// Classification of a leaf token in a [`NormalizedTree`].
#[derive(Debug, Clone, Copy, PartialEq, Eq, Structural, PartialOrd, Ord, Hash)]
#[non_exhaustive]
pub enum LeafClass {
    /// An identifier token.
    Ident,
    /// A literal token.
    Literal,
    /// A language keyword.
    Keyword,
    /// A punctuation or operator token.
    Punct,
    /// A lifetime token.
    Lifetime,
}

/// The stable lower-case label of a leaf class.
pub open spec fn leaf_class_label(c: LeafClass) -> Seq<char> {
    match c {
        LeafClass::Ident => "ident"@,
        LeafClass::Literal => "literal"@,
        LeafClass::Keyword => "keyword"@,
        LeafClass::Punct => "punct"@,
        LeafClass::Lifetime => "lifetime"@,
    }
}

impl LeafClass {
    /// The stable lower-case label of this class (`"ident"`,
    /// `"literal"`, `"keyword"`, `"punct"`, `"lifetime"`).
    pub fn as_str(self) -> (r: &'static str)
        ensures
            r@ == leaf_class_label(self),
    {
        match self {
            LeafClass::Ident => "ident",
            LeafClass::Literal => "literal",
            LeafClass::Keyword => "keyword",
            LeafClass::Punct => "punct",
            LeafClass::Lifetime => "lifetime",
        }
    }
}

/// A leaf token carried by a leaf [`NormalizedTree`] node.
#[derive(Debug, PartialEq, Eq, Hash)]
pub struct LeafToken {
    /// Token classification.
    pub class: LeafClass,
    /// Surface text of the token, as written in the source.
    pub lexeme: String,
}

impl LeafToken {
    /// Construct a [`LeafToken`] from its class and lexeme.
    pub fn new(class: LeafClass, lexeme: String) -> (r: Self)
        ensures
            r.class == class,
            r.lexeme == lexeme,
    {
        Self { class, lexeme }
    }
}

impl Clone for LeafToken {
    fn clone(&self) -> (r: Self)
        ensures
            r == *self,
    {
        LeafToken { class: self.class, lexeme: self.lexeme.clone() }
    }
}

/// Language-agnostic ordered tree node: an internal node (`leaf ==
/// None`) with ordered `children`, or a leaf node (`leaf == Some(_)`)
/// with no children.
#[derive(Debug, PartialEq, Eq, Hash)]
pub struct NormalizedTree {
    /// Adapter node-discriminator string.
    pub label: String,
    /// Fold fingerprint of this subtree.
    pub fp: u64,
    /// Ordered child subtrees; empty for leaves.
    pub children: Vec<NormalizedTree>,
    /// `Some` for leaf nodes, `None` for internal nodes.
    pub leaf: Option<LeafToken>,
    /// Source range of the subtree, end-inclusive.
    pub span: Span,
}

/// The mathematical value of a [`NormalizedTree`]: every field, with
/// strings as character sequences and children as a sequence of values.
pub enum TreeView {
    /// A node with its label, fingerprint, children, leaf token (class
    /// and lexeme) and span.
    Node {
        label: Seq<char>,
        fp: u64,
        children: Seq<TreeView>,
        leaf: Option<(LeafClass, Seq<char>)>,
        span: Span,
    },
}

/// The view of an optional leaf token.
pub open spec fn leaf_view(l: Option<LeafToken>) -> Option<(LeafClass, Seq<char>)> {
    match l {
        Some(t) => Some((t.class, t.lexeme@)),
        None => None,
    }
}

/// The views of a sequence of trees, in order.
pub open spec fn tree_views(cs: Seq<NormalizedTree>) -> Seq<TreeView>
    decreases cs,
{
    if cs.len() == 0 {
        Seq::empty()
    } else {
        tree_views(cs.drop_last()).push(cs.last().tree_view())
    }
}

impl NormalizedTree {
    /// The mathematical value of this tree.
    pub open spec fn tree_view(&self) -> TreeView
        decreases self,
    {
        TreeView::Node {
            label: self.label@,
            fp: self.fp,
            children: tree_views(self.children@),
            leaf: leaf_view(self.leaf),
            span: self.span,
        }
    }

    /// Construct an internal node (`leaf == None`).
    pub fn new(label: String, fp: u64, children: Vec<NormalizedTree>, span: Span) -> (r: Self)
        ensures
            r.label == label,
            r.fp == fp,
            r.children == children,
            r.leaf == None::<LeafToken>,
            r.span == span,
    {
        Self { label, fp, children, leaf: None, span }
    }

    /// Construct a leaf node: no children, `leaf == Some(leaf)`.
    pub fn leaf(label: String, fp: u64, leaf: LeafToken, span: Span) -> (r: Self)
        ensures
            r.label == label,
            r.fp == fp,
            r.children@ == Seq::<NormalizedTree>::empty(),
            r.leaf == Some(leaf),
            r.span == span,
    {
        Self { label, fp, children: Vec::new(), leaf: Some(leaf), span }
    }

    /// Whether this node is a leaf (carries a [`LeafToken`]).
    pub fn is_leaf(&self) -> (r: bool)
        ensures
            r == self.leaf.is_some(),
    {
        self.leaf.is_some()
    }
}

impl Clone for NormalizedTree {
    #[verifier::loop_isolation(false)]
    fn clone(&self) -> (r: Self)
        ensures
            r.tree_view() == self.tree_view(),
            r.label == self.label,
            r.fp == self.fp,
            r.leaf == self.leaf,
            r.span == self.span,
        decreases self,
    {
        let mut kids: Vec<NormalizedTree> = Vec::new();
        let mut i: usize = 0;
        while i < self.children.len()
            invariant
                i <= self.children@.len(),
                tree_views(kids@) == tree_views(self.children@.take(i as int)),
            decreases self.children@.len() - i,
        {
            proof {
                assert(decreases_to!(self => self.children@[i as int]));
            }
            let c = self.children[i].clone();
            let ghost prev = kids@;
            kids.push(c);
            proof {
                assert(kids@.drop_last() =~= prev);
                assert(self.children@.take(i + 1).drop_last() =~= self.children@.take(i as int));
            }
            i = i + 1;
        }
        assert(self.children@.take(self.children@.len() as int) =~= self.children@);
        let leaf = match &self.leaf {
            Some(t) => Some(t.clone()),
            None => None,
        };
        NormalizedTree {
            label: self.label.clone(),
            fp: self.fp,
            children: kids,
            leaf,
            span: self.span,
        }
    }
}

} // verus!
