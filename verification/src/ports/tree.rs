//! The tree-derivation port: [`TreeDeriverPort`].
use vstd::prelude::*;

use super::NormalizeError;
use crate::domain::{NormalizedTree, Span};

verus! {

/// What a language adapter provides to derive the ordered tree of the
/// form at `span` in a source file's text.
pub trait TreeDeriverPort {
    /// Derive the tree of the form at `span` in `source`.
    fn derive_tree(&self, source: &str, span: Span) -> Result<NormalizedTree, NormalizeError>;
}

} // verus!
