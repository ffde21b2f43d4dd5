//! The ports a language adapter implements: normalization of a source
//! file into forms, and derivation of a form's ordered tree.
pub mod normalizer;
pub mod tree;

pub use normalizer::{NormalizeError, NormalizerPort, PlaceholderPolicy};
pub use tree::TreeDeriverPort;
