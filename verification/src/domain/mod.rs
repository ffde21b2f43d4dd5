//! Core value types of the duplication detector.
pub mod config;
pub mod enums;
pub mod form;
pub mod renames;
pub mod identity;
pub mod scope;
pub mod span;
pub mod summary;
pub mod template;
pub mod tree;

pub use config::{OutputConfig, ScopeConfig, WalkConfig};
pub use enums::{FormKind, Severity, Tier};
pub use form::{FormRef, NormalizedForm, StructuralLocation};
pub use identity::{FilePath, Fingerprint};
pub use scope::ResolvedScope;
pub use span::{LineColumn, Span, SpanError};
pub use summary::Summary;
pub use template::{
    DistinctValue, Divergence, Hole, HoleId, HoleKind, SubElement, Substitution, Template,
    TemplateNode,
};
pub use tree::{LeafClass, LeafToken, NormalizedTree};
