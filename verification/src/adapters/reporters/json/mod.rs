//! The JSON envelope's metadata types.
pub mod envelope;

pub use envelope::{
    EnvelopeMeta, ScopeApplied, LANGUAGE_RUST, SCHEMA_VERSION, THRESHOLD_MODE_DEFAULT,
    TOOL_NAME_DRY4RS,
};
