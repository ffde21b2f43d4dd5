//! Envelope metadata: [`EnvelopeMeta`] (identity fields supplied by the
//! caller) and [`ScopeApplied`] (the scope policy a run applied).
use vstd::prelude::*;

use crate::domain::ResolvedScope;

verus! {

/// Version of the envelope's wire shape.
pub const SCHEMA_VERSION: u32 = 1;

/// The Rust adapter's tool name.
pub const TOOL_NAME_DRY4RS: &'static str = "dry4rs";

/// The Rust adapter's language label.
pub const LANGUAGE_RUST: &'static str = "rust";

/// The default threshold mode's wire label.
pub const THRESHOLD_MODE_DEFAULT: &'static str = "default";

/// The identity fields of an envelope: tool, version, language,
/// timestamp and threshold mode, all as supplied by the caller.
#[derive(Debug, Clone, PartialEq, Eq)]
pub struct EnvelopeMeta {
    /// Tool name.
    pub tool: String,
    /// Tool version.
    pub tool_version: String,
    /// Language label.
    pub language: String,
    /// ISO-8601 UTC timestamp.
    pub timestamp: String,
    /// Threshold mode label.
    pub threshold_mode: String,
}

impl EnvelopeMeta {
    /// Metadata from its parts.
    pub fn new(
        tool: String,
        tool_version: String,
        language: String,
        timestamp: String,
        threshold_mode: String,
    ) -> (r: Self)
        ensures
            r.tool == tool,
            r.tool_version == tool_version,
            r.language == language,
            r.timestamp == timestamp,
            r.threshold_mode == threshold_mode,
    {
        EnvelopeMeta { tool, tool_version, language, timestamp, threshold_mode }
    }
}

/// The scope policy a run applied, as reported in the envelope.
#[derive(Debug, Clone, Copy, PartialEq, Eq, Structural)]
pub struct ScopeApplied {
    /// Pairs within one crate were allowed.
    pub within_crate: bool,
    /// Pairs across crates were allowed.
    pub across_crate: bool,
    /// Pairs within one module were allowed.
    pub within_module: bool,
    /// Pairs across modules were allowed.
    pub across_module: bool,
    /// Crate identity was known.
    pub crate_aware: bool,
}

impl ScopeApplied {
    /// The applied form of a resolved scope: every field copied.
    pub fn from_resolved(s: ResolvedScope) -> (r: Self)
        ensures
            r.within_crate == s.within_crate,
            r.across_crate == s.across_crate,
            r.within_module == s.within_module,
            r.across_module == s.across_module,
            r.crate_aware == s.crate_aware,
    {
        ScopeApplied {
            within_crate: s.within_crate,
            across_crate: s.across_crate,
            within_module: s.within_module,
            across_module: s.across_module,
            crate_aware: s.crate_aware,
        }
    }
}

} // verus!
