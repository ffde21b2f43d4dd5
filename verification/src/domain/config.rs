//! Non-numeric sections of the configuration file: [`OutputConfig`],
//! [`WalkConfig`], [`ScopeConfig`]; every knob is optional, `None`
//! meaning "not set here".
use vstd::prelude::*;

use crate::cli::Format;
use super::ResolvedScope;
use crate::text::{clone_opt_string, clone_strings};

verus! {

/// The first of two optional values that is set.
pub open spec fn first_set<T>(primary: Option<T>, fallback: Option<T>) -> Option<T> {
    match primary {
        Some(v) => Some(v),
        None => fallback,
    }
}

/// The `[output]` section: report format and scorecard labels.
#[derive(Debug, PartialEq, Eq)]
pub struct OutputConfig {
    /// Report format.
    pub format: Option<Format>,
    /// Scorecard title.
    pub title: Option<String>,
    /// Scorecard subtitle.
    pub subtitle: Option<String>,
}

impl OutputConfig {
    /// Whether no knob is set.
    pub fn is_default(&self) -> (r: bool)
        ensures
            r == (self.format is None && self.title is None && self.subtitle is None),
    {
        self.format.is_none() && self.title.is_none() && self.subtitle.is_none()
    }

    /// This section over a fallback: each knob set here wins, the others
    /// come from `fallback`.
    pub fn or(self, fallback: OutputConfig) -> (r: OutputConfig)
        ensures
            r.format == first_set(self.format, fallback.format),
            r.title == first_set(self.title, fallback.title),
            r.subtitle == first_set(self.subtitle, fallback.subtitle),
    {
        OutputConfig {
            format: match self.format {
                Some(f) => Some(f),
                None => fallback.format,
            },
            title: match self.title {
                Some(t) => Some(t),
                None => fallback.title,
            },
            subtitle: match self.subtitle {
                Some(t) => Some(t),
                None => fallback.subtitle,
            },
        }
    }
}

impl Default for OutputConfig {
    fn default() -> (r: Self)
        ensures
            r.format is None && r.title is None && r.subtitle is None,
    {
        OutputConfig { format: None, title: None, subtitle: None }
    }
}

impl Clone for OutputConfig {
    fn clone(&self) -> (r: Self)
        ensures
            r == *self,
    {
        OutputConfig {
            format: self.format,
            title: clone_opt_string(&self.title),
            subtitle: clone_opt_string(&self.subtitle),
        }
    }
}

/// The `[walk]` section: whether ignore files are bypassed, and the
/// extension allowlist (`Some` of an empty list is not the same as
/// unset).
#[derive(Debug, PartialEq, Eq)]
pub struct WalkConfig {
    /// Bypass ignore files.
    pub include_ignored: Option<bool>,
    /// Extension allowlist.
    pub extensions: Option<Vec<String>>,
}

impl WalkConfig {
    /// Whether no knob is set.
    pub fn is_default(&self) -> (r: bool)
        ensures
            r == (self.include_ignored is None && self.extensions is None),
    {
        self.include_ignored.is_none() && self.extensions.is_none()
    }

    /// This section over a fallback: each knob set here wins.
    pub fn or(self, fallback: WalkConfig) -> (r: WalkConfig)
        ensures
            r.include_ignored == first_set(self.include_ignored, fallback.include_ignored),
            r.extensions == first_set(self.extensions, fallback.extensions),
    {
        WalkConfig {
            include_ignored: match self.include_ignored {
                Some(b) => Some(b),
                None => fallback.include_ignored,
            },
            extensions: match self.extensions {
                Some(e) => Some(e),
                None => fallback.extensions,
            },
        }
    }
}

impl Default for WalkConfig {
    fn default() -> (r: Self)
        ensures
            r.include_ignored is None && r.extensions is None,
    {
        WalkConfig { include_ignored: None, extensions: None }
    }
}

impl Clone for WalkConfig {
    fn clone(&self) -> (r: Self)
        ensures
            r.include_ignored == self.include_ignored,
            r.extensions is Some <==> self.extensions is Some,
            r.extensions is Some ==> r.extensions->0@ == self.extensions->0@,
    {
        WalkConfig {
            include_ignored: self.include_ignored,
            extensions: match &self.extensions {
                Some(e) => Some(clone_strings(e)),
                None => None,
            },
        }
    }
}

/// The `[scope]` section: the four scope axes, each optional.
#[derive(Debug, Clone, Copy, PartialEq, Eq, Structural)]
pub struct ScopeConfig {
    /// Pairs within one crate may be reported.
    pub within_crate: Option<bool>,
    /// Pairs across crates may be reported.
    pub across_crate: Option<bool>,
    /// Pairs within one module may be reported.
    pub within_module: Option<bool>,
    /// Pairs across modules may be reported.
    pub across_module: Option<bool>,
}

/// An unset axis allows.
pub open spec fn or_true(o: Option<bool>) -> bool {
    match o {
        Some(b) => b,
        None => true,
    }
}

impl ScopeConfig {
    /// Whether no axis is set.
    pub fn is_default(&self) -> (r: bool)
        ensures
            r == (self.within_crate is None && self.across_crate is None && self.within_module
                is None && self.across_module is None),
    {
        self.within_crate.is_none() && self.across_crate.is_none() && self.within_module.is_none()
            && self.across_module.is_none()
    }

    /// This section over a fallback: each axis set here wins.
    pub fn or(self, fallback: ScopeConfig) -> (r: ScopeConfig)
        ensures
            r.within_crate == first_set(self.within_crate, fallback.within_crate),
            r.across_crate == first_set(self.across_crate, fallback.across_crate),
            r.within_module == first_set(self.within_module, fallback.within_module),
            r.across_module == first_set(self.across_module, fallback.across_module),
    {
        ScopeConfig {
            within_crate: match self.within_crate {
                Some(b) => Some(b),
                None => fallback.within_crate,
            },
            across_crate: match self.across_crate {
                Some(b) => Some(b),
                None => fallback.across_crate,
            },
            within_module: match self.within_module {
                Some(b) => Some(b),
                None => fallback.within_module,
            },
            across_module: match self.across_module {
                Some(b) => Some(b),
                None => fallback.across_module,
            },
        }
    }

    /// The resolved policy: every unset axis allows; `crate_aware` as
    /// given.
    pub fn resolved(&self, crate_aware: bool) -> (r: ResolvedScope)
        ensures
            r.within_crate == or_true(self.within_crate),
            r.across_crate == or_true(self.across_crate),
            r.within_module == or_true(self.within_module),
            r.across_module == or_true(self.across_module),
            r.crate_aware == crate_aware,
    {
        ResolvedScope {
            within_crate: match self.within_crate {
                Some(b) => b,
                None => true,
            },
            across_crate: match self.across_crate {
                Some(b) => b,
                None => true,
            },
            within_module: match self.within_module {
                Some(b) => b,
                None => true,
            },
            across_module: match self.across_module {
                Some(b) => b,
                None => true,
            },
            crate_aware,
        }
    }
}

impl Default for ScopeConfig {
    fn default() -> (r: Self)
        ensures
            r.within_crate is None && r.across_crate is None && r.within_module is None
                && r.across_module is None,
    {
        ScopeConfig { within_crate: None, across_crate: None, within_module: None, across_module: None }
    }
}

} // verus!
