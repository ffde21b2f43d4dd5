//! Per-adapter static metadata: [`AdapterMeta`].
use vstd::prelude::*;

verus! {

/// The static description a language adapter hands the shared CLI:
/// names, versions, help text, configuration file name, source
/// extensions, documentation links and path excludes.
#[derive(Debug, Clone, Copy)]
pub struct AdapterMeta {
    /// Binary name.
    pub tool_name: &'static str,
    /// Human-readable language label.
    pub display_name: &'static str,
    /// Version string.
    pub tool_version: &'static str,
    /// Long version string.
    pub long_version: &'static str,
    /// One-line description.
    pub about: &'static str,
    /// Long description.
    pub long_about: &'static str,
    /// Text after the help (may be empty).
    pub after_help: &'static str,
    /// Configuration file name.
    pub config_file_name: &'static str,
    /// Source extensions, without the dot.
    pub extensions: &'static [&'static str],
    /// Tool information link.
    pub tool_info_uri: &'static str,
    /// Rule help link.
    pub rule_help_uri: &'static str,
    /// Default path excludes (may be empty).
    pub default_excludes: &'static [&'static str],
    /// Forced path excludes (may be empty).
    pub forced_excludes: &'static [&'static str],
}

/// The message for the first required field of `m` that is empty, in
/// declaration order; `None` when every required field is set.
pub open spec fn first_missing(m: AdapterMeta) -> Option<Seq<char>> {
    if m.tool_name@.len() == 0 {
        Some("AdapterMeta::tool_name must be non-empty"@)
    } else if m.display_name@.len() == 0 {
        Some("AdapterMeta::display_name must be non-empty"@)
    } else if m.tool_version@.len() == 0 {
        Some("AdapterMeta::tool_version must be non-empty"@)
    } else if m.long_version@.len() == 0 {
        Some("AdapterMeta::long_version must be non-empty"@)
    } else if m.about@.len() == 0 {
        Some("AdapterMeta::about must be non-empty"@)
    } else if m.long_about@.len() == 0 {
        Some("AdapterMeta::long_about must be non-empty"@)
    } else if m.config_file_name@.len() == 0 {
        Some("AdapterMeta::config_file_name must be non-empty"@)
    } else if m.extensions@.len() == 0 {
        Some("AdapterMeta::extensions must contain at least one entry"@)
    } else if m.tool_info_uri@.len() == 0 {
        Some("AdapterMeta::tool_info_uri must be non-empty"@)
    } else if m.rule_help_uri@.len() == 0 {
        Some("AdapterMeta::rule_help_uri must be non-empty"@)
    } else {
        None
    }
}

/// The character sequences of a list of string slices.
pub open spec fn strs_view(v: Seq<&str>) -> Seq<Seq<char>> {
    v.map_values(|s: &str| s@)
}

impl AdapterMeta {
    /// Every required field is set: all but `after_help`,
    /// `default_excludes` and `forced_excludes`.
    pub open spec fn well_formed(&self) -> bool {
        first_missing(*self) is None
    }

    /// The complaint about the first required field that is empty, in
    /// declaration order, or `None` when the metadata is well formed.
    pub fn missing_field(&self) -> (r: Option<&'static str>)
        ensures
            match r {
                Some(msg) => first_missing(*self) == Some(msg@),
                None => first_missing(*self) is None,
            },
    {
        if self.tool_name.is_empty() {
            Some("AdapterMeta::tool_name must be non-empty")
        } else if self.display_name.is_empty() {
            Some("AdapterMeta::display_name must be non-empty")
        } else if self.tool_version.is_empty() {
            Some("AdapterMeta::tool_version must be non-empty")
        } else if self.long_version.is_empty() {
            Some("AdapterMeta::long_version must be non-empty")
        } else if self.about.is_empty() {
            Some("AdapterMeta::about must be non-empty")
        } else if self.long_about.is_empty() {
            Some("AdapterMeta::long_about must be non-empty")
        } else if self.config_file_name.is_empty() {
            Some("AdapterMeta::config_file_name must be non-empty")
        } else if self.extensions.len() == 0 {
            Some("AdapterMeta::extensions must contain at least one entry")
        } else if self.tool_info_uri.is_empty() {
            Some("AdapterMeta::tool_info_uri must be non-empty")
        } else if self.rule_help_uri.is_empty() {
            Some("AdapterMeta::rule_help_uri must be non-empty")
        } else {
            None
        }
    }

    /// Accept well-formed metadata. Metadata with an empty required
    /// field is the program's own configuration error, on which the
    /// program panics: callers check [`missing_field`](Self::missing_field)
    /// first and panic with its message, so this call only ever sees
    /// metadata whose required fields are all set.
    pub fn validate_or_panic(&self)
        requires
            self.well_formed(),
    {
        let missing = self.missing_field();
        assert(missing is None);
    }

    /// The extensions as owned strings, in order.
    pub fn extensions_owned(&self) -> (r: Vec<String>)
        ensures
            r@.map_values(|s: String| s@) == strs_view(self.extensions@),
    {
        let mut out: Vec<String> = Vec::new();
        let mut i: usize = 0;
        while i < self.extensions.len()
            invariant
                i <= self.extensions@.len(),
                out@.map_values(|s: String| s@) == strs_view(self.extensions@).take(i as int),
            decreases self.extensions@.len() - i,
        {
            let s = self.extensions[i].to_owned();
            let ghost prev = out@;
            out.push(s);
            assert(out@.map_values(|s: String| s@) =~= prev.map_values(|s: String| s@).push(s@));
            assert(strs_view(self.extensions@).take(i + 1) =~= strs_view(self.extensions@).take(
                i as int,
            ).push(self.extensions@[i as int]@));
            i = i + 1;
        }
        assert(strs_view(self.extensions@).take(self.extensions@.len() as int) =~= strs_view(
            self.extensions@,
        ));
        out
    }
}

} // verus!
