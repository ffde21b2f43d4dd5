//! Normalized forms and references to them: [`StructuralLocation`],
//! [`NormalizedForm`], [`FormRef`].
use vstd::prelude::*;

use std::collections::HashSet;

use super::{FilePath, FormKind, Span};
use crate::text::{clone_opt_string, clone_strings, opt_string_view, strings_view};

verus! {

/// Where a form lives structurally: its crate (`None` when unknown) and
/// its module path from the crate root.
#[derive(Debug, PartialEq, Eq)]
pub struct StructuralLocation {
    /// The crate the form belongs to, when known.
    pub crate_id: Option<String>,
    /// Module path segments from the crate root.
    pub module_segments: Vec<String>,
}

impl StructuralLocation {
    /// The location as values: crate id text and module path segments.
    pub open spec fn loc_view(&self) -> (Option<Seq<char>>, Seq<Seq<char>>) {
        (opt_string_view(self.crate_id), strings_view(self.module_segments@))
    }

    /// Whether this is the unknown location: no crate and an empty
    /// module path.
    pub fn is_default(&self) -> (r: bool)
        ensures
            r == (self.crate_id is None && self.module_segments@.len() == 0),
    {
        self.crate_id.is_none() && self.module_segments.len() == 0
    }
}

impl Default for StructuralLocation {
    fn default() -> (r: Self)
        ensures
            r.crate_id is None,
            r.module_segments@.len() == 0,
    {
        StructuralLocation { crate_id: None, module_segments: Vec::new() }
    }
}

impl Clone for StructuralLocation {
    fn clone(&self) -> (r: Self)
        ensures
            r.crate_id == self.crate_id,
            r.module_segments@ == self.module_segments@,
    {
        StructuralLocation {
            crate_id: clone_opt_string(&self.crate_id),
            module_segments: clone_strings(&self.module_segments),
        }
    }
}

/// One normalized form: its kind, its set of subtree fingerprints, the
/// identifiers and qualified name it carries, its span, its sizes and
/// its structural location.
#[derive(Debug, PartialEq, Eq)]
pub struct NormalizedForm {
    /// What kind of form this is.
    pub kind: FormKind,
    /// The fingerprints of the form's subtrees.
    pub fingerprint_set: HashSet<u64>,
    /// Identifiers in emission order, duplicates kept.
    pub identifier_set: Vec<String>,
    /// Qualified-name path components, not joined.
    pub qualified_name: Vec<String>,
    /// Where the form sits in its file.
    pub span: Span,
    /// Number of tree nodes.
    pub node_count: u32,
    /// Number of source lines.
    pub line_count: u32,
    /// Structural location (crate and module path).
    pub location: StructuralLocation,
}

impl NormalizedForm {
    /// A form with no identifiers, no qualified name and the unknown
    /// location.
    pub fn new(
        kind: FormKind,
        fingerprint_set: HashSet<u64>,
        span: Span,
        node_count: u32,
        line_count: u32,
    ) -> (r: Self)
        ensures
            r.kind == kind,
            r.fingerprint_set == fingerprint_set,
            r.identifier_set@.len() == 0,
            r.qualified_name@.len() == 0,
            r.span == span,
            r.node_count == node_count,
            r.line_count == line_count,
            r.location.crate_id is None,
            r.location.module_segments@.len() == 0,
    {
        NormalizedForm {
            kind,
            fingerprint_set,
            identifier_set: Vec::new(),
            qualified_name: Vec::new(),
            span,
            node_count,
            line_count,
            location: StructuralLocation::default(),
        }
    }

    /// A form with its identifiers and qualified name, at the unknown
    /// location.
    pub fn with_context(
        kind: FormKind,
        fingerprint_set: HashSet<u64>,
        identifier_set: Vec<String>,
        qualified_name: Vec<String>,
        span: Span,
        node_count: u32,
        line_count: u32,
    ) -> (r: Self)
        ensures
            r.kind == kind,
            r.fingerprint_set == fingerprint_set,
            r.identifier_set == identifier_set,
            r.qualified_name == qualified_name,
            r.span == span,
            r.node_count == node_count,
            r.line_count == line_count,
            r.location.crate_id is None,
            r.location.module_segments@.len() == 0,
    {
        NormalizedForm {
            kind,
            fingerprint_set,
            identifier_set,
            qualified_name,
            span,
            node_count,
            line_count,
            location: StructuralLocation::default(),
        }
    }

    /// The same form at `location`; every other field is unchanged.
    pub fn with_location(self, location: StructuralLocation) -> (r: Self)
        ensures
            r.location == location,
            r.kind == self.kind,
            r.fingerprint_set == self.fingerprint_set,
            r.identifier_set == self.identifier_set,
            r.qualified_name == self.qualified_name,
            r.span == self.span,
            r.node_count == self.node_count,
            r.line_count == self.line_count,
    {
        let mut f = self;
        f.location = location;
        f
    }
}

/// A copy of a fingerprint set (`HashSet::clone`): a set with the same
/// elements.
#[verifier::external_body]
fn clone_fingerprints(s: &HashSet<u64>) -> (r: HashSet<u64>)
    ensures
        r@ == s@,
{
    s.clone()
}

impl Clone for NormalizedForm {
    fn clone(&self) -> (r: Self)
        ensures
            r.kind == self.kind,
            r.fingerprint_set@ == self.fingerprint_set@,
            r.identifier_set@ == self.identifier_set@,
            r.qualified_name@ == self.qualified_name@,
            r.span == self.span,
            r.node_count == self.node_count,
            r.line_count == self.line_count,
            r.location.crate_id == self.location.crate_id,
            r.location.module_segments@ == self.location.module_segments@,
    {
        NormalizedForm {
            kind: self.kind,
            fingerprint_set: clone_fingerprints(&self.fingerprint_set),
            identifier_set: clone_strings(&self.identifier_set),
            qualified_name: clone_strings(&self.qualified_name),
            span: self.span,
            node_count: self.node_count,
            line_count: self.line_count,
            location: self.location.clone(),
        }
    }
}

/// A reference to one form of a match: its file, span and kind.
#[derive(Debug, PartialEq, Eq)]
pub struct FormRef {
    /// The file the form lives in.
    pub file: FilePath,
    /// The form's span in that file.
    pub span: Span,
    /// The form's kind.
    pub kind: FormKind,
}

impl FormRef {
    /// A reference from its parts.
    pub fn new(file: FilePath, span: Span, kind: FormKind) -> (r: Self)
        ensures
            r.file == file,
            r.span == span,
            r.kind == kind,
    {
        FormRef { file, span, kind }
    }
}

impl Clone for FormRef {
    fn clone(&self) -> (r: Self)
        ensures
            r.file@ == self.file@,
            r.span == self.span,
            r.kind == self.kind,
    {
        FormRef { file: self.file.clone(), span: self.span, kind: self.kind }
    }
}

} // verus!
