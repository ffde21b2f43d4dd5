//! Which pairs of forms may be reported together: the resolved scope
//! policy over the crate and module axes.
use vstd::prelude::*;

use super::StructuralLocation;
use crate::text::{opt_string_eq, strings_eq};

verus! {

/// The scope policy, every axis resolved: whether pairs within one
/// crate, across crates, within one module and across modules may be
/// reported, and whether crate identity is known at all (when it is
/// not, the crate axes do not apply).
#[derive(Debug, Clone, Copy, PartialEq, Eq, Structural)]
pub struct ResolvedScope {
    /// Pairs within one crate may be reported.
    pub within_crate: bool,
    /// Pairs across crates may be reported.
    pub across_crate: bool,
    /// Pairs within one module may be reported.
    pub within_module: bool,
    /// Pairs across modules may be reported.
    pub across_module: bool,
    /// Crate identity is known; when false the crate axes do not apply.
    pub crate_aware: bool,
}

/// The crate axis lets the pair through: it does not apply, or the pair
/// is same-crate and same-crate pairs are allowed, or it is cross-crate
/// and cross-crate pairs are allowed.
pub open spec fn crate_axis_ok(
    s: ResolvedScope,
    a: (Option<Seq<char>>, Seq<Seq<char>>),
    b: (Option<Seq<char>>, Seq<Seq<char>>),
) -> bool {
    !s.crate_aware || (if a.0 == b.0 { s.within_crate } else { s.across_crate })
}

/// The module axis lets the pair through.
pub open spec fn module_axis_ok(
    s: ResolvedScope,
    a: (Option<Seq<char>>, Seq<Seq<char>>),
    b: (Option<Seq<char>>, Seq<Seq<char>>),
) -> bool {
    if a.1 == b.1 { s.within_module } else { s.across_module }
}

/// A pair of locations clears both axes.
pub open spec fn allows_spec(
    s: ResolvedScope,
    a: (Option<Seq<char>>, Seq<Seq<char>>),
    b: (Option<Seq<char>>, Seq<Seq<char>>),
) -> bool {
    crate_axis_ok(s, a, b) && module_axis_ok(s, a, b)
}

impl Default for ResolvedScope {
    fn default() -> (r: Self)
        ensures
            r == (ResolvedScope {
                within_crate: true,
                across_crate: true,
                within_module: true,
                across_module: true,
                crate_aware: true,
            }),
    {
        ResolvedScope {
            within_crate: true,
            across_crate: true,
            within_module: true,
            across_module: true,
            crate_aware: true,
        }
    }
}

impl ResolvedScope {
    /// Every axis allows (`crate_aware` is not an axis).
    pub fn permits_all(&self) -> (r: bool)
        ensures
            r == (self.within_crate && self.across_crate && self.within_module
                && self.across_module),
    {
        self.within_crate && self.across_crate && self.within_module && self.across_module
    }

    /// Whether the pair of locations `a`, `b` clears both the crate and
    /// the module axis.
    pub fn allows(&self, a: &StructuralLocation, b: &StructuralLocation) -> (r: bool)
        ensures
            r == allows_spec(*self, a.loc_view(), b.loc_view()),
    {
        self.crate_axis_allows(a, b) && self.module_axis_allows(a, b)
    }

    fn crate_axis_allows(self, a: &StructuralLocation, b: &StructuralLocation) -> (r: bool)
        ensures
            r == crate_axis_ok(self, a.loc_view(), b.loc_view()),
    {
        if !self.crate_aware {
            return true;
        }
        if opt_string_eq(&a.crate_id, &b.crate_id) {
            self.within_crate
        } else {
            self.across_crate
        }
    }

    fn module_axis_allows(self, a: &StructuralLocation, b: &StructuralLocation) -> (r: bool)
        ensures
            r == module_axis_ok(self, a.loc_view(), b.loc_view()),
    {
        if strings_eq(&a.module_segments, &b.module_segments) {
            self.within_module
        } else {
            self.across_module
        }
    }
}

/// The scope check does not depend on the order of the pair.
pub proof fn lemma_allows_symmetric(
    s: ResolvedScope,
    a: (Option<Seq<char>>, Seq<Seq<char>>),
    b: (Option<Seq<char>>, Seq<Seq<char>>),
)
    ensures
        allows_spec(s, a, b) == allows_spec(s, b, a),
{
}

/// A scope that permits every axis allows every pair, whatever its
/// crate awareness.
pub proof fn lemma_permits_all_allows(
    s: ResolvedScope,
    a: (Option<Seq<char>>, Seq<Seq<char>>),
    b: (Option<Seq<char>>, Seq<Seq<char>>),
)
    requires
        s.within_crate && s.across_crate && s.within_module && s.across_module,
    ensures
        allows_spec(s, a, b),
{
}

/// Without crate awareness only the module axis decides.
pub proof fn lemma_crate_unaware_module_only(
    s: ResolvedScope,
    a: (Option<Seq<char>>, Seq<Seq<char>>),
    b: (Option<Seq<char>>, Seq<Seq<char>>),
)
    requires
        !s.crate_aware,
    ensures
        allows_spec(s, a, b) == module_axis_ok(s, a, b),
{
}

/// The module axis compares whole module paths: with the crate axis
/// passed (crate-unaware, or the pair's crates equal and within-crate
/// pairs permitted, or different and across-crate pairs permitted), two
/// locations whose segment lists differ anywhere are allowed exactly when
/// across-module pairs are, and two with equal segment lists exactly when
/// within-module pairs are.
pub proof fn lemma_module_axis_whole_path(
    s: ResolvedScope,
    a: (Option<Seq<char>>, Seq<Seq<char>>),
    b: (Option<Seq<char>>, Seq<Seq<char>>),
)
    requires
        !s.crate_aware || (a.0 == b.0 && s.within_crate) || (a.0 != b.0 && s.across_crate),
    ensures
        a.1 != b.1 ==> allows_spec(s, a, b) == s.across_module,
        a.1 == b.1 ==> allows_spec(s, a, b) == s.within_module,
{
}

/// The whole decision for a crate-aware scope: a pair is allowed exactly
/// when its crate side (equal crate ids: within-crate; different:
/// across-crate) and its module side (equal whole segment lists:
/// within-module; different: across-module) are both permitted.
pub proof fn lemma_crate_aware_decision(
    s: ResolvedScope,
    a: (Option<Seq<char>>, Seq<Seq<char>>),
    b: (Option<Seq<char>>, Seq<Seq<char>>),
)
    requires
        s.crate_aware,
    ensures
        allows_spec(s, a, b) == ((if a.0 == b.0 { s.within_crate } else { s.across_crate }) && (
        if a.1 == b.1 { s.within_module } else { s.across_module })),
{
}

} // verus!
