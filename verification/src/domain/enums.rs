//! Small closed vocabularies of the detector: [`FormKind`], [`Tier`]
//! and [`Severity`], with their stable wire labels.
use vstd::prelude::*;

verus! {

/// The kind of a normalized form.
#[derive(Debug, Clone, Copy, PartialEq, Eq, Structural, PartialOrd, Ord, Hash)]
#[non_exhaustive]
pub enum FormKind {
    /// Ordinary production code.
    Production,
    /// Test-harness forms.
    Test,
    /// Documentation-test forms.
    Doctest,
}

/// The stable label of a form kind.
pub open spec fn form_kind_label(k: FormKind) -> Seq<char> {
    match k {
        FormKind::Production => "production"@,
        FormKind::Test => "test"@,
        FormKind::Doctest => "doctest"@,
    }
}

impl FormKind {
    /// The stable label of this kind: `production`, `test` or
    /// `doctest`.
    pub fn as_str(self) -> (r: &'static str)
        ensures
            r@ == form_kind_label(self),
    {
        match self {
            FormKind::Production => "production",
            FormKind::Test => "test",
            FormKind::Doctest => "doctest",
        }
    }
}

/// Routing tier of a match, from most to least confident; the declared
/// order is the order of the derived `<`.
#[derive(Debug, Clone, Copy, PartialEq, Eq, Structural, PartialOrd, Ord, Hash)]
#[non_exhaustive]
pub enum Tier {
    /// Safe to refactor.
    AutoRefactor,
    /// Propose a refactor; a human confirms.
    ReviewFirst,
    /// Surface as information.
    Advisory,
}

/// The stable label of a tier.
pub open spec fn tier_label_spec(t: Tier) -> Seq<char> {
    match t {
        Tier::AutoRefactor => "auto_refactor"@,
        Tier::ReviewFirst => "review_first"@,
        Tier::Advisory => "advisory"@,
    }
}

impl Tier {
    /// The stable label of this tier: `auto_refactor`, `review_first`
    /// or `advisory`.
    pub fn as_str(self) -> (r: &'static str)
        ensures
            r@ == tier_label_spec(self),
    {
        match self {
            Tier::AutoRefactor => "auto_refactor",
            Tier::ReviewFirst => "review_first",
            Tier::Advisory => "advisory",
        }
    }
}

/// Display severity, from highest to lowest visual weight.
#[derive(Debug, Clone, Copy, PartialEq, Eq, Structural, PartialOrd, Ord, Hash)]
#[non_exhaustive]
pub enum Severity {
    /// Highest visual weight.
    High,
    /// Mid weight.
    Medium,
    /// Lowest visual weight.
    Low,
}

} // verus!
