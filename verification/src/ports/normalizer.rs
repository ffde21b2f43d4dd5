//! The normalization port: [`NormalizerPort`], its error
//! [`NormalizeError`] and the [`PlaceholderPolicy`] it reports.
use vstd::prelude::*;

use crate::domain::{FilePath, NormalizedForm, Span};

verus! {

/// What a language adapter provides to turn one source file into forms.
pub trait NormalizerPort {
    /// The file extensions the adapter handles, without the dot.
    fn extensions(&self) -> &'static [&'static str];

    /// Normalize one source file's text into its forms.
    fn normalize(&self, source: &str, path: &FilePath) -> Result<Vec<NormalizedForm>, NormalizeError>;

    /// The placeholder policy the adapter normalizes under.
    fn placeholder_policy(&self) -> PlaceholderPolicy;
}

/// Why a source file could not be normalized.
#[derive(Debug, PartialEq, Eq)]
#[non_exhaustive]
pub enum NormalizeError {
    /// The source did not parse.
    Parse {
        /// The parser's message.
        message: String,
        /// Where, when known.
        span: Option<Span>,
    },
    /// The source uses a construct the adapter does not handle.
    Unsupported {
        /// The construct's name.
        construct: String,
        /// Where, when known.
        span: Option<Span>,
    },
}

impl NormalizeError {
    /// The error's message: `normalize error: {message}` or
    /// `unsupported construct: {construct}` (the span is not rendered).
    pub fn to_string(&self) -> (r: String)
        ensures
            r@ == match self {
                NormalizeError::Parse { message, .. } => "normalize error: "@ + message@,
                NormalizeError::Unsupported { construct, .. } => "unsupported construct: "@
                    + construct@,
            },
    {
        match self {
            NormalizeError::Parse { message, .. } => {
                let mut out = "normalize error: ".to_owned();
                out.append(message.as_str());
                out
            },
            NormalizeError::Unsupported { construct, .. } => {
                let mut out = "unsupported construct: ".to_owned();
                out.append(construct.as_str());
                out
            },
        }
    }

    /// The underlying error: none, for either variant (the span is
    /// position data, not a cause).
    pub fn source(&self) -> (r: Option<&NormalizeError>)
        ensures
            r is None,
    {
        None
    }
}

/// The placeholder policy adapters normalize under; opaque at this
/// version, with a single value.
#[derive(Debug, PartialEq, Eq)]
pub struct PlaceholderPolicy {
    _private: (),
}

/// The single policy of this version.
pub closed spec fn policy_v0_1() -> PlaceholderPolicy {
    PlaceholderPolicy { _private: () }
}

impl PlaceholderPolicy {
    /// The policy of this version.
    pub fn v0_1_default() -> (r: Self)
        ensures
            r == policy_v0_1(),
    {
        PlaceholderPolicy { _private: () }
    }
}

impl Clone for PlaceholderPolicy {
    fn clone(&self) -> (r: Self)
        ensures
            r == *self,
    {
        PlaceholderPolicy { _private: () }
    }
}

impl Default for PlaceholderPolicy {
    fn default() -> (r: Self)
        ensures
            r == policy_v0_1(),
    {
        PlaceholderPolicy::v0_1_default()
    }
}

} // verus!
