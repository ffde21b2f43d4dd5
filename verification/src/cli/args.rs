//! Command-line vocabulary: [`Format`], [`ThresholdMode`], [`Command`].
use vstd::prelude::*;

use std::path::PathBuf;

verus! {

/// Output format of a report.
#[derive(Debug, Clone, Copy, PartialEq, Eq, Structural)]
#[non_exhaustive]
pub enum Format {
    /// Plain text.
    Text,
    /// JSON envelope.
    Json,
    /// Markdown.
    Markdown,
}

/// How the threshold is applied.
#[derive(Debug, Clone, Copy, PartialEq, Eq, Structural)]
#[non_exhaustive]
pub enum ThresholdMode {
    /// Strict.
    Strict,
    /// Default.
    Default,
    /// Lenient.
    Lenient,
}

/// A subcommand.
#[derive(Debug, PartialEq, Eq)]
#[non_exhaustive]
pub enum Command {
    /// Full report over the given paths.
    Report {
        /// Analysis roots.
        paths: Vec<PathBuf>,
    },
    /// Statistics over the given paths.
    Stats {
        /// Analysis roots.
        paths: Vec<PathBuf>,
    },
    /// Gate check over the given paths.
    Check {
        /// Analysis roots.
        paths: Vec<PathBuf>,
    },
    /// Ignore one fingerprint.
    Ignore {
        /// The fingerprint to ignore.
        fingerprint: String,
    },
    /// List ignored fingerprints.
    Ignored,
    /// Drop stale ignore entries.
    Cleanup,
    /// Write a starter configuration.
    Init {
        /// Overwrite an existing file.
        force: bool,
    },
}

impl Command {
    /// Whether this is an analysis subcommand (`report`, `stats`,
    /// `check`).
    pub open spec fn spec_is_analysis(&self) -> bool {
        self is Report || self is Stats || self is Check
    }

    /// The analysis roots of an analysis subcommand; empty otherwise.
    pub fn paths(&self) -> (r: &[PathBuf])
        ensures
            r@ == match self {
                Command::Report { paths } => paths@,
                Command::Stats { paths } => paths@,
                Command::Check { paths } => paths@,
                _ => Seq::<PathBuf>::empty(),
            },
    {
        match self {
            Command::Report { paths } => paths.as_slice(),
            Command::Stats { paths } => paths.as_slice(),
            Command::Check { paths } => paths.as_slice(),
            _ => {
                let none: &[PathBuf] = &[];
                assert(none@ =~= Seq::<PathBuf>::empty());
                none
            },
        }
    }

    /// Whether this is an analysis subcommand (`report`, `stats`,
    /// `check`).
    pub fn is_analysis(&self) -> (r: bool)
        ensures
            r == self.spec_is_analysis(),
    {
        match self {
            Command::Report { .. } | Command::Stats { .. } | Command::Check { .. } => true,
            _ => false,
        }
    }
}

} // verus!
