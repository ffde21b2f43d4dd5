//! The command-line surface's verified parts: its vocabulary, the
//! adapter metadata, and the pure helpers of the run loop.
use vstd::prelude::*;

pub mod adapter_meta;
pub mod args;
pub mod run;

pub use adapter_meta::AdapterMeta;
pub use args::{Command, Format, ThresholdMode};
pub use run::{current_timestamp, format_unix_seconds_iso8601, threshold_mode_label};

verus! {

/// The library's version.
pub const VERSION: &'static str = "0.1.0";

/// Where a report goes.
#[derive(Debug, Clone, Copy, PartialEq, Eq, Structural)]
#[non_exhaustive]
pub enum OutputDestination {
    /// Standard output.
    Stdout,
}

impl Default for OutputDestination {
    fn default() -> (r: Self)
        ensures
            r == OutputDestination::Stdout,
    {
        OutputDestination::Stdout
    }
}

} // verus!
