//! Structural duplication detection: the domain model, exact-match
//! bucketing, clique carving of near matches, the anti-unification
//! engine, and the pure helpers of the reporters and the command-line
//! surface.
pub mod adapters;
pub mod cli;
pub mod comparison;
pub mod domain;
pub mod ports;
pub mod test_support;
pub mod text;
