//! The comparison engine's verified parts: fingerprint-set bucketing and
//! exact-match clusters, union-find, clique carving of the near-match
//! graph with its guarantees, and the anti-unification of a cluster's
//! member trees with its laws (reconstruction, hole numbering, and
//! stability under reordering of the members).
pub mod divergence;
pub mod buckets;
pub mod carving;
pub mod carving_laws;
pub mod carving_stability;
pub mod clustering;
pub mod lcs;
pub mod union_find;
pub mod antiunify;
pub mod antiunify_laws;
pub mod antiunify_perm;
pub mod antiunify_holes;
pub mod divergence_laws;
