//! Grouping of transcripts whose abundance estimates cannot be told apart
//! across inferential replicates, and preparation of cross-sample consensus
//! groups.
//!
//! - `digits`, `ids`: decimal notation and canonical group identifiers, the
//!   sorted underscore-joined member lists that name groups everywhere.
//! - `tree`, `newick`: merge trees recording the collapse history, their
//!   canonical ids, and the bracketed serialized form with its parser; a
//!   serialized tree parses back to the identical tree.
//! - `disjoint`, `engine`: the disjoint set over transcripts (from
//!   petgraph, behind trusted contracts), the per-sample collapsing state,
//!   and the deterministic choice of the next merge.
//! - `bipart`, `aggregate`, `consensus_prep`: bipartition support tables,
//!   the cross-sample merged super-groups with key-wise summed counts, and
//!   each sample's representative tree lines for consensus synthesis.
//! - `laws`: the partition covers every transcript exactly once, and the
//!   merged grouping does not depend on the order samples are processed in.

pub mod digits;
pub mod ids;
pub mod tree;
pub mod newick;
pub mod disjoint;
pub mod bipart;
pub mod aggregate;
pub mod consensus_prep;
pub mod engine;
pub mod laws;
