//! Coverage of query sequences by pairwise alignments.
//!
//! Alignment records carry an edit script over the query sequence. Every
//! exact-match run marks query positions as covered; a position marked by a
//! second record of the same query is counted as multiply covered. Records are
//! grouped by query name as they stream in, each finished group is folded into
//! running totals, and the uncovered stretches of a group can be listed as
//! half-open intervals.

pub mod aggregator;
pub mod coverage;
pub mod edit_script;
pub mod intervals;
pub mod record;
pub mod totals;
