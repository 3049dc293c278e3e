//! Analysis of single-seat ranked-choice ballots with up to five preferences
//! per voter: the pairwise head-to-head matrix, Condorcet resolution, the
//! later-choice transfer analysis with its scoring schemes, and the auxiliary
//! preference-path hierarchy.

use vstd::prelude::*;

pub mod ballot;
pub mod condorcet;
pub mod hierarchy;
pub mod later_choices;
pub mod rank_distributions;
pub mod ranking;

verus! {

/// A fatal data-integrity failure: the candidate list and the pairwise matrix
/// are mutually inconsistent, so the analysis must abort rather than work
/// around the malformed data.
#[derive(Clone, Copy, Debug, PartialEq, Eq, Structural)]
pub enum IrvError {
    /// A pairwise-matrix lookup named a candidate pair the matrix has no
    /// entry for.
    MissingMatrixEntry,
}

} // verus!
