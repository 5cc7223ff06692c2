//! The ways in which a computation over the history can fail.

use vstd::prelude::*;

verus! {

/// Why a statistic or a balancing pass could not be computed.
#[derive(Debug, Clone, Copy, PartialEq, Eq, Structural)]
pub enum BalanceError {
    /// A variable was recorded in no match, or with one and the same value in
    /// every match that recorded it.
    DegenerateInput,
    /// No match has been reported.
    EmptyHistory,
    /// A team that a correlation was computed for has never won, so it has no
    /// share of the wins to compare with the target.
    MissingTeamDeficit,
}

} // verus!
