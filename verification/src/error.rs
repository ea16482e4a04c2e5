//! Why a poll cannot be ranked.

use vstd::prelude::*;

verus! {

/// Why a poll cannot be ranked.
#[derive(Clone, Copy, Debug, PartialEq, Eq, Structural)]
pub enum PollError {
    /// The candidates' ballots do not all hold one grade per voter.
    UnequalBallotLengths,
    /// A ballot is empty: no voter cast a grade, so no median exists.
    EmptyBallotSet,
}

} // verus!
