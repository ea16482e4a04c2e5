//! Majority Judgment poll ranking.
//!
//! Candidates receive ordinal grades from voters. Each candidate's grades are
//! tallied, turned into a sequence of successive medians (removing one
//! occurrence of the current median each round), and candidates are ranked by
//! comparing those sequences lexicographically, highest first.

pub mod error;
pub mod median;
pub mod rank;
pub mod tally;
