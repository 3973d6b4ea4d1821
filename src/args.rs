//! The command that selects what to solve.
use vstd::prelude::*;

verus! {

/// What was asked for on the command line.
pub struct Arguments {
    pub command: Command,
}

/// The puzzles this library solves.
pub enum Command {
    /// The seven-letter puzzle: every answer has at least four letters, uses
    /// the mandatory letter `queen`, and uses no letter outside `queen` and
    /// the six `workers`.
    Beehive { queen: char, workers: String },
}

} // verus!
