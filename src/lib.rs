//! Solver for the seven-letter "spelling bee" word puzzle: one mandatory
//! letter, six optional letters, and a dictionary indexed by the set of
//! distinct letters each word uses.
pub mod args;
pub mod index;
pub mod letters;
pub mod solver;
