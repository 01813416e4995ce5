//! Small helpers shared by the automaton builders.

pub mod counter;
