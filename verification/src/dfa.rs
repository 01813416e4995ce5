//! The deterministic automaton: its table, the engine that steps through
//! it, and the builder of hand-written tables.

pub mod builder;
pub mod engine;
pub mod interface;
pub mod trans_holder;
pub mod utils;
