//! Heads-up poker where the order of the thirteen ranks is hidden: a hand
//! evaluator that works under any candidate ordering, and an engine that
//! infers the ordering from the outcomes of showdowns.

pub mod engine;
pub mod skeleton;
