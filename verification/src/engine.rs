//! The inference engine: a hand evaluator that works under any ordering of
//! the ranks, the graph of relations between ranks, and the beliefs from
//! which relations and orderings are derived.

pub mod agreement;
pub mod analysis;
pub mod chance;
pub mod classify;
pub mod cycles;
pub mod evidence;
pub mod graph;
pub mod inference;
pub mod ordering;
pub mod probability;
pub mod reduction;
pub mod relations;
pub mod resolve;
pub mod selection;
pub mod showdown;
pub mod soundness;
