//! The rank and suit domain shared by every other part of the library, and
//! what surrounds the engine in a game: the actions and states of a betting
//! round and the clauses of the game server.

pub mod actions;
pub mod cards;
pub mod protocol;
pub mod session;
pub mod states;
