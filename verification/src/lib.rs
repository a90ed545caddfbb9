//! An Information-Set Monte Carlo Tree Search (ISMCTS) engine.
//!
//! The engine builds a search tree over an information set: each iteration
//! samples a concrete determinization of the hidden information, descends the
//! tree by UCT selection with decoupled availability counts, expands one
//! untried action, runs a random playout, and credits the outcome to every
//! node on the path back to the root.  Scores are plain fixed-point integers
//! (see [`fixed`]), so the whole scoring rule is stated and proved exactly.

pub mod actions;
pub mod edge;
pub mod fixed;
pub mod laws;
pub mod node;
pub mod searcher;
pub mod state;
pub mod tree;
