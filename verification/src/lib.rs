//! Simulation of finite automata given as a transition table: classification
//! as deterministic or not, the deterministic walk, and the backtracking
//! search for an accepting path.

pub mod model;
pub mod relation;
pub mod file;
pub mod afd;
pub mod afn;
pub mod laws;
pub mod step;
pub mod text;
pub mod reader;
pub mod dot;
