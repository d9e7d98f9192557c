//! A conflict-driven clause-learning SAT solver whose behaviour is stated in
//! contracts over a mathematical model of literals, clauses and the trail.

pub mod analysis;
pub mod dimacs;
pub mod laws;
pub mod lemmas;
pub mod model;
mod random;
pub mod search;
pub mod solver;
pub mod text;
pub mod tseitin;
pub mod wff;

pub use dimacs::parse_dimacs_cnf;
