//! Local solving of parity games and fixpoint equation systems, with the
//! front ends that produce them (labelled transition systems, mu-calculus
//! formulas, parity games and bisimilarity checks).
pub mod aut;
pub mod bisimilarity;
pub mod index_set;
pub mod mucalc;
pub mod new_solver;
pub mod parity;
pub mod solver;
pub mod text;
