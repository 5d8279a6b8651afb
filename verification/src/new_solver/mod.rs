pub mod solver;
pub mod strategy;
pub mod retain;
pub mod local;
