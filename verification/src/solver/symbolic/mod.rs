pub mod compose;
pub mod eq;
pub mod formula;
pub mod moves;
