pub mod index;
pub mod local;
pub mod strategy;
pub mod symbolic;
pub mod iter;
