pub mod game;
pub mod expansion;
pub mod profiles;
pub mod winning;
pub mod escape;
pub mod improve;
