pub mod game;
pub mod grid;
pub mod laws;
mod random;
pub mod text;
