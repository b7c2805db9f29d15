pub mod board;
pub mod game;
pub mod laws;
pub mod bot;
pub mod text;
pub mod bounds;
pub mod cli;
