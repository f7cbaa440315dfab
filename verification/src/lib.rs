pub mod board;
pub mod input;
pub mod laws;
pub mod player;
pub mod render;

pub use board::{Board, BoardError, Cell, SeaField, Ship, Shot, ShotResult};
pub use player::Game;
