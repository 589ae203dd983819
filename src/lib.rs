//! Rules engine of a sliding-tile puzzle in the style of "Threes": a 4x4 grid
//! of numbered tiles that slides in four directions, merges colliding tiles,
//! places a new tile after each successful move, and computes a score.

pub mod board;
pub mod grid;
pub mod laws;
pub mod supply;
pub mod tiles;

pub use board::Board;
pub use grid::Direction;
pub use supply::{generate_basic_stack, generate_bonus_stack};
pub use tiles::{calculate_coefficient, handle_collisions};
