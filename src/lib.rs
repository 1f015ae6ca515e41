//! A dense two-dimensional grid and Conway's Game of Life built on it.
pub mod grid;
pub mod life;

pub use grid::Grid;
pub use life::{Cell, GameOfLife};
