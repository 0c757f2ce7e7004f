//! Perfect mazes on a rectangular grid.
//!
//! A maze is a grid of cells, each a set of four passage bits. The carver
//! grows one as a randomized depth-first tree and is proved to return a
//! spanning tree of the grid whatever the random source yields; the renderer
//! draws a grid as text.

pub mod bits;
pub mod grid;
pub mod graph;
pub mod tree;
pub mod paths;
pub mod cells;
pub mod steps;
pub mod progress;
pub mod carver;
pub mod render;

pub use crate::carver::{carve, carve_step, maze, MazeError};
pub use crate::grid::{direction, new_grid, Direction, Point, DOWN, LEFT, RIGHT, UP};
pub use crate::render::render;
