//! Perfect mazes on a rectangular grid, grown with Wilson's algorithm.
//!
//! A maze is a grid of odd width and height. The cells with two odd
//! coordinates are the nodes of the maze graph; a perfect maze opens all of
//! them and, between them, the passages of a spanning tree. [`Maze::new`]
//! grows such a maze by loop-erased random walks, and its contract says that
//! what it returns is one: every node is open, any two nodes are joined by
//! open cells, and the open passages are one fewer than the nodes.

pub mod cell;
pub mod erasure;
pub mod maze;
pub mod random;
pub mod render;
pub mod steps;
pub mod tree;
pub mod walk;
pub mod wilson;

pub use crate::cell::{CellIndex, CellType, MazeError};
pub use crate::erasure::erase_loops;
pub use crate::maze::Maze;
pub use crate::random::RandomSource;
pub use crate::render::Canvas;
