//! Rectangular perfect mazes: a grid of cells with the links between them, two
//! carving algorithms (binary tree and sidewinder), and a drawing of a grid as text.
pub mod binary_tree;
pub mod cell;
pub mod grid;
pub mod maze;
mod random;
pub mod render;
pub mod sidewinder;

pub use binary_tree::binary_tree;
pub use cell::{Configuration, Id, MazeCell};
pub use grid::Grid;
pub use sidewinder::sidewinder;
