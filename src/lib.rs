//! Perfect-maze generation over rectangular grids of cells, with
//! breadth-first distance analysis of the generated mazes.
//!
//! - `cell`: one grid position, its neighbors and its passages.
//! - `grid`, `hash_grid`: the two grid types.
//! - `maze`: the mathematical model of a grid and of a spanning tree.
//! - `algorithms`: Binary Tree, Sidewinder and Aldous-Broder.
//! - `distances`: breadth-first distances and paths back to the root.
//! - `label`, `text`: what a cell shows, and a grid drawn as text.
//! - `random`: the source of random draws.

pub mod algorithms;
pub mod cell;
pub mod distances;
pub mod grid;
pub mod hash_grid;
pub mod label;
pub mod maze;
pub mod random;
mod store;
pub mod text;

pub use crate::store::BoundsError;
