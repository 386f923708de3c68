//! A grid editor core with a verified A* path search.
//!
//! The grid holds one cell content per position, tracks at most one car
//! (start) and one goal cell, and supports editing, resizing and random
//! filling. `find_path` runs a heuristic-guided best-first search over
//! 4-directional adjacency and returns the exact shortest path length,
//! marking explored and path cells in the grid as a side effect.

pub mod content;
pub mod grid;
pub mod model;
pub mod paths;
pub mod heuristic;
pub mod search;
pub mod laws;
pub mod frontend;
mod rng;

pub use content::{Content, Direction};
pub use grid::{Grid, GridError};
pub use heuristic::Heuristic;
pub use search::PathResult;
pub use frontend::{FrontEnd, State, StatusMsg};
