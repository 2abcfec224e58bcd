//! Random maze maps on a doubled grid.
//!
//! A map of `w` by `h` rooms is stored on a grid of `2w-1` by `2h-1` cells:
//! cells whose two coordinates are both even are rooms, cells with exactly
//! one odd coordinate are the walls between two neighbouring rooms, and
//! cells with two odd coordinates are pillars that never change.
//!
//! A map grows from a start room by opening, at random, walls next to the
//! maze; then an entrance and an exit are placed, loops are opened, small
//! islands of shut cells are removed and tiny dead ends are pruned.

pub mod cell;
pub mod completion;
pub mod deadends;
pub mod generate;
pub mod grid;
pub mod islands;
pub mod laws;
pub mod phases;
pub mod region;
pub mod render;
mod rng;
pub mod scan;
pub mod walls;

pub use cell::Cell;
pub use completion::Completion;
pub use generate::{cell_dist, generate_map, GeneratedMap, MapConfig};
pub use grid::Cells;
