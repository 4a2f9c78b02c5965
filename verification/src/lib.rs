//! Conway's Game of Life on a bounded square world, with machine-checked
//! contracts for cell lookup, neighbour counting, the generation step, and
//! the text forms in which a world is read and shown.

pub mod driver;
pub mod pattern;
pub mod render;
pub mod rules;
pub mod world;

pub use driver::{advance_and_show, run, Driver, Frame, PAUSE_MS};
pub use pattern::{encode_world, init, parse_world, square_size};
pub use render::show_world;
pub use rules::{moore_sum, tick_cell, tick_world, OFFSETS};
pub use world::{get_cell, Coord, World, WorldError};
