//! A maze read from text, searched depth first, and drawn.

pub mod cell;
pub mod drawing;
pub mod grid;
pub mod loader;
pub mod maze;
pub mod model;
pub mod outcome;
pub mod progress;
pub mod search;
pub mod text;
pub mod trail;

pub use cell::Cell;
pub use cell::Coord;
pub use loader::LoadError;
pub use maze::Maze;
