//! A maze engine: a rectangular grid of cells, a randomized
//! recursive-backtracking maze generator, a breadth-first-search solver that
//! marks the shortest route, and a binary codec that persists the grid.
//!
//! The engine is pure data transformation: rendering, input handling and file
//! I/O live in the surrounding application, which talks to the engine through
//! the types and functions exported here.

pub mod cell;
pub mod codec;
pub mod grid;
pub mod reach;
pub mod rng;
pub mod route;
pub mod state;

pub use cell::Cell;
pub use codec::DecodeError;
pub use grid::Grid;
pub use state::GameState;
pub use state::NewGameState;
