//! Conway's Game of Life on an unbounded integer lattice.
//!
//! The field stores only its alive cells; one step of the rule examines the
//! alive cells and their neighbours and nothing else. Every operation is
//! specified over `LifeState`, the set of alive cells of the lattice together
//! with the generation counter.
pub mod cell;
pub mod control;
pub mod game_of_life;
pub mod laws;
pub mod random;
pub mod rules;
pub mod text;

pub use control::{tick, TickOutcome};
pub use game_of_life::GameOfLife;
