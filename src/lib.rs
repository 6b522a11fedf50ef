//! Grid-based wave function collapse: learn tile adjacency statistics from a
//! sample grid, then synthesise new grids that respect them.

pub mod collapse;
pub mod error;
pub mod grid;
pub mod rng;
pub mod rules;

pub use error::WfcError;
pub use grid::{Data, Image, Matrix};
pub use rng::SeededRng;
pub use rules::{Rules, RulesView};
