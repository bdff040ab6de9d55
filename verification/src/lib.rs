//! Wave function collapse.
//!
//! A constraint solver over a lattice of cells. Every cell starts as a
//! superposition of atomic states; the solver repeatedly observes a cell of
//! least entropy and propagates the adjacency rules until every cell is
//! decided or found contradictory. An extractor derives the adjacency rules
//! from the overlapping windows of a sample.

pub mod collapse;
pub mod consistency;
pub mod grid_2d;
pub mod grid_3d;
pub mod overlapping;
pub mod random;
pub mod rules;
pub mod space;
pub mod state;

pub use collapse::collapse;
pub use space::{InvertDelta, Space};
pub use state::{State, StateSet};
