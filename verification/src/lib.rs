//! A fixed-grid, two-dimensional incompressible-fluid solver in the
//! "stable fluids" style, computed in saturating fixed-point arithmetic.
//!
//! Every function carries a contract over mathematical models: a number is
//! modelled by its raw integer, a field by the sequence of its cells.

pub mod fixed;
pub mod grid;
pub mod boundary;
pub mod solver;
pub mod diffuse;
pub mod project;
pub mod advect;
pub mod fluid;
