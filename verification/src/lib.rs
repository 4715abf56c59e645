//! Index logic of a two-dimensional lattice Boltzmann (D2Q9) flow solver:
//! lattice velocities and weights, grid layout, periodic streaming indices,
//! the channel's solid nodes and their bounce-back indices, and the
//! iteration schedule of the solver.

pub mod geometry;
pub mod layout;
pub mod traits;
pub mod distribution;
pub mod streaming;
pub mod grid;
pub mod lbm;
pub mod solver;
