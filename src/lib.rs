//! A uniform-grid approximation of gravity between many point masses.
//!
//! Particles are binned into the cells of a grid, and each cell is pulled by
//! the occupied cells within a fixed Chebyshev radius. Everything here is exact
//! integer arithmetic: the pull on a cell is kept as one integer moment per
//! squared-distance shell, from which a caller obtains the force vector by
//! weighting each shell with the inverse-square law.
pub mod force;
pub mod grid;
