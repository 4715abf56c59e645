//! The interface of a velocity distribution (a lattice stencil).

use vstd::prelude::*;
use crate::geometry::Direction;

verus! {

/// A lattice stencil: its directions, their velocities and weights.
///
/// Rational quantities are given exactly: `c_squ` as a numerator and a
/// denominator, the weights as numerators over a common denominator of
/// the implementing stencil.
pub trait Distribution: Sized + Copy {
    /// The squared lattice sound speed, as `(numerator, denominator)`.
    fn c_squ() -> (u64, u64);

    /// The number of directions.
    fn size() -> usize;

    /// The shape of a per-direction array.
    fn dims() -> [u64; 4];

    /// All directions, in index order.
    fn all() -> Vec<Self>;

    /// The x components of the direction velocities, in index order.
    fn ex() -> Vec<i64>;

    /// The y components of the direction velocities, in index order.
    fn ey() -> Vec<i64>;

    /// The weight numerators of the directions, in index order.
    fn weights() -> Vec<u64>;

    /// Offsets of the moving directions' blocks in a population array.
    fn current_indices(&self) -> Vec<u64>;

    /// Offsets of the moving directions' blocks in a population array.
    fn opposite_indices(&self) -> Vec<u64>;

    /// The geometric direction of this stencil direction.
    fn direction(&self) -> Direction;

    /// The stencil direction of a geometric direction, if it has one.
    fn from_direction(geom: Direction) -> Option<Self>;
}

} // verus!
