//! Coordinate algebra for a hexagonal grid laid out on a triangular lattice.
//!
//! Every executable operation on [`point::Point`] is specified against the
//! unbounded integer model in [`axial`], so that the algebraic laws are stated
//! once, over mathematical integers, and hold of the machine values wherever
//! the result can be represented.

pub mod axial;
pub mod hex;
pub mod map;
pub mod neighborhood;
pub mod point;
pub mod segment;
