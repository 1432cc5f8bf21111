//! Contour lines and polygons of a rectangular grid by marching squares.
//!
//! The library works on the outcome of comparing each sample with a
//! threshold: a mask of `dx * dy` booleans in row-major order. Points live on
//! the half-unit lattice: a `Pt` holds twice its grid coordinates, so that
//! every edge crossing and every cell corner is exact, and so are the signed
//! areas and containment tests that sort rings into outer rings and holes.
pub mod builder;
pub mod cases;
pub mod geometry;
pub mod isoring;
pub mod model;
mod store;

pub use crate::builder::ContourBuilder;
pub use crate::geometry::Pt;
pub use crate::isoring::{contour_rings, ContourError, IsoRingBuilder};
