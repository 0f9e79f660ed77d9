//! A sparse uniform-grid spatial index over two-dimensional space.
//!
//! Callers insert opaque identifiers tagged with a point or an axis-aligned
//! bounding box; queries return the identifiers whose footprint overlaps a
//! queried point or box. Coordinates are fixed-point integers: a caller picks
//! a subunit scale and supplies positions and the tile size in subunits.

pub mod cell;
pub mod keys;
pub mod bucket;
pub mod grid;
pub mod laws;
