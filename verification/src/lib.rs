//! Axial hex-grid geometry for a hexagon-shaped board.
//!
//! The board lives in axial coordinates `(q, r)`. All pixel geometry is
//! expressed on an integer lattice: an x distance is counted in units of
//! `tile_size * cos(30 deg)` and a y distance in units of
//! `tile_size * sin(30 deg)`. In those units every tile center and every
//! hexagon vertex has integer coordinates, so the geometry is exact and
//! carries no floating point. A rendering front end multiplies the unit
//! counts by the two floating-point unit lengths when it draws.

pub mod board;
pub mod counting;
pub mod geom;
pub mod label;
