//! Minimum-cost placement of rectangular support platforms under a grid of
//! terrain, as a SAT problem.
//!
//! The encoder turns a catalog of platform footprints and a world into
//! clauses over placement and terrain-support variables; the decoder turns a
//! satisfying assignment back into a layout with one platform per origin; the
//! validator checks a layout against the world.
use vstd::prelude::*;

pub mod box_char;
pub mod dag;
pub mod dimensions;
pub mod encoder;
pub mod grid;
pub mod layout;
pub mod limits;
pub mod platform;
pub mod point;
pub mod sat;
pub mod tred;
pub mod vars;
pub mod world;

verus! {

/// Number of support layers per terrain cell: a terrain cell is supported
/// when a covered terrain cell lies at most one step fewer than this away,
/// through terrain.
pub const TERRAIN_SUPPORT_DISTANCE: usize = 4;

} // verus!
