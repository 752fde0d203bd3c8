//! Trail network coverage: segmentation of a trail network at its junctions,
//! a spatial index of recorded GPS traces, per-segment coverage matching and
//! aggregation onto a uniform geographic grid, all in exact integer arithmetic.
//!
//! - [`geo`]: integer coordinates, the local metric frame, distances,
//!   polyline length and discretisation.
//! - [`network`]: splitting trails into segments at shared nodes.
//! - [`matching`]: the trace index and the coverage of each segment.
//! - [`grid`]: the grid over the bounding box and the per-cell totals.
//! - [`blend`]: laying the rendered overlay onto the map image.
//! - [`garmin`], [`tiles`]: decisions of the activity sync and tile naming.

pub mod blend;
pub mod garmin;
pub mod geo;
pub mod grid;
pub mod matching;
pub mod network;
pub mod tiles;
