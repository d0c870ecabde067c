//! kerf: an engine-independent IR for the mesh → G-code half of fabrication, with a lowering,
//! optimization passes, and a denotational correctness oracle.
pub mod ir;
pub mod wide;
pub mod coverage;
pub mod raster;
pub mod denote;
pub mod lower;
pub mod fnv;
pub mod pass;
pub mod metamorphic;
pub mod hash;
pub mod voxel;
pub mod analyze;
pub mod transform;
pub mod feature;
pub mod frontend;
pub mod verify;
pub mod render;
pub mod diff;
pub mod incremental;
pub mod queue;
pub mod digest;
pub mod store;
pub mod engine;
pub mod worker;
pub mod ingest;
pub mod api;
pub mod schema;

pub use ir::{hi, lo, Area, ExtrudePath, Point, Polyline, RegionKind};
