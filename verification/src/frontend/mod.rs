//! Frontends turn external artifacts into the IR. A G-code parser (`gcode`) reads slicer output
//! back into [`crate::ir::lo`]; arcs are flattened by [`arc`].
pub mod arc;
pub mod gcode;
pub mod machine;

pub use gcode::{parse, Diagnostics, ParseReport};
