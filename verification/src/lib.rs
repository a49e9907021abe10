//! A verified interpreter for a small subset of SVG vector markup.
//!
//! The library turns `<path>`, `<rect>` and `<line>` elements into ordered
//! sequences of two-dimensional points normalized into a 0-100 coordinate
//! box with a flipped vertical axis, ready for plotting on a coarse grid.
//! All geometry is carried in fixed-point micro-units (millionths), so every
//! computation is exact integer arithmetic with saturation at a documented
//! bound, and every function's result is pinned by its contract.

pub mod arc;
pub mod bezier;
pub mod extract;
pub mod fill;
pub mod fx;
pub mod model;
pub mod num;
pub mod path;
pub mod render;
pub mod scan;
pub mod store;
pub mod style;
pub mod transform;
pub mod trig;

pub use fx::{SCALE, FX_MAX};
