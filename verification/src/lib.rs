//! Rasterises an interactive Bezier scene into an RGBA frame.
//!
//! The frame is a flat byte buffer of `WIDTH` by `HEIGHT` pixels, four bytes
//! per pixel, rows from top to bottom. Everything that is drawn is described
//! by the set of pixels it covers: a straight line by the pixels nearest to
//! the ideal segment, the scene by a grid with two polylines painted over it.

pub mod combinatorics;
pub mod geometry;
pub mod line;
pub mod raster;
pub mod scene;
pub mod symmetry;

pub use combinatorics::{binomial_coefficient, checked_binomial_coefficient};
pub use geometry::{Color, Line, Vector, HEIGHT, WIDTH};
pub use scene::{Scene, SceneState, CURVE_SAMPLES};
