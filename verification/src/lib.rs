//! Locates and highlights the lowest-energy vertical seams of a raster image.
//!
//! The pipeline runs in four verified stages over plain in-memory grids:
//! a gradient estimator turns the pixel grid into an energy grid, a cost
//! accumulator sweeps it bottom-to-top while claiming the cheapest neighbor
//! of every cell, a selector picks the cheapest seam origins in the top row,
//! and a tracer walks each seam downwards, drawing it onto the output canvas.
//! Decoding a file into a pixel grid and encoding the marked grid back are
//! left to the caller.

pub mod cost;
pub mod gradient;
pub mod grid;
pub mod math;
pub mod pipeline;
pub mod seams;
