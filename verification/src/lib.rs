//! Conversions between binary raster masks and vector boundaries: a contour
//! tracer that reads ordered boundaries out of a mask, and a rasterizer that
//! draws closed rings into a canvas.

pub mod canvas;
pub mod contours;
pub mod divergence;
pub mod geometry;
pub mod invariance;
pub mod labels;
pub mod line;
pub mod mask;
pub mod paths;
pub mod polygon;
pub mod polygons;
pub mod raster;
