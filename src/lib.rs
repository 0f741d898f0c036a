//! Blue-noise point placement inside polygons read from WKT text.
//!
//! Coordinates are fixed-point integers: one unit of the source data is
//! [`geometry::SCALE`] steps, so every distance and comparison is exact.
pub mod geometry;
pub mod scan;
pub mod wkt_text;
pub mod rng;
pub mod grid;
pub mod sampling;
pub mod jitter;
pub mod pipeline;
pub mod progress;
pub mod batch;
