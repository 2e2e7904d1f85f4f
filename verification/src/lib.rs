//! The logic of a small sphere ray tracer that does not depend on how
//! numbers are represented: the command line, the search for the nearest
//! hit, the following of a ray from bounce to bounce, the plan by which
//! pixels are handed out to workers and collected again, and the frame
//! buffer with its encodings.

pub mod color;
pub mod config;
pub mod decimal;
pub mod image;
pub mod interval;
pub mod render;
pub mod scene;
pub mod shade;
