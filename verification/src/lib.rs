//! Escape-time fractal tiles: a verified render grid with antialiased
//! sampling, and a verified encoder for the uncompressed bitmap format.

pub mod image;
pub mod render;
