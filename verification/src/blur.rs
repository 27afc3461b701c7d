//! Filters over a flat buffer of packed pixels.

pub mod gaussian;
