//! Palette extraction: a small ordered list of colours that summarises the
//! colour distribution of an RGBA pixel buffer.

use vstd::prelude::*;

pub mod blur;
pub mod color;

verus! {

/// A colour with four independent 8-bit channels.
#[derive(Debug, Clone, Copy, PartialEq, Eq, Structural)]
pub struct RgbaColor {
    pub r: u8,
    pub g: u8,
    pub b: u8,
    pub a: u8,
}

/// A pixel buffer in row-major order, with the dimensions its producer
/// reported. The quantizers read `pixels` only and never rely on
/// `pixels.len() == width * heigth`.
#[derive(Debug, Clone)]
pub struct Image {
    pub pixels: Vec<RgbaColor>,
    pub width: u32,
    pub heigth: u32,
}

} // verus!
