//! The shared "extract primary colours" capability and its error type.

use vstd::prelude::*;
use crate::RgbaColor;

pub mod kmeans;
pub mod octree;
pub mod tally;

verus! {

/// Why a palette could not be extracted.
#[derive(Debug, Clone, Copy, PartialEq, Eq, Structural)]
pub enum PaletteError {
    /// A count that has to be positive (clusters, leaf budget, palette size)
    /// was zero, or a count does not fit the machine.
    InvalidParameters,
    /// The image holds no pixel.
    EmptyImage,
}

/// Produces the representative colours of the image a quantizer was built
/// with. Each quantizer states on its own implementation which colours
/// these are.
pub trait PrimanyColor {
    fn get_primary_colors(&self) -> Result<Vec<RgbaColor>, PaletteError>;
}

} // verus!
