//! The ways in which a run can fail.

use vstd::prelude::*;

verus! {

/// Why a run was given up. None of these can be recovered from within a run.
#[derive(Clone, Copy, Debug, PartialEq, Eq, Structural)]
pub enum BeadError {
    /// The grid of cells would have no width or no height.
    InvalidDimensions,
    /// Tiled rendering was asked for and there is no texture tile.
    TextureLoadError,
    /// A palette line is not a name, a space and six hexadecimal digits.
    PaletteParseError,
}

impl BeadError {
    /// The sentence that tells the user of this failure.
    pub open spec fn sentence(self) -> Seq<char> {
        match self {
            BeadError::InvalidDimensions => "the grid of beads would have no width or no height"@,
            BeadError::TextureLoadError => "the texture tile could not be loaded"@,
            BeadError::PaletteParseError => "a palette line is not a name, a space and six hexadecimal digits"@,
        }
    }

    /// A sentence for the user.
    pub fn message(&self) -> (text: String)
        ensures
            text@ == self.sentence(),
    {
        let text = match self {
            BeadError::InvalidDimensions => "the grid of beads would have no width or no height",
            BeadError::TextureLoadError => "the texture tile could not be loaded",
            BeadError::PaletteParseError => "a palette line is not a name, a space and six hexadecimal digits",
        };
        text.to_owned()
    }
}

} // verus!
