//! The rendering-surface contract: an abstract character-grid display that
//! accepts a finished glyph grid, reports its current dimension, and exposes
//! the physical aspect ratio of one cell.

use vstd::prelude::*;

verus! {

/// A canvas dimension in grid cells.
#[derive(Clone, Copy, PartialEq, Eq, Structural, Debug)]
pub struct Dim {
    pub width: u32,
    pub height: u32,
}

/// The canvas could not render or report its state; fatal for the current
/// frame's rendering attempt.
#[derive(Debug)]
pub struct DisplayError {
    pub message: String,
}

/// An abstract display surface for glyph grids. Concrete backends (a
/// terminal, a test double) implement it outside the translation logic.
pub trait Canvas {
    /// Draws the given buffer of glyphs onto the canvas. The buffer is
    /// row-major and sized to the dimension reported by `dim`.
    fn draw(&mut self, buffer: &[char]) -> Result<(), DisplayError>;

    /// Returns the canvas' current dimension. It may legitimately change
    /// between calls (a window resize), so callers must query it afresh
    /// before every translation.
    fn dim(&self) -> Dim;

    /// Returns the aspect ratio of a single cell within the canvas, as a
    /// tuple relating `width : height`.
    fn cell_aspect_ratio(&self) -> (u32, u32);
}

} // verus!
