//! Renders a live video source as text: a raw interleaved-channel frame is
//! block-averaged into a reduced luminance grid and each sample is mapped to a
//! glyph from an ordered ramp whose bright end can be widened and narrowed at
//! runtime.

pub mod asciitable;
pub mod canvas;
pub mod translate;
