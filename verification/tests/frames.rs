use asciicam::canvas::{Canvas, Dim, DisplayError};
use asciicam::translate::{translate_frame, translate_rgb, PreconditionError};

/// A test double: a canvas of fixed dimension that accepts every draw.
struct FixedCanvas {
    width: u32,
    height: u32,
    drawn: Vec<char>,
}

impl Canvas for FixedCanvas {
    fn draw(&mut self, buffer: &[char]) -> Result<(), DisplayError> {
        self.drawn = buffer.to_vec();
        Ok(())
    }

    fn dim(&self) -> Dim {
        Dim { width: self.width, height: self.height }
    }

    fn cell_aspect_ratio(&self) -> (u32, u32) {
        (1, 2)
    }
}

/// A frame where every pixel of every channel holds `v`.
fn uniform_frame(width: usize, height: usize, v: u8) -> Vec<u8> {
    vec![v; width * height * 3]
}

const RAMP: &[u8] = b"0123456789";

#[test]
fn uniform_frame_resolves_to_one_glyph() {
    let buffer = uniform_frame(6, 4, 100);
    let grid = translate_frame(RAMP, Dim { width: 3, height: 2 }, &buffer, 6, 4).unwrap();
    // 100 * (10 - 1) / 255 == 3
    assert_eq!(grid, vec!['3'; 6]);

    let buffer = uniform_frame(8, 8, 255);
    let grid = translate_frame(RAMP, Dim { width: 2, height: 2 }, &buffer, 8, 8).unwrap();
    assert_eq!(grid, vec!['9'; 4]);

    let buffer = uniform_frame(8, 8, 0);
    let grid = translate_frame(RAMP, Dim { width: 8, height: 8 }, &buffer, 8, 8).unwrap();
    assert_eq!(grid, vec!['0'; 64]);
}

#[test]
fn quadrant_fixture_selects_exact_indices() {
    // A 4x4 frame split into four uniform 2x2 quadrants.
    let quadrants = [[0u8, 255u8], [128u8, 64u8]];
    let mut buffer = Vec::new();
    for y in 0..4 {
        for x in 0..4 {
            let v = quadrants[y / 2][x / 2];
            buffer.extend_from_slice(&[v, v, v]);
        }
    }
    let grid = translate_frame(RAMP, Dim { width: 2, height: 2 }, &buffer, 4, 4).unwrap();
    // 0 -> 0, 255 -> 9, 128 -> 128*9/255 == 4, 64 -> 64*9/255 == 2
    assert_eq!(grid, vec!['0', '9', '4', '2']);
}

#[test]
fn zero_area_grid_is_rejected() {
    let buffer = uniform_frame(4, 4, 10);
    let r = translate_frame(RAMP, Dim { width: 0, height: 2 }, &buffer, 4, 4);
    assert_eq!(r, Err(PreconditionError::ZeroAreaGrid));
    let r = translate_frame(RAMP, Dim { width: 2, height: 0 }, &buffer, 4, 4);
    assert_eq!(r, Err(PreconditionError::ZeroAreaGrid));
}

#[test]
fn oversized_grid_is_rejected() {
    let buffer = uniform_frame(2, 2, 10);
    let r = translate_frame(RAMP, Dim { width: 3, height: 2 }, &buffer, 2, 2);
    assert_eq!(r, Err(PreconditionError::FrameTooSmall));
    let r = translate_frame(RAMP, Dim { width: 2, height: 3 }, &buffer, 2, 2);
    assert_eq!(r, Err(PreconditionError::FrameTooSmall));
}

#[test]
fn remainder_pixels_are_excluded() {
    // A 5x1 frame shrunk to 2x1: blocks of width 2 cover pixels 0..4; the
    // bright fifth pixel falls outside every block and must not be sampled.
    let pixels: [u8; 5] = [0, 0, 255, 255, 255];
    let mut buffer = Vec::new();
    for &v in &pixels {
        buffer.extend_from_slice(&[v, v, v]);
    }
    let grid = translate_frame(RAMP, Dim { width: 2, height: 1 }, &buffer, 5, 1).unwrap();
    assert_eq!(grid, vec!['0', '9']);
}

#[test]
fn mixed_block_takes_truncated_mean() {
    // One 2x2 block holding lumas {10, 20, 30, 41}: the mean truncates to 25,
    // and 25 * 9 / 255 == 0.
    let lumas = [[10u8, 20u8], [30u8, 41u8]];
    let mut buffer = Vec::new();
    for y in 0..2 {
        for x in 0..2 {
            let v = lumas[y][x];
            buffer.extend_from_slice(&[v, v, v]);
        }
    }
    let grid = translate_frame(b"ab", Dim { width: 1, height: 1 }, &buffer, 2, 2).unwrap();
    // 25 * (2 - 1) / 255 == 0
    assert_eq!(grid, vec!['a']);
}

#[test]
fn per_pixel_luminance_is_channel_mean() {
    // A single pixel with channels {10, 20, 31}: luminance truncates to 20,
    // and 20 * 9 / 255 == 0.
    let buffer = vec![10u8, 20u8, 31u8];
    let grid = translate_frame(RAMP, Dim { width: 1, height: 1 }, &buffer, 1, 1).unwrap();
    assert_eq!(grid, vec!['0']);
    // Channels {250, 251, 252}: luminance 251, and 251 * 9 / 255 == 8.
    let buffer = vec![250u8, 251u8, 252u8];
    let grid = translate_frame(RAMP, Dim { width: 1, height: 1 }, &buffer, 1, 1).unwrap();
    assert_eq!(grid, vec!['8']);
}

#[test]
fn translate_rgb_uses_canvas_dimension() {
    let mut canvas = FixedCanvas { width: 3, height: 2, drawn: Vec::new() };
    let buffer = uniform_frame(9, 4, 200);
    let grid = translate_rgb(RAMP, &canvas, &buffer, 9, 4).unwrap();
    // 200 * 9 / 255 == 7
    assert_eq!(grid, vec!['7'; 6]);
    canvas.draw(&grid).unwrap();
    assert_eq!(canvas.drawn, vec!['7'; 6]);
    assert_eq!(canvas.cell_aspect_ratio(), (1, 2));
}

#[test]
fn translate_rgb_reports_zero_area_canvas() {
    let canvas = FixedCanvas { width: 0, height: 0, drawn: Vec::new() };
    let buffer = uniform_frame(4, 4, 10);
    let r = translate_rgb(RAMP, &canvas, &buffer, 4, 4);
    assert_eq!(r, Err(PreconditionError::ZeroAreaGrid));
}
