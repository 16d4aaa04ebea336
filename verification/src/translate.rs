//! The frame-to-glyph translation pipeline: a raw interleaved-channel pixel
//! buffer is reduced to one luminance sample per output cell by block
//! averaging, and each sample indexes into the glyph ramp.

use vstd::prelude::*;
use vstd::arithmetic::div_mod::{
    lemma_div_is_ordered,
    lemma_div_multiples_vanish,
    lemma_div_non_zero,
    lemma_fundamental_div_mod,
    lemma_fundamental_div_mod_converse,
    lemma_div_pos_is_pos,
    lemma_mod_division_less_than_divisor,
    lemma_multiply_divide_lt,
};
use vstd::arithmetic::mul::{lemma_mul_inequality, lemma_mul_nonnegative};

use crate::canvas::{Canvas, Dim};

verus! {

/// The translation's preconditions were violated; the frame must be skipped
/// rather than translated.
#[derive(Clone, Copy, PartialEq, Eq, Structural, Debug)]
pub enum PreconditionError {
    /// The output grid has zero area in at least one dimension.
    ZeroAreaGrid,
    /// The output grid is larger than the source frame in at least one
    /// dimension, so a block would hold no pixel at all.
    FrameTooSmall,
}

/// The index of a pixel's first channel byte in a row-major interleaved
/// 3-channel buffer.
pub open spec fn byte_index(cam_width: int, x: int, y: int) -> int {
    3 * (y * cam_width + x)
}

/// A pixel's luminance: the unweighted mean of its three channel samples,
/// truncated to an integer.
pub open spec fn pixel_luma(buffer: Seq<u8>, cam_width: int, x: int, y: int) -> int {
    (buffer[byte_index(cam_width, x, y)] + buffer[byte_index(cam_width, x, y) + 1] + buffer[
        byte_index(cam_width, x, y) + 2
    ]) as int / 3
}

/// The summed luminance of the `n` pixels of one block row starting at
/// `(x0, y)`.
pub open spec fn row_luma_sum(buffer: Seq<u8>, cam_width: int, x0: int, y: int, n: nat) -> int
    decreases n,
{
    if n == 0 {
        0
    } else {
        row_luma_sum(buffer, cam_width, x0, y, (n - 1) as nat) + pixel_luma(
            buffer,
            cam_width,
            x0 + n - 1,
            y,
        )
    }
}

/// The summed luminance of the `block_w × m` pixel block whose top-left
/// pixel is `(x0, y0)`.
pub open spec fn block_luma_sum(
    buffer: Seq<u8>,
    cam_width: int,
    x0: int,
    y0: int,
    block_w: nat,
    m: nat,
) -> int
    decreases m,
{
    if m == 0 {
        0
    } else {
        block_luma_sum(buffer, cam_width, x0, y0, block_w, (m - 1) as nat) + row_luma_sum(
            buffer,
            cam_width,
            x0,
            y0 + m - 1,
            block_w,
        )
    }
}

/// The block's average luminance: the truncated mean of its pixels'
/// luminances.
pub open spec fn block_avg_luma(
    buffer: Seq<u8>,
    cam_width: int,
    x0: int,
    y0: int,
    block_w: nat,
    block_h: nat,
) -> int {
    block_luma_sum(buffer, cam_width, x0, y0, block_w, block_h) / (block_w * block_h) as int
}

/// The ramp index a luminance value maps to:
/// `floor(luma * (ramp_len - 1) / 255)`.
pub open spec fn ramp_index(luma: int, ramp_len: int) -> int {
    luma * (ramp_len - 1) / 255
}

/// The glyph one block resolves to: its average luminance mapped into the
/// ramp.
pub open spec fn cell_glyph_spec(
    chars: Seq<u8>,
    buffer: Seq<u8>,
    cam_width: int,
    x0: int,
    y0: int,
    block_w: nat,
    block_h: nat,
) -> char {
    chars[ramp_index(block_avg_luma(buffer, cam_width, x0, y0, block_w, block_h), chars.len() as int)] as char
}

/// The glyph of output cell `(row, col)` for a grid of `out_w × out_h`
/// cells over a `cam_width × cam_height` frame, with block sizes given by
/// floor division.
pub open spec fn glyph_at(
    chars: Seq<u8>,
    buffer: Seq<u8>,
    cam_width: int,
    cam_height: int,
    out_w: int,
    out_h: int,
    row: int,
    col: int,
) -> char {
    let block_w = cam_width / out_w;
    let block_h = cam_height / out_h;
    cell_glyph_spec(
        chars,
        buffer,
        cam_width,
        col * block_w,
        row * block_h,
        block_w as nat,
        block_h as nat,
    )
}

/// Reads one pixel's three channel samples and returns its truncated mean
/// luminance.
fn pixel_luma_at(buffer: &[u8], cam_width: usize, cam_height: usize, x: usize, y: usize) -> (l: u32)
    requires
        buffer@.len() == 3 * cam_width * cam_height,
        x < cam_width,
        y < cam_height,
    ensures
        l == pixel_luma(buffer@, cam_width as int, x as int, y as int),
        l <= 255,
{
    // Binding the exec length teaches the prover that the byte count, and so
    // the pixel count, fits in usize.
    let _n = buffer.len();
    proof {
        lemma_mul_nonnegative(y as int, cam_width as int);
        assert(y * cam_width + x < cam_width * cam_height) by (nonlinear_arith)
            requires
                x < cam_width,
                y < cam_height,
        ;
        assert(3 * (cam_width * cam_height) == 3 * cam_width * cam_height) by (nonlinear_arith);
    }
    let idx = 3 * (y * cam_width + x);
    let r = buffer[idx] as u32;
    let g = buffer[idx + 1] as u32;
    let b = buffer[idx + 2] as u32;
    (r + g + b) / 3
}

/// Computes the glyph for one output cell: the truncated mean luminance of
/// its `block_w × block_h` source block, mapped into the ramp.
fn cell_glyph(
    chars: &[u8],
    buffer: &[u8],
    cam_width: usize,
    cam_height: usize,
    block_w: usize,
    block_h: usize,
    row: usize,
    col: usize,
) -> (g: char)
    requires
        1 <= chars@.len(),
        255 * (chars@.len() - 1) <= usize::MAX,
        buffer@.len() == 3 * cam_width * cam_height,
        1 <= block_w,
        1 <= block_h,
        (col + 1) * block_w <= cam_width,
        (row + 1) * block_h <= cam_height,
    ensures
        g == cell_glyph_spec(
            chars@,
            buffer@,
            cam_width as int,
            col * block_w,
            row * block_h,
            block_w as nat,
            block_h as nat,
        ),
{
    proof {
        assert((col + 1) * block_w == col * block_w + block_w) by (nonlinear_arith);
        assert((row + 1) * block_h == row * block_h + block_h) by (nonlinear_arith);
        lemma_mul_nonnegative(col as int, block_w as int);
        lemma_mul_nonnegative(row as int, block_h as int);
    }
    let x0 = col * block_w;
    let y0 = row * block_h;
    // Binding the exec length teaches the prover that the byte count, and so
    // the pixel count, fits in usize.
    let _n = buffer.len();
    let mut sum: u128 = 0;
    let mut j: usize = 0;
    proof {
        lemma_mul_nonnegative(cam_width as int, cam_height as int);
        assert(3 * (cam_width * cam_height) == 3 * cam_width * cam_height) by (nonlinear_arith);
        assert(block_w * block_h <= cam_width * cam_height) by (nonlinear_arith)
            requires
                1 <= block_w <= cam_width,
                1 <= block_h <= cam_height,
        ;
    }
    while j < block_h
        invariant
            buffer@.len() == 3 * cam_width * cam_height,
            cam_width * cam_height <= usize::MAX,
            1 <= block_w,
            1 <= block_h,
            x0 + block_w <= cam_width,
            y0 + block_h <= cam_height,
            j <= block_h,
            sum == block_luma_sum(
                buffer@,
                cam_width as int,
                x0 as int,
                y0 as int,
                block_w as nat,
                j as nat,
            ),
            sum <= 255 * (j * block_w),
        decreases block_h - j,
    {
        let mut i: usize = 0;
        proof {
            assert(j * block_w + block_w == (j + 1) * block_w) by (nonlinear_arith);
            assert((j + 1) * block_w <= block_h * block_w) by (nonlinear_arith)
                requires
                    j + 1 <= block_h,
                    0 <= block_w,
            ;
            assert(block_h * block_w <= cam_width * cam_height) by (nonlinear_arith)
                requires
                    1 <= block_w <= cam_width,
                    1 <= block_h <= cam_height,
            ;
        }
        while i < block_w
            invariant
                buffer@.len() == 3 * cam_width * cam_height,
                cam_width * cam_height <= usize::MAX,
                1 <= block_w,
                x0 + block_w <= cam_width,
                y0 + j < cam_height,
                i <= block_w,
                j * block_w + block_w <= cam_width * cam_height,
                sum == block_luma_sum(
                    buffer@,
                    cam_width as int,
                    x0 as int,
                    y0 as int,
                    block_w as nat,
                    j as nat,
                ) + row_luma_sum(
                    buffer@,
                    cam_width as int,
                    x0 as int,
                    y0 + j,
                    i as nat,
                ),
                sum <= 255 * (j * block_w + i),
            decreases block_w - i,
        {
            let l = pixel_luma_at(buffer, cam_width, cam_height, x0 + i, y0 + j);
            sum = sum + l as u128;
            i = i + 1;
        }
        j = j + 1;
    }
    proof {
        assert(block_w * block_h <= cam_width * cam_height) by (nonlinear_arith)
            requires
                1 <= block_w <= cam_width,
                1 <= block_h <= cam_height,
        ;
    }
    let count_us = block_w * block_h;
    proof {
        assert(block_w * block_h >= 1) by (nonlinear_arith)
            requires
                1 <= block_w,
                1 <= block_h,
        ;
        assert(block_h * block_w == block_w * block_h) by (nonlinear_arith);
        lemma_div_is_ordered(
            sum as int,
            255 * (block_w * block_h) as int,
            (block_w * block_h) as int,
        );
        lemma_div_multiples_vanish(255, (block_w * block_h) as int);
        assert((block_w * block_h) * 255 == 255 * (block_w * block_h)) by (nonlinear_arith);
    }
    let count = count_us as u128;
    let avg_wide = sum / count;
    let avg = avg_wide as usize;
    proof {
        lemma_mul_inequality(avg as int, 255, (chars@.len() - 1) as int);
        lemma_div_is_ordered(
            avg * (chars@.len() - 1),
            255 * (chars@.len() - 1),
            255,
        );
        lemma_div_multiples_vanish((chars@.len() - 1) as int, 255);
    }
    let index = avg * (chars.len() - 1) / 255;
    chars[index] as char
}

/// A finished glyph grid: dense, row-major over `out_w × out_h` cells, each
/// cell holding exactly the glyph its source block resolves to.
pub open spec fn grid_ok(
    chars: Seq<u8>,
    buffer: Seq<u8>,
    cam_width: int,
    cam_height: int,
    out_w: int,
    out_h: int,
    grid: Seq<char>,
) -> bool {
    &&& grid.len() == out_w * out_h
    &&& forall|row: int, col: int|
        0 <= row < out_h && 0 <= col < out_w ==> grid[row * out_w + col] == #[trigger] glyph_at(
            chars,
            buffer,
            cam_width,
            cam_height,
            out_w,
            out_h,
            row,
            col,
        )
}

/// On a uniform frame, one block row sums to `n` times the pixel value.
proof fn lemma_uniform_row_sum(
    buffer: Seq<u8>,
    cam_width: int,
    cam_height: int,
    v: u8,
    x0: int,
    y: int,
    n: nat,
)
    requires
        buffer.len() == 3 * (cam_width * cam_height),
        forall|i: int| 0 <= i < buffer.len() ==> buffer[i] == v,
        0 <= x0,
        x0 + n <= cam_width,
        0 <= y < cam_height,
    ensures
        row_luma_sum(buffer, cam_width, x0, y, n) == n * (v as int),
    decreases n,
{
    if n > 0 {
        lemma_uniform_row_sum(buffer, cam_width, cam_height, v, x0, y, (n - 1) as nat);
        let x = x0 + n - 1;
        lemma_mul_nonnegative(y, cam_width);
        assert(y * cam_width + x < cam_width * cam_height) by (nonlinear_arith)
            requires
                0 <= x < cam_width,
                0 <= y < cam_height,
        ;
        assert(pixel_luma(buffer, cam_width, x, y) == v);
        assert(n * (v as int) == (n - 1) * (v as int) + v) by (nonlinear_arith);
    } else {
        assert(n * (v as int) == 0) by (nonlinear_arith)
            requires
                n == 0,
        ;
    }
}

/// On a uniform frame, one block sums to its pixel count times the pixel
/// value.
proof fn lemma_uniform_block_sum(
    buffer: Seq<u8>,
    cam_width: int,
    cam_height: int,
    v: u8,
    x0: int,
    y0: int,
    block_w: nat,
    m: nat,
)
    requires
        buffer.len() == 3 * (cam_width * cam_height),
        forall|i: int| 0 <= i < buffer.len() ==> buffer[i] == v,
        0 <= x0,
        0 <= y0,
        x0 + block_w <= cam_width,
        y0 + m <= cam_height,
    ensures
        block_luma_sum(buffer, cam_width, x0, y0, block_w, m) == (m * block_w) * (v as int),
    decreases m,
{
    if m > 0 {
        lemma_uniform_block_sum(
            buffer,
            cam_width,
            cam_height,
            v,
            x0,
            y0,
            block_w,
            (m - 1) as nat,
        );
        lemma_uniform_row_sum(buffer, cam_width, cam_height, v, x0, y0 + m - 1, block_w);
        assert((m * block_w) * (v as int) == ((m - 1) * block_w) * (v as int) + block_w * (
        v as int)) by (nonlinear_arith);
    } else {
        assert((m * block_w) * (v as int) == 0) by (nonlinear_arith)
            requires
                m == 0,
        ;
    }
}

/// Law: on a frame where every byte holds the same value `v`, every output
/// cell resolves to `chars[v * (chars.len() - 1) / 255]`, whatever the
/// output dimension, as long as each block holds at least one pixel.
pub proof fn lemma_uniform_frame(
    chars: Seq<u8>,
    buffer: Seq<u8>,
    cam_width: int,
    cam_height: int,
    out_w: int,
    out_h: int,
    v: u8,
)
    requires
        1 <= chars.len(),
        buffer.len() == 3 * (cam_width * cam_height),
        forall|i: int| 0 <= i < buffer.len() ==> buffer[i] == v,
        1 <= out_w <= cam_width,
        1 <= out_h <= cam_height,
    ensures
        forall|row: int, col: int|
            0 <= row < out_h && 0 <= col < out_w ==> #[trigger] glyph_at(
                chars,
                buffer,
                cam_width,
                cam_height,
                out_w,
                out_h,
                row,
                col,
            ) == chars[(v as int) * (chars.len() - 1) / 255] as char,
{
    let block_w = cam_width / out_w;
    let block_h = cam_height / out_h;
    lemma_div_non_zero(cam_width, out_w);
    lemma_div_non_zero(cam_height, out_h);
    lemma_fundamental_div_mod(cam_width, out_w);
    lemma_fundamental_div_mod(cam_height, out_h);
    assert(out_w * block_w <= cam_width) by (nonlinear_arith)
        requires
            cam_width == out_w * (cam_width / out_w) + cam_width % out_w,
            block_w == cam_width / out_w,
            0 <= cam_width % out_w,
    ;
    assert(out_h * block_h <= cam_height) by (nonlinear_arith)
        requires
            cam_height == out_h * (cam_height / out_h) + cam_height % out_h,
            block_h == cam_height / out_h,
            0 <= cam_height % out_h,
    ;
    assert forall|row: int, col: int| 0 <= row < out_h && 0 <= col < out_w implies #[trigger] glyph_at(
        chars,
        buffer,
        cam_width,
        cam_height,
        out_w,
        out_h,
        row,
        col,
    ) == chars[(v as int) * (chars.len() - 1) / 255] as char by {
        let x0 = col * block_w;
        let y0 = row * block_h;
        lemma_mul_nonnegative(col, block_w);
        lemma_mul_nonnegative(row, block_h);
        lemma_mul_inequality(col + 1, out_w, block_w);
        lemma_mul_inequality(row + 1, out_h, block_h);
        assert((col + 1) * block_w == col * block_w + block_w) by (nonlinear_arith);
        assert((row + 1) * block_h == row * block_h + block_h) by (nonlinear_arith);
        lemma_uniform_block_sum(
            buffer,
            cam_width,
            cam_height,
            v,
            x0,
            y0,
            block_w as nat,
            block_h as nat,
        );
        let count = block_w * block_h;
        assert(block_w * block_h >= 1) by (nonlinear_arith)
            requires
                block_w >= 1,
                block_h >= 1,
        ;
        assert((block_h * block_w) * (v as int) == (block_w * block_h) * (v as int))
            by (nonlinear_arith);
        lemma_div_multiples_vanish(v as int, count);
        assert(block_avg_luma(buffer, cam_width, x0, y0, block_w as nat, block_h as nat)
            == v as int);
    }
}

/// Law: a finished grid over a uniform frame holds the one glyph
/// `chars[v * (chars.len() - 1) / 255]` in every cell, whatever the output
/// dimension, as long as each block holds at least one pixel.
pub proof fn lemma_uniform_frame_grid(
    chars: Seq<u8>,
    buffer: Seq<u8>,
    cam_width: int,
    cam_height: int,
    out_w: int,
    out_h: int,
    grid: Seq<char>,
    v: u8,
)
    requires
        1 <= chars.len(),
        buffer.len() == 3 * (cam_width * cam_height),
        forall|i: int| 0 <= i < buffer.len() ==> buffer[i] == v,
        1 <= out_w <= cam_width,
        1 <= out_h <= cam_height,
        grid_ok(chars, buffer, cam_width, cam_height, out_w, out_h, grid),
    ensures
        forall|i: int|
            0 <= i < grid.len() ==> #[trigger] grid[i] == chars[(v as int) * (chars.len() - 1)
                / 255] as char,
{
    lemma_uniform_frame(chars, buffer, cam_width, cam_height, out_w, out_h, v);
    assert forall|i: int| 0 <= i < grid.len() implies #[trigger] grid[i] == chars[(v as int) * (
    chars.len() - 1) / 255] as char by {
        let row = i / out_w;
        let col = i % out_w;
        lemma_fundamental_div_mod(i, out_w);
        lemma_mod_division_less_than_divisor(i, out_w);
        lemma_div_pos_is_pos(i, out_w);
        lemma_multiply_divide_lt(i, out_w, out_h);
        assert(row * out_w == out_w * row) by (nonlinear_arith);
        assert(grid[row * out_w + col] == glyph_at(
            chars,
            buffer,
            cam_width,
            cam_height,
            out_w,
            out_h,
            row,
            col,
        ));
    }
}

/// Translates a raw frame into a glyph grid for a known output dimension.
///
/// Returns the dense row-major grid of `dim.width * dim.height` glyphs, one
/// per block of `cam_width / dim.width × cam_height / dim.height` source
/// pixels; remainder pixels past the last full block are excluded from every
/// average. Fails exactly when the grid has zero area or exceeds the frame.
pub fn translate_frame(
    chars: &[u8],
    dim: Dim,
    buffer: &[u8],
    cam_width: usize,
    cam_height: usize,
) -> (r: Result<Vec<char>, PreconditionError>)
    requires
        1 <= chars@.len(),
        255 * (chars@.len() - 1) <= usize::MAX,
        buffer@.len() == 3 * cam_width * cam_height,
    ensures
        match r {
            Ok(grid) => {
                &&& 1 <= dim.width as int <= cam_width
                &&& 1 <= dim.height as int <= cam_height
                &&& grid_ok(
                    chars@,
                    buffer@,
                    cam_width as int,
                    cam_height as int,
                    dim.width as int,
                    dim.height as int,
                    grid@,
                )
            },
            Err(PreconditionError::ZeroAreaGrid) => dim.width == 0 || dim.height == 0,
            Err(PreconditionError::FrameTooSmall) => {
                &&& dim.width >= 1
                &&& dim.height >= 1
                &&& (cam_width < dim.width as int || cam_height < dim.height as int)
            },
        },
{
    let out_w = dim.width as usize;
    let out_h = dim.height as usize;
    if out_w == 0 || out_h == 0 {
        return Err(PreconditionError::ZeroAreaGrid);
    }
    if cam_width < out_w || cam_height < out_h {
        return Err(PreconditionError::FrameTooSmall);
    }
    let block_w = cam_width / out_w;
    let block_h = cam_height / out_h;
    // Binding the exec length teaches the prover that the byte count, and so
    // the pixel count, fits in usize.
    let _n = buffer.len();
    proof {
        lemma_div_non_zero(cam_width as int, out_w as int);
        lemma_div_non_zero(cam_height as int, out_h as int);
        lemma_fundamental_div_mod(cam_width as int, out_w as int);
        lemma_fundamental_div_mod(cam_height as int, out_h as int);
        lemma_mul_nonnegative(cam_width as int, cam_height as int);
        assert(3 * (cam_width * cam_height) == 3 * cam_width * cam_height) by (nonlinear_arith);
        assert(out_w * block_w <= cam_width) by (nonlinear_arith)
            requires
                cam_width == out_w * (cam_width as int / out_w as int) + cam_width as int
                    % out_w as int,
                block_w == cam_width as int / out_w as int,
                0 <= cam_width as int % out_w as int,
        ;
        assert(out_h * block_h <= cam_height) by (nonlinear_arith)
            requires
                cam_height == out_h * (cam_height as int / out_h as int) + cam_height as int
                    % out_h as int,
                block_h == cam_height as int / out_h as int,
                0 <= cam_height as int % out_h as int,
        ;
        assert(out_w * out_h <= cam_width * cam_height) by (nonlinear_arith)
            requires
                1 <= out_w <= cam_width,
                1 <= out_h <= cam_height,
        ;
    }
    let mut grid: Vec<char> = Vec::new();
    let mut row: usize = 0;
    while row < out_h
        invariant
            1 <= chars@.len(),
            255 * (chars@.len() - 1) <= usize::MAX,
            buffer@.len() == 3 * cam_width * cam_height,
            cam_width * cam_height <= usize::MAX,
            1 <= out_w <= cam_width,
            1 <= out_h <= cam_height,
            out_w * out_h <= cam_width * cam_height,
            block_w == cam_width as int / out_w as int,
            block_h == cam_height as int / out_h as int,
            1 <= block_w,
            1 <= block_h,
            out_w * block_w <= cam_width,
            out_h * block_h <= cam_height,
            row <= out_h,
            grid@.len() == row * out_w,
            forall|k: int|
                0 <= k < grid@.len() ==> #[trigger] grid@[k] == glyph_at(
                    chars@,
                    buffer@,
                    cam_width as int,
                    cam_height as int,
                    out_w as int,
                    out_h as int,
                    k / (out_w as int),
                    k % (out_w as int),
                ),
        decreases out_h - row,
    {
        let mut col: usize = 0;
        proof {
            assert(row * out_w + out_w == (row + 1) * out_w) by (nonlinear_arith);
            lemma_mul_inequality(row as int + 1, out_h as int, out_w as int);
            assert(out_h * out_w == out_w * out_h) by (nonlinear_arith);
            lemma_mul_inequality(row as int + 1, out_h as int, block_h as int);
        }
        while col < out_w
            invariant
                1 <= chars@.len(),
                255 * (chars@.len() - 1) <= usize::MAX,
                buffer@.len() == 3 * cam_width * cam_height,
                cam_width * cam_height <= usize::MAX,
                1 <= out_w <= cam_width,
                1 <= out_h <= cam_height,
                block_w == cam_width as int / out_w as int,
                block_h == cam_height as int / out_h as int,
                1 <= block_w,
                1 <= block_h,
                out_w * block_w <= cam_width,
                row < out_h,
                (row + 1) * block_h <= out_h * block_h <= cam_height,
                col <= out_w,
                row * out_w + out_w <= out_w * out_h <= cam_width * cam_height,
                grid@.len() == row * out_w + col,
                forall|k: int|
                    0 <= k < grid@.len() ==> #[trigger] grid@[k] == glyph_at(
                        chars@,
                        buffer@,
                        cam_width as int,
                        cam_height as int,
                        out_w as int,
                        out_h as int,
                        k / (out_w as int),
                        k % (out_w as int),
                    ),
            decreases out_w - col,
        {
            proof {
                lemma_mul_inequality(col as int + 1, out_w as int, block_w as int);
            }
            let g = cell_glyph(chars, buffer, cam_width, cam_height, block_w, block_h, row, col);
            grid.push(g);
            proof {
                let k0 = (row * out_w + col) as int;
                lemma_fundamental_div_mod_converse(
                    k0,
                    out_w as int,
                    row as int,
                    col as int,
                );
            }
            col = col + 1;
        }
        row = row + 1;
    }
    proof {
        assert(out_h * out_w == out_w * out_h) by (nonlinear_arith);
        assert forall|r: int, c: int| 0 <= r < out_h && 0 <= c < out_w implies grid@[r * (
        out_w as int) + c] == glyph_at(
            chars@,
            buffer@,
            cam_width as int,
            cam_height as int,
            out_w as int,
            out_h as int,
            r,
            c,
        ) by {
            let k = r * (out_w as int) + c;
            lemma_mul_nonnegative(r, out_w as int);
            lemma_mul_inequality(r + 1, out_h as int, out_w as int);
            assert((r + 1) * out_w == r * out_w + out_w) by (nonlinear_arith);
            lemma_fundamental_div_mod_converse(k, out_w as int, r, c);
        }
    }
    Ok(grid)
}

/// Translates a raw interleaved 3-channel frame into a glyph grid sized to
/// the canvas' current dimension, by block-averaging luminance per output
/// cell and indexing into the glyph ramp.
///
/// The canvas dimension is queried afresh on every call, so any returned
/// grid matches some dimension the canvas reported: its cells are exactly
/// the block-averaged glyphs for that dimension.
pub fn translate_rgb<C: Canvas>(
    chars: &[u8],
    canvas: &C,
    buffer: &[u8],
    cam_width: usize,
    cam_height: usize,
) -> (r: Result<Vec<char>, PreconditionError>)
    requires
        1 <= chars@.len(),
        255 * (chars@.len() - 1) <= usize::MAX,
        buffer@.len() == 3 * cam_width * cam_height,
    ensures
        match r {
            Ok(grid) => exists|out_w: int, out_h: int|
                {
                    &&& 1 <= out_w <= cam_width
                    &&& 1 <= out_h <= cam_height
                    &&& grid_ok(
                        chars@,
                        buffer@,
                        cam_width as int,
                        cam_height as int,
                        out_w,
                        out_h,
                        grid@,
                    )
                },
            Err(_) => true,
        },
{
    let dim = canvas.dim();
    let r = translate_frame(chars, dim, buffer, cam_width, cam_height);
    proof {
        if r is Ok {
            assert(grid_ok(
                chars@,
                buffer@,
                cam_width as int,
                cam_height as int,
                dim.width as int,
                dim.height as int,
                r->Ok_0@,
            ));
        }
    }
    r
}

} // verus!
