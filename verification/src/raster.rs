//! The row-major layout of an image buffer: one byte per pixel, the pixel
//! at (`row`, `col`) stored at `col + width * row`.

use vstd::prelude::*;

verus! {

/// Position of the pixel at (`row`, `col`) in a row-major buffer whose rows
/// hold `width` pixels.
pub open spec fn pixel_index(width: int, row: int, col: int) -> int {
    col + width * row
}

/// The intensity that a row-major buffer holds for the pixel at (`row`,
/// `col`) of an image with `width` pixels per row.
pub open spec fn pixel_at(buf: Seq<u8>, width: u32, row: u32, col: u32) -> u8 {
    buf[pixel_index(width as int, row as int, col as int)]
}

/// A pixel inside a `width` × `height` image has its position inside a
/// buffer of `width * height` entries.
pub proof fn lemma_index_in_buffer(width: int, height: int, row: int, col: int)
    requires
        0 <= row < height,
        0 <= col < width,
    ensures
        0 <= pixel_index(width, row, col) < width * height,
{
    assert(0 <= width * row) by (nonlinear_arith)
        requires
            0 <= row,
            0 <= width,
    ;
    assert(width * row + width <= width * height) by (nonlinear_arith)
        requires
            row + 1 <= height,
            0 <= width,
    ;
}

/// Positions follow reading order: a pixel in an earlier row, or earlier in
/// the same row, has the smaller position.
pub proof fn lemma_index_reading_order(width: int, row_a: int, col_a: int, row_b: int, col_b: int)
    requires
        0 <= col_a < width,
        0 <= col_b < width,
        row_a < row_b || (row_a == row_b && col_a < col_b),
    ensures
        pixel_index(width, row_a, col_a) < pixel_index(width, row_b, col_b),
{
    if row_a < row_b {
        assert(width * row_a + width <= width * row_b) by (nonlinear_arith)
            requires
                row_a + 1 <= row_b,
                0 <= width,
        ;
    }
}

/// Two pixels of one image never share a position.
pub proof fn lemma_index_injective(width: int, row_a: int, col_a: int, row_b: int, col_b: int)
    requires
        0 <= col_a < width,
        0 <= col_b < width,
        pixel_index(width, row_a, col_a) == pixel_index(width, row_b, col_b),
    ensures
        row_a == row_b,
        col_a == col_b,
{
    if row_a < row_b || (row_a == row_b && col_a < col_b) {
        lemma_index_reading_order(width, row_a, col_a, row_b, col_b);
    } else if row_b < row_a || (row_a == row_b && col_b < col_a) {
        lemma_index_reading_order(width, row_b, col_b, row_a, col_a);
    }
}

/// Every position of the buffer belongs to a pixel: the one in row
/// `k / width`, column `k % width`.
pub proof fn lemma_index_surjective(width: int, height: int, k: int)
    requires
        0 <= k < width * height,
        0 <= width,
        0 <= height,
    ensures
        width > 0,
        0 <= k / width < height,
        0 <= k % width < width,
        pixel_index(width, k / width, k % width) == k,
{
    assert(width > 0) by (nonlinear_arith)
        requires
            0 <= k < width * height,
            0 <= width,
    ;
    vstd::arithmetic::div_mod::lemma_fundamental_div_mod(k, width);
    vstd::arithmetic::div_mod::lemma_mod_bound(k, width);
    vstd::arithmetic::div_mod::lemma_div_pos_is_pos(k, width);
    let q = k / width;
    assert(q < height) by (nonlinear_arith)
        requires
            width * q <= k,
            k < width * height,
            0 < width,
    ;
}

/// Number of pixels of a `width` × `height` image.
pub fn pixel_count(width: u32, height: u32) -> (n: u64)
    ensures
        n == width * height,
{
    proof {
        assert(width * height <= 0xFFFF_FFFF * 0xFFFF_FFFF) by (nonlinear_arith)
            requires
                0 <= width <= 0xFFFF_FFFF,
                0 <= height <= 0xFFFF_FFFF,
        ;
    }
    (width as u64) * (height as u64)
}

/// A buffer for a `width` × `height` image with every intensity zero.
pub fn blank_buffer(width: u32, height: u32) -> (buf: Vec<u8>)
    requires
        width * height <= usize::MAX,
    ensures
        buf@.len() == width * height,
        forall|k: int| 0 <= k < buf@.len() ==> buf@[k] == 0u8,
{
    let total: u64 = pixel_count(width, height);
    let mut buf: Vec<u8> = Vec::new();
    let mut k: u64 = 0;
    while k < total
        invariant
            k <= total,
            buf@.len() == k,
            forall|m: int| 0 <= m < buf@.len() ==> buf@[m] == 0u8,
        decreases total - k,
    {
        buf.push(0u8);
        k += 1;
    }
    buf
}

/// Position of the pixel at (`row`, `col`) in the buffer of a
/// `width` × `height` image.
pub fn buffer_index(width: u32, height: u32, row: u32, col: u32) -> (k: usize)
    requires
        row < height,
        col < width,
        width * height <= usize::MAX,
    ensures
        k == pixel_index(width as int, row as int, col as int),
        k < width * height,
{
    proof {
        lemma_index_in_buffer(width as int, height as int, row as int, col as int);
        assert(0 <= width * row) by (nonlinear_arith)
            requires
                0 <= row,
                0 <= width,
        ;
    }
    (col as usize) + (width as usize) * (row as usize)
}

} // verus!
