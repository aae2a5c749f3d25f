//! One rectangular tile of an image, and how it is filled.

use vstd::prelude::*;
use crate::raster::{lemma_index_in_buffer, lemma_index_reading_order, pixel_count, pixel_index};

verus! {

/// A rectangle of pixels: the rows `row_start..row_end` and the columns
/// `col_start..col_end`, both half-open.
#[derive(Clone, Copy, Debug, PartialEq, Eq, Structural)]
pub struct Tile {
    pub row_start: u32,
    pub row_end: u32,
    pub col_start: u32,
    pub col_end: u32,
}

/// Reading order on pixels: (`row_a`, `col_a`) comes before (`row_b`, `col_b`).
pub open spec fn reads_before(row_a: u32, col_a: u32, row_b: int, col_b: int) -> bool {
    row_a < row_b || (row_a == row_b && col_a < col_b)
}

impl Tile {
    /// Both ranges are well-formed (possibly empty).
    pub open spec fn wf(&self) -> bool {
        self.row_start <= self.row_end && self.col_start <= self.col_end
    }

    /// The pixel at (`row`, `col`) lies in this tile.
    pub open spec fn contains(&self, row: u32, col: u32) -> bool {
        self.row_start <= row < self.row_end && self.col_start <= col < self.col_end
    }

    /// Number of columns.
    pub open spec fn spec_width(&self) -> int {
        self.col_end - self.col_start
    }

    /// Number of rows.
    pub open spec fn spec_height(&self) -> int {
        self.row_end - self.row_start
    }

    /// Number of pixels.
    pub open spec fn spec_area(&self) -> int {
        self.spec_width() * self.spec_height()
    }

    /// Position of the pixel at (`row`, `col`) in the tile's own row-major
    /// buffer, which starts at the tile's first row and column.
    pub open spec fn local_index(&self, row: u32, col: u32) -> int {
        pixel_index(self.spec_width(), row - self.row_start, col - self.col_start)
    }

    /// A pixel of the tile has its place inside the tile's buffer.
    pub proof fn lemma_local_index_in_buffer(&self, row: u32, col: u32)
        requires
            self.contains(row, col),
        ensures
            0 <= self.local_index(row, col) < self.spec_area(),
    {
        lemma_index_in_buffer(
            self.spec_width(),
            self.spec_height(),
            row - self.row_start,
            col - self.col_start,
        );
    }

    /// `out` holds, in the tile's own row-major order, an intensity that
    /// `shade` returns for each pixel of the tile, and nothing else.
    pub open spec fn is_shading<F: Fn(u32, u32) -> u8>(&self, shade: F, out: Seq<u8>) -> bool {
        &&& out.len() == self.spec_area()
        &&& forall|row: u32, col: u32|
            self.contains(row, col) ==> call_ensures(
                shade,
                (row, col),
                #[trigger] out[self.local_index(row, col)],
            )
    }

    /// Number of pixels.
    pub fn area(&self) -> (n: usize)
        requires
            self.wf(),
            self.spec_area() <= usize::MAX,
        ensures
            n == self.spec_area(),
    {
        let columns: u32 = self.col_end - self.col_start;
        let rows: u32 = self.row_end - self.row_start;
        let n: u64 = pixel_count(columns, rows);
        n as usize
    }

    /// Fills the tile: calls `shade` once for each pixel, row by row, and
    /// returns the intensities in the tile's own row-major order.
    pub fn shade<F: Fn(u32, u32) -> u8>(&self, shade: &F) -> (out: Vec<u8>)
        requires
            self.wf(),
            self.spec_area() <= usize::MAX,
            forall|row: u32, col: u32|
                self.contains(row, col) ==> #[trigger] call_requires(*shade, (row, col)),
        ensures
            self.is_shading(*shade, out@),
    {
        let ghost w = self.spec_width();
        let mut out: Vec<u8> = Vec::new();
        let mut row: u32 = self.row_start;
        while row < self.row_end
            invariant
                self.wf(),
                w == self.spec_width(),
                self.row_start <= row <= self.row_end,
                out@.len() == w * (row - self.row_start),
                forall|r: u32, c: u32|
                    self.contains(r, c) ==> #[trigger] call_requires(*shade, (r, c)),
                forall|r: u32, c: u32|
                    self.contains(r, c) && r < row ==> call_ensures(
                        *shade,
                        (r, c),
                        #[trigger] out@[self.local_index(r, c)],
                    ),
            decreases self.row_end - row,
        {
            let mut col: u32 = self.col_start;
            while col < self.col_end
                invariant
                    self.wf(),
                    w == self.spec_width(),
                    self.row_start <= row < self.row_end,
                    self.col_start <= col <= self.col_end,
                    out@.len() == pixel_index(w, row - self.row_start, col - self.col_start),
                    forall|r: u32, c: u32|
                        self.contains(r, c) ==> #[trigger] call_requires(*shade, (r, c)),
                    forall|r: u32, c: u32|
                        self.contains(r, c) && reads_before(r, c, row as int, col as int)
                            ==> call_ensures(
                            *shade,
                            (r, c),
                            #[trigger] out@[self.local_index(r, c)],
                        ),
                decreases self.col_end - col,
            {
                let value: u8 = shade(row, col);
                let ghost before = out@;
                out.push(value);
                proof {
                    assert forall|r: u32, c: u32|
                        self.contains(r, c) && reads_before(
                            r,
                            c,
                            row as int,
                            col + 1,
                        ) implies call_ensures(
                        *shade,
                        (r, c),
                        #[trigger] out@[self.local_index(r, c)],
                    ) by {
                        if r == row && c == col {
                            assert(out@[self.local_index(r, c)] == value);
                        } else {
                            lemma_index_reading_order(
                                w,
                                r - self.row_start,
                                c - self.col_start,
                                row - self.row_start,
                                col - self.col_start,
                            );
                            assert(out@[self.local_index(r, c)] == before[self.local_index(r, c)]);
                        }
                    }
                }
                col += 1;
            }
            proof {
                assert(w * (row - self.row_start) + w == w * (row + 1 - self.row_start))
                    by (nonlinear_arith);
            }
            row += 1;
        }
        out
    }
}

} // verus!
