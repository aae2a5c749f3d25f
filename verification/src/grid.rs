//! The grid of tiles that an image is cut into.
//!
//! Every tile of a grid has the same size: the image's width divided by the
//! number of tile columns, and its height divided by the number of tile
//! rows, both rounded down. Pixels beyond the last full tile belong to no
//! tile.

use vstd::prelude::*;
use vstd::arithmetic::div_mod::{
    lemma_div_pos_is_pos,
    lemma_fundamental_div_mod,
    lemma_fundamental_div_mod_converse,
    lemma_mod_bound,
};
use crate::raster::{lemma_index_reading_order, pixel_count, pixel_index};
use crate::tile::{reads_before, Tile};

verus! {

/// An image size together with the number of tile columns and tile rows.
#[derive(Clone, Copy, Debug, PartialEq, Eq, Structural)]
pub struct TileGrid {
    pub width: u32,
    pub height: u32,
    pub tiles_x: u32,
    pub tiles_y: u32,
}

/// Why a grid was refused.
#[derive(Clone, Copy, Debug, PartialEq, Eq, Structural)]
pub enum GridError {
    /// The grid has no tile column or no tile row.
    NoTiles,
    /// The pixels or the tiles are more than this machine can address.
    TooLarge,
}

/// `a * (b + 1)` is `a * b + a`, and both grow with `b`.
proof fn lemma_scaled_step(a: int, b: int, n: int)
    requires
        0 <= a,
        0 <= b < n,
    ensures
        0 <= a * b,
        a * b + a == a * (b + 1),
        a * b + a <= a * n,
{
    assert(0 <= a * b) by (nonlinear_arith)
        requires
            0 <= a,
            0 <= b,
    ;
    assert(a * b + a == a * (b + 1)) by (nonlinear_arith);
    assert(a * (b + 1) <= a * n) by (nonlinear_arith)
        requires
            0 <= a,
            b + 1 <= n,
    ;
}

/// `size / parts` pieces of equal size, `parts` times, fit into `size`, and
/// fill it where `parts` divides `size`.
proof fn lemma_pieces_fit(size: int, parts: int)
    requires
        0 <= size,
        0 < parts,
    ensures
        0 <= size / parts,
        (size / parts) * parts <= size,
        size % parts == 0 ==> (size / parts) * parts == size,
{
    lemma_fundamental_div_mod(size, parts);
    lemma_mod_bound(size, parts);
    lemma_div_pos_is_pos(size, parts);
    assert((size / parts) * parts == parts * (size / parts)) by (nonlinear_arith);
}

/// The only piece of size `piece` that holds `x` is piece number `x / piece`.
proof fn lemma_piece_of(x: int, piece: int, k: int)
    requires
        0 <= x,
        0 <= k,
        piece * k <= x < piece * k + piece,
    ensures
        piece > 0,
        k == x / piece,
{
    assert(x == k * piece + (x - piece * k)) by (nonlinear_arith);
    lemma_fundamental_div_mod_converse(x, piece, k, x - piece * k);
}

impl TileGrid {
    /// The grid has at least one tile, and its pixels and its tiles can be
    /// counted in a `usize`.
    pub open spec fn wf(&self) -> bool {
        &&& self.tiles_x > 0
        &&& self.tiles_y > 0
        &&& self.width * self.height <= usize::MAX
        &&& self.tiles_x * self.tiles_y <= usize::MAX
    }

    /// Columns per tile.
    pub open spec fn spec_tile_width(&self) -> int {
        self.width as int / self.tiles_x as int
    }

    /// Rows per tile.
    pub open spec fn spec_tile_height(&self) -> int {
        self.height as int / self.tiles_y as int
    }

    /// The tile in tile column `i` and tile row `j`.
    pub open spec fn spec_tile(&self, i: u32, j: u32) -> Tile {
        Tile {
            row_start: (self.spec_tile_height() * j) as u32,
            row_end: (self.spec_tile_height() * j + self.spec_tile_height()) as u32,
            col_start: (self.spec_tile_width() * i) as u32,
            col_end: (self.spec_tile_width() * i + self.spec_tile_width()) as u32,
        }
    }

    /// The tile column that holds the pixel column `col`, if any does.
    pub open spec fn tile_column_of(&self, col: u32) -> int {
        col as int / self.spec_tile_width()
    }

    /// The tile row that holds the pixel row `row`, if any does.
    pub open spec fn tile_row_of(&self, row: u32) -> int {
        row as int / self.spec_tile_height()
    }

    /// The pixel at (`row`, `col`) lies in the part of the image that the
    /// tiles reach.
    pub open spec fn covers(&self, row: u32, col: u32) -> bool {
        col < self.spec_tile_width() * self.tiles_x && row < self.spec_tile_height() * self.tiles_y
    }

    /// The tile columns divide the width and the tile rows the height.
    pub open spec fn spec_divides_evenly(&self) -> bool {
        self.width as int % self.tiles_x as int == 0 && self.height as int % self.tiles_y as int
            == 0
    }

    /// Place of the tile (`i`, `j`) in launch order: tile columns one after
    /// the other, each from its first tile row to its last.
    pub open spec fn launch_position(&self, i: u32, j: u32) -> int {
        pixel_index(self.tiles_y as int, i as int, j as int)
    }

    /// Where each tile of the grid begins and ends: inside the image, with
    /// an area that a `usize` holds.
    pub proof fn lemma_tile_extent(&self, i: u32, j: u32)
        requires
            self.wf(),
            i < self.tiles_x,
            j < self.tiles_y,
        ensures
            self.spec_tile(i, j).wf(),
            self.spec_tile(i, j).col_start == self.spec_tile_width() * i,
            self.spec_tile(i, j).col_end == self.spec_tile_width() * i + self.spec_tile_width(),
            self.spec_tile(i, j).row_start == self.spec_tile_height() * j,
            self.spec_tile(i, j).row_end == self.spec_tile_height() * j + self.spec_tile_height(),
            self.spec_tile(i, j).col_end <= self.spec_tile_width() * self.tiles_x <= self.width,
            self.spec_tile(i, j).row_end <= self.spec_tile_height() * self.tiles_y <= self.height,
            self.spec_tile(i, j).spec_width() == self.spec_tile_width(),
            self.spec_tile(i, j).spec_height() == self.spec_tile_height(),
            self.spec_tile(i, j).spec_area() <= self.width * self.height,
    {
        let tw = self.spec_tile_width();
        let th = self.spec_tile_height();
        lemma_pieces_fit(self.width as int, self.tiles_x as int);
        lemma_pieces_fit(self.height as int, self.tiles_y as int);
        lemma_scaled_step(tw, i as int, self.tiles_x as int);
        lemma_scaled_step(th, j as int, self.tiles_y as int);
        assert(tw * th <= self.width * self.height) by (nonlinear_arith)
            requires
                0 <= tw <= self.width,
                0 <= th <= self.height,
        ;
        assert(tw <= self.width && th <= self.height) by (nonlinear_arith)
            requires
                0 <= tw,
                0 <= th,
                tw * self.tiles_x <= self.width,
                th * self.tiles_y <= self.height,
                self.tiles_x >= 1,
                self.tiles_y >= 1,
        ;
    }

    /// A pixel lies in the tile (`i`, `j`) exactly if `i` is its column
    /// divided by the tile width and `j` its row divided by the tile
    /// height, and the grid covers the pixel.
    pub proof fn lemma_tile_of_pixel(&self, i: u32, j: u32, row: u32, col: u32)
        requires
            self.wf(),
            i < self.tiles_x,
            j < self.tiles_y,
        ensures
            self.spec_tile(i, j).contains(row, col) <==> {
                &&& self.covers(row, col)
                &&& i == self.tile_column_of(col)
                &&& j == self.tile_row_of(row)
            },
    {
        let tw = self.spec_tile_width();
        let th = self.spec_tile_height();
        self.lemma_tile_extent(i, j);
        if self.spec_tile(i, j).contains(row, col) {
            lemma_piece_of(col as int, tw, i as int);
            lemma_piece_of(row as int, th, j as int);
        }
        if self.covers(row, col) && i == col as int / tw && j == row as int / th {
            assert(tw > 0 && th > 0) by (nonlinear_arith)
                requires
                    col < tw * self.tiles_x,
                    row < th * self.tiles_y,
                    0 <= tw,
                    0 <= th,
            ;
            lemma_fundamental_div_mod(col as int, tw);
            lemma_mod_bound(col as int, tw);
            lemma_fundamental_div_mod(row as int, th);
            lemma_mod_bound(row as int, th);
        }
    }

    /// Every pixel that the grid covers lies in exactly one tile, and a
    /// pixel that it does not cover lies in none.
    pub proof fn lemma_one_tile_per_pixel(&self, row: u32, col: u32)
        requires
            self.wf(),
        ensures
            self.covers(row, col) ==> {
                &&& self.tile_column_of(col) < self.tiles_x
                &&& self.tile_row_of(row) < self.tiles_y
                &&& self.spec_tile(
                    (self.tile_column_of(col)) as u32,
                    (self.tile_row_of(row)) as u32,
                ).contains(row, col)
            },
            forall|i: u32, j: u32|
                i < self.tiles_x && j < self.tiles_y && #[trigger] self.spec_tile(i, j).contains(
                    row,
                    col,
                ) ==> {
                    &&& self.covers(row, col)
                    &&& i == self.tile_column_of(col)
                    &&& j == self.tile_row_of(row)
                },
    {
        let tw = self.spec_tile_width();
        let th = self.spec_tile_height();
        lemma_pieces_fit(self.width as int, self.tiles_x as int);
        lemma_pieces_fit(self.height as int, self.tiles_y as int);
        if self.covers(row, col) {
            assert(tw > 0 && th > 0) by (nonlinear_arith)
                requires
                    col < tw * self.tiles_x,
                    row < th * self.tiles_y,
                    0 <= tw,
                    0 <= th,
            ;
            lemma_fundamental_div_mod(col as int, tw);
            lemma_mod_bound(col as int, tw);
            lemma_div_pos_is_pos(col as int, tw);
            lemma_fundamental_div_mod(row as int, th);
            lemma_mod_bound(row as int, th);
            lemma_div_pos_is_pos(row as int, th);
            let i = col as int / tw;
            let j = row as int / th;
            assert(i < self.tiles_x) by (nonlinear_arith)
                requires
                    tw * i <= col,
                    col < tw * self.tiles_x,
                    tw > 0,
            ;
            assert(j < self.tiles_y) by (nonlinear_arith)
                requires
                    th * j <= row,
                    row < th * self.tiles_y,
                    th > 0,
            ;
            self.lemma_tile_of_pixel(i as u32, j as u32, row, col);
        }
        assert forall|i: u32, j: u32|
            i < self.tiles_x && j < self.tiles_y && #[trigger] self.spec_tile(i, j).contains(
                row,
                col,
            ) implies self.covers(row, col) && i == col as int / tw && j == row as int / th by {
            self.lemma_tile_of_pixel(i, j, row, col);
        }
    }

    /// Where the tile columns divide the width and the tile rows the
    /// height, every pixel of the image lies in exactly one tile: there is
    /// no gap and no overlap.
    pub proof fn lemma_even_grid_partitions(&self, row: u32, col: u32)
        requires
            self.wf(),
            self.spec_divides_evenly(),
            row < self.height,
            col < self.width,
        ensures
            self.covers(row, col),
            self.tile_column_of(col) < self.tiles_x,
            self.tile_row_of(row) < self.tiles_y,
            self.spec_tile(
                (self.tile_column_of(col)) as u32,
                (self.tile_row_of(row)) as u32,
            ).contains(row, col),
            forall|i: u32, j: u32|
                i < self.tiles_x && j < self.tiles_y && #[trigger] self.spec_tile(i, j).contains(
                    row,
                    col,
                ) ==> i == self.tile_column_of(col) && j == self.tile_row_of(row),
    {
        lemma_pieces_fit(self.width as int, self.tiles_x as int);
        lemma_pieces_fit(self.height as int, self.tiles_y as int);
        self.lemma_one_tile_per_pixel(row, col);
    }

    /// A grid of `tiles_x` × `tiles_y` tiles over a `width` × `height`
    /// image. Refused are a grid without tiles, and one whose pixels or
    /// tiles are too many to index.
    pub fn new(width: u32, height: u32, tiles_x: u32, tiles_y: u32) -> (r: Result<
        TileGrid,
        GridError,
    >)
        ensures
            r == (if tiles_x == 0 || tiles_y == 0 {
                Err::<TileGrid, GridError>(GridError::NoTiles)
            } else if width * height > usize::MAX || tiles_x * tiles_y > usize::MAX {
                Err::<TileGrid, GridError>(GridError::TooLarge)
            } else {
                Ok::<TileGrid, GridError>(TileGrid { width, height, tiles_x, tiles_y })
            }),
            r is Ok ==> r->Ok_0.wf(),
    {
        if tiles_x == 0 || tiles_y == 0 {
            return Err(GridError::NoTiles);
        }
        if pixel_count(width, height) > usize::MAX as u64 || pixel_count(tiles_x, tiles_y)
            > usize::MAX as u64 {
            return Err(GridError::TooLarge);
        }
        Ok(TileGrid { width, height, tiles_x, tiles_y })
    }

    /// Whether the tiles reach every pixel: the tile columns divide the
    /// width and the tile rows divide the height.
    pub fn divides_evenly(&self) -> (r: bool)
        requires
            self.wf(),
        ensures
            r == self.spec_divides_evenly(),
    {
        self.width % self.tiles_x == 0 && self.height % self.tiles_y == 0
    }

    /// The tile in tile column `i` and tile row `j`.
    pub fn tile(&self, i: u32, j: u32) -> (t: Tile)
        requires
            self.wf(),
            i < self.tiles_x,
            j < self.tiles_y,
        ensures
            t == self.spec_tile(i, j),
    {
        proof {
            self.lemma_tile_extent(i, j);
        }
        let tile_width: u32 = self.width / self.tiles_x;
        let tile_height: u32 = self.height / self.tiles_y;
        let col_start: u32 = tile_width * i;
        let row_start: u32 = tile_height * j;
        Tile {
            row_start,
            row_end: row_start + tile_height,
            col_start,
            col_end: col_start + tile_width,
        }
    }

    /// All tiles of the grid in launch order.
    pub fn tiles(&self) -> (all: Vec<Tile>)
        requires
            self.wf(),
        ensures
            all@.len() == self.tiles_x * self.tiles_y,
            forall|i: u32, j: u32|
                i < self.tiles_x && j < self.tiles_y ==> #[trigger] all@[self.launch_position(
                    i,
                    j,
                )] == self.spec_tile(i, j),
    {
        let mut all: Vec<Tile> = Vec::new();
        let mut i: u32 = 0;
        while i < self.tiles_x
            invariant
                self.wf(),
                i <= self.tiles_x,
                all@.len() == self.tiles_y * i,
                forall|a: u32, b: u32|
                    a < i && b < self.tiles_y ==> #[trigger] all@[self.launch_position(a, b)]
                        == self.spec_tile(a, b),
            decreases self.tiles_x - i,
        {
            let mut j: u32 = 0;
            while j < self.tiles_y
                invariant
                    self.wf(),
                    i < self.tiles_x,
                    j <= self.tiles_y,
                    all@.len() == self.launch_position(i, j),
                    forall|a: u32, b: u32|
                        a < self.tiles_x && b < self.tiles_y && reads_before(
                            a,
                            b,
                            i as int,
                            j as int,
                        ) ==> #[trigger] all@[self.launch_position(a, b)] == self.spec_tile(a, b),
                decreases self.tiles_y - j,
            {
                let t = self.tile(i, j);
                let ghost before = all@;
                all.push(t);
                proof {
                    assert forall|a: u32, b: u32|
                        a < self.tiles_x && b < self.tiles_y && reads_before(
                            a,
                            b,
                            i as int,
                            j + 1,
                        ) implies #[trigger] all@[self.launch_position(a, b)] == self.spec_tile(
                        a,
                        b,
                    ) by {
                        if a != i || b != j {
                            lemma_index_reading_order(
                                self.tiles_y as int,
                                a as int,
                                b as int,
                                i as int,
                                j as int,
                            );
                            assert(all@[self.launch_position(a, b)] == before[self.launch_position(
                                a,
                                b,
                            )]);
                        }
                    }
                }
                j += 1;
            }
            proof {
                lemma_scaled_step(self.tiles_y as int, i as int, self.tiles_x as int);
            }
            i += 1;
        }
        proof {
            assert(self.tiles_y * self.tiles_x == self.tiles_x * self.tiles_y)
                by (nonlinear_arith);
        }
        all
    }
}

} // verus!
