//! Rendering: every tile of a grid is filled from a shading function and
//! stored into one row-major buffer.

use vstd::prelude::*;
use crate::grid::TileGrid;
use crate::raster::{
    blank_buffer,
    buffer_index,
    lemma_index_in_buffer,
    lemma_index_injective,
    lemma_index_reading_order,
    lemma_index_surjective,
    pixel_at,
    pixel_count,
    pixel_index,
};
use crate::tile::{reads_before, Tile};

verus! {

/// Copies the intensities of one finished tile into the image buffer.
///
/// `pixels` holds the tile in its own row-major order. Afterwards every
/// pixel of the tile has its intensity from `pixels`, and every other pixel
/// of the image is as it was.
pub fn store_tile(buf: &mut Vec<u8>, width: u32, height: u32, tile: &Tile, pixels: &Vec<u8>)
    requires
        width * height <= usize::MAX,
        old(buf)@.len() == width * height,
        tile.wf(),
        tile.row_end <= height,
        tile.col_end <= width,
        pixels@.len() == tile.spec_area(),
    ensures
        final(buf)@.len() == old(buf)@.len(),
        forall|row: u32, col: u32|
            row < height && col < width ==> #[trigger] pixel_at(final(buf)@, width, row, col) == (
            if tile.contains(row, col) {
                pixels@[tile.local_index(row, col)]
            } else {
                pixel_at(old(buf)@, width, row, col)
            }),
{
    let ghost before = buf@;
    let ghost w = tile.spec_width();
    let total: usize = pixels.len();
    let mut n: usize = 0;
    let mut row: u32 = tile.row_start;
    while row < tile.row_end
        invariant
            width * height <= usize::MAX,
            buf@.len() == width * height,
            before.len() == width * height,
            tile.wf(),
            tile.row_end <= height,
            tile.col_end <= width,
            pixels@.len() == tile.spec_area(),
            pixels@.len() == total,
            w == tile.spec_width(),
            tile.row_start <= row <= tile.row_end,
            n == w * (row - tile.row_start),
            forall|r: u32, c: u32|
                r < height && c < width ==> #[trigger] pixel_at(buf@, width, r, c) == (
                if tile.contains(r, c) && r < row {
                    pixels@[tile.local_index(r, c)]
                } else {
                    pixel_at(before, width, r, c)
                }),
        decreases tile.row_end - row,
    {
        let mut col: u32 = tile.col_start;
        while col < tile.col_end
            invariant
                width * height <= usize::MAX,
                buf@.len() == width * height,
                before.len() == width * height,
                tile.wf(),
                tile.row_end <= height,
                tile.col_end <= width,
                pixels@.len() == tile.spec_area(),
                pixels@.len() == total,
                w == tile.spec_width(),
                tile.row_start <= row < tile.row_end,
                tile.col_start <= col <= tile.col_end,
                n == pixel_index(w, row - tile.row_start, col - tile.col_start),
                forall|r: u32, c: u32|
                    r < height && c < width ==> #[trigger] pixel_at(buf@, width, r, c) == (
                    if tile.contains(r, c) && reads_before(r, c, row as int, col as int) {
                        pixels@[tile.local_index(r, c)]
                    } else {
                        pixel_at(before, width, r, c)
                    }),
            decreases tile.col_end - col,
        {
            proof {
                tile.lemma_local_index_in_buffer(row, col);
            }
            let k: usize = buffer_index(width, height, row, col);
            let value: u8 = pixels[n];
            let ghost earlier = buf@;
            buf.set(k, value);
            proof {
                assert forall|r: u32, c: u32|
                    r < height && c < width implies #[trigger] pixel_at(buf@, width, r, c) == (
                if tile.contains(r, c) && reads_before(r, c, row as int, col + 1) {
                    pixels@[tile.local_index(r, c)]
                } else {
                    pixel_at(before, width, r, c)
                }) by {
                    let at = pixel_index(width as int, r as int, c as int);
                    lemma_index_in_buffer(width as int, height as int, r as int, c as int);
                    if at == k {
                        lemma_index_injective(
                            width as int,
                            r as int,
                            c as int,
                            row as int,
                            col as int,
                        );
                    } else {
                        assert(pixel_at(buf@, width, r, c) == pixel_at(earlier, width, r, c));
                    }
                }
            }
            n += 1;
            col += 1;
        }
        proof {
            assert(w * (row - tile.row_start) + w == w * (row + 1 - tile.row_start))
                by (nonlinear_arith);
        }
        row += 1;
    }
}

/// `shade` has at most one result for each pixel.
pub open spec fn single_valued<F: Fn(u32, u32) -> u8>(shade: F) -> bool {
    forall|row: u32, col: u32, a: u8, b: u8|
        #[trigger] call_ensures(shade, (row, col), a) && #[trigger] call_ensures(
            shade,
            (row, col),
            b,
        ) ==> a == b
}

impl TileGrid {
    /// The tiles launched before the tile (`i`, `j`) reach the pixel at
    /// (`row`, `col`).
    pub open spec fn reached_before(&self, i: int, j: int, row: u32, col: u32) -> bool {
        let tw = self.spec_tile_width();
        let th = self.spec_tile_height();
        (col < tw * i && row < th * self.tiles_y) || (tw * i <= col < tw * i + tw && row < th * j)
    }

    /// `parts` holds one buffer for each tile, in launch order, each as
    /// long as its tile has pixels.
    pub open spec fn fits(&self, parts: Seq<Vec<u8>>) -> bool {
        &&& parts.len() == self.tiles_x * self.tiles_y
        &&& forall|i: u32, j: u32|
            i < self.tiles_x && j < self.tiles_y ==> (#[trigger] parts[self.launch_position(
                i,
                j,
            )])@.len() == self.spec_tile(i, j).spec_area()
    }

    /// The intensity that the tile buffers hold for the pixel at (`row`,
    /// `col`): that of the one tile which contains it, and zero where the
    /// grid does not cover the pixel.
    pub open spec fn assembled_pixel(&self, parts: Seq<Vec<u8>>, row: u32, col: u32) -> u8 {
        if self.covers(row, col) {
            let i = self.tile_column_of(col) as u32;
            let j = self.tile_row_of(row) as u32;
            parts[self.launch_position(i, j)]@[self.spec_tile(i, j).local_index(row, col)]
        } else {
            0u8
        }
    }

    /// `buf` is a rendering of the image by `shade`: row-major, one byte
    /// per pixel, each covered pixel with an intensity that `shade` returns
    /// for its row and column, each other pixel zero.
    pub open spec fn is_rendering<F: Fn(u32, u32) -> u8>(&self, shade: F, buf: Seq<u8>) -> bool {
        &&& buf.len() == self.width * self.height
        &&& forall|row: u32, col: u32|
            row < self.height && col < self.width ==> (if self.covers(row, col) {
                call_ensures(
                    shade,
                    (row, col),
                    #[trigger] pixel_at(buf, self.width, row, col),
                )
            } else {
                pixel_at(buf, self.width, row, col) == 0u8
            })
    }

    /// `buf` is what `assemble` makes of the tile buffers `parts`.
    pub open spec fn is_assembly(&self, parts: Seq<Vec<u8>>, buf: Seq<u8>) -> bool {
        &&& buf.len() == self.width * self.height
        &&& forall|row: u32, col: u32|
            row < self.height && col < self.width ==> #[trigger] pixel_at(
                buf,
                self.width,
                row,
                col,
            ) == self.assembled_pixel(parts, row, col)
    }

    /// Puts the finished tiles together into the image buffer.
    ///
    /// `parts` is what the workers hand back: for each tile, in launch
    /// order, its intensities in the tile's own row-major order. The result
    /// is `None` where a tile's buffer is missing or has the wrong length.
    /// Otherwise it is the row-major image: each covered pixel with the
    /// intensity from its tile, each other pixel zero.
    pub fn assemble(&self, parts: &Vec<Vec<u8>>) -> (r: Option<Vec<u8>>)
        requires
            self.wf(),
        ensures
            r is Some <==> self.fits(parts@),
            r is Some ==> self.is_assembly(parts@, r->0@),
    {
        let ghost tw = self.spec_tile_width();
        let ghost th = self.spec_tile_height();
        if parts.len() as u64 != pixel_count(self.tiles_x, self.tiles_y) {
            return None;
        }
        let mut buf: Vec<u8> = blank_buffer(self.width, self.height);
        proof {
            assert(tw * 0 == 0) by (nonlinear_arith);
            assert(th * 0 == 0) by (nonlinear_arith);
            assert(self.tiles_x * self.tiles_y == self.tiles_y * self.tiles_x)
                by (nonlinear_arith);
            assert forall|r: u32, c: u32|
                r < self.height && c < self.width implies pixel_at(buf@, self.width, r, c)
                == 0u8 by {
                lemma_index_in_buffer(
                    self.width as int,
                    self.height as int,
                    r as int,
                    c as int,
                );
            }
        }
        let mut n: usize = 0;
        let mut i: u32 = 0;
        while i < self.tiles_x
            invariant
                self.wf(),
                tw == self.spec_tile_width(),
                th == self.spec_tile_height(),
                i <= self.tiles_x,
                parts@.len() == self.tiles_x * self.tiles_y,
                parts@.len() == self.tiles_y * self.tiles_x,
                n == self.tiles_y * i,
                buf@.len() == self.width * self.height,
                forall|a: u32, b: u32|
                    a < i && b < self.tiles_y ==> (#[trigger] parts@[self.launch_position(
                        a,
                        b,
                    )])@.len() == self.spec_tile(a, b).spec_area(),
                forall|r: u32, c: u32|
                    r < self.height && c < self.width ==> #[trigger] pixel_at(
                        buf@,
                        self.width,
                        r,
                        c,
                    ) == (if self.reached_before(i as int, 0, r, c) {
                        self.assembled_pixel(parts@, r, c)
                    } else {
                        0u8
                    }),
            decreases self.tiles_x - i,
        {
            let mut j: u32 = 0;
            while j < self.tiles_y
                invariant
                    self.wf(),
                    tw == self.spec_tile_width(),
                    th == self.spec_tile_height(),
                    i < self.tiles_x,
                    j <= self.tiles_y,
                    parts@.len() == self.tiles_x * self.tiles_y,
                    parts@.len() == self.tiles_y * self.tiles_x,
                    n == self.launch_position(i, j),
                    buf@.len() == self.width * self.height,
                    forall|a: u32, b: u32|
                        a < self.tiles_x && b < self.tiles_y && reads_before(
                            a,
                            b,
                            i as int,
                            j as int,
                        ) ==> (#[trigger] parts@[self.launch_position(a, b)])@.len()
                            == self.spec_tile(a, b).spec_area(),
                    forall|r: u32, c: u32|
                        r < self.height && c < self.width ==> #[trigger] pixel_at(
                            buf@,
                            self.width,
                            r,
                            c,
                        ) == (if self.reached_before(i as int, j as int, r, c) {
                            self.assembled_pixel(parts@, r, c)
                        } else {
                            0u8
                        }),
                decreases self.tiles_y - j,
            {
                let tile = self.tile(i, j);
                proof {
                    self.lemma_tile_extent(i, j);
                    lemma_index_in_buffer(
                        self.tiles_y as int,
                        self.tiles_x as int,
                        i as int,
                        j as int,
                    );
                }
                let part: &Vec<u8> = &parts[n];
                if part.len() != tile.area() {
                    return None;
                }
                let ghost earlier = buf@;
                store_tile(&mut buf, self.width, self.height, &tile, part);
                proof {
                    assert(th * j + th == th * (j + 1)) by (nonlinear_arith);
                    assert forall|r: u32, c: u32|
                        r < self.height && c < self.width implies #[trigger] pixel_at(
                        buf@,
                        self.width,
                        r,
                        c,
                    ) == (if self.reached_before(i as int, j + 1, r, c) {
                        self.assembled_pixel(parts@, r, c)
                    } else {
                        0u8
                    }) by {
                        lemma_index_in_buffer(
                            self.width as int,
                            self.height as int,
                            r as int,
                            c as int,
                        );
                        self.lemma_tile_of_pixel(i, j, r, c);
                        if tile.contains(r, c) {
                            assert(pixel_at(buf@, self.width, r, c) == part@[tile.local_index(
                                r,
                                c,
                            )]);
                        } else {
                            assert(pixel_at(buf@, self.width, r, c) == pixel_at(
                                earlier,
                                self.width,
                                r,
                                c,
                            ));
                            assert(self.reached_before(i as int, j + 1, r, c)
                                == self.reached_before(i as int, j as int, r, c));
                        }
                    }
                }
                n += 1;
                j += 1;
            }
            proof {
                assert(tw * i + tw == tw * (i + 1)) by (nonlinear_arith);
                assert(self.tiles_y * i + self.tiles_y == self.tiles_y * (i + 1))
                    by (nonlinear_arith);
                assert(th * 0 == 0) by (nonlinear_arith);
                assert forall|r: u32, c: u32|
                    self.reached_before(i as int, self.tiles_y as int, r, c)
                        == self.reached_before(i + 1, 0, r, c) by {}
            }
            i += 1;
        }
        proof {
            assert(th * 0 == 0) by (nonlinear_arith);
            assert forall|r: u32, c: u32|
                self.reached_before(self.tiles_x as int, 0, r, c) == self.covers(r, c) by {}
        }
        Some(buf)
    }

    /// Shades every tile of the grid, one after the other in launch order,
    /// each into a buffer of its own.
    pub fn shade_tiles<F: Fn(u32, u32) -> u8>(&self, shade: &F) -> (parts: Vec<Vec<u8>>)
        requires
            self.wf(),
            forall|row: u32, col: u32|
                self.covers(row, col) ==> #[trigger] call_requires(*shade, (row, col)),
        ensures
            self.fits(parts@),
            forall|i: u32, j: u32|
                i < self.tiles_x && j < self.tiles_y ==> self.spec_tile(i, j).is_shading(
                    *shade,
                    (#[trigger] parts@[self.launch_position(i, j)])@,
                ),
    {
        let mut parts: Vec<Vec<u8>> = Vec::new();
        let mut i: u32 = 0;
        while i < self.tiles_x
            invariant
                self.wf(),
                i <= self.tiles_x,
                parts@.len() == self.tiles_y * i,
                forall|row: u32, col: u32|
                    self.covers(row, col) ==> #[trigger] call_requires(*shade, (row, col)),
                forall|a: u32, b: u32|
                    a < i && b < self.tiles_y ==> self.spec_tile(a, b).is_shading(
                        *shade,
                        (#[trigger] parts@[self.launch_position(a, b)])@,
                    ),
            decreases self.tiles_x - i,
        {
            let mut j: u32 = 0;
            while j < self.tiles_y
                invariant
                    self.wf(),
                    i < self.tiles_x,
                    j <= self.tiles_y,
                    parts@.len() == self.launch_position(i, j),
                    forall|row: u32, col: u32|
                        self.covers(row, col) ==> #[trigger] call_requires(*shade, (row, col)),
                    forall|a: u32, b: u32|
                        a < self.tiles_x && b < self.tiles_y && reads_before(
                            a,
                            b,
                            i as int,
                            j as int,
                        ) ==> self.spec_tile(a, b).is_shading(
                            *shade,
                            (#[trigger] parts@[self.launch_position(a, b)])@,
                        ),
                decreases self.tiles_y - j,
            {
                let tile = self.tile(i, j);
                proof {
                    self.lemma_tile_extent(i, j);
                    assert forall|row: u32, col: u32|
                        tile.contains(row, col) implies #[trigger] call_requires(
                        *shade,
                        (row, col),
                    ) by {
                        self.lemma_tile_of_pixel(i, j, row, col);
                    }
                }
                let part = tile.shade(shade);
                let ghost earlier = parts@;
                parts.push(part);
                proof {
                    assert forall|a: u32, b: u32|
                        a < self.tiles_x && b < self.tiles_y && reads_before(
                            a,
                            b,
                            i as int,
                            j + 1,
                        ) implies self.spec_tile(a, b).is_shading(
                        *shade,
                        (#[trigger] parts@[self.launch_position(a, b)])@,
                    ) by {
                        if a != i || b != j {
                            lemma_index_reading_order(
                                self.tiles_y as int,
                                a as int,
                                b as int,
                                i as int,
                                j as int,
                            );
                            let k = self.launch_position(a, b);
                            assert(parts@[k] == earlier[k]);
                        }
                    }
                }
                j += 1;
            }
            proof {
                assert(self.tiles_y * i + self.tiles_y == self.tiles_y * (i + 1))
                    by (nonlinear_arith);
            }
            i += 1;
        }
        proof {
            assert(self.tiles_y * self.tiles_x == self.tiles_x * self.tiles_y)
                by (nonlinear_arith);
            assert forall|a: u32, b: u32|
                a < self.tiles_x && b < self.tiles_y implies (
            #[trigger] parts@[self.launch_position(a, b)])@.len() == self.spec_tile(
                a,
                b,
            ).spec_area() by {
                assert(self.spec_tile(a, b).is_shading(
                    *shade,
                    parts@[self.launch_position(a, b)]@,
                ));
            }
        }
        parts
    }

    /// Renders the image: shades every tile and assembles the result.
    ///
    /// Every pixel that the grid covers gets the intensity that `shade`
    /// returns for its row and column; a pixel that no tile reaches stays
    /// zero. The buffer is row-major and holds one byte per pixel of the
    /// image.
    pub fn render<F: Fn(u32, u32) -> u8>(&self, shade: &F) -> (buf: Vec<u8>)
        requires
            self.wf(),
            forall|row: u32, col: u32|
                self.covers(row, col) ==> #[trigger] call_requires(*shade, (row, col)),
        ensures
            self.is_rendering(*shade, buf@),
    {
        let parts = self.shade_tiles(shade);
        let buf = self.assemble(&parts).unwrap();
        proof {
            self.lemma_assembled_tiles_render(*shade, parts@, buf@);
        }
        buf
    }

    /// Tiles that were shaded one by one, by workers in any order, assemble
    /// into a rendering of the whole image.
    pub proof fn lemma_assembled_tiles_render<F: Fn(u32, u32) -> u8>(
        &self,
        shade: F,
        parts: Seq<Vec<u8>>,
        buf: Seq<u8>,
    )
        requires
            self.wf(),
            self.fits(parts),
            forall|i: u32, j: u32|
                i < self.tiles_x && j < self.tiles_y ==> self.spec_tile(i, j).is_shading(
                    shade,
                    (#[trigger] parts[self.launch_position(i, j)])@,
                ),
            self.is_assembly(parts, buf),
        ensures
            self.is_rendering(shade, buf),
    {
        assert forall|row: u32, col: u32|
            row < self.height && col < self.width implies (if self.covers(row, col) {
            call_ensures(
                shade,
                (row, col),
                #[trigger] pixel_at(buf, self.width, row, col),
            )
        } else {
            pixel_at(buf, self.width, row, col) == 0u8
        }) by {
            self.lemma_one_tile_per_pixel(row, col);
            if self.covers(row, col) {
                let i = self.tile_column_of(col) as u32;
                let j = self.tile_row_of(row) as u32;
                let part = parts[self.launch_position(i, j)]@;
                assert(self.spec_tile(i, j).is_shading(shade, part));
                assert(call_ensures(
                    shade,
                    (row, col),
                    part[self.spec_tile(i, j).local_index(row, col)],
                ));
            }
        }
    }

    /// With a shading function that has one intensity for each pixel, the
    /// rendering does not depend on how the image is cut into tiles, as
    /// long as the tiles reach every pixel: two grids over one image that
    /// both divide it evenly render the same buffer.
    pub proof fn lemma_rendering_independent_of_tiling<F: Fn(u32, u32) -> u8>(
        &self,
        other: TileGrid,
        shade: F,
        buf: Seq<u8>,
        other_buf: Seq<u8>,
    )
        requires
            self.wf(),
            other.wf(),
            self.width == other.width,
            self.height == other.height,
            self.spec_divides_evenly(),
            other.spec_divides_evenly(),
            single_valued(shade),
            self.is_rendering(shade, buf),
            other.is_rendering(shade, other_buf),
        ensures
            buf == other_buf,
    {
        assert forall|k: int| 0 <= k < buf.len() implies buf[k] == other_buf[k] by {
            lemma_index_surjective(self.width as int, self.height as int, k);
            let row = (k / self.width as int) as u32;
            let col = (k % self.width as int) as u32;
            self.lemma_even_grid_partitions(row, col);
            other.lemma_even_grid_partitions(row, col);
            assert(call_ensures(shade, (row, col), pixel_at(buf, self.width, row, col)));
            assert(call_ensures(shade, (row, col), pixel_at(other_buf, self.width, row, col)));
        }
        assert(buf =~= other_buf);
    }
}

} // verus!
