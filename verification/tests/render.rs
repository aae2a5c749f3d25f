use mandelbrot::grid::TileGrid;
use mandelbrot::render::store_tile;
use mandelbrot::tile::Tile;

fn grid(width: u32, height: u32, tiles_x: u32, tiles_y: u32) -> TileGrid {
    TileGrid::new(width, height, tiles_x, tiles_y).unwrap()
}

fn label(row: u32, col: u32) -> u8 {
    (100 + 10 * row + col) as u8
}

fn escape_fraction(re: f64, im: f64, max_iterations: u32) -> f64 {
    let mut z_re = 0.0f64;
    let mut z_im = 0.0f64;
    let mut i = 0u32;
    while i < max_iterations {
        let next_re = z_re * z_re - z_im * z_im + re;
        let next_im = 2.0 * z_re * z_im + im;
        z_re = next_re;
        z_im = next_im;
        i += 1;
        if z_re * z_re + z_im * z_im > 4.4 {
            return i as f64 / max_iterations as f64;
        }
    }
    1.0
}

fn escape_intensity(row: u32, col: u32, height: u32, width: u32, max_iterations: u32) -> u8 {
    let re = 3.0 / width as f64 * col as f64 - 1.5;
    let im = 3.0 / height as f64 * row as f64 - 1.5;
    (escape_fraction(re, im, max_iterations) * 256.0) as u8
}

fn shade_all(g: &TileGrid, shade: &dyn Fn(u32, u32) -> u8) -> Vec<Vec<u8>> {
    let mut parts = Vec::new();
    for t in g.tiles() {
        parts.push(t.shade(&shade));
    }
    parts
}

#[test]
fn shade_fills_a_tile_row_by_row() {
    let t = Tile { row_start: 1, row_end: 3, col_start: 2, col_end: 5 };
    assert_eq!(t.shade(&label), vec![112, 113, 114, 122, 123, 124]);
}

#[test]
fn shade_of_an_empty_tile_is_empty() {
    let t = Tile { row_start: 1, row_end: 1, col_start: 2, col_end: 5 };
    assert_eq!(t.shade(&label), Vec::<u8>::new());
    let t = Tile { row_start: 0, row_end: 4, col_start: 3, col_end: 3 };
    assert_eq!(t.shade(&label), Vec::<u8>::new());
}

#[test]
fn store_tile_writes_the_tile_and_nothing_else() {
    let mut buf = vec![9u8; 12];
    let t = Tile { row_start: 1, row_end: 3, col_start: 1, col_end: 3 };
    store_tile(&mut buf, 4, 3, &t, &vec![1, 2, 3, 4]);
    assert_eq!(buf, vec![9, 9, 9, 9, 9, 1, 2, 9, 9, 3, 4, 9]);
}

#[test]
fn store_tile_with_an_empty_tile_changes_nothing() {
    let mut buf = vec![7u8; 6];
    let t = Tile { row_start: 2, row_end: 2, col_start: 0, col_end: 3 };
    store_tile(&mut buf, 3, 2, &t, &Vec::new());
    assert_eq!(buf, vec![7u8; 6]);
}

#[test]
fn render_is_row_major() {
    let buf = grid(3, 2, 1, 1).render(&label);
    assert_eq!(buf, vec![100, 101, 102, 110, 111, 112]);
}

#[test]
fn render_length_is_width_times_height() {
    assert_eq!(grid(7, 5, 2, 2).render(&label).len(), 35);
    assert_eq!(grid(0, 5, 2, 2).render(&label).len(), 0);
    assert_eq!(grid(4, 4, 1, 1).render(&label).len(), 16);
    assert_eq!(grid(3, 3, 5, 5).render(&label).len(), 9);
}

#[test]
fn render_leaves_the_remainder_zero() {
    let buf = grid(5, 3, 2, 2).render(&label);
    assert_eq!(buf, vec![100, 101, 102, 103, 0, 110, 111, 112, 113, 0, 0, 0, 0, 0, 0]);
}

#[test]
fn render_with_more_tiles_than_pixels_is_all_zero() {
    assert_eq!(grid(3, 3, 5, 5).render(&label), vec![0u8; 9]);
}

#[test]
fn render_does_not_depend_on_an_even_tiling() {
    let one = grid(4, 4, 1, 1).render(&label);
    assert_eq!(grid(4, 4, 2, 2).render(&label), one);
    assert_eq!(grid(4, 4, 4, 1).render(&label), one);
    assert_eq!(grid(4, 4, 1, 4).render(&label), one);
    assert_eq!(grid(4, 4, 4, 4).render(&label), one);
}

#[test]
fn assemble_of_shaded_tiles_is_the_rendering() {
    let g = grid(6, 4, 3, 2);
    let parts = shade_all(&g, &label);
    assert_eq!(g.assemble(&parts), Some(g.render(&label)));
}

#[test]
fn assemble_places_each_tile() {
    let g = grid(4, 2, 2, 2);
    let parts = vec![vec![1, 2], vec![3, 4], vec![5, 6], vec![7, 8]];
    assert_eq!(g.assemble(&parts), Some(vec![1, 2, 5, 6, 3, 4, 7, 8]));
}

#[test]
fn assemble_leaves_the_remainder_zero() {
    let g = grid(3, 3, 2, 2);
    let parts = vec![vec![1], vec![2], vec![3], vec![4]];
    assert_eq!(g.assemble(&parts), Some(vec![1, 3, 0, 2, 4, 0, 0, 0, 0]));
}

#[test]
fn assemble_refuses_a_missing_tile() {
    let g = grid(4, 2, 2, 2);
    let parts = vec![vec![1, 2], vec![3, 4], vec![5, 6]];
    assert_eq!(g.assemble(&parts), None);
}

#[test]
fn assemble_refuses_a_tile_of_the_wrong_length() {
    let g = grid(4, 2, 2, 2);
    let parts = vec![vec![1, 2], vec![3, 4], vec![5, 6], vec![7]];
    assert_eq!(g.assemble(&parts), None);
    let parts = vec![vec![1, 2, 0], vec![3, 4], vec![5, 6], vec![7, 8]];
    assert_eq!(g.assemble(&parts), None);
}

#[test]
fn four_tiles_render_what_one_tile_renders() {
    let shade = |row: u32, col: u32| escape_intensity(row, col, 4, 4, 50);
    let sequential = grid(4, 4, 1, 1).render(&shade);
    let tiled = grid(4, 4, 2, 2);
    assert_eq!(tiled.render(&shade), sequential);
    assert_eq!(tiled.assemble(&shade_all(&tiled, &shade)), Some(sequential));
}

#[test]
fn one_iteration_on_a_four_by_four_image() {
    let shade = |row: u32, col: u32| escape_intensity(row, col, 4, 4, 1);
    let buf = grid(4, 4, 1, 1).render(&shade);
    assert_eq!(buf, vec![255u8; 16]);
}

#[test]
fn no_iterations_render_every_pixel_bounded() {
    let shade = |row: u32, col: u32| escape_intensity(row, col, 4, 4, 0);
    let buf = grid(4, 4, 2, 2).render(&shade);
    assert_eq!(buf, vec![255u8; 16]);
}

#[test]
fn escape_time_rendering_of_a_four_by_four_image() {
    let shade = |row: u32, col: u32| escape_intensity(row, col, 4, 4, 4);
    let buf = grid(4, 4, 2, 2).render(&shade);
    assert_eq!(buf[0], 64);
    assert_eq!(buf[2 + 4 * 2], 255);
    assert_eq!(buf[2], 128);
}

#[test]
fn same_pixel_same_intensity() {
    let shade = |row: u32, col: u32| escape_intensity(row, col, 8, 8, 30);
    let g = grid(8, 8, 2, 4);
    assert_eq!(g.render(&shade), g.render(&shade));
}
