//! A block of Web Mercator elevation tiles, stitched into one grid.
//!
//! Elevations are the IEEE 754 bits of 32-bit floats.
use crate::interpolation::{bracket, nearest};
use vstd::prelude::*;

verus! {

/// A rectangle of XYZ tiles, stitched into one grid, row by row from north to south.
#[derive(Debug, Clone)]
pub struct MercatorDem {
    /// Zoom level of the tiles.
    pub zoom: u8,
    /// First column of tiles.
    pub x0: u32,
    /// First row of tiles.
    pub y0: u32,
    /// Number of columns of tiles.
    pub tiles_x: u32,
    /// Number of rows of tiles.
    pub tiles_y: u32,
    /// Samples a side of a tile.
    pub tile_size: u32,
    /// Elevations.
    pub elev: Vec<u32>,
}

/// Which tile, of `tiles_x` a row and `size` samples a side, a grid sample belongs to.
pub open spec fn tile_of(tiles_x: int, size: int, x: int, y: int) -> int {
    (y / size) * tiles_x + x / size
}

/// Which sample of its tile a grid sample is.
pub open spec fn sample_in_tile(size: int, x: int, y: int) -> int {
    (y % size) * size + x % size
}

/// A grid of samples a side fits its counters.
pub open spec fn block_fits(tiles_x: u32, tiles_y: u32, tile_size: u32) -> bool {
    &&& tiles_x > 0 && tiles_y > 0 && tile_size > 0
    &&& tiles_x * tile_size <= u32::MAX
    &&& tiles_y * tile_size <= u32::MAX
}

impl MercatorDem {
    /// Samples a row.
    pub open spec fn width(&self) -> int {
        self.tiles_x * self.tile_size
    }

    /// Number of rows.
    pub open spec fn height(&self) -> int {
        self.tiles_y * self.tile_size
    }

    /// The elevations are those of all tiles.
    pub open spec fn wf(&self) -> bool {
        &&& block_fits(self.tiles_x, self.tiles_y, self.tile_size)
        &&& self.elev@.len() == self.width() * self.height()
    }

    /// The elevation in column `x` of row `y`.
    pub open spec fn at(&self, x: int, y: int) -> u32 {
        self.elev@[y * self.width() + x]
    }

    /// Wraps elevations that are stitched already.
    pub fn new(
        zoom: u8,
        x0: u32,
        y0: u32,
        tiles_x: u32,
        tiles_y: u32,
        tile_size: u32,
        elev: Vec<u32>,
    ) -> (dem: MercatorDem)
        requires
            block_fits(tiles_x, tiles_y, tile_size),
            elev.len() == (tiles_x * tile_size) * (tiles_y * tile_size),
        ensures
            dem.wf(),
            dem == (MercatorDem { zoom, x0, y0, tiles_x, tiles_y, tile_size, elev }),
    {
        MercatorDem { zoom, x0, y0, tiles_x, tiles_y, tile_size, elev }
    }

    /// Stitches tiles, given row by row from the northwest, each with its samples row by row.
    pub fn from_tiles(
        zoom: u8,
        x0: u32,
        y0: u32,
        tiles_x: u32,
        tiles_y: u32,
        tile_size: u32,
        tiles: &Vec<Vec<u32>>,
    ) -> (dem: MercatorDem)
        requires
            block_fits(tiles_x, tiles_y, tile_size),
            tiles.len() == tiles_x * tiles_y,
            forall|t: int| 0 <= t < tiles.len() ==> (#[trigger] tiles@[t])@.len() == tile_size
                * tile_size,
        ensures
            dem.wf(),
            dem.zoom == zoom && dem.x0 == x0 && dem.y0 == y0,
            dem.tiles_x == tiles_x && dem.tiles_y == tiles_y && dem.tile_size == tile_size,
            forall|x: int, y: int|
                0 <= x < dem.width() && 0 <= y < dem.height() ==> #[trigger] dem.at(x, y)
                    == tiles@[tile_of(tiles_x as int, tile_size as int, x, y)]@[sample_in_tile(
                    tile_size as int,
                    x,
                    y,
                )],
    {
        let ghost w = tiles_x * tile_size;
        let ghost h = tiles_y * tile_size;
        let width: u32 = tiles_x * tile_size;
        let height: u32 = tiles_y * tile_size;
        let mut elev: Vec<u32> = Vec::new();
        let mut y: u32 = 0;
        proof {
            lemma_rows(0, w);
        }
        while y < height
            invariant
                block_fits(tiles_x, tiles_y, tile_size),
                width == w && height == h,
                w == tiles_x * tile_size,
                h == tiles_y * tile_size,
                y <= h,
                tiles.len() == tiles_x * tiles_y,
                forall|t: int|
                    0 <= t < tiles.len() ==> (#[trigger] tiles@[t])@.len() == tile_size
                        * tile_size,
                elev@.len() == y * w,
                forall|c: int, r: int|
                    0 <= c < w && 0 <= r < y ==> elev@[#[trigger] (r * w + c)]
                        == tiles@[tile_of(
                        tiles_x as int,
                        tile_size as int,
                        c,
                        r,
                    )]@[sample_in_tile(tile_size as int, c, r)],
            decreases h - y,
        {
            let mut x: u32 = 0;
            while x < width
                invariant
                    block_fits(tiles_x, tiles_y, tile_size),
                    width == w && height == h,
                    w == tiles_x * tile_size,
                    h == tiles_y * tile_size,
                    x <= w,
                    y < h,
                    tiles.len() == tiles_x * tiles_y,
                    forall|t: int|
                        0 <= t < tiles.len() ==> (#[trigger] tiles@[t])@.len() == tile_size
                            * tile_size,
                    elev@.len() == y * w + x,
                    forall|c: int, r: int|
                        0 <= c < w && 0 <= r && (r < y || (r == y && c < x)) ==> elev@[#[trigger] (
                        r * w + c)] == tiles@[tile_of(
                            tiles_x as int,
                            tile_size as int,
                            c,
                            r,
                        )]@[sample_in_tile(tile_size as int, c, r)],
                decreases w - x,
            {
                let ghost before = elev@;
                let tile_column: u32 = x / tile_size;
                let tile_row: u32 = y / tile_size;
                proof {
                    lemma_tile_position(
                        tiles_x as int,
                        tiles_y as int,
                        tile_size as int,
                        x as int,
                        y as int,
                    );
                    assert(tiles.len() <= usize::MAX);
                }
                let tile: usize = tile_row as usize * tiles_x as usize + tile_column as usize;
                let samples: &Vec<u32> = &tiles[tile];
                assert(samples.len() <= usize::MAX);
                let sample: usize = (y % tile_size) as usize * tile_size as usize + (x
                    % tile_size) as usize;
                elev.push(samples[sample]);
                proof {
                    assert forall|c: int, r: int|
                        0 <= c < w && 0 <= r && (r < y || (r == y && c
                            < x + 1)) implies elev@[#[trigger] (r * w + c)] == tiles@[tile_of(
                        tiles_x as int,
                        tile_size as int,
                        c,
                        r,
                    )]@[sample_in_tile(tile_size as int, c, r)] by {
                        lemma_before(r, c, y as int, x as int, w);
                        if r < y || c < x {
                            assert(elev@[r * w + c] == before[r * w + c]);
                        }
                    }
                }
                x = x + 1;
            }
            proof {
                lemma_rows(y as int, w);
            }
            y = y + 1;
        }
        assert(h * w == w * h) by (nonlinear_arith);
        MercatorDem::new(zoom, x0, y0, tiles_x, tiles_y, tile_size, elev)
    }

    /// The tiles between those of two opposite corners: first column, first row, number of
    /// columns, number of rows.
    pub fn tiles_between(northwest: (u32, u32), southeast: (u32, u32)) -> (block: (
        u32,
        u32,
        u32,
        u32,
    ))
        requires
            -u32::MAX < southeast.0 - northwest.0 < u32::MAX,
            -u32::MAX < southeast.1 - northwest.1 < u32::MAX,
        ensures
            block.2 >= 1 && block.3 >= 1,
            forall|x: int|
                #![trigger block_column(block, x)]
                block_column(block, x) <==> (northwest.0 <= x <= southeast.0 || southeast.0 <= x
                    <= northwest.0),
            forall|y: int|
                #![trigger block_row(block, y)]
                block_row(block, y) <==> (northwest.1 <= y <= southeast.1 || southeast.1 <= y
                    <= northwest.1),
    {
        let (x0, x1) = if northwest.0 <= southeast.0 {
            (northwest.0, southeast.0)
        } else {
            (southeast.0, northwest.0)
        };
        let (y0, y1) = if northwest.1 <= southeast.1 {
            (northwest.1, southeast.1)
        } else {
            (southeast.1, northwest.1)
        };
        (x0, y0, x1 - x0 + 1, y1 - y0 + 1)
    }

    /// Samples a row.
    pub fn width_px(&self) -> (n: u32)
        requires
            self.wf(),
        ensures
            n == self.width(),
    {
        self.tiles_x * self.tile_size
    }

    /// Number of rows.
    pub fn height_px(&self) -> (n: u32)
        requires
            self.wf(),
        ensures
            n == self.height(),
    {
        self.tiles_y * self.tile_size
    }

    /// The four samples around a position, given by its column and row rounded down: northwest,
    /// northeast, southwest, southeast. Off the grid they are the nearest ones.
    pub open spec fn samples_around(&self, column: int, row: int) -> Seq<u32> {
        let west = nearest(column, self.width());
        let east = nearest(column + 1, self.width());
        let north = nearest(row, self.height());
        let south = nearest(row + 1, self.height());
        seq![
            self.at(west, north),
            self.at(east, north),
            self.at(west, south),
            self.at(east, south),
        ]
    }

    /// The four samples around a position.
    pub fn sample(&self, column: i64, row: i64) -> (samples: [u32; 4])
        requires
            self.wf(),
            column < i64::MAX,
            row < i64::MAX,
        ensures
            samples@ == self.samples_around(column as int, row as int),
    {
        self.row_sampler(row).sample(column)
    }

    /// Fixes the row of the positions to come.
    pub fn row_sampler(&self, row: i64) -> (sampler: RowSampler<'_>)
        requires
            self.wf(),
            row < i64::MAX,
        ensures
            sampler.wf(),
            forall|column: int| #[trigger]
                sampler.samples_around(column) == self.samples_around(column, row as int),
    {
        let width: u32 = self.width_px();
        let height: u32 = self.height_px();
        proof {
            lemma_sides(self.tiles_x as int, self.tile_size as int);
            lemma_sides(self.tiles_y as int, self.tile_size as int);
        }
        let (north, south) = bracket(row, height);
        proof {
            lemma_row_in_grid(north as int, width as int, height as int);
            lemma_row_in_grid(south as int, width as int, height as int);
            assert(self.elev.len() <= usize::MAX);
        }
        let sampler = RowSampler {
            elev: self.elev.as_slice(),
            width,
            north: north as usize * width as usize,
            south: south as usize * width as usize,
        };
        proof {
            assert forall|column: int| #[trigger]
                sampler.samples_around(column) == self.samples_around(column, row as int) by {
                assert(sampler.samples_around(column) =~= self.samples_around(
                    column,
                    row as int,
                ));
            }
        }
        sampler
    }
}

/// Tiles are stitched where they belong: sample `(sx, sy)` of the tile in column `tx` and row
/// `ty` of the block is the sample of the grid in column `tx * size + sx` and row
/// `ty * size + sy`, in a list by rows from the northwest.
pub proof fn law_stitched_in_place(
    tiles_x: int,
    tiles_y: int,
    size: int,
    tx: int,
    ty: int,
    sx: int,
    sy: int,
)
    requires
        0 <= tx < tiles_x,
        0 <= ty < tiles_y,
        0 <= sx < size,
        0 <= sy < size,
    ensures
        0 <= tx * size + sx < tiles_x * size,
        0 <= ty * size + sy < tiles_y * size,
        tile_of(tiles_x, size, tx * size + sx, ty * size + sy) == ty * tiles_x + tx,
        sample_in_tile(size, tx * size + sx, ty * size + sy) == sy * size + sx,
{
    vstd::arithmetic::div_mod::lemma_fundamental_div_mod_converse(tx * size + sx, size, tx, sx);
    vstd::arithmetic::div_mod::lemma_fundamental_div_mod_converse(ty * size + sy, size, ty, sy);
    lemma_row_in_grid(tx, size, tiles_x);
    lemma_row_in_grid(ty, size, tiles_y);
    assert(size * tiles_x == tiles_x * size && size * tiles_y == tiles_y * size) by (
    nonlinear_arith);
}

/// Between grid points, the samples around a position are the four corners of its cell, row by
/// row from the northwest.
pub proof fn law_samples_are_cell_corners(dem: MercatorDem, column: int, row: int)
    requires
        dem.wf(),
        0 <= column,
        column + 1 < dem.tiles_x * dem.tile_size,
        0 <= row,
        row + 1 < dem.tiles_y * dem.tile_size,
    ensures
        ({
            let width = dem.tiles_x * dem.tile_size;
            let e = dem.elev@;
            let s = dem.samples_around(column, row);
            &&& e.len() == width * (dem.tiles_y * dem.tile_size)
            &&& s.len() == 4
            &&& s[0] == e[row * width + column]
            &&& s[1] == e[row * width + column + 1]
            &&& s[2] == e[(row + 1) * width + column]
            &&& s[3] == e[(row + 1) * width + column + 1]
        }),
{
}

/// Column `x` is one of the block's.
pub open spec fn block_column(block: (u32, u32, u32, u32), x: int) -> bool {
    block.0 <= x < block.0 + block.2
}

/// Row `y` is one of the block's.
pub open spec fn block_row(block: (u32, u32, u32, u32), y: int) -> bool {
    block.1 <= y < block.1 + block.3
}

/// The two rows of samples around positions of one row.
pub struct RowSampler<'a> {
    pub elev: &'a [u32],
    pub width: u32,
    /// Where the northern row starts.
    pub north: usize,
    /// Where the southern row starts.
    pub south: usize,
}

impl<'a> RowSampler<'a> {
    /// Both rows lie within the elevations.
    pub open spec fn wf(&self) -> bool {
        &&& self.width > 0
        &&& self.north + self.width <= self.elev@.len()
        &&& self.south + self.width <= self.elev@.len()
    }

    /// The four samples around a position, given by its column rounded down.
    pub open spec fn samples_around(&self, column: int) -> Seq<u32> {
        let west = nearest(column, self.width as int);
        let east = nearest(column + 1, self.width as int);
        seq![
            self.elev@[self.north + west],
            self.elev@[self.north + east],
            self.elev@[self.south + west],
            self.elev@[self.south + east],
        ]
    }

    /// The four samples around a position: northwest, northeast, southwest, southeast.
    pub fn sample(&self, column: i64) -> (samples: [u32; 4])
        requires
            self.wf(),
            column < i64::MAX,
        ensures
            samples@ == self.samples_around(column as int),
    {
        let (west, east) = bracket(column, self.width);
        assert(self.elev.len() <= usize::MAX);
        let samples: [u32; 4] = [
            self.elev[self.north + west as usize],
            self.elev[self.north + east as usize],
            self.elev[self.south + west as usize],
            self.elev[self.south + east as usize],
        ];
        assert(samples@ =~= self.samples_around(column as int));
        samples
    }
}

proof fn lemma_sides(tiles: int, size: int)
    requires
        tiles > 0,
        size > 0,
    ensures
        tiles * size > 0,
{
    assert(tiles * size > 0) by (nonlinear_arith)
        requires
            tiles > 0,
            size > 0,
    ;
}

proof fn lemma_rows(y: int, w: int)
    ensures
        0 * w == 0,
        y * w + w == (y + 1) * w,
{
    assert(0 * w == 0) by (nonlinear_arith);
    assert(y * w + w == (y + 1) * w) by (nonlinear_arith);
}

/// A sample that comes before `(x, y)` has a lower position.
proof fn lemma_before(r: int, c: int, y: int, x: int, w: int)
    requires
        0 <= c < w,
        0 <= r,
        0 <= x,
        r < y || (r == y && c <= x),
    ensures
        0 <= r * w + c,
        r * w + c <= y * w + x,
        r < y || c < x ==> r * w + c < y * w + x,
{
    assert(0 <= r * w) by (nonlinear_arith)
        requires
            0 <= r,
            0 < w,
    ;
    if r < y {
        assert(r * w + w <= y * w) by (nonlinear_arith)
            requires
                r + 1 <= y,
                0 < w,
        ;
    }
}

proof fn lemma_row_in_grid(row: int, width: int, height: int)
    requires
        0 <= row < height,
        0 < width,
    ensures
        0 <= row * width,
        row * width + width <= width * height,
{
    assert(0 <= row * width && row * width + width <= width * height) by (nonlinear_arith)
        requires
            0 <= row,
            row + 1 <= height,
            0 < width,
    ;
}

/// Every grid sample is a sample of one of the tiles.
proof fn lemma_tile_position(tiles_x: int, tiles_y: int, size: int, x: int, y: int)
    requires
        0 < size,
        0 < tiles_x,
        0 <= x < tiles_x * size,
        0 <= y < tiles_y * size,
    ensures
        0 <= x / size < tiles_x,
        0 <= y / size < tiles_y,
        0 <= (y / size) * tiles_x,
        0 <= tile_of(tiles_x, size, x, y) < tiles_x * tiles_y,
        0 <= (y % size) * size,
        0 <= sample_in_tile(size, x, y) < size * size,
{
    lemma_quotient(x, size, tiles_x);
    lemma_quotient(y, size, tiles_y);
    lemma_row_in_grid(y / size, tiles_x, tiles_y);
    lemma_row_in_grid(y % size, size, size);
}

proof fn lemma_quotient(v: int, size: int, count: int)
    requires
        0 < size,
        0 <= v < count * size,
    ensures
        0 <= v / size < count,
        0 <= v % size < size,
{
    vstd::arithmetic::div_mod::lemma_fundamental_div_mod(v, size);
    vstd::arithmetic::div_mod::lemma_mod_bound(v, size);
    let q = v / size;
    vstd::arithmetic::div_mod::lemma_div_pos_is_pos(v, size);
    assert(q < count) by (nonlinear_arith)
        requires
            size * q <= v,
            v < count * size,
            0 < size,
    ;
}

} // verus!
