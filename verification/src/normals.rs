//! Which samples and triangles the normal of a vertex is computed from.
//!
//! Elevations are the IEEE 754 bits of 64-bit floats.
use crate::interpolation::{bracket, nearest};
use vstd::prelude::*;

verus! {

/// Elevations on a grid that extends `buffer` cells beyond the tile on each side, row by row
/// from north to south. The cells beyond the tile hold the elevations of its neighbours.
#[derive(Debug, Clone)]
pub struct BufferedElevations {
    /// Elevations.
    pub elevations: Vec<u64>,
    /// Cells beyond the tile on each side.
    pub buffer: u32,
    /// Samples a side of the tile.
    pub tile_grid_size: u32,
}

impl BufferedElevations {
    /// Samples a side.
    pub open spec fn side(&self) -> int {
        self.tile_grid_size + 2 * self.buffer
    }

    /// The elevations are those of the tile and its buffer.
    pub open spec fn wf(&self) -> bool {
        &&& self.side() <= u32::MAX
        &&& self.elevations@.len() == self.side() * self.side()
    }

    /// The elevation in column `x` of row `y`.
    pub open spec fn at(&self, x: int, y: int) -> u64 {
        self.elevations@[y * self.side() + x]
    }

    /// Wraps the elevations of a tile and its buffer.
    pub fn new(elevations: Vec<u64>, tile_grid_size: u32, buffer: u32) -> (buffered:
        BufferedElevations)
        requires
            tile_grid_size + 2 * buffer <= u32::MAX,
            elevations.len() == (tile_grid_size + 2 * buffer) * (tile_grid_size + 2 * buffer),
        ensures
            buffered.wf(),
            buffered == (BufferedElevations { elevations, buffer, tile_grid_size }),
    {
        BufferedElevations { elevations, buffer, tile_grid_size }
    }

    /// Samples a side.
    pub fn buffered_grid_size(&self) -> (n: u32)
        requires
            self.wf(),
        ensures
            n == self.side(),
    {
        self.tile_grid_size + 2 * self.buffer
    }

    /// The four samples around a position, given by its column and row rounded down: northwest,
    /// northeast, southwest, southeast. Off the grid they are the nearest ones.
    pub open spec fn samples_around(&self, column: int, row: int) -> Seq<u64> {
        let west = nearest(column, self.side());
        let east = nearest(column + 1, self.side());
        let north = nearest(row, self.side());
        let south = nearest(row + 1, self.side());
        seq![
            self.at(west, north),
            self.at(east, north),
            self.at(west, south),
            self.at(east, south),
        ]
    }

    /// The four samples around a position.
    pub fn sample(&self, column: i64, row: i64) -> (samples: [u64; 4])
        requires
            self.wf(),
            self.side() > 0,
            column < i64::MAX,
            row < i64::MAX,
        ensures
            samples@ == self.samples_around(column as int, row as int),
    {
        let side: u32 = self.buffered_grid_size();
        let (west, east) = bracket(column, side);
        let (north, south) = bracket(row, side);
        proof {
            lemma_in_square(west as int, north as int, side as int);
            lemma_in_square(east as int, north as int, side as int);
            lemma_in_square(west as int, south as int, side as int);
            lemma_in_square(east as int, south as int, side as int);
            assert(self.elevations.len() <= usize::MAX);
        }
        let top: usize = north as usize * side as usize;
        let bottom: usize = south as usize * side as usize;
        let samples: [u64; 4] = [
            self.elevations[top + west as usize],
            self.elevations[top + east as usize],
            self.elevations[bottom + west as usize],
            self.elevations[bottom + east as usize],
        ];
        assert(samples@ =~= self.samples_around(column as int, row as int));
        samples
    }
}

/// Between grid points, the samples around a position are the four corners of its cell, row by
/// row from the northwest; the rows run from north to south, `tile_grid_size + 2 * buffer`
/// samples each.
pub proof fn law_samples_are_cell_corners(buffered: BufferedElevations, column: int, row: int)
    requires
        buffered.wf(),
        0 <= column,
        column + 1 < buffered.tile_grid_size + 2 * buffered.buffer,
        0 <= row,
        row + 1 < buffered.tile_grid_size + 2 * buffered.buffer,
    ensures
        ({
            let side = buffered.tile_grid_size + 2 * buffered.buffer;
            let e = buffered.elevations@;
            let s = buffered.samples_around(column, row);
            &&& e.len() == side * side
            &&& s.len() == 4
            &&& s[0] == e[row * side + column]
            &&& s[1] == e[row * side + column + 1]
            &&& s[2] == e[(row + 1) * side + column]
            &&& s[3] == e[(row + 1) * side + column + 1]
        }),
{
}

proof fn lemma_in_square(x: int, y: int, side: int)
    requires
        0 <= x < side,
        0 <= y < side,
    ensures
        0 <= y * side,
        y * side + x < side * side,
{
    assert(0 <= y * side && y * side + x < side * side) by (nonlinear_arith)
        requires
            0 <= x < side,
            0 <= y,
            y + 1 <= side,
    ;
}

impl BufferedElevations {
    /// The elevations are those of the terrain from column `x0` and row `y0` on.
    pub open spec fn cut_from(
        &self,
        terrain: spec_fn(int, int) -> u64,
        x0: int,
        y0: int,
    ) -> bool {
        forall|x: int, y: int|
            0 <= x < self.side() && 0 <= y < self.side() ==> #[trigger] self.at(x, y) == terrain(
                x0 + x,
                y0 + y,
            )
    }
}

/// The samples below and above position `p` of one grid lie in a grid of the same size that
/// starts `shift` samples earlier, or the grids start together.
pub open spec fn in_overlap(p: int, shift: int, side: int) -> bool {
    shift == 0 || (0 <= p && p + 1 < side && 0 <= p + shift && p + shift + 1 < side)
}

/// Two tiles cut from the same terrain take the same samples around every position of their
/// overlap.
pub proof fn law_overlap_takes_same_samples(
    first: BufferedElevations,
    second: BufferedElevations,
    terrain: spec_fn(int, int) -> u64,
    x_shift: int,
    y_shift: int,
    column: int,
    row: int,
)
    requires
        first.side() == second.side() > 0,
        first.cut_from(terrain, 0, 0),
        second.cut_from(terrain, x_shift, y_shift),
        in_overlap(column, x_shift, second.side()),
        in_overlap(row, y_shift, second.side()),
    ensures
        first.samples_around(column + x_shift, row + y_shift) == second.samples_around(column, row),
{
    let side = second.side();
    let west = nearest(column, side);
    let east = nearest(column + 1, side);
    let north = nearest(row, side);
    let south = nearest(row + 1, side);
    assert(first.at(west + x_shift, north + y_shift) == second.at(west, north));
    assert(first.at(east + x_shift, north + y_shift) == second.at(east, north));
    assert(first.at(west + x_shift, south + y_shift) == second.at(west, south));
    assert(first.at(east + x_shift, south + y_shift) == second.at(east, south));
    assert(first.samples_around(column + x_shift, row + y_shift) =~= second.samples_around(
        column,
        row,
    ));
}

/// Two tiles side by side, the second to the east of the first or to its south, take the same
/// samples around every position of the edge they share, and within the buffer on both sides
/// of it.
pub proof fn law_seam_takes_same_samples(
    first: BufferedElevations,
    second: BufferedElevations,
    terrain: spec_fn(int, int) -> u64,
    across: int,
    along: int,
)
    requires
        first.wf(),
        second.wf(),
        first.tile_grid_size == second.tile_grid_size > 0,
        first.buffer == second.buffer,
        first.cut_from(terrain, 0, 0),
        0 <= across < 2 * first.buffer,
    ensures
        second.cut_from(terrain, first.tile_grid_size - 1, 0) ==> first.samples_around(
            across + first.tile_grid_size - 1,
            along,
        ) == second.samples_around(across, along),
        second.cut_from(terrain, 0, first.tile_grid_size - 1) ==> first.samples_around(
            along,
            across + first.tile_grid_size - 1,
        ) == second.samples_around(along, across),
{
    let shift = first.tile_grid_size - 1;
    if second.cut_from(terrain, shift, 0) {
        law_overlap_takes_same_samples(first, second, terrain, shift, 0, across, along);
    }
    if second.cut_from(terrain, 0, shift) {
        law_overlap_takes_same_samples(first, second, terrain, 0, shift, along, across);
    }
}

/// The whole triangles of a list of indices; up to two indices at the end are left out.
pub fn face_triangles(indices: &[u32]) -> (triangles: Vec<[u32; 3]>)
    ensures
        triangles@.len() == indices@.len() / 3,
        forall|t: int|
            0 <= t < triangles@.len() ==> (#[trigger] triangles@[t])@ == indices@.subrange(
                3 * t,
                3 * t + 3,
            ),
{
    let count: usize = indices.len() / 3;
    let mut triangles: Vec<[u32; 3]> = Vec::with_capacity(count);
    let mut t: usize = 0;
    while t < count
        invariant
            t <= count,
            3 * count <= indices.len(),
            count == indices@.len() / 3,
            triangles@.len() == t,
            forall|k: int|
                0 <= k < t ==> (#[trigger] triangles@[k])@ == indices@.subrange(3 * k, 3 * k + 3),
        decreases count - t,
    {
        let triangle: [u32; 3] = [indices[3 * t], indices[3 * t + 1], indices[3 * t + 2]];
        assert(triangle@ =~= indices@.subrange(3 * t, 3 * t + 3));
        triangles.push(triangle);
        t = t + 1;
    }
    triangles
}

} // verus!
