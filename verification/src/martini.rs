//! RTIN mesh generation for terrain tiles.
//!
//! A [`Martini`] holds the long edges of every triangle of the network over a square grid,
//! a [`Tile`] the error that leaving out each grid vertex would cause, and
//! [`Tile::construct_mesh`] picks the coarsest triangles whose error stays within a bound.
//!
//! Errors are order keys (see [`crate::float_bits`]): integers that compare as the errors they
//! stand for, with 0 for no error.
use crate::rtin::{
    depth, descend, is_tile_side, lemma_depth_bound, lemma_half_level, lemma_half_within,
    lemma_level_span, lemma_root_level, lemma_triangle_level, lemma_triangle_within, order, root, triangle,
    Triangle,
};
use crate::streams::{in_first_use_order, lemma_mark_prefix, mark};
use vstd::arithmetic::power2::pow2;
use vstd::prelude::*;

verus! {

/// Pre-computed triangle coordinates for one grid size.
pub struct Martini {
    /// Grid size, `2^n + 1`.
    pub size: u32,
    /// Number of triangles of the network that have an inner vertex to drop.
    pub num_triangles: u32,
    /// Number of triangles whose halves are counted too.
    pub num_parent_triangles: u32,
    /// Ends of the long edge of each triangle: `ax, ay, bx, by`.
    pub coords: Vec<u32>,
    /// Mesh index of each grid vertex, while a mesh is built.
    pub index_map: Vec<Option<usize>>,
}

/// Coordinate number `k` of the list `ax, ay, bx, by`.
pub open spec fn long_edge_coord(tri: Triangle, k: int) -> u32 {
    if k == 0 {
        tri.ax as u32
    } else if k == 1 {
        tri.ay as u32
    } else if k == 2 {
        tri.bx as u32
    } else {
        tri.by as u32
    }
}

/// Number of triangles counted for a tile of `t` cells a side.
pub open spec fn triangle_count(t: int) -> int {
    2 * (t * t) - 2
}

/// The long edges of all counted triangles of a tile of `t` cells a side.
pub open spec fn network_coords(t: int) -> Seq<u32> {
    Seq::new(
        (4 * triangle_count(t)) as nat,
        |k: int| long_edge_coord(triangle(t, (k / 4 + 2) as nat), k % 4),
    )
}

impl Martini {
    /// The counts and the scratch map fit the grid size.
    pub open spec fn wf(&self) -> bool {
        &&& is_tile_side(self.size - 1)
        &&& self.num_triangles == triangle_count(self.size - 1)
        &&& self.num_parent_triangles == (self.size - 1) * (self.size - 1) - 2
        &&& self.index_map@.len() == self.size * self.size
    }
}

/// Powers of two in the range of tile sides, and the bounds that follow.
pub proof fn lemma_tile_side(t: int)
    requires
        is_tile_side(t),
    ensures
        2 <= t <= 0x8000,
        4 <= t * t <= 0x4000_0000,
        (t + 1) * (t + 1) <= 0x4001_0001,
{
    vstd::arithmetic::power2::lemma2_to64();
    let n = order(t);
    if n > 1 {
        vstd::arithmetic::power2::lemma_pow2_strictly_increases(1, n);
    }
    if n < 15 {
        vstd::arithmetic::power2::lemma_pow2_strictly_increases(n, 15);
    }
    assert(2 <= t <= 0x8000);
    assert(4 <= t * t <= 0x4000_0000) by (nonlinear_arith)
        requires
            2 <= t <= 0x8000,
    ;
    assert((t + 1) * (t + 1) == t * t + 2 * t + 1) by (nonlinear_arith);
}

/// Whether a tile side is a power of two shows in its bits.
proof fn lemma_side_bits(t: u32)
    requires
        2 <= t <= 0x8000,
    ensures
        (t & ((t - 1) as u32) == 0) == is_tile_side(t as int),
{
    vstd::arithmetic::power2::lemma2_to64();
    let below = (t - 1) as u32;
    assert(t & below == 0 <==> (t == 2 || t == 4 || t == 8 || t == 0x10 || t == 0x20 || t == 0x40
        || t == 0x80 || t == 0x100 || t == 0x200 || t == 0x400 || t == 0x800 || t == 0x1000 || t
        == 0x2000 || t == 0x4000 || t == 0x8000)) by (bit_vector)
        requires
            2 <= t <= 0x8000,
            below == t - 1,
    ;
    if is_tile_side(t as int) {
        let n = order(t as int);
        assert(t == pow2(n) && 1 <= n <= 15);
    } else {
        assert(pow2(1) == 2 && pow2(2) == 4 && pow2(3) == 8 && pow2(4) == 0x10 && pow2(5) == 0x20
            && pow2(6) == 0x40 && pow2(7) == 0x80 && pow2(8) == 0x100 && pow2(9) == 0x200
            && pow2(10) == 0x400 && pow2(11) == 0x800 && pow2(12) == 0x1000 && pow2(13) == 0x2000
            && pow2(14) == 0x4000 && pow2(15) == 0x8000);
    }
}

impl Martini {
    /// Whether a network can be built on a grid of `size` vertices a side: `size` is
    /// `2^n + 1`, and the triangle count fits.
    pub fn is_valid_size(size: u32) -> (valid: bool)
        ensures
            valid == is_tile_side(size - 1),
    {
        if size < 3 || size > 0x8001 {
            proof {
                if is_tile_side(size - 1) {
                    lemma_tile_side(size - 1);
                }
            }
            return false;
        }
        let tile_size: u32 = size - 1;
        proof {
            lemma_side_bits(tile_size);
        }
        tile_size & (tile_size - 1) == 0
    }

    /// Creates the network for a grid of `size` vertices a side.
    pub fn new(size: u32) -> (martini: Martini)
        requires
            is_tile_side(size - 1),
            4 * triangle_count(size - 1) <= usize::MAX,
        ensures
            martini.wf(),
            martini.size == size,
            martini.coords@ == network_coords(size - 1),
            martini.covers_grid(),
            forall|i: int| 0 <= i < martini.index_map@.len() ==> martini.index_map@[i] is None,
    {
        proof {
            lemma_tile_side(size - 1);
        }
        let tile_size: u32 = size - 1;
        let num_triangles: u32 = tile_size * tile_size * 2 - 2;
        let coords = Self::construct_coords(tile_size, num_triangles as usize);
        let martini = Self::with_coords(size, coords);
        proof {
            lemma_network_covers_grid(martini);
        }
        martini
    }

    /// Creates the network for a grid of `size` vertices a side from coordinates computed
    /// before.
    pub fn with_coords(size: u32, coords: Vec<u32>) -> (martini: Martini)
        requires
            is_tile_side(size - 1),
        ensures
            martini.wf(),
            martini.size == size,
            martini.coords == coords,
            forall|i: int| 0 <= i < martini.index_map@.len() ==> martini.index_map@[i] is None,
    {
        proof {
            lemma_tile_side(size - 1);
        }
        let tile_size: u32 = size - 1;
        let num_triangles: u32 = tile_size * tile_size * 2 - 2;
        let num_parent_triangles: u32 = num_triangles - tile_size * tile_size;
        let index_map: Vec<Option<usize>> = vec![None; (size * size) as usize];
        Martini { size, num_triangles, num_parent_triangles, coords, index_map }
    }

    /// Lists the long edge of each triangle, found from its number in the implicit binary
    /// tree.
    fn construct_coords(tile_size: u32, num_triangles: usize) -> (coords: Vec<u32>)
        requires
            is_tile_side(tile_size as int),
            num_triangles == triangle_count(tile_size as int),
            4 * num_triangles <= usize::MAX,
        ensures
            coords@ == network_coords(tile_size as int),
    {
        proof {
            lemma_tile_side(tile_size as int);
        }
        let ghost t = tile_size as int;
        let mut coords: Vec<u32> = Vec::with_capacity(num_triangles * 4);
        let mut i: usize = 0;
        while i < num_triangles
            invariant
                t == tile_size,
                2 <= t <= 0x8000,
                num_triangles == triangle_count(t),
                4 * num_triangles <= usize::MAX,
                i <= num_triangles,
                coords@.len() == 4 * i,
                forall|k: int| 0 <= k < 4 * i ==> coords@[k] == network_coords(t)[k],
            decreases num_triangles - i,
        {
            let mut id: usize = i + 2;
            let mut ax: u32 = 0;
            let mut ay: u32 = 0;
            let mut bx: u32 = 0;
            let mut by: u32 = 0;
            let mut cx: u32 = 0;
            let mut cy: u32 = 0;
            if id % 2 == 1 {
                bx = tile_size;
                by = tile_size;
                cx = tile_size;
            } else {
                ax = tile_size;
                ay = tile_size;
                cy = tile_size;
            }
            let ghost goal = triangle(t, id as nat);
            id = id / 2;
            while id > 1
                invariant
                    t == tile_size,
                    t <= 0x8000,
                    ax <= t && ay <= t && bx <= t && by <= t && cx <= t && cy <= t,
                    id >= 1,
                    descend(
                        (Triangle {
                            ax: ax as int,
                            ay: ay as int,
                            bx: bx as int,
                            by: by as int,
                            cx: cx as int,
                            cy: cy as int,
                        }),
                        id as nat,
                    ) == goal,
                decreases id,
            {
                let mx: u32 = (ax + bx) / 2;
                let my: u32 = (ay + by) / 2;
                if id % 2 == 1 {
                    bx = ax;
                    by = ay;
                    ax = cx;
                    ay = cy;
                } else {
                    ax = bx;
                    ay = by;
                    bx = cx;
                    by = cy;
                }
                cx = mx;
                cy = my;
                id = id / 2;
            }
            assert(goal.ax == ax && goal.ay == ay && goal.bx == bx && goal.by == by);
            coords.push(ax);
            coords.push(ay);
            coords.push(bx);
            coords.push(by);
            i = i + 1;
            proof {
                assert forall|k: int| 0 <= k < 4 * i implies coords@[k] == network_coords(
                    t,
                )[k] by {
                    if k >= 4 * (i - 1) {
                        assert(k / 4 == i - 1);
                        assert(k % 4 == k - 4 * (i - 1));
                    }
                }
            }
        }
        assert(coords@ =~= network_coords(t));
        coords
    }
}

/// Position of a grid vertex in a row-by-row list, `size` vertices a row.
pub open spec fn grid_index(size: int, x: int, y: int) -> int {
    y * size + x
}

/// Position of the vertex in the middle of a triangle's long edge.
pub open spec fn middle_index(size: int, tri: Triangle) -> int {
    grid_index(size, tri.mx(), tri.my())
}

/// Triangle number `i`: the listed long edge, and the right angle that goes with it.
pub open spec fn listed_triangle(coords: Seq<u32>, i: int) -> Triangle {
    let ax = coords[4 * i] as int;
    let ay = coords[4 * i + 1] as int;
    let bx = coords[4 * i + 2] as int;
    let by = coords[4 * i + 3] as int;
    let mx = (ax + bx) / 2;
    let my = (ay + by) / 2;
    Triangle { ax, ay, bx, by, cx: mx + my - ay, cy: my + ax - mx }
}

/// The larger of two order keys.
pub open spec fn larger(a: i64, b: i64) -> i64 {
    if a >= b {
        a
    } else {
        b
    }
}

/// The error held at position `i`, 0 off the grid.
pub open spec fn error_at(errors: Seq<i64>, i: int) -> i64 {
    if 0 <= i < errors.len() {
        errors[i]
    } else {
        0
    }
}

/// Accounts for one triangle: the middle of its long edge takes its own error if that is
/// larger, and for a parent also those held at the middles of its two halves.
pub open spec fn account(
    errors: Seq<i64>,
    size: int,
    tri: Triangle,
    parent: bool,
    middle_error: i64,
) -> Seq<i64> {
    let m = middle_index(size, tri);
    let own = errors.update(m, larger(errors[m], middle_error));
    if parent {
        own.update(
            m,
            larger(
                larger(own[m], error_at(own, middle_index(size, tri.half(true)))),
                error_at(own, middle_index(size, tri.half(false))),
            ),
        )
    } else {
        own
    }
}

/// The errors once triangles `i` and up are accounted for, the last one first.
pub open spec fn errors_from(
    size: int,
    coords: Seq<u32>,
    parents: int,
    middle_errors: Seq<i64>,
    i: int,
) -> Seq<i64>
    decreases middle_errors.len() - i,
{
    if i >= middle_errors.len() {
        Seq::new((size * size) as nat, |k: int| 0i64)
    } else {
        account(
            errors_from(size, coords, parents, middle_errors, i + 1),
            size,
            listed_triangle(coords, i),
            i < parents,
            middle_errors[i],
        )
    }
}

/// The list of the network holds its triangles.
pub proof fn lemma_listed_triangle(t: int, i: int)
    requires
        is_tile_side(t),
        0 <= i < triangle_count(t),
    ensures
        listed_triangle(network_coords(t), i) == triangle(t, (i + 2) as nat),
{
    lemma_tile_side(t);
    let n = order(t);
    let id = (i + 2) as nat;
    let tri = triangle(t, id);
    let coords = network_coords(t);
    lemma_triangle_within(t, id);
    lemma_id_depth(t, n, id);
    lemma_triangle_level(t, n, id);
    lemma_half_within(tri, (2 * n + 1 - depth(id)) as nat, t, true);
    assert((4 * i) / 4 == i && (4 * i) % 4 == 0);
    assert((4 * i + 1) / 4 == i && (4 * i + 1) % 4 == 1);
    assert((4 * i + 2) / 4 == i && (4 * i + 2) % 4 == 2);
    assert((4 * i + 3) / 4 == i && (4 * i + 3) % 4 == 3);
    let listed = listed_triangle(coords, i);
    assert(listed.ax == tri.ax && listed.ay == tri.ay);
    assert(listed.bx == tri.bx && listed.by == tri.by);
    assert(tri.right_isosceles());
}

/// The counted triangles are those that can be cut, and the parents those whose halves can
/// be cut too.
pub proof fn lemma_id_depth(t: int, n: nat, id: nat)
    requires
        t == pow2(n),
        id >= 2,
    ensures
        id < 2 * (t * t) <==> depth(id) <= 2 * n,
        id < t * t <==> depth(id) < 2 * n,
{
    vstd::arithmetic::power2::lemma_pow2_adds(n, n);
    vstd::arithmetic::power2::lemma_pow2_unfold(2 * n + 1);
    lemma_depth_bound(id, 2 * n);
    if n >= 1 {
        lemma_depth_bound(id, (2 * n - 1) as nat);
    } else {
        vstd::arithmetic::power2::lemma2_to64();
    }
}

proof fn lemma_network_covers_grid(martini: Martini)
    requires
        martini.wf(),
        martini.coords@ == network_coords(martini.size - 1),
    ensures
        martini.covers_grid(),
{
    let t = martini.size - 1;
    lemma_tile_side(t);
    assert forall|i: int| 0 <= i < martini.num_triangles implies middle_index(
        martini.size as int,
        #[trigger] listed_triangle(martini.coords@, i),
    ) < martini.size * martini.size by {
        lemma_listed_triangle(t, i);
        lemma_triangle_within(t, (i + 2) as nat);
        let tri = triangle(t, (i + 2) as nat);
        lemma_grid_index(martini.size as int, tri.mx(), tri.my());
    }
}

impl Martini {
    /// The coordinates cover every triangle, and every long edge has its middle on the grid.
    pub open spec fn covers_grid(&self) -> bool {
        &&& 4 * self.num_triangles <= self.coords@.len()
        &&& forall|i: int|
            0 <= i < self.num_triangles ==> middle_index(
                self.size as int,
                #[trigger] listed_triangle(self.coords@, i),
            ) < self.size * self.size
    }

    /// The errors that a tile holds for the given errors in the middle of the long edges.
    pub open spec fn errors(&self, middle_errors: Seq<i64>) -> Seq<i64> {
        errors_from(
            self.size as int,
            self.coords@,
            self.num_parent_triangles as int,
            middle_errors,
            0,
        )
    }

    /// The ends and the middle of the long edge of triangle `i`: the three vertices that its
    /// error is measured at.
    pub fn long_edge(&self, i: usize) -> (edge: ((u32, u32), (u32, u32), (u32, u32)))
        requires
            4 * i + 3 < self.coords.len(),
        ensures
            ({
                let tri = listed_triangle(self.coords@, i as int);
                &&& edge.0.0 == tri.ax && edge.0.1 == tri.ay
                &&& edge.1.0 == tri.bx && edge.1.1 == tri.by
                &&& edge.2.0 == tri.mx() && edge.2.1 == tri.my()
            }),
    {
        let k: usize = i * 4;
        let ax: u32 = self.coords[k];
        let ay: u32 = self.coords[k + 1];
        let bx: u32 = self.coords[k + 2];
        let by: u32 = self.coords[k + 3];
        let mx: u32 = ((ax as u64 + bx as u64) / 2) as u32;
        let my: u32 = ((ay as u64 + by as u64) / 2) as u32;
        ((ax, ay), (bx, by), (mx, my))
    }

    /// Creates a terrain tile from the error in the middle of each triangle's long edge, in
    /// the order of the triangles.
    pub fn create_terrain(&self, middle_errors: &[i64]) -> (tile: Tile)
        requires
            self.wf(),
            self.covers_grid(),
            middle_errors.len() == self.num_triangles,
        ensures
            tile.errors@ == self.errors(middle_errors@),
            tile.errors@.len() == self.size * self.size,
    {
        Tile::new(self, middle_errors)
    }
}

/// A terrain tile: the error of leaving out each grid vertex, row by row.
pub struct Tile {
    pub errors: Vec<i64>,
}

impl Tile {
    fn new(martini: &Martini, middle_errors: &[i64]) -> (tile: Tile)
        requires
            martini.wf(),
            martini.covers_grid(),
            middle_errors.len() == martini.num_triangles,
        ensures
            tile.errors@ == martini.errors(middle_errors@),
            tile.errors@.len() == martini.size * martini.size,
    {
        Tile { errors: Self::compute_errors(martini, middle_errors) }
    }

    /// The error held at a signed position, 0 off the grid.
    fn error_or_zero(errors: &Vec<i64>, i: i64) -> (e: i64)
        requires
            errors.len() <= i64::MAX,
        ensures
            e == error_at(errors@, i as int),
    {
        if 0 <= i && i < errors.len() as i64 {
            errors[i as usize]
        } else {
            0
        }
    }

    /// Accounts for all triangles, starting from the smallest.
    fn compute_errors(martini: &Martini, middle_errors: &[i64]) -> (errors: Vec<i64>)
        requires
            martini.wf(),
            martini.covers_grid(),
            middle_errors.len() == martini.num_triangles,
        ensures
            errors@ == martini.errors(middle_errors@),
            errors@.len() == martini.size * martini.size,
    {
        proof {
            lemma_tile_side(martini.size - 1);
        }
        let size: i64 = martini.size as i64;
        let parents: usize = martini.num_parent_triangles as usize;
        let mut errors: Vec<i64> = vec![0; (martini.size * martini.size) as usize];
        let mut i: usize = martini.num_triangles as usize;
        assert(errors@ =~= errors_from(
            size as int,
            martini.coords@,
            parents as int,
            middle_errors@,
            i as int,
        ));
        while i > 0
            invariant
                martini.wf(),
                martini.covers_grid(),
                middle_errors.len() == martini.num_triangles,
                size == martini.size,
                3 <= size <= 0x8001,
                parents == martini.num_parent_triangles,
                i <= martini.num_triangles,
                errors@.len() == size * size,
                size * size <= 0x4001_0001,
                errors@ == errors_from(
                    size as int,
                    martini.coords@,
                    parents as int,
                    middle_errors@,
                    i as int,
                ),
            decreases i,
        {
            i = i - 1;
            assert(martini.coords.len() >= 4 * martini.num_triangles);
            let k: usize = i * 4;
            let ax: i64 = martini.coords[k] as i64;
            let ay: i64 = martini.coords[k + 1] as i64;
            let bx: i64 = martini.coords[k + 2] as i64;
            let by: i64 = martini.coords[k + 3] as i64;
            let ghost tri = listed_triangle(martini.coords@, i as int);
            let ghost before = errors@;
            let mx: i64 = (ax + bx) / 2;
            let my: i64 = (ay + by) / 2;
            let cx: i64 = mx + my - ay;
            let cy: i64 = my + ax - mx;
            assert(tri.cx == cx && tri.cy == cy);
            proof {
                lemma_scaled_row(my as int, size as int);
            }
            assert(middle_index(size as int, tri) < size * size);
            let middle: usize = (my * size + mx) as usize;
            let own: i64 = Self::max(errors[middle], middle_errors[i]);
            errors.set(middle, own);
            if i < parents {
                let left_row: i64 = Self::halve(ay + cy);
                let right_row: i64 = Self::halve(by + cy);
                proof {
                    lemma_scaled_row(left_row as int, size as int);
                    lemma_scaled_row(right_row as int, size as int);
                }
                let left: i64 = left_row * size + Self::halve(ax + cx);
                let right: i64 = right_row * size + Self::halve(bx + cx);
                let left_error: i64 = Self::error_or_zero(&errors, left);
                let right_error: i64 = Self::error_or_zero(&errors, right);
                errors.set(middle, Self::max(Self::max(own, left_error), right_error));
                assert(left == middle_index(size as int, tri.half(true)));
                assert(right == middle_index(size as int, tri.half(false)));
            }
            assert(errors@ =~= account(
                before,
                size as int,
                tri,
                i < parents,
                middle_errors@[i as int],
            ));
        }
        errors
    }

    fn max(a: i64, b: i64) -> (c: i64)
        ensures
            c == larger(a, b),
    {
        if a >= b {
            a
        } else {
            b
        }
    }

    /// Half of a signed coordinate sum, rounded down.
    fn halve(v: i64) -> (h: i64)
        requires
            -0x10_0000_0000 <= v <= 0x10_0000_0000,
        ensures
            h == (v as int) / 2,
    {
        (v + 0x10_0000_0000) / 2 - 0x8_0000_0000
    }
}

/// A grid row times the grid size stays far from the limits of an `i64`.
proof fn lemma_scaled_row(row: int, size: int)
    requires
        -0x10_0000_0000 <= row <= 0x10_0000_0000,
        0 <= size <= 0x8001,
    ensures
        -0x10_0000_0000_0000 <= row * size <= 0x10_0000_0000_0000,
{
    assert(-0x10_0000_0000_0000 <= row * size <= 0x10_0000_0000_0000) by (nonlinear_arith)
        requires
            -0x10_0000_0000 <= row <= 0x10_0000_0000,
            0 <= size <= 0x8001,
    ;
}

/// A mesh over the grid: vertices by column and row, and three vertex numbers a triangle.
pub struct GridMesh {
    pub vertices: Vec<(u32, u32)>,
    pub indices: Vec<u32>,
}

/// The triangles that stand for `tri`, `k` cuts above the finest: `tri` itself while the
/// error in the middle of its long edge is within the bound, else those of its two halves.
pub open spec fn refine(
    errors: Seq<i64>,
    size: int,
    max_error: i64,
    tri: Triangle,
    k: nat,
) -> Seq<Triangle>
    decreases k,
{
    if k > 0 && errors[middle_index(size, tri)] > max_error {
        refine(errors, size, max_error, tri.half(true), (k - 1) as nat) + refine(
            errors,
            size,
            max_error,
            tri.half(false),
            (k - 1) as nat,
        )
    } else {
        seq![tri]
    }
}

/// The triangles of the mesh over a grid of `size` vertices a side.
pub open spec fn mesh_triangles(errors: Seq<i64>, size: int, max_error: i64) -> Seq<Triangle> {
    let k = 2 * order(size - 1);
    refine(errors, size, max_error, root(size - 1, true), k) + refine(
        errors,
        size,
        max_error,
        root(size - 1, false),
        k,
    )
}

/// The vertices of a list of triangles, `a`, `b` and `c` of each.
pub open spec fn corners(tris: Seq<Triangle>) -> Seq<(int, int)> {
    Seq::new(
        3 * tris.len(),
        |j: int|
            if j % 3 == 0 {
                (tris[j / 3].ax, tris[j / 3].ay)
            } else if j % 3 == 1 {
                (tris[j / 3].bx, tris[j / 3].by)
            } else {
                (tris[j / 3].cx, tris[j / 3].cy)
            },
    )
}

impl GridMesh {
    /// The mesh lists `points` by number, and each vertex once, in the order of first use.
    pub open spec fn lists(&self, points: Seq<(int, int)>) -> bool {
        &&& self.indices@.len() == points.len()
        &&& forall|j: int|
            0 <= j < points.len() ==> {
                &&& (#[trigger] self.indices@[j]) < self.vertices@.len()
                &&& self.vertices@[self.indices@[j] as int].0 == points[j].0
                &&& self.vertices@[self.indices@[j] as int].1 == points[j].1
            }
        &&& forall|v: int, w: int|
            0 <= v < w < self.vertices@.len() ==> self.vertices@[v] != self.vertices@[w]
        &&& in_first_use_order(self.indices@)
        &&& mark(self.indices@, self.indices@.len() as int) == self.vertices@.len()
    }
}

/// The map holds the number of each listed vertex, and nothing else.
pub open spec fn maps_vertices(
    index_map: Seq<Option<usize>>,
    size: int,
    vertices: Seq<(u32, u32)>,
) -> bool {
    &&& index_map.len() == size * size
    &&& forall|v: int|
        0 <= v < vertices.len() ==> {
            let i = grid_index(size, (#[trigger] vertices[v]).0 as int, vertices[v].1 as int);
            &&& vertices[v].0 < size
            &&& vertices[v].1 < size
            &&& 0 <= i < index_map.len()
            &&& index_map[i] == Some(v as usize)
        }
    &&& forall|i: int|
        0 <= i < index_map.len() ==> ((#[trigger] index_map[i]) matches Some(v) ==> {
            &&& v < vertices.len()
            &&& grid_index(size, vertices[v as int].0 as int, vertices[v as int].1 as int) == i
        })
}

pub proof fn lemma_grid_index(size: int, x: int, y: int)
    requires
        0 <= x < size,
        0 <= y < size,
    ensures
        0 <= grid_index(size, x, y) < size * size,
        grid_index(size, x, y) / size == y,
        grid_index(size, x, y) % size == x,
{
    assert(0 <= y * size) by (nonlinear_arith)
        requires
            0 <= y,
            0 < size,
    ;
    assert(y * size <= (size - 1) * size) by (nonlinear_arith)
        requires
            y <= size - 1,
            0 < size,
    ;
    assert((size - 1) * size == size * size - size) by (nonlinear_arith);
    vstd::arithmetic::div_mod::lemma_fundamental_div_mod_converse(y * size + x, size, y, x);
}

/// No more distinct vertices can be listed than the grid has.
pub proof fn lemma_vertex_count(size: int, vertices: Seq<(u32, u32)>)
    requires
        forall|v: int|
            0 <= v < vertices.len() ==> (#[trigger] vertices[v]).0 < size && vertices[v].1 < size,
        forall|v: int, w: int| 0 <= v < w < vertices.len() ==> vertices[v] != vertices[w],
    ensures
        vertices.len() <= size * size,
{
    let at = Seq::new(
        vertices.len(),
        |v: int| grid_index(size, vertices[v].0 as int, vertices[v].1 as int),
    );
    assert(at.no_duplicates()) by {
        assert forall|v: int, w: int| 0 <= v < at.len() && 0 <= w < at.len() && v != w implies at[v]
            != at[w] by {
            let a = vertices[v];
            let b = vertices[w];
            lemma_grid_index(size, a.0 as int, a.1 as int);
            lemma_grid_index(size, b.0 as int, b.1 as int);
            assert(a != b) by {
                if v < w {
                    assert(vertices[v] != vertices[w]);
                } else {
                    assert(vertices[w] != vertices[v]);
                }
            }
        }
    }
    at.unique_seq_to_set();
    let cells = vstd::set_lib::set_int_range(0, size * size);
    assert(size * size >= 0) by (nonlinear_arith);
    vstd::set_lib::lemma_int_range(0, size * size);
    assert(at.to_set().subset_of(cells)) by {
        assert forall|c: int| at.to_set().contains(c) implies cells.contains(c) by {
            let v = choose|v: int| 0 <= v < at.len() && at[v] == c;
            let a = vertices[v];
            lemma_grid_index(size, a.0 as int, a.1 as int);
        }
    }
    vstd::set_lib::lemma_len_subset(at.to_set(), cells);
}

/// A map of vertices holds each of them once.
proof fn lemma_mapped_vertices(
    index_map: Seq<Option<usize>>,
    size: int,
    vertices: Seq<(u32, u32)>,
)
    requires
        maps_vertices(index_map, size, vertices),
        vertices.len() <= usize::MAX,
    ensures
        vertices.len() <= size * size,
{
    assert forall|v: int, w: int| 0 <= v < w < vertices.len() implies vertices[v]
        != vertices[w] by {
        let a = vertices[v];
        let b = vertices[w];
        assert(index_map[grid_index(size, a.0 as int, a.1 as int)] == Some(v as usize));
        assert(index_map[grid_index(size, b.0 as int, b.1 as int)] == Some(w as usize));
    }
    lemma_vertex_count(size, vertices);
}

/// Adding one vertex number to the end of a list.
proof fn lemma_use_next(s: Seq<u32>, v: u32)
    requires
        in_first_use_order(s),
        v <= mark(s, s.len() as int),
    ensures
        in_first_use_order(s.push(v)),
        mark(s.push(v), (s.len() + 1) as int) == if v == mark(s, s.len() as int) {
            mark(s, s.len() as int) + 1
        } else {
            mark(s, s.len() as int)
        },
{
    let t = s.push(v);
    assert forall|j: int| 0 <= j < t.len() implies t[j] <= #[trigger] mark(t, j) by {
        lemma_mark_prefix(s, t, j);
        if j < s.len() {
            assert(s[j] <= mark(s, j));
        }
    }
    lemma_mark_prefix(s, t, s.len() as int);
}

impl GridMesh {
    /// Appends the number of grid vertex `(x, y)`, which it gets here if it has none yet.
    fn add_corner(&mut self, index_map: &mut Vec<Option<usize>>, size: u32, x: u32, y: u32)
        requires
            3 <= size <= 0x8001,
            x < size,
            y < size,
            maps_vertices(old(index_map)@, size as int, old(self).vertices@),
            exists|points: Seq<(int, int)>| old(self).lists(points),
        ensures
            maps_vertices(final(index_map)@, size as int, final(self).vertices@),
            forall|points: Seq<(int, int)>|
                old(self).lists(points) ==> final(self).lists(points.push((x as int, y as int))),
    {
        assert(size * size <= 0x4001_0001) by (nonlinear_arith)
            requires
                3 <= size <= 0x8001,
        ;
        proof {
            lemma_grid_index(size as int, x as int, y as int);
            assert(self.vertices.len() <= usize::MAX);
            lemma_mapped_vertices(index_map@, size as int, self.vertices@);
        }
        let ghost map0 = index_map@;
        let ghost vertices0 = self.vertices@;
        let ghost indices0 = self.indices@;
        let i: usize = (y * size + x) as usize;
        let v: usize = match index_map[i] {
            Some(v) => v,
            None => {
                let v: usize = self.vertices.len();
                self.vertices.push((x, y));
                index_map.set(i, Some(v));
                proof {
                    assert forall|w: int| 0 <= w < v implies grid_index(
                        size as int,
                        (#[trigger] vertices0[w]).0 as int,
                        vertices0[w].1 as int,
                    ) != i by {
                        assert(map0[grid_index(
                            size as int,
                            vertices0[w].0 as int,
                            vertices0[w].1 as int,
                        )] is Some);
                    }
                    assert forall|w: int| 0 <= w < self.vertices@.len() implies {
                        let at = grid_index(
                            size as int,
                            (#[trigger] self.vertices@[w]).0 as int,
                            self.vertices@[w].1 as int,
                        );
                        &&& self.vertices@[w].0 < size
                        &&& self.vertices@[w].1 < size
                        &&& 0 <= at < index_map@.len()
                        &&& index_map@[at] == Some(w as usize)
                    } by {
                        if w < v {
                            assert(self.vertices@[w] == vertices0[w]);
                        }
                    }
                }
                v
            },
        };
        proof {
            lemma_grid_index(
                size as int,
                self.vertices@[v as int].0 as int,
                self.vertices@[v as int].1 as int,
            );
            assert(self.vertices@[v as int] == (x, y));
            lemma_mapped_vertices(index_map@, size as int, self.vertices@);
        }
        self.indices.push(v as u32);
        proof {
            assert forall|points: Seq<(int, int)>| old(self).lists(points) implies self.lists(
                points.push((x as int, y as int)),
            ) by {
                lemma_use_next(indices0, v as u32);
                let more = points.push((x as int, y as int));
                assert forall|j: int| 0 <= j < more.len() implies {
                    &&& (#[trigger] self.indices@[j]) < self.vertices@.len()
                    &&& self.vertices@[self.indices@[j] as int].0 == more[j].0
                    &&& self.vertices@[self.indices@[j] as int].1 == more[j].1
                } by {
                    if j < points.len() {
                        assert(self.indices@[j] == indices0[j]);
                        assert(self.vertices@[indices0[j] as int] == vertices0[indices0[j] as int]);
                    }
                }
                assert forall|a: int, b: int| 0 <= a < b < self.vertices@.len() implies
                    self.vertices@[a] != self.vertices@[b] by {
                    assert(index_map@[grid_index(
                        size as int,
                        self.vertices@[a].0 as int,
                        self.vertices@[a].1 as int,
                    )] == Some(a as usize));
                    assert(index_map@[grid_index(
                        size as int,
                        self.vertices@[b].0 as int,
                        self.vertices@[b].1 as int,
                    )] == Some(b as usize));
                }
            }
        }
    }
}

/// The triangle with the given grid coordinates.
pub open spec fn triangle_of(c: (u32, u32, u32, u32, u32, u32)) -> Triangle {
    Triangle {
        ax: c.0 as int,
        ay: c.1 as int,
        bx: c.2 as int,
        by: c.3 as int,
        cx: c.4 as int,
        cy: c.5 as int,
    }
}

/// The vertices of two lists of triangles, one after the other.
pub proof fn lemma_corners_concat(a: Seq<Triangle>, b: Seq<Triangle>)
    ensures
        corners(a + b) == corners(a) + corners(b),
{
    assert forall|j: int| 0 <= j < 3 * (a.len() + b.len()) implies corners(a + b)[j] == (corners(a)
        + corners(b))[j] by {
        if j >= 3 * a.len() {
            let i = j - 3 * a.len();
            assert(j / 3 == i / 3 + a.len());
            assert(j % 3 == i % 3);
        }
    }
    assert(corners(a + b) =~= corners(a) + corners(b));
}

impl Tile {
    /// Builds the mesh of the coarsest triangles whose error is at most `max_error`.
    ///
    /// `martini` is the network the tile was created from; its scratch map is used.
    pub fn construct_mesh(&self, martini: &mut Martini, max_error: i64) -> (mesh: GridMesh)
        requires
            old(martini).wf(),
            self.errors.len() >= old(martini).size * old(martini).size,
        ensures
            mesh.lists(
                corners(mesh_triangles(self.errors@, old(martini).size as int, max_error)),
            ),
            forall|v: int|
                0 <= v < mesh.vertices@.len() ==> (#[trigger] mesh.vertices@[v]).0 < old(
                    martini,
                ).size && mesh.vertices@[v].1 < old(martini).size,
            final(martini).wf(),
            final(martini).size == old(martini).size,
            final(martini).coords == old(martini).coords,
            maps_vertices(
                final(martini).index_map@,
                old(martini).size as int,
                mesh.vertices@,
            ),
    {
        let size: u32 = martini.size;
        let max: u32 = size - 1;
        let ghost k = 2 * order(max as int);
        proof {
            lemma_tile_side(max as int);
            lemma_root_level(max as int, order(max as int), true);
            lemma_root_level(max as int, order(max as int), false);
        }
        let mut index_map: Vec<Option<usize>> = vec![None; (size * size) as usize];
        let mut mesh = GridMesh { vertices: Vec::new(), indices: Vec::new() };
        let ghost none = Seq::<(int, int)>::empty();
        assert(mesh.lists(none));
        let errors: &[i64] = self.errors.as_slice();
        let ghost first = refine(errors@, size as int, max_error, root(max as int, true), k);
        let ghost second = refine(errors@, size as int, max_error, root(max as int, false), k);
        Self::process_errors(
            errors,
            size,
            max_error,
            (0, 0, max, max, max, 0),
            &mut index_map,
            &mut mesh,
            Ghost(k),
        );
        assert(mesh.lists(none + corners(first)));
        Self::process_errors(
            errors,
            size,
            max_error,
            (max, max, 0, 0, 0, max),
            &mut index_map,
            &mut mesh,
            Ghost(k),
        );
        proof {
            lemma_corners_concat(first, second);
            assert(none + corners(first) + corners(second) =~= corners(first + second));
        }
        martini.index_map = index_map;
        mesh
    }

    /// Adds the triangles that stand for triangle `(a, b, c)`, `k` cuts above the finest.
    fn process_errors(
        errors: &[i64],
        size: u32,
        max_error: i64,
        c: (u32, u32, u32, u32, u32, u32),
        index_map: &mut Vec<Option<usize>>,
        mesh: &mut GridMesh,
        Ghost(k): Ghost<nat>,
    )
        requires
            3 <= size <= 0x8001,
            errors.len() >= size * size,
            triangle_of(c).at_level(k),
            triangle_of(c).within(size - 1),
            maps_vertices(old(index_map)@, size as int, old(mesh).vertices@),
            exists|points: Seq<(int, int)>| old(mesh).lists(points),
        ensures
            maps_vertices(final(index_map)@, size as int, final(mesh).vertices@),
            forall|points: Seq<(int, int)>|
                old(mesh).lists(points) ==> final(mesh).lists(
                    points + corners(
                        refine(errors@, size as int, max_error, triangle_of(c), k),
                    ),
                ),
        decreases k,
    {
        let ghost tri = triangle_of(c);
        let ghost start = choose|points: Seq<(int, int)>| mesh.lists(points);
        let (ax, ay, bx, by, cx, cy) = c;
        let mx: u32 = (ax + bx) / 2;
        let my: u32 = (ay + by) / 2;
        let dx: u32 = if ax >= cx {
            ax - cx
        } else {
            cx - ax
        };
        let dy: u32 = if ay >= cy {
            ay - cy
        } else {
            cy - ay
        };
        proof {
            lemma_level_span(tri, k);
            lemma_grid_index(size as int, mx as int, my as int);
            assert(size * size <= 0x4001_0001) by (nonlinear_arith)
                requires
                    3 <= size <= 0x8001,
            ;
        }
        if dx + dy > 1 && errors[(my * size + mx) as usize] > max_error {
            proof {
                lemma_half_level(tri, k, true);
                lemma_half_level(tri, k, false);
                lemma_half_within(tri, k, size - 1, true);
                lemma_half_within(tri, k, size - 1, false);
            }
            let ghost below = (k - 1) as nat;
            let ghost left = refine(errors@, size as int, max_error, tri.half(true), below);
            let ghost right = refine(errors@, size as int, max_error, tri.half(false), below);
            Self::process_errors(
                errors,
                size,
                max_error,
                (cx, cy, ax, ay, mx, my),
                index_map,
                mesh,
                Ghost(below),
            );
            assert(mesh.lists(start + corners(left)));
            Self::process_errors(
                errors,
                size,
                max_error,
                (bx, by, cx, cy, mx, my),
                index_map,
                mesh,
                Ghost(below),
            );
            proof {
                lemma_corners_concat(left, right);
                assert forall|points: Seq<(int, int)>| old(mesh).lists(points) implies mesh.lists(
                    points + corners(refine(errors@, size as int, max_error, tri, k)),
                ) by {
                    assert(points + corners(left) + corners(right) =~= points + corners(
                        left + right,
                    ));
                }
            }
        } else {
            mesh.add_corner(index_map, size, ax, ay);
            assert(mesh.lists(start.push((tri.ax, tri.ay))));
            mesh.add_corner(index_map, size, bx, by);
            assert(mesh.lists(start.push((tri.ax, tri.ay)).push((tri.bx, tri.by))));
            mesh.add_corner(index_map, size, cx, cy);
            proof {
                assert(refine(errors@, size as int, max_error, tri, k) == seq![tri]);
                assert forall|points: Seq<(int, int)>| old(mesh).lists(points) implies mesh.lists(
                    points + corners(seq![tri]),
                ) by {
                    assert(points.push((tri.ax, tri.ay)).push((tri.bx, tri.by)).push(
                        (tri.cx, tri.cy),
                    ) =~= points + corners(seq![tri]));
                }
            }
        }
    }
}

} // verus!
