//! What the errors of a tile and the meshes built from them promise.
use crate::martini::{
    account, corners, errors_from, grid_index, lemma_corners_concat, lemma_grid_index,
    lemma_id_depth, lemma_listed_triangle, lemma_tile_side, listed_triangle, mesh_triangles,
    middle_index, network_coords, refine, GridMesh, Martini,
};
use crate::rtin::{
    depth, half_id, is_tile_side, lemma_depth_bound, lemma_depth_monotone, lemma_half_level,
    lemma_half_within,
    lemma_middles_differ, lemma_root_level, lemma_triangle_half, lemma_triangle_level,
    lemma_triangle_within, order, root, triangle, Triangle,
};
use crate::streams::{lemma_mark_prefix, mark};
use vstd::arithmetic::power2::pow2;
use vstd::prelude::*;

verus! {

/// The network of a grid: what [`Martini::new`] creates.
pub open spec fn is_network(martini: Martini) -> bool {
    &&& martini.wf()
    &&& martini.coords@ == network_coords(martini.size - 1)
    &&& martini.covers_grid()
}

/// Which triangles a network lists, and in which order. The first two are the halves of the tile
/// on both sides of its diagonal. The triangles of one size come before those cut from them. A
/// triangle is cut from its right angle to the middle of its long edge: first come the halves
/// along `b` and `c`, and after all of these the halves along `c` and `a`.
pub proof fn law_network_lists_triangles(t: int, d: nat, id: nat)
    requires
        is_tile_side(t),
        pow2(d) <= id < pow2(d + 1),
        2 <= id < 2 * (t * t),
    ensures
        network_coords(t).len() == 4 * (2 * (t * t) - 2),
        ({
            let tri = triangle(t, id);
            let (mx, my) = ((tri.ax + tri.bx) / 2, (tri.ay + tri.by) / 2);
            &&& network_coords(t)[4 * (id - 2)] == tri.ax
            &&& network_coords(t)[4 * (id - 2) + 1] == tri.ay
            &&& network_coords(t)[4 * (id - 2) + 2] == tri.bx
            &&& network_coords(t)[4 * (id - 2) + 3] == tri.by
            &&& 2 * mx == tri.ax + tri.bx && 2 * my == tri.ay + tri.by
            &&& triangle(t, id + pow2(d)) == (Triangle {
                ax: tri.bx,
                ay: tri.by,
                bx: tri.cx,
                by: tri.cy,
                cx: mx,
                cy: my,
            })
            &&& triangle(t, id + 2 * pow2(d)) == (Triangle {
                ax: tri.cx,
                ay: tri.cy,
                bx: tri.ax,
                by: tri.ay,
                cx: mx,
                cy: my,
            })
        }),
        triangle(t, 2) == (Triangle { ax: t, ay: t, bx: 0, by: 0, cx: 0, cy: t }),
        triangle(t, 3) == (Triangle { ax: 0, ay: 0, bx: t, by: t, cx: t, cy: 0 }),
{
    let n = order(t);
    let i = id - 2;
    lemma_tile_side(t);
    lemma_depth_bound(id, d);
    if d > 0 {
        lemma_depth_bound(id, (d - 1) as nat);
    }
    assert(depth(id) == d);
    lemma_id_depth(t, n, id);
    lemma_triangle_level(t, n, id);
    lemma_triangle_within(t, id);
    lemma_half_within(triangle(t, id), (2 * n + 1 - d) as nat, t, true);
    lemma_triangle_half(t, id, true);
    lemma_triangle_half(t, id, false);
    assert((4 * i) / 4 == i && (4 * i) % 4 == 0);
    assert((4 * i + 1) / 4 == i && (4 * i + 1) % 4 == 1);
    assert((4 * i + 2) / 4 == i && (4 * i + 2) % 4 == 2);
    assert((4 * i + 3) / 4 == i && (4 * i + 3) % 4 == 3);
    reveal_with_fuel(crate::rtin::descend, 2);
}

/// The errors once triangles `i` and up of a network are accounted for.
spec fn errors_after(martini: Martini, middle_errors: Seq<i64>, i: int) -> Seq<i64> {
    errors_from(
        martini.size as int,
        martini.coords@,
        martini.num_parent_triangles as int,
        middle_errors,
        i,
    )
}

/// The middle of the long edge of triangle `i`.
spec fn middle(martini: Martini, i: int) -> int {
    middle_index(martini.size as int, listed_triangle(martini.coords@, i))
}

/// Accounting for more triangles keeps every error or raises it; where no middle lies it
/// keeps it.
proof fn lemma_errors_grow(martini: Martini, middle_errors: Seq<i64>, i: int, j: int, p: int)
    requires
        martini.wf(),
        martini.covers_grid(),
        middle_errors.len() == martini.num_triangles,
        0 <= i <= j <= middle_errors.len(),
        0 <= p < martini.size * martini.size,
    ensures
        errors_after(martini, middle_errors, i).len() == martini.size * martini.size,
        errors_after(martini, middle_errors, j).len() == martini.size * martini.size,
        errors_after(martini, middle_errors, i)[p] >= errors_after(martini, middle_errors, j)[p],
        (forall|h: int| i <= h < j ==> #[trigger] middle(martini, h) != p) ==> errors_after(
            martini,
            middle_errors,
            i,
        )[p] == errors_after(martini, middle_errors, j)[p],
    decreases middle_errors.len() - i,
{
    let size = martini.size as int;
    assert(size * size >= 0) by (nonlinear_arith);
    if i < middle_errors.len() {
        let tri = listed_triangle(martini.coords@, i);
        if i < j {
            lemma_errors_grow(martini, middle_errors, i + 1, j, p);
        } else {
            lemma_errors_grow(martini, middle_errors, i + 1, i + 1, p);
        }
        lemma_middle_nonnegative(martini, i);
        let before = errors_after(martini, middle_errors, i + 1);
        assert(errors_after(martini, middle_errors, i) == account(
            before,
            size,
            tri,
            i < martini.num_parent_triangles,
            middle_errors[i],
        ));
        if forall|h: int| i <= h < j ==> #[trigger] middle(martini, h) != p {
            if i < j {
                assert(middle(martini, i) != p);
            }
        }
    }
}

proof fn lemma_middle_nonnegative(martini: Martini, i: int)
    requires
        martini.wf(),
        martini.covers_grid(),
        0 <= i < martini.num_triangles,
    ensures
        0 <= middle(martini, i) < martini.size * martini.size,
{
    let tri = listed_triangle(martini.coords@, i);
    let size = martini.size as int;
    assert(0 <= tri.my() * size) by (nonlinear_arith)
        requires
            0 <= tri.my(),
            0 <= size,
    ;
}

/// The error held at the middle of a long edge is at least the error measured there.
pub proof fn law_error_covers_middle(martini: Martini, middle_errors: Seq<i64>, i: int)
    requires
        martini.wf(),
        martini.covers_grid(),
        middle_errors.len() == martini.num_triangles,
        0 <= i < martini.num_triangles,
    ensures
        martini.errors(middle_errors)[middle_index(
            martini.size as int,
            listed_triangle(martini.coords@, i),
        )] >= middle_errors[i],
{
    lemma_middle_nonnegative(martini, i);
    let m = middle(martini, i);
    lemma_errors_grow(martini, middle_errors, 0, i, m);
    lemma_errors_grow(martini, middle_errors, i + 1, i + 1, m);
}

/// Every error held is 0 or one of the measured errors.
pub proof fn law_error_is_measured(martini: Martini, middle_errors: Seq<i64>, p: int)
    requires
        martini.wf(),
        martini.covers_grid(),
        middle_errors.len() == martini.num_triangles,
        0 <= p < martini.size * martini.size,
    ensures
        martini.errors(middle_errors)[p] == 0 || middle_errors.contains(
            martini.errors(middle_errors)[p],
        ),
{
    lemma_error_is_measured(martini, middle_errors, 0, p);
}

proof fn lemma_error_is_measured(martini: Martini, middle_errors: Seq<i64>, i: int, p: int)
    requires
        martini.wf(),
        martini.covers_grid(),
        middle_errors.len() == martini.num_triangles,
        0 <= i <= middle_errors.len(),
        0 <= p < martini.size * martini.size,
    ensures
        ({
            let e = errors_after(martini, middle_errors, i)[p];
            e == 0 || middle_errors.contains(e)
        }),
    decreases middle_errors.len() - i,
{
    if i < middle_errors.len() {
        let size = martini.size as int;
        let tri = listed_triangle(martini.coords@, i);
        let before = errors_after(martini, middle_errors, i + 1);
        lemma_middle_nonnegative(martini, i);
        lemma_errors_grow(martini, middle_errors, i + 1, i + 1, p);
        lemma_error_is_measured(martini, middle_errors, i + 1, p);
        let left = middle_index(size, tri.half(true));
        let right = middle_index(size, tri.half(false));
        if 0 <= left < before.len() {
            lemma_error_is_measured(martini, middle_errors, i + 1, left);
        }
        if 0 <= right < before.len() {
            lemma_error_is_measured(martini, middle_errors, i + 1, right);
        }
        assert(middle_errors.contains(middle_errors[i]));
    }
}

/// The error of a triangle is at least that of each of its halves: a triangle is never cut
/// while the one it was cut from is not.
pub proof fn law_errors_nested(martini: Martini, middle_errors: Seq<i64>, id: nat, left: bool)
    requires
        is_network(martini),
        middle_errors.len() == martini.num_triangles,
        2 <= id < (martini.size - 1) * (martini.size - 1),
    ensures
        ({
            let size = martini.size as int;
            let tri = triangle(size - 1, id);
            let errors = martini.errors(middle_errors);
            errors[middle_index(size, tri)] >= errors[middle_index(size, tri.half(left))]
        }),
{
    let size = martini.size as int;
    let t = size - 1;
    let n = order(t);
    let i = id - 2;
    let tri = triangle(t, id);
    lemma_tile_side(t);
    lemma_listed_triangle(t, i);
    lemma_id_depth(t, n, id);
    lemma_triangle_level(t, n, id);
    lemma_triangle_within(t, id);
    let k = (2 * n + 1 - depth(id)) as nat;
    lemma_half_level(tri, k, left);
    lemma_half_within(tri, k, t, left);
    lemma_half_within(tri.half(left), (k - 1) as nat, t, left);
    lemma_grid_index(size, tri.mx(), tri.my());
    lemma_grid_index(size, tri.half(left).mx(), tri.half(left).my());
    lemma_half_within(tri, k, t, !left);
    lemma_half_level(tri, k, !left);
    lemma_half_within(tri.half(!left), (k - 1) as nat, t, left);
    lemma_grid_index(size, tri.half(!left).mx(), tri.half(!left).my());
    let m = middle_index(size, tri);
    let c = middle_index(size, tri.half(left));
    assert forall|h: int| 0 <= h <= i implies #[trigger] middle(martini, h) != c by {
        let other = triangle(t, (h + 2) as nat);
        lemma_listed_triangle(t, h);
        lemma_id_depth(t, n, (h + 2) as nat);
        lemma_depth_monotone((h + 2) as nat, id);
        lemma_triangle_level(t, n, (h + 2) as nat);
        lemma_triangle_within(t, (h + 2) as nat);
        lemma_middles_differ(
            other,
            (2 * n + 1 - depth((h + 2) as nat)) as nat,
            tri.half(left),
            (k - 1) as nat,
        );
        lemma_grid_index(size, other.mx(), other.my());
    }
    lemma_errors_grow(martini, middle_errors, 0, i, m);
    lemma_errors_grow(martini, middle_errors, 0, i + 1, c);
    lemma_errors_grow(martini, middle_errors, i, i + 1, c);
    lemma_errors_grow(martini, middle_errors, i + 1, i + 1, c);
}

/// Position `(x, y)` of a tile holds at least the error measured there, and each triangle at
/// least what its halves hold: no triangle is cut while the one it was cut from is not.
pub open spec fn bounds_errors(
    held: spec_fn(int, int) -> int,
    t: int,
    middle_errors: Seq<i64>,
) -> bool {
    &&& forall|x: int, y: int| #[trigger] held(x, y) >= 0
    &&& forall|id: nat|
        #![trigger triangle(t, id)]
        2 <= id < 2 * (t * t) ==> {
            let tri = triangle(t, id);
            held((tri.ax + tri.bx) / 2, (tri.ay + tri.by) / 2) >= middle_errors[id - 2]
        }
    &&& forall|id: nat|
        #![trigger triangle(t, id)]
        2 <= id < t * t ==> {
            let tri = triangle(t, id);
            let here = held((tri.ax + tri.bx) / 2, (tri.ay + tri.by) / 2);
            &&& here >= held((tri.ax + tri.cx) / 2, (tri.ay + tri.cy) / 2)
            &&& here >= held((tri.bx + tri.cx) / 2, (tri.by + tri.cy) / 2)
        }
}

/// Errors are no larger than they must be: whatever covers the measured errors, and at each
/// triangle the errors of its halves, is at least the error that a tile holds, at every vertex.
pub proof fn law_errors_are_least(
    martini: Martini,
    middle_errors: Seq<i64>,
    held: spec_fn(int, int) -> int,
    x: int,
    y: int,
)
    requires
        is_network(martini),
        middle_errors.len() == martini.num_triangles,
        bounds_errors(held, martini.size - 1, middle_errors),
        0 <= x < martini.size,
        0 <= y < martini.size,
    ensures
        0 <= martini.errors(middle_errors)[y * martini.size + x] <= held(x, y),
{
    lemma_errors_least(martini, middle_errors, held, 0, x, y);
    lemma_grid_index(martini.size as int, x, y);
    lemma_errors_grow(
        martini,
        middle_errors,
        0,
        middle_errors.len() as int,
        grid_index(martini.size as int, x, y),
    );
}

proof fn lemma_errors_least(
    martini: Martini,
    middle_errors: Seq<i64>,
    held: spec_fn(int, int) -> int,
    i: int,
    x: int,
    y: int,
)
    requires
        is_network(martini),
        middle_errors.len() == martini.num_triangles,
        bounds_errors(held, martini.size - 1, middle_errors),
        0 <= i <= middle_errors.len(),
        0 <= x < martini.size,
        0 <= y < martini.size,
    ensures
        errors_after(martini, middle_errors, i)[grid_index(martini.size as int, x, y)] <= held(
            x,
            y,
        ),
    decreases middle_errors.len() - i,
{
    let size = martini.size as int;
    let p = grid_index(size, x, y);
    lemma_tile_side(size - 1);
    lemma_grid_index(size, x, y);
    if i < middle_errors.len() {
        let t = size - 1;
        let n = order(t);
        let id = (i + 2) as nat;
        let tri = triangle(t, id);
        let before = errors_after(martini, middle_errors, i + 1);
        lemma_listed_triangle(t, i);
        lemma_id_depth(t, n, id);
        lemma_triangle_level(t, n, id);
        lemma_triangle_within(t, id);
        let k = (2 * n + 1 - depth(id)) as nat;
        lemma_half_within(tri, k, t, true);
        lemma_grid_index(size, tri.mx(), tri.my());
        lemma_errors_grow(martini, middle_errors, i + 1, i + 1, p);
        lemma_errors_least(martini, middle_errors, held, i + 1, x, y);
        if p == middle_index(size, tri) {
            lemma_grid_index_injective(size, x, y, tri.mx(), tri.my());
            assert(held(x, y) >= middle_errors[id - 2]);
            if i < martini.num_parent_triangles {
                let (a, b) = (tri.half(true), tri.half(false));
                lemma_half_level(tri, k, true);
                lemma_half_level(tri, k, false);
                lemma_half_within(tri, k, t, false);
                lemma_half_within(a, (k - 1) as nat, t, true);
                lemma_half_within(b, (k - 1) as nat, t, true);
                lemma_grid_index(size, a.mx(), a.my());
                lemma_grid_index(size, b.mx(), b.my());
                lemma_errors_least(martini, middle_errors, held, i + 1, a.mx(), a.my());
                lemma_errors_least(martini, middle_errors, held, i + 1, b.mx(), b.my());
                assert(held(x, y) >= held((tri.ax + tri.cx) / 2, (tri.ay + tri.cy) / 2));
                assert(held(x, y) >= held((tri.bx + tri.cx) / 2, (tri.by + tri.cy) / 2));
            }
        }
    }
}

proof fn lemma_grid_index_injective(size: int, x: int, y: int, u: int, v: int)
    requires
        0 <= x < size,
        0 <= u < size,
        grid_index(size, x, y) == grid_index(size, u, v),
    ensures
        x == u && y == v,
{
    assert(y == v) by (nonlinear_arith)
        requires
            0 <= x < size,
            0 <= u < size,
            y * size + x == v * size + u,
    ;
}

/// The errors that a tile holds cover the measured errors, and at each triangle the errors of its
/// halves.
pub proof fn law_errors_are_bounds(martini: Martini, middle_errors: Seq<i64>)
    requires
        is_network(martini),
        middle_errors.len() == martini.num_triangles,
    ensures
        bounds_errors(
            |x: int, y: int|
                if 0 <= x < martini.size && 0 <= y < martini.size {
                    martini.errors(middle_errors)[y * martini.size + x] as int
                } else {
                    0
                },
            martini.size - 1,
            middle_errors,
        ),
{
    let size = martini.size as int;
    let t = size - 1;
    let n = order(t);
    let errors = martini.errors(middle_errors);
    let held = |x: int, y: int|
        if 0 <= x < martini.size && 0 <= y < martini.size {
            martini.errors(middle_errors)[y * martini.size + x] as int
        } else {
            0
        };
    lemma_tile_side(t);
    assert forall|x: int, y: int| #[trigger] held(x, y) >= 0 by {
        if 0 <= x < size && 0 <= y < size {
            lemma_grid_index(size, x, y);
            lemma_errors_grow(
                martini,
                middle_errors,
                0,
                middle_errors.len() as int,
                grid_index(size, x, y),
            );
        }
    }
    assert forall|id: nat| #![trigger triangle(t, id)] 2 <= id < 2 * (t * t) implies ({
        let tri = triangle(t, id);
        held((tri.ax + tri.bx) / 2, (tri.ay + tri.by) / 2) >= middle_errors[id - 2]
    }) by {
        lemma_listed_triangle(t, id - 2);
        lemma_triangle_within(t, id);
        law_error_covers_middle(martini, middle_errors, id - 2);
    }
    assert forall|id: nat| #![trigger triangle(t, id)] 2 <= id < t * t implies ({
        let tri = triangle(t, id);
        let here = held((tri.ax + tri.bx) / 2, (tri.ay + tri.by) / 2);
        &&& here >= held((tri.ax + tri.cx) / 2, (tri.ay + tri.cy) / 2)
        &&& here >= held((tri.bx + tri.cx) / 2, (tri.by + tri.cy) / 2)
    }) by {
        lemma_triangle_within(t, id);
        law_errors_nested(martini, middle_errors, id, true);
        law_errors_nested(martini, middle_errors, id, false);
    }
}

/// A lower error bound never gives fewer triangles, and keeps every vertex.
pub proof fn law_lower_bound_refines(errors: Seq<i64>, size: int, low: i64, high: i64)
    requires
        low <= high,
    ensures
        mesh_triangles(errors, size, low).len() >= mesh_triangles(errors, size, high).len(),
        forall|p: (int, int)|
            corners(mesh_triangles(errors, size, high)).contains(p) ==> #[trigger] corners(
                mesh_triangles(errors, size, low),
            ).contains(p),
{
    let k = 2 * order(size - 1);
    let (a, b) = (root(size - 1, true), root(size - 1, false));
    lemma_lower_bound_refines(errors, size, low, high, a, k);
    lemma_lower_bound_refines(errors, size, low, high, b, k);
    let (fine_a, fine_b) = (
        refine(errors, size, low, a, k),
        refine(errors, size, low, b, k),
    );
    let (coarse_a, coarse_b) = (
        refine(errors, size, high, a, k),
        refine(errors, size, high, b, k),
    );
    assert forall|p: (int, int)|
        corners(mesh_triangles(errors, size, high)).contains(p) implies #[trigger] corners(
        mesh_triangles(errors, size, low),
    ).contains(p) by {
        lemma_corner_of_concat(coarse_a, coarse_b, p);
        lemma_corner_of_concat(fine_a, fine_b, p);
    }
}

proof fn lemma_lower_bound_refines(
    errors: Seq<i64>,
    size: int,
    low: i64,
    high: i64,
    tri: Triangle,
    k: nat,
)
    requires
        low <= high,
    ensures
        refine(errors, size, low, tri, k).len() >= refine(errors, size, high, tri, k).len() >= 1,
        forall|p: (int, int)|
            corners(refine(errors, size, high, tri, k)).contains(p) ==> #[trigger] corners(
                refine(errors, size, low, tri, k),
            ).contains(p),
    decreases k,
{
    lemma_refine_keeps_corners(errors, size, low, tri, k);
    if k > 0 && errors[middle_index(size, tri)] > high {
        let below = (k - 1) as nat;
        let (a, b) = (tri.half(true), tri.half(false));
        lemma_lower_bound_refines(errors, size, low, high, a, below);
        lemma_lower_bound_refines(errors, size, low, high, b, below);
        assert forall|p: (int, int)|
            corners(refine(errors, size, high, tri, k)).contains(p) implies #[trigger] corners(
            refine(errors, size, low, tri, k),
        ).contains(p) by {
            lemma_corner_of_concat(
                refine(errors, size, high, a, below),
                refine(errors, size, high, b, below),
                p,
            );
            lemma_corner_of_concat(
                refine(errors, size, low, a, below),
                refine(errors, size, low, b, below),
                p,
            );
        }
    }
}

/// The vertices of two lists of triangles together.
proof fn lemma_corner_of_concat(a: Seq<Triangle>, b: Seq<Triangle>, p: (int, int))
    ensures
        corners(a + b).contains(p) <==> corners(a).contains(p) || corners(b).contains(p),
{
    lemma_corners_concat(a, b);
    let (ca, cb) = (corners(a), corners(b));
    if ca.contains(p) {
        let i = ca.index_of(p);
        assert((ca + cb)[i] == p);
    }
    if cb.contains(p) {
        let i = cb.index_of(p);
        assert((ca + cb)[ca.len() + i] == p);
    }
    if (ca + cb).contains(p) {
        let i = (ca + cb).index_of(p);
        if i < ca.len() {
            assert(ca[i] == p);
        } else {
            assert(cb[i - ca.len()] == p);
        }
    }
}

/// The triangles that stand for a triangle have its vertices.
proof fn lemma_refine_keeps_corners(
    errors: Seq<i64>,
    size: int,
    max_error: i64,
    tri: Triangle,
    k: nat,
)
    ensures
        refine(errors, size, max_error, tri, k).len() >= 1,
        forall|p: (int, int)|
            corners(seq![tri]).contains(p) ==> #[trigger] corners(
                refine(errors, size, max_error, tri, k),
            ).contains(p),
    decreases k,
{
    if k > 0 && errors[middle_index(size, tri)] > max_error {
        let below = (k - 1) as nat;
        let (a, b) = (tri.half(true), tri.half(false));
        lemma_refine_keeps_corners(errors, size, max_error, a, below);
        lemma_refine_keeps_corners(errors, size, max_error, b, below);
        assert forall|p: (int, int)| corners(seq![tri]).contains(p) implies #[trigger] corners(
            refine(errors, size, max_error, tri, k),
        ).contains(p) by {
            lemma_corner_of_concat(
                refine(errors, size, max_error, a, below),
                refine(errors, size, max_error, b, below),
                p,
            );
            lemma_corners_of_one(tri, p);
            lemma_corners_of_one(a, p);
            lemma_corners_of_one(b, p);
        }
    }
}

proof fn lemma_corners_of_one(tri: Triangle, p: (int, int))
    ensures
        corners(seq![tri]).contains(p) <==> p == (tri.ax, tri.ay) || p == (tri.bx, tri.by) || p
            == (tri.cx, tri.cy),
{
    let c = corners(seq![tri]);
    assert(c[0] == (tri.ax, tri.ay) && c[1] == (tri.bx, tri.by) && c[2] == (tri.cx, tri.cy));
}

/// Every number below the mark has been used.
proof fn lemma_used_below_mark(s: Seq<u32>, j: int, v: int) -> (i: int)
    requires
        0 <= j <= s.len(),
        0 <= v < mark(s, j),
    ensures
        0 <= i < j,
        s[i] == v,
    decreases j,
{
    if v < mark(s, j - 1) {
        lemma_used_below_mark(s, j - 1, v)
    } else {
        j - 1
    }
}

/// The vertices of a mesh are the points that it lists.
pub proof fn law_vertices_are_corners(mesh: GridMesh, points: Seq<(int, int)>, p: (u32, u32))
    requires
        mesh.lists(points),
    ensures
        mesh.vertices@.contains(p) <==> points.contains((p.0 as int, p.1 as int)),
{
    let q = (p.0 as int, p.1 as int);
    if mesh.vertices@.contains(p) {
        let v = mesh.vertices@.index_of(p);
        let i = lemma_used_below_mark(mesh.indices@, mesh.indices@.len() as int, v);
        assert(points[i] == q);
    }
    if points.contains(q) {
        let i = points.index_of(q);
        assert(mesh.vertices@[mesh.indices@[i] as int] == p);
    }
}

/// Every vertex of the mesh for an error bound is a vertex of the mesh for a lower one.
pub proof fn law_finer_mesh_keeps_vertices(
    errors: Seq<i64>,
    size: int,
    low: i64,
    high: i64,
    fine: GridMesh,
    coarse: GridMesh,
    p: (u32, u32),
)
    requires
        low <= high,
        fine.lists(corners(mesh_triangles(errors, size, low))),
        coarse.lists(corners(mesh_triangles(errors, size, high))),
        coarse.vertices@.contains(p),
    ensures
        fine.vertices@.contains(p),
{
    law_lower_bound_refines(errors, size, low, high);
    law_vertices_are_corners(coarse, corners(mesh_triangles(errors, size, high)), p);
    law_vertices_are_corners(fine, corners(mesh_triangles(errors, size, low)), p);
}

/// A mesh is fixed by the points that it lists: building it anew gives the same mesh, whatever
/// the network was used for before.
pub proof fn law_mesh_is_fixed_by_corners(a: GridMesh, b: GridMesh, points: Seq<(int, int)>)
    requires
        a.lists(points),
        b.lists(points),
    ensures
        a.vertices@ == b.vertices@,
        a.indices@ == b.indices@,
{
    let n = points.len() as int;
    lemma_same_numbers(a, b, points, n);
    assert(a.indices@ =~= b.indices@);
    assert forall|v: int| 0 <= v < a.vertices@.len() implies a.vertices@[v] == b.vertices@[v] by {
        let i = lemma_used_below_mark(a.indices@, n, v);
        assert(a.indices@[i] == v && b.indices@[i] == v);
    }
    assert(a.vertices@ =~= b.vertices@);
}

proof fn lemma_same_numbers(a: GridMesh, b: GridMesh, points: Seq<(int, int)>, j: int)
    requires
        a.lists(points),
        b.lists(points),
        0 <= j <= points.len(),
    ensures
        forall|i: int| 0 <= i < j ==> a.indices@[i] == b.indices@[i],
    decreases j,
{
    if j > 0 {
        let last = j - 1;
        lemma_same_numbers(a, b, points, last);
        lemma_mark_prefix(a.indices@, b.indices@, last);
        lemma_number_used_before(a, b, points, last);
        lemma_number_used_before(b, a, points, last);
        assert(a.indices@[last] <= mark(a.indices@, last));
        assert(b.indices@[last] <= mark(b.indices@, last));
    }
}

/// A point that has its number already in one mesh has the same in the other.
proof fn lemma_number_used_before(a: GridMesh, b: GridMesh, points: Seq<(int, int)>, j: int)
    requires
        a.lists(points),
        b.lists(points),
        0 <= j < points.len(),
        forall|i: int| 0 <= i < j ==> a.indices@[i] == b.indices@[i],
    ensures
        a.indices@[j] < mark(a.indices@, j) ==> a.indices@[j] == b.indices@[j],
{
    if a.indices@[j] < mark(a.indices@, j) {
        let i = lemma_used_below_mark(a.indices@, j, a.indices@[j] as int);
        assert(a.indices@[i] == a.indices@[j]);
        assert(points[i] == points[j]);
        let (v, w) = (b.indices@[i] as int, b.indices@[j] as int);
        assert(b.vertices@[v] == b.vertices@[w]);
        if v < w {
            assert(b.vertices@[v] != b.vertices@[w]);
        }
        if w < v {
            assert(b.vertices@[w] != b.vertices@[v]);
        }
    }
}

/// A network can be used for any number of tiles: what a mesh leaves of it, its size and its
/// coordinates, is all that errors and meshes depend on.
pub proof fn law_network_is_reusable(before: Martini, after: Martini, middle_errors: Seq<i64>)
    requires
        before.wf(),
        after.wf(),
        after.size == before.size,
        after.coords == before.coords,
    ensures
        after.errors(middle_errors) == before.errors(middle_errors),
        after.covers_grid() == before.covers_grid(),
        is_network(after) == is_network(before),
{
}

/// Terrain whose errors are all within the bound is meshed with two triangles.
pub proof fn law_flat_terrain(errors: Seq<i64>, size: int, max_error: i64)
    requires
        is_tile_side(size - 1),
        errors.len() == size * size,
        forall|p: int| 0 <= p < errors.len() ==> #[trigger] errors[p] <= max_error,
    ensures
        mesh_triangles(errors, size, max_error) == seq![
            root(size - 1, true),
            root(size - 1, false),
        ],
{
    let t = size - 1;
    lemma_tile_side(t);
    assert(root(t, true).mx() == t / 2 && root(t, true).my() == t / 2);
    assert(root(t, false).mx() == t / 2 && root(t, false).my() == t / 2);
    lemma_grid_index(size, t / 2, t / 2);
}

/// Every triangle of a mesh belongs to the network, lies within the tile, and is as fine as
/// can be or has its error within the bound.
pub proof fn law_mesh_within_bound(errors: Seq<i64>, size: int, max_error: i64, j: int)
    requires
        is_tile_side(size - 1),
        0 <= j < mesh_triangles(errors, size, max_error).len(),
    ensures
        ({
            let tri = mesh_triangles(errors, size, max_error)[j];
            &&& tri.within(size - 1)
            &&& exists|k: nat|
                #[trigger] tri.at_level(k) && (k > 0 ==> errors[middle_index(size, tri)]
                    <= max_error)
        }),
{
    let t = size - 1;
    let n = order(t);
    lemma_root_level(t, n, true);
    lemma_root_level(t, n, false);
    let first = refine(errors, size, max_error, root(t, true), 2 * n);
    if j < first.len() {
        lemma_refine_within_bound(errors, size, max_error, root(t, true), 2 * n, j);
    } else {
        lemma_refine_within_bound(
            errors,
            size,
            max_error,
            root(t, false),
            2 * n,
            j - first.len(),
        );
    }
}

proof fn lemma_refine_within_bound(
    errors: Seq<i64>,
    size: int,
    max_error: i64,
    tri: Triangle,
    k: nat,
    j: int,
)
    requires
        tri.at_level(k),
        tri.within(size - 1),
        0 <= j < refine(errors, size, max_error, tri, k).len(),
    ensures
        ({
            let part = refine(errors, size, max_error, tri, k)[j];
            &&& part.within(size - 1)
            &&& exists|l: nat|
                #[trigger] part.at_level(l) && (l > 0 ==> errors[middle_index(size, part)]
                    <= max_error)
        }),
    decreases k,
{
    if k > 0 && errors[middle_index(size, tri)] > max_error {
        let below = (k - 1) as nat;
        lemma_half_level(tri, k, true);
        lemma_half_level(tri, k, false);
        lemma_half_within(tri, k, size - 1, true);
        lemma_half_within(tri, k, size - 1, false);
        let left = refine(errors, size, max_error, tri.half(true), below);
        if j < left.len() {
            lemma_refine_within_bound(errors, size, max_error, tri.half(true), below, j);
        } else {
            lemma_refine_within_bound(
                errors,
                size,
                max_error,
                tri.half(false),
                below,
                j - left.len(),
            );
        }
    } else {
        assert(refine(errors, size, max_error, tri, k)[j] == tri);
    }
}

/// Twice the area of a triangle of the network.
pub open spec fn double_area(tri: Triangle) -> int {
    let dx = tri.ax - tri.cx;
    let dy = tri.ay - tri.cy;
    dx * dx + dy * dy
}

/// Twice the area that a list of triangles covers.
pub open spec fn total_double_area(tris: Seq<Triangle>) -> int
    decreases tris.len(),
{
    if tris.len() == 0 {
        0
    } else {
        total_double_area(tris.drop_last()) + double_area(tris.last())
    }
}

proof fn lemma_total_double_area(a: Seq<Triangle>, b: Seq<Triangle>)
    ensures
        total_double_area(a + b) == total_double_area(a) + total_double_area(b),
    decreases b.len(),
{
    if b.len() == 0 {
        assert(a + b =~= a);
    } else {
        assert((a + b).drop_last() =~= a + b.drop_last());
        lemma_total_double_area(a, b.drop_last());
    }
}

/// Whatever the bound, the triangles of a mesh have the area of the tile.
pub proof fn law_mesh_area(errors: Seq<i64>, size: int, max_error: i64)
    requires
        is_tile_side(size - 1),
    ensures
        total_double_area(mesh_triangles(errors, size, max_error)) == 2 * ((size - 1) * (size
            - 1)),
{
    let t = size - 1;
    let n = order(t);
    lemma_root_level(t, n, true);
    lemma_root_level(t, n, false);
    lemma_refine_area(errors, size, max_error, root(t, true), 2 * n);
    lemma_refine_area(errors, size, max_error, root(t, false), 2 * n);
    lemma_total_double_area(
        refine(errors, size, max_error, root(t, true), 2 * n),
        refine(errors, size, max_error, root(t, false), 2 * n),
    );
    assert((0 - t) * (0 - t) == t * t) by (nonlinear_arith);
}

proof fn lemma_refine_area(
    errors: Seq<i64>,
    size: int,
    max_error: i64,
    tri: Triangle,
    k: nat,
)
    requires
        tri.at_level(k),
        tri.within(size - 1),
    ensures
        total_double_area(refine(errors, size, max_error, tri, k)) == double_area(tri),
    decreases k,
{
    if k > 0 && errors[middle_index(size, tri)] > max_error {
        let below = (k - 1) as nat;
        lemma_half_level(tri, k, true);
        lemma_half_level(tri, k, false);
        lemma_half_within(tri, k, size - 1, true);
        lemma_half_within(tri, k, size - 1, false);
        lemma_refine_area(errors, size, max_error, tri.half(true), below);
        lemma_refine_area(errors, size, max_error, tri.half(false), below);
        lemma_total_double_area(
            refine(errors, size, max_error, tri.half(true), below),
            refine(errors, size, max_error, tri.half(false), below),
        );
        let dx = tri.ax - tri.cx;
        let dy = tri.ay - tri.cy;
        let ex = tri.mx() - tri.cx;
        let ey = tri.my() - tri.cy;
        assert(tri.right_isosceles());
        assert(2 * ex == dx + dy && 2 * ey == dy - dx);
        assert((0 - ex) * (0 - ex) + (0 - ey) * (0 - ey) + ((dy - ex) * (dy - ex) + (0 - dx - ey)
            * (0 - dx - ey)) == dx * dx + dy * dy) by (nonlinear_arith)
            requires
                2 * ex == dx + dy,
                2 * ey == dy - dx,
        ;
    } else {
        let one = refine(errors, size, max_error, tri, k);
        assert(one.drop_last() =~= Seq::<Triangle>::empty());
        assert(total_double_area(one.drop_last()) == 0);
    }
}

/// Twice the area of a triangle, negative if `a`, `b` and `c` run clockwise on a map with north
/// at the top.
pub open spec fn signed_double_area(tri: Triangle) -> int {
    (tri.bx - tri.ax) * (tri.ay - tri.cy) - (tri.ay - tri.by) * (tri.cx - tri.ax)
}

/// The vertices of every triangle of a mesh run counterclockwise, seen from above.
pub proof fn law_mesh_winding(errors: Seq<i64>, size: int, max_error: i64, j: int)
    requires
        is_tile_side(size - 1),
        0 <= j < mesh_triangles(errors, size, max_error).len(),
    ensures
        signed_double_area(mesh_triangles(errors, size, max_error)[j]) > 0,
{
    let tri = mesh_triangles(errors, size, max_error)[j];
    law_mesh_within_bound(errors, size, max_error, j);
    let k = choose|k: nat|
        #[trigger] tri.at_level(k) && (k > 0 ==> errors[middle_index(size, tri)] <= max_error);
    vstd::arithmetic::power2::lemma_pow2_pos(k / 2);
    let dx = tri.ax - tri.cx;
    let dy = tri.ay - tri.cy;
    assert(tri.right_isosceles());
    assert(dx != 0 || dy != 0);
    assert((dy - dx) * dy - (dy + dx) * (0 - dx) == dx * dx + dy * dy) by (nonlinear_arith);
    assert(tri.bx - tri.ax == dy - dx && tri.ay - tri.by == dy + dx && tri.cx - tri.ax == 0 - dx);
    assert(dx * dx + dy * dy > 0) by (nonlinear_arith)
        requires
            dx != 0 || dy != 0,
    ;
}

/// `(x, y)` is a vertex of the triangle.
pub open spec fn has_vertex(tri: Triangle, x: int, y: int) -> bool {
    ||| tri.ax == x && tri.ay == y
    ||| tri.bx == x && tri.by == y
    ||| tri.cx == x && tri.cy == y
}

/// Some triangle of the list has the vertex `(x, y)`.
pub open spec fn some_has_vertex(tris: Seq<Triangle>, x: int, y: int) -> bool {
    exists|j: int| 0 <= j < tris.len() && has_vertex(#[trigger] tris[j], x, y)
}

/// The triangles that stand for a triangle keep its vertices.
proof fn lemma_refine_keeps_vertex(
    errors: Seq<i64>,
    size: int,
    max_error: i64,
    tri: Triangle,
    k: nat,
    x: int,
    y: int,
)
    requires
        has_vertex(tri, x, y),
    ensures
        some_has_vertex(refine(errors, size, max_error, tri, k), x, y),
    decreases k,
{
    let tris = refine(errors, size, max_error, tri, k);
    if k > 0 && errors[middle_index(size, tri)] > max_error {
        let below = (k - 1) as nat;
        let left = refine(errors, size, max_error, tri.half(true), below);
        let right = refine(errors, size, max_error, tri.half(false), below);
        if has_vertex(tri.half(true), x, y) {
            lemma_refine_keeps_vertex(errors, size, max_error, tri.half(true), below, x, y);
            let j = choose|j: int| 0 <= j < left.len() && has_vertex(#[trigger] left[j], x, y);
            assert(tris[j] == left[j]);
        } else {
            lemma_refine_keeps_vertex(errors, size, max_error, tri.half(false), below, x, y);
            let j = choose|j: int| 0 <= j < right.len() && has_vertex(#[trigger] right[j], x, y);
            assert(tris[left.len() + j] == right[j]);
        }
    } else {
        assert(tris[0] == tri);
    }
}

/// Everything that stands for a numbered triangle is part of the mesh, provided the triangle
/// that it was cut from is itself cut.
proof fn lemma_reached(martini: Martini, middle_errors: Seq<i64>, max_error: i64, id: nat)
    requires
        is_network(martini),
        middle_errors.len() == martini.num_triangles,
        2 <= id < 2 * ((martini.size - 1) * (martini.size - 1)),
        martini.errors(middle_errors)[middle_index(
            martini.size as int,
            triangle(martini.size - 1, id),
        )] > max_error,
    ensures
        ({
            let size = martini.size as int;
            let errors = martini.errors(middle_errors);
            let k = (2 * order(size - 1) + 1 - depth(id)) as nat;
            forall|tri: Triangle|
                refine(errors, size, max_error, triangle(size - 1, id), k).contains(tri)
                    ==> #[trigger] mesh_triangles(errors, size, max_error).contains(tri)
        }),
    decreases id,
{
    let size = martini.size as int;
    let t = size - 1;
    let n = order(t);
    let errors = martini.errors(middle_errors);
    let all = mesh_triangles(errors, size, max_error);
    let k = (2 * n + 1 - depth(id)) as nat;
    let part = refine(errors, size, max_error, triangle(t, id), k);
    if id <= 3 {
        reveal_with_fuel(depth, 3);
        reveal_with_fuel(crate::rtin::descend, 2);
        let first = refine(errors, size, max_error, root(t, true), 2 * n);
        assert forall|tri: Triangle| part.contains(tri) implies #[trigger] all.contains(tri) by {
            let j = choose|j: int| 0 <= j < part.len() && part[j] == tri;
            if id == 3 {
                assert(all[j] == tri);
            } else {
                assert(all[first.len() + j] == tri);
            }
        }
    } else {
        let (up, left) = lemma_parent(id);
        lemma_triangle_half(t, up, left);
        lemma_id_depth(t, n, id);
        lemma_id_depth(t, n, up);
        law_errors_nested(martini, middle_errors, up, left);
        lemma_reached(martini, middle_errors, max_error, up);
        let whole = refine(errors, size, max_error, triangle(t, up), (k + 1) as nat);
        let lefts = refine(errors, size, max_error, triangle(t, up).half(true), k);
        assert forall|tri: Triangle| part.contains(tri) implies #[trigger] all.contains(tri) by {
            let j = choose|j: int| 0 <= j < part.len() && part[j] == tri;
            if left {
                assert(whole[j] == tri);
            } else {
                assert(whole[lefts.len() + j] == tri);
            }
            assert(whole.contains(tri));
        }
    }
}

/// The number of the triangle that triangle `id` is a half of, and which half it is.
proof fn lemma_parent(id: nat) -> (parent: (nat, bool))
    requires
        id >= 4,
    ensures
        2 <= parent.0 < id,
        half_id(parent.0, parent.1) == id,
        depth(parent.0) + 1 == depth(id),
{
    let d = depth(id);
    vstd::arithmetic::power2::lemma2_to64();
    crate::rtin::lemma_depth(id);
    crate::rtin::lemma_depth_bound(id, 1);
    vstd::arithmetic::power2::lemma_pow2_unfold(d);
    vstd::arithmetic::power2::lemma_pow2_unfold(d + 1);
    let h = vstd::arithmetic::power2::pow2((d - 1) as nat);
    vstd::arithmetic::power2::lemma_pow2_pos((d - 1) as nat);
    if d > 2 {
        vstd::arithmetic::power2::lemma_pow2_strictly_increases(1, (d - 1) as nat);
    }
    let left = id >= 3 * h;
    let up = if left {
        (id - 2 * h) as nat
    } else {
        (id - h) as nat
    };
    assert(h <= up < 2 * h);
    crate::rtin::lemma_depth_bound(up, (d - 1) as nat);
    crate::rtin::lemma_depth_bound(up, (d - 2) as nat);
    (up, left)
}

/// Every grid vertex whose error exceeds the bound is a vertex of the mesh: no triangle of
/// the mesh passes over it.
pub proof fn law_vertex_above_bound_is_kept(
    martini: Martini,
    middle_errors: Seq<i64>,
    max_error: i64,
    id: nat,
)
    requires
        is_network(martini),
        middle_errors.len() == martini.num_triangles,
        2 <= id < 2 * ((martini.size - 1) * (martini.size - 1)),
        middle_errors[id - 2] > max_error || martini.errors(middle_errors)[middle_index(
            martini.size as int,
            triangle(martini.size - 1, id),
        )] > max_error,
    ensures
        ({
            let size = martini.size as int;
            let tri = triangle(size - 1, id);
            some_has_vertex(
                mesh_triangles(martini.errors(middle_errors), size, max_error),
                tri.mx(),
                tri.my(),
            )
        }),
{
    let size = martini.size as int;
    let t = size - 1;
    let n = order(t);
    let tri = triangle(t, id);
    let errors = martini.errors(middle_errors);
    lemma_listed_triangle(t, id - 2);
    law_error_covers_middle(martini, middle_errors, id - 2);
    lemma_id_depth(t, n, id);
    lemma_reached(martini, middle_errors, max_error, id);
    let k = (2 * n + 1 - depth(id)) as nat;
    let below = (k - 1) as nat;
    let part = refine(errors, size, max_error, tri, k);
    let left = refine(errors, size, max_error, tri.half(true), below);
    lemma_refine_keeps_vertex(
        errors,
        size,
        max_error,
        tri.half(true),
        below,
        tri.mx(),
        tri.my(),
    );
    let j = choose|j: int|
        0 <= j < left.len() && has_vertex(#[trigger] left[j], tri.mx(), tri.my());
    assert(part[j] == left[j]);
    assert(part.contains(left[j]));
    let all = mesh_triangles(errors, size, max_error);
    assert(all.contains(left[j]));
    let i = choose|i: int| 0 <= i < all.len() && all[i] == left[j];
    assert(has_vertex(all[i], tri.mx(), tri.my()));
}

/// How far `(x, y)` lies from `c` towards `a`, times the length of the edge.
pub open spec fn towards_a(tri: Triangle, x: int, y: int) -> int {
    (x - tri.cx) * (tri.ax - tri.cx) + (y - tri.cy) * (tri.ay - tri.cy)
}

/// How far `(x, y)` lies from `c` towards `b`, times the length of the edge.
pub open spec fn towards_b(tri: Triangle, x: int, y: int) -> int {
    (x - tri.cx) * (tri.bx - tri.cx) + (y - tri.cy) * (tri.by - tri.cy)
}

/// `(x, y)` lies in the triangle or on its border.
pub open spec fn covers(tri: Triangle, x: int, y: int) -> bool {
    &&& towards_a(tri, x, y) >= 0
    &&& towards_b(tri, x, y) >= 0
    &&& towards_a(tri, x, y) + towards_b(tri, x, y) <= double_area(tri)
}

/// What a triangle covers, one of its halves covers.
proof fn lemma_half_covers(tri: Triangle, k: nat, t: int, x: int, y: int)
    requires
        k >= 1,
        tri.at_level(k),
        tri.within(t),
        covers(tri, x, y),
    ensures
        covers(tri.half(true), x, y) || covers(tri.half(false), x, y),
{
    lemma_half_within(tri, k, t, true);
    assert(tri.right_isosceles());
    let px = x - tri.cx;
    let py = y - tri.cy;
    let dx = tri.ax - tri.cx;
    let dy = tri.ay - tri.cy;
    let ex = tri.mx() - tri.cx;
    let ey = tri.my() - tri.cy;
    let s = px * dx + py * dy;
    let r = px * dy - py * dx;
    let area = dx * dx + dy * dy;
    assert(2 * ex == dx + dy && 2 * ey == dy - dx);
    assert(towards_b(tri, x, y) == r) by (nonlinear_arith)
        requires
            towards_b(tri, x, y) == px * (tri.bx - tri.cx) + py * (tri.by - tri.cy),
            tri.bx - tri.cx == dy,
            tri.by - tri.cy == -dx,
            r == px * dy - py * dx,
    ;
    // Seen from the middle: how far towards `c`, and how far towards `a` or `b`.
    let to_c = (px - ex) * (0 - ex) + (py - ey) * (0 - ey);
    let to_a = (px - ex) * (dx - ex) + (py - ey) * (dy - ey);
    let to_b = (px - ex) * (dy - ex) + (py - ey) * (0 - dx - ey);
    let half_area = (0 - ex) * (0 - ex) + (0 - ey) * (0 - ey);
    lemma_middle_products(px, py, dx, dy, ex, ey);
    assert(2 * to_c == area - s - r);
    assert(2 * to_a == s - r);
    assert(2 * to_b == r - s);
    assert(2 * half_area == area);
    if s >= r {
        let half = tri.half(true);
        assert(towards_a(half, x, y) == to_c);
        assert(towards_b(half, x, y) == to_a);
        assert(double_area(half) == half_area);
        assert(covers(half, x, y));
    } else {
        let half = tri.half(false);
        assert(towards_a(half, x, y) == to_b);
        assert(towards_b(half, x, y) == to_c);
        lemma_same_area(dx, dy, ex, ey);
        assert(double_area(half) == half_area);
        assert(covers(half, x, y));
    }
}

proof fn lemma_middle_products(px: int, py: int, dx: int, dy: int, ex: int, ey: int)
    requires
        2 * ex == dx + dy,
        2 * ey == dy - dx,
    ensures
        2 * ((px - ex) * (0 - ex) + (py - ey) * (0 - ey)) == dx * dx + dy * dy - (px * dx + py
            * dy) - (px * dy - py * dx),
        2 * ((px - ex) * (dx - ex) + (py - ey) * (dy - ey)) == (px * dx + py * dy) - (px * dy - py
            * dx),
        2 * ((px - ex) * (dy - ex) + (py - ey) * (0 - dx - ey)) == (px * dy - py * dx) - (px * dx
            + py * dy),
        2 * ((0 - ex) * (0 - ex) + (0 - ey) * (0 - ey)) == dx * dx + dy * dy,
{
    assert(dx == ex - ey && dy == ex + ey);
    assert(2 * ((px - ex) * (0 - ex) + (py - ey) * (0 - ey)) == dx * dx + dy * dy - (px * dx + py
        * dy) - (px * dy - py * dx)) by (nonlinear_arith)
        requires
            dx == ex - ey,
            dy == ex + ey,
    ;
    assert(2 * ((px - ex) * (dx - ex) + (py - ey) * (dy - ey)) == (px * dx + py * dy) - (px * dy
        - py * dx)) by (nonlinear_arith)
        requires
            dx == ex - ey,
            dy == ex + ey,
    ;
    assert(2 * ((px - ex) * (dy - ex) + (py - ey) * (0 - dx - ey)) == (px * dy - py * dx) - (px
        * dx + py * dy)) by (nonlinear_arith)
        requires
            dx == ex - ey,
            dy == ex + ey,
    ;
    assert(2 * ((0 - ex) * (0 - ex) + (0 - ey) * (0 - ey)) == dx * dx + dy * dy) by (
    nonlinear_arith)
        requires
            dx == ex - ey,
            dy == ex + ey,
    ;
}

proof fn lemma_same_area(dx: int, dy: int, ex: int, ey: int)
    requires
        2 * ex == dx + dy,
        2 * ey == dy - dx,
    ensures
        (dy - ex) * (dy - ex) + (0 - dx - ey) * (0 - dx - ey) == (0 - ex) * (0 - ex) + (0 - ey) * (
        0 - ey),
{
    assert(dx == ex - ey && dy == ex + ey);
    assert((dy - ex) * (dy - ex) + (0 - dx - ey) * (0 - dx - ey) == (0 - ex) * (0 - ex) + (0 - ey)
        * (0 - ey)) by (nonlinear_arith)
        requires
            dx == ex - ey,
            dy == ex + ey,
    ;
}

/// The finest triangles cover no grid vertex but their own.
proof fn lemma_finest_covers(tri: Triangle, x: int, y: int)
    requires
        tri.at_level(0),
        covers(tri, x, y),
    ensures
        has_vertex(tri, x, y),
{
    vstd::arithmetic::power2::lemma2_to64();
    let px = x - tri.cx;
    let py = y - tri.cy;
    assert(tri.axis(1));
    let dx = tri.ax - tri.cx;
    let dy = tri.ay - tri.cy;
    assert(tri.bx - tri.cx == dy && tri.by - tri.cy == -dx);
    if dx == 0 {
        assert(px * dx == 0 && py * -dx == 0) by (nonlinear_arith)
            requires
                dx == 0,
        ;
        if dy == 1 {
            assert(py * dy == py && px * dy == px) by (nonlinear_arith)
                requires
                    dy == 1,
            ;
        } else {
            assert(py * dy == -py && px * dy == -px) by (nonlinear_arith)
                requires
                    dy == -1,
            ;
        }
    } else {
        assert(py * dy == 0 && px * dy == 0) by (nonlinear_arith)
            requires
                dy == 0,
        ;
        if dx == 1 {
            assert(px * dx == px && py * -dx == -py) by (nonlinear_arith)
                requires
                    dx == 1,
            ;
        } else {
            assert(px * dx == -px && py * -dx == py) by (nonlinear_arith)
                requires
                    dx == -1,
            ;
        }
    }
    assert(double_area(tri) == 1) by (nonlinear_arith)
        requires
            double_area(tri) == dx * dx + dy * dy,
            (dx == 0 && (dy == 1 || dy == -1)) || (dy == 0 && (dx == 1 || dx == -1)),
    ;
}

/// `(x, y)` is a corner of the tile.
pub open spec fn is_tile_corner(t: int, x: int, y: int) -> bool {
    (x == 0 || x == t) && (y == 0 || y == t)
}

/// A grid vertex that a triangle covers, and that is none of its own, has at most its error.
proof fn lemma_covered_error(
    martini: Martini,
    middle_errors: Seq<i64>,
    id: nat,
    x: int,
    y: int,
)
    requires
        is_network(martini),
        middle_errors.len() == martini.num_triangles,
        2 <= id,
        depth(id) <= 2 * order(martini.size - 1) + 1,
        covers(triangle(martini.size - 1, id), x, y),
        !has_vertex(triangle(martini.size - 1, id), x, y),
    ensures
        ({
            let size = martini.size as int;
            let errors = martini.errors(middle_errors);
            &&& depth(id) <= 2 * order(size - 1)
            &&& errors[grid_index(size, x, y)] <= errors[middle_index(
                size,
                triangle(size - 1, id),
            )]
            &&& !is_tile_corner(size - 1, x, y)
        }),
    decreases 2 * order(martini.size - 1) + 1 - depth(id),
{
    let size = martini.size as int;
    let t = size - 1;
    let n = order(t);
    let tri = triangle(t, id);
    let k = (2 * n + 1 - depth(id)) as nat;
    lemma_triangle_level(t, n, id);
    lemma_triangle_within(t, id);
    if k == 0 {
        lemma_finest_covers(tri, x, y);
    } else {
        lemma_half_within(tri, k, t, true);
        lemma_half_within(tri, k, t, false);
        lemma_half_level(tri, k, true);
        lemma_half_level(tri, k, false);
        if x == tri.mx() && y == tri.my() {
            vstd::arithmetic::power2::lemma_pow2_pos(k / 2);
        } else {
            lemma_half_covers(tri, k, t, x, y);
            let left = covers(tri.half(true), x, y);
            lemma_triangle_half(t, id, left);
            lemma_covered_error(martini, middle_errors, half_id(id, left), x, y);
            lemma_id_depth(t, n, id);
            law_errors_nested(martini, middle_errors, id, left);
        }
    }
}

/// A vertex of the triangles that stand for a triangle is one of its own, or has an error above
/// the bound.
proof fn lemma_new_vertex_error(
    errors: Seq<i64>,
    size: int,
    max_error: i64,
    tri: Triangle,
    k: nat,
    j: int,
    x: int,
    y: int,
)
    requires
        0 <= j < refine(errors, size, max_error, tri, k).len(),
        has_vertex(refine(errors, size, max_error, tri, k)[j], x, y),
    ensures
        has_vertex(tri, x, y) || errors[grid_index(size, x, y)] > max_error,
    decreases k,
{
    if k > 0 && errors[middle_index(size, tri)] > max_error {
        let below = (k - 1) as nat;
        let left = refine(errors, size, max_error, tri.half(true), below);
        if j < left.len() {
            lemma_new_vertex_error(errors, size, max_error, tri.half(true), below, j, x, y);
        } else {
            lemma_new_vertex_error(
                errors,
                size,
                max_error,
                tri.half(false),
                below,
                j - left.len(),
                x,
                y,
            );
        }
    }
}

/// Every triangle that stands for a numbered triangle is numbered, and is as fine as can be or
/// has its error within the bound.
proof fn lemma_refine_numbered(
    martini: Martini,
    errors: Seq<i64>,
    max_error: i64,
    id: nat,
    j: int,
) -> (part: nat)
    requires
        is_tile_side(martini.size - 1),
        2 <= id,
        depth(id) <= 2 * order(martini.size - 1) + 1,
        0 <= j < refine(
            errors,
            martini.size as int,
            max_error,
            triangle(martini.size - 1, id),
            (2 * order(martini.size - 1) + 1 - depth(id)) as nat,
        ).len(),
    ensures
        part >= 2,
        depth(part) <= 2 * order(martini.size - 1) + 1,
        triangle(martini.size - 1, part) == refine(
            errors,
            martini.size as int,
            max_error,
            triangle(martini.size - 1, id),
            (2 * order(martini.size - 1) + 1 - depth(id)) as nat,
        )[j],
        depth(part) <= 2 * order(martini.size - 1) ==> errors[middle_index(
            martini.size as int,
            triangle(martini.size - 1, part),
        )] <= max_error,
    decreases 2 * order(martini.size - 1) + 1 - depth(id),
{
    let size = martini.size as int;
    let t = size - 1;
    let tri = triangle(t, id);
    let k = (2 * order(t) + 1 - depth(id)) as nat;
    if k > 0 && errors[middle_index(size, tri)] > max_error {
        let left = refine(errors, size, max_error, tri.half(true), (k - 1) as nat);
        lemma_triangle_half(t, id, true);
        lemma_triangle_half(t, id, false);
        if j < left.len() {
            lemma_refine_numbered(martini, errors, max_error, half_id(id, true), j)
        } else {
            lemma_refine_numbered(
                martini,
                errors,
                max_error,
                half_id(id, false),
                j - left.len(),
            )
        }
    } else {
        id
    }
}

/// Some triangle of the list covers `(x, y)`.
pub open spec fn some_covers(tris: Seq<Triangle>, x: int, y: int) -> bool {
    exists|j: int| 0 <= j < tris.len() && covers(#[trigger] tris[j], x, y)
}

/// What a triangle covers, the triangles that stand for it cover.
proof fn lemma_refine_covers(
    errors: Seq<i64>,
    size: int,
    max_error: i64,
    tri: Triangle,
    k: nat,
    x: int,
    y: int,
)
    requires
        tri.at_level(k),
        tri.within(size - 1),
        covers(tri, x, y),
    ensures
        some_covers(refine(errors, size, max_error, tri, k), x, y),
    decreases k,
{
    let parts = refine(errors, size, max_error, tri, k);
    if k > 0 && errors[middle_index(size, tri)] > max_error {
        let below = (k - 1) as nat;
        lemma_half_covers(tri, k, size - 1, x, y);
        let left = covers(tri.half(true), x, y);
        lemma_half_level(tri, k, left);
        lemma_half_within(tri, k, size - 1, left);
        lemma_refine_covers(errors, size, max_error, tri.half(left), below, x, y);
        let first = refine(errors, size, max_error, tri.half(true), below);
        let some = refine(errors, size, max_error, tri.half(left), below);
        let j = choose|j: int| 0 <= j < some.len() && covers(#[trigger] some[j], x, y);
        if left {
            assert(parts[j] == some[j]);
        } else {
            assert(parts[first.len() + j] == some[j]);
        }
    } else {
        assert(covers(parts[0], x, y));
    }
}

/// Every grid vertex of the tile is covered by a triangle of the mesh: there are no holes.
pub proof fn law_mesh_covers_tile(errors: Seq<i64>, size: int, max_error: i64, x: int, y: int)
    requires
        is_tile_side(size - 1),
        0 <= x < size,
        0 <= y < size,
    ensures
        some_covers(mesh_triangles(errors, size, max_error), x, y),
{
    let t = size - 1;
    let n = order(t);
    let left = y <= x;
    lemma_root_level(t, n, left);
    assert(covers(root(t, left), x, y)) by {
        let (p, q) = if left {
            (t - x, y)
        } else {
            (x, t - y)
        };
        assert((x - t) * (0 - t) == t * (t - x) && (x - t) * 0 == 0 && y * 0 == 0 && y * t == t * y
            && x * t == t * x && x * 0 == 0 && (y - t) * (0 - t) == t * (t - y) && (y - t) * 0 == 0)
            by (nonlinear_arith);
        assert(0 <= t * p && 0 <= t * q && t * p + t * q <= t * t) by (nonlinear_arith)
            requires
                0 <= t,
                0 <= p,
                0 <= q,
                p + q <= t,
        ;
        assert((0 - t) * (0 - t) == t * t) by (nonlinear_arith);
    }
    lemma_refine_covers(errors, size, max_error, root(t, left), 2 * n, x, y);
    let first = refine(errors, size, max_error, root(t, true), 2 * n);
    let some = refine(errors, size, max_error, root(t, left), 2 * n);
    let tris = mesh_triangles(errors, size, max_error);
    let j = choose|j: int| 0 <= j < some.len() && covers(#[trigger] some[j], x, y);
    if left {
        assert(tris[j] == some[j]);
    } else {
        assert(tris[first.len() + j] == some[j]);
    }
}

/// The triangles of a mesh fit together without cracks: a triangle covers no vertex of the mesh
/// but its own three, so no vertex lies within an edge of another triangle.
pub proof fn law_mesh_has_no_cracks(
    martini: Martini,
    middle_errors: Seq<i64>,
    max_error: i64,
    i: int,
    j: int,
    x: int,
    y: int,
)
    requires
        is_network(martini),
        middle_errors.len() == martini.num_triangles,
        ({
            let tris = mesh_triangles(
                martini.errors(middle_errors),
                martini.size as int,
                max_error,
            );
            &&& 0 <= i < tris.len()
            &&& 0 <= j < tris.len()
            &&& has_vertex(tris[i], x, y)
            &&& covers(tris[j], x, y)
        }),
    ensures
        has_vertex(
            mesh_triangles(martini.errors(middle_errors), martini.size as int, max_error)[j],
            x,
            y,
        ),
{
    let size = martini.size as int;
    let t = size - 1;
    let n = order(t);
    let errors = martini.errors(middle_errors);
    let tris = mesh_triangles(errors, size, max_error);
    let first = refine(errors, size, max_error, root(t, true), 2 * n);
    reveal_with_fuel(depth, 3);
    reveal_with_fuel(crate::rtin::descend, 2);
    assert(triangle(t, 3) == root(t, true));
    assert(triangle(t, 2) == root(t, false));
    if i < first.len() {
        lemma_new_vertex_error(errors, size, max_error, root(t, true), 2 * n, i, x, y);
    } else {
        lemma_new_vertex_error(
            errors,
            size,
            max_error,
            root(t, false),
            2 * n,
            i - first.len(),
            x,
            y,
        );
    }
    let id = if j < first.len() {
        lemma_refine_numbered(martini, errors, max_error, 3, j)
    } else {
        lemma_refine_numbered(martini, errors, max_error, 2, j - first.len())
    };
    if !has_vertex(tris[j], x, y) {
        lemma_covered_error(martini, middle_errors, id, x, y);
    }
}

/// A vertex is kept, or is a corner of the tile.
pub open spec fn is_kept(keep: Set<(int, int)>, t: int, x: int, y: int) -> bool {
    keep.contains((x, y)) || ((x == 0 || x == t) && (y == 0 || y == t))
}

/// Every vertex of a mesh is a corner of the tile, or has an error above the bound.
pub proof fn law_vertex_within_bound_is_dropped(
    errors: Seq<i64>,
    size: int,
    max_error: i64,
    j: int,
    x: int,
    y: int,
)
    requires
        0 <= j < mesh_triangles(errors, size, max_error).len(),
        has_vertex(mesh_triangles(errors, size, max_error)[j], x, y),
    ensures
        ((x == 0 || x == size - 1) && (y == 0 || y == size - 1)) || errors[y * size + x]
            > max_error,
{
    let t = size - 1;
    let k = 2 * order(t);
    let n = refine(errors, size, max_error, root(t, true), k).len() as int;
    if j < n {
        lemma_new_vertex_error(errors, size, max_error, root(t, true), k, j, x, y);
    } else {
        lemma_new_vertex_error(errors, size, max_error, root(t, false), k, j - n, x, y);
    }
}

/// The mesh is the coarsest that the bound allows. Take any set of vertices that holds the middle
/// of every long edge whose measured error exceeds the bound, and with the middle of a half of a
/// triangle that of the triangle itself: every vertex of the mesh is one of them, or a corner of
/// the tile.
pub proof fn law_mesh_is_coarsest(
    martini: Martini,
    middle_errors: Seq<i64>,
    max_error: i64,
    keep: Set<(int, int)>,
    j: int,
    x: int,
    y: int,
)
    requires
        is_network(martini),
        middle_errors.len() == martini.num_triangles,
        max_error >= 0,
        ({
            let t = martini.size - 1;
            &&& forall|id: nat|
                #![trigger triangle(t, id)]
                2 <= id < 2 * (t * t) && middle_errors[id - 2] > max_error ==> {
                    let tri = triangle(t, id);
                    keep.contains(((tri.ax + tri.bx) / 2, (tri.ay + tri.by) / 2))
                }
            &&& forall|id: nat|
                #![trigger triangle(t, id)]
                2 <= id < t * t ==> {
                    let tri = triangle(t, id);
                    keep.contains(((tri.ax + tri.cx) / 2, (tri.ay + tri.cy) / 2)) || keep.contains(
                        ((tri.bx + tri.cx) / 2, (tri.by + tri.cy) / 2),
                    ) ==> keep.contains(((tri.ax + tri.bx) / 2, (tri.ay + tri.by) / 2))
                }
        }),
        ({
            let tris = mesh_triangles(
                martini.errors(middle_errors),
                martini.size as int,
                max_error,
            );
            0 <= j < tris.len() && has_vertex(tris[j], x, y)
        }),
    ensures
        is_kept(keep, martini.size - 1, x, y),
{
    let size = martini.size as int;
    let t = size - 1;
    let errors = martini.errors(middle_errors);
    if !is_kept(keep, t, x, y) {
        let held = |u: int, v: int|
            if keep.contains((u, v)) {
                i64::MAX as int
            } else {
                max_error as int
            };
        assert(bounds_errors(held, t, middle_errors));
        law_vertex_within_bound_is_dropped(errors, size, max_error, j, x, y);
        law_mesh_within_bound(errors, size, max_error, j);
        law_errors_are_least(martini, middle_errors, held, x, y);
    }
}

/// The three numbers of a triangle lead to its vertices, and these run counterclockwise on a map
/// with north at the top.
pub proof fn law_numbers_lead_to_vertices(
    mesh: GridMesh,
    errors: Seq<i64>,
    size: int,
    max_error: i64,
    j: int,
)
    requires
        is_tile_side(size - 1),
        mesh.lists(corners(mesh_triangles(errors, size, max_error))),
        0 <= j < mesh_triangles(errors, size, max_error).len(),
    ensures
        mesh.indices@.len() == 3 * mesh_triangles(errors, size, max_error).len(),
        mesh.indices@[3 * j] < mesh.vertices@.len(),
        mesh.indices@[3 * j + 1] < mesh.vertices@.len(),
        mesh.indices@[3 * j + 2] < mesh.vertices@.len(),
        ({
            let tri = mesh_triangles(errors, size, max_error)[j];
            let a = mesh.vertices@[mesh.indices@[3 * j] as int];
            let b = mesh.vertices@[mesh.indices@[3 * j + 1] as int];
            let c = mesh.vertices@[mesh.indices@[3 * j + 2] as int];
            &&& a.0 == tri.ax && a.1 == tri.ay
            &&& b.0 == tri.bx && b.1 == tri.by
            &&& c.0 == tri.cx && c.1 == tri.cy
            &&& (b.0 - a.0) * (a.1 - c.1) - (a.1 - b.1) * (c.0 - a.0) > 0
        }),
{
    let tris = mesh_triangles(errors, size, max_error);
    let points = corners(tris);
    assert((3 * j) / 3 == j && (3 * j) % 3 == 0);
    assert((3 * j + 1) / 3 == j && (3 * j + 1) % 3 == 1);
    assert((3 * j + 2) / 3 == j && (3 * j + 2) % 3 == 2);
    assert(mesh.indices@[3 * j] < mesh.vertices@.len());
    assert(mesh.indices@[3 * j + 1] < mesh.vertices@.len());
    assert(mesh.indices@[3 * j + 2] < mesh.vertices@.len());
    law_mesh_winding(errors, size, max_error, j);
}

/// The point `(x / d, y / d)` lies strictly inside the triangle.
pub open spec fn strictly_inside(tri: Triangle, x: int, y: int, d: int) -> bool {
    let px = x - d * tri.cx;
    let py = y - d * tri.cy;
    let to_a = px * (tri.ax - tri.cx) + py * (tri.ay - tri.cy);
    let to_b = px * (tri.bx - tri.cx) + py * (tri.by - tri.cy);
    &&& to_a > 0
    &&& to_b > 0
    &&& to_a + to_b < d * double_area(tri)
}

/// The products of [`lemma_inside_half`], for the point `(px / d, py / d)` as seen from `c`.
proof fn lemma_scaled_products(px: int, py: int, ex: int, ey: int, d: int)
    ensures
        ({
            let dx = ex - ey;
            let dy = ex + ey;
            let qx = px - d * ex;
            let qy = py - d * ey;
            let s = px * dx + py * dy;
            let r = px * dy + py * (-dx);
            &&& 2 * (qx * (0 - ex) + qy * (0 - ey)) == d * (dx * dx + dy * dy) - s - r
            &&& 2 * (qx * (dx - ex) + qy * (dy - ey)) == s - r
            &&& qx * (dy - ex) + qy * (0 - dx - ey) == -(qx * (dx - ex) + qy * (dy - ey))
            &&& 2 * (d * ((0 - ex) * (0 - ex) + (0 - ey) * (0 - ey))) == d * (dx * dx + dy * dy)
        }),
{
    let dx = ex - ey;
    let dy = ex + ey;
    let qx = px - d * ex;
    let qy = py - d * ey;
    let ee = ex * ex + ey * ey;
    assert(dx * dx + dy * dy == 2 * ee) by (nonlinear_arith)
        requires
            dx == ex - ey,
            dy == ex + ey,
            ee == ex * ex + ey * ey,
    ;
    assert((0 - ex) * (0 - ex) + (0 - ey) * (0 - ey) == ee) by (nonlinear_arith)
        requires
            ee == ex * ex + ey * ey,
    ;
    assert(d * (2 * ee) == 2 * (d * ee)) by (nonlinear_arith);
    assert(px * dx + py * dy + (px * dy + py * (-dx)) == 2 * (px * ex + py * ey)) by (
    nonlinear_arith)
        requires
            dx == ex - ey,
            dy == ex + ey,
    ;
    assert(px * dx + py * dy - (px * dy + py * (-dx)) == 2 * (py * ex - px * ey)) by (
    nonlinear_arith)
        requires
            dx == ex - ey,
            dy == ex + ey,
    ;
    assert(qx * (0 - ex) + qy * (0 - ey) == d * ee - (px * ex + py * ey)) by (nonlinear_arith)
        requires
            qx == px - d * ex,
            qy == py - d * ey,
            ee == ex * ex + ey * ey,
    ;
    assert(qx * (0 - ey) + qy * ex == py * ex - px * ey) by (nonlinear_arith)
        requires
            qx == px - d * ex,
            qy == py - d * ey,
    ;
    assert(dx - ex == 0 - ey && dy - ey == ex && dy - ex == ey && 0 - dx - ey == 0 - ex);
    assert(qx * ey + qy * (0 - ex) == -(qx * (0 - ey) + qy * ex)) by (nonlinear_arith);
}

/// Strictly inside a half is strictly inside the triangle, on the side of that half.
proof fn lemma_inside_half(tri: Triangle, k: nat, t: int, left: bool, x: int, y: int, d: int)
    requires
        k >= 1,
        tri.at_level(k),
        tri.within(t),
        strictly_inside(tri.half(left), x, y, d),
    ensures
        strictly_inside(tri, x, y, d),
        !strictly_inside(tri.half(!left), x, y, d),
{
    lemma_half_within(tri, k, t, left);
    assert(tri.right_isosceles());
    let dx = tri.ax - tri.cx;
    let dy = tri.ay - tri.cy;
    let ex = tri.mx() - tri.cx;
    let ey = tri.my() - tri.cy;
    assert(2 * ex == dx + dy && 2 * ey == dy - dx);
    assert(dx == ex - ey && dy == ex + ey);
    assert(tri.bx - tri.cx == dy && tri.by - tri.cy == -dx);
    let px = x - d * tri.cx;
    let py = y - d * tri.cy;
    let qx = x - d * tri.mx();
    let qy = y - d * tri.my();
    assert(qx == px - d * ex && qy == py - d * ey) by (nonlinear_arith)
        requires
            px == x - d * tri.cx,
            py == y - d * tri.cy,
            qx == x - d * tri.mx(),
            qy == y - d * tri.my(),
            ex == tri.mx() - tri.cx,
            ey == tri.my() - tri.cy,
    ;
    let s = px * dx + py * dy;
    let r = px * dy + py * (-dx);
    let area = dx * dx + dy * dy;
    // Seen from the middle: how far towards `c`, `a` and `b`.
    let to_c = qx * (0 - ex) + qy * (0 - ey);
    let to_a = qx * (dx - ex) + qy * (dy - ey);
    let to_b = qx * (dy - ex) + qy * (0 - dx - ey);
    let half_area = (0 - ex) * (0 - ex) + (0 - ey) * (0 - ey);
    lemma_scaled_products(px, py, ex, ey, d);
    lemma_same_area(dx, dy, ex, ey);
    assert(to_b == -to_a);
    assert(2 * to_c == d * area - s - r);
    assert(2 * to_a == s - r);
    assert(2 * (d * half_area) == d * area);
    let first = tri.half(true);
    let second = tri.half(false);
    assert(double_area(first) == half_area);
    assert(double_area(second) == half_area);
    assert(strictly_inside(first, x, y, d) == (to_c > 0 && to_a > 0 && to_c + to_a < d
        * half_area));
    assert(strictly_inside(second, x, y, d) == (to_b > 0 && to_c > 0 && to_b + to_c < d
        * half_area));
    assert(strictly_inside(tri, x, y, d) == (s > 0 && r > 0 && s + r < d * area));
}

/// Strictly inside one of the triangles that stand for a triangle is strictly inside it.
proof fn lemma_inside_refined(
    errors: Seq<i64>,
    size: int,
    max_error: i64,
    tri: Triangle,
    k: nat,
    j: int,
    x: int,
    y: int,
    d: int,
)
    requires
        tri.at_level(k),
        tri.within(size - 1),
        0 <= j < refine(errors, size, max_error, tri, k).len(),
        strictly_inside(refine(errors, size, max_error, tri, k)[j], x, y, d),
    ensures
        strictly_inside(tri, x, y, d),
    decreases k,
{
    if k > 0 && errors[middle_index(size, tri)] > max_error {
        let below = (k - 1) as nat;
        let first = refine(errors, size, max_error, tri.half(true), below);
        let left = j < first.len();
        let at = if left {
            j
        } else {
            j - first.len()
        };
        lemma_half_level(tri, k, left);
        lemma_half_within(tri, k, size - 1, left);
        lemma_inside_refined(errors, size, max_error, tri.half(left), below, at, x, y, d);
        lemma_inside_half(tri, k, size - 1, left, x, y, d);
    }
}

/// No two of the triangles that stand for a triangle have an inner point in common.
proof fn lemma_refined_disjoint(
    errors: Seq<i64>,
    size: int,
    max_error: i64,
    tri: Triangle,
    k: nat,
    i: int,
    j: int,
    x: int,
    y: int,
    d: int,
)
    requires
        tri.at_level(k),
        tri.within(size - 1),
        0 <= i < j < refine(errors, size, max_error, tri, k).len(),
        strictly_inside(refine(errors, size, max_error, tri, k)[i], x, y, d),
    ensures
        !strictly_inside(refine(errors, size, max_error, tri, k)[j], x, y, d),
    decreases k,
{
    let parts = refine(errors, size, max_error, tri, k);
    if strictly_inside(parts[j], x, y, d) {
        assert(k > 0 && errors[middle_index(size, tri)] > max_error);
        let below = (k - 1) as nat;
        lemma_half_level(tri, k, true);
        lemma_half_level(tri, k, false);
        lemma_half_within(tri, k, size - 1, true);
        lemma_half_within(tri, k, size - 1, false);
        let n = refine(errors, size, max_error, tri.half(true), below).len() as int;
        let (a, b) = (tri.half(true), tri.half(false));
        if j < n {
            lemma_refined_disjoint(errors, size, max_error, a, below, i, j, x, y, d);
        } else if i >= n {
            lemma_refined_disjoint(errors, size, max_error, b, below, i - n, j - n, x, y, d);
        } else {
            lemma_inside_refined(errors, size, max_error, a, below, i, x, y, d);
            lemma_inside_refined(errors, size, max_error, b, below, j - n, x, y, d);
            lemma_inside_half(tri, k, size - 1, true, x, y, d);
        }
    }
}

/// The diagonal parts the two triangles that a tile is first cut into.
proof fn lemma_roots_disjoint(t: int, x: int, y: int, d: int)
    requires
        t > 0,
    ensures
        !(strictly_inside(root(t, true), x, y, d) && strictly_inside(root(t, false), x, y, d)),
{
    let a = root(t, true);
    let b = root(t, false);
    let area = d * (t * t);
    assert((0 - t) * (0 - t) + 0 * 0 == t * t && t * t + 0 * 0 == t * t) by (nonlinear_arith);
    assert(double_area(a) == t * t && double_area(b) == t * t);
    // Both sums together are twice the area, so not both are less than it.
    assert((x - d * t) * (0 - t) + (y - d * 0) * 0 + ((x - d * t) * 0 + (y - d * 0) * t) == area
        - x * t + y * t) by (nonlinear_arith)
        requires
            area == d * (t * t),
    ;
    assert((x - d * 0) * t + (y - d * t) * 0 + ((x - d * 0) * 0 + (y - d * t) * (0 - t)) == area
        + x * t - y * t) by (nonlinear_arith)
        requires
            area == d * (t * t),
    ;
}

/// The triangles of a mesh do not overlap: no point `(x / d, y / d)` is strictly inside two of
/// them.
pub proof fn law_mesh_does_not_overlap(
    errors: Seq<i64>,
    size: int,
    max_error: i64,
    i: int,
    j: int,
    x: int,
    y: int,
    d: int,
)
    requires
        is_tile_side(size - 1),
        d > 0,
        0 <= i < mesh_triangles(errors, size, max_error).len(),
        0 <= j < mesh_triangles(errors, size, max_error).len(),
        i != j,
        strictly_inside(mesh_triangles(errors, size, max_error)[i], x, y, d),
    ensures
        !strictly_inside(mesh_triangles(errors, size, max_error)[j], x, y, d),
{
    let tris = mesh_triangles(errors, size, max_error);
    if strictly_inside(tris[j], x, y, d) {
        let (low, high) = if i < j {
            (i, j)
        } else {
            (j, i)
        };
        let t = size - 1;
        let k = 2 * order(t);
        lemma_tile_side(t);
        lemma_root_level(t, order(t), true);
        lemma_root_level(t, order(t), false);
        let n = refine(errors, size, max_error, root(t, true), k).len() as int;
        let (a, b) = (root(t, true), root(t, false));
        if high < n {
            lemma_refined_disjoint(errors, size, max_error, a, k, low, high, x, y, d);
        } else if low >= n {
            lemma_refined_disjoint(errors, size, max_error, b, k, low - n, high - n, x, y, d);
        } else {
            lemma_inside_refined(errors, size, max_error, a, k, low, x, y, d);
            lemma_inside_refined(errors, size, max_error, b, k, high - n, x, y, d);
            lemma_roots_disjoint(t, x, y, d);
        }
    }
}

} // verus!
