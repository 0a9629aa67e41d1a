//! Geometry of the right-triangulated irregular network over a square tile.
//!
//! A tile of `2^n x 2^n` cells is cut along its diagonal into two right
//! isosceles triangles, and every triangle is cut in two at the middle of its
//! long edge. Vertex `c` is the right angle, `a` and `b` are the ends of the
//! long edge.
use vstd::arithmetic::power2::{lemma_pow2_pos, lemma_pow2_unfold, pow2};
use vstd::prelude::*;

verus! {

/// A triangle of the network, by the grid coordinates of its three vertices.
pub struct Triangle {
    pub ax: int,
    pub ay: int,
    pub bx: int,
    pub by: int,
    pub cx: int,
    pub cy: int,
}

impl Triangle {
    /// Column of the middle of the long edge.
    pub open spec fn mx(self) -> int {
        (self.ax + self.bx) / 2
    }

    /// Row of the middle of the long edge.
    pub open spec fn my(self) -> int {
        (self.ay + self.by) / 2
    }

    /// The two halves: `true` is the half along `c` and `a`, `false` the one along `b` and `c`.
    pub open spec fn half(self, left: bool) -> Triangle {
        if left {
            Triangle {
                ax: self.cx,
                ay: self.cy,
                bx: self.ax,
                by: self.ay,
                cx: self.mx(),
                cy: self.my(),
            }
        } else {
            Triangle {
                ax: self.bx,
                ay: self.by,
                bx: self.cx,
                by: self.cy,
                cx: self.mx(),
                cy: self.my(),
            }
        }
    }

    /// Every vertex lies on the grid of a tile of `t` cells a side.
    pub open spec fn within(self, t: int) -> bool {
        &&& 0 <= self.ax <= t
        &&& 0 <= self.ay <= t
        &&& 0 <= self.bx <= t
        &&& 0 <= self.by <= t
        &&& 0 <= self.cx <= t
        &&& 0 <= self.cy <= t
    }

    /// `c -> b` is `c -> a` turned by a quarter.
    pub open spec fn right_isosceles(self) -> bool {
        &&& self.bx == self.cx + (self.ay - self.cy)
        &&& self.by == self.cy - (self.ax - self.cx)
    }

    /// The short edges run along the grid and have length `h`; `c` is a multiple of `h`.
    pub open spec fn axis(self, h: int) -> bool {
        let dx = self.ax - self.cx;
        let dy = self.ay - self.cy;
        &&& self.right_isosceles()
        &&& self.cx % h == 0
        &&& self.cy % h == 0
        &&& (dx == 0 && (dy == h || dy == -h)) || (dy == 0 && (dx == h || dx == -h))
    }

    /// The short edges run diagonally across `h` cells; `c` is an odd multiple of `h`.
    pub open spec fn diagonal(self, h: int) -> bool {
        let dx = self.ax - self.cx;
        let dy = self.ay - self.cy;
        &&& self.right_isosceles()
        &&& self.cx % (2 * h) == h
        &&& self.cy % (2 * h) == h
        &&& (dx == h || dx == -h)
        &&& (dy == h || dy == -h)
    }

    /// The triangle is one that stands `k` cuts above the finest ones.
    pub open spec fn at_level(self, k: nat) -> bool {
        if k % 2 == 0 {
            self.axis(pow2(k / 2) as int)
        } else {
            self.diagonal(pow2(k / 2) as int)
        }
    }
}

/// The two triangles that a tile of `t` cells a side is first cut into: `true` holds the
/// corner `(t, 0)`, `false` the corner `(0, t)`.
pub open spec fn root(t: int, left: bool) -> Triangle {
    if left {
        Triangle { ax: 0, ay: 0, bx: t, by: t, cx: t, cy: 0 }
    } else {
        Triangle { ax: t, ay: t, bx: 0, by: 0, cx: 0, cy: t }
    }
}

/// The triangle reached from `tri` by reading the bits of `id` from the lowest up to,
/// and without, the highest set one.
pub open spec fn descend(tri: Triangle, id: nat) -> Triangle
    decreases id,
{
    if id <= 1 {
        tri
    } else {
        descend(tri.half(id % 2 == 1), id / 2)
    }
}

/// The triangle numbered `id` of the implicit binary tree over a tile of `t` cells a side;
/// the two roots are numbered 2 and 3.
pub open spec fn triangle(t: int, id: nat) -> Triangle {
    descend(root(t, id % 2 == 1), id / 2)
}

/// `t` is a tile side that the network can be built on: `2^n` with `1 <= n <= 15`.
pub open spec fn is_tile_side(t: int) -> bool {
    exists|n: nat| 1 <= n <= 15 && t == #[trigger] pow2(n)
}

/// The `n` of which a tile side is the power of two.
pub open spec fn order(t: int) -> nat {
    choose|n: nat| 1 <= n <= 15 && t == #[trigger] pow2(n)
}

proof fn lemma_half_of_axis(tri: Triangle, h: int, left: bool)
    requires
        h >= 1,
        tri.axis(2 * h),
    ensures
        tri.half(left).diagonal(h),
        tri.mx() % (2 * h) == h,
        tri.my() % (2 * h) == h,
{
    let dx = tri.ax - tri.cx;
    let dy = tri.ay - tri.cy;
    let ex = (dx + dy) / 2;
    let ey = (dy - dx) / 2;
    assert(tri.mx() == tri.cx + ex);
    assert(tri.my() == tri.cy + ey);
    assert((ex == h || ex == -h) && (ey == h || ey == -h));
    lemma_shift_mod(tri.cx, ex, h);
    lemma_shift_mod(tri.cy, ey, h);
}

/// Half a step away from a multiple of `2 * h` lies an odd multiple of `h`.
proof fn lemma_shift_mod(c: int, e: int, h: int)
    requires
        h >= 1,
        c % (2 * h) == 0,
        e == h || e == -h,
    ensures
        (c + e) % (2 * h) == h,
{
    let q = c / (2 * h);
    assert(c == q * (2 * h)) by (nonlinear_arith)
        requires
            h >= 1,
            c % (2 * h) == 0,
            q == c / (2 * h),
    ;
    if e == h {
        lemma_mod_unique(c + e, 2 * h, q, h);
    } else {
        assert(c + e == (q - 1) * (2 * h) + h) by (nonlinear_arith)
            requires
                c == q * (2 * h),
                e == -h,
        ;
        lemma_mod_unique(c + e, 2 * h, q - 1, h);
    }
}

/// One step of `h` from an odd multiple of `h` lands on an even one, and no step leaves it.
proof fn lemma_unshift_mod(c: int, e: int, h: int)
    requires
        h >= 1,
        c % (2 * h) == h,
        e == h || e == -h,
    ensures
        (c + e) % (2 * h) == 0,
        (c + e) % h == 0,
        c % h == 0,
{
    let q = c / (2 * h);
    assert(c == q * (2 * h) + h) by (nonlinear_arith)
        requires
            h >= 1,
            c % (2 * h) == h,
            q == c / (2 * h),
    ;
    assert(c == (2 * q + 1) * h) by (nonlinear_arith)
        requires
            c == q * (2 * h) + h,
    ;
    lemma_mod_unique(c, h, 2 * q + 1, 0);
    if e == h {
        assert(c + e == (q + 1) * (2 * h) && c + e == (2 * q + 2) * h) by (nonlinear_arith)
            requires
                c == q * (2 * h) + h,
                e == h,
        ;
        lemma_mod_unique(c + e, 2 * h, q + 1, 0);
        lemma_mod_unique(c + e, h, 2 * q + 2, 0);
    } else {
        assert(c + e == q * (2 * h) && c + e == (2 * q) * h) by (nonlinear_arith)
            requires
                c == q * (2 * h) + h,
                e == -h,
        ;
        lemma_mod_unique(c + e, 2 * h, q, 0);
        lemma_mod_unique(c + e, h, 2 * q, 0);
    }
}

proof fn lemma_mod_unique(x: int, m: int, q: int, r: int)
    requires
        m >= 1,
        x == q * m + r,
        0 <= r < m,
    ensures
        x % m == r,
        x / m == q,
{
    vstd::arithmetic::div_mod::lemma_fundamental_div_mod_converse(x, m, q, r);
}

proof fn lemma_half_of_diagonal(tri: Triangle, h: int, left: bool)
    requires
        h >= 1,
        tri.diagonal(h),
    ensures
        tri.half(left).axis(h),
        (tri.mx() % (2 * h) == 0 && tri.my() % (2 * h) == h) || (tri.mx() % (2 * h) == h
            && tri.my() % (2 * h) == 0),
{
    let dx = tri.ax - tri.cx;
    let dy = tri.ay - tri.cy;
    let ex = (dx + dy) / 2;
    let ey = (dy - dx) / 2;
    assert(tri.mx() == tri.cx + ex);
    assert(tri.my() == tri.cy + ey);
    assert((ex == 0 && (ey == h || ey == -h)) || (ey == 0 && (ex == h || ex == -h)));
    lemma_unshift_mod(tri.cx, h, h);
    lemma_unshift_mod(tri.cy, h, h);
    if ex == 0 {
        lemma_unshift_mod(tri.cy, ey, h);
    } else {
        lemma_unshift_mod(tri.cx, ex, h);
    }
}

/// Cutting a triangle `k` cuts above the finest gives two that are `k - 1` above.
pub proof fn lemma_half_level(tri: Triangle, k: nat, left: bool)
    requires
        k >= 1,
        tri.at_level(k),
    ensures
        tri.half(left).at_level((k - 1) as nat),
{
    let h = pow2((k - 1) as nat / 2) as int;
    lemma_pow2_pos((k - 1) as nat / 2);
    if k % 2 == 0 {
        lemma_pow2_unfold(k / 2);
        assert((k - 1) as nat / 2 == k / 2 - 1);
        lemma_half_of_axis(tri, h, left);
    } else {
        lemma_half_of_diagonal(tri, h, left);
    }
}

/// A cut stays on the grid, and above the finest level it cuts at a grid vertex.
pub proof fn lemma_half_within(tri: Triangle, k: nat, t: int, left: bool)
    requires
        k >= 1,
        tri.at_level(k),
        tri.within(t),
    ensures
        tri.half(left).within(t),
        0 <= tri.mx() <= t,
        0 <= tri.my() <= t,
        2 * tri.mx() == tri.ax + tri.bx,
        2 * tri.my() == tri.ay + tri.by,
{
    if k % 2 == 0 {
        lemma_pow2_unfold(k / 2);
    }
}

/// A triangle can be cut further exactly when its short edges span more than one cell.
pub proof fn lemma_level_span(tri: Triangle, k: nat)
    requires
        tri.at_level(k),
    ensures
        ({
            let dx = tri.ax - tri.cx;
            let dy = tri.ay - tri.cy;
            let ux = if dx < 0 { -dx } else { dx };
            let uy = if dy < 0 { -dy } else { dy };
            ux + uy > 1 <==> k >= 1
        }),
{
    lemma_pow2_pos(k / 2);
    if k % 2 == 0 {
        if k == 0 {
            vstd::arithmetic::power2::lemma2_to64();
        } else {
            lemma_pow2_unfold(k / 2);
            lemma_pow2_pos((k / 2 - 1) as nat);
        }
    }
}

/// Both roots of a tile of `2^n` cells a side stand `2 * n` cuts above the finest.
pub proof fn lemma_root_level(t: int, n: nat, left: bool)
    requires
        t == pow2(n),
    ensures
        root(t, left).at_level(2 * n),
        root(t, left).within(t),
{
    lemma_pow2_pos(n);
    assert((2 * n) as nat / 2 == n);
    assert(t % t == 0) by (nonlinear_arith)
        requires
            t > 0,
    ;
    assert(0int % t == 0) by (nonlinear_arith)
        requires
            t > 0,
    ;
}

/// Number of cuts that the bits of `id` stand for.
pub open spec fn depth(id: nat) -> nat
    decreases id,
{
    if id <= 1 {
        0
    } else {
        1 + depth(id / 2)
    }
}

/// The number of cuts is the logarithm of the number.
pub proof fn lemma_depth(id: nat)
    requires
        id >= 1,
    ensures
        pow2(depth(id)) <= id < pow2(depth(id) + 1),
    decreases id,
{
    vstd::arithmetic::power2::lemma2_to64();
    if id > 1 {
        lemma_depth(id / 2);
        lemma_pow2_unfold(depth(id));
        lemma_pow2_unfold(depth(id) + 1);
    }
}

/// A number below `2^(d + 1)` stands for at most `d` cuts, and the other way round.
pub proof fn lemma_depth_bound(id: nat, d: nat)
    requires
        id >= 1,
    ensures
        depth(id) <= d <==> id < pow2(d + 1),
{
    lemma_depth(id);
    if depth(id) < d {
        vstd::arithmetic::power2::lemma_pow2_strictly_increases(depth(id) + 1, d + 1);
    }
    if depth(id) > d + 1 {
        vstd::arithmetic::power2::lemma_pow2_strictly_increases(d + 1, depth(id));
    }
}

/// Smaller numbers stand for no more cuts.
pub proof fn lemma_depth_monotone(a: nat, b: nat)
    requires
        a <= b,
    ensures
        depth(a) <= depth(b),
    decreases b,
{
    if a > 1 {
        lemma_depth_monotone(a / 2, b / 2);
    }
}

proof fn lemma_descend_within(tri: Triangle, id: nat, t: int)
    requires
        tri.within(t),
    ensures
        descend(tri, id).within(t),
    decreases id,
{
    if id > 1 {
        lemma_descend_within(tri.half(id % 2 == 1), id / 2, t);
    }
}

proof fn lemma_descend_level(tri: Triangle, id: nat, k: nat)
    requires
        tri.at_level(k),
        depth(id) <= k,
    ensures
        descend(tri, id).at_level((k - depth(id)) as nat),
    decreases id,
{
    if id > 1 {
        lemma_half_level(tri, k, id % 2 == 1);
        lemma_descend_level(tri.half(id % 2 == 1), id / 2, (k - 1) as nat);
    }
}

/// Every numbered triangle lies within the tile.
pub proof fn lemma_triangle_within(t: int, id: nat)
    requires
        t >= 0,
    ensures
        triangle(t, id).within(t),
{
    lemma_descend_within(root(t, id % 2 == 1), id / 2, t);
}

/// Every numbered triangle stands as many cuts below the roots as its number says.
pub proof fn lemma_triangle_level(t: int, n: nat, id: nat)
    requires
        t == pow2(n),
        id >= 2,
        depth(id) <= 2 * n + 1,
    ensures
        triangle(t, id).at_level((2 * n + 1 - depth(id)) as nat),
{
    lemma_root_level(t, n, id % 2 == 1);
    lemma_descend_level(root(t, id % 2 == 1), id / 2, 2 * n);
}

/// The number of one half of the triangle numbered `id`.
pub open spec fn half_id(id: nat, left: bool) -> nat {
    if left {
        id + 2 * pow2(depth(id))
    } else {
        id + pow2(depth(id))
    }
}

proof fn lemma_descend_half(tri: Triangle, id: nat, left: bool)
    requires
        id >= 1,
    ensures
        descend(tri, half_id(id, left)) == descend(tri, id).half(left),
        depth(half_id(id, left)) == depth(id) + 1,
    decreases id,
{
    vstd::arithmetic::power2::lemma2_to64();
    let next = half_id(id, left);
    if id == 1 {
        reveal_with_fuel(descend, 3);
        reveal_with_fuel(depth, 3);
        assert(next == if left { 3nat } else { 2nat });
    } else {
        lemma_pow2_unfold(depth(id));
        lemma_descend_half(tri.half(id % 2 == 1), id / 2, left);
        assert(next / 2 == half_id(id / 2, left));
        assert(next % 2 == id % 2);
    }
}

/// The halves of a numbered triangle are numbered triangles, one cut further down.
pub proof fn lemma_triangle_half(t: int, id: nat, left: bool)
    requires
        id >= 2,
    ensures
        triangle(t, half_id(id, left)) == triangle(t, id).half(left),
        depth(half_id(id, left)) == depth(id) + 1,
        half_id(id, left) > id,
{
    lemma_pow2_unfold(depth(id));
    lemma_pow2_pos(depth(id));
    lemma_descend_half(root(t, id % 2 == 1), id / 2, left);
    assert(half_id(id, left) / 2 == half_id(id / 2, left));
    assert(half_id(id, left) % 2 == id % 2);
}

/// Two triangles of different levels never have the same middle.
pub proof fn lemma_middles_differ(upper: Triangle, k: nat, lower: Triangle, l: nat)
    requires
        upper.at_level(k),
        lower.at_level(l),
        1 <= l < k,
    ensures
        upper.mx() != lower.mx() || upper.my() != lower.my(),
{
    let h = pow2(((k - 1) / 2) as nat) as int;
    let g = pow2(((l - 1) / 2) as nat) as int;
    lemma_pow2_pos(((k - 1) / 2) as nat);
    lemma_pow2_pos(((l - 1) / 2) as nat);
    lemma_middle_class(upper, k);
    lemma_middle_class(lower, l);
    if (k - 1) / 2 == (l - 1) / 2 {
        assert(k % 2 == 0 && l % 2 == 1);
    } else {
        // Both coordinates of the upper middle are multiples of `h`, hence of `2 * g`.
        let d = ((k - 1) / 2 - (l - 1) / 2 - 1) as nat;
        vstd::arithmetic::power2::lemma_pow2_adds(d, ((l - 1) / 2 + 1) as nat);
        lemma_pow2_unfold(((l - 1) / 2 + 1) as nat);
        let q = pow2(d) as int;
        assert(h == q * (2 * g));
        lemma_coarse_multiple(upper.mx(), h, q, g);
        lemma_coarse_multiple(upper.my(), h, q, g);
    }
}

proof fn lemma_coarse_multiple(x: int, h: int, q: int, g: int)
    requires
        g >= 1,
        h >= 1,
        h == q * (2 * g),
        x % (2 * h) == 0 || x % (2 * h) == h,
    ensures
        x % (2 * g) == 0,
{
    let p = x / (2 * h);
    let m = if x % (2 * h) == 0 {
        2 * p
    } else {
        2 * p + 1
    };
    assert(x == p * (2 * h) + x % (2 * h)) by {
        vstd::arithmetic::div_mod::lemma_fundamental_div_mod(x, 2 * h);
        assert(p * (2 * h) == (2 * h) * p) by (nonlinear_arith);
    }
    assert(x == m * h) by (nonlinear_arith)
        requires
            x == p * (2 * h) + x % (2 * h),
            (x % (2 * h) == 0 && m == 2 * p) || (x % (2 * h) == h && m == 2 * p + 1),
    ;
    assert(x == (m * q) * (2 * g)) by (nonlinear_arith)
        requires
            x == m * h,
            h == q * (2 * g),
    ;
    lemma_mod_unique(x, 2 * g, m * q, 0);
}

/// Where the middle of a triangle `k` cuts above the finest can lie: on odd multiples of a
/// power of two in both coordinates, or in just one of them.
proof fn lemma_middle_class(tri: Triangle, k: nat)
    requires
        k >= 1,
        tri.at_level(k),
    ensures
        ({
            let h = pow2(((k - 1) / 2) as nat) as int;
            let x = tri.mx() % (2 * h);
            let y = tri.my() % (2 * h);
            if k % 2 == 0 {
                x == h && y == h
            } else {
                (x == 0 && y == h) || (x == h && y == 0)
            }
        }),
{
    let h = pow2(((k - 1) / 2) as nat) as int;
    lemma_pow2_pos(((k - 1) / 2) as nat);
    if k % 2 == 0 {
        lemma_pow2_unfold(k / 2);
        assert((k - 1) / 2 == k / 2 - 1);
        lemma_half_of_axis(tri, h, true);
    } else {
        assert((k - 1) / 2 == k / 2);
        lemma_half_of_diagonal(tri, h, true);
    }
}

} // verus!
