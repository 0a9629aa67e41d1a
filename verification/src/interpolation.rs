//! Choosing the samples that a position between grid points is interpolated from.
//!
//! Samples are the bits of 64-bit floats; a NaN marks a missing one.
use crate::float_bits::{is_nan, number_key};
use vstd::prelude::*;

verus! {

/// What to interpolate between two samples with.
#[derive(Debug, Clone, Copy, PartialEq, Eq, Structural)]
pub enum Blend {
    /// The first sample: the second is missing.
    First,
    /// The second sample: the first is missing.
    Second,
    /// Both.
    Mix,
}

/// How to interpolate between samples `a` and `b`: where one is missing, with the other.
pub open spec fn blend_of(a_missing: bool, b_missing: bool) -> Blend {
    if a_missing {
        Blend::Second
    } else if b_missing {
        Blend::First
    } else {
        Blend::Mix
    }
}

/// Finds how to interpolate between samples `a` and `b`.
pub fn blend(a: u64, b: u64) -> (how: Blend)
    ensures
        how == blend_of(is_nan(a), is_nan(b)),
        how == Blend::Mix <==> !is_nan(a) && !is_nan(b),
        how == Blend::First <==> !is_nan(a) && is_nan(b),
{
    if number_key(a).is_none() {
        Blend::Second
    } else if number_key(b).is_none() {
        Blend::First
    } else {
        Blend::Mix
    }
}

/// The outcome of a blend uses a missing sample only if both are missing.
pub open spec fn blend_missing(a_missing: bool, b_missing: bool) -> bool {
    match blend_of(a_missing, b_missing) {
        Blend::First => a_missing,
        Blend::Second => b_missing,
        Blend::Mix => a_missing || b_missing,
    }
}

/// Between four samples, blended in pairs and then across, the outcome uses a missing one only
/// if all four are missing.
pub proof fn law_missing_only_if_all_are(nw: bool, ne: bool, sw: bool, se: bool)
    ensures
        blend_missing(blend_missing(nw, ne), blend_missing(sw, se)) == (nw && ne && sw && se),
{
}

/// The grid coordinate nearest to `v`, of `count`.
pub open spec fn nearest(v: int, count: int) -> int {
    if v < 0 {
        0
    } else if v >= count {
        count - 1
    } else {
        v
    }
}

/// No grid coordinate is nearer, and one on the grid is its own nearest.
pub proof fn law_nearest(v: int, count: int, other: int)
    requires
        0 <= other < count,
    ensures
        0 <= nearest(v, count) < count,
        ({
            let d = nearest(v, count) - v;
            let e = other - v;
            (if d < 0 { -d } else { d }) <= (if e < 0 { -e } else { e })
        }),
        0 <= v < count ==> nearest(v, count) == v,
{
}

/// The grid coordinates on both sides of a position, where `below` is the position rounded down;
/// off the grid the nearest ones.
pub fn bracket(below: i64, count: u32) -> (sides: (u32, u32))
    requires
        count > 0,
        below < i64::MAX,
    ensures
        sides.0 == nearest(below as int, count as int),
        sides.1 == nearest(below + 1, count as int),
        sides.0 < count,
        sides.1 < count,
        sides.0 <= sides.1 <= sides.0 + 1,
{
    (clamp(below, count), clamp(below + 1, count))
}

fn clamp(v: i64, count: u32) -> (c: u32)
    requires
        count > 0,
    ensures
        c == nearest(v as int, count as int),
        c < count,
{
    if v < 0 {
        0
    } else if v >= count as i64 {
        count - 1
    } else {
        v as u32
    }
}

} // verus!
