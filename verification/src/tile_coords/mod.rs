//! Tile coordinates of the tiling schemes used with terrain and raster tiles.
//!
//! - [`web_mercator`]: `2^z` by `2^z` tiles a zoom level, row 0 in the north.
//! - [`web_mercator_tms`]: the same with row 0 in the south.
//! - [`geodetic_tms`]: `2^(z+1)` by `2^z` tiles a zoom level, row 0 in the south.
use vstd::prelude::*;

pub mod geodetic_tms;
pub mod web_mercator;
pub mod web_mercator_tms;

verus! {

/// Bits of the highest longitude, 180 degrees.
pub const MAX_LON: u64 = 0x4066_8000_0000_0000;

/// The lower of a tile coordinate and the last one, of `count`.
pub open spec fn last_tile_at_most(v: u32, count: int) -> u32 {
    if v < count {
        v
    } else {
        (count - 1) as u32
    }
}

/// Keeps a tile coordinate within `count` tiles.
pub(crate) fn clamp_tile(v: u32, count: u32) -> (tile: u32)
    requires
        count > 0,
    ensures
        tile == last_tile_at_most(v, count as int),
        tile < count,
{
    if v < count {
        v
    } else {
        count - 1
    }
}

/// Coordinates are kept within the tiles: the tile is the last one that is not beyond the
/// coordinate.
pub proof fn law_last_tile_at_most(v: u32, count: int, other: int)
    requires
        0 < count <= 0x1_0000_0000,
        0 <= other < count,
    ensures
        last_tile_at_most(v, count) < count,
        last_tile_at_most(v, count) <= v,
        other <= v ==> other <= last_tile_at_most(v, count),
{
}

} // verus!
