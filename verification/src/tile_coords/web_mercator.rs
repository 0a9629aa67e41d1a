//! XYZ Web Mercator tiles: `2^z` by `2^z` a zoom level, row 0 in the north.
use crate::float_bits::{clamp, clamped, law_clamped};
use crate::tile_coords::{clamp_tile, last_tile_at_most, MAX_LON};
use crate::types::power_of_two;
use vstd::arithmetic::power2::pow2;
use vstd::prelude::*;

verus! {

/// Bits of the highest latitude of the Web Mercator square, in degrees.
pub const MAX_LAT: u64 = 0x4055_4345_b1a5_49d6;

/// Longitude and latitude, clamped to the tiles. They are the bits of degrees.
pub open spec fn in_range(lon: u64, lat: u64) -> (u64, u64) {
    (clamped(lon, MAX_LON), clamped(lat, MAX_LAT))
}

/// The tile of a position given in whole tiles from the northwest corner; positions beyond
/// the last tile belong to it.
pub open spec fn tile_at(position: (u32, u32), zoom: u8) -> (u32, u32) {
    (
        last_tile_at_most(position.0, pow2(zoom as nat) as int),
        last_tile_at_most(position.1, pow2(zoom as nat) as int),
    )
}

/// A longitude and latitude can have the given tile, where `project` gives the position of a
/// longitude and latitude in range.
pub open spec fn can_have_tile<F: Fn(u64, u64) -> (u32, u32)>(
    project: F,
    lon: u64,
    lat: u64,
    zoom: u8,
    tile: (u32, u32),
) -> bool {
    exists|position: (u32, u32)|
        #[trigger] call_ensures(project, in_range(lon, lat), position) && tile == tile_at(
            position,
            zoom,
        )
}

/// Number of tiles a side.
pub fn tile_count(zoom: u8) -> (n: u32)
    requires
        zoom < 32,
    ensures
        n == pow2(zoom as nat),
        n >= 1,
{
    power_of_two(zoom)
}

/// The tile of a position given in whole tiles from the northwest corner; positions beyond the
/// last tile belong to it.
pub fn position_to_tile(x: u32, y: u32, zoom: u8) -> (tile: (u32, u32))
    requires
        zoom < 32,
    ensures
        tile == tile_at((x, y), zoom),
        tile.0 == if x < pow2(zoom as nat) {
            x as int
        } else {
            pow2(zoom as nat) - 1
        },
        tile.1 == if y < pow2(zoom as nat) {
            y as int
        } else {
            pow2(zoom as nat) - 1
        },
        tile.0 < pow2(zoom as nat),
        tile.1 < pow2(zoom as nat),
{
    let n: u32 = tile_count(zoom);
    (clamp_tile(x, n), clamp_tile(y, n))
}

/// The tile of a longitude and latitude, clamped to the tiles. They are the bits of degrees;
/// `project` gives the position in whole tiles from the northwest corner.
pub fn lonlat_to_tile<F: Fn(u64, u64) -> (u32, u32)>(
    lon: u64,
    lat: u64,
    zoom: u8,
    project: F,
) -> (tile: (u32, u32))
    requires
        zoom < 32,
        call_requires(project, in_range(lon, lat)),
    ensures
        can_have_tile(project, lon, lat, zoom, tile),
        tile.0 < pow2(zoom as nat),
        tile.1 < pow2(zoom as nat),
{
    let (x, y) = project(clamp(lon, MAX_LON), clamp(lat, MAX_LAT));
    position_to_tile(x, y, zoom)
}

/// A longitude and latitude out of range have the tile of the clamped ones.
pub proof fn law_out_of_range_is_clamped<F: Fn(u64, u64) -> (u32, u32)>(
    project: F,
    lon: u64,
    lat: u64,
    zoom: u8,
    tile: (u32, u32),
)
    ensures
        in_range(lon, lat) == (clamped(lon, MAX_LON), clamped(lat, MAX_LAT)),
        can_have_tile(project, lon, lat, zoom, tile) == can_have_tile(
            project,
            clamped(lon, MAX_LON),
            clamped(lat, MAX_LAT),
            zoom,
            tile,
        ),
{
    law_clamped(lon, MAX_LON);
    law_clamped(lat, MAX_LAT);
    let (x, y) = in_range(lon, lat);
    assert(in_range(x, y) == (x, y));
}

} // verus!
