//! Web Mercator tiles with row 0 in the south: `y` is counted from the other end.
use crate::tile_coords::web_mercator;
use crate::types::power_of_two;
use vstd::arithmetic::power2::pow2;
use vstd::prelude::*;

verus! {

/// The row counted from the other end.
pub open spec fn flipped(zoom: u8, y: u32) -> u32 {
    (pow2(zoom as nat) - 1 - y) as u32
}

/// Converts a row from XYZ to TMS, or the other way round.
pub fn flip_y(zoom: u8, y: u32) -> (row: u32)
    requires
        zoom < 32,
        y < pow2(zoom as nat),
    ensures
        row == flipped(zoom, y),
        row + y + 1 == pow2(zoom as nat),
{
    power_of_two(zoom) - 1 - y
}

/// Counting a row from the other end twice gives the row.
pub proof fn law_flip_twice(zoom: u8, y: u32)
    requires
        zoom < 32,
        y < pow2(zoom as nat),
    ensures
        flipped(zoom, y) < pow2(zoom as nat),
        flipped(zoom, flipped(zoom, y)) == y,
{
    vstd::arithmetic::power2::lemma2_to64();
    if zoom < 31 {
        vstd::arithmetic::power2::lemma_pow2_strictly_increases(zoom as nat, 31);
    }
}

/// The tile of a longitude and latitude, clamped to the tiles: the XYZ tile with its row counted
/// from the other end. They are the bits of degrees; `project` gives the position in whole
/// tiles from the northwest corner.
pub fn lonlat_to_tile<F: Fn(u64, u64) -> (u32, u32)>(
    lon: u64,
    lat: u64,
    zoom: u8,
    project: F,
) -> (tile: (u32, u32))
    requires
        zoom < 32,
        call_requires(project, web_mercator::in_range(lon, lat)),
    ensures
        web_mercator::can_have_tile(
            project,
            lon,
            lat,
            zoom,
            (tile.0, flipped(zoom, tile.1)),
        ),
        tile.0 < pow2(zoom as nat),
        tile.1 < pow2(zoom as nat),
{
    let (x, xyz_y) = web_mercator::lonlat_to_tile(lon, lat, zoom, project);
    proof {
        law_flip_twice(zoom, xyz_y);
    }
    (x, flip_y(zoom, xyz_y))
}

} // verus!
