//! Mapbox "Terrain-RGB" elevation tiles.
//!
//! A sample counts 0.1 m from -10000 m and is clamped to what three bytes hold; no
//! elevation is written as the lowest one.
use crate::heightmap::{
    bytes_code, code_bytes, code_of, pixel_samples, sample_bytes, sample_of, HeightmapFormat,
};
use vstd::prelude::*;

verus! {

/// Encodes one sample.
pub fn encode_pixel(sample: Option<i64>) -> (rgb: [u8; 3])
    ensures
        rgb@ == code_bytes(code_of(HeightmapFormat::Mapbox, sample)),
{
    crate::heightmap::encode_pixel(HeightmapFormat::Mapbox, sample)
}

/// Decodes one pixel.
pub fn decode_pixel(rgb: [u8; 3]) -> (sample: Option<i64>)
    ensures
        sample == sample_of(HeightmapFormat::Mapbox, bytes_code(rgb@[0], rgb@[1], rgb@[2])),
{
    crate::heightmap::decode_pixel(HeightmapFormat::Mapbox, rgb)
}

/// Encodes samples into `out`, three bytes each.
pub fn encode_into(samples: &[Option<i64>], out: &mut [u8])
    requires
        old(out).len() == 3 * samples.len(),
    ensures
        final(out)@ == sample_bytes(HeightmapFormat::Mapbox, samples@),
{
    crate::heightmap::encode_into(HeightmapFormat::Mapbox, samples, out)
}

/// Decodes pixels into `out`.
pub fn decode_into(rgb: &[u8], out: &mut [Option<i64>])
    requires
        rgb.len() == 3 * old(out).len(),
    ensures
        final(out)@ == pixel_samples(HeightmapFormat::Mapbox, rgb@),
{
    crate::heightmap::decode_into(HeightmapFormat::Mapbox, rgb, out)
}

/// Encodes a tile of `width` by `height` samples, row by row.
pub fn encode(samples: &[Option<i64>], width: u32, height: u32) -> (rgb: Vec<u8>)
    requires
        samples.len() == width * height,
        3 * samples.len() <= usize::MAX,
    ensures
        rgb@ == sample_bytes(HeightmapFormat::Mapbox, samples@),
{
    crate::heightmap::encode(HeightmapFormat::Mapbox, samples, width, height)
}

/// Decodes a tile of `width` by `height` pixels, row by row.
pub fn decode(rgb: &[u8], width: u32, height: u32) -> (samples: Vec<Option<i64>>)
    requires
        rgb.len() == 3 * (width * height),
    ensures
        samples@ == pixel_samples(HeightmapFormat::Mapbox, rgb@),
{
    crate::heightmap::decode(HeightmapFormat::Mapbox, rgb, width, height)
}

} // verus!
