//! Elevation tiles of the Geospatial Information Authority of Japan (GSI).
//!
//! A sample counts 0.01 m from 0 m as a signed 24-bit integer, and wraps around. No elevation
//! has a mark of its own.
use crate::heightmap::{
    bytes_code, code_bytes, code_of, pixel_samples, sample_bytes, sample_of, HeightmapFormat,
};
use vstd::prelude::*;

verus! {

/// The pixel that stands for no elevation.
pub const SENTINEL_RGB: [u8; 3] = [0x80, 0, 0];

/// Encodes one sample.
pub fn encode_pixel(sample: Option<i64>) -> (rgb: [u8; 3])
    ensures
        rgb@ == code_bytes(code_of(HeightmapFormat::Gsi, sample)),
{
    crate::heightmap::encode_pixel(HeightmapFormat::Gsi, sample)
}

/// Decodes one pixel.
pub fn decode_pixel(rgb: [u8; 3]) -> (sample: Option<i64>)
    ensures
        sample == sample_of(HeightmapFormat::Gsi, bytes_code(rgb@[0], rgb@[1], rgb@[2])),
{
    crate::heightmap::decode_pixel(HeightmapFormat::Gsi, rgb)
}

/// Encodes samples into `out`, three bytes each.
pub fn encode_into(samples: &[Option<i64>], out: &mut [u8])
    requires
        old(out).len() == 3 * samples.len(),
    ensures
        final(out)@ == sample_bytes(HeightmapFormat::Gsi, samples@),
{
    crate::heightmap::encode_into(HeightmapFormat::Gsi, samples, out)
}

/// Decodes pixels into `out`.
pub fn decode_into(rgb: &[u8], out: &mut [Option<i64>])
    requires
        rgb.len() == 3 * old(out).len(),
    ensures
        final(out)@ == pixel_samples(HeightmapFormat::Gsi, rgb@),
{
    crate::heightmap::decode_into(HeightmapFormat::Gsi, rgb, out)
}

/// Encodes a tile of `width` by `height` samples, row by row.
pub fn encode(samples: &[Option<i64>], width: u32, height: u32) -> (rgb: Vec<u8>)
    requires
        samples.len() == width * height,
        3 * samples.len() <= usize::MAX,
    ensures
        rgb@ == sample_bytes(HeightmapFormat::Gsi, samples@),
{
    crate::heightmap::encode(HeightmapFormat::Gsi, samples, width, height)
}

/// Decodes a tile of `width` by `height` pixels, row by row.
pub fn decode(rgb: &[u8], width: u32, height: u32) -> (samples: Vec<Option<i64>>)
    requires
        rgb.len() == 3 * (width * height),
    ensures
        samples@ == pixel_samples(HeightmapFormat::Gsi, rgb@),
{
    crate::heightmap::decode(HeightmapFormat::Gsi, rgb, width, height)
}

} // verus!
