//! Mapzen, Tilezen and Stadia "Terrarium" elevation tiles.
//!
//! A sample counts 1/256 m from -32768 m and is clamped to what three bytes hold; no
//! elevation is written as zero metres.
use crate::heightmap::{
    bytes_code, code_bytes, code_of, pixel_samples, sample_bytes, sample_of, HeightmapFormat,
};
use vstd::prelude::*;

verus! {

/// Encodes one sample.
pub fn encode_pixel(sample: Option<i64>) -> (rgb: [u8; 3])
    ensures
        rgb@ == code_bytes(code_of(HeightmapFormat::Terrarium, sample)),
{
    crate::heightmap::encode_pixel(HeightmapFormat::Terrarium, sample)
}

/// Decodes one pixel.
pub fn decode_pixel(rgb: [u8; 3]) -> (sample: Option<i64>)
    ensures
        sample == sample_of(HeightmapFormat::Terrarium, bytes_code(rgb@[0], rgb@[1], rgb@[2])),
{
    crate::heightmap::decode_pixel(HeightmapFormat::Terrarium, rgb)
}

/// Encodes samples into `out`, three bytes each.
pub fn encode_into(samples: &[Option<i64>], out: &mut [u8])
    requires
        old(out).len() == 3 * samples.len(),
    ensures
        final(out)@ == sample_bytes(HeightmapFormat::Terrarium, samples@),
{
    crate::heightmap::encode_into(HeightmapFormat::Terrarium, samples, out)
}

/// Decodes pixels into `out`.
pub fn decode_into(rgb: &[u8], out: &mut [Option<i64>])
    requires
        rgb.len() == 3 * old(out).len(),
    ensures
        final(out)@ == pixel_samples(HeightmapFormat::Terrarium, rgb@),
{
    crate::heightmap::decode_into(HeightmapFormat::Terrarium, rgb, out)
}

/// Encodes a tile of `width` by `height` samples, row by row.
pub fn encode(samples: &[Option<i64>], width: u32, height: u32) -> (rgb: Vec<u8>)
    requires
        samples.len() == width * height,
        3 * samples.len() <= usize::MAX,
    ensures
        rgb@ == sample_bytes(HeightmapFormat::Terrarium, samples@),
{
    crate::heightmap::encode(HeightmapFormat::Terrarium, samples, width, height)
}

/// Decodes a tile of `width` by `height` pixels, row by row.
pub fn decode(rgb: &[u8], width: u32, height: u32) -> (samples: Vec<Option<i64>>)
    requires
        rgb.len() == 3 * (width * height),
    ensures
        samples@ == pixel_samples(HeightmapFormat::Terrarium, rgb@),
{
    crate::heightmap::decode(HeightmapFormat::Terrarium, rgb, width, height)
}

} // verus!
