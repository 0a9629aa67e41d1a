//! Cesium heightmap-1.0 tiles: a grid of 16-bit heights, and which children exist.
//!
//! A height counts 0.2 m from -1000 m. Rows run from north to south, columns from west to east.
use crate::bytes::{at16, bytes16, codes16, le16, lemma_codes16_of_bytes16, read_u16};
use vstd::prelude::*;

verus! {

broadcast use crate::bytes::group_le_len;

/// Side of a tile, in samples.
pub const TILE_SIZE: u32 = 65;

/// Writes the first `width * height` heights into `out`, two bytes each, little-endian.
pub fn encode_heights_into(heights: &[u16], width: u32, height: u32, out: &mut [u8])
    requires
        heights.len() >= width * height,
        old(out).len() == 2 * (width * height),
    ensures
        final(out)@ == bytes16(heights@.take(width * height)),
{
    let count: usize = out.len() / 2;
    let ghost codes = heights@.take(width * height);
    let mut i: usize = 0;
    while i < count
        invariant
            i <= count,
            count == width * height,
            codes == heights@.take(width * height),
            heights.len() >= count,
            out.len() == 2 * count,
            forall|j: int| 0 <= j < 2 * i ==> out@[j] == bytes16(codes)[j],
        decreases count - i,
    {
        let value: u16 = heights[i];
        assert(2 * i + 2 <= out.len());
        out[2 * i] = (value % 256) as u8;
        out[2 * i + 1] = (value / 256) as u8;
        proof {
            reveal(le16);
            assert((2 * i) / 2 == i as int && (2 * i) % 2 == 0);
            assert((2 * i + 1) / 2 == i as int && (2 * i + 1) % 2 == 1);
        }
        i = i + 1;
    }
    assert(out@ =~= bytes16(codes));
}

/// Writes the first `width * height` heights, two bytes each, little-endian.
pub fn encode_heights(heights: &[u16], width: u32, height: u32) -> (out: Vec<u8>)
    requires
        heights.len() >= width * height,
        2 * (width * height) <= usize::MAX,
    ensures
        out@ == bytes16(heights@.take(width * height)),
{
    assert(width * height >= 0) by (nonlinear_arith);
    let count: usize = width as usize * height as usize;
    let mut out: Vec<u8> = vec![0; count * 2];
    encode_heights_into(heights, width, height, out.as_mut_slice());
    out
}

/// Reads the heights of a tile; an odd byte at the end is ignored.
pub fn iter_heights(data: &[u8]) -> (heights: Vec<u16>)
    ensures
        heights@ == codes16(data@),
{
    decode_heights(data)
}

/// Reads the heights of a tile; an odd byte at the end is ignored.
pub fn decode_heights(data: &[u8]) -> (heights: Vec<u16>)
    ensures
        heights@ == codes16(data@),
{
    let count: usize = data.len() / 2;
    let mut heights: Vec<u16> = Vec::with_capacity(count);
    let mut i: usize = 0;
    while i < count
        invariant
            i <= count,
            2 * count <= data.len(),
            heights@.len() == i,
            forall|k: int| 0 <= k < i ==> heights@[k] == at16(data@, 2 * k),
        decreases count - i,
    {
        heights.push(read_u16(data, 2 * i));
        i = i + 1;
    }
    assert(heights@ =~= codes16(data@));
    heights
}

/// Reading the heights of a tile gives back those that were written.
pub proof fn law_heights_decode_of_encode(heights: Seq<u16>, width: u32, height: u32)
    requires
        heights.len() >= width * height,
    ensures
        codes16(bytes16(heights.take(width * height))) == heights.take(width * height),
{
    lemma_codes16_of_bytes16(heights.take(width * height));
}

/// Which children of a tile exist.
#[derive(Debug, Clone, Copy, PartialEq, Eq, Structural)]
pub struct ChildTileMask {
    /// The southwest child, bit 0.
    pub southwest: bool,
    /// The southeast child, bit 1.
    pub southeast: bool,
    /// The northwest child, bit 2.
    pub northwest: bool,
    /// The northeast child, bit 3.
    pub northeast: bool,
}

/// Bit `i` of a byte.
pub open spec fn bit(byte: u8, i: u8) -> bool {
    (byte >> i) & 1 == 1
}

impl ChildTileMask {
    /// The byte of the mask, one bit a child.
    pub open spec fn spec_byte(self) -> u8 {
        ((if self.southwest { 1int } else { 0 }) + (if self.southeast { 2int } else { 0 }) + (
        if self.northwest { 4int } else { 0 }) + (if self.northeast { 8int } else { 0 })) as u8
    }

    /// All children exist.
    pub fn all() -> (mask: ChildTileMask)
        ensures
            mask == (ChildTileMask {
                southwest: true,
                southeast: true,
                northwest: true,
                northeast: true,
            }),
    {
        ChildTileMask { southwest: true, southeast: true, northwest: true, northeast: true }
    }

    /// No child exists.
    pub fn none() -> (mask: ChildTileMask)
        ensures
            mask == (ChildTileMask {
                southwest: false,
                southeast: false,
                northwest: false,
                northeast: false,
            }),
    {
        ChildTileMask { southwest: false, southeast: false, northwest: false, northeast: false }
    }

    /// Packs the mask into a byte.
    pub fn to_byte(self) -> (byte: u8)
        ensures
            byte == self.spec_byte(),
            self.southwest <==> byte % 2 == 1,
            self.southeast <==> (byte / 2) % 2 == 1,
            self.northwest <==> (byte / 4) % 2 == 1,
            self.northeast <==> (byte / 8) % 2 == 1,
            byte < 16,
    {
        let mut mask: u8 = 0;
        if self.southwest {
            mask = mask + 1;
        }
        if self.southeast {
            mask = mask + 2;
        }
        if self.northwest {
            mask = mask + 4;
        }
        if self.northeast {
            mask = mask + 8;
        }
        mask
    }

    /// Unpacks a mask; the upper four bits are ignored.
    pub fn from_byte(byte: u8) -> (mask: ChildTileMask)
        ensures
            mask == mask_of(byte),
            mask.southwest <==> byte % 2 == 1,
            mask.southeast <==> (byte / 2) % 2 == 1,
            mask.northwest <==> (byte / 4) % 2 == 1,
            mask.northeast <==> (byte / 8) % 2 == 1,
    {
        proof {
            law_mask_bits(mask_of(byte), byte);
        }
        assert((byte & 1 != 0) == ((byte >> 0u8) & 1 == 1)) by (bit_vector);
        assert((byte & 2 != 0) == ((byte >> 1u8) & 1 == 1)) by (bit_vector);
        assert((byte & 4 != 0) == ((byte >> 2u8) & 1 == 1)) by (bit_vector);
        assert((byte & 8 != 0) == ((byte >> 3u8) & 1 == 1)) by (bit_vector);
        ChildTileMask {
            southwest: byte & 1 != 0,
            southeast: byte & 2 != 0,
            northwest: byte & 4 != 0,
            northeast: byte & 8 != 0,
        }
    }
}

impl Default for ChildTileMask {
    /// No child exists.
    fn default() -> (mask: ChildTileMask)
        ensures
            mask == (ChildTileMask {
                southwest: false,
                southeast: false,
                northwest: false,
                northeast: false,
            }),
    {
        ChildTileMask::none()
    }
}

/// The mask of a byte.
pub open spec fn mask_of(byte: u8) -> ChildTileMask {
    ChildTileMask {
        southwest: bit(byte, 0),
        southeast: bit(byte, 1),
        northwest: bit(byte, 2),
        northeast: bit(byte, 3),
    }
}

/// The children from the lowest bit up: southwest, southeast, northwest, northeast.
pub proof fn law_mask_bits(mask: ChildTileMask, byte: u8)
    ensures
        mask.spec_byte() < 16,
        mask.southwest <==> mask.spec_byte() % 2 == 1,
        mask.southeast <==> (mask.spec_byte() / 2) % 2 == 1,
        mask.northwest <==> (mask.spec_byte() / 4) % 2 == 1,
        mask.northeast <==> (mask.spec_byte() / 8) % 2 == 1,
        mask_of(byte).southwest <==> byte % 2 == 1,
        mask_of(byte).southeast <==> (byte / 2) % 2 == 1,
        mask_of(byte).northwest <==> (byte / 4) % 2 == 1,
        mask_of(byte).northeast <==> (byte / 8) % 2 == 1,
{
    assert((byte >> 0u8) & 1 == byte % 2 && (byte >> 1u8) & 1 == (byte / 2) % 2 && (byte >> 2u8)
        & 1 == (byte / 4) % 2 && (byte >> 3u8) & 1 == (byte / 8) % 2) by (bit_vector);
}

/// Unpacking a mask gives back the one that was packed, and packing keeps the lower four bits.
pub proof fn law_mask_roundtrip(mask: ChildTileMask, byte: u8)
    ensures
        mask_of(mask.spec_byte()) == mask,
        mask_of(byte).spec_byte() == byte % 16,
{
    let b0 = (byte >> 0u8) & 1;
    let b1 = (byte >> 1u8) & 1;
    let b2 = (byte >> 2u8) & 1;
    let b3 = (byte >> 3u8) & 1;
    assert(byte % 16 == b0 + 2 * b1 + 4 * b2 + 8 * b3 && b0 <= 1 && b1 <= 1 && b2 <= 1 && b3 <= 1)
        by (bit_vector)
        requires
            b0 == (byte >> 0u8) & 1,
            b1 == (byte >> 1u8) & 1,
            b2 == (byte >> 2u8) & 1,
            b3 == (byte >> 3u8) & 1,
    ;
    let packed = mask.spec_byte();
    let c0 = (packed >> 0u8) & 1;
    let c1 = (packed >> 1u8) & 1;
    let c2 = (packed >> 2u8) & 1;
    let c3 = (packed >> 3u8) & 1;
    assert(packed % 16 == c0 + 2 * c1 + 4 * c2 + 8 * c3 && c0 <= 1 && c1 <= 1 && c2 <= 1 && c3
        <= 1) by (bit_vector)
        requires
            c0 == (packed >> 0u8) & 1,
            c1 == (packed >> 1u8) & 1,
            c2 == (packed >> 2u8) & 1,
            c3 == (packed >> 3u8) & 1,
    ;
}

} // verus!
