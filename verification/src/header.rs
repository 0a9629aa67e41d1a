//! The fixed-size header at the start of a quantized mesh.
use crate::bytes::{
    at32, at64, group_le_len, le32, le64, lemma_at32_of_le32, lemma_at64_of_le64,
    lemma_le32_of_at32, lemma_le64_of_at64, push_u32, push_u64, read_u32, read_u64,
};
use vstd::prelude::*;

verus! {

broadcast use group_le_len;

/// Length of the header in bytes.
pub const HEADER_LEN: usize = 88;

/// Quantized mesh header (88 bytes).
///
/// All coordinates are in the Earth-Centered Earth-Fixed (ECEF) frame, in metres. Each field
/// holds the IEEE 754 bits of its value: 64 bits for a coordinate, 32 for a height.
#[derive(Debug, Clone, Copy, PartialEq, Eq)]
pub struct QuantizedMeshHeader {
    /// Center of the tile.
    pub center: [u64; 3],
    /// Minimum height in the tile.
    pub min_height: u32,
    /// Maximum height in the tile.
    pub max_height: u32,
    /// Bounding sphere center.
    pub bounding_sphere_center: [u64; 3],
    /// Bounding sphere radius.
    pub bounding_sphere_radius: u64,
    /// Horizon occlusion point, in ellipsoid-scaled coordinates.
    pub horizon_occlusion_point: [u64; 3],
}

/// The bits of 6378137.0, the length of the Earth's semi-major axis in metres.
pub const SEMI_MAJOR_AXIS_BITS: u64 = 0x4158_54A6_4000_0000;

/// The bits of 1.0.
pub const ONE_BITS: u64 = 0x3FF0_0000_0000_0000;

/// The bytes of three coordinates.
pub open spec fn point_bytes(p: Seq<u64>) -> Seq<u8> {
    le64(p[0]) + le64(p[1]) + le64(p[2])
}

impl QuantizedMeshHeader {
    /// The header as it stands in a file.
    pub open spec fn bytes(&self) -> Seq<u8> {
        point_bytes(self.center@) + le32(self.min_height) + le32(self.max_height) + point_bytes(
            self.bounding_sphere_center@,
        ) + le64(self.bounding_sphere_radius) + point_bytes(self.horizon_occlusion_point@)
    }
}

/// The header that stands at the start of `s`.
pub open spec fn header_of(s: Seq<u8>) -> QuantizedMeshHeader {
    QuantizedMeshHeader {
        center: [at64(s, 0), at64(s, 8), at64(s, 16)],
        min_height: at32(s, 24),
        max_height: at32(s, 28),
        bounding_sphere_center: [at64(s, 32), at64(s, 40), at64(s, 48)],
        bounding_sphere_radius: at64(s, 56),
        horizon_occlusion_point: [at64(s, 64), at64(s, 72), at64(s, 80)],
    }
}

impl Default for QuantizedMeshHeader {
    /// A tile at the pole of a sphere, without extent.
    fn default() -> (header: QuantizedMeshHeader)
        ensures
            header == (QuantizedMeshHeader {
                center: [0, 0, SEMI_MAJOR_AXIS_BITS],
                min_height: 0,
                max_height: 0,
                bounding_sphere_center: [0, 0, SEMI_MAJOR_AXIS_BITS],
                bounding_sphere_radius: 0,
                horizon_occlusion_point: [0, 0, ONE_BITS],
            }),
    {
        QuantizedMeshHeader {
            center: [0, 0, SEMI_MAJOR_AXIS_BITS],
            min_height: 0,
            max_height: 0,
            bounding_sphere_center: [0, 0, SEMI_MAJOR_AXIS_BITS],
            bounding_sphere_radius: 0,
            horizon_occlusion_point: [0, 0, ONE_BITS],
        }
    }
}

fn push_point(out: &mut Vec<u8>, p: &[u64; 3])
    ensures
        final(out)@ == old(out)@ + point_bytes(p@),
{
    push_u64(out, p[0]);
    push_u64(out, p[1]);
    push_u64(out, p[2]);
    assert(out@ =~= old(out)@ + point_bytes(p@));
}

impl QuantizedMeshHeader {
    /// Serializes the header, little-endian.
    pub fn to_bytes(&self) -> (bytes: [u8; 88])
        ensures
            bytes@ == self.bytes(),
            at64(bytes@, 0) == self.center@[0],
            at64(bytes@, 8) == self.center@[1],
            at64(bytes@, 16) == self.center@[2],
            at32(bytes@, 24) == self.min_height,
            at32(bytes@, 28) == self.max_height,
            at64(bytes@, 32) == self.bounding_sphere_center@[0],
            at64(bytes@, 40) == self.bounding_sphere_center@[1],
            at64(bytes@, 48) == self.bounding_sphere_center@[2],
            at64(bytes@, 56) == self.bounding_sphere_radius,
            at64(bytes@, 64) == self.horizon_occlusion_point@[0],
            at64(bytes@, 72) == self.horizon_occlusion_point@[1],
            at64(bytes@, 80) == self.horizon_occlusion_point@[2],
    {
        let mut out: Vec<u8> = Vec::with_capacity(HEADER_LEN);
        push_point(&mut out, &self.center);
        push_u32(&mut out, self.min_height);
        push_u32(&mut out, self.max_height);
        push_point(&mut out, &self.bounding_sphere_center);
        push_u64(&mut out, self.bounding_sphere_radius);
        push_point(&mut out, &self.horizon_occlusion_point);
        assert(out@ =~= self.bytes());
        assert(out@.len() == 88);
        let mut bytes: [u8; 88] = [0; 88];
        let mut i: usize = 0;
        while i < HEADER_LEN
            invariant
                i <= 88,
                out@.len() == 88,
                forall|k: int| 0 <= k < i ==> bytes@[k] == out@[k],
            decreases 88 - i,
        {
            bytes[i] = out[i];
            i = i + 1;
        }
        assert(bytes@ =~= out@);
        assert(bytes@.subrange(0, 88) =~= bytes@);
        proof {
            law_header_offsets(*self, bytes@);
        }
        bytes
    }

    /// Deserializes the header at the start of `bytes`; `None` if they are too few.
    pub fn from_bytes(bytes: &[u8]) -> (header: Option<QuantizedMeshHeader>)
        ensures
            header == if bytes@.len() < 88 {
                None
            } else {
                Some(header_of(bytes@))
            },
            header matches Some(h) ==> {
                &&& h.center@ == seq![at64(bytes@, 0), at64(bytes@, 8), at64(bytes@, 16)]
                &&& h.min_height == at32(bytes@, 24)
                &&& h.max_height == at32(bytes@, 28)
                &&& h.bounding_sphere_center@ == seq![
                    at64(bytes@, 32),
                    at64(bytes@, 40),
                    at64(bytes@, 48),
                ]
                &&& h.bounding_sphere_radius == at64(bytes@, 56)
                &&& h.horizon_occlusion_point@ == seq![
                    at64(bytes@, 64),
                    at64(bytes@, 72),
                    at64(bytes@, 80),
                ]
            },
    {
        if bytes.len() < HEADER_LEN {
            return None;
        }
        Some(
            QuantizedMeshHeader {
                center: [read_u64(bytes, 0), read_u64(bytes, 8), read_u64(bytes, 16)],
                min_height: read_u32(bytes, 24),
                max_height: read_u32(bytes, 28),
                bounding_sphere_center: [
                    read_u64(bytes, 32),
                    read_u64(bytes, 40),
                    read_u64(bytes, 48),
                ],
                bounding_sphere_radius: read_u64(bytes, 56),
                horizon_occlusion_point: [
                    read_u64(bytes, 64),
                    read_u64(bytes, 72),
                    read_u64(bytes, 80),
                ],
            },
        )
    }
}

/// Every field of the header stands at its place in the file: the center of the tile at 0, the
/// heights at 24 and 28, the bounding sphere at 32 with its radius at 56, and the horizon
/// occlusion point at 64.
pub proof fn law_header_offsets(header: QuantizedMeshHeader, s: Seq<u8>)
    requires
        s.len() >= 88,
    ensures
        header.bytes().len() == 88,
        s.subrange(0, 88) == header.bytes() ==> {
            &&& header.center@ == seq![at64(s, 0), at64(s, 8), at64(s, 16)]
            &&& header.min_height == at32(s, 24)
            &&& header.max_height == at32(s, 28)
            &&& header.bounding_sphere_center@ == seq![at64(s, 32), at64(s, 40), at64(s, 48)]
            &&& header.bounding_sphere_radius == at64(s, 56)
            &&& header.horizon_occlusion_point@ == seq![at64(s, 64), at64(s, 72), at64(s, 80)]
        },
        header_of(s).center@ == seq![at64(s, 0), at64(s, 8), at64(s, 16)],
        header_of(s).min_height == at32(s, 24),
        header_of(s).max_height == at32(s, 28),
        header_of(s).bounding_sphere_center@ == seq![at64(s, 32), at64(s, 40), at64(s, 48)],
        header_of(s).bounding_sphere_radius == at64(s, 56),
        header_of(s).horizon_occlusion_point@ == seq![at64(s, 64), at64(s, 72), at64(s, 80)],
{
    lemma_header_len(header);
    if s.subrange(0, 88) == header.bytes() {
        law_header_read_of_write(header, s);
    }
}

/// A header takes 88 bytes.
pub proof fn lemma_header_len(header: QuantizedMeshHeader)
    ensures
        header.bytes().len() == 88,
{
}

/// Reading a header gives back the one that was written, whatever follows it.
pub proof fn law_header_read_of_write(header: QuantizedMeshHeader, s: Seq<u8>)
    requires
        s.len() >= 88,
        s.subrange(0, 88) == header.bytes(),
    ensures
        header_of(s) == header,
{
    let b = header.bytes();
    lemma_header_field64(s, b, 0, header.center@[0]);
    lemma_header_field64(s, b, 8, header.center@[1]);
    lemma_header_field64(s, b, 16, header.center@[2]);
    lemma_header_field32(s, b, 24, header.min_height);
    lemma_header_field32(s, b, 28, header.max_height);
    lemma_header_field64(s, b, 32, header.bounding_sphere_center@[0]);
    lemma_header_field64(s, b, 40, header.bounding_sphere_center@[1]);
    lemma_header_field64(s, b, 48, header.bounding_sphere_center@[2]);
    lemma_header_field64(s, b, 56, header.bounding_sphere_radius);
    lemma_header_field64(s, b, 64, header.horizon_occlusion_point@[0]);
    lemma_header_field64(s, b, 72, header.horizon_occlusion_point@[1]);
    lemma_header_field64(s, b, 80, header.horizon_occlusion_point@[2]);
    let read = header_of(s);
    assert(read.center =~= header.center);
    assert(read.bounding_sphere_center =~= header.bounding_sphere_center);
    assert(read.horizon_occlusion_point =~= header.horizon_occlusion_point);
}

proof fn lemma_header_field64(s: Seq<u8>, b: Seq<u8>, at: int, x: u64)
    requires
        0 <= at,
        at + 8 <= 88 <= s.len(),
        b.len() == 88,
        s.subrange(0, 88) == b,
        b.subrange(at, at + 8) =~= le64(x),
    ensures
        at64(s, at) == x,
{
    assert(s.subrange(at, at + 8) =~= b.subrange(at, at + 8));
    lemma_at64_of_le64(s, at, x);
}

proof fn lemma_header_field32(s: Seq<u8>, b: Seq<u8>, at: int, x: u32)
    requires
        0 <= at,
        at + 4 <= 88 <= s.len(),
        b.len() == 88,
        s.subrange(0, 88) == b,
        b.subrange(at, at + 4) =~= le32(x),
    ensures
        at32(s, at) == x,
{
    assert(s.subrange(at, at + 4) =~= b.subrange(at, at + 4));
    lemma_at32_of_le32(s, at, x);
}

/// Writing a header gives back the bytes that it was read from.
pub proof fn law_header_write_of_read(s: Seq<u8>)
    requires
        s.len() >= 88,
    ensures
        header_of(s).bytes() == s.subrange(0, 88),
{
    lemma_le64_of_at64(s, 0);
    lemma_le64_of_at64(s, 8);
    lemma_le64_of_at64(s, 16);
    lemma_le32_of_at32(s, 24);
    lemma_le32_of_at32(s, 28);
    lemma_le64_of_at64(s, 32);
    lemma_le64_of_at64(s, 40);
    lemma_le64_of_at64(s, 48);
    lemma_le64_of_at64(s, 56);
    lemma_le64_of_at64(s, 64);
    lemma_le64_of_at64(s, 72);
    lemma_le64_of_at64(s, 80);
    let h = header_of(s);
    assert(point_bytes(h.center@) =~= s.subrange(0, 24));
    assert(point_bytes(h.bounding_sphere_center@) =~= s.subrange(32, 56));
    assert(point_bytes(h.horizon_occlusion_point@) =~= s.subrange(64, 88));
    assert(h.bytes() =~= s.subrange(0, 88));
}

} // verus!
