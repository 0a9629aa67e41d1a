//! Zero-copy decoder for the quantized-mesh format.
//!
//! [`QuantizedMeshView`] borrows the sections of a mesh from the input bytes, and its iterators
//! decode them one value at a time. [`DecodedMesh::decode`] unpacks gzip and decodes all.
use crate::bytes::{
    at32, codes16, codes32, lemma_at32_of_subrange, lemma_codes16_rest, lemma_codes32_rest,
    read_u16, read_u32,
};
use crate::encoding::{aligned, flat, index_width, needs_wide_indices, triangles_at};
use crate::gzip::{gunzip, gunzip_result, has_gzip_magic};
use crate::header::{header_of, QuantizedMeshHeader};
use crate::streams::{
    delta_value, delta_values, high_water_values, lemma_delta_values_rest,
    lemma_high_water_values_rest, zigzag_decode,
};
use crate::types::{EdgeIndices, QuantizedVertices, WaterMask, WaterMaskModel};
use vstd::prelude::*;
use vstd::slice::slice_subrange;
use vstd::utf8::{decode_utf8, valid_utf8};

verus! {

/// Why a mesh cannot be decoded.
#[derive(Debug)]
pub enum DecodeError {
    /// The input is too short.
    UnexpectedEof,
    /// The input is corrupted.
    InvalidData(String),
    /// The input cannot be decompressed.
    DecompressionError(String),
    /// The metadata are no text.
    JsonError(String),
}

/// What an error says, with its text as a sequence.
pub enum DecodeErrorModel {
    UnexpectedEof,
    InvalidData(Seq<char>),
    DecompressionError(Seq<char>),
    JsonError(Seq<char>),
}

impl View for DecodeError {
    type V = DecodeErrorModel;

    open spec fn view(&self) -> DecodeErrorModel {
        match self {
            DecodeError::UnexpectedEof => DecodeErrorModel::UnexpectedEof,
            DecodeError::InvalidData(text) => DecodeErrorModel::InvalidData(text@),
            DecodeError::DecompressionError(text) => DecodeErrorModel::DecompressionError(text@),
            DecodeError::JsonError(text) => DecodeErrorModel::JsonError(text@),
        }
    }
}

impl DecodeError {
    /// The message of the error.
    pub open spec fn spec_message(&self) -> Seq<char> {
        match self {
            DecodeError::UnexpectedEof => "Unexpected end of data"@,
            DecodeError::InvalidData(text) => "Invalid data: "@ + text@,
            DecodeError::DecompressionError(text) => "Decompression error: "@ + text@,
            DecodeError::JsonError(text) => "JSON error: "@ + text@,
        }
    }

    /// The message of the error.
    pub fn message(&self) -> (message: String)
        ensures
            message@ == self.spec_message(),
    {
        match self {
            DecodeError::UnexpectedEof => "Unexpected end of data".to_string(),
            DecodeError::InvalidData(text) => Self::prefixed("Invalid data: ", text),
            DecodeError::DecompressionError(text) => Self::prefixed("Decompression error: ", text),
            DecodeError::JsonError(text) => Self::prefixed("JSON error: ", text),
        }
    }

    fn prefixed(prefix: &str, text: &String) -> (message: String)
        ensures
            message@ == prefix@ + text@,
    {
        let mut message: String = prefix.to_string();
        message.append(text.as_str());
        message
    }
}

/// The outcome of decoding.
pub type DecodeResult<T> = Result<T, DecodeError>;

/// Indices as they stand in a file, 16 or 32 bits each.
#[derive(Debug, Clone, Copy)]
pub enum IndicesView<'a> {
    /// Two bytes an index, for at most 65535 vertices.
    U16(&'a [u8]),
    /// Four bytes an index.
    U32(&'a [u8]),
}

/// 16-bit integers as 32-bit ones.
pub open spec fn widened(codes: Seq<u16>) -> Seq<u32> {
    codes.map_values(|x: u16| x as u32)
}

/// The integers of an index stream.
pub open spec fn stream_codes(bytes: Seq<u8>, wide: bool) -> Seq<u32> {
    if wide {
        codes32(bytes)
    } else {
        widened(codes16(bytes))
    }
}

impl<'a> IndicesView<'a> {
    /// The bytes of the indices.
    pub open spec fn bytes(&self) -> Seq<u8> {
        match self {
            IndicesView::U16(b) => b@,
            IndicesView::U32(b) => b@,
        }
    }

    /// Whether an index takes four bytes.
    pub open spec fn wide(&self) -> bool {
        self is U32
    }

    /// The integers that stand in the file.
    pub open spec fn codes(&self) -> Seq<u32> {
        stream_codes(self.bytes(), self.wide())
    }

    fn new(bytes: &'a [u8], wide: bool) -> (view: IndicesView<'a>)
        ensures
            view.bytes() == bytes@,
            view.wide() == wide,
    {
        if wide {
            IndicesView::U32(bytes)
        } else {
            IndicesView::U16(bytes)
        }
    }

    /// Number of indices.
    pub fn len(&self) -> (n: usize)
        ensures
            n == self.codes().len(),
    {
        match self {
            IndicesView::U16(b) => b.len() / 2,
            IndicesView::U32(b) => b.len() / 4,
        }
    }

    /// Whether there are no indices.
    pub fn is_empty(&self) -> (empty: bool)
        ensures
            empty == (self.codes().len() == 0),
    {
        self.len() == 0
    }

    /// Goes through the integers that stand in the file.
    pub fn iter_raw(&self) -> (iter: RawIndexIter<'a>)
        ensures
            iter.rest() == self.codes(),
    {
        match self {
            IndicesView::U16(b) => RawIndexIter::U16(*b),
            IndicesView::U32(b) => RawIndexIter::U32(*b),
        }
    }

    /// Goes through the decoded triangle indices.
    pub fn iter(&self) -> (iter: HighWaterMarkIter<RawIndexIter<'a>>)
        ensures
            iter.rest() == high_water_values(0, self.codes()),
    {
        HighWaterMarkIter::new(self.iter_raw())
    }

    /// Decodes all triangle indices.
    pub fn to_vec(&self) -> (out: Vec<u32>)
        ensures
            out@ == high_water_values(0, self.codes()),
    {
        self.iter().collect()
    }
}

/// Goes through little-endian integers, 16 or 32 bits each.
pub enum RawIndexIter<'a> {
    /// Two bytes an integer.
    U16(&'a [u8]),
    /// Four bytes an integer.
    U32(&'a [u8]),
}

impl<'a> RawIndexIter<'a> {
    /// The integers still to come.
    pub open spec fn rest(&self) -> Seq<u32> {
        match self {
            RawIndexIter::U16(b) => stream_codes(b@, false),
            RawIndexIter::U32(b) => stream_codes(b@, true),
        }
    }

    /// The next integer.
    pub fn next(&mut self) -> (code: Option<u32>)
        ensures
            match code {
                Some(c) => old(self).rest().len() > 0 && c == old(self).rest()[0]
                    && final(self).rest() == old(self).rest().skip(1),
                None => old(self).rest().len() == 0 && *final(self) == *old(self),
            },
    {
        match self {
            RawIndexIter::U16(b) => {
                let bytes: &'a [u8] = *b;
                if bytes.len() < 2 {
                    return None;
                }
                let code: u32 = read_u16(bytes, 0) as u32;
                proof {
                    lemma_codes16_rest(bytes@);
                    assert(bytes@.subrange(2, bytes@.len() as int) =~= bytes@.skip(2));
                    assert(widened(codes16(bytes@)).skip(1) =~= widened(codes16(bytes@).skip(1)));
                }
                *self = RawIndexIter::U16(slice_subrange(bytes, 2, bytes.len()));
                Some(code)
            },
            RawIndexIter::U32(b) => {
                let bytes: &'a [u8] = *b;
                if bytes.len() < 4 {
                    return None;
                }
                let code: u32 = read_u32(bytes, 0);
                proof {
                    lemma_codes32_rest(bytes@);
                    assert(bytes@.subrange(4, bytes@.len() as int) =~= bytes@.skip(4));
                }
                *self = RawIndexIter::U32(slice_subrange(bytes, 4, bytes.len()));
                Some(code)
            },
        }
    }

    /// Number of integers still to come, as a lower and an upper bound.
    pub fn size_hint(&self) -> (hint: (usize, Option<usize>))
        ensures
            hint.0 == self.rest().len(),
            hint.1 == Some(hint.0),
    {
        let n: usize = match self {
            RawIndexIter::U16(b) => b.len() / 2,
            RawIndexIter::U32(b) => b.len() / 4,
        };
        (n, Some(n))
    }

    /// All integers still to come.
    pub fn collect(self) -> (out: Vec<u32>)
        ensures
            out@ == self.rest(),
    {
        let mut iter = self;
        let mut out: Vec<u32> = Vec::with_capacity(iter.size_hint().0);
        assert(out@ + iter.rest() =~= self.rest());
        loop
            invariant
                out@ + iter.rest() == self.rest(),
            ensures
                out@ == self.rest(),
            decreases iter.rest().len(),
        {
            let ghost before = out@;
            let ghost rest = iter.rest();
            match iter.next() {
                Some(code) => {
                    out.push(code);
                    assert(out@ + iter.rest() =~= before + rest);
                },
                None => {
                    assert(out@ =~= out@ + rest);
                    break;
                },
            }
        }
        out
    }
}

/// Goes through a stream of zigzag-encoded steps and yields the values that they reach.
pub struct ZigzagDeltaIter<'a> {
    /// The steps still to come, two bytes each.
    pub bytes: &'a [u8],
    /// The sum of the steps so far.
    pub state: i32,
}

/// The low half of a sum of steps is the sum modulo `2^16`.
proof fn lemma_low_half(x: i32)
    ensures
        (x as u16) as int == (x as int) % 0x1_0000,
{
    let y = x as u32;
    assert(y == if x >= 0 {
        x as int
    } else {
        x + 0x1_0000_0000
    }) by (bit_vector)
        requires
            y == x as u32,
    ;
    assert(x as u16 == (y % 0x1_0000) as u16 && y % 0x1_0000 < 0x1_0000) by (bit_vector)
        requires
            y == x as u32,
    ;
}

impl<'a> ZigzagDeltaIter<'a> {
    /// The values still to come.
    pub open spec fn rest(&self) -> Seq<u16> {
        delta_values(self.state as u16, codes16(self.bytes@))
    }

    /// Starts at the first of `bytes`, two bytes a step; an odd byte at the end is ignored.
    pub fn new(bytes: &'a [u8]) -> (iter: ZigzagDeltaIter<'a>)
        ensures
            iter.rest() == delta_values(0, codes16(bytes@)),
    {
        ZigzagDeltaIter { bytes, state: 0 }
    }

    /// The next value.
    pub fn next(&mut self) -> (value: Option<u16>)
        ensures
            match value {
                Some(v) => old(self).rest().len() > 0 && v == old(self).rest()[0]
                    && final(self).rest() == old(self).rest().skip(1),
                None => old(self).rest().len() == 0 && *final(self) == *old(self),
            },
    {
        let bytes: &'a [u8] = self.bytes;
        if bytes.len() < 2 {
            return None;
        }
        let code: u32 = read_u16(bytes, 0) as u32;
        let delta: i32 = zigzag_decode(code);
        let ghost start = self.state;
        let ghost codes = codes16(bytes@);
        self.state = self.state.wrapping_add(delta);
        proof {
            lemma_low_half(start);
            lemma_low_half(self.state);
            assert(self.state as u16 == delta_value(start as u16, codes, 0));
            lemma_delta_values_rest(start as u16, codes);
            lemma_codes16_rest(bytes@);
            assert(bytes@.subrange(2, bytes@.len() as int) =~= bytes@.skip(2));
        }
        self.bytes = slice_subrange(bytes, 2, bytes.len());
        Some(self.state as u16)
    }

    /// Number of values still to come, as a lower and an upper bound.
    pub fn size_hint(&self) -> (hint: (usize, Option<usize>))
        ensures
            hint.0 == self.rest().len(),
            hint.1 == Some(hint.0),
    {
        let n: usize = self.bytes.len() / 2;
        (n, Some(n))
    }

    /// All values still to come.
    pub fn collect(self) -> (out: Vec<u16>)
        ensures
            out@ == self.rest(),
    {
        let mut iter = self;
        let mut out: Vec<u16> = Vec::with_capacity(iter.size_hint().0);
        assert(out@ + iter.rest() =~= self.rest());
        loop
            invariant
                out@ + iter.rest() == self.rest(),
            ensures
                out@ == self.rest(),
            decreases iter.rest().len(),
        {
            let ghost before = out@;
            let ghost rest = iter.rest();
            match iter.next() {
                Some(value) => {
                    out.push(value);
                    assert(out@ + iter.rest() =~= before + rest);
                },
                None => {
                    assert(out@ =~= out@ + rest);
                    break;
                },
            }
        }
        out
    }
}

/// Goes through a stream of distances below the lowest unused index and yields the indices.
pub struct HighWaterMarkIter<I> {
    /// The distances still to come.
    pub inner: I,
    /// The lowest unused index.
    pub highest: u32,
}

impl<I> HighWaterMarkIter<I> {
    /// Starts at the first of the distances, with no index used.
    pub fn new(inner: I) -> (iter: HighWaterMarkIter<I>)
        ensures
            iter.inner == inner,
            iter.highest == 0,
    {
        HighWaterMarkIter { inner, highest: 0 }
    }
}

impl<'a> HighWaterMarkIter<RawIndexIter<'a>> {
    /// The indices still to come.
    pub open spec fn rest(&self) -> Seq<u32> {
        high_water_values(self.highest, self.inner.rest())
    }

    /// The next index.
    pub fn next(&mut self) -> (index: Option<u32>)
        ensures
            match index {
                Some(i) => old(self).rest().len() > 0 && i == old(self).rest()[0]
                    && final(self).rest() == old(self).rest().skip(1),
                None => old(self).rest().len() == 0 && *final(self) == *old(self),
            },
    {
        let ghost codes = self.inner.rest();
        let ghost start = self.highest;
        match self.inner.next() {
            Some(code) => {
                let index: u32 = self.highest.wrapping_sub(code);
                if code == 0 {
                    self.highest = self.highest.wrapping_add(1);
                }
                proof {
                    assert(crate::streams::zeros(codes, 0) == 0);
                    assert(index == high_water_values(start, codes)[0]);
                    lemma_high_water_values_rest(start, codes, self.highest);
                }
                Some(index)
            },
            None => None,
        }
    }

    /// Number of indices still to come, as a lower and an upper bound.
    pub fn size_hint(&self) -> (hint: (usize, Option<usize>))
        ensures
            hint.0 == self.rest().len(),
            hint.1 == Some(hint.0),
    {
        self.inner.size_hint()
    }

    /// All indices still to come.
    pub fn collect(self) -> (out: Vec<u32>)
        ensures
            out@ == self.rest(),
    {
        let mut iter = self;
        let mut out: Vec<u32> = Vec::with_capacity(iter.size_hint().0);
        assert(out@ + iter.rest() =~= self.rest());
        loop
            invariant
                out@ + iter.rest() == self.rest(),
            ensures
                out@ == self.rest(),
            decreases iter.rest().len(),
        {
            let ghost before = out@;
            let ghost rest = iter.rest();
            match iter.next() {
                Some(index) => {
                    out.push(index);
                    assert(out@ + iter.rest() =~= before + rest);
                },
                None => {
                    assert(out@ =~= out@ + rest);
                    break;
                },
            }
        }
        out
    }
}

/// The text of `std`'s error for bytes that are not UTF-8.
pub uninterp spec fn utf8_error_text(bytes: Seq<u8>) -> Seq<char>;

/// Calls `std::str::from_utf8`.
///
/// Trusted: it succeeds on UTF-8 alone, then with the text that the bytes encode; the text of
/// its error depends on the bytes alone.
#[verifier::external_body]
fn utf8_text(bytes: &[u8]) -> (text: Result<&str, String>)
    ensures
        match text {
            Ok(t) => valid_utf8(bytes@) && t@ == decode_utf8(bytes@),
            Err(e) => !valid_utf8(bytes@) && e@ == utf8_error_text(bytes@),
        },
{
    match std::str::from_utf8(bytes) {
        Ok(text) => Ok(text),
        Err(e) => Err(e.to_string()),
    }
}

/// Calls `std`'s conversion from a slice to a reference to an array.
///
/// Trusted: it succeeds exactly on slices of the array's length, and then the array has the
/// slice's bytes.
#[verifier::external_body]
fn water_mask_grid(bytes: &[u8]) -> (grid: Option<&[u8; 65536]>)
    ensures
        match grid {
            Some(g) => bytes@.len() == 65536 && g@ == bytes@,
            None => bytes@.len() != 65536,
        },
{
    bytes.try_into().ok()
}

/// A water mask borrowed from the input.
#[derive(Debug, Clone, Copy)]
pub enum WaterMaskView<'a> {
    /// The same for the whole tile.
    Uniform(u8),
    /// 256 by 256 cells.
    Grid(&'a [u8; 65536]),
}

impl<'a> View for WaterMaskView<'a> {
    type V = WaterMaskModel;

    open spec fn view(&self) -> WaterMaskModel {
        match self {
            WaterMaskView::Uniform(value) => WaterMaskModel::Uniform(*value),
            WaterMaskView::Grid(grid) => WaterMaskModel::Grid(grid@),
        }
    }
}

impl<'a> WaterMaskView<'a> {
    /// Copies the mask.
    pub fn to_owned(self) -> (mask: WaterMask)
        ensures
            mask@ == self@,
    {
        match self {
            WaterMaskView::Uniform(value) => WaterMask::Uniform(value),
            WaterMaskView::Grid(grid) => WaterMask::Grid(Box::new(*grid)),
        }
    }
}

/// What the extensions of a mesh hold.
#[verifier::ext_equal]
pub struct ExtensionsModel {
    /// Oct-encoded normals, two bytes each.
    pub normals: Option<Seq<u8>>,
    /// Water mask.
    pub water_mask: Option<WaterMaskModel>,
    /// JSON metadata.
    pub metadata: Option<Seq<char>>,
}

/// No extensions.
pub open spec fn no_extensions() -> ExtensionsModel {
    ExtensionsModel { normals: None, water_mask: None, metadata: None }
}

/// Extensions borrowed from the input.
#[derive(Debug, Clone, Copy)]
pub struct ExtensionsView<'a> {
    /// Oct-encoded normals, two bytes a vertex.
    pub normals_oct: Option<&'a [u8]>,
    /// Water mask.
    pub water_mask: Option<WaterMaskView<'a>>,
    /// JSON metadata.
    pub metadata_json: Option<&'a str>,
}

impl<'a> View for ExtensionsView<'a> {
    type V = ExtensionsModel;

    open spec fn view(&self) -> ExtensionsModel {
        ExtensionsModel {
            normals: match self.normals_oct {
                Some(bytes) => Some(bytes@),
                None => None,
            },
            water_mask: match self.water_mask {
                Some(mask) => Some(mask@),
                None => None,
            },
            metadata: match self.metadata_json {
                Some(text) => Some(text@),
                None => None,
            },
        }
    }
}

impl<'a> Default for ExtensionsView<'a> {
    /// No extensions.
    fn default() -> (extensions: ExtensionsView<'a>)
        ensures
            extensions@ == no_extensions(),
    {
        ExtensionsView { normals_oct: None, water_mask: None, metadata_json: None }
    }
}

/// Oct-encoded normals of a run of bytes, two bytes each; an odd byte at the end is left out.
pub fn oct_pairs(bytes: &[u8]) -> (pairs: Vec<[u8; 2]>)
    ensures
        flat(pairs@) == bytes@.take(2 * (bytes@.len() / 2) as int),
{
    let n: usize = bytes.len() / 2;
    let mut pairs: Vec<[u8; 2]> = Vec::with_capacity(n);
    let mut i: usize = 0;
    while i < n
        invariant
            i <= n,
            2 * n <= bytes.len(),
            pairs@.len() == i,
            forall|j: int| 0 <= j < 2 * i ==> (#[trigger] flat(pairs@)[j]) == bytes@[j],
        decreases n - i,
    {
        let ghost before = pairs@;
        let pair: [u8; 2] = [bytes[2 * i], bytes[2 * i + 1]];
        pairs.push(pair);
        i = i + 1;
        proof {
            assert forall|j: int| 0 <= j < 2 * i implies (#[trigger] flat(pairs@)[j])
                == bytes@[j] by {
                if j < 2 * (i - 1) {
                    assert(flat(before)[j] == bytes@[j]);
                    assert(pairs@[j / 2] == before[j / 2]);
                } else {
                    assert(j / 2 == i - 1);
                    assert(j % 2 == j - 2 * (i - 1));
                }
            }
        }
    }
    assert(flat(pairs@) =~= bytes@.take(2 * (bytes@.len() / 2) as int));
    pairs
}

/// What is left of the extensions when normals are taken in pairs of bytes.
pub open spec fn with_paired_normals(extensions: ExtensionsModel) -> ExtensionsModel {
    ExtensionsModel {
        normals: match extensions.normals {
            Some(bytes) => Some(bytes.take(2 * (bytes.len() / 2) as int)),
            None => None,
        },
        ..extensions
    }
}

impl<'a> ExtensionsView<'a> {
    /// Copies the extensions.
    pub fn to_owned(&self) -> (extensions: DecodedExtensions)
        ensures
            extensions@ == with_paired_normals(self@),
    {
        DecodedExtensions {
            normals: match self.normals_oct {
                Some(bytes) => Some(oct_pairs(bytes)),
                None => None,
            },
            water_mask: match self.water_mask {
                Some(mask) => Some(mask.to_owned()),
                None => None,
            },
            metadata: match self.metadata_json {
                Some(text) => Some(text.to_string()),
                None => None,
            },
        }
    }
}

/// Extensions of a mesh.
#[derive(Debug, Clone)]
pub struct DecodedExtensions {
    /// Oct-encoded normals, one a vertex.
    pub normals: Option<Vec<[u8; 2]>>,
    /// Water mask.
    pub water_mask: Option<WaterMask>,
    /// JSON metadata.
    pub metadata: Option<String>,
}

impl View for DecodedExtensions {
    type V = ExtensionsModel;

    open spec fn view(&self) -> ExtensionsModel {
        ExtensionsModel {
            normals: match self.normals {
                Some(pairs) => Some(flat(pairs@)),
                None => None,
            },
            water_mask: match self.water_mask {
                Some(mask) => Some(mask@),
                None => None,
            },
            metadata: match self.metadata {
                Some(text) => Some(text@),
                None => None,
            },
        }
    }
}

/// The sections of a mesh as they stand in a file.
#[verifier::ext_equal]
pub struct Sections {
    pub header: QuantizedMeshHeader,
    pub vertex_count: u32,
    pub wide: bool,
    pub triangle_count: u32,
    pub u: Seq<u8>,
    pub v: Seq<u8>,
    pub height: Seq<u8>,
    pub indices: Seq<u8>,
    pub west: Seq<u8>,
    pub south: Seq<u8>,
    pub east: Seq<u8>,
    pub north: Seq<u8>,
    pub extensions: ExtensionsModel,
}

/// A mesh borrowed from the input.
#[derive(Debug, Clone, Copy)]
pub struct QuantizedMeshView<'a> {
    /// Header.
    pub header: QuantizedMeshHeader,
    /// Number of vertices.
    pub vertex_count: u32,
    /// Whether an index takes four bytes: for more than 65535 vertices.
    pub use_32bit_indices: bool,
    /// Number of triangles.
    pub triangle_count: u32,
    /// Steps of the horizontal positions, two bytes a vertex.
    pub encoded_u_bytes: &'a [u8],
    /// Steps of the vertical positions.
    pub encoded_v_bytes: &'a [u8],
    /// Steps of the heights.
    pub encoded_height_bytes: &'a [u8],
    /// Triangle indices, as distances below the lowest unused one.
    pub indices: IndicesView<'a>,
    /// Indices of the west edge.
    pub edge_west: IndicesView<'a>,
    /// Indices of the south edge.
    pub edge_south: IndicesView<'a>,
    /// Indices of the east edge.
    pub edge_east: IndicesView<'a>,
    /// Indices of the north edge.
    pub edge_north: IndicesView<'a>,
    /// Extensions.
    pub extensions: ExtensionsView<'a>,
}

impl<'a> View for QuantizedMeshView<'a> {
    type V = Sections;

    open spec fn view(&self) -> Sections {
        Sections {
            header: self.header,
            vertex_count: self.vertex_count,
            wide: self.use_32bit_indices,
            triangle_count: self.triangle_count,
            u: self.encoded_u_bytes@,
            v: self.encoded_v_bytes@,
            height: self.encoded_height_bytes@,
            indices: self.indices.bytes(),
            west: self.edge_west.bytes(),
            south: self.edge_south.bytes(),
            east: self.edge_east.bytes(),
            north: self.edge_north.bytes(),
            extensions: self.extensions@,
        }
    }
}

/// Where the section that starts with a count at `at` ends: `per_item` integers of `width`
/// bytes for each counted item.
pub open spec fn counted_end(s: Seq<u8>, at: int, per_item: int, width: int) -> int {
    at + 4 + at32(s, at) * per_item * width
}

/// The integers of the section that starts with a count at `at`.
pub open spec fn counted_bytes(s: Seq<u8>, at: int, per_item: int, width: int) -> Seq<u8> {
    s.subrange(at + 4, counted_end(s, at, per_item, width))
}

/// The count at `at` and its integers lie within `s`.
pub open spec fn counted_fits(s: Seq<u8>, at: int, per_item: int, width: int) -> bool {
    at + 4 <= s.len() && counted_end(s, at, per_item, width) <= s.len()
}

/// Where the sections of a mesh start: triangles, the four edges, and the extensions.
pub struct Layout {
    pub vertex_count: int,
    pub width: int,
    pub triangles: int,
    pub west: int,
    pub south: int,
    pub east: int,
    pub north: int,
    pub extensions: int,
}

/// Where the sections of the mesh `s` start.
pub open spec fn layout(s: Seq<u8>) -> Layout {
    let vertex_count = at32(s, 88) as int;
    let width = index_width(needs_wide_indices(vertex_count));
    let triangles = triangles_at(vertex_count);
    let west = counted_end(s, triangles, 3, width);
    let south = counted_end(s, west, 1, width);
    let east = counted_end(s, south, 1, width);
    let north = counted_end(s, east, 1, width);
    let extensions = counted_end(s, north, 1, width);
    Layout { vertex_count, width, triangles, west, south, east, north, extensions }
}

/// The header, the vertices, the triangles and the edges lie within `s`.
pub open spec fn sections_fit(s: Seq<u8>) -> bool {
    let l = layout(s);
    &&& 92 <= s.len()
    &&& 92 + 6 * l.vertex_count <= s.len()
    &&& counted_fits(s, l.triangles, 3, l.width)
    &&& counted_fits(s, l.west, 1, l.width)
    &&& counted_fits(s, l.south, 1, l.width)
    &&& counted_fits(s, l.east, 1, l.width)
    &&& counted_fits(s, l.north, 1, l.width)
}

/// What the extensions hold once an extension with name `id` is read.
pub open spec fn with_extension(
    found: ExtensionsModel,
    id: u8,
    payload: Seq<u8>,
    vertex_count: int,
) -> Result<ExtensionsModel, DecodeErrorModel> {
    if id == 1 {
        let want = if 2 * vertex_count <= payload.len() {
            2 * vertex_count
        } else {
            payload.len() as int
        };
        Ok(ExtensionsModel { normals: Some(payload.take(want)), ..found })
    } else if id == 2 {
        let mask = if payload.len() == 1 {
            WaterMaskModel::Uniform(payload[0])
        } else if payload.len() == 65536 {
            WaterMaskModel::Grid(payload)
        } else {
            WaterMaskModel::Uniform(0)
        };
        Ok(ExtensionsModel { water_mask: Some(mask), ..found })
    } else if id == 4 {
        if payload.len() < 4 || payload.len() < 4 + at32(payload, 0) {
            Err(DecodeErrorModel::UnexpectedEof)
        } else {
            let json = payload.subrange(4, 4 + at32(payload, 0));
            if valid_utf8(json) {
                Ok(ExtensionsModel { metadata: Some(decode_utf8(json)), ..found })
            } else {
                Err(DecodeErrorModel::JsonError(utf8_error_text(json)))
            }
        }
    } else {
        Ok(found)
    }
}

/// What the extensions from `at` on hold, beyond those found before. Reading stops without an
/// error where an extension is cut off.
pub open spec fn extensions_from(
    s: Seq<u8>,
    at: int,
    vertex_count: int,
    found: ExtensionsModel,
) -> Result<ExtensionsModel, DecodeErrorModel>
    decreases s.len() - at,
{
    if s.len() - at < 5 || s.len() - (at + 5) < at32(s, at + 1) {
        Ok(found)
    } else {
        let end = at + 5 + at32(s, at + 1);
        match with_extension(found, s[at], s.subrange(at + 5, end), vertex_count) {
            Ok(next) => extensions_from(s, end, vertex_count, next),
            Err(e) => Err(e),
        }
    }
}

/// The sections of the mesh `s`, or why it is none.
pub open spec fn sections_of(s: Seq<u8>) -> Result<Sections, DecodeErrorModel> {
    let l = layout(s);
    if !sections_fit(s) {
        Err(DecodeErrorModel::UnexpectedEof)
    } else {
        match extensions_from(s, l.extensions, l.vertex_count, no_extensions()) {
            Err(e) => Err(e),
            Ok(extensions) => Ok(
                Sections {
                    header: header_of(s),
                    vertex_count: at32(s, 88),
                    wide: needs_wide_indices(l.vertex_count),
                    triangle_count: at32(s, l.triangles),
                    u: s.subrange(92, 92 + 2 * l.vertex_count),
                    v: s.subrange(92 + 2 * l.vertex_count, 92 + 4 * l.vertex_count),
                    height: s.subrange(92 + 4 * l.vertex_count, 92 + 6 * l.vertex_count),
                    indices: counted_bytes(s, l.triangles, 3, l.width),
                    west: counted_bytes(s, l.west, 1, l.width),
                    south: counted_bytes(s, l.south, 1, l.width),
                    east: counted_bytes(s, l.east, 1, l.width),
                    north: counted_bytes(s, l.north, 1, l.width),
                    extensions,
                },
            ),
        }
    }
}

/// A position in the input.
struct Cursor<'a> {
    data: &'a [u8],
    offset: usize,
}

impl<'a> Cursor<'a> {
    spec fn wf(&self) -> bool {
        self.offset <= self.data@.len()
    }

    fn new(data: &'a [u8]) -> (cur: Cursor<'a>)
        ensures
            cur.wf(),
            cur.data == data,
            cur.offset == 0,
    {
        Cursor { data, offset: 0 }
    }

    fn remaining(&self) -> (n: usize)
        requires
            self.wf(),
        ensures
            n == self.data@.len() - self.offset,
    {
        self.data.len() - self.offset
    }

    fn take(&mut self, n: u64) -> (taken: DecodeResult<&'a [u8]>)
        requires
            old(self).wf(),
        ensures
            final(self).wf(),
            final(self).data == old(self).data,
            match taken {
                Ok(bytes) => {
                    &&& old(self).offset + n <= old(self).data@.len()
                    &&& bytes@ == old(self).data@.subrange(
                        old(self).offset as int,
                        old(self).offset + n,
                    )
                    &&& final(self).offset == old(self).offset + n
                },
                Err(e) => {
                    &&& e@ == DecodeErrorModel::UnexpectedEof
                    &&& old(self).offset + n > old(self).data@.len()
                },
            },
    {
        let len: usize = self.data.len();
        let from: usize = self.offset;
        if ((len - from) as u64) < n {
            return Err(DecodeError::UnexpectedEof);
        }
        let to: usize = from + n as usize;
        self.offset = to;
        Ok(slice_subrange(self.data, from, to))
    }

    fn read_u8(&mut self) -> (value: DecodeResult<u8>)
        requires
            old(self).wf(),
        ensures
            final(self).wf(),
            final(self).data == old(self).data,
            match value {
                Ok(v) => {
                    &&& old(self).offset + 1 <= old(self).data@.len()
                    &&& v == old(self).data@[old(self).offset as int]
                    &&& final(self).offset == old(self).offset + 1
                },
                Err(e) => {
                    &&& e@ == DecodeErrorModel::UnexpectedEof
                    &&& old(self).offset + 1 > old(self).data@.len()
                },
            },
    {
        match self.take(1) {
            Ok(bytes) => Ok(bytes[0]),
            Err(e) => Err(e),
        }
    }

    fn read_u32(&mut self) -> (value: DecodeResult<u32>)
        requires
            old(self).wf(),
        ensures
            final(self).wf(),
            final(self).data == old(self).data,
            match value {
                Ok(v) => {
                    &&& old(self).offset + 4 <= old(self).data@.len()
                    &&& v == at32(old(self).data@, old(self).offset as int)
                    &&& final(self).offset == old(self).offset + 4
                },
                Err(e) => {
                    &&& e@ == DecodeErrorModel::UnexpectedEof
                    &&& old(self).offset + 4 > old(self).data@.len()
                },
            },
    {
        let ghost at = self.offset as int;
        match self.take(4) {
            Ok(bytes) => {
                proof {
                    lemma_at32_of_subrange(self.data@, at, at + 4, 0);
                }
                Ok(read_u32(bytes, 0))
            },
            Err(e) => Err(e),
        }
    }

    /// Skips to the next multiple of `alignment`.
    fn align_to(&mut self, alignment: usize) -> (moved: DecodeResult<()>)
        requires
            old(self).wf(),
            alignment == 2 || alignment == 4,
        ensures
            final(self).wf(),
            final(self).data == old(self).data,
            match moved {
                Ok(_) => final(self).offset == aligned(
                    old(self).offset as int,
                    alignment as int,
                ),
                Err(e) => {
                    &&& e@ == DecodeErrorModel::UnexpectedEof
                    &&& aligned(old(self).offset as int, alignment as int) > old(
                        self,
                    ).data@.len()
                },
            },
    {
        let padding: usize = (alignment - self.offset % alignment) % alignment;
        match self.take(padding as u64) {
            Ok(_) => Ok(()),
            Err(e) => Err(e),
        }
    }
}

/// Reads a count and `per_item` integers for each counted item.
fn read_counted<'a>(cur: &mut Cursor<'a>, per_item: u64, wide: bool) -> (section: DecodeResult<
    (u32, IndicesView<'a>),
>)
    requires
        old(cur).wf(),
        per_item == 1 || per_item == 3,
    ensures
        final(cur).wf(),
        final(cur).data == old(cur).data,
        ({
            let s = old(cur).data@;
            let at = old(cur).offset as int;
            let width = index_width(wide);
            match section {
                Ok(found) => {
                    &&& counted_fits(s, at, per_item as int, width)
                    &&& found.0 == at32(s, at)
                    &&& found.1.bytes() == counted_bytes(s, at, per_item as int, width)
                    &&& found.1.wide() == wide
                    &&& final(cur).offset == counted_end(s, at, per_item as int, width)
                },
                Err(e) => {
                    &&& e@ == DecodeErrorModel::UnexpectedEof
                    &&& !counted_fits(s, at, per_item as int, width)
                },
            }
        }),
{
    let count: u32 = match cur.read_u32() {
        Ok(count) => count,
        Err(e) => return Err(e),
    };
    let width: u64 = if wide {
        4
    } else {
        2
    };
    assert(count * per_item <= 0xffff_ffff * 3) by (nonlinear_arith)
        requires
            count <= 0xffff_ffff,
            per_item <= 3,
    ;
    let bytes: &'a [u8] = match cur.take(count as u64 * per_item * width) {
        Ok(bytes) => bytes,
        Err(e) => return Err(e),
    };
    Ok((count, IndicesView::new(bytes, wide)))
}

/// Reads the indices of an edge.
fn read_edge_indices<'a>(cur: &mut Cursor<'a>, wide: bool) -> (edge: DecodeResult<
    IndicesView<'a>,
>)
    requires
        old(cur).wf(),
    ensures
        final(cur).wf(),
        final(cur).data == old(cur).data,
        ({
            let s = old(cur).data@;
            let at = old(cur).offset as int;
            let width = index_width(wide);
            match edge {
                Ok(found) => {
                    &&& counted_fits(s, at, 1, width)
                    &&& found.bytes() == counted_bytes(s, at, 1, width)
                    &&& found.wide() == wide
                    &&& final(cur).offset == counted_end(s, at, 1, width)
                },
                Err(e) => {
                    &&& e@ == DecodeErrorModel::UnexpectedEof
                    &&& !counted_fits(s, at, 1, width)
                },
            }
        }),
{
    match read_counted(cur, 1, wide) {
        Ok(section) => Ok(section.1),
        Err(e) => Err(e),
    }
}

/// Reads the JSON text of a metadata extension.
fn read_metadata<'a>(payload: &'a [u8]) -> (text: DecodeResult<&'a str>)
    ensures
        match text {
            Ok(t) => forall|found: ExtensionsModel, vertex_count: int|
                #[trigger] with_extension(found, 4, payload@, vertex_count) == Ok::<
                    ExtensionsModel,
                    DecodeErrorModel,
                >(ExtensionsModel { metadata: Some(t@), ..found }),
            Err(e) => forall|found: ExtensionsModel, vertex_count: int|
                #[trigger] with_extension(found, 4, payload@, vertex_count) == Err::<
                    ExtensionsModel,
                    DecodeErrorModel,
                >(e@),
        },
{
    if payload.len() < 4 {
        return Err(DecodeError::UnexpectedEof);
    }
    let json_len: u32 = read_u32(payload, 0);
    if ((payload.len() - 4) as u64) < json_len as u64 {
        return Err(DecodeError::UnexpectedEof);
    }
    let json: &'a [u8] = slice_subrange(payload, 4, 4 + json_len as usize);
    match utf8_text(json) {
        Ok(text) => Ok(text),
        Err(e) => Err(DecodeError::JsonError(e)),
    }
}

/// Reads the water mask of a water mask extension.
fn read_water_mask<'a>(payload: &'a [u8]) -> (mask: WaterMaskView<'a>)
    ensures
        forall|found: ExtensionsModel, vertex_count: int|
            #[trigger] with_extension(found, 2, payload@, vertex_count) == Ok::<
                ExtensionsModel,
                DecodeErrorModel,
            >(ExtensionsModel { water_mask: Some(mask@), ..found }),
{
    if payload.len() == 1 {
        WaterMaskView::Uniform(payload[0])
    } else {
        match water_mask_grid(payload) {
            Some(grid) => WaterMaskView::Grid(grid),
            None => WaterMaskView::Uniform(0),
        }
    }
}

/// Reads all extensions up to the end of the input.
fn parse_extensions<'a>(cur: &mut Cursor<'a>, vertex_count: u32) -> (extensions: DecodeResult<
    ExtensionsView<'a>,
>)
    requires
        old(cur).wf(),
    ensures
        match extensions {
            Ok(found) => extensions_from(
                old(cur).data@,
                old(cur).offset as int,
                vertex_count as int,
                no_extensions(),
            ) == Ok::<ExtensionsModel, DecodeErrorModel>(found@),
            Err(e) => extensions_from(
                old(cur).data@,
                old(cur).offset as int,
                vertex_count as int,
                no_extensions(),
            ) == Err::<ExtensionsModel, DecodeErrorModel>(e@),
        },
{
    let mut ext = ExtensionsView { normals_oct: None, water_mask: None, metadata_json: None };
    let ghost s = cur.data@;
    let ghost all = extensions_from(
        s,
        cur.offset as int,
        vertex_count as int,
        no_extensions(),
    );
    while cur.remaining() >= 5
        invariant_except_break
            all == extensions_from(s, cur.offset as int, vertex_count as int, ext@),
        invariant
            cur.wf(),
            cur.data@ == s,
            all == extensions_from(
                old(cur).data@,
                old(cur).offset as int,
                vertex_count as int,
                no_extensions(),
            ),
        ensures
            all == Ok::<ExtensionsModel, DecodeErrorModel>(ext@),
        decreases s.len() - cur.offset,
    {
        let ghost at = cur.offset as int;
        let ghost found = ext@;
        let id: u8 = match cur.read_u8() {
            Ok(id) => id,
            Err(e) => return Err(e),
        };
        let length: u32 = match cur.read_u32() {
            Ok(length) => length,
            Err(e) => return Err(e),
        };
        if (cur.remaining() as u64) < length as u64 {
            break;
        }
        let payload: &'a [u8] = match cur.take(length as u64) {
            Ok(payload) => payload,
            Err(e) => return Err(e),
        };
        if id == 1 {
            let want: u64 = 2 * vertex_count as u64;
            if payload.len() as u64 >= want {
                ext.normals_oct = Some(slice_subrange(payload, 0, want as usize));
                assert(payload@.subrange(0, want as int) =~= payload@.take(want as int));
            } else {
                ext.normals_oct = Some(payload);
                assert(payload@ =~= payload@.take(payload@.len() as int));
            }
        } else if id == 2 {
            ext.water_mask = Some(read_water_mask(payload));
        } else if id == 4 {
            match read_metadata(payload) {
                Ok(text) => {
                    ext.metadata_json = Some(text);
                },
                Err(e) => return Err(e),
            }
        }
        assert(with_extension(found, id, payload@, vertex_count as int) == Ok::<
            ExtensionsModel,
            DecodeErrorModel,
        >(ext@));
    }
    Ok(ext)
}

impl<'a> QuantizedMeshView<'a> {
    /// Every index stream has the width that the number of vertices asks for.
    pub open spec fn wf(&self) -> bool {
        &&& self.use_32bit_indices == needs_wide_indices(self.vertex_count as int)
        &&& self.indices.wide() == self.use_32bit_indices
        &&& self.edge_west.wide() == self.use_32bit_indices
        &&& self.edge_south.wide() == self.use_32bit_indices
        &&& self.edge_east.wide() == self.use_32bit_indices
        &&& self.edge_north.wide() == self.use_32bit_indices
    }

    /// Finds the sections of a mesh that is not compressed.
    pub fn parse(data: &'a [u8]) -> (parsed: DecodeResult<QuantizedMeshView<'a>>)
        ensures
            match parsed {
                Ok(view) => view.wf() && sections_of(data@) == Ok::<Sections, DecodeErrorModel>(
                    view@,
                ),
                Err(e) => sections_of(data@) == Err::<Sections, DecodeErrorModel>(e@),
            },
    {
        let ghost s = data@;
        let ghost l = layout(s);
        let mut cur = Cursor::new(data);
        let head: &'a [u8] = match cur.take(88) {
            Ok(head) => head,
            Err(e) => return Err(e),
        };
        let header: QuantizedMeshHeader = match QuantizedMeshHeader::from_bytes(head) {
            Some(header) => header,
            None => return Err(DecodeError::InvalidData("Invalid header".to_string())),
        };
        proof {
            lemma_header_of_subrange(s);
        }
        let vertex_count: u32 = match cur.read_u32() {
            Ok(vertex_count) => vertex_count,
            Err(e) => return Err(e),
        };
        let wide: bool = vertex_count > 65535;
        let stream_len: u64 = 2 * vertex_count as u64;
        let u: &'a [u8] = match cur.take(stream_len) {
            Ok(bytes) => bytes,
            Err(e) => return Err(e),
        };
        let v: &'a [u8] = match cur.take(stream_len) {
            Ok(bytes) => bytes,
            Err(e) => return Err(e),
        };
        let height: &'a [u8] = match cur.take(stream_len) {
            Ok(bytes) => bytes,
            Err(e) => return Err(e),
        };
        assert(cur.offset == 92 + 6 * l.vertex_count);
        match cur.align_to(if wide { 4 } else { 2 }) {
            Ok(_) => {},
            Err(e) => return Err(e),
        }
        assert(cur.offset == l.triangles);
        let triangles: (u32, IndicesView<'a>) = match read_counted(&mut cur, 3, wide) {
            Ok(section) => section,
            Err(e) => return Err(e),
        };
        let edge_west: IndicesView<'a> = match read_edge_indices(&mut cur, wide) {
            Ok(edge) => edge,
            Err(e) => return Err(e),
        };
        let edge_south: IndicesView<'a> = match read_edge_indices(&mut cur, wide) {
            Ok(edge) => edge,
            Err(e) => return Err(e),
        };
        let edge_east: IndicesView<'a> = match read_edge_indices(&mut cur, wide) {
            Ok(edge) => edge,
            Err(e) => return Err(e),
        };
        let edge_north: IndicesView<'a> = match read_edge_indices(&mut cur, wide) {
            Ok(edge) => edge,
            Err(e) => return Err(e),
        };
        assert(cur.offset == l.extensions);
        let extensions: ExtensionsView<'a> = match parse_extensions(&mut cur, vertex_count) {
            Ok(extensions) => extensions,
            Err(e) => return Err(e),
        };
        Ok(
            QuantizedMeshView {
                header,
                vertex_count,
                use_32bit_indices: wide,
                triangle_count: triangles.0,
                encoded_u_bytes: u,
                encoded_v_bytes: v,
                encoded_height_bytes: height,
                indices: triangles.1,
                edge_west,
                edge_south,
                edge_east,
                edge_north,
                extensions,
            },
        )
    }

    /// Goes through the horizontal positions.
    pub fn iter_u(&self) -> (iter: ZigzagDeltaIter<'a>)
        ensures
            iter.rest() == delta_values(0, codes16(self.encoded_u_bytes@)),
    {
        ZigzagDeltaIter::new(self.encoded_u_bytes)
    }

    /// Goes through the vertical positions.
    pub fn iter_v(&self) -> (iter: ZigzagDeltaIter<'a>)
        ensures
            iter.rest() == delta_values(0, codes16(self.encoded_v_bytes@)),
    {
        ZigzagDeltaIter::new(self.encoded_v_bytes)
    }

    /// Goes through the heights.
    pub fn iter_height(&self) -> (iter: ZigzagDeltaIter<'a>)
        ensures
            iter.rest() == delta_values(0, codes16(self.encoded_height_bytes@)),
    {
        ZigzagDeltaIter::new(self.encoded_height_bytes)
    }

    /// Decodes the whole mesh.
    pub fn into_owned(self) -> (mesh: DecodedMesh)
        requires
            self.wf(),
        ensures
            mesh@ == mesh_of(self@),
    {
        DecodedMesh {
            header: self.header,
            vertices: QuantizedVertices {
                u: self.iter_u().collect(),
                v: self.iter_v().collect(),
                height: self.iter_height().collect(),
            },
            indices: self.indices.to_vec(),
            edge_indices: EdgeIndices {
                west: self.edge_west.iter_raw().collect(),
                south: self.edge_south.iter_raw().collect(),
                east: self.edge_east.iter_raw().collect(),
                north: self.edge_north.iter_raw().collect(),
            },
            extensions: self.extensions.to_owned(),
        }
    }
}

/// The header at the start of the first 88 bytes is the one at the start of all.
proof fn lemma_header_of_subrange(s: Seq<u8>)
    requires
        s.len() >= 88,
    ensures
        header_of(s.subrange(0, 88)) == header_of(s),
{
    let head = s.subrange(0, 88);
    assert(head.subrange(0, 88) =~= head);
    crate::header::law_header_write_of_read(s);
    crate::header::law_header_read_of_write(header_of(s), head);
}

/// A decoded mesh.
#[derive(Debug, Clone)]
pub struct DecodedMesh {
    /// Header.
    pub header: QuantizedMeshHeader,
    /// Vertices.
    pub vertices: QuantizedVertices,
    /// Triangle indices.
    pub indices: Vec<u32>,
    /// Indices of the vertices on each edge.
    pub edge_indices: EdgeIndices,
    /// Extensions.
    pub extensions: DecodedExtensions,
}

/// What a mesh says, with its lists as sequences.
#[verifier::ext_equal]
pub struct MeshModel {
    pub header: QuantizedMeshHeader,
    pub u: Seq<u16>,
    pub v: Seq<u16>,
    pub height: Seq<u16>,
    pub indices: Seq<u32>,
    pub west: Seq<u32>,
    pub south: Seq<u32>,
    pub east: Seq<u32>,
    pub north: Seq<u32>,
    pub extensions: ExtensionsModel,
}

impl View for DecodedMesh {
    type V = MeshModel;

    open spec fn view(&self) -> MeshModel {
        MeshModel {
            header: self.header,
            u: self.vertices.u@,
            v: self.vertices.v@,
            height: self.vertices.height@,
            indices: self.indices@,
            west: self.edge_indices.west@,
            south: self.edge_indices.south@,
            east: self.edge_indices.east@,
            north: self.edge_indices.north@,
            extensions: self.extensions@,
        }
    }
}

/// The mesh that the sections hold.
pub open spec fn mesh_of(sections: Sections) -> MeshModel {
    MeshModel {
        header: sections.header,
        u: delta_values(0, codes16(sections.u)),
        v: delta_values(0, codes16(sections.v)),
        height: delta_values(0, codes16(sections.height)),
        indices: high_water_values(0, stream_codes(sections.indices, sections.wide)),
        west: stream_codes(sections.west, sections.wide),
        south: stream_codes(sections.south, sections.wide),
        east: stream_codes(sections.east, sections.wide),
        north: stream_codes(sections.north, sections.wide),
        extensions: with_paired_normals(sections.extensions),
    }
}

/// The bytes of a file that may be compressed, or why it cannot be unpacked.
pub open spec fn unpacked(data: Seq<u8>) -> Result<Seq<u8>, DecodeErrorModel> {
    if has_gzip_magic(data) {
        match gunzip_result(data) {
            Ok(bytes) => Ok(bytes),
            Err(text) => Err(DecodeErrorModel::DecompressionError(text)),
        }
    } else {
        Ok(data)
    }
}

/// The mesh of a file that may be compressed, or why it is none.
pub open spec fn decoded(data: Seq<u8>) -> Result<MeshModel, DecodeErrorModel> {
    match unpacked(data) {
        Ok(bytes) => match sections_of(bytes) {
            Ok(sections) => Ok(mesh_of(sections)),
            Err(e) => Err(e),
        },
        Err(e) => Err(e),
    }
}

impl DecodedMesh {
    /// Decodes a mesh that may be compressed.
    pub fn decode(data: &[u8]) -> (mesh: DecodeResult<DecodedMesh>)
        ensures
            match mesh {
                Ok(m) => decoded(data@) == Ok::<MeshModel, DecodeErrorModel>(m@),
                Err(e) => decoded(data@) == Err::<MeshModel, DecodeErrorModel>(e@),
            },
    {
        if is_gzip(data) {
            match gunzip(data) {
                Ok(bytes) => Self::decode_plain(bytes.as_slice()),
                Err(text) => Err(DecodeError::DecompressionError(text)),
            }
        } else {
            Self::decode_plain(data)
        }
    }

    /// Decodes a mesh that is not compressed.
    pub fn decode_plain(data: &[u8]) -> (mesh: DecodeResult<DecodedMesh>)
        ensures
            match mesh {
                Ok(m) => sections_of(data@) matches Ok(sections) && m@ == mesh_of(sections),
                Err(e) => sections_of(data@) == Err::<Sections, DecodeErrorModel>(e@),
            },
    {
        match QuantizedMeshView::parse(data) {
            Ok(view) => Ok(view.into_owned()),
            Err(e) => Err(e),
        }
    }
}

/// Whether `data` starts with the mark of a gzip file.
pub fn is_gzip(data: &[u8]) -> (marked: bool)
    ensures
        marked == has_gzip_magic(data@),
        marked == (data@.len() >= 2 && data@[0] == 0x1f && data@[1] == 0x8b),
{
    data.len() >= 2 && data[0] == 0x1f && data[1] == 0x8b
}

/// Unpacks a gzip file; other data are copied.
pub fn decompress_gzip(data: &[u8]) -> (bytes: DecodeResult<Vec<u8>>)
    ensures
        match bytes {
            Ok(b) => unpacked(data@) == Ok::<Seq<u8>, DecodeErrorModel>(b@),
            Err(e) => unpacked(data@) == Err::<Seq<u8>, DecodeErrorModel>(e@),
        },
{
    if is_gzip(data) {
        match gunzip(data) {
            Ok(bytes) => Ok(bytes),
            Err(text) => Err(DecodeError::DecompressionError(text)),
        }
    } else {
        let mut bytes: Vec<u8> = Vec::new();
        crate::bytes::push_bytes(&mut bytes, data);
        assert(bytes@ =~= data@);
        Ok(bytes)
    }
}

} // verus!
