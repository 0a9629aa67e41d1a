//! Encoder for the quantized-mesh format.
use crate::bytes::{bytes16, group_le_len, le32, push_bytes, push_u32};
use crate::decoding::{decoded, DecodeErrorModel, MeshModel};
use crate::gzip::{gunzip_result, gzip, gzip_bytes, has_gzip_magic};
use crate::header::QuantizedMeshHeader;
use crate::mesh_laws::{encoded_mesh, law_decode_of_encode, mesh_fits, options_fit};
use crate::streams::{
    delta_codes, high_water_codes, index_bytes, is_encodable, push_high_water_mark, push_indices,
    push_zigzag_delta,
};
use crate::types::{EdgeIndices, ExtensionId, QuantizedVertices, WaterMask, WaterMaskModel};
use vstd::prelude::*;
use vstd::utf8::encode_utf8;

verus! {

broadcast use group_le_len;

/// What to add to an encoded mesh, and how far to compress it.
#[derive(Debug, Clone)]
pub struct EncodeOptions {
    /// Whether to write the vertex normals.
    pub include_normals: bool,
    /// Oct-encoded normals, one a vertex.
    pub normals: Option<Vec<[u8; 2]>>,
    /// Whether to write the water mask.
    pub include_water_mask: bool,
    /// Water mask; all land if there is none.
    pub water_mask: Option<WaterMask>,
    /// Whether to write the metadata.
    pub include_metadata: bool,
    /// Metadata as JSON text.
    pub metadata: Option<String>,
    /// Gzip compression level, from 1 to 9; 0 for no compression.
    pub compression_level: u32,
}

impl Default for EncodeOptions {
    /// No extensions, compression level 6.
    fn default() -> (options: EncodeOptions)
        ensures
            options == (EncodeOptions {
                include_normals: false,
                normals: None,
                include_water_mask: false,
                water_mask: None,
                include_metadata: false,
                metadata: None,
                compression_level: 6,
            }),
    {
        EncodeOptions {
            include_normals: false,
            normals: None,
            include_water_mask: false,
            water_mask: None,
            include_metadata: false,
            metadata: None,
            compression_level: 6,
        }
    }
}

/// No extensions, no compression.
pub open spec fn no_options() -> EncodeOptions {
    EncodeOptions {
        include_normals: false,
        normals: None,
        include_water_mask: false,
        water_mask: None,
        include_metadata: false,
        metadata: None,
        compression_level: 0,
    }
}

/// The bytes of oct-encoded normals, one after the other.
pub open spec fn flat(normals: Seq<[u8; 2]>) -> Seq<u8> {
    Seq::new(2 * normals.len(), |j: int| normals[j / 2]@[j % 2])
}

/// An extension as it stands in a file: its name, its length, its content.
pub open spec fn extension(id: ExtensionId, length: u32, payload: Seq<u8>) -> Seq<u8> {
    seq![id.spec_byte()] + le32(length) + payload
}

/// The content of a water mask extension.
pub open spec fn water_mask_payload(mask: WaterMaskModel) -> Seq<u8> {
    match mask {
        WaterMaskModel::Uniform(value) => seq![value],
        WaterMaskModel::Grid(grid) => grid,
    }
}

/// The content of a metadata extension: the length of the text, and the text.
pub open spec fn metadata_payload(json: Seq<u8>) -> Seq<u8> {
    le32(json.len() as u32) + json
}

impl EncodeOptions {
    /// The length of the metadata fits its field.
    pub open spec fn wf(&self) -> bool {
        self.include_metadata ==> (self.metadata matches Some(text) ==> (encode_utf8(
            text@,
        ).len() as u32) + 4 <= u32::MAX)
    }

    /// The normals that are written.
    pub open spec fn written_normals(&self) -> Option<Seq<u8>> {
        match self.normals {
            Some(normals) if self.include_normals => Some(flat(normals@)),
            _ => None,
        }
    }

    /// The water mask that is written.
    pub open spec fn written_water_mask(&self) -> Option<WaterMaskModel> {
        if self.include_water_mask {
            match self.water_mask {
                Some(mask) => Some(mask@),
                None => Some(WaterMaskModel::Uniform(0)),
            }
        } else {
            None
        }
    }

    /// The metadata that are written.
    pub open spec fn written_metadata(&self) -> Option<Seq<char>> {
        match self.metadata {
            Some(text) if self.include_metadata => Some(text@),
            _ => None,
        }
    }

    /// The normals as they stand in a file.
    pub open spec fn normals_bytes(&self) -> Seq<u8> {
        match self.written_normals() {
            Some(normals) => extension(
                ExtensionId::OctEncodedVertexNormals,
                normals.len() as u32,
                normals,
            ),
            None => Seq::empty(),
        }
    }

    /// The water mask as it stands in a file.
    pub open spec fn water_mask_bytes(&self) -> Seq<u8> {
        match self.written_water_mask() {
            Some(mask) => extension(
                ExtensionId::WaterMask,
                water_mask_payload(mask).len() as u32,
                water_mask_payload(mask),
            ),
            None => Seq::empty(),
        }
    }

    /// The metadata as they stand in a file.
    pub open spec fn metadata_bytes(&self) -> Seq<u8> {
        match self.written_metadata() {
            Some(text) => extension(
                ExtensionId::Metadata,
                (4 + (encode_utf8(text).len() as u32)) as u32,
                metadata_payload(encode_utf8(text)),
            ),
            None => Seq::empty(),
        }
    }

    /// All extensions as they stand in a file.
    pub open spec fn extension_bytes(&self) -> Seq<u8> {
        self.normals_bytes() + self.water_mask_bytes() + self.metadata_bytes()
    }
}

/// Mesh data to be encoded.
pub struct QuantizedMeshEncoder {
    pub header: QuantizedMeshHeader,
    pub vertices: QuantizedVertices,
    pub indices: Vec<u32>,
    pub edge_indices: EdgeIndices,
}

/// Meshes with more than 65535 vertices have 32-bit indices.
pub open spec fn needs_wide_indices(vertex_count: int) -> bool {
    vertex_count > 65535
}

/// The position of the first multiple of `align` at `at` or after it.
pub open spec fn aligned(at: int, align: int) -> int {
    at + (align - at % align) % align
}

/// Bytes an index takes.
pub open spec fn index_width(wide: bool) -> int {
    if wide {
        4
    } else {
        2
    }
}

/// Where the triangles of a mesh start.
pub open spec fn triangles_at(vertex_count: int) -> int {
    aligned(92 + 6 * vertex_count, index_width(needs_wide_indices(vertex_count)))
}

/// The bytes between the vertices and the triangles, all 0.
pub open spec fn padding(vertex_count: int) -> Seq<u8> {
    Seq::new((triangles_at(vertex_count) - (92 + 6 * vertex_count)) as nat, |i: int| 0u8)
}

/// The indices of an edge as they stand in a file: their number, then the indices.
pub open spec fn edge_bytes(list: Seq<u32>, wide: bool) -> Seq<u8> {
    le32(list.len() as u32) + index_bytes(list, wide)
}

impl QuantizedMeshEncoder {
    /// The number of vertices and their coordinates as they stand in a file.
    pub open spec fn vertex_bytes(&self) -> Seq<u8> {
        le32(self.vertices.u@.len() as u32) + bytes16(delta_codes(self.vertices.u@)) + bytes16(
            delta_codes(self.vertices.v@),
        ) + bytes16(delta_codes(self.vertices.height@))
    }

    /// The number of triangles and their indices as they stand in a file.
    pub open spec fn triangle_bytes(&self) -> Seq<u8> {
        le32((self.indices@.len() / 3) as u32) + index_bytes(
            high_water_codes(self.indices@),
            needs_wide_indices(self.vertices.u@.len() as int),
        )
    }

    /// The edges as they stand in a file.
    pub open spec fn all_edge_bytes(&self) -> Seq<u8> {
        let wide = needs_wide_indices(self.vertices.u@.len() as int);
        edge_bytes(self.edge_indices.west@, wide) + edge_bytes(self.edge_indices.south@, wide)
            + edge_bytes(self.edge_indices.east@, wide) + edge_bytes(
            self.edge_indices.north@,
            wide,
        )
    }

    /// The mesh as it stands in a file, without extensions.
    pub open spec fn mesh_bytes(&self) -> Seq<u8> {
        self.header.bytes() + self.vertex_bytes() + padding(self.vertices.u@.len() as int)
            + self.triangle_bytes() + self.all_edge_bytes()
    }

    /// Creates an encoder of the given mesh.
    pub fn new(
        header: QuantizedMeshHeader,
        vertices: QuantizedVertices,
        indices: Vec<u32>,
        edge_indices: EdgeIndices,
    ) -> (encoder: QuantizedMeshEncoder)
        ensures
            encoder == (QuantizedMeshEncoder { header, vertices, indices, edge_indices }),
    {
        QuantizedMeshEncoder { header, vertices, indices, edge_indices }
    }

    /// Encodes the mesh, without extensions or compression.
    pub fn encode(&self) -> (out: Vec<u8>)
        requires
            is_encodable(self.indices@),
        ensures
            out@ == self.mesh_bytes(),
            mesh_fits(*self) && !has_gzip_magic(self.header.bytes()) ==> decoded(out@) == Ok::<
                MeshModel,
                DecodeErrorModel,
            >(encoded_mesh(*self, no_options())),
    {
        let out = self.encode_mesh();
        proof {
            if mesh_fits(*self) && !has_gzip_magic(self.header.bytes()) {
                assert(out@ =~= self.mesh_bytes() + no_options().extension_bytes());
                law_decode_of_encode(*self, no_options(), out@);
            }
        }
        out
    }

    /// Encodes the mesh with extensions, and compresses it.
    pub fn encode_with_options(&self, options: &EncodeOptions) -> (out: Vec<u8>)
        requires
            is_encodable(self.indices@),
            options.wf(),
            options.compression_level <= 9,
        ensures
            options.compression_level == 0 ==> out@ == self.mesh_bytes()
                + options.extension_bytes(),
            options.compression_level != 0 ==> {
                let plain = self.mesh_bytes() + options.extension_bytes();
                &&& out@ == gzip_bytes(plain, options.compression_level)
                &&& has_gzip_magic(out@)
                &&& gunzip_result(out@) == Ok::<Seq<u8>, Seq<char>>(plain)
            },
            mesh_fits(*self) && options_fit(*options) && (options.compression_level != 0
                || !has_gzip_magic(self.header.bytes())) ==> decoded(out@) == Ok::<
                MeshModel,
                DecodeErrorModel,
            >(encoded_mesh(*self, *options)),
    {
        let plain = self.encode_uncompressed(options);
        let out = Self::pack(plain, options.compression_level);
        proof {
            if mesh_fits(*self) && options_fit(*options) && (options.compression_level != 0
                || !has_gzip_magic(self.header.bytes())) {
                law_decode_of_encode(*self, *options, out@);
            }
        }
        out
    }

    /// Compresses the bytes unless the level is 0.
    fn pack(plain: Vec<u8>, level: u32) -> (out: Vec<u8>)
        requires
            level <= 9,
        ensures
            level == 0 ==> out == plain,
            level != 0 ==> {
                &&& out@ == gzip_bytes(plain@, level)
                &&& has_gzip_magic(out@)
                &&& gunzip_result(out@) == Ok::<Seq<u8>, Seq<char>>(plain@)
            },
    {
        if level == 0 {
            plain
        } else {
            gzip(plain.as_slice(), level)
        }
    }

    /// Encodes the mesh with extensions, without compression.
    fn encode_uncompressed(&self, options: &EncodeOptions) -> (out: Vec<u8>)
        requires
            is_encodable(self.indices@),
            options.wf(),
        ensures
            out@ == self.mesh_bytes() + options.extension_bytes(),
    {
        let mut out = self.encode_mesh();
        if options.include_normals {
            if let Some(normals) = &options.normals {
                push_normals_extension(&mut out, normals);
            }
        }
        assert(out@ =~= self.mesh_bytes() + options.normals_bytes());
        if options.include_water_mask {
            match &options.water_mask {
                Some(mask) => {
                    push_water_mask_extension(&mut out, mask);
                },
                None => {
                    push_water_mask_extension(&mut out, &WaterMask::Uniform(0));
                },
            }
        }
        assert(out@ =~= self.mesh_bytes() + options.normals_bytes() + options.water_mask_bytes());
        if options.include_metadata {
            if let Some(text) = &options.metadata {
                push_metadata_extension(&mut out, text);
            }
        }
        assert(out@ =~= self.mesh_bytes() + options.extension_bytes());
        out
    }

    /// Encodes the mesh itself.
    fn encode_mesh(&self) -> (out: Vec<u8>)
        requires
            is_encodable(self.indices@),
        ensures
            out@ == self.mesh_bytes(),
    {
        let vertex_count: usize = self.vertices.len();
        let wide: bool = vertex_count > 65535;
        let mut out: Vec<u8> = Vec::new();

        push_bytes(&mut out, self.header.to_bytes().as_slice());
        assert(out@ =~= self.header.bytes());

        let ghost before = out@;
        push_u32(&mut out, vertex_count as u32);
        push_zigzag_delta(&mut out, self.vertices.u.as_slice());
        push_zigzag_delta(&mut out, self.vertices.v.as_slice());
        push_zigzag_delta(&mut out, self.vertices.height.as_slice());
        assert(out@ =~= before + self.vertex_bytes());

        let ghost before = out@;
        let align: usize = if wide {
            4
        } else {
            2
        };
        // The position is 92 + 6 * vertex_count; only its remainder matters.
        let remainder: usize = (92 + (vertex_count % 4) * 6) % align;
        proof {
            lemma_padding_len(vertex_count as int, remainder as int, align as int);
        }
        let padding_len: usize = (align - remainder) % align;
        let mut i: usize = 0;
        while i < padding_len
            invariant
                i <= padding_len,
                out@ =~= before + Seq::new(i as nat, |k: int| 0u8),
            decreases padding_len - i,
        {
            out.push(0);
            i = i + 1;
        }
        assert(out@ =~= before + padding(vertex_count as int));

        let ghost before = out@;
        let triangle_count: usize = self.indices.len() / 3;
        push_u32(&mut out, triangle_count as u32);
        push_high_water_mark(&mut out, self.indices.as_slice(), wide);
        assert(out@ =~= before + self.triangle_bytes());

        let ghost before = out@;
        push_edge(&mut out, &self.edge_indices.west, wide);
        push_edge(&mut out, &self.edge_indices.south, wide);
        push_edge(&mut out, &self.edge_indices.east, wide);
        push_edge(&mut out, &self.edge_indices.north, wide);
        assert(out@ =~= before + self.all_edge_bytes());
        out
    }
}

proof fn lemma_padding_len(vertex_count: int, remainder: int, align: int)
    requires
        vertex_count >= 0,
        align == index_width(needs_wide_indices(vertex_count)),
        remainder == (92 + (vertex_count % 4) * 6) % align,
    ensures
        0 <= remainder < align,
        (align - remainder) % align == triangles_at(vertex_count) - (92 + 6 * vertex_count),
        0 <= (align - remainder) % align < align,
{
    let at = 92 + 6 * vertex_count;
    assert(at == 92 + 6 * (vertex_count % 4) + 24 * (vertex_count / 4));
    if align == 4 {
        assert(at % 4 == remainder);
    } else {
        assert(at % 2 == remainder);
    }
}

fn push_edge(out: &mut Vec<u8>, list: &Vec<u32>, wide: bool)
    ensures
        final(out)@ == old(out)@ + edge_bytes(list@, wide),
{
    push_u32(out, list.len() as u32);
    push_indices(out, list.as_slice(), wide);
    assert(out@ =~= old(out)@ + edge_bytes(list@, wide));
}

fn push_extension(out: &mut Vec<u8>, id: ExtensionId, length: u32, payload: &[u8])
    ensures
        final(out)@ == old(out)@ + extension(id, length, payload@),
{
    out.push(id.byte());
    push_u32(out, length);
    push_bytes(out, payload);
    assert(out@ =~= old(out)@ + extension(id, length, payload@));
}

fn push_normals_extension(out: &mut Vec<u8>, normals: &Vec<[u8; 2]>)
    ensures
        final(out)@ == old(out)@ + extension(
            ExtensionId::OctEncodedVertexNormals,
            flat(normals@).len() as u32,
            flat(normals@),
        ),
{
    let mut payload: Vec<u8> = Vec::new();
    let mut i: usize = 0;
    while i < normals.len()
        invariant
            i <= normals.len(),
            payload@.len() == 2 * i,
            forall|j: int| 0 <= j < 2 * i ==> payload@[j] == normals@[j / 2]@[j % 2],
        decreases normals.len() - i,
    {
        let normal: [u8; 2] = normals[i];
        payload.push(normal[0]);
        payload.push(normal[1]);
        i = i + 1;
    }
    assert(payload@ =~= flat(normals@));
    let length: u32 = payload.len() as u32;
    push_extension(out, ExtensionId::OctEncodedVertexNormals, length, payload.as_slice());
}

fn push_water_mask_extension(out: &mut Vec<u8>, mask: &WaterMask)
    ensures
        final(out)@ == old(out)@ + extension(
            ExtensionId::WaterMask,
            water_mask_payload(mask@).len() as u32,
            water_mask_payload(mask@),
        ),
{
    match mask {
        WaterMask::Uniform(value) => {
            let cell: [u8; 1] = [*value];
            assert(cell@ =~= seq![*value]);
            push_extension(out, ExtensionId::WaterMask, 1, cell.as_slice());
        },
        WaterMask::Grid(grid) => {
            push_extension(out, ExtensionId::WaterMask, 65536, grid.as_slice());
        },
    }
}

fn push_metadata_extension(out: &mut Vec<u8>, text: &String)
    requires
        (encode_utf8(text@).len() as u32) + 4 <= u32::MAX,
    ensures
        final(out)@ == old(out)@ + extension(
            ExtensionId::Metadata,
            (4 + (encode_utf8(text@).len() as u32)) as u32,
            metadata_payload(encode_utf8(text@)),
        ),
{
    let json: &[u8] = text.as_str().as_bytes();
    let mut payload: Vec<u8> = Vec::new();
    push_u32(&mut payload, json.len() as u32);
    push_bytes(&mut payload, json);
    assert(payload@ =~= metadata_payload(json@));
    let length: u32 = 4 + json.len() as u32;
    push_extension(out, ExtensionId::Metadata, length, payload.as_slice());
}

} // verus!
