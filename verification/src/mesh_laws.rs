//! Where everything stands in a file, that decoding gives back what was encoded, and what becomes
//! of a file that is cut off.
use crate::bytes::{
    at16, at32, bytes16, codes16, group_le_len, law_read_little_endian_digits,
    law_run_of_integers, le32, lemma_at32_of_le32, lemma_at32_of_subrange,
    lemma_codes16_of_bytes16, lemma_codes32_of_bytes32,
};
use crate::decoding::{
    counted_bytes, counted_end, counted_fits, decoded, extensions_from, layout, mesh_of,
    no_extensions, sections_fit, sections_of, stream_codes, widened, with_extension,
    with_paired_normals, DecodeErrorModel, ExtensionsModel, MeshModel, Sections,
};
use crate::encoding::{
    edge_bytes, extension, flat, index_width, metadata_payload, needs_wide_indices, no_options,
    padding, water_mask_payload, EncodeOptions, QuantizedMeshEncoder,
};
use crate::gzip::{gunzip_result, has_gzip_magic};
use crate::header::{
    header_of, law_header_read_of_write, law_header_write_of_read, lemma_header_len,
};
use crate::streams::{
    delta_codes, fits_index, high_water_codes, high_water_values, index_bytes, is_encodable,
    law_delta_roundtrip, law_delta_values_follow_steps, law_high_water_roundtrip,
    law_index_bytes, low_halves, small_steps, unzigzag,
};
use crate::types::{ExtensionId, WaterMask, WaterMaskModel};
use vstd::prelude::*;
use vstd::utf8::encode_utf8;

verus! {

broadcast use group_le_len;

/// The indices of an edge fit their count and their bytes.
pub open spec fn edge_fits(list: Seq<u32>, wide: bool) -> bool {
    list.len() <= u32::MAX && fits_index(list, wide)
}

/// No list of the mesh is too long for its count, and every vertex and triangle is whole.
pub open spec fn counts_fit(encoder: QuantizedMeshEncoder) -> bool {
    &&& encoder.vertices.wf()
    &&& encoder.vertices.u@.len() <= u32::MAX
    &&& encoder.indices@.len() % 3 == 0
    &&& encoder.indices@.len() / 3 <= u32::MAX
    &&& encoder.edge_indices.west@.len() <= u32::MAX
    &&& encoder.edge_indices.south@.len() <= u32::MAX
    &&& encoder.edge_indices.east@.len() <= u32::MAX
    &&& encoder.edge_indices.north@.len() <= u32::MAX
}

/// Nothing of the mesh is too large for its place in a file, and every triangle is whole.
pub open spec fn mesh_fits(encoder: QuantizedMeshEncoder) -> bool {
    let wide = needs_wide_indices(encoder.vertices.u@.len() as int);
    &&& encoder.vertices.wf()
    &&& encoder.vertices.u@.len() <= u32::MAX
    &&& small_steps(encoder.vertices.u@)
    &&& small_steps(encoder.vertices.v@)
    &&& small_steps(encoder.vertices.height@)
    &&& encoder.indices@.len() % 3 == 0
    &&& encoder.indices@.len() / 3 <= u32::MAX
    &&& is_encodable(encoder.indices@)
    &&& fits_index(high_water_codes(encoder.indices@), wide)
    &&& edge_fits(encoder.edge_indices.west@, wide)
    &&& edge_fits(encoder.edge_indices.south@, wide)
    &&& edge_fits(encoder.edge_indices.east@, wide)
    &&& edge_fits(encoder.edge_indices.north@, wide)
}

/// No extension is too large for its place in a file.
pub open spec fn options_fit(options: EncodeOptions) -> bool {
    &&& options.written_normals() matches Some(normals) ==> normals.len() <= u32::MAX
    &&& options.written_metadata() matches Some(text) ==> encode_utf8(text).len() + 4 <= u32::MAX
}

/// The extensions that the options write, as far as a reader keeps them: at most one normal a
/// vertex.
pub open spec fn kept_extensions(options: EncodeOptions, vertex_count: int) -> ExtensionsModel {
    ExtensionsModel {
        normals: match options.written_normals() {
            Some(normals) => Some(
                if normals.len() <= 2 * vertex_count {
                    normals
                } else {
                    normals.take(2 * vertex_count)
                },
            ),
            None => None,
        },
        water_mask: options.written_water_mask(),
        metadata: options.written_metadata(),
    }
}

/// The mesh and extensions that are encoded.
pub open spec fn encoded_mesh(encoder: QuantizedMeshEncoder, options: EncodeOptions) -> MeshModel {
    MeshModel {
        header: encoder.header,
        u: encoder.vertices.u@,
        v: encoder.vertices.v@,
        height: encoder.vertices.height@,
        indices: encoder.indices@,
        west: encoder.edge_indices.west@,
        south: encoder.edge_indices.south@,
        east: encoder.edge_indices.east@,
        north: encoder.edge_indices.north@,
        extensions: kept_extensions(options, encoder.vertices.u@.len() as int),
    }
}

proof fn lemma_split4(a: Seq<u8>, b: Seq<u8>, c: Seq<u8>, d: Seq<u8>)
    ensures
        ({
            let s = a + b + c + d;
            let i = a.len() as int;
            let j = i + b.len();
            let k = j + c.len();
            &&& s.len() == k + d.len()
            &&& s.subrange(0, i) == a
            &&& s.subrange(i, j) == b
            &&& s.subrange(j, k) == c
            &&& s.subrange(k, s.len() as int) == d
        }),
{
    let s = a + b + c + d;
    let i = a.len() as int;
    let j = i + b.len();
    let k = j + c.len();
    assert(s.subrange(0, i) =~= a);
    assert(s.subrange(i, j) =~= b);
    assert(s.subrange(j, k) =~= c);
    assert(s.subrange(k, s.len() as int) =~= d);
}

proof fn lemma_split6(
    a: Seq<u8>,
    b: Seq<u8>,
    c: Seq<u8>,
    d: Seq<u8>,
    e: Seq<u8>,
    f: Seq<u8>,
)
    ensures
        ({
            let s = a + b + c + d + e + f;
            let i = a.len() as int;
            let j = i + b.len();
            let k = j + c.len();
            let l = k + d.len();
            let m = l + e.len();
            &&& s.len() == m + f.len()
            &&& s.subrange(0, i) == a
            &&& s.subrange(i, j) == b
            &&& s.subrange(k, l) == d
            &&& s.subrange(l, m) == e
            &&& s.subrange(m, s.len() as int) == f
        }),
{
    let s = a + b + c + d + e + f;
    let i = a.len() as int;
    let j = i + b.len();
    let k = j + c.len();
    let l = k + d.len();
    let m = l + e.len();
    assert(s.subrange(0, i) =~= a);
    assert(s.subrange(i, j) =~= b);
    assert(s.subrange(k, l) =~= d);
    assert(s.subrange(l, m) =~= e);
    assert(s.subrange(m, s.len() as int) =~= f);
}

/// A part of a part is a part of the whole.
proof fn lemma_part_of_part(s: Seq<u8>, from: int, to: int, a: int, b: int)
    requires
        0 <= from <= to <= s.len(),
        0 <= a <= b <= to - from,
    ensures
        s.subrange(from, to).subrange(a, b) == s.subrange(from + a, from + b),
{
    assert(s.subrange(from, to).subrange(a, b) =~= s.subrange(from + a, from + b));
}

/// Reading a stream of indices gives back the list that was written.
proof fn lemma_stream_codes(list: Seq<u32>, wide: bool)
    ensures
        fits_index(list, wide) ==> stream_codes(index_bytes(list, wide), wide) == list,
        index_bytes(list, wide).len() == list.len() * index_width(wide),
{
    if wide {
        lemma_codes32_of_bytes32(list);
    } else {
        lemma_codes16_of_bytes16(low_halves(list));
        if fits_index(list, wide) {
            assert(widened(low_halves(list)) =~= list);
        }
    }
}

/// Reading a counted list gives back the list that was written.
proof fn lemma_counted(s: Seq<u8>, at: int, count: int, per_item: int, list: Seq<u32>, wide: bool)
    requires
        0 <= at,
        0 <= count <= u32::MAX,
        per_item == 1 || per_item == 3,
        list.len() == count * per_item,
        at + 4 + index_bytes(list, wide).len() <= s.len(),
        s.subrange(at, at + 4 + index_bytes(list, wide).len()) == le32(count as u32)
            + index_bytes(list, wide),
    ensures
        counted_fits(s, at, per_item, index_width(wide)),
        counted_end(s, at, per_item, index_width(wide)) == at + 4 + index_bytes(list, wide).len(),
        at32(s, at) == count,
        fits_index(list, wide) ==> stream_codes(
            counted_bytes(s, at, per_item, index_width(wide)),
            wide,
        ) == list,
{
    let body = index_bytes(list, wide);
    let part = s.subrange(at, at + 4 + body.len());
    lemma_stream_codes(list, wide);
    assert(s.subrange(at, at + 4) =~= le32(count as u32)) by {
        assert(s.subrange(at, at + 4) =~= part.subrange(0, 4));
    }
    lemma_at32_of_le32(s, at, count as u32);
    let end = counted_end(s, at, per_item, index_width(wide));
    assert(end == at + 4 + body.len()) by (nonlinear_arith)
        requires
            end == at + 4 + count * per_item * index_width(wide),
            body.len() == list.len() * index_width(wide),
            list.len() == count * per_item,
    ;
    assert(s.subrange(at + 4, end) =~= body) by {
        assert(s.subrange(at + 4, end) =~= part.subrange(4, part.len() as int));
    }
}

/// Reading an extension goes on behind it.
proof fn lemma_extension_step(
    s: Seq<u8>,
    at: int,
    id: ExtensionId,
    payload: Seq<u8>,
    vertex_count: int,
    found: ExtensionsModel,
    next: ExtensionsModel,
)
    requires
        0 <= at,
        payload.len() <= u32::MAX,
        at + 5 + payload.len() <= s.len(),
        s.subrange(at, at + 5 + payload.len()) == extension(id, payload.len() as u32, payload),
        with_extension(found, id.spec_byte(), payload, vertex_count) == Ok::<
            ExtensionsModel,
            DecodeErrorModel,
        >(next),
    ensures
        extensions_from(s, at, vertex_count, found) == extensions_from(
            s,
            at + 5 + payload.len(),
            vertex_count,
            next,
        ),
{
    let whole = extension(id, payload.len() as u32, payload);
    let part = s.subrange(at, at + 5 + payload.len());
    assert(whole[0] == id.spec_byte());
    assert(s[at] == part[0]);
    assert(s.subrange(at + 1, at + 5) =~= le32(payload.len() as u32)) by {
        assert(s.subrange(at + 1, at + 5) =~= part.subrange(1, 5));
        assert(whole.subrange(1, 5) =~= le32(payload.len() as u32));
    }
    lemma_at32_of_le32(s, at + 1, payload.len() as u32);
    assert(s.subrange(at + 5, at + 5 + payload.len()) =~= payload) by {
        assert(s.subrange(at + 5, at + 5 + payload.len()) =~= part.subrange(5, part.len() as int));
        assert(whole.subrange(5, whole.len() as int) =~= payload);
    }
}

/// Reading the metadata gives back the text that was written.
proof fn lemma_metadata(text: Seq<char>, vertex_count: int, found: ExtensionsModel)
    requires
        encode_utf8(text).len() + 4 <= u32::MAX,
    ensures
        with_extension(found, 4, metadata_payload(encode_utf8(text)), vertex_count) == Ok::<
            ExtensionsModel,
            DecodeErrorModel,
        >(ExtensionsModel { metadata: Some(text), ..found }),
{
    let json = encode_utf8(text);
    let payload = metadata_payload(json);
    vstd::utf8::encode_utf8_valid_utf8(text);
    vstd::utf8::encode_utf8_decode_utf8(text);
    assert(payload.subrange(0, 4) =~= le32(json.len() as u32));
    lemma_at32_of_le32(payload, 0, json.len() as u32);
    assert(payload.subrange(4, 4int + json.len()) =~= json);
}

/// Reading the extensions gives back those that were written.
proof fn lemma_extensions(s: Seq<u8>, at: int, options: EncodeOptions, vertex_count: int)
    requires
        0 <= at <= s.len(),
        0 <= vertex_count,
        options_fit(options),
        s.subrange(at, s.len() as int) == options.extension_bytes(),
    ensures
        extensions_from(s, at, vertex_count, no_extensions()) == Ok::<
            ExtensionsModel,
            DecodeErrorModel,
        >(kept_extensions(options, vertex_count)),
{
    let all = options.extension_bytes();
    let n = options.normals_bytes();
    let w = options.water_mask_bytes();
    let m = options.metadata_bytes();
    let kept = kept_extensions(options, vertex_count);
    lemma_split4(n, w, m, Seq::<u8>::empty());
    assert(n + w + m + Seq::<u8>::empty() =~= all);
    let i = n.len() as int;
    let j = i + w.len();
    lemma_part_of_part(s, at, s.len() as int, 0, i);
    lemma_part_of_part(s, at, s.len() as int, i, j);
    lemma_part_of_part(s, at, s.len() as int, j, all.len() as int);

    let e0 = no_extensions();
    let e1 = ExtensionsModel { normals: kept.normals, ..e0 };
    let e2 = ExtensionsModel { water_mask: kept.water_mask, ..e1 };
    match options.written_normals() {
        Some(normals) => {
            assert(normals.take(normals.len() as int) =~= normals);
            lemma_extension_step(
                s,
                at,
                ExtensionId::OctEncodedVertexNormals,
                normals,
                vertex_count,
                e0,
                e1,
            );
        },
        None => {},
    }
    assert(extensions_from(s, at, vertex_count, e0) == extensions_from(
        s,
        at + i,
        vertex_count,
        e1,
    ));
    match options.written_water_mask() {
        Some(mask) => {
            let payload = water_mask_payload(mask);
            assert(payload.len() == 1 || payload.len() == 65536);
            lemma_extension_step(
                s,
                at + i,
                ExtensionId::WaterMask,
                payload,
                vertex_count,
                e1,
                e2,
            );
        },
        None => {},
    }
    assert(extensions_from(s, at + i, vertex_count, e1) == extensions_from(
        s,
        at + j,
        vertex_count,
        e2,
    ));
    match options.written_metadata() {
        Some(text) => {
            lemma_metadata(text, vertex_count, e2);
            lemma_extension_step(
                s,
                at + j,
                ExtensionId::Metadata,
                metadata_payload(encode_utf8(text)),
                vertex_count,
                e2,
                kept,
            );
        },
        None => {},
    }
}

/// Where the vertices of an encoded mesh stand.
proof fn lemma_vertex_sections(encoder: QuantizedMeshEncoder, s: Seq<u8>)
    requires
        counts_fit(encoder),
        88 + encoder.vertex_bytes().len() <= s.len(),
        s.subrange(88, 88int + encoder.vertex_bytes().len()) == encoder.vertex_bytes(),
    ensures
        ({
            let n = encoder.vertices.u@.len() as int;
            &&& encoder.vertex_bytes().len() == 4 + 6 * n
            &&& at32(s, 88) == n
            &&& s.subrange(92, 92 + 2 * n) == bytes16(delta_codes(encoder.vertices.u@))
            &&& s.subrange(92 + 2 * n, 92 + 4 * n) == bytes16(delta_codes(encoder.vertices.v@))
            &&& s.subrange(92 + 4 * n, 92 + 6 * n) == bytes16(
                delta_codes(encoder.vertices.height@),
            )
        }),
{
    let n = encoder.vertices.u@.len() as int;
    let part = encoder.vertex_bytes();
    let end = 88int + part.len();
    lemma_split4(
        le32(n as u32),
        bytes16(delta_codes(encoder.vertices.u@)),
        bytes16(delta_codes(encoder.vertices.v@)),
        bytes16(delta_codes(encoder.vertices.height@)),
    );
    lemma_part_of_part(s, 88, end, 0, 4);
    lemma_part_of_part(s, 88, end, 4, 4 + 2 * n);
    lemma_part_of_part(s, 88, end, 4 + 2 * n, 4 + 4 * n);
    lemma_part_of_part(s, 88, end, 4 + 4 * n, 4 + 6 * n);
    lemma_at32_of_le32(s, 88, n as u32);
}

/// Reading an edge gives back the list that was written.
proof fn lemma_edge(s: Seq<u8>, at: int, list: Seq<u32>, wide: bool)
    requires
        0 <= at,
        list.len() <= u32::MAX,
        at + edge_bytes(list, wide).len() <= s.len(),
        s.subrange(at, at + edge_bytes(list, wide).len()) == edge_bytes(list, wide),
    ensures
        counted_fits(s, at, 1, index_width(wide)),
        counted_end(s, at, 1, index_width(wide)) == at + edge_bytes(list, wide).len(),
        fits_index(list, wide) ==> stream_codes(
            counted_bytes(s, at, 1, index_width(wide)),
            wide,
        ) == list,
{
    lemma_counted(s, at, list.len() as int, 1, list, wide);
}

/// Where the edges of an encoded mesh stand.
proof fn lemma_edge_sections(encoder: QuantizedMeshEncoder, s: Seq<u8>, at: int)
    requires
        counts_fit(encoder),
        0 <= at,
        at + encoder.all_edge_bytes().len() <= s.len(),
        s.subrange(at, at + encoder.all_edge_bytes().len()) == encoder.all_edge_bytes(),
    ensures
        ({
            let wide = needs_wide_indices(encoder.vertices.u@.len() as int);
            let width = index_width(wide);
            let south = counted_end(s, at, 1, width);
            let east = counted_end(s, south, 1, width);
            let north = counted_end(s, east, 1, width);
            &&& counted_fits(s, at, 1, width)
            &&& counted_fits(s, south, 1, width)
            &&& counted_fits(s, east, 1, width)
            &&& counted_fits(s, north, 1, width)
            &&& counted_end(s, north, 1, width) == at + encoder.all_edge_bytes().len()
            &&& mesh_fits(encoder) ==> {
                &&& stream_codes(counted_bytes(s, at, 1, width), wide)
                    == encoder.edge_indices.west@
                &&& stream_codes(counted_bytes(s, south, 1, width), wide)
                    == encoder.edge_indices.south@
                &&& stream_codes(counted_bytes(s, east, 1, width), wide)
                    == encoder.edge_indices.east@
                &&& stream_codes(counted_bytes(s, north, 1, width), wide)
                    == encoder.edge_indices.north@
            }
        }),
{
    let wide = needs_wide_indices(encoder.vertices.u@.len() as int);
    let west = edge_bytes(encoder.edge_indices.west@, wide);
    let south = edge_bytes(encoder.edge_indices.south@, wide);
    let east = edge_bytes(encoder.edge_indices.east@, wide);
    let north = edge_bytes(encoder.edge_indices.north@, wide);
    lemma_split4(west, south, east, north);
    let end = at + encoder.all_edge_bytes().len();
    let i = west.len() as int;
    let j = i + south.len();
    let k = j + east.len();
    lemma_part_of_part(s, at, end, 0, i);
    lemma_part_of_part(s, at, end, i, j);
    lemma_part_of_part(s, at, end, j, k);
    lemma_part_of_part(s, at, end, k, end - at);
    lemma_edge(s, at, encoder.edge_indices.west@, wide);
    lemma_edge(s, at + i, encoder.edge_indices.south@, wide);
    lemma_edge(s, at + j, encoder.edge_indices.east@, wide);
    lemma_edge(s, at + k, encoder.edge_indices.north@, wide);
}

/// What the places of an encoded mesh hold.
spec fn holds_mesh(s: Seq<u8>, encoder: QuantizedMeshEncoder, options: EncodeOptions) -> bool {
    let l = layout(s);
    let n = encoder.vertices.u@.len() as int;
    let wide = needs_wide_indices(n);
    &&& l.vertex_count == n
    &&& l.width == index_width(wide)
    &&& header_of(s) == encoder.header
    &&& s.subrange(92, 92 + 2 * n) == bytes16(delta_codes(encoder.vertices.u@))
    &&& s.subrange(92 + 2 * n, 92 + 4 * n) == bytes16(delta_codes(encoder.vertices.v@))
    &&& s.subrange(92 + 4 * n, 92 + 6 * n) == bytes16(delta_codes(encoder.vertices.height@))
    &&& stream_codes(counted_bytes(s, l.triangles, 3, l.width), wide) == high_water_codes(
        encoder.indices@,
    )
    &&& stream_codes(counted_bytes(s, l.west, 1, l.width), wide) == encoder.edge_indices.west@
    &&& stream_codes(counted_bytes(s, l.south, 1, l.width), wide) == encoder.edge_indices.south@
    &&& stream_codes(counted_bytes(s, l.east, 1, l.width), wide) == encoder.edge_indices.east@
    &&& stream_codes(counted_bytes(s, l.north, 1, l.width), wide) == encoder.edge_indices.north@
    &&& extensions_from(s, l.extensions, n, no_extensions()) == Ok::<
        ExtensionsModel,
        DecodeErrorModel,
    >(kept_extensions(options, n))
}

proof fn lemma_places(s: Seq<u8>, encoder: QuantizedMeshEncoder, options: EncodeOptions)
    requires
        counts_fit(encoder),
        options_fit(options),
        s == encoder.mesh_bytes() + options.extension_bytes(),
    ensures
        sections_fit(s),
        mesh_fits(encoder) ==> holds_mesh(s, encoder, options),
        layout(s).extensions == encoder.mesh_bytes().len(),
{
    let n = encoder.vertices.u@.len() as int;
    let wide = needs_wide_indices(n);
    let width = index_width(wide);
    let codes = high_water_codes(encoder.indices@);
    let count = (encoder.indices@.len() / 3) as int;
    lemma_header_len(encoder.header);
    lemma_split6(
        encoder.header.bytes(),
        encoder.vertex_bytes(),
        padding(n),
        encoder.triangle_bytes(),
        encoder.all_edge_bytes(),
        options.extension_bytes(),
    );
    lemma_vertex_sections(encoder, s);
    law_header_read_of_write(encoder.header, s);
    let l = layout(s);
    assert(l.vertex_count == n && l.width == width);
    assert(l.triangles == 92 + 6 * n + padding(n).len());
    lemma_counted(s, l.triangles, count, 3, codes, wide);
    assert(l.west == l.triangles + encoder.triangle_bytes().len());
    lemma_edge_sections(encoder, s, l.west);
    lemma_extensions(s, l.extensions, options, n);
}

#[verifier::rlimit(40)]
proof fn lemma_mesh_held(s: Seq<u8>, encoder: QuantizedMeshEncoder, options: EncodeOptions)
    requires
        mesh_fits(encoder),
        sections_fit(s),
        holds_mesh(s, encoder, options),
    ensures
        sections_of(s) matches Ok(sections) && mesh_of(sections) == encoded_mesh(
            encoder,
            options,
        ),
{
    let n = encoder.vertices.u@.len() as int;
    lemma_codes16_of_bytes16(delta_codes(encoder.vertices.u@));
    lemma_codes16_of_bytes16(delta_codes(encoder.vertices.v@));
    lemma_codes16_of_bytes16(delta_codes(encoder.vertices.height@));
    law_delta_roundtrip(encoder.vertices.u@);
    law_delta_roundtrip(encoder.vertices.v@);
    law_delta_roundtrip(encoder.vertices.height@);
    law_high_water_roundtrip(encoder.indices@);
    let kept = kept_extensions(options, n);
    if let Some(normals) = kept.normals {
        assert(normals.take(2 * (normals.len() / 2) as int) =~= normals);
    }
    assert(with_paired_normals(kept) == kept);
}

/// Where everything stands in an encoded mesh. The number of vertices follows the header at 88,
/// and the steps of `u`, `v` and the heights follow it, two bytes each. Meshes of more than
/// 65535 vertices have indices of four bytes and start the triangles at a multiple of four;
/// other meshes have indices of two bytes. Then come the number of triangles and the distances of
/// their indices, and the edges west, south, east and north, each with its number of indices
/// first. The extensions end the file.
pub proof fn law_mesh_layout(
    encoder: QuantizedMeshEncoder,
    options: EncodeOptions,
    i: int,
)
    requires
        counts_fit(encoder),
        options_fit(options),
    ensures
        ({
            let s = encoder.mesh_bytes() + options.extension_bytes();
            let n = encoder.vertices.u@.len() as int;
            let width: int = if n > 65535 { 4 } else { 2 };
            let triangles = 92 + 6 * n + (if n > 65535 && n % 2 == 1 { 2int } else { 0 });
            let west = triangles + 4 + width * encoder.indices@.len();
            let south = west + 4 + width * encoder.edge_indices.west@.len();
            let east = south + 4 + width * encoder.edge_indices.south@.len();
            let north = east + 4 + width * encoder.edge_indices.east@.len();
            let end = north + 4 + width * encoder.edge_indices.north@.len();
            let index = |at: int| if n > 65535 { at32(s, at) as int } else { at16(s, at) as int };
            let low = |x: u32| if n > 65535 { x as int } else { (x % 0x1_0000) as int };
            &&& s.subrange(0, 88) == encoder.header.bytes()
            &&& at32(s, 88) == n
            &&& 0 <= i < n ==> {
                &&& at16(s, 92 + 2 * i) == delta_codes(encoder.vertices.u@)[i]
                &&& at16(s, 92 + 2 * n + 2 * i) == delta_codes(encoder.vertices.v@)[i]
                &&& at16(s, 92 + 4 * n + 2 * i) == delta_codes(encoder.vertices.height@)[i]
            }
            &&& forall|j: int| 92 + 6 * n <= j < triangles ==> #[trigger] s[j] == 0
            &&& 3 * at32(s, triangles) == encoder.indices@.len()
            &&& 0 <= i < encoder.indices@.len() ==> index(triangles + 4 + width * i) == low(
                high_water_codes(encoder.indices@)[i],
            )
            &&& at32(s, west) == encoder.edge_indices.west@.len()
            &&& 0 <= i < encoder.edge_indices.west@.len() ==> index(west + 4 + width * i) == low(
                encoder.edge_indices.west@[i],
            )
            &&& at32(s, south) == encoder.edge_indices.south@.len()
            &&& 0 <= i < encoder.edge_indices.south@.len() ==> index(south + 4 + width * i) == low(
                encoder.edge_indices.south@[i],
            )
            &&& at32(s, east) == encoder.edge_indices.east@.len()
            &&& 0 <= i < encoder.edge_indices.east@.len() ==> index(east + 4 + width * i) == low(
                encoder.edge_indices.east@[i],
            )
            &&& at32(s, north) == encoder.edge_indices.north@.len()
            &&& 0 <= i < encoder.edge_indices.north@.len() ==> index(north + 4 + width * i) == low(
                encoder.edge_indices.north@[i],
            )
            &&& end <= s.len()
            &&& s.subrange(end, s.len() as int) == options.extension_bytes()
        }),
{
    let s = encoder.mesh_bytes() + options.extension_bytes();
    let n = encoder.vertices.u@.len() as int;
    let wide = n > 65535;
    let width: int = if wide { 4 } else { 2 };
    let codes = high_water_codes(encoder.indices@);
    let count = (encoder.indices@.len() / 3) as int;
    let e = encoder.edge_indices;
    lemma_header_len(encoder.header);
    lemma_split6(
        encoder.header.bytes(),
        encoder.vertex_bytes(),
        padding(n),
        encoder.triangle_bytes(),
        encoder.all_edge_bytes(),
        options.extension_bytes(),
    );
    lemma_vertex_sections(encoder, s);
    lemma_short_in_part(s, 92, delta_codes(encoder.vertices.u@), i);
    lemma_short_in_part(s, 92 + 2 * n, delta_codes(encoder.vertices.v@), i);
    lemma_short_in_part(s, 92 + 4 * n, delta_codes(encoder.vertices.height@), i);
    let triangles = 92 + 6 * n + padding(n).len();
    assert(padding(n).len() == if wide && n % 2 == 1 { 2int } else { 0 });
    assert forall|j: int| 92 + 6 * n <= j < triangles implies #[trigger] s[j] == 0 by {
        assert(s[j] == padding(n)[j - 92 - 6 * n]);
    }
    lemma_list_in_part(s, triangles, count, codes, wide, i);
    let west = triangles + 4 + width * codes.len();
    let wb = edge_bytes(e.west@, wide);
    let sb = edge_bytes(e.south@, wide);
    let eb = edge_bytes(e.east@, wide);
    let nb = edge_bytes(e.north@, wide);
    lemma_split4(wb, sb, eb, nb);
    lemma_index_bytes_len(e.west@, wide);
    lemma_index_bytes_len(e.south@, wide);
    lemma_index_bytes_len(e.east@, wide);
    lemma_index_bytes_len(e.north@, wide);
    lemma_index_bytes_len(codes, wide);
    let end = west + encoder.all_edge_bytes().len();
    let south = west + wb.len();
    let east = south + sb.len();
    let north = east + eb.len();
    lemma_part_of_part(s, west, end, 0, south - west);
    lemma_part_of_part(s, west, end, south - west, east - west);
    lemma_part_of_part(s, west, end, east - west, north - west);
    lemma_part_of_part(s, west, end, north - west, end - west);
    lemma_list_in_part(s, west, e.west@.len() as int, e.west@, wide, i);
    lemma_list_in_part(s, south, e.south@.len() as int, e.south@, wide, i);
    lemma_list_in_part(s, east, e.east@.len() as int, e.east@, wide, i);
    lemma_list_in_part(s, north, e.north@.len() as int, e.north@, wide, i);
}

proof fn lemma_index_bytes_len(list: Seq<u32>, wide: bool)
    ensures
        index_bytes(list, wide).len() == list.len() * (if wide { 4int } else { 2 }),
{
    law_index_bytes(list, 0);
}

/// A 16-bit integer of a run stands at its place in the file.
proof fn lemma_short_in_part(s: Seq<u8>, at: int, codes: Seq<u16>, i: int)
    requires
        0 <= at,
        at + 2 * codes.len() <= s.len(),
        s.subrange(at, at + 2 * codes.len()) == bytes16(codes),
    ensures
        0 <= i < codes.len() ==> at16(s, at + 2 * i) == codes[i],
{
    if 0 <= i < codes.len() {
        let part = s.subrange(at, at + 2 * codes.len());
        law_run_of_integers(codes, Seq::empty(), part, i);
        law_read_little_endian_digits(s, at + 2 * i);
        assert(part[2 * i] == s[at + 2 * i] && part[2 * i + 1] == s[at + 2 * i + 1]);
    }
}

/// The count and the indices of a list stand at their places in the file.
proof fn lemma_list_in_part(
    s: Seq<u8>,
    at: int,
    count: int,
    list: Seq<u32>,
    wide: bool,
    i: int,
)
    requires
        0 <= at,
        0 <= count <= u32::MAX,
        at + 4 + index_bytes(list, wide).len() <= s.len(),
        s.subrange(at, at + 4 + index_bytes(list, wide).len()) == le32(count as u32)
            + index_bytes(list, wide),
    ensures
        at32(s, at) == count,
        0 <= i < list.len() && wide ==> at32(s, at + 4 + 4 * i) == list[i],
        0 <= i < list.len() && !wide ==> at16(s, at + 4 + 2 * i) == list[i] % 0x1_0000,
{
    let body = index_bytes(list, wide);
    let part = s.subrange(at, at + 4 + body.len());
    lemma_index_bytes_len(list, wide);
    assert(s.subrange(at, at + 4) =~= le32(count as u32)) by {
        assert(s.subrange(at, at + 4) =~= part.subrange(0, 4));
    }
    lemma_at32_of_le32(s, at, count as u32);
    if 0 <= i < list.len() {
        law_index_bytes(list, i);
        let width: int = if wide { 4 } else { 2 };
        assert forall|k: int| 0 <= k < width implies #[trigger] s[at + 4 + width * i + k]
            == body[width * i + k] by {
            assert(part[4 + width * i + k] == body[width * i + k]);
        }
        assert(s[at + 4 + width * i + 0] == body[width * i + 0]);
        assert(s[at + 4 + width * i + 1] == body[width * i + 1]);
        if wide {
            assert(s[at + 4 + width * i + 2] == body[width * i + 2]);
            assert(s[at + 4 + width * i + 3] == body[width * i + 3]);
        }
        law_read_little_endian_digits(s, at + 4 + width * i);
        law_read_little_endian_digits(body, width * i);
    }
}

/// How extensions stand in a file: normals, water mask and metadata, as far as there are any, in
/// this order. Each has a byte for its name, 1, 2 or 4, then the length of its content, then its
/// content: two bytes a normal; one byte for the whole tile or one for each of 65536 cells; the
/// length of the text and the text itself.
pub proof fn law_extension_layout(options: EncodeOptions)
    requires
        options_fit(options),
    ensures
        options.extension_bytes() == options.normals_bytes() + options.water_mask_bytes()
            + options.metadata_bytes(),
        ({
            let s = options.normals_bytes();
            match options.normals {
                Some(normals) if options.include_normals => {
                    &&& s.len() == 5 + 2 * normals@.len()
                    &&& s[0] == 1
                    &&& at32(s, 1) == 2 * normals@.len()
                    &&& forall|i: int|
                        0 <= i < normals@.len() ==> (#[trigger] normals@[i])@[0] == s[5 + 2 * i]
                            && normals@[i]@[1] == s[5 + 2 * i + 1]
                },
                _ => s.len() == 0,
            }
        }),
        ({
            let s = options.water_mask_bytes();
            if options.include_water_mask {
                &&& s.len() >= 5
                &&& s[0] == 2
                &&& at32(s, 1) == s.len() - 5
                &&& match options.water_mask {
                    Some(WaterMask::Uniform(value)) => s.len() == 6 && s[5] == value,
                    Some(WaterMask::Grid(grid)) => s.len() == 5 + 65536 && s.subrange(5, 65541)
                        == grid@,
                    None => s.len() == 6 && s[5] == 0,
                }
            } else {
                s.len() == 0
            }
        }),
        ({
            let s = options.metadata_bytes();
            match options.metadata {
                Some(text) if options.include_metadata => {
                    &&& s.len() == 9 + encode_utf8(text@).len()
                    &&& s[0] == 4
                    &&& at32(s, 1) == 4 + encode_utf8(text@).len()
                    &&& at32(s, 5) == encode_utf8(text@).len()
                    &&& s.subrange(9, s.len() as int) == encode_utf8(text@)
                },
                _ => s.len() == 0,
            }
        }),
{
    if let Some(normals) = options.normals {
        if options.include_normals {
            let payload = flat(normals@);
            let s = options.normals_bytes();
            lemma_extension_parts(ExtensionId::OctEncodedVertexNormals, payload);
            assert forall|i: int| 0 <= i < normals@.len() implies (#[trigger] normals@[i])@[0]
                == s[5 + 2 * i] && normals@[i]@[1] == s[5 + 2 * i + 1] by {
                assert(s[5 + 2 * i] == payload[2 * i]);
                assert(s[5 + 2 * i + 1] == payload[2 * i + 1]);
                assert((2 * i) / 2 == i && (2 * i) % 2 == 0);
                assert((2 * i + 1) / 2 == i && (2 * i + 1) % 2 == 1);
            }
        }
    }
    if let Some(mask) = options.written_water_mask() {
        let payload = water_mask_payload(mask);
        lemma_extension_parts(ExtensionId::WaterMask, payload);
        assert(options.water_mask_bytes()[5] == payload[0]);
    }
    if let Some(text) = options.written_metadata() {
        let json = encode_utf8(text);
        let payload = metadata_payload(json);
        let s = options.metadata_bytes();
        lemma_extension_parts(ExtensionId::Metadata, payload);
        assert(s.subrange(5, 9) =~= le32(json.len() as u32)) by {
            assert(s.subrange(5, 9) =~= payload.subrange(0, 4));
        }
        lemma_at32_of_le32(s, 5, json.len() as u32);
        assert(s.subrange(9, s.len() as int) =~= json) by {
            assert(s.subrange(5, s.len() as int).subrange(4, payload.len() as int) =~= s.subrange(
                9,
                s.len() as int,
            ));
        }
    }
}

proof fn lemma_extension_parts(id: ExtensionId, payload: Seq<u8>)
    requires
        payload.len() <= u32::MAX,
    ensures
        ({
            let s = extension(id, payload.len() as u32, payload);
            &&& s.len() == 5 + payload.len()
            &&& s[0] == id.spec_byte()
            &&& at32(s, 1) == payload.len()
            &&& s.subrange(5, s.len() as int) == payload
        }),
{
    let s = extension(id, payload.len() as u32, payload);
    assert(s.subrange(1, 5) =~= le32(payload.len() as u32));
    lemma_at32_of_le32(s, 1, payload.len() as u32);
    assert(s.subrange(5, s.len() as int) =~= payload);
}

/// Reading a mesh that is not compressed gives back the mesh and the extensions that were
/// written.
pub proof fn law_parse_of_encode(encoder: QuantizedMeshEncoder, options: EncodeOptions)
    requires
        mesh_fits(encoder),
        options_fit(options),
    ensures
        sections_of(encoder.mesh_bytes() + options.extension_bytes()) matches Ok(sections)
            && mesh_of(sections) == encoded_mesh(encoder, options),
{
    let s = encoder.mesh_bytes() + options.extension_bytes();
    lemma_places(s, encoder, options);
    lemma_mesh_held(s, encoder, options);
}

/// Decoding gives back the mesh and the extensions that were written: always from a compressed
/// file, and from a plain one unless its header starts like a gzip file.
pub proof fn law_decode_of_encode(
    encoder: QuantizedMeshEncoder,
    options: EncodeOptions,
    data: Seq<u8>,
)
    requires
        mesh_fits(encoder),
        options_fit(options),
        ({
            let plain = encoder.mesh_bytes() + options.extension_bytes();
            ||| data == plain && !has_gzip_magic(encoder.header.bytes())
            ||| has_gzip_magic(data) && gunzip_result(data) == Ok::<Seq<u8>, Seq<char>>(plain)
        }),
    ensures
        decoded(data) == Ok::<MeshModel, DecodeErrorModel>(encoded_mesh(encoder, options)),
{
    law_parse_of_encode(encoder, options);
    lemma_header_len(encoder.header);
    let plain = encoder.mesh_bytes() + options.extension_bytes();
    assert(plain[0] == encoder.header.bytes()[0]);
    assert(plain[1] == encoder.header.bytes()[1]);
}

/// The start of an integer's bytes is all that it depends on.
proof fn lemma_at32_of_take(s: Seq<u8>, n: int, at: int)
    requires
        0 <= at,
        at + 4 <= n <= s.len(),
    ensures
        at32(s.take(n), at) == at32(s, at),
{
    assert(s.take(n) =~= s.subrange(0, n));
    lemma_at32_of_subrange(s, 0, n, at);
}

/// Where the extension at `at` ends.
pub open spec fn extension_end(s: Seq<u8>, at: int) -> int {
    at + 5 + at32(s, at + 1)
}

/// Complete extensions, one after the other, stand from `at` to `end`.
pub open spec fn is_run_of_extensions(s: Seq<u8>, at: int, end: int) -> bool
    decreases end - at,
{
    ||| at == end
    ||| end - at >= 5 && extension_end(s, at) <= end && is_run_of_extensions(
        s,
        extension_end(s, at),
        end,
    )
}

/// What stands from `at` on is too short for an extension, or for the length it declares.
pub open spec fn is_cut_off(s: Seq<u8>, at: int) -> bool {
    s.len() - at < 5 || s.len() < extension_end(s, at)
}

/// Every extension of the run from `at` to `end` can be read by itself.
pub open spec fn are_readable(s: Seq<u8>, at: int, end: int, vertex_count: int) -> bool
    decreases end - at,
{
    let next = extension_end(s, at);
    at < next <= end ==> {
        &&& with_extension(no_extensions(), s[at], s.subrange(at + 5, next), vertex_count) is Ok
        &&& are_readable(s, next, end, vertex_count)
    }
}

/// An extension that is cut off is dropped without an error, and changes nothing of the
/// extensions before it: they are read as if the file ended where it starts. Where they can be
/// read, reading succeeds.
pub proof fn law_cut_off_extension_is_dropped(
    s: Seq<u8>,
    at: int,
    end: int,
    vertex_count: int,
    found: ExtensionsModel,
)
    requires
        0 <= at <= end <= s.len(),
        is_run_of_extensions(s, at, end),
        is_cut_off(s, end),
    ensures
        extensions_from(s, at, vertex_count, found) == extensions_from(
            s.take(end),
            at,
            vertex_count,
            found,
        ),
        are_readable(s, at, end, vertex_count) ==> extensions_from(
            s,
            at,
            vertex_count,
            found,
        ) is Ok,
    decreases end - at,
{
    let head = s.take(end);
    if at != end {
        let next = extension_end(s, at);
        lemma_at32_of_take(s, end, at + 1);
        let payload = s.subrange(at + 5, next);
        assert(head.subrange(at + 5, next) =~= payload);
        assert(head[at] == s[at]);
        match with_extension(found, s[at], payload, vertex_count) {
            Ok(more) => {
                law_cut_off_extension_is_dropped(s, next, end, vertex_count, more);
            },
            Err(_) => {},
        }
    }
}

/// The places of a file depend on its start alone, as long as they lie in it.
proof fn lemma_layout_of_take(s: Seq<u8>, n: int)
    requires
        0 <= n <= s.len(),
        sections_fit(s.take(n)) || (sections_fit(s) && layout(s).extensions <= n),
    ensures
        layout(s.take(n)) == layout(s),
        sections_fit(s.take(n)),
        sections_fit(s),
        92 <= layout(s).triangles,
        layout(s).triangles <= layout(s).west <= layout(s).south <= layout(s).east,
        layout(s).east <= layout(s).north <= layout(s).extensions <= n,
{
    let head = s.take(n);
    let whole = sections_fit(s) && layout(s).extensions <= n;
    let l = if whole {
        layout(s)
    } else {
        layout(head)
    };
    lemma_counted_end(s, l.triangles, 3, l.width);
    lemma_counted_end(s, l.west, 1, l.width);
    lemma_counted_end(s, l.south, 1, l.width);
    lemma_counted_end(s, l.east, 1, l.width);
    lemma_counted_end(s, l.north, 1, l.width);
    lemma_counted_end(head, l.triangles, 3, l.width);
    lemma_counted_end(head, l.west, 1, l.width);
    lemma_counted_end(head, l.south, 1, l.width);
    lemma_counted_end(head, l.east, 1, l.width);
    lemma_counted_end(head, l.north, 1, l.width);
    lemma_at32_of_take(s, n, 88);
    lemma_at32_of_take(s, n, l.triangles);
    lemma_at32_of_take(s, n, l.west);
    lemma_at32_of_take(s, n, l.south);
    lemma_at32_of_take(s, n, l.east);
    lemma_at32_of_take(s, n, l.north);
}

/// A counted section takes at least the four bytes of its count.
proof fn lemma_counted_end(s: Seq<u8>, at: int, per_item: int, width: int)
    requires
        per_item >= 0,
        width >= 0,
    ensures
        counted_end(s, at, per_item, width) >= at + 4,
{
    let count = at32(s, at) as int;
    assert(count * per_item * width >= 0) by (nonlinear_arith)
        requires
            count >= 0,
            per_item >= 0,
            width >= 0,
    ;
}

/// A file is read as if it ended where a cut-off extension starts.
pub proof fn law_parse_drops_cut_off_extension(s: Seq<u8>, end: int)
    requires
        sections_fit(s),
        layout(s).extensions <= end <= s.len(),
        is_run_of_extensions(s, layout(s).extensions, end),
        is_cut_off(s, end),
    ensures
        sections_of(s) == sections_of(s.take(end)),
{
    let head = s.take(end);
    let l = layout(s);
    lemma_layout_of_take(s, end);
    law_cut_off_extension_is_dropped(s, l.extensions, end, l.vertex_count, no_extensions());
    law_header_write_of_read(s);
    assert(head.subrange(0, 88) =~= s.subrange(0, 88));
    law_header_read_of_write(header_of(s), head);
    lemma_at32_of_take(s, end, 88);
    lemma_at32_of_take(s, end, l.triangles);
    assert(head.subrange(92, 92 + 2 * l.vertex_count) =~= s.subrange(92, 92 + 2 * l.vertex_count));
    assert(head.subrange(92 + 2 * l.vertex_count, 92 + 4 * l.vertex_count) =~= s.subrange(
        92 + 2 * l.vertex_count,
        92 + 4 * l.vertex_count,
    ));
    assert(head.subrange(92 + 4 * l.vertex_count, 92 + 6 * l.vertex_count) =~= s.subrange(
        92 + 4 * l.vertex_count,
        92 + 6 * l.vertex_count,
    ));
    assert(head.subrange(l.triangles + 4, l.west) =~= s.subrange(l.triangles + 4, l.west));
    assert(head.subrange(l.west + 4, l.south) =~= s.subrange(l.west + 4, l.south));
    assert(head.subrange(l.south + 4, l.east) =~= s.subrange(l.south + 4, l.east));
    assert(head.subrange(l.east + 4, l.north) =~= s.subrange(l.east + 4, l.north));
    assert(head.subrange(l.north + 4, l.extensions) =~= s.subrange(l.north + 4, l.extensions));
}

/// A file that ends before its extensions start is too short.
pub proof fn law_parse_of_prefix_fails(s: Seq<u8>, n: int)
    requires
        sections_fit(s),
        0 <= n < layout(s).extensions,
        n <= s.len(),
    ensures
        sections_of(s.take(n)) == Err::<Sections, DecodeErrorModel>(
            DecodeErrorModel::UnexpectedEof,
        ),
{
    if sections_fit(s.take(n)) {
        lemma_layout_of_take(s, n);
    }
}

/// Every proper prefix of an encoded mesh without extensions is too short, whatever its
/// coordinates and indices are.
pub proof fn law_prefix_of_mesh_is_too_short(encoder: QuantizedMeshEncoder, n: int)
    requires
        counts_fit(encoder),
        0 <= n < encoder.mesh_bytes().len(),
    ensures
        sections_of(encoder.mesh_bytes().take(n)) == Err::<Sections, DecodeErrorModel>(
            DecodeErrorModel::UnexpectedEof,
        ),
        !has_gzip_magic(encoder.header.bytes()) ==> decoded(encoder.mesh_bytes().take(n)) == Err::<
            MeshModel,
            DecodeErrorModel,
        >(DecodeErrorModel::UnexpectedEof),
{
    let s = encoder.mesh_bytes();
    let options = no_options();
    assert(s =~= s + options.extension_bytes());
    lemma_places(s, encoder, options);
    law_parse_of_prefix_fails(s, n);
    lemma_header_len(encoder.header);
    if n >= 2 {
        assert(s.take(n)[0] == encoder.header.bytes()[0]);
        assert(s.take(n)[1] == encoder.header.bytes()[1]);
    }
}

/// Where everything is read from, whoever wrote the file. The number of vertices stands at 88, and
/// the steps of `u`, `v` and the heights follow it. The triangles start behind them, for more
/// than 65535 vertices at a multiple of four; then come the edges west, south, east and north,
/// each section with its count first. A file that ends before the last edge does is too short;
/// what follows that edge are extensions.
pub proof fn law_read_layout(s: Seq<u8>)
    ensures
        ({
            let n = at32(s, 88) as int;
            let width: int = if n > 65535 { 4 } else { 2 };
            let triangles = 92 + 6 * n + (if n > 65535 && n % 2 == 1 { 2int } else { 0 });
            let west = triangles + 4 + 3 * width * at32(s, triangles);
            let south = west + 4 + width * at32(s, west);
            let east = south + 4 + width * at32(s, south);
            let north = east + 4 + width * at32(s, east);
            let end = north + 4 + width * at32(s, north);
            if s.len() < 92 || s.len() < end {
                sections_of(s) == Err::<Sections, DecodeErrorModel>(
                    DecodeErrorModel::UnexpectedEof,
                )
            } else {
                match extensions_from(s, end, n, no_extensions()) {
                    Err(e) => sections_of(s) == Err::<Sections, DecodeErrorModel>(e),
                    Ok(extensions) => sections_of(s) matches Ok(x) && {
                        &&& x.header == header_of(s)
                        &&& x.vertex_count == n
                        &&& x.wide == (n > 65535)
                        &&& x.triangle_count == at32(s, triangles)
                        &&& x.u == s.subrange(92, 92 + 2 * n)
                        &&& x.v == s.subrange(92 + 2 * n, 92 + 4 * n)
                        &&& x.height == s.subrange(92 + 4 * n, 92 + 6 * n)
                        &&& x.indices == s.subrange(triangles + 4, west)
                        &&& x.west == s.subrange(west + 4, south)
                        &&& x.south == s.subrange(south + 4, east)
                        &&& x.east == s.subrange(east + 4, north)
                        &&& x.north == s.subrange(north + 4, end)
                        &&& x.extensions == extensions
                    },
                }
            }
        }),
{
    let l = layout(s);
    assert(l.triangles == 92 + 6 * l.vertex_count + (if l.vertex_count > 65535 && l.vertex_count
        % 2 == 1 {
        2int
    } else {
        0
    }));
    lemma_counted_end(s, l.triangles, 3, l.width);
    lemma_counted_end(s, l.west, 1, l.width);
    lemma_counted_end(s, l.south, 1, l.width);
    lemma_counted_end(s, l.east, 1, l.width);
    lemma_counted_end(s, l.north, 1, l.width);
    lemma_counted_size(at32(s, l.triangles) as int, 3, l.width);
    lemma_counted_size(at32(s, l.west) as int, 1, l.width);
    lemma_counted_size(at32(s, l.south) as int, 1, l.width);
    lemma_counted_size(at32(s, l.east) as int, 1, l.width);
    lemma_counted_size(at32(s, l.north) as int, 1, l.width);
}

proof fn lemma_counted_size(count: int, per_item: int, width: int)
    ensures
        count * per_item * width == per_item * width * count,
{
    assert(count * per_item * width == per_item * width * count) by (nonlinear_arith);
}

/// What an extension says. Normals are kept up to two bytes a vertex. A water mask is one byte for
/// the whole tile or one for each of 65536 cells; one of another size is land. Metadata are a
/// length and a text of that length, with anything behind it left out. Other names say nothing.
/// An extension takes the place of an earlier one of its name and leaves the others alone.
pub proof fn law_extension_meaning(
    found: ExtensionsModel,
    id: u8,
    payload: Seq<u8>,
    vertex_count: int,
)
    requires
        vertex_count >= 0,
    ensures
        ({
            let read = with_extension(found, id, payload, vertex_count);
            &&& id != 4 ==> read is Ok
            &&& read matches Ok(next) ==> {
                &&& id != 1 ==> next.normals == found.normals
                &&& id != 2 ==> next.water_mask == found.water_mask
                &&& id != 4 ==> next.metadata == found.metadata
                &&& id == 1 ==> next.normals is Some && next.normals->0.is_prefix_of(payload)
                    && next.normals->0.len() <= 2 * vertex_count && (next.normals->0.len()
                    == payload.len() || next.normals->0.len() == 2 * vertex_count)
                &&& id == 2 ==> match next.water_mask {
                    Some(WaterMaskModel::Uniform(value)) => if payload.len() == 1 {
                        value == payload[0]
                    } else {
                        value == 0 && payload.len() != 65536
                    },
                    Some(WaterMaskModel::Grid(grid)) => grid == payload && payload.len() == 65536,
                    None => false,
                }
                &&& id == 4 ==> {
                    &&& payload.len() >= 4 + at32(payload, 0)
                    &&& next.metadata is Some
                    &&& encode_utf8(next.metadata->0) == payload.subrange(
                        4,
                        4 + at32(payload, 0),
                    )
                }
            }
            &&& id == 4 && (payload.len() < 4 || payload.len() < 4 + at32(payload, 0)) ==> read
                == Err::<ExtensionsModel, DecodeErrorModel>(DecodeErrorModel::UnexpectedEof)
        }),
{
    if id == 4 && with_extension(found, id, payload, vertex_count) is Ok {
        let json = payload.subrange(4, 4 + at32(payload, 0));
        vstd::utf8::decode_utf8_encode_utf8(json);
    }
}

/// What a decoded mesh holds: each coordinate is a step of its stream away from the one before,
/// each index lies its distance below the lowest unused one, and the indices of the edges are
/// taken as they stand.
pub proof fn law_decoded_values(x: Sections, i: int)
    ensures
        mesh_of(x).header == x.header,
        0 <= i < x.u.len() / 2 ==> (mesh_of(x).u[i] - (if i == 0 {
            0
        } else {
            mesh_of(x).u[i - 1] as int
        }) - unzigzag(at16(x.u, 2 * i) as int)) % 0x1_0000 == 0,
        0 <= i < x.v.len() / 2 ==> (mesh_of(x).v[i] - (if i == 0 {
            0
        } else {
            mesh_of(x).v[i - 1] as int
        }) - unzigzag(at16(x.v, 2 * i) as int)) % 0x1_0000 == 0,
        0 <= i < x.height.len() / 2 ==> (mesh_of(x).height[i] - (if i == 0 {
            0
        } else {
            mesh_of(x).height[i - 1] as int
        }) - unzigzag(at16(x.height, 2 * i) as int)) % 0x1_0000 == 0,
        mesh_of(x).u.len() == x.u.len() / 2,
        mesh_of(x).v.len() == x.v.len() / 2,
        mesh_of(x).height.len() == x.height.len() / 2,
        mesh_of(x).indices == high_water_values(0, stream_codes(x.indices, x.wide)),
        mesh_of(x).west == stream_codes(x.west, x.wide),
        mesh_of(x).south == stream_codes(x.south, x.wide),
        mesh_of(x).east == stream_codes(x.east, x.wide),
        mesh_of(x).north == stream_codes(x.north, x.wide),
{
    if 0 <= i < x.u.len() / 2 {
        law_delta_values_follow_steps(0, codes16(x.u), i);
    }
    if 0 <= i < x.v.len() / 2 {
        law_delta_values_follow_steps(0, codes16(x.v), i);
    }
    if 0 <= i < x.height.len() / 2 {
        law_delta_values_follow_steps(0, codes16(x.height), i);
    }
}

/// An index stream holds an index every four bytes if it is wide, else every two.
pub proof fn law_stream_codes(bytes: Seq<u8>, i: int)
    ensures
        stream_codes(bytes, true).len() == bytes.len() / 4,
        stream_codes(bytes, false).len() == bytes.len() / 2,
        0 <= i < bytes.len() / 4 ==> stream_codes(bytes, true)[i] == at32(bytes, 4 * i),
        0 <= i < bytes.len() / 2 ==> stream_codes(bytes, false)[i] == at16(bytes, 2 * i),
{
}

} // verus!
