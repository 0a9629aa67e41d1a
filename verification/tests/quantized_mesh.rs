use terrain_codec::decoding::{
    decompress_gzip, is_gzip, oct_pairs, DecodeError, DecodedMesh, HighWaterMarkIter, IndicesView,
    QuantizedMeshView, RawIndexIter, WaterMaskView, ZigzagDeltaIter,
};
use terrain_codec::encoding::{EncodeOptions, QuantizedMeshEncoder};
use terrain_codec::header::QuantizedMeshHeader;
use terrain_codec::streams::{is_high_water_encodable, zigzag_decode, zigzag_encode};
use terrain_codec::types::{
    AvailableRange, EdgeIndices, ExtensionId, QuantizedVertices, TileMetadata, WaterMask,
    QUANTIZED_MAX,
};

fn sample_mesh() -> (QuantizedMeshHeader, QuantizedVertices, Vec<u32>, EdgeIndices) {
    let header = QuantizedMeshHeader::default();
    let vertices = QuantizedVertices {
        u: vec![0, 32767, 0, 32767],
        v: vec![0, 0, 32767, 32767],
        height: vec![0, 0, 0, 0],
    };
    let indices = vec![0, 1, 2, 1, 3, 2];
    let edge_indices = EdgeIndices::from_vertices(&vertices);
    (header, vertices, indices, edge_indices)
}

fn sample_encoder() -> QuantizedMeshEncoder {
    let (header, vertices, indices, edge_indices) = sample_mesh();
    QuantizedMeshEncoder::new(header, vertices, indices, edge_indices)
}

fn plain_options() -> EncodeOptions {
    EncodeOptions {
        compression_level: 0,
        ..Default::default()
    }
}

/// The two bytes of a unit normal on the octahedron.
fn oct_encode_normal(normal: [f32; 3]) -> [u8; 2] {
    let [mut x, mut y, z] = normal;
    let inv_l1 = 1.0 / (x.abs() + y.abs() + z.abs());
    x *= inv_l1;
    y *= inv_l1;
    if z < 0.0 {
        let ox = x;
        x = (1.0 - y.abs()) * if ox >= 0.0 { 1.0 } else { -1.0 };
        y = (1.0 - ox.abs()) * if y >= 0.0 { 1.0 } else { -1.0 };
    }
    let encode = |v: f32| ((v * 0.5 + 0.5) * 255.0).clamp(0.0, 255.0) as u8;
    [encode(x), encode(y)]
}

/// The height of the unit normal of two bytes on the octahedron.
fn oct_decoded_z(encoded: [u8; 2]) -> f32 {
    let x = encoded[0] as f32 / 255.0 * 2.0 - 1.0;
    let y = encoded[1] as f32 / 255.0 * 2.0 - 1.0;
    let z = 1.0 - x.abs() - y.abs();
    assert!(z >= 0.0);
    z / (x * x + y * y + z * z).sqrt()
}

#[test]
fn test_zigzag_encode() {
    assert_eq!(zigzag_encode(0), 0);
    assert_eq!(zigzag_encode(-1), 1);
    assert_eq!(zigzag_encode(1), 2);
    assert_eq!(zigzag_encode(-2), 3);
    assert_eq!(zigzag_encode(2), 4);
}

#[test]
fn test_zigzag_roundtrip() {
    for i in -1000..1000 {
        assert_eq!(zigzag_decode(zigzag_encode(i)), i);
    }
}

#[test]
fn zigzag_codes_of_extremes() {
    assert_eq!(zigzag_encode(i32::MAX), u32::MAX - 1);
    assert_eq!(zigzag_encode(i32::MIN), u32::MAX);
    assert_eq!(zigzag_decode(u32::MAX), i32::MIN);
    assert_eq!(zigzag_decode(u32::MAX - 1), i32::MAX);
}

#[test]
fn test_quantized_vertices() {
    let mut vertices = QuantizedVertices::new();
    assert!(vertices.is_empty());
    vertices.push(0, 0, 100);
    vertices.push(QUANTIZED_MAX, QUANTIZED_MAX, 200);
    assert_eq!(vertices.len(), 2);
    assert_eq!(vertices.u, vec![0, QUANTIZED_MAX]);
    assert_eq!(vertices.v, vec![0, QUANTIZED_MAX]);
    assert_eq!(vertices.height, vec![100, 200]);
}

#[test]
fn new_vertices_are_empty_with_or_without_room() {
    assert!(QuantizedVertices::with_capacity(9).is_empty());
    assert!(QuantizedVertices::default().is_empty());
}

#[test]
fn test_edge_indices_extraction() {
    let vertices = QuantizedVertices {
        u: vec![0, QUANTIZED_MAX, 0, QUANTIZED_MAX],
        v: vec![0, 0, QUANTIZED_MAX, QUANTIZED_MAX],
        height: vec![0, 0, 0, 0],
    };
    let edges = EdgeIndices::from_vertices(&vertices);
    assert_eq!(edges.west, vec![0, 2]);
    assert_eq!(edges.east, vec![1, 3]);
    assert_eq!(edges.south, vec![0, 1]);
    assert_eq!(edges.north, vec![2, 3]);
}

#[test]
fn edges_are_sorted_and_stable() {
    let vertices = QuantizedVertices {
        u: vec![0, 5, 0, 0, 0, 0],
        v: vec![900, 0, 20, 900, 0, 20],
        height: vec![0; 6],
    };
    let edges = EdgeIndices::from_vertices(&vertices);
    assert_eq!(edges.west, vec![4, 2, 5, 0, 3]);
    assert_eq!(edges.south, vec![4, 1]);
    assert_eq!(edges.east, Vec::<u32>::new());
    assert_eq!(edges.north, Vec::<u32>::new());
    assert_eq!(EdgeIndices::new().west, Vec::<u32>::new());
    assert_eq!(EdgeIndices::default().north, Vec::<u32>::new());
}

#[test]
fn test_header_serialization_roundtrip() {
    let header = QuantizedMeshHeader {
        center: [1.0f64.to_bits(), 2.0f64.to_bits(), 3.0f64.to_bits()],
        min_height: 100.0f32.to_bits(),
        max_height: 200.0f32.to_bits(),
        bounding_sphere_center: [4.0f64.to_bits(), 5.0f64.to_bits(), 6.0f64.to_bits()],
        bounding_sphere_radius: 1000.0f64.to_bits(),
        horizon_occlusion_point: [0.1f64.to_bits(), 0.2f64.to_bits(), 0.3f64.to_bits()],
    };
    let bytes = header.to_bytes();
    assert_eq!(bytes.len(), 88);
    let parsed = QuantizedMeshHeader::from_bytes(&bytes).unwrap();
    assert_eq!(header.center, parsed.center);
    assert_eq!(header.min_height, parsed.min_height);
    assert_eq!(header.max_height, parsed.max_height);
    assert_eq!(header.bounding_sphere_center, parsed.bounding_sphere_center);
    assert_eq!(header.bounding_sphere_radius, parsed.bounding_sphere_radius);
    assert_eq!(header.horizon_occlusion_point, parsed.horizon_occlusion_point);
    assert_eq!(&bytes[0..8], &1.0f64.to_le_bytes());
    assert_eq!(&bytes[24..28], &100.0f32.to_le_bytes());
    assert_eq!(&bytes[80..88], &0.3f64.to_le_bytes());
}

#[test]
fn test_header_default() {
    let header = QuantizedMeshHeader::default();
    assert_eq!(f64::from_bits(header.center[0]), 0.0);
    assert_eq!(f64::from_bits(header.center[1]), 0.0);
    assert!((f64::from_bits(header.center[2]) - 6378137.0).abs() < 1.0);
    assert_eq!(f64::from_bits(header.horizon_occlusion_point[2]), 1.0);
}

#[test]
fn headers_need_all_their_bytes() {
    let bytes: Vec<u8> = (0..200).collect();
    assert!(QuantizedMeshHeader::from_bytes(&bytes[..87]).is_none());
    let header = QuantizedMeshHeader::from_bytes(&bytes).unwrap();
    assert_eq!(header.to_bytes()[..], bytes[..88]);
}

#[test]
fn test_encoder_basic() {
    let data = sample_encoder().encode_with_options(&plain_options());
    assert!(data.len() > 88);
    let parsed_header = QuantizedMeshHeader::from_bytes(&data).unwrap();
    assert_eq!(f32::from_bits(parsed_header.min_height), 0.0);
}

#[test]
fn encoded_bytes_of_a_small_mesh() {
    let data = sample_encoder().encode();
    let expected: Vec<u8> = vec![
        4, 0, 0, 0, // vertices
        0, 0, 0xfe, 0xff, 0xfd, 0xff, 0xfe, 0xff, // u
        0, 0, 0, 0, 0xfe, 0xff, 0, 0, // v
        0, 0, 0, 0, 0, 0, 0, 0, // heights
        2, 0, 0, 0, // triangles
        0, 0, 0, 0, 0, 0, 2, 0, 0, 0, 2, 0, // indices
        2, 0, 0, 0, 0, 0, 2, 0, // west
        2, 0, 0, 0, 0, 0, 1, 0, // south
        2, 0, 0, 0, 1, 0, 3, 0, // east
        2, 0, 0, 0, 2, 0, 3, 0, // north
    ];
    assert_eq!(&data[88..], &expected[..]);
}

#[test]
fn test_encoder_with_compression() {
    let compressed = sample_encoder().encode_with_options(&EncodeOptions {
        compression_level: 6,
        ..Default::default()
    });
    assert_eq!(&compressed[0..2], &[0x1f, 0x8b]);
}

#[test]
fn options_compress_unless_told_otherwise() {
    let options = EncodeOptions::default();
    assert_eq!(options.compression_level, 6);
    let encoder = sample_encoder();
    let compressed = encoder.encode_with_options(&options);
    assert!(is_gzip(&compressed));
    assert_eq!(decompress_gzip(&compressed).unwrap(), encoder.encode());
}

#[test]
fn test_encoder_with_extensions() {
    let encoder = sample_encoder();
    let normals = vec![oct_encode_normal([0.0, 0.0, 1.0]); 4];
    let data = encoder.encode_with_options(&EncodeOptions {
        compression_level: 0,
        include_normals: true,
        normals: Some(normals),
        include_water_mask: true,
        water_mask: Some(WaterMask::Uniform(0)),
        ..Default::default()
    });
    let without_ext = encoder.encode_with_options(&plain_options());
    assert!(data.len() > without_ext.len());
    let expected: Vec<u8> = vec![
        1, 8, 0, 0, 0, 127, 127, 127, 127, 127, 127, 127, 127, // normals
        2, 1, 0, 0, 0, 0, // water mask
    ];
    assert_eq!(&data[without_ext.len()..], &expected[..]);
}

#[test]
fn view_parses_uncompressed_mesh() {
    let (_, vertices, indices, _) = sample_mesh();
    let encoded = sample_encoder().encode_with_options(&plain_options());
    let view = QuantizedMeshView::parse(&encoded).expect("parse");
    assert_eq!(view.vertex_count as usize, vertices.u.len());
    assert_eq!(view.triangle_count as usize * 3, indices.len());
    assert!(!view.use_32bit_indices);
    let u: Vec<u16> = view.iter_u().collect();
    let v: Vec<u16> = view.iter_v().collect();
    let h: Vec<u16> = view.iter_height().collect();
    assert_eq!(u, vertices.u);
    assert_eq!(v, vertices.v);
    assert_eq!(h, vertices.height);
    let idx: Vec<u32> = view.indices.iter().collect();
    assert_eq!(idx, indices);
}

#[test]
fn owned_decode_roundtrips() {
    let (header, vertices, indices, edge_indices) = sample_mesh();
    let encoded = sample_encoder().encode_with_options(&plain_options());
    let decoded = DecodedMesh::decode(&encoded).expect("decode");
    assert_eq!(decoded.header.min_height, header.min_height);
    assert_eq!(decoded.vertices.u, vertices.u);
    assert_eq!(decoded.vertices.v, vertices.v);
    assert_eq!(decoded.vertices.height, vertices.height);
    assert_eq!(decoded.indices, indices);
    assert_eq!(decoded.edge_indices.west, edge_indices.west);
    assert_eq!(decoded.edge_indices.south, edge_indices.south);
    assert_eq!(decoded.edge_indices.east, edge_indices.east);
    assert_eq!(decoded.edge_indices.north, edge_indices.north);
}

#[test]
fn owned_decode_handles_gzip() {
    let (_, vertices, indices, _) = sample_mesh();
    let encoded = sample_encoder().encode_with_options(&EncodeOptions {
        compression_level: 6,
        ..Default::default()
    });
    assert_eq!(&encoded[0..2], &[0x1f, 0x8b]);
    let decoded = DecodedMesh::decode(&encoded).expect("decode");
    assert_eq!(decoded.vertices.u, vertices.u);
    assert_eq!(decoded.indices, indices);
}

#[test]
fn owned_decode_with_extensions() {
    let encoded = sample_encoder().encode_with_options(&EncodeOptions {
        compression_level: 0,
        include_normals: true,
        normals: Some(vec![oct_encode_normal([0.0, 0.0, 1.0]); 4]),
        include_water_mask: true,
        water_mask: Some(WaterMask::Uniform(128)),
        ..Default::default()
    });
    let decoded = DecodedMesh::decode(&encoded).expect("decode");
    let ns = decoded.extensions.normals.expect("normals");
    assert_eq!(ns.len(), 4);
    for n in ns {
        assert!(oct_decoded_z(n) > 0.9);
        assert_eq!(n, [127, 127]);
    }
    match decoded.extensions.water_mask.expect("water mask") {
        WaterMask::Uniform(v) => assert_eq!(v, 128),
        _ => panic!("expected uniform"),
    }
}

#[test]
fn every_level_decodes_to_the_same_mesh() {
    let grid: Vec<u8> = (0..65536u32).map(|i| (i % 251) as u8).collect();
    let encoder = sample_encoder();
    for level in 0..=9 {
        let encoded = encoder.encode_with_options(&EncodeOptions {
            include_normals: true,
            normals: Some(vec![[1, 2], [3, 4]]),
            include_water_mask: true,
            water_mask: Some(WaterMask::from_data(&grid)),
            include_metadata: true,
            metadata: Some("{\"available\":[\"\u{5bcc}\u{58eb}\"]}".to_string()),
            compression_level: level,
        });
        assert_eq!(is_gzip(&encoded), level != 0);
        let decoded = DecodedMesh::decode(&encoded).expect("decode");
        assert_eq!(decoded.indices, encoder.indices);
        assert_eq!(decoded.extensions.normals.unwrap(), vec![[1, 2], [3, 4]]);
        match decoded.extensions.water_mask.unwrap() {
            WaterMask::Grid(cells) => assert_eq!(&cells[..], &grid[..]),
            WaterMask::Uniform(_) => panic!("expected a grid"),
        }
        assert_eq!(
            decoded.extensions.metadata.unwrap(),
            "{\"available\":[\"\u{5bcc}\u{58eb}\"]}"
        );
    }
}

#[test]
fn extensions_are_written_only_when_asked_for() {
    let encoder = sample_encoder();
    let quiet = encoder.encode_with_options(&EncodeOptions {
        include_normals: false,
        normals: Some(vec![[1, 2]]),
        include_water_mask: false,
        water_mask: Some(WaterMask::Uniform(3)),
        include_metadata: true,
        metadata: None,
        compression_level: 0,
    });
    assert_eq!(quiet, encoder.encode());
    let land = encoder.encode_with_options(&EncodeOptions {
        include_water_mask: true,
        ..plain_options()
    });
    assert_eq!(&land[encoder.encode().len()..], &[2, 1, 0, 0, 0, 0]);
}

#[test]
fn readers_keep_one_normal_a_vertex() {
    let encoded = sample_encoder().encode_with_options(&EncodeOptions {
        include_normals: true,
        normals: Some(vec![[9, 9]; 7]),
        ..plain_options()
    });
    let decoded = DecodedMesh::decode(&encoded).unwrap();
    assert_eq!(decoded.extensions.normals.unwrap(), vec![[9, 9]; 4]);
}

#[test]
fn many_vertices_need_wide_indices() {
    let n = 65537usize;
    let vertices = QuantizedVertices {
        u: (0..n).map(|i| (i % 32768) as u16).collect(),
        v: vec![7; n],
        height: vec![0; n],
    };
    let indices: Vec<u32> = (0..(n as u32 - 2)).flat_map(|i| [i, i + 1, i + 2]).collect();
    assert!(is_high_water_encodable(&indices));
    let edges = EdgeIndices {
        west: vec![65536, 0],
        south: vec![],
        east: vec![70000],
        north: vec![1],
    };
    let encoder =
        QuantizedMeshEncoder::new(QuantizedMeshHeader::default(), vertices, indices, edges);
    let encoded = encoder.encode();
    // An odd number of vertices leaves two bytes to fill.
    assert_eq!(&encoded[92 + 6 * n..92 + 6 * n + 2], &[0, 0]);
    let view = QuantizedMeshView::parse(&encoded).unwrap();
    assert!(view.use_32bit_indices);
    let decoded = view.into_owned();
    assert_eq!(decoded.vertices.u, encoder.vertices.u);
    assert_eq!(decoded.indices, encoder.indices);
    assert_eq!(decoded.edge_indices.west, vec![65536, 0]);
    assert_eq!(decoded.edge_indices.east, vec![70000]);
}

#[test]
fn a_plain_file_that_starts_like_gzip_is_taken_for_gzip() {
    let mut encoder = sample_encoder();
    encoder.header.center[0] = 0x8b1f;
    let encoded = encoder.encode();
    assert!(is_gzip(&encoded));
    assert!(DecodedMesh::decode(&encoded).is_err());
    let view = QuantizedMeshView::parse(&encoded).unwrap();
    assert_eq!(view.into_owned().indices, encoder.indices);
}

#[test]
fn steps_that_are_too_long_lose_their_value() {
    let step = |value: u16| {
        let mut encoder = sample_encoder();
        encoder.vertices.height = vec![value, value, value, value];
        DecodedMesh::decode(&encoder.encode()).unwrap().vertices.height
    };
    assert_eq!(step(32767), vec![32767; 4]);
    assert_eq!(step(32768), vec![0; 4]);
}

#[test]
fn which_indices_can_be_encoded() {
    assert!(is_high_water_encodable(&[]));
    assert!(is_high_water_encodable(&[0, 0, 1, 0, 2, 1]));
    assert!(!is_high_water_encodable(&[1]));
    assert!(!is_high_water_encodable(&[0, 2]));
}

#[test]
fn short_files_are_refused() {
    let mut steep = sample_encoder();
    steep.vertices.u[0] = 65535; // a step that its code cannot hold
    steep.edge_indices.west.push(70000); // an index that two bytes cannot hold
    for encoded in [sample_encoder().encode(), steep.encode()] {
        for n in 0..encoded.len() {
            match QuantizedMeshView::parse(&encoded[..n]) {
                Err(DecodeError::UnexpectedEof) => {}
                _ => panic!("{n} bytes should be too few"),
            }
        }
        assert!(QuantizedMeshView::parse(&encoded).is_ok());
    }
}

#[test]
fn a_cut_off_extension_is_ignored() {
    let mut data = sample_encoder().encode();
    data.extend_from_slice(&[2, 1, 0, 0, 0, 77]); // water mask
    data.extend_from_slice(&[9, 1, 0, 0, 0, 5]); // unknown
    data.extend_from_slice(&[1, 200, 0, 0, 0, 5, 5]); // cut off
    let view = QuantizedMeshView::parse(&data).unwrap();
    assert!(view.extensions.normals_oct.is_none());
    match view.extensions.water_mask {
        Some(WaterMaskView::Uniform(77)) => {}
        _ => panic!("expected the water mask"),
    }
}

#[test]
fn a_cut_off_tail_changes_nothing() {
    let mut whole = sample_encoder().encode();
    whole.extend_from_slice(&[2, 1, 0, 0, 0, 77]);
    let next = [4u8, 9, 0, 0, 0, 5, 0, 0, 0, b'h', b'e', b'l', b'l', b'o'];
    for n in 0..next.len() {
        let mut data = whole.clone();
        data.extend_from_slice(&next[..n]);
        let decoded = DecodedMesh::decode(&data).unwrap();
        let expected = DecodedMesh::decode(&whole).unwrap();
        assert_eq!(decoded.indices, expected.indices);
        assert_eq!(decoded.extensions.metadata, None);
        match decoded.extensions.water_mask {
            Some(WaterMask::Uniform(77)) => {}
            _ => panic!("expected the water mask"),
        }
    }
    whole.extend_from_slice(&next);
    let decoded = DecodedMesh::decode(&whole).unwrap();
    assert!(decoded.extensions.metadata.is_some());
}

#[test]
fn a_water_mask_of_another_size_is_land() {
    let mut data = sample_encoder().encode();
    data.extend_from_slice(&[2, 3, 0, 0, 0, 1, 2, 3]);
    let decoded = DecodedMesh::decode(&data).unwrap();
    match decoded.extensions.water_mask {
        Some(WaterMask::Uniform(0)) => {}
        _ => panic!("expected land"),
    }
}

#[test]
fn metadata_must_hold_their_text() {
    let plain = sample_encoder().encode();
    for bad in [
        vec![4, 3, 0, 0, 0, 1, 2, 3],
        vec![4, 5, 0, 0, 0, 2, 0, 0, 0, b'x'],
    ] {
        let mut data = plain.clone();
        data.extend_from_slice(&bad);
        match DecodedMesh::decode(&data) {
            Err(DecodeError::UnexpectedEof) => {}
            _ => panic!("expected an error"),
        }
    }
    let mut data = plain.clone();
    data.extend_from_slice(&[4, 5, 0, 0, 0, 1, 0, 0, 0, 0xff]);
    match DecodedMesh::decode(&data) {
        Err(DecodeError::JsonError(text)) => assert!(text.contains("utf-8")),
        _ => panic!("expected an error"),
    }
}

#[test]
fn broken_gzip_is_refused() {
    let data = [0x1fu8, 0x8b, 0, 0, 0];
    match DecodedMesh::decode(&data) {
        Err(DecodeError::DecompressionError(text)) => assert!(!text.is_empty()),
        _ => panic!("expected an error"),
    }
    assert!(decompress_gzip(&data).is_err());
    assert_eq!(decompress_gzip(&[1, 2, 3]).unwrap(), vec![1, 2, 3]);
}

#[test]
fn messages_of_errors() {
    assert_eq!(DecodeError::UnexpectedEof.message(), "Unexpected end of data");
    assert_eq!(DecodeError::InvalidData("x".to_string()).message(), "Invalid data: x");
    assert_eq!(
        DecodeError::DecompressionError("y".to_string()).message(),
        "Decompression error: y"
    );
    assert_eq!(DecodeError::JsonError("z".to_string()).message(), "JSON error: z");
}

#[test]
fn iterators_count_what_is_left() {
    let bytes = [1u8, 0, 2, 0, 0, 0, 9];
    let mut raw = RawIndexIter::U16(&bytes);
    assert_eq!(raw.size_hint(), (3, Some(3)));
    assert_eq!(raw.next(), Some(1));
    assert_eq!(raw.next(), Some(2));
    assert_eq!(raw.size_hint(), (1, Some(1)));
    assert_eq!(raw.next(), Some(0));
    assert_eq!(raw.next(), None);

    let wide = IndicesView::U32(&bytes);
    assert_eq!(wide.len(), 1);
    assert!(!wide.is_empty());
    assert_eq!(wide.iter_raw().collect(), vec![0x2_0001]);

    let mut steps = ZigzagDeltaIter::new(&bytes);
    assert_eq!(steps.size_hint(), (3, Some(3)));
    assert_eq!(steps.next(), Some(65535));
    assert_eq!(steps.next(), Some(0));
    assert_eq!(steps.next(), Some(0));
    assert_eq!(steps.next(), None);

    let mut indices = HighWaterMarkIter::new(RawIndexIter::U16(&bytes));
    assert_eq!(indices.next(), Some(u32::MAX));
    assert_eq!(indices.next(), Some(u32::MAX - 1));
    assert_eq!(indices.size_hint(), (1, Some(1)));
    assert_eq!(indices.next(), Some(0));
    assert_eq!(indices.highest, 1);
    assert_eq!(IndicesView::U16(&bytes).to_vec(), vec![u32::MAX, u32::MAX - 1, 0]);
}

#[test]
fn pairs_leave_an_odd_byte_out() {
    assert_eq!(oct_pairs(&[1, 2, 3, 4, 5]), vec![[1, 2], [3, 4]]);
}

#[test]
fn water_masks_from_cells() {
    let mask = |data: &[u8]| WaterMask::from_data(data);
    assert!(matches!(mask(&[255; 100]), WaterMask::Uniform(0)));
    assert!(matches!(mask(&[255; 65536]), WaterMask::Uniform(255)));
    let mut cells = vec![7u8; 65536];
    cells.push(8);
    assert!(matches!(mask(&cells), WaterMask::Uniform(7)));
    cells[65535] = 9;
    match mask(&cells) {
        WaterMask::Grid(grid) => assert_eq!(&grid[..], &cells[..65536]),
        WaterMask::Uniform(_) => panic!("expected a grid"),
    }
    assert!(matches!(WaterMask::default(), WaterMask::Uniform(0)));
}

#[test]
fn names_of_extensions() {
    assert_eq!(ExtensionId::OctEncodedVertexNormals.byte(), 1);
    assert_eq!(ExtensionId::WaterMask.byte(), 2);
    assert_eq!(ExtensionId::Metadata.byte(), 4);
}

#[test]
fn ranges_of_descendants() {
    let metadata = TileMetadata::for_tile(3, 2, 5, 7);
    assert_eq!(metadata.available.len(), 2);
    assert_eq!(metadata.available[0], vec![AvailableRange::new(6, 7, 4, 5)]);
    assert_eq!(metadata.available[1], vec![AvailableRange::new(12, 15, 8, 11)]);
    assert!(TileMetadata::for_tile(3, 2, 7, 7).available.is_empty());
    assert!(TileMetadata::new().available.is_empty());
    assert!(TileMetadata::default().available.is_empty());
}

#[test]
fn descendants_lie_below_their_tile() {
    let metadata = TileMetadata::for_tile(5, 2, 4, 7);
    for (i, level) in metadata.available.iter().enumerate() {
        let scale = 2u32 << i;
        for x in 0..128u32 {
            for y in 0..64u32 {
                let range = level[0];
                let listed = (range.start_x..=range.end_x).contains(&x)
                    && (range.start_y..=range.end_y).contains(&y);
                assert_eq!(listed, (x / scale, y / scale) == (5, 2));
            }
        }
    }
}

#[test]
fn ranges_of_whole_levels() {
    assert_eq!(AvailableRange::full_level_geodetic(0), AvailableRange::new(0, 1, 0, 0));
    assert_eq!(
        AvailableRange::full_level_geodetic(30),
        AvailableRange::new(0, 0x7fff_ffff, 0, 0x3fff_ffff)
    );
    let metadata = TileMetadata::all_available(0, 2);
    assert_eq!(metadata.available.len(), 2);
    assert_eq!(metadata.available[1], vec![AvailableRange::new(0, 7, 0, 3)]);
}
