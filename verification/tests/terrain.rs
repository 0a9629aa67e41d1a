use std::f64::consts::PI;
use terrain_codec::decoding::DecodedMesh;
use terrain_codec::float_bits::{error_key, number_key, threshold_key};
use terrain_codec::header::QuantizedMeshHeader;
use terrain_codec::martini::Martini;
use terrain_codec::mercator::MercatorDem;
use terrain_codec::normals::BufferedElevations;
use terrain_codec::terrain::{
    build, encode_terrain, height_range, quantize, triangulate, NormalMode, TerrainOptions,
};
use terrain_codec::types::{TileMetadata, WaterMask, QUANTIZED_MAX};

fn bumpy(x: u32, y: u32) -> f64 {
    ((x as f64) / 8.0).sin() * 50.0 + ((y as f64) / 8.0).cos() * 30.0
}

/// The errors in the middle of all long edges.
fn middle_errors<F: Fn(u32, u32) -> f64>(martini: &Martini, height: &F) -> Vec<i64> {
    (0..martini.num_triangles as usize)
        .map(|i| {
            let (a, b, m) = martini.long_edge(i);
            let error = ((height(a.0, a.1) + height(b.0, b.1)) / 2.0 - height(m.0, m.1)).abs();
            error_key(error.to_bits())
        })
        .collect()
}

/// Lowest and highest of the heights, and all of them quantized between the two.
fn quantized_heights(heights: &[f64]) -> (f64, f64, Vec<u16>) {
    let keys: Vec<Option<i64>> = heights.iter().map(|h| number_key(h.to_bits())).collect();
    let (low, high) = height_range(&keys).map_or((0.0, 0.0), |(l, h)| (heights[l], heights[h]));
    let span = high - low;
    let quantized = heights
        .iter()
        .map(|h| {
            if span > 0.0 {
                ((h - low) / span * QUANTIZED_MAX as f64).round() as u16
            } else {
                0
            }
        })
        .collect();
    (low, high, quantized)
}

/// Encodes the heights on a grid as a tile.
fn encode_heights<F: Fn(u32, u32) -> f64>(
    grid_size: u32,
    height: F,
    options: TerrainOptions,
) -> Vec<u8> {
    let mut martini = Martini::new(grid_size);
    let errors = middle_errors(&martini, &height);
    let mesh = triangulate(&mut martini, &errors, &options);
    let heights: Vec<f64> = mesh
        .vertices
        .iter()
        .map(|v| height(v.0, v.1) as f32 as f64)
        .collect();
    let (low, high, quantized) = quantized_heights(&heights);
    let header = QuantizedMeshHeader {
        min_height: (low as f32).to_bits(),
        max_height: (high as f32).to_bits(),
        ..Default::default()
    };
    encode_terrain(header, mesh, grid_size, quantized, None, options)
}

/// West, south, east and north of a Web Mercator tile.
fn mercator_bounds(z: u8, x: u32, y: u32) -> (f64, f64, f64, f64) {
    let n = (1u32 << z) as f64;
    let lat_at = |yy: f64| {
        let m = PI * (1.0 - 2.0 * yy / n);
        m.sinh().atan().to_degrees()
    };
    (
        x as f64 / n * 360.0 - 180.0,
        lat_at(y as f64 + 1.0),
        (x as f64 + 1.0) / n * 360.0 - 180.0,
        lat_at(y as f64),
    )
}

/// The elevation at a position, where no sample is missing.
fn sample(dem: &MercatorDem, lon: f64, lat: f64) -> f32 {
    let world_px = ((1u32 << dem.zoom) * dem.tile_size) as f64;
    let gx = (lon + 180.0) / 360.0 * world_px;
    let gy = (1.0 - lat.to_radians().tan().asinh() / PI) / 2.0 * world_px;
    let lx = gx - (dem.x0 * dem.tile_size) as f64 - 0.5;
    let ly = gy - (dem.y0 * dem.tile_size) as f64 - 0.5;
    let around = dem.sample(lx.floor() as i64, ly.floor() as i64);
    let [nw, ne, sw, se] = around.map(|e| f32::from_bits(e) as f64);
    let (tx, ty) = (lx - lx.floor(), ly - ly.floor());
    let mix = |a: f64, b: f64, t: f64| a * (1.0 - t) + b * t;
    mix(mix(nw, ne, tx), mix(sw, se, tx), ty) as f32
}

fn max_error(metres: f64) -> i64 {
    threshold_key(metres.to_bits())
}

#[test]
fn flat_tile_roundtrips_to_two_triangles() {
    let bytes = encode_heights(
        65,
        |_, _| 0.0,
        TerrainOptions {
            max_error: max_error(0.0),
            compression_level: 0,
            ..Default::default()
        },
    );
    let mesh = DecodedMesh::decode(&bytes).expect("decode");
    assert_eq!(mesh.indices.len(), 6);
    assert_eq!(f32::from_bits(mesh.header.min_height), 0.0);
    assert_eq!(f32::from_bits(mesh.header.max_height), 0.0);
    assert!(mesh.vertices.height.iter().all(|&h| h == 0));
}

#[test]
fn default_options_gzip_compress() {
    let bytes = encode_heights(65, bumpy, TerrainOptions::default());
    assert_eq!(&bytes[0..2], &[0x1f, 0x8b]);
}

#[test]
fn defaults_of_the_options() {
    let options = TerrainOptions::default();
    assert_eq!(options.max_error, max_error(1.0));
    assert_eq!(options.compression_level, 6);
    assert!(matches!(options.normals, NormalMode::Omit));
    assert!(options.water_mask.is_none());
    assert!(options.metadata.is_none());
    assert!(matches!(NormalMode::default(), NormalMode::Omit));
}

#[test]
fn height_range_matches_decoded_extremes() {
    let bytes = encode_heights(
        129,
        bumpy,
        TerrainOptions {
            max_error: max_error(0.5),
            compression_level: 0,
            ..Default::default()
        },
    );
    let mesh = DecodedMesh::decode(&bytes).expect("decode");
    assert_eq!(*mesh.vertices.height.iter().min().unwrap(), 0);
    assert_eq!(*mesh.vertices.height.iter().max().unwrap(), QUANTIZED_MAX);
    assert!(f32::from_bits(mesh.header.max_height) > f32::from_bits(mesh.header.min_height));
}

#[test]
fn compression_does_not_change_the_mesh() {
    let decode = |level: u32| {
        let options = TerrainOptions {
            compression_level: level,
            ..Default::default()
        };
        DecodedMesh::decode(&encode_heights(65, bumpy, options)).expect("decode")
    };
    let plain = decode(0);
    for level in [1, 6, 9] {
        let mesh = decode(level);
        assert_eq!(mesh.vertices.u, plain.vertices.u);
        assert_eq!(mesh.vertices.v, plain.vertices.v);
        assert_eq!(mesh.vertices.height, plain.vertices.height);
        assert_eq!(mesh.indices, plain.indices);
    }
}

#[test]
fn a_lower_bound_keeps_more_triangles() {
    let count = |metres: f64| {
        let options = TerrainOptions {
            max_error: max_error(metres),
            compression_level: 0,
            ..Default::default()
        };
        DecodedMesh::decode(&encode_heights(129, bumpy, options)).unwrap().indices.len()
    };
    let counts: Vec<usize> = [20.0, 5.0, 1.0, 0.1, 0.0].iter().map(|m| count(*m)).collect();
    for pair in counts.windows(2) {
        assert!(pair[0] <= pair[1]);
    }
    assert!(counts[0] < counts[4]);
}

#[test]
fn edges_run_along_the_borders_of_the_tile() {
    // A bound below zero keeps every vertex of the grid.
    let options = TerrainOptions {
        max_error: max_error(-1.0),
        compression_level: 0,
        ..Default::default()
    };
    let mesh = DecodedMesh::decode(&encode_heights(17, bumpy, options)).unwrap();
    assert_eq!(mesh.vertices.len(), 17 * 17);
    let (u, v) = (&mesh.vertices.u, &mesh.vertices.v);
    let expected: Vec<u16> = (0..17).map(|i| quantize(i, 16)).collect();
    let along = |list: &[u32], axis: &[u16]| -> Vec<u16> {
        list.iter().map(|i| axis[*i as usize]).collect()
    };
    assert_eq!(along(&mesh.edge_indices.west, v), expected);
    assert_eq!(along(&mesh.edge_indices.east, v), expected);
    assert_eq!(along(&mesh.edge_indices.south, u), expected);
    assert_eq!(along(&mesh.edge_indices.north, u), expected);
    assert!(along(&mesh.edge_indices.west, u).iter().all(|c| *c == 0));
    assert!(along(&mesh.edge_indices.east, u).iter().all(|c| *c == QUANTIZED_MAX));
    assert!(along(&mesh.edge_indices.south, v).iter().all(|c| *c == 0));
    assert!(along(&mesh.edge_indices.north, v).iter().all(|c| *c == QUANTIZED_MAX));
}

#[test]
fn fractions_are_rounded_to_the_nearest_coordinate() {
    assert_eq!(quantize(0, 64), 0);
    assert_eq!(quantize(64, 64), 32767);
    assert_eq!(quantize(1, 64), 512);
    assert_eq!(quantize(1, 2), 16384);
    assert_eq!(quantize(1, 32768), 1);
    assert_eq!(quantize(u32::MAX - 1, u32::MAX), 32767);
    for n in 0..=256u32 {
        let exact = (n as f64 / 256.0 * 32767.0).round() as u16;
        assert_eq!(quantize(n, 256), exact);
    }
}

#[test]
fn ranges_skip_missing_heights() {
    let range = |heights: &[f64]| {
        let keys: Vec<Option<i64>> = heights.iter().map(|h| number_key(h.to_bits())).collect();
        height_range(&keys)
    };
    assert_eq!(range(&[f64::NAN, 3.0, -2.0, 8.0, f64::NAN]), Some((2, 3)));
    assert_eq!(range(&[5.0]), Some((0, 0)));
    assert_eq!(range(&[f64::NAN]), None);
    assert_eq!(range(&[]), None);
}

#[test]
fn extensions_follow_the_options() {
    let metadata = TileMetadata::for_tile(0, 0, 3, 4);
    let text = format!("{{\"levels\":{}}}", metadata.available.len());
    let mut martini = Martini::new(3);
    let options = TerrainOptions {
        normals: NormalMode::FaceNormals,
        water_mask: Some(WaterMask::Uniform(9)),
        metadata: Some(text.clone()),
        compression_level: 0,
        ..Default::default()
    };
    let mesh = triangulate(&mut martini, &[0; 6], &options);
    let header = QuantizedMeshHeader::default();
    let normals = Some(vec![[1, 2], [3, 4], [5, 6], [7, 8]]);
    let (encoder, encode_options) = build(header, mesh, 3, vec![0; 4], normals, options);
    assert_eq!(encoder.vertices.u, vec![0, 32767, 32767, 0]);
    assert_eq!(encoder.vertices.v, vec![32767, 0, 32767, 0]);
    assert!(encode_options.include_normals);
    let bytes = encoder.encode_with_options(&encode_options);
    let mesh = DecodedMesh::decode(&bytes).unwrap();
    assert_eq!(mesh.extensions.normals.unwrap(), vec![[1, 2], [3, 4], [5, 6], [7, 8]]);
    assert!(matches!(mesh.extensions.water_mask, Some(WaterMask::Uniform(9))));
    assert_eq!(mesh.extensions.metadata.unwrap(), text);
}

#[test]
fn gradient_normals_need_a_grid_of_the_same_size() {
    let buffered = BufferedElevations::new(vec![0; 49], 5, 1);
    let mode = NormalMode::BufferedGradient(buffered);
    assert!(mode.fits(5));
    assert!(!mode.fits(9));
    assert!(NormalMode::FaceNormals.fits(9));
}

#[test]
fn end_to_end_with_encode_terrain() {
    let zoom = 12;
    let tile_size = 64;
    let elev: Vec<u32> = (0..(tile_size * tile_size))
        .map(|i| {
            let x = (i % tile_size) as f32;
            let y = (i / tile_size) as f32;
            ((x / 8.0).sin() * 20.0 + (y / 8.0).cos() * 15.0).to_bits()
        })
        .collect();
    let dem = MercatorDem::new(zoom, 3626, 1617, 1, 1, tile_size, elev);
    let (w, s, e, n) = mercator_bounds(zoom, 3626, 1617);
    let height = |x: u32, y: u32| {
        let lon = w + (x as f64 / 64.0) * (e - w);
        let lat = n - (y as f64 / 64.0) * (n - s);
        sample(&dem, lon, lat) as f64
    };
    let bytes = encode_heights(
        65,
        height,
        TerrainOptions {
            compression_level: 0,
            ..Default::default()
        },
    );
    let mesh = DecodedMesh::decode(&bytes).expect("decode");
    assert!(mesh.vertices.len() >= 4);
    assert!(mesh.indices.len() >= 6);
}
