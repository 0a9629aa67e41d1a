use std::f64::consts::PI;
use terrain_codec::float_bits::{error_key, number_key, threshold_key};
use terrain_codec::interpolation::{blend, bracket, Blend};
use terrain_codec::mercator::MercatorDem;
use terrain_codec::normals::{face_triangles, BufferedElevations};

const MAX_LAT: f64 = 85.05112877980659;

fn lerp(a: f64, b: f64, t: f64) -> f64 {
    match blend(a.to_bits(), b.to_bits()) {
        Blend::First => a,
        Blend::Second => b,
        Blend::Mix => a * (1.0 - t) + b * t,
    }
}

fn bits(elevations: &[f32]) -> Vec<u32> {
    elevations.iter().map(|e| e.to_bits()).collect()
}

/// Column and row of a position, in samples of the block.
fn position(dem: &MercatorDem, lon: f64, lat: f64) -> (f64, f64) {
    let world_px = ((1u32 << dem.zoom) * dem.tile_size) as f64;
    let lat = lat.clamp(-MAX_LAT, MAX_LAT);
    let gx = (lon + 180.0) / 360.0 * world_px;
    let gy = (1.0 - lat.to_radians().tan().asinh() / PI) / 2.0 * world_px;
    (
        gx - (dem.x0 * dem.tile_size) as f64 - 0.5,
        gy - (dem.y0 * dem.tile_size) as f64 - 0.5,
    )
}

/// The elevation at a position.
fn sample(dem: &MercatorDem, lon: f64, lat: f64) -> f32 {
    let (lx, ly) = position(dem, lon, lat);
    let around = dem.sample(lx.floor() as i64, ly.floor() as i64);
    let [nw, ne, sw, se] = around.map(|e| f32::from_bits(e) as f64);
    let tx = lx - lx.floor();
    lerp(lerp(nw, ne, tx), lerp(sw, se, tx), ly - ly.floor()) as f32
}

#[test]
fn sample_hits_pixel_centres() {
    let zoom = 4;
    let tile_size = 4;
    let (x0, y0) = (3, 5);
    let w = tile_size;
    let h = tile_size;
    let elev: Vec<f32> = (0..(w * h)).map(|i| i as f32).collect();
    let dem = MercatorDem::new(zoom, x0, y0, 1, 1, tile_size, bits(&elev));

    let n_tiles = 1u32 << zoom;
    let world_px = (n_tiles * tile_size) as f64;
    let gx = (x0 * tile_size) as f64 + 1.0 + 0.5;
    let gy = (y0 * tile_size) as f64 + 2.0 + 0.5;
    let lon = gx / world_px * 360.0 - 180.0;
    let m = PI * (1.0 - 2.0 * gy / world_px);
    let lat = m.sinh().atan().to_degrees();

    let expected = (2 * w + 1) as f32;
    let got = sample(&dem, lon, lat);
    assert!((got - expected).abs() < 1e-3, "expected {expected}, got {got}");
}

#[test]
fn sample_interpolates_between_posts() {
    let zoom = 4;
    let tile_size = 4;
    let elev: Vec<f32> = (0..(tile_size * tile_size)).map(|i| (i % tile_size) as f32).collect();
    let dem = MercatorDem::new(zoom, 0, 0, 1, 1, tile_size, bits(&elev));

    let world_px = ((1u32 << zoom) * tile_size) as f64;
    let lon = 2.0 / world_px * 360.0 - 180.0;
    let lat = 0.0;
    let got = sample(&dem, lon, lat);
    assert!((got - 1.5).abs() < 1e-3, "expected ~1.5, got {got}");
}

#[test]
fn geodetic_grid_of_flat_dem_is_flat() {
    let dem = MercatorDem::new(10, 0, 0, 1, 1, 8, bits(&[42.0f32; 64]));
    let mut grid = Vec::new();
    for j in 0..17 {
        let lat = 1.0 - j as f64 / 16.0;
        for i in 0..17 {
            let lon = i as f64 / 16.0;
            grid.push(sample(&dem, lon, lat));
        }
    }
    assert_eq!(grid.len(), 17 * 17);
    assert!(grid.iter().all(|&v| (v - 42.0).abs() < 1e-4));
}

#[test]
fn buffered_inner_block_matches_geodetic_grid() {
    let zoom = 10;
    let tile_size = 64;
    let elev: Vec<f32> = (0..(tile_size * tile_size))
        .map(|i| ((i % tile_size) + (i / tile_size)) as f32)
        .collect();
    let dem = MercatorDem::new(zoom, 100, 100, 1, 1, tile_size, bits(&elev));

    let n_tiles = (1u32 << zoom) as f64;
    let lat_at = |yy: f64| (PI * (1.0 - 2.0 * yy / n_tiles)).sinh().atan().to_degrees();
    let (w, e) = (100.0 / n_tiles * 360.0 - 180.0, 101.0 / n_tiles * 360.0 - 180.0);
    let (s, n) = (lat_at(101.0), lat_at(100.0));
    let inset_x = (e - w) * 0.2;
    let inset_y = (n - s) * 0.2;
    let (west, south, east, north) = (w + inset_x, s + inset_y, e - inset_x, n - inset_y);

    let tile_grid = 33u32;
    let buffer = 2u32;
    let denom = (tile_grid - 1) as f64;
    let mut plain = Vec::new();
    for j in 0..tile_grid {
        let lat = north - (j as f64 / denom) * (north - south);
        for i in 0..tile_grid {
            plain.push(sample(&dem, west + (i as f64 / denom) * (east - west), lat));
        }
    }
    let (cell_lon, cell_lat) = ((east - west) / denom, (north - south) / denom);
    let full = (tile_grid + 2 * buffer) as usize;
    let mut elevations = Vec::new();
    for j in 0..full {
        let lat = north + buffer as f64 * cell_lat - j as f64 * cell_lat;
        for i in 0..full {
            let lon = west - buffer as f64 * cell_lon + i as f64 * cell_lon;
            elevations.push((sample(&dem, lon, lat) as f64).to_bits());
        }
    }
    let buffered = BufferedElevations::new(elevations, tile_grid, buffer);

    let b = buffer as usize;
    let tg = tile_grid as usize;
    for j in 0..tg {
        for i in 0..tg {
            let inner = f64::from_bits(buffered.elevations[(j + b) * full + (i + b)]) as f32;
            let p = plain[j * tg + i];
            assert!((inner - p).abs() < 1e-3, "inner block mismatch at ({i},{j}): {inner} vs {p}");
        }
    }
}

#[test]
fn rows_sample_like_the_block() {
    let elev: Vec<u32> = (0..24 * 16).collect();
    let dem = MercatorDem::new(7, 1, 2, 3, 2, 8, elev);
    assert_eq!((dem.width_px(), dem.height_px()), (24, 16));
    for row in [i64::MIN, -5, -1, 0, 3, 14, 15, 16, i64::MAX - 1] {
        let sampler = dem.row_sampler(row);
        for column in [i64::MIN, -1, 0, 7, 22, 23, 24, i64::MAX - 1] {
            assert_eq!(sampler.sample(column), dem.sample(column, row));
        }
    }
    assert_eq!(dem.sample(4, 3), [76, 77, 100, 101]);
    assert_eq!(dem.sample(-1, 3), [72, 72, 96, 96]);
    assert_eq!(dem.sample(i64::MIN, i64::MAX - 1), [360; 4]);
}

#[test]
fn tiles_are_stitched_in_place() {
    // Sample values name the tile, the row in it and the column in it.
    let tiles: Vec<Vec<u32>> = (0..6)
        .map(|t| (0..4).map(|i| 100 * t + 10 * (i / 2) + i % 2).collect())
        .collect();
    let dem = MercatorDem::from_tiles(5, 7, 9, 3, 2, 2, &tiles);
    assert_eq!(
        dem.elev,
        vec![
            0, 1, 100, 101, 200, 201, //
            10, 11, 110, 111, 210, 211, //
            300, 301, 400, 401, 500, 501, //
            310, 311, 410, 411, 510, 511,
        ]
    );
    assert_eq!((dem.zoom, dem.x0, dem.y0), (5, 7, 9));
    assert_eq!((dem.tiles_x, dem.tiles_y, dem.tile_size), (3, 2, 2));
}

#[test]
fn missing_samples_are_replaced_by_their_neighbours() {
    let nan = f64::NAN;
    assert_eq!(lerp(nan, 3.0, 0.25), 3.0);
    assert_eq!(lerp(3.0, nan, 0.25), 3.0);
    assert_eq!(lerp(2.0, 4.0, 0.25), 2.5);
    for corner in 0..4 {
        let mut corners = [nan; 4];
        corners[corner] = 7.0;
        let top = lerp(corners[0], corners[1], 0.5);
        let bottom = lerp(corners[2], corners[3], 0.5);
        assert_eq!(lerp(top, bottom, 0.5), 7.0);
    }
    assert!(lerp(lerp(nan, nan, 0.5), lerp(nan, nan, 0.5), 0.5).is_nan());
}

#[test]
fn brackets_stay_on_the_grid() {
    assert_eq!(bracket(2, 5), (2, 3));
    assert_eq!(bracket(4, 5), (4, 4));
    assert_eq!(bracket(-1, 5), (0, 0));
    assert_eq!(bracket(-2, 5), (0, 0));
    assert_eq!(bracket(99, 5), (4, 4));
    assert_eq!(bracket(0, 1), (0, 0));
}

#[test]
fn neighbouring_tiles_see_the_same_samples_at_their_seam() {
    let (grid, buffer) = (9u32, 2u32);
    let side = (grid + 2 * buffer) as u64;
    // All tiles are cut from one field; neighbours start one tile further on.
    let cut = |x0: u64, y0: u64| {
        let mut elevations = Vec::new();
        for y in 0..side {
            for x in 0..side {
                elevations.push(1000 * (y0 + y) + x0 + x);
            }
        }
        BufferedElevations::new(elevations, grid, buffer)
    };
    let (tile, east, south, southeast) = (cut(0, 0), cut(8, 0), cut(0, 8), cut(8, 8));
    assert_eq!(tile.buffered_grid_size(), 13);
    for along in -1..13 {
        for across in 0..4 {
            assert_eq!(tile.sample(across + 8, along), east.sample(across, along));
            assert_eq!(tile.sample(along, across + 8), south.sample(along, across));
        }
    }
    for x in 0..4 {
        for y in 0..4 {
            assert_eq!(tile.sample(x + 8, y + 8), southeast.sample(x, y));
        }
    }
    assert_eq!(tile.sample(10, 3), [3010, 3011, 4010, 4011]);
}

#[test]
fn triangles_of_an_index_list() {
    assert_eq!(face_triangles(&[0, 1, 2, 2, 1, 3, 9]), vec![[0, 1, 2], [2, 1, 3]]);
    assert!(face_triangles(&[1, 2]).is_empty());
}

#[test]
fn keys_order_numbers() {
    let numbers = [
        f64::NEG_INFINITY,
        -1e300,
        -1.0,
        -f64::MIN_POSITIVE,
        -5e-324,
        0.0,
        5e-324,
        1.0,
        1.5,
        f64::MAX,
        f64::INFINITY,
    ];
    for a in numbers {
        for b in numbers {
            let (key_a, key_b) = (number_key(a.to_bits()), number_key(b.to_bits()));
            assert_eq!(key_a < key_b, a < b);
            assert_eq!(key_a == key_b, a == b);
        }
    }
    assert_eq!(number_key((-0.0f64).to_bits()), number_key(0.0f64.to_bits()));
    assert_eq!(number_key(f64::NAN.to_bits()), None);
}

#[test]
fn keys_of_errors_and_bounds() {
    assert_eq!(error_key(0.0f64.to_bits()), 0);
    assert_eq!(error_key(f64::NAN.to_bits()), 0);
    assert_eq!(error_key(1.0f64.to_bits()), 0x3ff0_0000_0000_0000);
    assert_eq!(threshold_key(1.0f64.to_bits()), 0x3ff0_0000_0000_0000);
    assert_eq!(threshold_key(f64::NAN.to_bits()), i64::MAX);
    assert!(threshold_key((-1.0f64).to_bits()) < 0);
}
