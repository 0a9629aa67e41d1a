use terrain_codec::layer_json::{
    LayerJson, LayerJsonConfig, TerrainFormat, TileAvailability, TilingScheme,
};
use terrain_codec::mercator::MercatorDem;
use terrain_codec::tile_coords::{geodetic_tms, web_mercator, web_mercator_tms, MAX_LON};

const MAX_LAT: f64 = 85.05112877980659;

/// The position of a longitude and latitude in tiles from the northwest corner of the Web
/// Mercator square.
fn mercator_position(lon: u64, lat: u64, zoom: u8) -> (u32, u32) {
    let (lon, lat) = (f64::from_bits(lon), f64::from_bits(lat));
    let n = web_mercator::tile_count(zoom) as f64;
    let x = ((lon + 180.0) / 360.0 * n).floor();
    let y = ((1.0 - lat.to_radians().tan().asinh() / std::f64::consts::PI) / 2.0 * n).floor();
    (x as u32, y as u32)
}

fn mercator_tile(lon: f64, lat: f64, zoom: u8) -> (u32, u32) {
    web_mercator::lonlat_to_tile(lon.to_bits(), lat.to_bits(), zoom, |lon, lat| {
        mercator_position(lon, lat, zoom)
    })
}

fn mercator_tms_tile(lon: f64, lat: f64, zoom: u8) -> (u32, u32) {
    web_mercator_tms::lonlat_to_tile(lon.to_bits(), lat.to_bits(), zoom, |lon, lat| {
        mercator_position(lon, lat, zoom)
    })
}

/// West, south, east and north of a Web Mercator tile.
fn mercator_bounds(z: u8, x: u32, y: u32) -> (f64, f64, f64, f64) {
    let n = web_mercator::tile_count(z) as f64;
    let lat_at = |yy: f64| {
        let m = std::f64::consts::PI * (1.0 - 2.0 * yy / n);
        m.sinh().atan().to_degrees()
    };
    (
        x as f64 / n * 360.0 - 180.0,
        lat_at(y as f64 + 1.0),
        (x as f64 + 1.0) / n * 360.0 - 180.0,
        lat_at(y as f64),
    )
}

fn geodetic_tile(lon: f64, lat: f64, zoom: u8) -> (u32, u32) {
    geodetic_tms::lonlat_to_tile(lon.to_bits(), lat.to_bits(), zoom, |lon, lat| {
        let (lon, lat) = (f64::from_bits(lon), f64::from_bits(lat));
        let x = (lon + 180.0) / 360.0 * geodetic_tms::tile_count_x(zoom) as f64;
        let y = (lat + 90.0) / 180.0 * geodetic_tms::tile_count_y(zoom) as f64;
        (x.floor() as u32, y.floor() as u32)
    })
}

#[test]
fn web_mercator_origin_at_zoom_0_is_top_left() {
    let (x, y) = mercator_tile(-180.0, MAX_LAT - 0.01, 0);
    assert_eq!((x, y), (0, 0));
}

#[test]
fn web_mercator_y_inverts_to_tms() {
    let zoom = 3;
    for y in 0..web_mercator::tile_count(zoom) {
        assert_eq!(web_mercator_tms::flip_y(zoom, y), (1 << zoom) - 1 - y);
        assert_eq!(
            web_mercator_tms::flip_y(zoom, web_mercator_tms::flip_y(zoom, y)),
            y
        );
    }
}

#[test]
fn web_mercator_tile_to_bounds_roundtrip_for_centre_points() {
    let zoom = 4;
    for x in 0..web_mercator::tile_count(zoom) {
        for y in 0..web_mercator::tile_count(zoom) {
            let (w, s, e, n) = mercator_bounds(zoom, x, y);
            let (x2, y2) = mercator_tile((w + e) * 0.5, (s + n) * 0.5, zoom);
            assert_eq!((x, y), (x2, y2), "tile centre should map back to its tile");
        }
    }
}

#[test]
fn positions_at_the_far_end_belong_to_the_last_tile() {
    assert_eq!(mercator_tile(180.0, -90.0, 4), (15, 15));
    assert_eq!(web_mercator::position_to_tile(16, u32::MAX, 4), (15, 15));
    assert_eq!(web_mercator_tms::lonlat_to_tile(0, 0, 4, |_, _| (16, u32::MAX)), (15, 0));
    assert_eq!(web_mercator_tms::lonlat_to_tile(0, 0, 4, |_, _| (3, 0)), (3, 15));
    assert_eq!(geodetic_tile(180.0, 90.0, 4), (31, 15));
}

#[test]
fn degrees_out_of_range_are_clamped() {
    assert_eq!(f64::from_bits(MAX_LON), 180.0);
    assert_eq!(f64::from_bits(web_mercator::MAX_LAT), MAX_LAT);
    assert_eq!(f64::from_bits(geodetic_tms::MAX_LAT), 90.0);
    let inf = f64::INFINITY;
    for lon in [-inf, -540.0, -180.5, -180.0, -7.25, -0.0, 0.0, 1e-310, 179.9, 180.0, 181.0, inf] {
        for lat in [-inf, -91.0, -90.0, -85.06, -85.05, -0.0, 0.0, 12.5, 85.05, 85.06, 90.0, inf] {
            web_mercator::lonlat_to_tile(lon.to_bits(), lat.to_bits(), 3, |x, y| {
                assert_eq!(x, lon.clamp(-180.0, 180.0).to_bits());
                assert_eq!(y, lat.clamp(-MAX_LAT, MAX_LAT).to_bits());
                (0, 0)
            });
            geodetic_tms::lonlat_to_tile(lon.to_bits(), lat.to_bits(), 3, |x, y| {
                assert_eq!(x, lon.clamp(-180.0, 180.0).to_bits());
                assert_eq!(y, lat.clamp(-90.0, 90.0).to_bits());
                (0, 0)
            });
            for zoom in [0u8, 1, 5, 30] {
                let (x, y) = mercator_tile(lon, lat, zoom);
                let inside = (lon.clamp(-180.0, 180.0), lat.clamp(-MAX_LAT, MAX_LAT));
                assert_eq!(mercator_tile(inside.0, inside.1, zoom), (x, y));
                assert!(x < 1 << zoom && y < 1 << zoom);
                let row = web_mercator_tms::flip_y(zoom, y);
                assert_eq!(mercator_tms_tile(lon, lat, zoom), (x, row));
                let (x, y) = geodetic_tile(lon, lat, zoom);
                assert!(x < 2 << zoom && y < 1 << zoom);
            }
        }
    }
    web_mercator::lonlat_to_tile(f64::NAN.to_bits(), f64::NAN.to_bits(), 3, |x, y| {
        assert!(f64::from_bits(x).is_nan() && f64::from_bits(y).is_nan());
        (0, 0)
    });
}

#[test]
fn geodetic_tms_zoom_0_has_two_tiles_in_x() {
    assert_eq!(geodetic_tms::tile_count_x(0), 2);
    assert_eq!(geodetic_tms::tile_count_y(0), 1);
}

#[test]
fn tile_counts_at_the_last_level() {
    assert_eq!(web_mercator::tile_count(31), 0x8000_0000);
    assert_eq!(geodetic_tms::tile_count_x(30), 0x8000_0000);
    assert_eq!(geodetic_tms::tile_count_y(31), 0x8000_0000);
}

#[test]
fn geodetic_tms_y0_is_south() {
    let (_, y) = geodetic_tile(0.0, -89.0, 4);
    assert_eq!(y, 0);
    let (_, y) = geodetic_tile(0.0, 89.0, 4);
    assert_eq!(y, geodetic_tms::tile_count_y(4) - 1);
}

#[test]
fn tiles_covering_is_at_least_one_tile() {
    let (w, s, e, n) = mercator_bounds(12, 3626, 1617);
    let northwest = mercator_tile(w, n, 12);
    let southeast = mercator_tile(e, s, 12);
    let (x0, y0, tx, ty) = MercatorDem::tiles_between(northwest, southeast);
    assert_eq!(x0, 3626);
    assert_eq!(y0, 1617);
    assert!((1..=2).contains(&tx));
    assert!((1..=2).contains(&ty));
}

#[test]
fn blocks_of_tiles_do_not_depend_on_the_order_of_corners() {
    assert_eq!(MercatorDem::tiles_between((3, 9), (5, 2)), (3, 2, 3, 8));
    assert_eq!(MercatorDem::tiles_between((5, 2), (3, 9)), (3, 2, 3, 8));
}

#[test]
fn full_level_geodetic_tms_z0_covers_two_x_one_y() {
    let r = TileAvailability::full_level_geodetic_tms(0);
    assert_eq!(r, TileAvailability::new(0, 0, 1, 0));
}

#[test]
fn full_levels_of_both_schemes() {
    assert_eq!(
        TileAvailability::full_level_geodetic_tms(3),
        TileAvailability::new(0, 0, 15, 7)
    );
    assert_eq!(TileAvailability::full_level_xyz(3), TileAvailability::new(0, 0, 7, 7));
}

#[test]
fn from_bounds_geodetic_tms_is_ordered() {
    let southwest = geodetic_tile(122.0, 20.0, 4);
    let northeast = geodetic_tile(154.0, 46.0, 4);
    let r = TileAvailability::from_corners_tms(southwest, northeast);
    assert!(r.start_x <= r.end_x);
    assert!(r.start_y <= r.end_y);
}

#[test]
fn rows_from_the_north_start_at_the_northern_corner() {
    assert_eq!(
        TileAvailability::from_corners_xyz((1, 9), (4, 2)),
        TileAvailability::new(1, 2, 4, 9)
    );
    assert_eq!(
        TileAvailability::from_corners_tms((1, 2), (4, 9)),
        TileAvailability::new(1, 2, 4, 9)
    );
}

#[test]
fn manifests_take_over_the_configuration() {
    let bounds = [-180.0f64, -90.0, 180.0, 90.0].map(f64::to_bits);
    let config = LayerJsonConfig {
        attribution: Some("Made with terrain-codec".into()),
        available: vec![vec![TileAvailability::full_level_geodetic_tms(0)], vec![]],
        min_zoom: Some(0),
        max_zoom: Some(10),
        bounds: Some(bounds),
        extensions: vec!["octvertexnormals".into(), "watermask".into()],
        format: TerrainFormat::QuantizedMesh1,
        metadata_availability: Some(10),
        ..Default::default()
    };
    let layer = LayerJson::from_config(&config);
    assert_eq!(layer.tilejson, "2.1.0");
    assert_eq!(layer.format, "quantized-mesh-1.0");
    assert_eq!(layer.version, "1.0.0");
    assert_eq!(layer.scheme, "tms");
    assert_eq!(layer.tiles, vec!["{z}/{x}/{y}.terrain".to_string()]);
    assert_eq!(layer.available, config.available);
    assert_eq!(layer.attribution.unwrap(), "Made with terrain-codec");
    assert_eq!(layer.min_zoom, Some(0));
    assert_eq!(layer.max_zoom, Some(10));
    assert_eq!(layer.bounds, Some(bounds));
    assert_eq!(layer.extensions, config.extensions);
    assert_eq!(layer.metadata_availability, Some(10));
}

#[test]
fn empty_options_stay_empty() {
    let layer = LayerJson::from_config(&LayerJsonConfig::default());
    assert!(layer.available.is_empty());
    assert!(layer.attribution.is_none());
    assert!(layer.min_zoom.is_none() && layer.max_zoom.is_none());
    assert!(layer.bounds.is_none());
    assert!(layer.extensions.is_empty());
    assert!(layer.metadata_availability.is_none());
}

#[test]
fn names_in_the_manifest() {
    assert_eq!(TilingScheme::Xyz.as_str(), "xyz");
    assert_eq!(TerrainFormat::Heightmap1.as_str(), "heightmap-1.0");
}
