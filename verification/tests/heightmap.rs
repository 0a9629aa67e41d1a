use terrain_codec::heightmap::cesium::{self, ChildTileMask};
use terrain_codec::heightmap::container::{decode_image, rgb_to_png, rgb_to_webp, DecodedImage};
use terrain_codec::heightmap::{
    decode, decode_into, decode_pixel, encode, encode_into, encode_pixel, gsi, mapbox, terrarium,
    HeightmapFormat, HeightmapView, ParseHeightmapFormatError,
};

/// An elevation in metres as a number of steps of the format.
fn steps(format: HeightmapFormat, elevation: f32) -> Option<i64> {
    if elevation.is_nan() {
        return None;
    }
    Some(match format {
        HeightmapFormat::Terrarium => ((elevation + 32768.0) * 256.0) as i64,
        HeightmapFormat::Mapbox => ((elevation + 10000.0) * 10.0).round() as i64,
        HeightmapFormat::Gsi => (elevation as f64 * 100.0).round() as i64,
    })
}

/// A number of steps as an elevation in metres.
fn metres(format: HeightmapFormat, sample: Option<i64>) -> f32 {
    match (format, sample) {
        (_, None) => f32::NAN,
        (HeightmapFormat::Terrarium, Some(s)) => s as f32 / 256.0 - 32768.0,
        (HeightmapFormat::Mapbox, Some(s)) => -10000.0 + s as f32 * 0.1,
        (HeightmapFormat::Gsi, Some(s)) => s as f32 * 0.01,
    }
}

fn samples(format: HeightmapFormat, elevations: &[f32]) -> Vec<Option<i64>> {
    elevations.iter().map(|e| steps(format, *e)).collect()
}

fn approx_eq(a: f32, b: f32, tol: f32) -> bool {
    (a - b).abs() <= tol
}

const TERRARIUM: HeightmapFormat = HeightmapFormat::Terrarium;
const MAPBOX: HeightmapFormat = HeightmapFormat::Mapbox;
const GSI: HeightmapFormat = HeightmapFormat::Gsi;

#[test]
fn terrarium_pixel_roundtrip() {
    for e in [-100.0_f32, 0.0, 100.0, 1234.5, 8000.0, -500.0] {
        let pixel = terrarium::encode_pixel(steps(TERRARIUM, e));
        let back = metres(TERRARIUM, terrarium::decode_pixel(pixel));
        assert!(approx_eq(e, back, 0.01), "{e} to {back}");
    }
}

#[test]
fn terrarium_zero_sea_level_is_8000() {
    assert_eq!(terrarium::encode_pixel(steps(TERRARIUM, 0.0)), [0x80, 0x00, 0x00]);
}

#[test]
fn terrarium_without_elevation_is_zero_metres() {
    let pixel = terrarium::encode_pixel(steps(TERRARIUM, f32::NAN));
    assert_eq!(metres(TERRARIUM, terrarium::decode_pixel(pixel)), 0.0);
}

#[test]
fn terrarium_bulk_matches_pixel() {
    let elevations: Vec<f32> = vec![-100.0, 0.0, 100.0, 1234.5, 8000.0, -500.0];
    let bulk = terrarium::encode(&samples(TERRARIUM, &elevations), 6, 1);
    let from_pixels: Vec<u8> = elevations
        .iter()
        .flat_map(|&e| terrarium::encode_pixel(steps(TERRARIUM, e)))
        .collect();
    assert_eq!(bulk, from_pixels);
}

#[test]
fn mapbox_pixel_roundtrip() {
    for e in [-100.0_f32, 0.0, 100.0, 1234.5, 8000.0, -500.0] {
        let back = metres(MAPBOX, mapbox::decode_pixel(mapbox::encode_pixel(steps(MAPBOX, e))));
        assert!(approx_eq(e, back, 0.1), "{e} to {back}");
    }
}

#[test]
fn mapbox_minimum_value_is_minus_10000() {
    assert_eq!(mapbox::encode_pixel(steps(MAPBOX, -10000.0)), [0, 0, 0]);
    assert_eq!(metres(MAPBOX, mapbox::decode_pixel([0, 0, 0])), -10000.0);
    assert_eq!(mapbox::encode_pixel(None), [0, 0, 0]);
}

#[test]
fn elevations_out_of_range_are_clamped() {
    for format in [TERRARIUM, MAPBOX] {
        assert_eq!(encode_pixel(format, Some(-1)), [0, 0, 0]);
        assert_eq!(encode_pixel(format, Some(0x100_0000)), [255, 255, 255]);
        assert_eq!(encode_pixel(format, Some(i64::MAX)), [255, 255, 255]);
        assert_eq!(encode_pixel(format, Some(i64::MIN)), [0, 0, 0]);
    }
}

#[test]
fn gsi_sentinel_decodes_to_nan() {
    assert!(metres(GSI, gsi::decode_pixel([0x80, 0x00, 0x00])).is_nan());
}

#[test]
fn gsi_nan_encodes_to_sentinel() {
    assert_eq!(gsi::encode_pixel(steps(GSI, f32::NAN)), [0x80, 0x00, 0x00]);
    assert_eq!(gsi::SENTINEL_RGB, [0x80, 0x00, 0x00]);
}

#[test]
fn gsi_pixel_roundtrip_positive_and_negative() {
    for e in [0.0_f32, 100.0, 3776.24, -10.5, -429.4] {
        let back = metres(GSI, gsi::decode_pixel(gsi::encode_pixel(steps(GSI, e))));
        assert!(approx_eq(e, back, 0.01), "{e} to {back}");
    }
}

#[test]
fn gsi_zero_is_all_zero_rgb() {
    assert_eq!(gsi::encode_pixel(steps(GSI, 0.0)), [0, 0, 0]);
}

#[test]
fn gsi_elevations_wrap_around() {
    assert_eq!(gsi::encode_pixel(Some(-1)), [255, 255, 255]);
    assert_eq!(gsi::encode_pixel(Some(0x100_0001)), [0, 0, 1]);
    assert_eq!(gsi::encode_pixel(Some(i64::MIN)), [0, 0, 0]);
    assert_eq!(gsi::encode_pixel(Some(i64::MAX)), [255, 255, 255]);
    // The lowest elevation shares its pixel with the no-data mark.
    assert_eq!(gsi::decode_pixel(gsi::encode_pixel(Some(-0x80_0000))), None);
    assert_eq!(gsi::decode_pixel([0x80, 0, 1]), Some(-0x7f_ffff));
}

#[test]
fn no_two_pixels_mean_the_same() {
    for format in HeightmapFormat::ALL {
        for r in [0u8, 1, 127, 128, 129, 255] {
            for g in [0u8, 77, 255] {
                for b in [0u8, 1, 255] {
                    let sample = decode_pixel(format, [r, g, b]);
                    assert_eq!(encode_pixel(format, sample), [r, g, b]);
                }
            }
        }
    }
}

#[test]
fn format_from_str_accepts_aliases() {
    assert_eq!("terrarium".parse(), Ok(HeightmapFormat::Terrarium));
    assert_eq!("TERRARIUM".parse(), Ok(HeightmapFormat::Terrarium));
    assert_eq!("mapbox".parse(), Ok(HeightmapFormat::Mapbox));
    assert_eq!("mapbox-rgb".parse(), Ok(HeightmapFormat::Mapbox));
    assert_eq!("terrain-rgb".parse(), Ok(HeightmapFormat::Mapbox));
    assert_eq!("gsi".parse(), Ok(HeightmapFormat::Gsi));
    assert_eq!("gsi-dem".parse(), Ok(HeightmapFormat::Gsi));
    assert!("bogus".parse::<HeightmapFormat>().is_err());
}

#[test]
fn unknown_formats_are_named_in_the_error() {
    let error: ParseHeightmapFormatError = HeightmapFormat::from_name("B\u{f6}gus").unwrap_err();
    assert_eq!(error.input, "B\u{f6}gus");
    assert_eq!(
        error.message(),
        "unknown heightmap format `B\u{f6}gus` (expected one of: terrarium, mapbox, gsi)"
    );
    assert!(HeightmapFormat::from_name("").is_err());
    assert!(HeightmapFormat::from_name("gs").is_err());
    assert!(HeightmapFormat::from_name("gsi ").is_err());
}

#[test]
fn format_display_roundtrips_through_from_str() {
    for fmt in HeightmapFormat::ALL {
        let parsed: HeightmapFormat = fmt.name().to_string().parse().unwrap();
        assert_eq!(parsed, fmt);
    }
}

#[test]
fn dispatch_matches_per_module_for_every_format() {
    let elevations: Vec<f32> = vec![-100.0, 0.0, 100.0, 1234.5, -500.0];
    for fmt in HeightmapFormat::ALL {
        let steps_of = samples(fmt, &elevations);
        let dispatched = encode(fmt, &steps_of, elevations.len() as u32, 1);
        let direct = match fmt {
            HeightmapFormat::Terrarium => terrarium::encode(&steps_of, 5, 1),
            HeightmapFormat::Mapbox => mapbox::encode(&steps_of, 5, 1),
            HeightmapFormat::Gsi => gsi::encode(&steps_of, 5, 1),
        };
        assert_eq!(dispatched, direct);
        for &e in &elevations {
            let px = encode_pixel(fmt, steps(fmt, e));
            let back = metres(fmt, decode_pixel(fmt, px));
            assert!((e - back).abs() <= 0.1);
        }
        let back = match fmt {
            HeightmapFormat::Terrarium => terrarium::decode(&direct, 5, 1),
            HeightmapFormat::Mapbox => mapbox::decode(&direct, 5, 1),
            HeightmapFormat::Gsi => gsi::decode(&direct, 5, 1),
        };
        assert_eq!(back, steps_of);
    }
}

#[test]
fn gsi_bulk_matches_pixel() {
    let elevations: Vec<f32> = vec![0.0, 100.0, -10.5, f32::NAN, 3776.24];
    let bulk = gsi::encode(&samples(GSI, &elevations), elevations.len() as u32, 1);
    let from_pixels: Vec<u8> = elevations
        .iter()
        .flat_map(|&e| gsi::encode_pixel(steps(GSI, e)))
        .collect();
    assert_eq!(bulk, from_pixels);
}

#[test]
fn encode_into_matches_encode_vec() {
    let elevations: Vec<f32> = (0..16).map(|i| i as f32 * 10.0).collect();
    for fmt in HeightmapFormat::ALL {
        let steps_of = samples(fmt, &elevations);
        let expected = encode(fmt, &steps_of, 16, 1);
        let mut buf = vec![0u8; elevations.len() * 3];
        encode_into(fmt, &steps_of, &mut buf);
        assert_eq!(expected, buf);
        let mut per_module = vec![0u8; elevations.len() * 3];
        let mut back = vec![None; elevations.len()];
        match fmt {
            HeightmapFormat::Terrarium => {
                terrarium::encode_into(&steps_of, &mut per_module);
                terrarium::decode_into(&buf, &mut back);
            }
            HeightmapFormat::Mapbox => {
                mapbox::encode_into(&steps_of, &mut per_module);
                mapbox::decode_into(&buf, &mut back);
            }
            HeightmapFormat::Gsi => {
                gsi::encode_into(&steps_of, &mut per_module);
                gsi::decode_into(&buf, &mut back);
            }
        }
        assert_eq!(per_module, buf);
        assert_eq!(back, steps_of);
    }
}

#[test]
fn heightmap_view_iter_matches_decode() {
    let elevations: Vec<f32> = vec![0.0, 100.0, 200.0, -50.0];
    for fmt in HeightmapFormat::ALL {
        let rgb = encode(fmt, &samples(fmt, &elevations), 4, 1);
        let view = HeightmapView::new(fmt, &rgb, 4, 1);
        assert_eq!(view.len(), 4);
        assert!(!view.is_empty());
        let direct = decode(fmt, &rgb, 4, 1);
        assert_eq!(view.iter(), direct);
        assert_eq!(view.get(0, 0), direct[0]);
        assert_eq!(view.get(3, 0), direct[3]);
        assert_eq!(view.to_vec(), direct);
        let mut out = vec![None; 4];
        view.decode_into(&mut out);
        assert_eq!(out, direct);
        decode_into(fmt, &rgb, &mut out);
        assert_eq!(out, direct);
    }
}

/// An elevation in metres as a heightmap-1.0 height.
fn elevation_to_u16(elevation: f64) -> u16 {
    ((elevation.clamp(-1000.0, 12107.0) + 1000.0) * 5.0).round() as u16
}

#[test]
fn encode_decode_bulk() {
    let elevations: Vec<f64> = vec![0.0, 100.0, -100.0, 1000.0];
    let heights: Vec<u16> = elevations.iter().map(|e| elevation_to_u16(*e)).collect();
    let bytes = cesium::encode_heights(&heights, 2, 2);
    assert_eq!(bytes.len(), 8);
    assert_eq!(&bytes[0..2], &[0x88, 0x13]);
    let back = cesium::decode_heights(&bytes);
    for (a, b) in elevations.iter().zip(&back) {
        assert!((a - (*b as f64 / 5.0 - 1000.0)).abs() < 0.2);
    }
}

#[test]
fn heights_beyond_the_tile_are_left_out() {
    let heights = [1u16, 2, 3, 0xabcd, 5];
    assert_eq!(cesium::encode_heights(&heights, 2, 2), vec![1, 0, 2, 0, 3, 0, 0xcd, 0xab]);
    let mut out = [9u8; 4];
    cesium::encode_heights_into(&heights, 2, 1, &mut out);
    assert_eq!(out, [1, 0, 2, 0]);
    assert_eq!(cesium::iter_heights(&[1, 0, 2, 0, 7]), vec![1, 2]);
    assert_eq!(cesium::TILE_SIZE, 65);
}

#[test]
fn child_mask_bits_match_spec() {
    assert_eq!(ChildTileMask::all().to_byte(), 0b1111);
    assert_eq!(ChildTileMask::none().to_byte(), 0);
    let only_se = ChildTileMask {
        southeast: true,
        ..Default::default()
    };
    assert_eq!(only_se.to_byte(), 0b0010);
    assert_eq!(
        ChildTileMask::from_byte(0b1010),
        ChildTileMask {
            southwest: false,
            southeast: true,
            northwest: false,
            northeast: true,
        }
    );
}

#[test]
fn child_masks_keep_the_lower_four_bits() {
    for byte in 0..=255u8 {
        assert_eq!(ChildTileMask::from_byte(byte).to_byte(), byte & 0xf);
    }
}

#[test]
fn png_roundtrip_through_codec() {
    let width = 8u32;
    let height = 8u32;
    let elevations: Vec<f32> = (0..(width * height) as usize).map(|i| i as f32 * 10.0).collect();
    for fmt in [HeightmapFormat::Terrarium, HeightmapFormat::Mapbox, HeightmapFormat::Gsi] {
        let rgb = encode(fmt, &samples(fmt, &elevations), width, height);
        let png = rgb_to_png(&rgb, width, height).unwrap();
        assert_eq!(&png[..8], b"\x89PNG\r\n\x1a\n");
        let DecodedImage {
            rgb: rgb_back,
            width: w2,
            height: h2,
        } = decode_image(&png).unwrap();
        assert_eq!((w2, h2), (width, height));
        assert_eq!(rgb_back, rgb);
        let elev_back = decode(fmt, &rgb_back, width, height);
        for (a, b) in elevations.iter().zip(&elev_back) {
            assert!((a - metres(fmt, *b)).abs() < 0.5);
        }
    }
}

#[test]
fn webp_roundtrip_through_codec() {
    let width = 8u32;
    let height = 8u32;
    let elevations: Vec<f32> = (0..(width * height) as usize).map(|i| i as f32 * 10.0).collect();
    let rgb = encode(TERRARIUM, &samples(TERRARIUM, &elevations), width, height);
    let webp = rgb_to_webp(&rgb, width, height).unwrap();
    assert_eq!(&webp[..4], b"RIFF");
    assert_eq!(&webp[8..12], b"WEBP");
    let decoded = decode_image(&webp).unwrap();
    assert_eq!((decoded.width, decoded.height), (width, height));
    assert_eq!(decoded.rgb, rgb);
}

#[test]
fn images_with_an_empty_side_are_refused() {
    for (width, height) in [(0u32, 0u32), (0, 5), (5, 0)] {
        assert!(rgb_to_png(&[], width, height).is_err());
        assert!(rgb_to_webp(&[], width, height).is_err());
    }
    let row = vec![3u8; 16385 * 3];
    assert!(rgb_to_webp(&row, 16385, 1).is_err());
    assert!(rgb_to_webp(&row[..16384 * 3], 16384, 1).is_ok());
    let png = rgb_to_png(&row, 16385, 1).unwrap();
    assert_eq!(decode_image(&png).unwrap().rgb, row);
}

#[test]
fn webp_sides_reach_16383() {
    let row: Vec<u8> = (0..16384 * 3).map(|i| (i % 251) as u8).collect();
    for (width, height) in [(16383u32, 1u32), (1, 16383)] {
        let rgb = &row[..16383 * 3];
        let decoded = decode_image(&rgb_to_webp(rgb, width, height).unwrap()).unwrap();
        assert_eq!((decoded.width, decoded.height), (width, height));
        assert_eq!(decoded.rgb, rgb);
    }
    for (width, height) in [(16384u32, 1u32), (1, 16384)] {
        let file = rgb_to_webp(&row, width, height).unwrap();
        assert!(decode_image(&file).is_err());
    }
}

#[test]
fn what_is_no_image_is_refused() {
    let error = decode_image(b"no image at all").unwrap_err();
    assert!(!error.message.is_empty());
    let mut cut = rgb_to_png(&[1, 2, 3], 1, 1).unwrap();
    cut.truncate(40);
    assert!(decode_image(&cut).is_err());
}
