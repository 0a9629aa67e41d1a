//! Heightmap codecs for elevation tile formats.
//!
//! - RGB tiles ([`terrarium`], [`mapbox`], [`gsi`]): an elevation is three bytes, the red, green
//!   and blue of a pixel.
//! - Cesium heightmap-1.0 ([`cesium`]): an elevation is two bytes.
//! - [`container`] wraps RGB bytes in PNG or WebP.
//!
//! An elevation sample is a number of steps of its format, or `None` where there is no
//! elevation. Steps are counted from the zero of the format:
//!
//! | Format    | Step    | Zero     |
//! |-----------|---------|----------|
//! | Terrarium | 1/256 m | -32768 m |
//! | Mapbox    | 0.1 m   | -10000 m |
//! | GSI       | 0.01 m  | 0 m      |
use vstd::prelude::*;
use vstd::string::{StringExecFns, StrSliceExecFns};

pub mod cesium;
pub mod container;
pub mod gsi;
pub mod mapbox;
pub mod terrarium;

verus! {

/// RGB heightmap encodings.
#[derive(Debug, Clone, Copy, PartialEq, Eq, Structural, Hash)]
pub enum HeightmapFormat {
    /// Mapzen, Tilezen and Stadia "Terrarium".
    Terrarium,
    /// Mapbox "Terrain-RGB".
    Mapbox,
    /// DEM tiles of the Geospatial Information Authority of Japan.
    Gsi,
}

/// The number of codes that three bytes can hold.
pub const CODES: i64 = 0x100_0000;

/// The code with the highest bit set and no other.
pub const SIGN_CODE: i64 = 0x80_0000;

/// The code nearest to a number of steps.
pub open spec fn clamped(steps: i64) -> i64 {
    if steps < 0 {
        0
    } else if steps >= CODES {
        (CODES - 1) as i64
    } else {
        steps
    }
}

/// The code of a sample. Without an elevation it is zero metres in Terrarium, the lowest
/// elevation in Mapbox, and the no-data mark in GSI.
pub open spec fn code_of(format: HeightmapFormat, sample: Option<i64>) -> i64 {
    match (format, sample) {
        (HeightmapFormat::Terrarium, Some(steps)) => clamped(steps),
        (HeightmapFormat::Terrarium, None) => SIGN_CODE,
        (HeightmapFormat::Mapbox, Some(steps)) => clamped(steps),
        (HeightmapFormat::Mapbox, None) => 0,
        (HeightmapFormat::Gsi, Some(steps)) => steps % CODES,
        (HeightmapFormat::Gsi, None) => SIGN_CODE,
    }
}

/// The sample with the given code.
pub open spec fn sample_of(format: HeightmapFormat, code: i64) -> Option<i64> {
    match format {
        HeightmapFormat::Terrarium => Some(code),
        HeightmapFormat::Mapbox => Some(code),
        HeightmapFormat::Gsi => if code == SIGN_CODE {
            None
        } else if code > SIGN_CODE {
            Some((code - CODES) as i64)
        } else {
            Some(code)
        },
    }
}

/// The three bytes of a code, the highest first.
pub open spec fn code_bytes(code: i64) -> Seq<u8> {
    seq![(code / 0x1_0000) as u8, ((code / 0x100) % 0x100) as u8, (code % 0x100) as u8]
}

/// The code of three bytes.
pub open spec fn bytes_code(r: u8, g: u8, b: u8) -> i64 {
    (r * 0x1_0000 + g * 0x100 + b) as i64
}

/// The bytes of a run of samples.
pub open spec fn sample_bytes(format: HeightmapFormat, samples: Seq<Option<i64>>) -> Seq<u8> {
    Seq::new(3 * samples.len(), |j: int| code_bytes(code_of(format, samples[j / 3]))[j % 3])
}

/// The sample of pixel `i`.
pub open spec fn pixel_sample(format: HeightmapFormat, rgb: Seq<u8>, i: int) -> Option<i64> {
    sample_of(format, bytes_code(rgb[3 * i], rgb[3 * i + 1], rgb[3 * i + 2]))
}

/// The samples of a run of pixels; up to two bytes at the end are left out.
pub open spec fn pixel_samples(format: HeightmapFormat, rgb: Seq<u8>) -> Seq<Option<i64>> {
    Seq::new(rgb.len() / 3, |i: int| pixel_sample(format, rgb, i))
}

/// The sample has a pixel of its own: it is not clamped, wrapped or taken for another.
pub open spec fn is_representable(format: HeightmapFormat, sample: Option<i64>) -> bool {
    match (format, sample) {
        (HeightmapFormat::Gsi, Some(steps)) => -SIGN_CODE < steps < SIGN_CODE,
        (HeightmapFormat::Gsi, None) => true,
        (_, Some(steps)) => 0 <= steps < CODES,
        (_, None) => false,
    }
}

proof fn lemma_code_range(format: HeightmapFormat, sample: Option<i64>)
    ensures
        0 <= code_of(format, sample) < CODES,
{
}

proof fn lemma_code_of_bytes(code: i64)
    requires
        0 <= code < CODES,
    ensures
        ({
            let s = code_bytes(code);
            bytes_code(s[0], s[1], s[2]) == code
        }),
{
    let s = code_bytes(code);
    assert(code == (code / 0x1_0000) * 0x1_0000 + (code / 0x100 % 0x100) * 0x100 + code % 0x100);
}

proof fn lemma_bytes_of_code(r: u8, g: u8, b: u8)
    ensures
        0 <= bytes_code(r, g, b) < CODES,
        code_bytes(bytes_code(r, g, b)) =~= seq![r, g, b],
{
}

/// What the bytes of a pixel mean: red, green and blue are the digits of its code to base 256.
/// Terrarium and Mapbox count the code as steps, and keep a number of steps within the codes.
/// GSI counts it as a signed 24-bit integer, and wraps a number of steps around. A missing
/// elevation is zero metres in Terrarium, the lowest elevation in Mapbox, and a mark of its own
/// in GSI.
pub proof fn law_pixel_meaning(format: HeightmapFormat, sample: Option<i64>, r: u8, g: u8, b: u8)
    ensures
        ({
            let rgb = code_bytes(code_of(format, sample));
            let written = 65536 * rgb[0] + 256 * rgb[1] + rgb[2];
            &&& rgb.len() == 3
            &&& format != HeightmapFormat::Gsi ==> match sample {
                Some(steps) => {
                    &&& 0 <= steps < 0x100_0000 ==> written == steps
                    &&& steps < 0 ==> written == 0
                    &&& steps >= 0x100_0000 ==> written == 0xff_ffff
                },
                None => written == if format == HeightmapFormat::Terrarium {
                    32768 * 256
                } else {
                    0
                },
            }
            &&& format == HeightmapFormat::Gsi ==> match sample {
                Some(steps) => (written - steps) % 0x100_0000 == 0,
                None => rgb == seq![128u8, 0, 0],
            }
        }),
        ({
            let read = sample_of(format, bytes_code(r, g, b));
            let code = 65536 * r + 256 * g + b;
            &&& format != HeightmapFormat::Gsi ==> read is Some && read->0 == code
            &&& format == HeightmapFormat::Gsi ==> match read {
                Some(steps) => -0x80_0000 < steps < 0x80_0000 && (code - steps) % 0x100_0000 == 0,
                None => r == 128 && g == 0 && b == 0,
            }
            &&& format == HeightmapFormat::Gsi && r == 128 && g == 0 && b == 0 ==> read is None
        }),
{
    lemma_code_range(format, sample);
    lemma_code_of_bytes(code_of(format, sample));
    let rgb = code_bytes(code_of(format, sample));
    assert(code_of(format, sample) == 65536 * rgb[0] + 256 * rgb[1] + rgb[2]);
    if format == HeightmapFormat::Gsi {
        if let Some(steps) = sample {
            lemma_same_remainder(steps as int);
        } else {
            assert(rgb =~= seq![128u8, 0, 0]);
        }
    }
}

proof fn lemma_same_remainder(steps: int)
    ensures
        (steps % 0x100_0000 - steps) % 0x100_0000 == 0,
{
}

/// Pixels stand one after the other, three bytes each: the bytes of a tile are those of its
/// samples in turn, and the samples of a tile are those of its pixels in turn.
pub proof fn law_pixels_in_turn(
    format: HeightmapFormat,
    samples: Seq<Option<i64>>,
    rgb: Seq<u8>,
    i: int,
)
    ensures
        sample_bytes(format, samples).len() == 3 * samples.len(),
        0 <= i < samples.len() ==> sample_bytes(format, samples).subrange(3 * i, 3 * i + 3)
            == code_bytes(code_of(format, samples[i])),
        pixel_samples(format, rgb).len() == rgb.len() / 3,
        0 <= i < rgb.len() / 3 ==> pixel_samples(format, rgb)[i] == sample_of(
            format,
            bytes_code(rgb[3 * i], rgb[3 * i + 1], rgb[3 * i + 2]),
        ),
        pixel_sample(format, rgb, i) == sample_of(
            format,
            bytes_code(rgb[3 * i], rgb[3 * i + 1], rgb[3 * i + 2]),
        ),
{
    if 0 <= i < samples.len() {
        let part = sample_bytes(format, samples).subrange(3 * i, 3 * i + 3);
        assert((3 * i) / 3 == i && (3 * i) % 3 == 0);
        assert((3 * i + 1) / 3 == i && (3 * i + 1) % 3 == 1);
        assert((3 * i + 2) / 3 == i && (3 * i + 2) % 3 == 2);
        assert(part =~= code_bytes(code_of(format, samples[i])));
    }
}

/// Decoding a pixel gives back the sample, where the format can represent it.
pub proof fn law_pixel_decode_of_encode(format: HeightmapFormat, sample: Option<i64>)
    requires
        is_representable(format, sample),
    ensures
        ({
            let s = code_bytes(code_of(format, sample));
            sample_of(format, bytes_code(s[0], s[1], s[2])) == sample
        }),
{
    lemma_code_range(format, sample);
    lemma_code_of_bytes(code_of(format, sample));
}

/// Encoding what a pixel decodes to gives back the pixel: no two pixels mean the same.
pub proof fn law_pixel_encode_of_decode(format: HeightmapFormat, r: u8, g: u8, b: u8)
    ensures
        code_bytes(code_of(format, sample_of(format, bytes_code(r, g, b)))) == seq![r, g, b],
        format != HeightmapFormat::Gsi ==> sample_of(format, bytes_code(r, g, b)) is Some,
{
    lemma_bytes_of_code(r, g, b);
}

/// Decoding a tile gives back its samples, where the format can represent them.
pub proof fn law_tile_decode_of_encode(format: HeightmapFormat, samples: Seq<Option<i64>>)
    requires
        forall|i: int|
            0 <= i < samples.len() ==> is_representable(format, #[trigger] samples[i]),
    ensures
        pixel_samples(format, sample_bytes(format, samples)) == samples,
{
    let rgb = sample_bytes(format, samples);
    assert forall|i: int| 0 <= i < samples.len() implies pixel_sample(format, rgb, i)
        == samples[i] by {
        assert((3 * i) / 3 == i && (3 * i) % 3 == 0);
        assert((3 * i + 1) / 3 == i && (3 * i + 1) % 3 == 1);
        assert((3 * i + 2) / 3 == i && (3 * i + 2) % 3 == 2);
        law_pixel_decode_of_encode(format, samples[i]);
    }
    assert(pixel_samples(format, rgb) =~= samples);
}

/// Encoding the samples of a tile gives back its bytes.
pub proof fn law_tile_encode_of_decode(format: HeightmapFormat, rgb: Seq<u8>)
    requires
        rgb.len() % 3 == 0,
    ensures
        sample_bytes(format, pixel_samples(format, rgb)) == rgb,
{
    let samples = pixel_samples(format, rgb);
    assert forall|j: int| 0 <= j < rgb.len() implies sample_bytes(format, samples)[j]
        == rgb[j] by {
        let i = j / 3;
        law_pixel_encode_of_decode(format, rgb[3 * i], rgb[3 * i + 1], rgb[3 * i + 2]);
        assert(j == 3 * i + j % 3);
    }
    assert(sample_bytes(format, samples) =~= rgb);
}

impl HeightmapFormat {
    /// All formats.
    pub const ALL: [HeightmapFormat; 3] = [
        HeightmapFormat::Terrarium,
        HeightmapFormat::Mapbox,
        HeightmapFormat::Gsi,
    ];

    /// The name of the format.
    pub open spec fn spec_name(self) -> Seq<char> {
        match self {
            HeightmapFormat::Terrarium => "terrarium"@,
            HeightmapFormat::Mapbox => "mapbox"@,
            HeightmapFormat::Gsi => "gsi"@,
        }
    }

    /// The name of the format, in lower case.
    pub fn name(self) -> (name: &'static str)
        ensures
            name@ == self.spec_name(),
            self == HeightmapFormat::Terrarium ==> name@ == "terrarium"@,
            self == HeightmapFormat::Mapbox ==> name@ == "mapbox"@,
            self == HeightmapFormat::Gsi ==> name@ == "gsi"@,
    {
        match self {
            HeightmapFormat::Terrarium => "terrarium",
            HeightmapFormat::Mapbox => "mapbox",
            HeightmapFormat::Gsi => "gsi",
        }
    }

    /// Finds the format with the given name or alias, in upper or lower case.
    pub fn from_name(text: &str) -> (format: Result<HeightmapFormat, ParseHeightmapFormatError>)
        ensures
            match format {
                Ok(f) => format_named(text@) == Some(f),
                Err(e) => format_named(text@) is None && e.input@ == text@,
            },
    {
        if is_name(text, "terrarium") {
            Ok(HeightmapFormat::Terrarium)
        } else if is_name(text, "mapbox") || is_name(text, "mapbox-rgb") || is_name(
            text,
            "terrain-rgb",
        ) {
            Ok(HeightmapFormat::Mapbox)
        } else if is_name(text, "gsi") || is_name(text, "gsi-dem") {
            Ok(HeightmapFormat::Gsi)
        } else {
            Err(ParseHeightmapFormatError { input: text.to_string() })
        }
    }
}

impl std::str::FromStr for HeightmapFormat {
    type Err = ParseHeightmapFormatError;

    /// Finds the format with the given name or alias, in upper or lower case.
    fn from_str(text: &str) -> (format: Result<HeightmapFormat, ParseHeightmapFormatError>)
        ensures
            match format {
                Ok(f) => format_named(text@) == Some(f),
                Err(e) => format_named(text@) is None && e.input@ == text@,
            },
    {
        HeightmapFormat::from_name(text)
    }
}

/// An ASCII letter in lower case; other characters as they are.
pub open spec fn lower(c: char) -> char {
    if 'A' <= c <= 'Z' {
        (c as u32 + 32) as char
    } else {
        c
    }
}

/// `text` is `name`, once its ASCII letters are in lower case.
pub open spec fn is_lowered(text: Seq<char>, name: Seq<char>) -> bool {
    text.map_values(|c: char| lower(c)) == name
}

/// The format with the given name or alias.
pub open spec fn format_named(text: Seq<char>) -> Option<HeightmapFormat> {
    if is_lowered(text, "terrarium"@) {
        Some(HeightmapFormat::Terrarium)
    } else if is_lowered(text, "mapbox"@) || is_lowered(text, "mapbox-rgb"@) || is_lowered(
        text,
        "terrain-rgb"@,
    ) {
        Some(HeightmapFormat::Mapbox)
    } else if is_lowered(text, "gsi"@) || is_lowered(text, "gsi-dem"@) {
        Some(HeightmapFormat::Gsi)
    } else {
        None
    }
}

/// The name of a format leads back to it.
pub proof fn law_format_of_name(format: HeightmapFormat)
    ensures
        format_named(format.spec_name()) == Some(format),
{
    reveal_strlit("terrarium");
    reveal_strlit("mapbox");
    reveal_strlit("gsi");
    reveal_strlit("mapbox-rgb");
    reveal_strlit("terrain-rgb");
    reveal_strlit("gsi-dem");
    let name = format.spec_name();
    assert(name.map_values(|c: char| lower(c)) =~= name);
    assert("terrarium"@.len() == 9 && "mapbox"@.len() == 6 && "gsi"@.len() == 3);
    assert("mapbox-rgb"@.len() == 10 && "terrain-rgb"@.len() == 11 && "gsi-dem"@.len() == 7);
}

/// A format is found by its name or an alias, letter by letter and in upper or lower case, and
/// by nothing else.
pub proof fn law_names_of_formats(text: Seq<char>)
    ensures
        ({
            let spells = |name: Seq<char>|
                {
                    &&& text.len() == name.len()
                    &&& forall|i: int|
                        0 <= i < name.len() ==> (#[trigger] text[i]) == name[i] && !('A' <= text[i]
                            <= 'Z') || 'A' <= text[i] <= 'Z' && text[i] as u32 + 32
                            == name[i] as u32
                };
            match format_named(text) {
                Some(HeightmapFormat::Terrarium) => spells("terrarium"@),
                Some(HeightmapFormat::Mapbox) => spells("mapbox"@) || spells("mapbox-rgb"@)
                    || spells("terrain-rgb"@),
                Some(HeightmapFormat::Gsi) => spells("gsi"@) || spells("gsi-dem"@),
                None => !spells("terrarium"@) && !spells("mapbox"@) && !spells("mapbox-rgb"@)
                    && !spells("terrain-rgb"@) && !spells("gsi"@) && !spells("gsi-dem"@),
            }
        }),
{
    assert forall|name: Seq<char>| #[trigger]
        is_lowered(text, name) == (text.len() == name.len() && forall|i: int|
            0 <= i < name.len() ==> (#[trigger] text[i]) == name[i] && !('A' <= text[i] <= 'Z')
                || 'A' <= text[i] <= 'Z' && text[i] as u32 + 32 == name[i] as u32) by {
        lemma_is_lowered(text, name);
    }
}

proof fn lemma_lower(c: char, d: char)
    ensures
        lower(c) == d <==> c == d && !('A' <= c <= 'Z') || 'A' <= c <= 'Z' && c as u32 + 32
            == d as u32,
{
}

proof fn lemma_is_lowered(text: Seq<char>, name: Seq<char>)
    ensures
        is_lowered(text, name) == (text.len() == name.len() && forall|i: int|
            0 <= i < name.len() ==> (#[trigger] text[i]) == name[i] && !('A' <= text[i] <= 'Z')
                || 'A' <= text[i] <= 'Z' && text[i] as u32 + 32 == name[i] as u32),
{
    let low = text.map_values(|c: char| lower(c));
    if is_lowered(text, name) {
        assert forall|i: int| 0 <= i < name.len() implies (#[trigger] text[i]) == name[i] && !('A'
            <= text[i] <= 'Z') || 'A' <= text[i] <= 'Z' && text[i] as u32 + 32
            == name[i] as u32 by {
            assert(low[i] == lower(text[i]));
            lemma_lower(text[i], name[i]);
        }
    }
    if text.len() == name.len() && forall|i: int|
        0 <= i < name.len() ==> (#[trigger] text[i]) == name[i] && !('A' <= text[i] <= 'Z') || 'A'
            <= text[i] <= 'Z' && text[i] as u32 + 32 == name[i] as u32 {
        assert forall|i: int| 0 <= i < name.len() implies low[i] == name[i] by {
            assert(low[i] == lower(text[i]));
            lemma_lower(text[i], name[i]);
        }
        assert(low =~= name);
    }
}

/// Whether `text` is `name`, once its ASCII letters are in lower case.
fn is_name(text: &str, name: &str) -> (same: bool)
    ensures
        same == is_lowered(text@, name@),
{
    let n: usize = name.unicode_len();
    if text.unicode_len() != n {
        return false;
    }
    let mut i: usize = 0;
    while i < n
        invariant
            i <= n,
            n == name@.len(),
            n == text@.len(),
            forall|k: int| 0 <= k < i ==> lower(#[trigger] text@[k]) == name@[k],
        decreases n - i,
    {
        let c: char = text.get_char(i);
        let d: char = name.get_char(i);
        let lowered: u32 = if 'A' <= c && c <= 'Z' {
            c as u32 + 32
        } else {
            c as u32
        };
        if lowered != d as u32 {
            proof {
                if is_lowered(text@, name@) {
                    assert(text@.map_values(|c: char| lower(c))[i as int] == name@[i as int]);
                }
            }
            return false;
        }
        i = i + 1;
    }
    assert(text@.map_values(|c: char| lower(c)) =~= name@);
    true
}

/// The name of a format was not recognised.
#[derive(Debug, Clone, PartialEq, Eq)]
pub struct ParseHeightmapFormatError {
    /// The text that is no name.
    pub input: String,
}

impl ParseHeightmapFormatError {
    /// The message of the error.
    pub fn message(&self) -> (message: String)
        ensures
            message@ == "unknown heightmap format `"@ + self.input@
                + "` (expected one of: terrarium, mapbox, gsi)"@,
    {
        let mut message: String = "unknown heightmap format `".to_string();
        message.append(self.input.as_str());
        message.append("` (expected one of: terrarium, mapbox, gsi)");
        message
    }
}

/// The three bytes of a code.
fn code_to_rgb(code: i64) -> (rgb: [u8; 3])
    requires
        0 <= code < CODES,
    ensures
        rgb@ == code_bytes(code),
{
    let rgb: [u8; 3] = [
        (code / 0x1_0000) as u8,
        ((code / 0x100) % 0x100) as u8,
        (code % 0x100) as u8,
    ];
    assert(rgb@ =~= code_bytes(code));
    rgb
}

/// The code of three bytes.
fn rgb_to_code(rgb: [u8; 3]) -> (code: i64)
    ensures
        code == bytes_code(rgb@[0], rgb@[1], rgb@[2]),
        0 <= code < CODES,
{
    rgb[0] as i64 * 0x1_0000 + rgb[1] as i64 * 0x100 + rgb[2] as i64
}

/// The code that a number of steps wraps around to.
fn wrapped(steps: i64) -> (code: i64)
    ensures
        code == steps % CODES,
        0 <= code < CODES,
{
    if steps >= 0 {
        steps % CODES
    } else {
        // The remainder of `-1 - steps` counts down from the highest code.
        let above: i64 = (-1 - steps) % CODES;
        assert(steps % CODES == CODES - 1 - above);
        CODES - 1 - above
    }
}

/// Encodes one sample.
pub fn encode_pixel(format: HeightmapFormat, sample: Option<i64>) -> (rgb: [u8; 3])
    ensures
        rgb@ == code_bytes(code_of(format, sample)),
        format != HeightmapFormat::Gsi ==> match sample {
            Some(steps) => {
                &&& 0 <= steps < 0x100_0000 ==> 65536 * rgb@[0] + 256 * rgb@[1] + rgb@[2] == steps
                &&& steps < 0 ==> rgb@ == seq![0u8, 0, 0]
                &&& steps >= 0x100_0000 ==> rgb@ == seq![255u8, 255, 255]
            },
            None => rgb@ == if format == HeightmapFormat::Terrarium {
                seq![128u8, 0, 0]
            } else {
                seq![0u8, 0, 0]
            },
        },
        format == HeightmapFormat::Gsi ==> match sample {
            Some(steps) => (65536 * rgb@[0] + 256 * rgb@[1] + rgb@[2] - steps) % 0x100_0000 == 0,
            None => rgb@ == seq![128u8, 0, 0],
        },
{
    proof {
        law_pixel_meaning(format, sample, 0, 0, 0);
        assert(code_bytes(0) =~= seq![0u8, 0, 0]);
        assert(code_bytes(0x80_0000) =~= seq![128u8, 0, 0]);
        assert(code_bytes(0xff_ffff) =~= seq![255u8, 255, 255]);
    }
    let code: i64 = match sample {
        Some(steps) => match format {
            HeightmapFormat::Gsi => wrapped(steps),
            _ => if steps < 0 {
                0
            } else if steps >= CODES {
                CODES - 1
            } else {
                steps
            },
        },
        None => match format {
            HeightmapFormat::Mapbox => 0,
            _ => SIGN_CODE,
        },
    };
    code_to_rgb(code)
}

/// Decodes one pixel.
pub fn decode_pixel(format: HeightmapFormat, rgb: [u8; 3]) -> (sample: Option<i64>)
    ensures
        sample == sample_of(format, bytes_code(rgb@[0], rgb@[1], rgb@[2])),
        format != HeightmapFormat::Gsi ==> sample is Some && sample->0 == 65536 * rgb@[0] + 256
            * rgb@[1] + rgb@[2],
        format == HeightmapFormat::Gsi ==> match sample {
            Some(steps) => -0x80_0000 < steps < 0x80_0000 && (65536 * rgb@[0] + 256 * rgb@[1]
                + rgb@[2] - steps) % 0x100_0000 == 0,
            None => rgb@ == seq![128u8, 0, 0],
        },
        format == HeightmapFormat::Gsi && rgb@ == seq![128u8, 0, 0] ==> sample is None,
{
    proof {
        law_pixel_meaning(format, None, rgb@[0], rgb@[1], rgb@[2]);
        assert(rgb@ =~= seq![rgb@[0], rgb@[1], rgb@[2]]);
    }
    let code: i64 = rgb_to_code(rgb);
    match format {
        HeightmapFormat::Gsi => if code == SIGN_CODE {
            None
        } else if code > SIGN_CODE {
            Some(code - CODES)
        } else {
            Some(code)
        },
        _ => Some(code),
    }
}

/// Encodes samples into `out`, three bytes each.
pub fn encode_into(format: HeightmapFormat, samples: &[Option<i64>], out: &mut [u8])
    requires
        old(out).len() == 3 * samples.len(),
    ensures
        final(out)@ == sample_bytes(format, samples@),
{
    let mut i: usize = 0;
    while i < samples.len()
        invariant
            i <= samples.len(),
            out.len() == 3 * samples.len(),
            forall|j: int| 0 <= j < 3 * i ==> out@[j] == sample_bytes(format, samples@)[j],
        decreases samples.len() - i,
    {
        let rgb: [u8; 3] = encode_pixel(format, samples[i]);
        assert(3 * i + 3 <= out.len());
        out[3 * i] = rgb[0];
        out[3 * i + 1] = rgb[1];
        out[3 * i + 2] = rgb[2];
        proof {
            assert((3 * i) / 3 == i as int && (3 * i) % 3 == 0);
            assert((3 * i + 1) / 3 == i as int && (3 * i + 1) % 3 == 1);
            assert((3 * i + 2) / 3 == i as int && (3 * i + 2) % 3 == 2);
        }
        i = i + 1;
    }
    assert(out@ =~= sample_bytes(format, samples@));
}

/// Decodes pixels into `out`.
pub fn decode_into(format: HeightmapFormat, rgb: &[u8], out: &mut [Option<i64>])
    requires
        rgb.len() == 3 * old(out).len(),
    ensures
        final(out)@ == pixel_samples(format, rgb@),
{
    let mut i: usize = 0;
    while i < out.len()
        invariant
            i <= out.len(),
            rgb.len() == 3 * out.len(),
            forall|k: int| 0 <= k < i ==> out@[k] == pixel_sample(format, rgb@, k),
        decreases out.len() - i,
    {
        assert(3 * i + 3 <= rgb.len());
        let pixel: [u8; 3] = [rgb[3 * i], rgb[3 * i + 1], rgb[3 * i + 2]];
        out[i] = decode_pixel(format, pixel);
        i = i + 1;
    }
    assert(out@ =~= pixel_samples(format, rgb@));
}

/// Encodes a tile of `width` by `height` samples, row by row.
pub fn encode(format: HeightmapFormat, samples: &[Option<i64>], width: u32, height: u32) -> (rgb:
    Vec<u8>)
    requires
        samples.len() == width * height,
        3 * samples.len() <= usize::MAX,
    ensures
        rgb@ == sample_bytes(format, samples@),
{
    let mut rgb: Vec<u8> = vec![0; samples.len() * 3];
    encode_into(format, samples, rgb.as_mut_slice());
    rgb
}

/// Decodes a tile of `width` by `height` pixels, row by row.
pub fn decode(format: HeightmapFormat, rgb: &[u8], width: u32, height: u32) -> (samples: Vec<
    Option<i64>,
>)
    requires
        rgb.len() == 3 * (width * height),
    ensures
        samples@ == pixel_samples(format, rgb@),
{
    let pixels: usize = rgb.len() / 3;
    let mut samples: Vec<Option<i64>> = vec![None; pixels];
    decode_into(format, rgb, samples.as_mut_slice());
    samples
}

/// An encoded tile borrowed from its bytes.
#[derive(Debug, Clone, Copy)]
pub struct HeightmapView<'a> {
    /// Encoding of the bytes.
    pub format: HeightmapFormat,
    /// Pixels, row by row, three bytes each.
    pub rgb: &'a [u8],
    /// Pixels a row.
    pub width: u32,
    /// Number of rows.
    pub height: u32,
}

impl<'a> HeightmapView<'a> {
    /// The bytes are those of `width` by `height` pixels.
    pub open spec fn wf(&self) -> bool {
        self.rgb@.len() == 3 * (self.width * self.height)
    }

    /// Wraps the bytes of a tile.
    pub fn new(format: HeightmapFormat, rgb: &'a [u8], width: u32, height: u32) -> (view:
        HeightmapView<'a>)
        requires
            rgb.len() == 3 * (width * height),
        ensures
            view.wf(),
            view == (HeightmapView { format, rgb, width, height }),
    {
        HeightmapView { format, rgb, width, height }
    }

    /// Number of pixels.
    pub fn len(&self) -> (n: usize)
        requires
            self.wf(),
        ensures
            n == self.width * self.height,
    {
        self.rgb.len() / 3
    }

    /// Whether there are no pixels.
    pub fn is_empty(&self) -> (empty: bool)
        requires
            self.wf(),
        ensures
            empty == (self.width * self.height == 0),
    {
        self.rgb.len() == 0
    }

    /// The sample in column `x` of row `y`.
    pub fn get(&self, x: u32, y: u32) -> (sample: Option<i64>)
        requires
            self.wf(),
            y * self.width + x < self.width * self.height,
        ensures
            sample == pixel_sample(self.format, self.rgb@, y * self.width + x),
    {
        assert(y * self.width >= 0) by (nonlinear_arith);
        assert(self.rgb.len() <= usize::MAX);
        let i: usize = y as usize * self.width as usize + x as usize;
        decode_pixel(self.format, [self.rgb[3 * i], self.rgb[3 * i + 1], self.rgb[3 * i + 2]])
    }

    /// All samples, row by row.
    pub fn iter(&self) -> (samples: Vec<Option<i64>>)
        requires
            self.wf(),
        ensures
            samples@ == pixel_samples(self.format, self.rgb@),
    {
        self.to_vec()
    }

    /// Decodes the tile into `out`.
    pub fn decode_into(&self, out: &mut [Option<i64>])
        requires
            self.wf(),
            old(out).len() == self.width * self.height,
        ensures
            final(out)@ == pixel_samples(self.format, self.rgb@),
    {
        decode_into(self.format, self.rgb, out);
    }

    /// Decodes the tile.
    pub fn to_vec(&self) -> (samples: Vec<Option<i64>>)
        requires
            self.wf(),
        ensures
            samples@ == pixel_samples(self.format, self.rgb@),
    {
        let mut samples: Vec<Option<i64>> = vec![None; self.len()];
        self.decode_into(samples.as_mut_slice());
        samples
    }
}

} // verus!
