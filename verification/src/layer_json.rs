//! The `layer.json` manifest of a terrain tile set: format, tiling scheme, extensions and the
//! tiles available at each zoom level.
use crate::tile_coords::{geodetic_tms, web_mercator};
use vstd::arithmetic::power2::pow2;
use vstd::prelude::*;

verus! {

/// Tiling schemes.
#[derive(Debug, Clone, Copy, PartialEq, Eq, Structural)]
pub enum TilingScheme {
    /// Geodetic, row 0 in the south.
    Tms,
    /// Web Mercator, row 0 in the north.
    Xyz,
}

impl TilingScheme {
    /// The name in the manifest.
    pub open spec fn spec_name(self) -> Seq<char> {
        match self {
            TilingScheme::Tms => "tms"@,
            TilingScheme::Xyz => "xyz"@,
        }
    }

    /// The name in the manifest.
    pub fn as_str(self) -> (name: &'static str)
        ensures
            name@ == self.spec_name(),
            self == TilingScheme::Tms ==> name@ == "tms"@,
            self == TilingScheme::Xyz ==> name@ == "xyz"@,
    {
        match self {
            TilingScheme::Tms => "tms",
            TilingScheme::Xyz => "xyz",
        }
    }
}

/// Terrain formats.
#[derive(Debug, Clone, Copy, PartialEq, Eq, Structural)]
pub enum TerrainFormat {
    /// `heightmap-1.0`.
    Heightmap1,
    /// `quantized-mesh-1.0`.
    QuantizedMesh1,
}

impl TerrainFormat {
    /// The name in the manifest.
    pub open spec fn spec_name(self) -> Seq<char> {
        match self {
            TerrainFormat::Heightmap1 => "heightmap-1.0"@,
            TerrainFormat::QuantizedMesh1 => "quantized-mesh-1.0"@,
        }
    }

    /// The name in the manifest.
    pub fn as_str(self) -> (name: &'static str)
        ensures
            name@ == self.spec_name(),
            self == TerrainFormat::Heightmap1 ==> name@ == "heightmap-1.0"@,
            self == TerrainFormat::QuantizedMesh1 ==> name@ == "quantized-mesh-1.0"@,
    {
        match self {
            TerrainFormat::Heightmap1 => "heightmap-1.0",
            TerrainFormat::QuantizedMesh1 => "quantized-mesh-1.0",
        }
    }
}

/// A rectangle of available tiles of one zoom level, both ends counted.
#[derive(Debug, Clone, Copy, PartialEq, Eq, Structural)]
pub struct TileAvailability {
    /// First column.
    pub start_x: u32,
    /// First row.
    pub start_y: u32,
    /// Last column.
    pub end_x: u32,
    /// Last row.
    pub end_y: u32,
}

impl TileAvailability {
    /// Tile `(x, y)` is available.
    pub open spec fn contains(self, x: int, y: int) -> bool {
        self.start_x <= x <= self.end_x && self.start_y <= y <= self.end_y
    }

    /// Creates a range.
    pub fn new(start_x: u32, start_y: u32, end_x: u32, end_y: u32) -> (range: TileAvailability)
        ensures
            range == (TileAvailability { start_x, start_y, end_x, end_y }),
    {
        TileAvailability { start_x, start_y, end_x, end_y }
    }

    /// Creates the range of a whole level of the geodetic scheme.
    pub fn full_level_geodetic_tms(zoom: u8) -> (range: TileAvailability)
        requires
            zoom < 31,
        ensures
            range.start_x == 0 && range.start_y == 0,
            range.end_x + 1 == pow2((zoom + 1) as nat),
            range.end_y + 1 == pow2(zoom as nat),
    {
        TileAvailability::new(
            0,
            0,
            geodetic_tms::tile_count_x(zoom) - 1,
            geodetic_tms::tile_count_y(zoom) - 1,
        )
    }

    /// Creates the range of a whole Web Mercator level.
    pub fn full_level_xyz(zoom: u8) -> (range: TileAvailability)
        requires
            zoom < 32,
        ensures
            range.start_x == 0 && range.start_y == 0,
            range.end_x + 1 == pow2(zoom as nat),
            range.end_y + 1 == pow2(zoom as nat),
    {
        let n: u32 = web_mercator::tile_count(zoom);
        TileAvailability::new(0, 0, n - 1, n - 1)
    }

    /// Creates the range between the tiles of two opposite corners, in a scheme with row 0 in
    /// the south.
    pub fn from_corners_tms(southwest: (u32, u32), northeast: (u32, u32)) -> (range:
        TileAvailability)
        ensures
            range == (TileAvailability {
                start_x: southwest.0,
                start_y: southwest.1,
                end_x: northeast.0,
                end_y: northeast.1,
            }),
    {
        TileAvailability::new(southwest.0, southwest.1, northeast.0, northeast.1)
    }

    /// Creates the range between the tiles of two opposite corners, in a scheme with row 0 in
    /// the north.
    pub fn from_corners_xyz(southwest: (u32, u32), northeast: (u32, u32)) -> (range:
        TileAvailability)
        ensures
            range == (TileAvailability {
                start_x: southwest.0,
                start_y: northeast.1,
                end_x: northeast.0,
                end_y: southwest.1,
            }),
    {
        TileAvailability::new(southwest.0, northeast.1, northeast.0, southwest.1)
    }
}

/// What goes into a manifest. Bounds hold the IEEE 754 bits of west, south, east and north, in
/// degrees.
#[derive(Debug, Clone)]
pub struct LayerJsonConfig {
    /// Template of the tile addresses.
    pub tiles_template: String,
    /// Version of the data.
    pub version: String,
    /// Attribution.
    pub attribution: Option<String>,
    /// Available tiles of each zoom level.
    pub available: Vec<Vec<TileAvailability>>,
    /// Lowest zoom level.
    pub min_zoom: Option<u8>,
    /// Highest zoom level.
    pub max_zoom: Option<u8>,
    /// Tiling scheme.
    pub scheme: TilingScheme,
    /// Bounds.
    pub bounds: Option<[u64; 4]>,
    /// Names of the extensions.
    pub extensions: Vec<String>,
    /// Terrain format.
    pub format: TerrainFormat,
    /// Depth of the availability in the metadata extension.
    pub metadata_availability: Option<u8>,
}

/// A manifest.
#[derive(Debug, Clone)]
pub struct LayerJson {
    /// Version of the manifest format.
    pub tilejson: String,
    /// Name of the terrain format.
    pub format: String,
    /// Version of the data.
    pub version: String,
    /// Name of the tiling scheme.
    pub scheme: String,
    /// Templates of the tile addresses.
    pub tiles: Vec<String>,
    /// Available tiles of each zoom level.
    pub available: Vec<Vec<TileAvailability>>,
    /// Attribution.
    pub attribution: Option<String>,
    /// Lowest zoom level.
    pub min_zoom: Option<u8>,
    /// Highest zoom level.
    pub max_zoom: Option<u8>,
    /// Bounds.
    pub bounds: Option<[u64; 4]>,
    /// Names of the extensions.
    pub extensions: Vec<String>,
    /// Depth of the availability in the metadata extension.
    pub metadata_availability: Option<u8>,
}

/// The text of an optional string.
pub open spec fn optional_text(text: Option<String>) -> Option<Seq<char>> {
    match text {
        Some(t) => Some(t@),
        None => None,
    }
}

/// The texts of a list of strings.
pub open spec fn texts(list: Seq<String>) -> Seq<Seq<char>> {
    list.map_values(|t: String| t@)
}

/// The ranges of each level.
pub open spec fn ranges(levels: Seq<Vec<TileAvailability>>) -> Seq<Seq<TileAvailability>> {
    levels.map_values(|level: Vec<TileAvailability>| level@)
}

impl Default for LayerJsonConfig {
    /// Quantized meshes in the geodetic scheme, nothing else.
    fn default() -> (config: LayerJsonConfig)
        ensures
            config.tiles_template@ == "{z}/{x}/{y}.terrain"@,
            config.version@ == "1.0.0"@,
            config.attribution is None,
            config.available@.len() == 0,
            config.min_zoom is None,
            config.max_zoom is None,
            config.scheme == TilingScheme::Tms,
            config.bounds is None,
            config.extensions@.len() == 0,
            config.format == TerrainFormat::QuantizedMesh1,
            config.metadata_availability is None,
    {
        LayerJsonConfig {
            tiles_template: "{z}/{x}/{y}.terrain".to_string(),
            version: "1.0.0".to_string(),
            attribution: None,
            available: Vec::new(),
            min_zoom: None,
            max_zoom: None,
            scheme: TilingScheme::Tms,
            bounds: None,
            extensions: Vec::new(),
            format: TerrainFormat::QuantizedMesh1,
            metadata_availability: None,
        }
    }
}

fn copy_texts(list: &Vec<String>) -> (copy: Vec<String>)
    ensures
        texts(copy@) == texts(list@),
{
    let mut copy: Vec<String> = Vec::new();
    let mut i: usize = 0;
    while i < list.len()
        invariant
            i <= list.len(),
            copy@.len() == i,
            forall|k: int| 0 <= k < i ==> (#[trigger] copy@[k])@ == list@[k]@,
        decreases list.len() - i,
    {
        copy.push(list[i].clone());
        i = i + 1;
    }
    assert(texts(copy@) =~= texts(list@));
    copy
}

fn copy_ranges(levels: &Vec<Vec<TileAvailability>>) -> (copy: Vec<Vec<TileAvailability>>)
    ensures
        ranges(copy@) == ranges(levels@),
{
    let mut copy: Vec<Vec<TileAvailability>> = Vec::new();
    let mut i: usize = 0;
    while i < levels.len()
        invariant
            i <= levels.len(),
            copy@.len() == i,
            forall|k: int| 0 <= k < i ==> (#[trigger] copy@[k])@ == levels@[k]@,
        decreases levels.len() - i,
    {
        let level: &Vec<TileAvailability> = &levels[i];
        let mut copied: Vec<TileAvailability> = Vec::new();
        let mut j: usize = 0;
        while j < level.len()
            invariant
                j <= level.len(),
                copied@ == level@.take(j as int),
            decreases level.len() - j,
        {
            copied.push(level[j]);
            j = j + 1;
            assert(copied@ =~= level@.take(j as int));
        }
        assert(copied@ =~= level@);
        copy.push(copied);
        i = i + 1;
    }
    assert(ranges(copy@) =~= ranges(levels@));
    copy
}

impl LayerJson {
    /// Creates the manifest of a configuration.
    pub fn from_config(config: &LayerJsonConfig) -> (layer: LayerJson)
        ensures
            layer.tilejson@ == "2.1.0"@,
            layer.format@ == config.format.spec_name(),
            layer.version@ == config.version@,
            layer.scheme@ == config.scheme.spec_name(),
            texts(layer.tiles@) == seq![config.tiles_template@],
            ranges(layer.available@) == ranges(config.available@),
            optional_text(layer.attribution) == optional_text(config.attribution),
            layer.min_zoom == config.min_zoom,
            layer.max_zoom == config.max_zoom,
            layer.bounds == config.bounds,
            texts(layer.extensions@) == texts(config.extensions@),
            layer.metadata_availability == config.metadata_availability,
    {
        let mut tiles: Vec<String> = Vec::new();
        tiles.push(config.tiles_template.clone());
        assert(texts(tiles@) =~= seq![config.tiles_template@]);
        LayerJson {
            tilejson: "2.1.0".to_string(),
            format: config.format.as_str().to_string(),
            version: config.version.clone(),
            scheme: config.scheme.as_str().to_string(),
            tiles,
            available: copy_ranges(&config.available),
            attribution: match &config.attribution {
                Some(text) => Some(text.clone()),
                None => None,
            },
            min_zoom: config.min_zoom,
            max_zoom: config.max_zoom,
            bounds: config.bounds,
            extensions: copy_texts(&config.extensions),
            metadata_availability: config.metadata_availability,
        }
    }
}

} // verus!
