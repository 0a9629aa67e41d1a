//! From a grid mesh to an encoded terrain tile.
//!
//! Grid rows run from north to south: row 0 is the northern edge.
use crate::decoding::{decoded, DecodeErrorModel, MeshModel};
use crate::encoding::{EncodeOptions, QuantizedMeshEncoder};
use crate::gzip::has_gzip_magic;
use crate::header::{QuantizedMeshHeader, ONE_BITS};
use crate::martini::{
    corners, lemma_tile_side, lemma_vertex_count, mesh_triangles, refine, GridMesh, Martini,
};
use crate::mesh_laws::{edge_fits, encoded_mesh, mesh_fits, options_fit};
use crate::normals::BufferedElevations;
use crate::rtin::{is_tile_side, order, root, Triangle};
use crate::streams::{
    fits_index, high_water_codes, is_encodable, lemma_mark_monotone, lemma_quantized_steps, mark,
};
use crate::types::{
    is_edge, is_edge_order, law_edge_lists_vertices, EdgeIndices, QuantizedVertices, WaterMask,
    QUANTIZED_MAX,
};
use vstd::prelude::*;

verus! {

/// How the normals of a tile are found.
#[derive(Debug, Clone)]
pub enum NormalMode {
    /// None are written.
    Omit,
    /// From the faces of the mesh.
    FaceNormals,
    /// From the gradient of a grid that reaches into the neighbouring tiles.
    BufferedGradient(BufferedElevations),
}

impl NormalMode {
    /// The grid of the elevations, where there are any, is the grid of the tile.
    pub open spec fn matches_grid(&self, grid_size: u32) -> bool {
        match self {
            NormalMode::BufferedGradient(buffered) => buffered.tile_grid_size == grid_size,
            _ => true,
        }
    }

    /// Whether the mode can be used for a tile of `grid_size` vertices a side.
    pub fn fits(&self, grid_size: u32) -> (fits: bool)
        ensures
            fits == self.matches_grid(grid_size),
    {
        match self {
            NormalMode::BufferedGradient(buffered) => buffered.tile_grid_size == grid_size,
            _ => true,
        }
    }
}

impl Default for NormalMode {
    /// No normals.
    fn default() -> (mode: NormalMode)
        ensures
            mode is Omit,
    {
        NormalMode::Omit
    }
}

/// What a terrain tile is built and encoded with.
#[derive(Debug, Clone)]
pub struct TerrainOptions {
    /// Largest error of the mesh, as an order key.
    pub max_error: i64,
    /// Gzip compression level, from 1 to 9; 0 for no compression.
    pub compression_level: u32,
    /// How the normals are found.
    pub normals: NormalMode,
    /// Water mask.
    pub water_mask: Option<WaterMask>,
    /// Metadata as JSON text.
    pub metadata: Option<String>,
}

/// The order key of one metre.
pub const DEFAULT_MAX_ERROR: i64 = 0x3FF0_0000_0000_0000;

impl Default for TerrainOptions {
    /// An error of at most one metre, compression level 6, no extensions.
    fn default() -> (options: TerrainOptions)
        ensures
            options == (TerrainOptions {
                max_error: ONE_BITS as i64,
                compression_level: 6,
                normals: NormalMode::Omit,
                water_mask: None,
                metadata: None,
            }),
    {
        TerrainOptions {
            max_error: DEFAULT_MAX_ERROR,
            compression_level: 6,
            normals: NormalMode::Omit,
            water_mask: None,
            metadata: None,
        }
    }
}

/// The quantized coordinate nearest to the fraction `n / max`.
pub open spec fn quantized(n: int, max: int) -> u16 {
    ((2 * QUANTIZED_MAX * n + max) / (2 * max)) as u16
}

/// Quantizes the fraction `n / max`.
pub fn quantize(n: u32, max: u32) -> (q: u16)
    requires
        0 < max,
        n <= max,
    ensures
        q == quantized(n as int, max as int),
        q <= QUANTIZED_MAX,
        -(max as int) < 2 * (max * q) - 2 * (32767 * n) <= max,
{
    proof {
        lemma_quantized_range(n as int, max as int);
        law_quantized_is_nearest(n as int, max as int);
    }
    ((65534 * n as u64 + max as u64) / (2 * max as u64)) as u16
}

proof fn lemma_quantized_range(n: int, max: int)
    requires
        0 < max,
        0 <= n <= max,
    ensures
        0 <= (2 * QUANTIZED_MAX * n + max) / (2 * max) <= QUANTIZED_MAX,
{
    let num = 65534 * n + max;
    let q = num / (2 * max);
    vstd::arithmetic::div_mod::lemma_fundamental_div_mod(num, 2 * max);
    vstd::arithmetic::div_mod::lemma_mod_bound(num, 2 * max);
    assert(0 <= q <= 32767) by (nonlinear_arith)
        requires
            num == (2 * max) * q + num % (2 * max),
            0 <= num % (2 * max) < 2 * max,
            num <= 65534 * max + max,
            num >= 0,
            max > 0,
    ;
}

/// A fraction is quantized to the nearest step of 32767, halfway between two to the higher one.
pub proof fn law_quantized_is_nearest(n: int, max: int)
    requires
        0 < max,
        0 <= n <= max,
    ensures
        -max < 2 * (max * quantized(n, max)) - 2 * (32767 * n) <= max,
{
    lemma_quantized_range(n, max);
    let num = 65534 * n + max;
    let q = num / (2 * max);
    let r = num % (2 * max);
    vstd::arithmetic::div_mod::lemma_fundamental_div_mod(num, 2 * max);
    vstd::arithmetic::div_mod::lemma_mod_bound(num, 2 * max);
    assert((2 * max) * q == 2 * (max * q)) by (nonlinear_arith);
}

/// Every vertex of a tile is stored at its place, on the border and inside: `u` is the step
/// nearest to its column counted from the west, `v` the step nearest to its row counted from the
/// south.
pub proof fn law_vertices_are_stored_in_place(vertices: Seq<(u32, u32)>, grid_size: u32, i: int)
    requires
        is_tile_side(grid_size - 1),
        0 <= i < vertices.len(),
        vertices[i].0 < grid_size,
        vertices[i].1 < grid_size,
    ensures
        quantized_u(vertices, grid_size - 1).len() == vertices.len(),
        quantized_v(vertices, grid_size - 1).len() == vertices.len(),
        ({
            let max = grid_size - 1;
            let u = quantized_u(vertices, max)[i];
            let v = quantized_v(vertices, max)[i];
            &&& -max < 2 * (max * u) - 2 * (32767 * vertices[i].0) <= max
            &&& -max < 2 * (max * v) - 2 * (32767 * (max - vertices[i].1)) <= max
        }),
{
    let max = grid_size - 1;
    lemma_tile_side(max);
    law_quantized_is_nearest(vertices[i].0 as int, max);
    law_quantized_is_nearest(max - vertices[i].1, max);
}

/// A vertex further east has a higher or equal `u`, one further south a lower or equal `v`; on
/// tiles of up to 16384 cells a side no two columns or rows share one.
pub proof fn law_positions_keep_order(
    vertices: Seq<(u32, u32)>,
    grid_size: u32,
    i: int,
    j: int,
)
    requires
        is_tile_side(grid_size - 1),
        0 <= i < vertices.len(),
        0 <= j < vertices.len(),
        vertices[i].0 < grid_size && vertices[i].1 < grid_size,
        vertices[j].0 < grid_size && vertices[j].1 < grid_size,
    ensures
        ({
            let u = quantized_u(vertices, grid_size - 1);
            let v = quantized_v(vertices, grid_size - 1);
            let (p, q) = (vertices[i], vertices[j]);
            &&& p.0 <= q.0 ==> u[i] <= u[j]
            &&& p.1 <= q.1 ==> v[i] >= v[j]
            &&& grid_size <= 16385 && p.0 < q.0 ==> u[i] < u[j]
            &&& grid_size <= 16385 && p.1 < q.1 ==> v[i] > v[j]
        }),
{
    let max = grid_size - 1;
    lemma_tile_side(max);
    let (p, q) = (vertices[i], vertices[j]);
    if p.0 <= q.0 {
        lemma_quantized_monotone(p.0 as int, q.0 as int, max);
    }
    if p.1 <= q.1 {
        lemma_quantized_monotone(max - q.1, max - p.1, max);
    }
}

proof fn lemma_quantized_monotone(m: int, n: int, max: int)
    requires
        0 < max,
        0 <= m <= n <= max,
    ensures
        quantized(m, max) <= quantized(n, max),
        max <= 16384 && m < n ==> quantized(m, max) < quantized(n, max),
{
    law_quantized_is_nearest(m, max);
    law_quantized_is_nearest(n, max);
    let a = quantized(m, max) as int;
    let b = quantized(n, max) as int;
    assert(a <= b && (max <= 16384 && m < n ==> a < b)) by (nonlinear_arith)
        requires
            0 < max,
            m <= n,
            2 * (max * a) - 2 * (32767 * m) <= max,
            -max < 2 * (max * b) - 2 * (32767 * n),
    ;
}

/// The ends of a tile are quantized to the ends of the range, and nothing else is.
pub proof fn law_quantized_ends(n: int, max: int)
    requires
        0 < max <= 0x8000,
        0 <= n <= max,
    ensures
        quantized(n, max) == 0 <==> n == 0,
        quantized(n, max) == QUANTIZED_MAX <==> n == max,
{
    lemma_quantized_range(n, max);
    let num = 65534 * n + max;
    let q = num / (2 * max);
    let r = num % (2 * max);
    vstd::arithmetic::div_mod::lemma_fundamental_div_mod(num, 2 * max);
    vstd::arithmetic::div_mod::lemma_mod_bound(num, 2 * max);
    if n == 0 {
        assert(q == 0) by (nonlinear_arith)
            requires
                max == (2 * max) * q + r,
                0 <= r < 2 * max,
                q >= 0,
                max > 0,
        ;
    } else {
        assert(q >= 1) by (nonlinear_arith)
            requires
                num == (2 * max) * q + r,
                0 <= r < 2 * max,
                num >= 65534 + max,
                0 < max <= 0x8000,
        ;
    }
    if n == max {
        assert(q == 32767) by (nonlinear_arith)
            requires
                65534 * max + max == (2 * max) * q + r,
                0 <= r < 2 * max,
                max > 0,
        ;
    } else {
        assert(q < 32767) by (nonlinear_arith)
            requires
                num == (2 * max) * q + r,
                0 <= r,
                num <= 65534 * max - 65534 + max,
                0 < max <= 0x8000,
        ;
    }
}

/// `i` is the position of a key that no other key is below.
pub open spec fn is_lowest(keys: Seq<Option<i64>>, i: int) -> bool {
    &&& 0 <= i < keys.len()
    &&& keys[i] is Some
    &&& forall|k: int|
        0 <= k < keys.len() && (#[trigger] keys[k]) is Some ==> keys[i]->0 <= keys[k]->0
}

/// `i` is the position of a key that no other key is above.
pub open spec fn is_highest(keys: Seq<Option<i64>>, i: int) -> bool {
    &&& 0 <= i < keys.len()
    &&& keys[i] is Some
    &&& forall|k: int|
        0 <= k < keys.len() && (#[trigger] keys[k]) is Some ==> keys[i]->0 >= keys[k]->0
}

/// Finds the lowest and the highest of the heights with the given order keys; `None` if no
/// height has one.
pub fn height_range(keys: &[Option<i64>]) -> (range: Option<(usize, usize)>)
    ensures
        match range {
            Some(r) => {
                &&& is_lowest(keys@, r.0 as int) && is_highest(keys@, r.1 as int)
                &&& r.0 < keys@.len() && keys@[r.0 as int] is Some
                &&& r.1 < keys@.len() && keys@[r.1 as int] is Some
                &&& forall|k: int|
                    0 <= k < keys@.len() && (#[trigger] keys@[k]) is Some ==> keys@[r.0 as int]->0
                        <= keys@[k]->0 <= keys@[r.1 as int]->0
            },
            None => forall|k: int| 0 <= k < keys@.len() ==> (#[trigger] keys@[k]) is None,
        },
{
    let mut range: Option<(usize, usize)> = None;
    let mut low: i64 = 0;
    let mut high: i64 = 0;
    let mut i: usize = 0;
    while i < keys.len()
        invariant
            i <= keys.len(),
            match range {
                Some(r) => {
                    &&& is_lowest(keys@.take(i as int), r.0 as int)
                    &&& is_highest(keys@.take(i as int), r.1 as int)
                    &&& keys@[r.0 as int] == Some(low)
                    &&& keys@[r.1 as int] == Some(high)
                },
                None => forall|k: int| 0 <= k < i ==> (#[trigger] keys@[k]) is None,
            },
        decreases keys.len() - i,
    {
        let ghost seen = keys@.take(i as int);
        let ghost more = keys@.take(i + 1);
        assert(more =~= seen.push(keys@[i as int]));
        if let Some(key) = keys[i] {
            match range {
                Some((lowest, highest)) => {
                    if key < low {
                        low = key;
                        range = Some((i, highest));
                    } else if key > high {
                        high = key;
                        range = Some((lowest, i));
                    }
                },
                None => {
                    low = key;
                    high = key;
                    range = Some((i, i));
                },
            }
        }
        i = i + 1;
    }
    assert(keys@.take(i as int) =~= keys@);
    range
}

/// The horizontal positions of the vertices of a mesh.
pub open spec fn quantized_u(vertices: Seq<(u32, u32)>, max: int) -> Seq<u16> {
    Seq::new(vertices.len(), |i: int| quantized(vertices[i].0 as int, max))
}

/// The vertical positions of the vertices of a mesh, counted from the southern edge.
pub open spec fn quantized_v(vertices: Seq<(u32, u32)>, max: int) -> Seq<u16> {
    Seq::new(vertices.len(), |i: int| quantized(max - vertices[i].1, max))
}

/// Every vertex of the mesh lies on the grid.
pub open spec fn on_grid(mesh: GridMesh, grid_size: int) -> bool {
    forall|i: int|
        0 <= i < mesh.vertices@.len() ==> (#[trigger] mesh.vertices@[i]).0 < grid_size
            && mesh.vertices@[i].1 < grid_size
}

/// The edges are those of the grid: the vertices of column 0, of the last row, of the last
/// column and of row 0.
pub open spec fn has_grid_edges(encoder: QuantizedMeshEncoder) -> bool {
    let u = encoder.vertices.u@;
    let v = encoder.vertices.v@;
    &&& is_edge(encoder.edge_indices.west@, u, v, 0)
    &&& is_edge(encoder.edge_indices.east@, u, v, QUANTIZED_MAX)
    &&& is_edge(encoder.edge_indices.south@, v, u, 0)
    &&& is_edge(encoder.edge_indices.north@, v, u, QUANTIZED_MAX)
}

/// The encoder holds the mesh, with quantized positions and the given heights.
pub open spec fn holds_terrain(
    encoder: QuantizedMeshEncoder,
    header: QuantizedMeshHeader,
    mesh: GridMesh,
    grid_size: int,
    heights: Seq<u16>,
) -> bool {
    &&& encoder.header == header
    &&& encoder.vertices.u@ == quantized_u(mesh.vertices@, grid_size - 1)
    &&& encoder.vertices.v@ == quantized_v(mesh.vertices@, grid_size - 1)
    &&& encoder.vertices.height@ == heights
    &&& encoder.indices@ == mesh.indices@
    &&& has_grid_edges(encoder)
}

/// The options that a tile is encoded with: an extension is written if there is something to
/// write.
pub open spec fn encode_options(
    options: TerrainOptions,
    normals: Option<Vec<[u8; 2]>>,
) -> EncodeOptions {
    EncodeOptions {
        include_normals: normals is Some,
        normals,
        include_water_mask: options.water_mask is Some,
        water_mask: options.water_mask,
        include_metadata: options.metadata is Some,
        metadata: options.metadata,
        compression_level: options.compression_level,
    }
}

/// The mesh is one that a network on the grid gives, for some errors and some bound.
pub open spec fn is_network_mesh(mesh: GridMesh, grid_size: int) -> bool {
    exists|errors: Seq<i64>, max_error: i64|
        mesh.lists(#[trigger] corners(mesh_triangles(errors, grid_size, max_error)))
}

/// Builds the mesh of a tile from the error in the middle of each triangle's long edge.
pub fn triangulate(martini: &mut Martini, middle_errors: &[i64], options: &TerrainOptions) -> (mesh:
    GridMesh)
    requires
        old(martini).wf(),
        old(martini).covers_grid(),
        middle_errors.len() == old(martini).num_triangles,
    ensures
        mesh.lists(
            corners(
                mesh_triangles(
                    old(martini).errors(middle_errors@),
                    old(martini).size as int,
                    options.max_error,
                ),
            ),
        ),
        is_network_mesh(mesh, old(martini).size as int),
        on_grid(mesh, old(martini).size as int),
        is_encodable(mesh.indices@),
        final(martini).wf(),
        final(martini).size == old(martini).size,
        final(martini).coords == old(martini).coords,
{
    let tile = martini.create_terrain(middle_errors);
    let ghost size = martini.size;
    let mesh = tile.construct_mesh(martini, options.max_error);
    proof {
        lemma_tile_side(size - 1);
        lemma_vertex_count(size as int, mesh.vertices@);
    }
    mesh
}

/// Quantizes a mesh and finds its edges. `heights` are the quantized heights of its vertices,
/// `normals` their oct-encoded normals, where the options ask for them.
pub fn build(
    header: QuantizedMeshHeader,
    mesh: GridMesh,
    grid_size: u32,
    heights: Vec<u16>,
    normals: Option<Vec<[u8; 2]>>,
    options: TerrainOptions,
) -> (built: (QuantizedMeshEncoder, EncodeOptions))
    requires
        is_tile_side(grid_size - 1),
        on_grid(mesh, grid_size as int),
        heights.len() == mesh.vertices.len(),
        options.normals.matches_grid(grid_size),
        normals is None <==> options.normals is Omit,
    ensures
        holds_terrain(built.0, header, mesh, grid_size as int, heights@),
        built.1 == encode_options(options, normals),
        built.0.header == header,
        built.0.indices@ == mesh.indices@,
        built.0.vertices.height@ == heights@,
        built.0.vertices.u@.len() == mesh.vertices@.len(),
        built.0.vertices.v@.len() == mesh.vertices@.len(),
        forall|i: int|
            #![trigger built.0.vertices.u@[i]]
            #![trigger built.0.vertices.v@[i]]
            0 <= i < mesh.vertices@.len() ==> {
                let max = grid_size - 1;
                let u = built.0.vertices.u@[i];
                let v = built.0.vertices.v@[i];
                &&& -max < 2 * (max * u) - 2 * (32767 * mesh.vertices@[i].0) <= max
                &&& -max < 2 * (max * v) - 2 * (32767 * (max - mesh.vertices@[i].1)) <= max
            },
        built.1.compression_level == options.compression_level,
        built.1.normals == normals && built.1.include_normals == (normals is Some),
        built.1.water_mask == options.water_mask,
        built.1.include_water_mask == (options.water_mask is Some),
        built.1.metadata == options.metadata,
        built.1.include_metadata == (options.metadata is Some),
{
    let ghost grid = mesh.vertices@;
    proof {
        lemma_tile_side(grid_size - 1);
    }
    let max: u32 = grid_size - 1;
    let count: usize = mesh.vertices.len();
    let mut u: Vec<u16> = Vec::with_capacity(count);
    let mut v: Vec<u16> = Vec::with_capacity(count);
    let mut i: usize = 0;
    while i < count
        invariant
            i <= count,
            count == mesh.vertices.len(),
            0 < max,
            max == grid_size - 1,
            on_grid(mesh, grid_size as int),
            u@.len() == i,
            v@.len() == i,
            forall|k: int|
                0 <= k < i ==> u@[k] == #[trigger] quantized_u(mesh.vertices@, max as int)[k],
            forall|k: int|
                0 <= k < i ==> v@[k] == #[trigger] quantized_v(mesh.vertices@, max as int)[k],
        decreases count - i,
    {
        let (x, y) = mesh.vertices[i];
        assert(mesh.vertices@[i as int] == (x, y));
        u.push(quantize(x, max));
        v.push(quantize(max - y, max));
        i = i + 1;
    }
    assert(u@ =~= quantized_u(mesh.vertices@, max as int));
    assert(v@ =~= quantized_v(mesh.vertices@, max as int));
    proof {
        assert forall|i: int| 0 <= i < grid.len() implies ({
            let max = grid_size - 1;
            &&& -max < 2 * (max * (#[trigger] u@[i])) - 2 * (32767 * grid[i].0) <= max
            &&& -max < 2 * (max * v@[i]) - 2 * (32767 * (max - grid[i].1)) <= max
        }) by {
            law_vertices_are_stored_in_place(grid, grid_size, i);
        }
    }
    let vertices = QuantizedVertices { u, v, height: heights };
    let edge_indices = EdgeIndices::from_vertices(&vertices);
    let include_normals: bool = normals.is_some();
    let include_water_mask: bool = options.water_mask.is_some();
    let include_metadata: bool = options.metadata.is_some();
    let encode_options = EncodeOptions {
        include_normals,
        normals,
        include_water_mask,
        water_mask: options.water_mask,
        include_metadata,
        metadata: options.metadata,
        compression_level: options.compression_level,
    };
    (QuantizedMeshEncoder::new(header, vertices, mesh.indices, edge_indices), encode_options)
}

/// Encodes a mesh as a terrain tile.
///
/// Where the mesh is that of a network and the heights are quantized, nothing is too large for
/// its place in the file.
pub fn encode_terrain(
    header: QuantizedMeshHeader,
    mesh: GridMesh,
    grid_size: u32,
    heights: Vec<u16>,
    normals: Option<Vec<[u8; 2]>>,
    options: TerrainOptions,
) -> (out: Vec<u8>)
    requires
        is_tile_side(grid_size - 1),
        on_grid(mesh, grid_size as int),
        is_encodable(mesh.indices@),
        heights.len() == mesh.vertices.len(),
        options.normals.matches_grid(grid_size),
        normals is None <==> options.normals is Omit,
        encode_options(options, normals).wf(),
        options.compression_level <= 9,
    ensures
        exists|encoder: QuantizedMeshEncoder|
            {
                &&& #[trigger] holds_terrain(encoder, header, mesh, grid_size as int, heights@)
                &&& is_encoded(encoder, encode_options(options, normals), out@)
                &&& is_network_mesh(mesh, grid_size as int) && are_quantized(heights@)
                    ==> mesh_fits(encoder)
            },
{
    let ghost stored = heights@;
    let (encoder, encode_options) = build(header, mesh, grid_size, heights, normals, options);
    let out = encoder.encode_with_options(&encode_options);
    assert(is_encoded(encoder, encode_options, out@));
    proof {
        if is_network_mesh(mesh, grid_size as int) && are_quantized(stored) {
            let (errors, max_error) = choose|errors: Seq<i64>, max_error: i64|
                mesh.lists(
                    #[trigger] corners(mesh_triangles(errors, grid_size as int, max_error)),
                );
            law_terrain_mesh_fits(encoder, header, mesh, grid_size, stored, errors, max_error);
        }
    }
    out
}

/// All heights lie in the quantized range.
pub open spec fn are_quantized(heights: Seq<u16>) -> bool {
    forall|i: int| 0 <= i < heights.len() ==> #[trigger] heights[i] <= QUANTIZED_MAX
}

/// `out` is the encoded mesh; it decodes to the mesh where nothing is too large for its place,
/// unless a plain file starts like a gzip file.
pub open spec fn is_encoded(
    encoder: QuantizedMeshEncoder,
    options: EncodeOptions,
    out: Seq<u8>,
) -> bool {
    let plain = encoder.mesh_bytes() + options.extension_bytes();
    &&& options.compression_level == 0 ==> out == plain
    &&& options.compression_level != 0 ==> has_gzip_magic(out) && out == crate::gzip::gzip_bytes(
        plain,
        options.compression_level,
    )
    &&& mesh_fits(encoder) && options_fit(options) && (options.compression_level != 0
        || !has_gzip_magic(encoder.header.bytes())) ==> decoded(out) == Ok::<
        MeshModel,
        DecodeErrorModel,
    >(encoded_mesh(encoder, options))
}

/// The number of triangles that stand for a triangle `k` cuts above the finest.
proof fn lemma_refine_count(
    errors: Seq<i64>,
    size: int,
    max_error: i64,
    tri: Triangle,
    k: nat,
)
    ensures
        refine(errors, size, max_error, tri, k).len() <= vstd::arithmetic::power2::pow2(k),
    decreases k,
{
    vstd::arithmetic::power2::lemma_pow2_pos(k);
    if k > 0 {
        vstd::arithmetic::power2::lemma_pow2_unfold(k);
        lemma_refine_count(errors, size, max_error, tri.half(true), (k - 1) as nat);
        lemma_refine_count(errors, size, max_error, tri.half(false), (k - 1) as nat);
    }
}

/// An edge lists vertices of the mesh, each at most once.
proof fn lemma_edge_fits(
    list: Seq<u32>,
    across: Seq<u16>,
    along: Seq<u16>,
    at: u16,
    wide: bool,
)
    requires
        is_edge(list, across, along, at),
        across.len() == along.len(),
        across.len() <= u32::MAX,
        wide || across.len() <= 65535,
    ensures
        edge_fits(list, wide),
        forall|j: int| 0 <= j < list.len() ==> #[trigger] list[j] < across.len(),
{
    let p = choose|p: Seq<int>|
        #[trigger] is_edge_order(p, across, along, at) && list.len() == p.len() && forall|j: int|
            0 <= j < p.len() ==> list[j] == #[trigger] p[j] as u32;
    assert forall|j: int| 0 <= j < list.len() implies #[trigger] list[j] < across.len() by {
        assert(p.contains(p[j]));
    }
    assert(p.no_duplicates()) by {
        assert forall|a: int, b: int| 0 <= a < p.len() && 0 <= b < p.len() && a != b implies p[a]
            != p[b] by {
            if a < b {
                assert(crate::types::before(along, p[a], p[b]));
            } else {
                assert(crate::types::before(along, p[b], p[a]));
            }
        }
    }
    p.unique_seq_to_set();
    let all = vstd::set_lib::set_int_range(0, across.len() as int);
    vstd::set_lib::lemma_int_range(0, across.len() as int);
    assert(p.to_set().subset_of(all)) by {
        assert forall|i: int| p.to_set().contains(i) implies all.contains(i) by {
            assert(p.contains(i));
        }
    }
    vstd::set_lib::lemma_len_subset(p.to_set(), all);
}

/// A mesh of the network, with quantized heights, fits its file: it decodes to what was
/// encoded.
pub proof fn law_terrain_mesh_fits(
    encoder: QuantizedMeshEncoder,
    header: QuantizedMeshHeader,
    mesh: GridMesh,
    grid_size: u32,
    heights: Seq<u16>,
    errors: Seq<i64>,
    max_error: i64,
)
    requires
        is_tile_side(grid_size - 1),
        mesh.lists(corners(mesh_triangles(errors, grid_size as int, max_error))),
        on_grid(mesh, grid_size as int),
        heights.len() == mesh.vertices@.len(),
        are_quantized(heights),
        holds_terrain(encoder, header, mesh, grid_size as int, heights),
    ensures
        mesh_fits(encoder),
{
    let size = grid_size as int;
    let t = size - 1;
    let n = order(t);
    let count = mesh.vertices@.len() as int;
    let wide = crate::encoding::needs_wide_indices(count);
    lemma_tile_side(t);
    lemma_vertex_count(size, mesh.vertices@);

    assert forall|i: int| 0 <= i < count implies #[trigger] encoder.vertices.u@[i]
        <= QUANTIZED_MAX && encoder.vertices.v@[i] <= QUANTIZED_MAX by {
        let p = mesh.vertices@[i];
        lemma_quantized_range(p.0 as int, t);
        lemma_quantized_range(t - p.1, t);
    }
    assert forall|i: int| 0 <= i < count implies #[trigger] encoder.vertices.v@[i]
        <= QUANTIZED_MAX by {
        assert(encoder.vertices.u@[i] <= QUANTIZED_MAX && encoder.vertices.v@[i]
            <= QUANTIZED_MAX);
    }
    lemma_quantized_steps(encoder.vertices.u@);
    lemma_quantized_steps(encoder.vertices.v@);
    lemma_quantized_steps(encoder.vertices.height@);

    let tris = mesh_triangles(errors, size, max_error);
    lemma_refine_count(errors, size, max_error, root(t, true), 2 * n);
    lemma_refine_count(errors, size, max_error, root(t, false), 2 * n);
    vstd::arithmetic::power2::lemma_pow2_adds(n, n);
    assert(tris.len() <= 2 * (t * t));
    assert(mesh.indices@.len() == 3 * tris.len());

    assert(is_encodable(mesh.indices@));
    let codes = high_water_codes(mesh.indices@);
    if !wide {
        assert forall|j: int| 0 <= j < codes.len() implies #[trigger] codes[j] <= 0xffff by {
            lemma_mark_monotone(mesh.indices@, j, mesh.indices@.len() as int);
            assert(mesh.indices@[j] <= mark(mesh.indices@, j));
        }
    }
    assert(fits_index(codes, wide));
    let u = encoder.vertices.u@;
    let v = encoder.vertices.v@;
    lemma_edge_fits(encoder.edge_indices.west@, u, v, 0, wide);
    lemma_edge_fits(encoder.edge_indices.east@, u, v, QUANTIZED_MAX, wide);
    lemma_edge_fits(encoder.edge_indices.south@, v, u, 0, wide);
    lemma_edge_fits(encoder.edge_indices.north@, v, u, QUANTIZED_MAX, wide);
}

/// What an encoded terrain holds: the header, the triangles and the heights as they were given,
/// every vertex at its place, and on each edge the vertices of that side of the grid, west and
/// east from south to north, south and north from west to east.
pub proof fn law_held_terrain(
    encoder: QuantizedMeshEncoder,
    header: QuantizedMeshHeader,
    mesh: GridMesh,
    grid_size: u32,
    heights: Seq<u16>,
    i: u32,
)
    requires
        is_tile_side(grid_size - 1),
        on_grid(mesh, grid_size as int),
        holds_terrain(encoder, header, mesh, grid_size as int, heights),
        i < mesh.vertices@.len() <= u32::MAX,
    ensures
        encoder.header == header,
        encoder.indices@ == mesh.indices@,
        encoder.vertices.height@ == heights,
        encoder.vertices.u@.len() == mesh.vertices@.len(),
        encoder.vertices.v@.len() == mesh.vertices@.len(),
        ({
            let max = grid_size - 1;
            let (x, y) = mesh.vertices@[i as int];
            let u = encoder.vertices.u@[i as int];
            let v = encoder.vertices.v@[i as int];
            &&& -max < 2 * (max * u) - 2 * (32767 * x) <= max
            &&& -max < 2 * (max * v) - 2 * (32767 * (max - y)) <= max
            &&& encoder.edge_indices.west@.contains(i) <==> x == 0
            &&& encoder.edge_indices.east@.contains(i) <==> x == max
            &&& encoder.edge_indices.south@.contains(i) <==> y == max
            &&& encoder.edge_indices.north@.contains(i) <==> y == 0
        }),
        forall|a: int, b: int|
            0 <= a < b < encoder.edge_indices.west@.len() ==> encoder.vertices.v@[
                #[trigger] encoder.edge_indices.west@[a] as int]
                <= encoder.vertices.v@[#[trigger] encoder.edge_indices.west@[b] as int],
        forall|a: int, b: int|
            0 <= a < b < encoder.edge_indices.east@.len() ==> encoder.vertices.v@[
                #[trigger] encoder.edge_indices.east@[a] as int]
                <= encoder.vertices.v@[#[trigger] encoder.edge_indices.east@[b] as int],
        forall|a: int, b: int|
            0 <= a < b < encoder.edge_indices.south@.len() ==> encoder.vertices.u@[
                #[trigger] encoder.edge_indices.south@[a] as int]
                <= encoder.vertices.u@[#[trigger] encoder.edge_indices.south@[b] as int],
        forall|a: int, b: int|
            0 <= a < b < encoder.edge_indices.north@.len() ==> encoder.vertices.u@[
                #[trigger] encoder.edge_indices.north@[a] as int]
                <= encoder.vertices.u@[#[trigger] encoder.edge_indices.north@[b] as int],
{
    let (u, v) = (encoder.vertices.u@, encoder.vertices.v@);
    law_vertices_are_stored_in_place(mesh.vertices@, grid_size, i as int);
    law_edges_are_grid_edges(mesh.vertices@, grid_size, i as int);
    law_edge_lists_vertices(encoder.edge_indices.west@, u, v, 0);
    law_edge_lists_vertices(encoder.edge_indices.east@, u, v, QUANTIZED_MAX);
    law_edge_lists_vertices(encoder.edge_indices.south@, v, u, 0);
    law_edge_lists_vertices(encoder.edge_indices.north@, v, u, QUANTIZED_MAX);
}

/// The quantized edges are the edges of the grid.
pub proof fn law_edges_are_grid_edges(vertices: Seq<(u32, u32)>, grid_size: u32, i: int)
    requires
        is_tile_side(grid_size - 1),
        0 <= i < vertices.len(),
        vertices[i].0 < grid_size,
        vertices[i].1 < grid_size,
    ensures
        quantized_u(vertices, grid_size - 1)[i] == 0 <==> vertices[i].0 == 0,
        quantized_u(vertices, grid_size - 1)[i] == QUANTIZED_MAX <==> vertices[i].0 == grid_size
            - 1,
        quantized_v(vertices, grid_size - 1)[i] == 0 <==> vertices[i].1 == grid_size - 1,
        quantized_v(vertices, grid_size - 1)[i] == QUANTIZED_MAX <==> vertices[i].1 == 0,
{
    let max = grid_size - 1;
    lemma_tile_side(max);
    law_quantized_ends(vertices[i].0 as int, max);
    law_quantized_ends(max - vertices[i].1, max);
}

} // verus!
