//! Terrain tiles for 3D globes: meshing, encoding and decoding.
//!
//! - [`martini`] builds adaptive triangle meshes from height grids; [`rtin`] is the geometry
//!   behind it and [`martini_laws`] what the meshes promise.
//! - [`encoding`] and [`decoding`] write and read the quantized-mesh format, on top of
//!   [`header`], [`types`], [`streams`], [`bytes`] and [`gzip`]; [`mesh_laws`] shows that reading
//!   undoes writing.
//! - [`terrain`] turns a mesh into an encoded tile.
//! - [`heightmap`] holds codecs for elevation images.
//! - [`mercator`] stitches elevation tiles, [`normals`] and [`interpolation`] choose the samples
//!   that normals and elevations are computed from.
//! - [`tile_coords`] and [`layer_json`] deal with tiling schemes and manifests.
//!
//! Floating-point numbers appear as their bits; [`float_bits`] says how they compare.

pub mod bytes;
pub mod decoding;
pub mod encoding;
pub mod float_bits;
pub mod gzip;
pub mod header;
pub mod heightmap;
pub mod interpolation;
pub mod layer_json;
pub mod martini;
pub mod martini_laws;
pub mod mercator;
pub mod mesh_laws;
pub mod normals;
pub mod rtin;
pub mod streams;
pub mod terrain;
pub mod tile_coords;
pub mod types;
