# terrain_codec

Terrain tiles for 3D globes, with the logic proved in Verus.

- RTIN meshes of elevation grids (`martini`, `rtin`)
- quantized-mesh tiles: encoding, decoding, gzip (`encoding`, `decoding`, `header`, `streams`,
  `gzip`)
- RGB heightmaps (Terrarium, Mapbox, GSI) in PNG and WebP, and heightmap-1.0 (`heightmap`)
- stitching Web Mercator tiles and choosing samples to interpolate (`mercator`,
  `interpolation`, `normals`)
- `layer.json` manifests and tile coordinates (`layer_json`, `tile_coords`)
- the way from a grid to an encoded tile (`terrain`)

## Layout

`src/` is the verified library. It holds no floating point: numbers appear as their IEEE 754
bits, as integers that order as the numbers do, or as whole steps of a format. Laws that relate
several functions are public proof functions whose names start with `law_`; the longer ones
stand in `martini_laws` and `mesh_laws`.

`app/` is ordinary Rust around it: elevations, positions and normals in floating point, readers
and writers, and JSON.

`tests/` runs the library with the crates it calls.

## What is trusted

Functions marked `external_body` call `flate2` (gzip), `image` (PNG and WebP) and two functions
of the standard library. The doc comment of each says what is taken for granted.
