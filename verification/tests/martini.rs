use terrain_codec::float_bits::{error_key, threshold_key};
use terrain_codec::martini::{GridMesh, Martini, Tile};

/// Builds a tile from heights: the error in the middle of each long edge is the distance of the
/// height there from the mean of the heights at its ends.
fn create_terrain<F: Fn(usize, usize) -> f64>(martini: &Martini, height: F) -> Tile {
    let mut errors: Vec<i64> = Vec::new();
    for i in 0..martini.num_triangles as usize {
        let (a, b, m) = martini.long_edge(i);
        let ends = height(a.0 as usize, a.1 as usize) + height(b.0 as usize, b.1 as usize);
        let error = (ends / 2.0 - height(m.0 as usize, m.1 as usize)).abs();
        errors.push(error_key(error.to_bits()));
    }
    martini.create_terrain(&errors)
}

fn construct_mesh(tile: &Tile, martini: &mut Martini, max_error: f64) -> GridMesh {
    tile.construct_mesh(martini, threshold_key(max_error.to_bits()))
}

/// Positions between 0 and 1, from the southwest corner.
fn uvs(mesh: &GridMesh, size: u32) -> Vec<f32> {
    let max = (size - 1) as f64;
    let mut uvs = Vec::new();
    for (x, y) in &mesh.vertices {
        uvs.push((*x as f64 / max) as f32);
        uvs.push((1.0 - *y as f64 / max) as f32);
    }
    uvs
}

#[test]
fn test_martini_new_valid_sizes() {
    let sizes = [3, 5, 9, 17, 33, 65, 129, 257, 513, 1025];
    for size in sizes {
        let martini = Martini::new(size);
        assert_eq!(martini.size, size);
    }
}

#[test]
fn only_powers_of_two_plus_one_are_valid_sizes() {
    for size in [3u32, 5, 9, 257, 0x8001] {
        assert!(Martini::is_valid_size(size));
    }
    for size in [0u32, 1, 2, 4, 6, 100, 256, 258, 0x1_0001, u32::MAX] {
        assert!(!Martini::is_valid_size(size));
    }
}

#[test]
fn test_martini_coords_length() {
    let martini = Martini::new(9);
    let tile_size = 8;
    let num_triangles = tile_size * tile_size * 2 - 2;
    assert_eq!(martini.coords.len(), num_triangles as usize * 4);
}

#[test]
fn coords_of_the_smallest_grid() {
    let martini = Martini::new(3);
    assert_eq!(martini.num_triangles, 6);
    assert_eq!(martini.num_parent_triangles, 2);
    let expected: Vec<u32> = vec![
        2, 2, 0, 0, // the northeast half
        0, 0, 2, 2, // the southwest half
        0, 0, 0, 2, 2, 2, 2, 0, // their right halves
        0, 2, 2, 2, 2, 0, 0, 0, // their left halves
    ];
    assert_eq!(martini.coords, expected);
}

#[test]
fn test_flat_terrain_minimal_triangles() {
    let mut martini = Martini::new(9);
    let tile = create_terrain(&martini, |_, _| 0.0);
    let mesh = construct_mesh(&tile, &mut martini, 0.0);
    assert_eq!(mesh.indices.len() % 3, 0);
    assert_eq!(mesh.indices.len(), 6);
    assert_eq!(mesh.vertices, vec![(0, 0), (8, 8), (8, 0), (0, 8)]);
    assert_eq!(mesh.indices, vec![0, 1, 2, 1, 0, 3]);
}

#[test]
fn test_terrain_with_spike() {
    let mut martini = Martini::new(9);
    let tile = create_terrain(&martini, |x, y| if x == 4 && y == 4 { 100.0 } else { 0.0 });
    let high = construct_mesh(&tile, &mut martini, 1000.0);
    let low = construct_mesh(&tile, &mut martini, 1.0);
    assert!(low.indices.len() >= high.indices.len());
    assert_eq!(high.indices.len(), 6);
    assert!(low.vertices.contains(&(4, 4)));
}

#[test]
fn test_uvs_in_valid_range() {
    let mut martini = Martini::new(17);
    let tile = create_terrain(&martini, |x, y| (x + y) as f64);
    let mesh = construct_mesh(&tile, &mut martini, 0.5);
    for uv in uvs(&mesh, 17) {
        assert!((0.0..=1.0).contains(&uv), "UV should be in [0, 1] range");
    }
}

#[test]
fn test_indices_valid() {
    let mut martini = Martini::new(17);
    let tile = create_terrain(&martini, |x, y| ((x * y) as f64).sin() * 10.0);
    let mesh = construct_mesh(&tile, &mut martini, 1.0);
    let num_vertices = mesh.vertices.len();
    for idx in &mesh.indices {
        assert!((*idx as usize) < num_vertices);
    }
}

#[test]
fn test_with_coords() {
    let martini1 = Martini::new(9);
    let coords = martini1.coords.clone();
    let martini2 = Martini::with_coords(9, coords);
    assert_eq!(martini1.size, martini2.size);
    assert_eq!(martini1.num_triangles, martini2.num_triangles);
    assert_eq!(martini1.coords, martini2.coords);
}

#[test]
fn test_transform_function_applied() {
    let mut martini = Martini::new(5);
    let tile = create_terrain(&martini, |_, _| 0.0);
    let scale = 100.0;
    let mesh = construct_mesh(&tile, &mut martini, 0.0);
    let transform = |(u, v): (f64, f64)| (u * scale, v * scale, 50.0);
    let mut vertices: Vec<f32> = Vec::new();
    for uv in uvs(&mesh, 5).chunks(2) {
        let (x, y, z) = transform((uv[0] as f64, uv[1] as f64));
        vertices.extend([x as f32, y as f32, z as f32]);
    }
    for i in 0..vertices.len() / 3 {
        let z = vertices[i * 3 + 2];
        assert!((z - 50.0).abs() < f32::EPSILON);
    }
    assert_eq!(vertices[..3], [0.0, 100.0, 50.0]);
}

#[test]
fn test_larger_grid() {
    let mut martini = Martini::new(257);
    let tile = create_terrain(&martini, |x, y| {
        (x as f64 / 32.0).sin() * (y as f64 / 32.0).cos() * 100.0
    });
    let mesh = construct_mesh(&tile, &mut martini, 5.0);
    assert!(!mesh.vertices.is_empty());
    assert!(!mesh.indices.is_empty());
    assert_eq!(mesh.vertices.len(), uvs(&mesh, 257).len() / 2);
}

/// Rough terrain, the same in every run.
fn rough(x: usize, y: usize) -> f64 {
    ((x * 7919 + y * 104729) % 1009) as f64
}

#[test]
fn errors_of_parents_cover_those_of_their_halves() {
    let martini = Martini::new(17);
    let tile = create_terrain(&martini, rough);
    let at = |x: u32, y: u32| tile.errors[(y * 17 + x) as usize];
    for i in 0..martini.num_parent_triangles as usize {
        let (a, b, m) = martini.long_edge(i);
        let c = (m.0 + m.1 - a.1, m.1 + a.0 - m.0);
        let left = at((a.0 + c.0) / 2, (a.1 + c.1) / 2);
        let right = at((b.0 + c.0) / 2, (b.1 + c.1) / 2);
        assert!(at(m.0, m.1) >= left && at(m.0, m.1) >= right);
    }
}

#[test]
fn every_error_above_the_bound_has_its_vertex() {
    let mut martini = Martini::new(17);
    let tile = create_terrain(&martini, rough);
    let max_error = threshold_key(300f64.to_bits());
    let mesh = tile.construct_mesh(&mut martini, max_error);
    for y in 0..17u32 {
        for x in 0..17u32 {
            if tile.errors[(y * 17 + x) as usize] > max_error {
                assert!(mesh.vertices.contains(&(x, y)));
            }
        }
    }
}

#[test]
fn triangles_cover_no_vertex_but_their_own() {
    let mut martini = Martini::new(17);
    let tile = create_terrain(&martini, rough);
    let mesh = construct_mesh(&tile, &mut martini, 400.0);
    let mut area = 0;
    for tri in mesh.indices.chunks(3) {
        let p: Vec<(i64, i64)> = tri
            .iter()
            .map(|i| mesh.vertices[*i as usize])
            .map(|v| (v.0 as i64, v.1 as i64))
            .collect();
        let (a, b, c) = (p[0], p[1], p[2]);
        let full = (a.0 - c.0) * (a.0 - c.0) + (a.1 - c.1) * (a.1 - c.1);
        area += full;
        for v in &mesh.vertices {
            let q = (v.0 as i64, v.1 as i64);
            let s = (q.0 - c.0) * (a.0 - c.0) + (q.1 - c.1) * (a.1 - c.1);
            let r = (q.0 - c.0) * (b.0 - c.0) + (q.1 - c.1) * (b.1 - c.1);
            let covered = s >= 0 && r >= 0 && s + r <= full;
            assert_eq!(covered, q == a || q == b || q == c);
        }
    }
    assert_eq!(area, 2 * 16 * 16);
}

#[test]
fn a_network_can_be_used_again() {
    let mut martini = Martini::new(9);
    let tile = create_terrain(&martini, rough);
    let first = construct_mesh(&tile, &mut martini, 1.0);
    let other = create_terrain(&martini, |x, _| x as f64);
    construct_mesh(&other, &mut martini, 0.0);
    let again = construct_mesh(&tile, &mut martini, 1.0);
    assert_eq!(first.vertices, again.vertices);
    assert_eq!(first.indices, again.indices);
}

#[test]
fn a_lower_bound_keeps_every_vertex() {
    let mut martini = Martini::new(17);
    let tile = create_terrain(&martini, |x, y| ((x * x + 3 * y) % 17) as f64);
    let bounds = [9.0, 7.0, 6.0, 5.0, 4.0, 2.0, 0.0];
    let meshes: Vec<GridMesh> =
        bounds.iter().map(|b| construct_mesh(&tile, &mut martini, *b)).collect();
    for pair in meshes.windows(2) {
        assert!(pair[0].vertices.iter().all(|v| pair[1].vertices.contains(v)));
        assert!(pair[0].indices.len() <= pair[1].indices.len());
    }
    assert!(meshes[0].vertices.len() < meshes[6].vertices.len());
}

#[test]
fn bounds_that_are_negative_or_no_number() {
    let mut martini = Martini::new(5);
    let tile = create_terrain(&martini, |_, _| 0.0);
    assert_eq!(construct_mesh(&tile, &mut martini, f64::NAN).indices.len(), 6);
    assert_eq!(construct_mesh(&tile, &mut martini, -1.0).indices.len(), 3 * 2 * 16);
    assert_eq!(construct_mesh(&tile, &mut martini, -0.0).indices.len(), 6);
}

#[test]
fn missing_heights_count_as_no_error() {
    let martini = Martini::new(3);
    let tile = create_terrain(&martini, |x, y| if x == 1 && y == 1 { f64::NAN } else { 0.0 });
    assert_eq!(tile.errors, vec![0; 9]);
}

#[test]
fn triangles_run_counterclockwise() {
    let mut martini = Martini::new(33);
    let tile = create_terrain(&martini, |x, y| ((x * x + 3 * y) % 17) as f64);
    let mesh = construct_mesh(&tile, &mut martini, 4.0);
    assert!(mesh.indices.len() > 6);
    let mut area = 0;
    for triangle in mesh.indices.chunks(3) {
        let p = |k: usize| {
            let (x, y) = mesh.vertices[triangle[k] as usize];
            (x as i64, -(y as i64))
        };
        let (a, b, c) = (p(0), p(1), p(2));
        let double = (b.0 - a.0) * (c.1 - a.1) - (b.1 - a.1) * (c.0 - a.0);
        assert!(double > 0);
        area += double;
    }
    assert_eq!(area, 2 * 32 * 32);
}

#[test]
fn meshes_have_no_holes() {
    let mut martini = Martini::new(17);
    let tile = create_terrain(&martini, |x, y| ((x * x + 3 * y) % 17) as f64);
    let mesh = construct_mesh(&tile, &mut martini, 5.0);
    let corner = |i: u32| {
        let (x, y) = mesh.vertices[i as usize];
        (x as i64, y as i64)
    };
    for x in 0..17i64 {
        for y in 0..17i64 {
            let side = |a: (i64, i64), b: (i64, i64)| {
                (b.0 - a.0) * (y - a.1) - (b.1 - a.1) * (x - a.0)
            };
            assert!(mesh.indices.chunks(3).any(|t| {
                let (a, b, c) = (corner(t[0]), corner(t[1]), corner(t[2]));
                side(a, b) <= 0 && side(b, c) <= 0 && side(c, a) <= 0
            }));
        }
    }
}

#[test]
fn triangles_do_not_overlap() {
    let mut martini = Martini::new(17);
    let tile = create_terrain(&martini, |x, y| ((x * x + 3 * y) % 17) as f64);
    let mesh = construct_mesh(&tile, &mut martini, 5.0);
    // In tenths of a step of the grid.
    let corner = |i: u32| {
        let (x, y) = mesh.vertices[i as usize];
        (10 * x as i64, 10 * y as i64)
    };
    let mut inner = 0;
    for x in 0..=160i64 {
        for y in 0..=160i64 {
            let side = |a: (i64, i64), b: (i64, i64)| {
                (b.0 - a.0) * (y - a.1) - (b.1 - a.1) * (x - a.0)
            };
            let holders = mesh
                .indices
                .chunks(3)
                .filter(|t| {
                    let (a, b, c) = (corner(t[0]), corner(t[1]), corner(t[2]));
                    side(a, b) < 0 && side(b, c) < 0 && side(c, a) < 0
                })
                .count();
            assert!(holders <= 1);
            inner += holders;
        }
    }
    assert!(inner > 160 * 80);
}
