use polyblade::polyhedron::shape::Shape;
use polyblade::polyhedron::shape::distance::Distance;

#[test]
fn expand_cube() {
    let mut cube = Shape::prism(4);
    assert_eq!(cube.order(), 8);
    assert_eq!(cube.edges().len(), 12);
    assert_eq!(cube.cycles.len(), 6);

    cube.expand();

    // Rhombicuboctahedron: V=24, E=48, F=26 (6 squares + 8 triangles + 12 squares).
    assert_eq!(cube.order(), 24, "vertex count");
    assert_eq!(cube.edges().len(), 48, "edge count");
    assert_eq!(cube.cycles.len(), 26, "face count");
    // Euler characteristic.
    assert_eq!(
        cube.order() as i64 - cube.edges().len() as i64 + cube.cycles.len() as i64,
        2
    );
    // Every vertex has degree 4 in a cantellation.
    for v in cube.vertices() {
        assert_eq!(cube.degree(v), 4, "vertex {v} degree");
    }
    // Face multiset: triangles + quads only, in the expected counts.
    let tris = cube.cycles.iter().filter(|c| c.len() == 3).count();
    let quads = cube.cycles.iter().filter(|c| c.len() == 4).count();
    assert_eq!(tris, 8, "triangle faces");
    assert_eq!(quads, 18, "quad faces");
}

#[test]
fn truncate_cube() {
    let mut cube = Shape::prism(4);
    assert_eq!(cube.order(), 8);
    assert_eq!(cube.edges().len(), 12);
    assert_eq!(cube.cycles.len(), 6);

    cube.truncate();

    // Truncated cube: V=24, E=36, F=14 (8 triangles + 6 octagons).
    assert_eq!(cube.order(), 24, "vertex count");
    assert_eq!(cube.edges().len(), 36, "edge count");
    assert_eq!(cube.cycles.len(), 14, "face count");
    // Euler characteristic.
    assert_eq!(
        cube.order() as i64 - cube.edges().len() as i64 + cube.cycles.len() as i64,
        2
    );
    // Every vertex has degree 3 in a truncation.
    for v in cube.vertices() {
        assert_eq!(cube.degree(v), 3, "vertex {v} degree");
    }
    let tris = cube.cycles.iter().filter(|c| c.len() == 3).count();
    let octs = cube.cycles.iter().filter(|c| c.len() == 8).count();
    assert_eq!(tris, 8, "triangle faces");
    assert_eq!(octs, 6, "octagon faces");
}

#[test]
fn prism_counts() {
    let prism = Shape::prism(5);
    assert_eq!(prism.order(), 10);
    assert_eq!(prism.edges().len(), 15);
    assert_eq!(prism.cycles.len(), 7);
    // Faces are sorted by decreasing side count: the two pentagons first.
    assert_eq!(prism.cycles.as_slice()[0].len(), 5);
    assert_eq!(prism.cycles.as_slice()[1].len(), 5);
    for v in prism.vertices() {
        assert_eq!(prism.degree(v), 3);
    }
}

#[test]
fn truncate_returns_rings_and_parents() {
    let mut cube = Shape::prism(4);
    let (ring, parents) = cube.truncate();
    // One ring edge and one corner per (vertex, neighbor) pair.
    assert_eq!(ring.len(), 24);
    assert_eq!(parents.len(), 24);
    assert_eq!(&parents[0..3], &[0, 0, 0]);
    assert_eq!(&parents[21..24], &[7, 7, 7]);
}

#[test]
fn chamfer_cube() {
    let mut cube = Shape::prism(4);
    cube.chamfer();
    // Chamfered cube: V=32, E=48, F=18 (6 squares + 12 hexagons).
    assert_eq!(cube.order(), 32);
    assert_eq!(cube.edges().len(), 48);
    assert_eq!(cube.cycles.len(), 18);
    for v in cube.vertices() {
        assert_eq!(cube.degree(v), 3, "vertex {v} degree");
    }
    let quads = cube.cycles.iter().filter(|c| c.len() == 4).count();
    let hexes = cube.cycles.iter().filter(|c| c.len() == 6).count();
    assert_eq!(quads, 6);
    assert_eq!(hexes, 12);
}

#[test]
fn kis_cube() {
    let mut cube = Shape::prism(4);
    let before = cube.kis(None);
    assert_eq!(before.len(), 12);
    // Tetrakis hexahedron: V=14, E=36, F=24 triangles.
    assert_eq!(cube.order(), 14);
    assert_eq!(cube.edges().len(), 36);
    assert_eq!(cube.cycles.len(), 24);
    assert!(cube.cycles.iter().all(|c| c.len() == 3));
}

#[test]
fn kis_only_faces_of_degree() {
    let mut prism = Shape::prism(5);
    prism.kis(Some(4));
    // Only the five side quads get an apex.
    assert_eq!(prism.order(), 15);
    assert_eq!(prism.edges().len(), 35);
    assert_eq!(prism.cycles.len(), 22);
    let pentagons = prism.cycles.iter().filter(|c| c.len() == 5).count();
    assert_eq!(pentagons, 2);
}

#[test]
fn split_vertex_of_cube() {
    let mut cube = Shape::prism(4);
    let ring = cube.split_vertex(0);
    assert_eq!(ring.len(), 3);
    assert_eq!(cube.order(), 10);
    assert_eq!(cube.edges().len(), 15);
    assert_eq!(cube.cycles.len(), 7);
    let tris = cube.cycles.iter().filter(|c| c.len() == 3).count();
    let pents = cube.cycles.iter().filter(|c| c.len() == 5).count();
    assert_eq!(tris, 1);
    assert_eq!(pents, 3);
}

#[test]
fn contract_rung_of_triangular_prism() {
    let mut prism = Shape::prism(3);
    prism.contract_edges(vec![[0, 3]]);
    assert_eq!(prism.order(), 5);
    assert_eq!(prism.edges().len(), 8);
    assert_eq!(prism.cycles.len(), 5);
}

#[test]
fn shape_from_tetrahedron_finds_four_triangles() {
    let tetra = Shape::from(Distance::tetrahedron());
    assert_eq!(tetra.order(), 4);
    assert_eq!(tetra.edges().len(), 6);
    assert_eq!(tetra.cycles.len(), 4);
    assert!(tetra.cycles.iter().all(|c| c.len() == 3));
    let mut ids = tetra.cycles.ids().to_vec();
    ids.sort();
    assert_eq!(ids, vec![0, 1, 2, 3]);
    // Every pair of a complete graph is a spring.
    assert_eq!(tetra.springs.len(), 6);
}

#[test]
fn recompute_rediscovers_cube_faces() {
    let mut cube = Shape::prism(4);
    cube.recompute();
    assert_eq!(cube.cycles.len(), 6);
    assert!(cube.cycles.iter().all(|c| c.len() == 4));
    // Fresh ids follow the six the prism minted.
    let mut ids = cube.cycles.ids().to_vec();
    ids.sort();
    assert_eq!(ids, vec![6, 7, 8, 9, 10, 11]);
}

#[test]
fn release_merges_two_cube_faces() {
    let mut cube = Shape::prism(4);
    let edge = cube.edges()[0];
    cube.release(&[edge]);
    assert_eq!(cube.order(), 8);
    assert_eq!(cube.edges().len(), 11);
    assert_eq!(cube.cycles.len(), 5);
    let hexagons = cube.cycles.iter().filter(|c| c.len() == 6).count();
    assert_eq!(hexagons, 1);
}

#[test]
fn ordered_face_indices_of_cube_corner() {
    let cube = Shape::prism(4);
    let around = cube.ordered_face_indices(0);
    assert_eq!(around.len(), 3);
    // Each face around the corner holds it, and each appears once.
    for &f in &around {
        assert!(cube.cycles.as_slice()[f].iter().any(|&x| x == 0));
    }
    let mut sorted = around.clone();
    sorted.sort();
    sorted.dedup();
    assert_eq!(sorted.len(), 3);
}

fn ambo(shape: &mut Shape) {
    let (ring_edges, _) = shape.truncate();
    let original: Vec<[usize; 2]> = shape
        .edges()
        .into_iter()
        .filter(|&[v, u]| !ring_edges.contains(&[v, u]) && !ring_edges.contains(&[u, v]))
        .collect();
    shape.contract_edges(original);
}

#[test]
fn truncate_then_contract_gives_cuboctahedron() {
    let mut cube = Shape::prism(4);
    ambo(&mut cube);
    // Cuboctahedron: V=12, E=24, F=14 (8 triangles + 6 squares).
    assert_eq!(cube.order(), 12);
    assert_eq!(cube.edges().len(), 24);
    assert_eq!(cube.cycles.len(), 14);
    assert_eq!(cube.cycles.iter().filter(|c| c.len() == 3).count(), 8);
    assert_eq!(cube.cycles.iter().filter(|c| c.len() == 4).count(), 6);
}

#[test]
fn truncate_then_contract_tetrahedron_gives_octahedron() {
    let mut tetra = Shape::from(Distance::tetrahedron());
    ambo(&mut tetra);
    assert_eq!(tetra.order(), 6);
    assert_eq!(tetra.edges().len(), 12);
    assert_eq!(tetra.cycles.len(), 8);
    for v in tetra.vertices() {
        assert_eq!(tetra.degree(v), 4);
    }
}

#[test]
fn recompute_leaves_a_preset_equal() {
    let mut cube = Shape::prism(4);
    let untouched = Shape::prism(4);
    assert!(cube == untouched);
    cube.recompute();
    assert!(cube == untouched);
    let triangular = Shape::prism(3);
    assert!(!(triangular == untouched));
}
