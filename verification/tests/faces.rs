use polyblade::polyhedron::shape::Shape;
use polyblade::polyhedron::shape::cycles::Cycles;
use polyblade::polyhedron::shape::cycles::discover::chordless_cycles;
use polyblade::polyhedron::shape::distance::Distance;
use polyblade::polyhedron::shape::topology::FaceTopology;

/// The cube graph: rings 0..4 and 4..8, joined by rungs `i -- i + 4`.
fn cube() -> Distance {
    let mut d = Distance::new(8);
    for i in 0..4 {
        d.connect([i, (i + 1) % 4]);
        d.connect([4 + i, 4 + (i + 1) % 4]);
        d.connect([i, i + 4]);
    }
    d.bfs_apsp();
    d
}

#[test]
fn cube_face_count_follows_euler() {
    assert_eq!(cube().face_count(), 6);
    assert_eq!(Distance::tetrahedron().face_count(), 4);
}

#[test]
fn square_of_cube_is_a_face_but_belt_is_not() {
    let d = cube();
    assert!(d.cycle_is_face(vec![0, 1, 2, 3]));
    assert!(d.cycle_is_face(vec![0, 1, 5, 4]));
    // The belt through every vertex leaves nothing behind, which does not count as connected.
    assert!(!d.cycle_is_face(vec![0, 4, 5, 1, 2, 6, 7, 3]));
    // The hexagon between two opposite corners leaves those corners apart.
    assert!(!d.cycle_is_face(vec![1, 2, 3, 7, 4, 5]));
}

#[test]
fn connectivity_of_split_graph() {
    let mut d = Distance::new(4);
    d.connect([0, 1]);
    d.connect([2, 3]);
    assert!(!d.is_connected());
    d.connect([1, 2]);
    assert!(d.is_connected());
    assert!(!Distance::new(0).is_connected());
}

#[test]
fn chordless_cycles_of_cube_are_its_squares() {
    let d = cube();
    let faces = chordless_cycles(&d);
    assert_eq!(faces.len(), 6);
    assert!(faces.iter().all(|f| f.len() == 4));
}

#[test]
fn discover_mints_ids_in_order() {
    let d = cube();
    let mut next = 10;
    let cycles = Cycles::discover(&d, &mut next);
    assert_eq!(next, 16);
    assert_eq!(cycles.len(), 6);
    let mut ids = cycles.ids().to_vec();
    ids.sort();
    assert_eq!(ids, vec![10, 11, 12, 13, 14, 15]);
}

#[test]
fn cube_faces_border_four_squares() {
    let cube = Shape::prism(4);
    let signatures = cube.cycles.neighbor_signatures();
    assert_eq!(signatures.len(), 6);
    for s in signatures {
        assert_eq!(s, vec![4, 4, 4, 4]);
    }
    let mut around = cube.cycles.sorted_connections(0);
    around.sort();
    assert_eq!(around.len(), 3);
}

#[test]
fn topology_lists_each_cube_edge_once() {
    let cube = Shape::prism(4);
    let topology = FaceTopology::snapshot(&cube.cycles);
    let edges = topology.interior_edges();
    assert_eq!(edges.len(), 12);
    for &(f, a, b, g) in &edges {
        assert_ne!(f, g);
        assert_eq!(topology.other_face(f, a, b), Some(g));
        assert_eq!(topology.other_face(g, b, a), Some(f));
        assert!(topology.cycles[g].contains(&a) && topology.cycles[g].contains(&b));
    }
    let p = topology.pos(0, topology.cycles[0][2]);
    assert_eq!(p, 2);
}
