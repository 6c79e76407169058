use polyblade::polyhedron::VertexId;
use polyblade::polyhedron::shape::distance::Distance;

#[test]
fn test_simple_graph() {
    let mut graph = Distance::new(4);
    graph.connect([0, 1]);
    graph.connect([1, 2]);
    graph.connect([2, 3]);
    graph.connect([3, 1]); // Back edge creating a cycle

    let result = graph.dfs();

    // Verify that all vertices were visited
    for i in 0..4 {
        assert!(result.discovery_time[i].is_some());
        assert!(result.lowpoint[i].is_some());
        assert!(result.finish_time[i].is_some());
    }

    println!("Discovery times: {:?}", result.discovery_time);
    println!("Lowpoints: {:?}", result.lowpoint);
    println!("Finish times: {:?}", result.finish_time);
    println!("Parents: {:?}", result.parent);
}

#[test]
fn test_disconnected_components() {
    let mut graph = Distance::new(5);
    graph.connect([0, 1]);
    graph.connect([1, 2]);
    graph.connect([3, 4]); // Separate component

    let result = graph.dfs();

    println!("Discovery times: {:?}", result.discovery_time);
    println!("Lowpoints: {:?}", result.lowpoint);
    println!("Finish times: {:?}", result.finish_time);
    println!("Parents: {:?}", result.parent);
    // All vertices should be visited despite being disconnected
    for i in 0..5 {
        assert!(result.discovery_time[i].is_some());
        assert!(result.lowpoint[i].is_some());
        assert!(result.finish_time[i].is_some());
    }
}

#[test]
fn dfs_times_on_a_path() {
    let mut graph = Distance::new(3);
    graph.connect([0, 1]);
    graph.connect([1, 2]);
    let result = graph.dfs();
    assert_eq!(result.discovery_time, vec![Some(1), Some(2), Some(3)]);
    assert_eq!(result.finish_time, vec![Some(6), Some(5), Some(4)]);
    assert_eq!(result.parent, vec![None, Some(0), Some(1)]);
    assert_eq!(result.lowpoint, vec![Some(1), Some(1), Some(2)]);
}

#[test]
fn dfs_lowpoint_follows_back_edge() {
    let mut graph = Distance::new(3);
    graph.connect([0, 1]);
    graph.connect([1, 2]);
    graph.connect([2, 0]);
    let result = graph.dfs();
    assert_eq!(result.discovery_time, vec![Some(1), Some(2), Some(3)]);
    assert_eq!(result.lowpoint, vec![Some(1), Some(1), Some(1)]);
}

#[test]
fn basics() {
    let mut graph = Distance::new(4);
    println!("basics:");
    // Connect
    graph.connect([0, 1]);
    graph.connect([0, 2]);
    graph.connect([1, 2]);
    assert_eq!(graph.neighbors(0), vec![1, 2]);
    assert_eq!(graph.neighbors(1), vec![0, 2]);
    assert_eq!(graph.neighbors(2), vec![0, 1]);
    assert_eq!(graph.neighbors(3), Vec::<VertexId>::new());

    // Disconnect
    graph.disconnect([0, 1]);
    assert_eq!(graph.neighbors(0), vec![2]);
    assert_eq!(graph.neighbors(1), vec![2]);

    // Delete
    println!("graph: {:?}", graph);
    graph.delete(1);
    println!("graph: {:?}", graph);
    assert_eq!(graph.neighbors(0), vec![1]);
    assert_eq!(graph.neighbors(2), Vec::<VertexId>::new());
    assert_eq!(graph.neighbors(1), vec![0]);
}

#[test]
fn chordless_cycles() {
    let mut graph = Distance::new(4);
    // Connect
    graph.connect([0, 1]);
    graph.connect([1, 2]);
    graph.connect([2, 3]);

    println!("chordless_cycles:");
    graph.bfs_apsp();
    graph.connect([2, 0]);
}

#[test]
fn contract_edge() {
    let mut graph = Distance::tetrahedron();
    println!("tetrahedron: {:?}", graph);
    println!("contracting [0, 2]......");
    graph.contract_edge([0, 2]);
    println!("contracted: {:?}", graph);
    let mut triangle = Distance::new(3);
    triangle.set([0, 1], 1);
    triangle.set([1, 2], 1);
    triangle.set([2, 0], 1);
    println!("expectation: {:?}", triangle);
    assert_eq!(graph, triangle);
}

#[test]
fn contract_cycle_collapses_to_point() {
    // A square attached to an outside vertex; contracting the whole 4-cycle must
    // collapse it to one vertex still joined to the outsider, with no self-loop.
    let mut graph = Distance::new(5);
    graph.connect([0, 1]);
    graph.connect([1, 2]);
    graph.connect([2, 3]);
    graph.connect([3, 0]);
    graph.connect([0, 4]); // tail to an outside vertex

    graph.contract_edges(vec![[0, 1], [1, 2], [2, 3], [3, 0]]);

    // Four cycle vertices merged into one; the outsider survives as its neighbor.
    assert_eq!(graph.order(), 2);
    assert_eq!(graph.edges().len(), 1);
    assert_eq!(graph.get([0, 0]), 0, "no self-loop on the survivor");
}

#[test]
fn bfs_apsp() {
    let mut distance = Distance::new(4);
    distance.connect([0, 1]);
    distance.connect([1, 2]);
    distance.connect([2, 3]);
    distance.bfs_apsp();
    assert_eq!(distance.get([0, 2]), 2);
    assert_eq!(distance.get([1, 3]), 2);
    assert_eq!(distance.get([0, 3]), 3);
}

#[test]
fn bfs_apsp_leaves_components_apart() {
    let mut distance = Distance::new(4);
    distance.connect([0, 1]);
    distance.connect([2, 3]);
    distance.bfs_apsp();
    assert_eq!(distance.get([0, 1]), 1);
    assert_eq!(distance.get([0, 2]), usize::MAX);
    assert_eq!(distance.get([1, 3]), usize::MAX);
    assert_eq!(distance.diameter(), usize::MAX);
}

#[test]
fn tetrahedron_is_complete() {
    let graph = Distance::tetrahedron();
    assert_eq!(graph.order(), 4);
    assert_eq!(graph.edges().len(), 6);
    for v in 0..4 {
        assert_eq!(graph.neighbors(v).len(), 3);
    }
}

#[test]
fn bfs_apsp_twice_changes_nothing() {
    let mut distance = Distance::tetrahedron();
    distance.disconnect([0, 1]);
    distance.bfs_apsp();
    let once = distance.duplicate();
    distance.bfs_apsp();
    assert_eq!(distance, once);
    assert_eq!(distance.get([0, 1]), 2);
}

#[test]
fn vertex_pairs_lists_every_pair_once() {
    let graph = Distance::new(3);
    assert_eq!(graph.vertex_pairs(), vec![[1, 0], [2, 0], [2, 1]]);
}

#[test]
fn ancestry_follows_parents() {
    let mut source = Distance::new(3);
    source.reset_ancestry();
    for v in 0..3 {
        assert!(source.ancestors(v).contains(v as u64));
        assert!(!source.ancestors(v).contains(((v + 1) % 3) as u64));
    }
    let merged: VertexId = source.insert_from(&[0, 2]);
    assert_eq!(merged, 3);
    assert!(source.ancestors(3).contains(0));
    assert!(source.ancestors(3).contains(2));
    assert!(!source.ancestors(3).contains(1));

    let mut copy = Distance::new(2);
    copy.inherit_ancestry(&source, &[3, 1]);
    assert!(copy.ancestors(0).contains(0) && copy.ancestors(0).contains(2));
    assert!(copy.ancestors(1).contains(1) && !copy.ancestors(1).contains(0));
}

#[test]
fn bfs_apsp_marks_cut_off_pairs_disconnected() {
    let mut distance = Distance::new(3);
    distance.connect([0, 1]);
    distance.connect([1, 2]);
    distance.bfs_apsp();
    assert_eq!(distance.get([0, 2]), 2);
    distance.disconnect([1, 2]);
    distance.bfs_apsp();
    assert_eq!(distance.get([0, 2]), usize::MAX);
    assert_eq!(distance.get([1, 2]), usize::MAX);
    assert_eq!(distance.get([0, 1]), 1);
}

#[test]
fn contraction_unions_ancestry_into_the_survivor() {
    let mut graph = Distance::new(3);
    graph.connect([0, 1]);
    graph.connect([1, 2]);
    graph.contract_edges(vec![[0, 1]]);
    assert_eq!(graph.order(), 2);
    assert!(graph.ancestors(0).contains(0));
    assert!(graph.ancestors(0).contains(1));
    assert!(!graph.ancestors(0).contains(2));
    assert!(graph.ancestors(1).contains(2));
}

#[test]
fn split_copies_ancestry_to_every_copy() {
    let mut graph = Distance::new(3);
    graph.connect([0, 1]);
    graph.connect([0, 2]);
    let ring = graph.split_vertex(0, vec![1, 2]);
    assert_eq!(ring.len(), 2);
    assert_eq!(graph.order(), 4);
    assert!(graph.ancestors(3).contains(0));
    assert!(!graph.ancestors(3).contains(3));
    assert!(graph.ancestors(0).contains(0));
}
