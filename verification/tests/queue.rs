use polyblade::polyhedron::shape::Shape;
use polyblade::polyhedron::transaction::{
    ambo, expand_by_ambo, follow_up, step, truncate_vertices, ConwayMessage, StepAction, Transaction,
};

#[test]
fn empty_queue_is_idle() {
    let mut queue: Vec<Transaction> = vec![];
    let mut name = String::from("P4");
    let mut shape = Shape::prism(4);
    let action = step(&mut queue, &mut name, &mut shape, true, 0);
    assert!(matches!(action, StepAction::Idle));
    assert!(queue.is_empty());
    assert_eq!(name, "P4");
}

#[test]
fn name_step_renames_and_pops() {
    let mut queue = vec![Transaction::Name('t'), Transaction::Nothing];
    let mut name = String::from("P4");
    let mut shape = Shape::prism(4);
    step(&mut queue, &mut name, &mut shape, false, 0);
    assert_eq!(name, "tP4");
    assert_eq!(queue.len(), 1);
    assert!(matches!(queue[0], Transaction::Nothing));
}

#[test]
fn shorten_name_drops_leading_letters() {
    let mut queue = vec![Transaction::ShortenName(2)];
    let mut name = String::from("btP4");
    let mut shape = Shape::prism(4);
    step(&mut queue, &mut name, &mut shape, false, 0);
    assert_eq!(name, "P4");
    assert!(queue.is_empty());
}

#[test]
fn wait_holds_until_its_moment() {
    let mut queue = vec![Transaction::Wait(100)];
    let mut name = String::from("P4");
    let mut shape = Shape::prism(4);
    step(&mut queue, &mut name, &mut shape, false, 100);
    assert_eq!(queue.len(), 1);
    step(&mut queue, &mut name, &mut shape, false, 101);
    assert!(queue.is_empty());
}

#[test]
fn nothing_stays_at_the_head() {
    let mut queue = vec![Transaction::Nothing];
    let mut name = String::from("P4");
    let mut shape = Shape::prism(4);
    step(&mut queue, &mut name, &mut shape, true, 5);
    assert_eq!(queue.len(), 1);
}

#[test]
fn contraction_waits_for_the_springs() {
    let mut queue = vec![Transaction::Contraction(vec![[1, 0]])];
    let mut name = String::from("P4");
    let mut shape = Shape::prism(4);
    let action = step(&mut queue, &mut name, &mut shape, false, 0);
    assert!(matches!(action, StepAction::Idle));
    assert_eq!(queue.len(), 1);
    assert_eq!(shape.order(), 8);

    let action = step(&mut queue, &mut name, &mut shape, true, 0);
    match action {
        StepAction::ContractRender(edges) => assert_eq!(edges, vec![[1, 0]]),
        other => panic!("unexpected action {other:?}"),
    }
    assert!(queue.is_empty());
    assert_eq!(shape.order(), 7);
}

#[test]
fn release_disconnects_and_pops() {
    let mut queue = vec![Transaction::Release(vec![[0, 1]])];
    let mut name = String::from("P4");
    let mut shape = Shape::prism(4);
    step(&mut queue, &mut name, &mut shape, false, 0);
    assert!(queue.is_empty());
    assert_eq!(shape.edges().len(), 11);
}

#[test]
fn bevel_queues_truncate_wait_ambo_and_its_name() {
    let mut queue = vec![Transaction::Conway(ConwayMessage::Bevel), Transaction::Nothing];
    let mut name = String::from("P4");
    let mut shape = Shape::prism(4);
    let action = step(&mut queue, &mut name, &mut shape, false, 1000);
    assert!(matches!(action, StepAction::Resize(8)));
    assert_eq!(queue.len(), 5);
    assert!(matches!(queue[0], Transaction::Conway(ConwayMessage::Truncate)));
    assert!(matches!(queue[1], Transaction::Wait(1500)));
    assert!(matches!(queue[2], Transaction::Conway(ConwayMessage::Ambo)));
    assert!(matches!(queue[3], Transaction::Name('b')));
    assert!(matches!(queue[4], Transaction::Nothing));
}

#[test]
fn chamfer_step_chamfers_and_queues_its_name() {
    let mut queue = vec![Transaction::Conway(ConwayMessage::Chamfer)];
    let mut name = String::from("P4");
    let mut shape = Shape::prism(4);
    let action = step(&mut queue, &mut name, &mut shape, false, 0);
    // A chamfered cube: 8 + 2 * 12 vertices.
    assert!(matches!(action, StepAction::Resize(32)));
    assert_eq!(shape.order(), 32);
    assert_eq!(queue.len(), 1);
    assert!(matches!(queue[0], Transaction::Name('c')));
}

#[test]
fn split_vertex_step_reports_the_ring() {
    let mut queue = vec![Transaction::Conway(ConwayMessage::SplitVertex(0))];
    let mut name = String::from("P4");
    let mut shape = Shape::prism(4);
    let action = step(&mut queue, &mut name, &mut shape, false, 0);
    match action {
        StepAction::Split { v, extra, order } => {
            assert_eq!(v, 0);
            assert_eq!(extra, 2);
            assert_eq!(order, 10);
        }
        other => panic!("unexpected action {other:?}"),
    }
    assert!(queue.is_empty());
    assert_eq!(shape.order(), 10);
}

#[test]
fn ambo_step_truncates_and_queues_the_contraction() {
    let mut queue = vec![Transaction::Conway(ConwayMessage::Ambo)];
    let mut name = String::from("P4");
    let mut shape = Shape::prism(4);
    let action = step(&mut queue, &mut name, &mut shape, false, 0);
    match action {
        StepAction::Splits { splits, order } => {
            assert_eq!(splits.len(), 8);
            assert_eq!(order, 24);
        }
        other => panic!("unexpected action {other:?}"),
    }
    assert_eq!(queue.len(), 2);
    assert!(matches!(&queue[0], Transaction::Contraction(e) if e.len() == 12));
    assert!(matches!(queue[1], Transaction::Name('a')));
    // The springs settle, the contraction runs, and the name follows.
    step(&mut queue, &mut name, &mut shape, true, 0);
    assert_eq!(shape.order(), 12);
    step(&mut queue, &mut name, &mut shape, true, 0);
    assert_eq!(name, "aP4");
    assert!(queue.is_empty());
}

#[test]
fn truncate_step_queues_its_name() {
    let mut queue = vec![Transaction::Conway(ConwayMessage::Truncate)];
    let mut name = String::from("P4");
    let mut shape = Shape::prism(4);
    let action = step(&mut queue, &mut name, &mut shape, false, 0);
    assert!(matches!(action, StepAction::Splits { order: 24, .. }));
    assert_eq!(queue.len(), 1);
    assert!(matches!(queue[0], Transaction::Name('t')));
}

#[test]
fn expand_step_reports_both_ambos() {
    let mut queue = vec![Transaction::Conway(ConwayMessage::Expand)];
    let mut name = String::from("P4");
    let mut shape = Shape::prism(4);
    let action = step(&mut queue, &mut name, &mut shape, false, 0);
    match action {
        StepAction::Expanded { splits, contracted, splits2, order } => {
            assert_eq!(splits.len(), 8);
            assert_eq!(contracted.len(), 12);
            assert_eq!(splits2.len(), 12);
            assert_eq!(order, 48);
        }
        other => panic!("unexpected action {other:?}"),
    }
    assert_eq!(queue.len(), 2);
    assert!(matches!(&queue[0], Transaction::Contraction(e) if e.len() == 24));
    assert!(matches!(queue[1], Transaction::Name('e')));
}

#[test]
fn follow_up_queues_contraction_then_name() {
    let mut queue = vec![Transaction::Nothing];
    follow_up(&mut queue, ConwayMessage::Ambo, vec![[0, 1]]);
    assert_eq!(queue.len(), 3);
    assert!(matches!(&queue[0], Transaction::Contraction(e) if e == &vec![[0, 1]]));
    assert!(matches!(queue[1], Transaction::Name('a')));

    let mut queue = vec![];
    follow_up(&mut queue, ConwayMessage::Truncate, vec![[0, 1]]);
    assert_eq!(queue.len(), 1);
    assert!(matches!(queue[0], Transaction::Name('t')));
}

#[test]
fn can_split_only_vertices_on_faces() {
    let shape = Shape::prism(4);
    assert!(shape.can_split(0));
    assert!(shape.can_split(7));
    assert!(!shape.can_split(8));
}

#[test]
fn truncate_vertices_truncates_the_cube() {
    let mut shape = Shape::prism(4);
    let (splits, rings) = truncate_vertices(&mut shape, 0).expect("every cube vertex splits");
    // From the last vertex down, each of degree 3.
    let expected: Vec<(usize, usize)> = (0..8).rev().map(|v| (v, 3)).collect();
    assert_eq!(splits, expected);
    assert_eq!(rings.len(), 24);
    // Truncated cube: V=24, E=36, F=14.
    assert_eq!(shape.order(), 24);
    assert_eq!(shape.edges().len(), 36);
    assert_eq!(shape.cycles.len(), 14);
}

#[test]
fn truncate_vertices_skips_other_degrees() {
    let mut shape = Shape::prism(4);
    let (splits, rings) = truncate_vertices(&mut shape, 4).expect("nothing is due");
    assert!(splits.is_empty());
    assert!(rings.is_empty());
    assert_eq!(shape.order(), 8);
}

#[test]
fn ambo_cube_gives_cuboctahedron() {
    // Ambo cube: V=12, E=24, F=14 (8 triangles + 6 squares).
    let mut shape = Shape::prism(4);
    let (splits, contract) = ambo(&mut shape).expect("every cube vertex splits");
    assert_eq!(contract.len(), 12);
    let positions = 8 + splits.iter().map(|&(_, d)| d - 1).sum::<usize>() - contract.len();
    shape.contract_edges(contract);
    assert_eq!(shape.order(), 12, "vertex count");
    assert_eq!(shape.edges().len(), 24, "edge count");
    assert_eq!(shape.cycles.len(), 14, "face count");
    assert_eq!(positions, 12, "render stays in sync");
}

#[test]
fn expand_by_ambo_gives_rhombicuboctahedron() {
    let mut shape = Shape::prism(4);
    let (splits, first, splits2, contract) = expand_by_ambo(&mut shape).expect("every vertex splits");
    assert_eq!(splits.len(), 8);
    assert_eq!(first.len(), 12);
    // The cuboctahedron's 12 vertices, each of degree 4.
    assert_eq!(splits2.len(), 12);
    assert!(splits2.iter().all(|&(_, d)| d == 4));
    assert_eq!(contract.len(), 24);
    shape.contract_edges(contract);
    // Rhombicuboctahedron: V=24, E=48, F=26.
    assert_eq!(shape.order(), 24);
    assert_eq!(shape.edges().len(), 48);
    assert_eq!(shape.cycles.len(), 26);
}

#[test]
fn shorten_name_counts_bytes() {
    let mut queue = vec![Transaction::ShortenName(2), Transaction::Name('a')];
    let mut name = String::from("\u{e9}P4");
    let mut shape = Shape::prism(4);
    step(&mut queue, &mut name, &mut shape, false, 0);
    assert_eq!(name, "P4");
    step(&mut queue, &mut name, &mut shape, false, 0);
    assert_eq!(name, "aP4");
    assert!(queue.is_empty());
}

#[test]
fn can_chamfer_a_prism() {
    assert!(Shape::prism(4).can_chamfer());
    assert!(Shape::prism(5).can_chamfer());
}
