use polyblade::polyhedron::face::{FaceColoring, FaceTypeSignature, distinct_ascending};
use polyblade::polyhedron::palette::PaletteAllocator;

fn sig(sides: usize, neighbors: Vec<usize>) -> FaceTypeSignature {
    FaceTypeSignature { side_count: sides, neighbor_sides: neighbors }
}

#[test]
fn palette_allocator_hands_out_and_recycles() {
    let mut allocator = PaletteAllocator::default();
    assert!(allocator.set_len(3));
    allocator.reassign(&vec![5, 7]);
    assert_eq!(allocator.palette_of(5), 0);
    assert_eq!(allocator.palette_of(7), 1);
    assert_eq!(allocator.palette_of(9), 0);
    // Slot 5 vanishes: its index goes to the back, the newcomer takes the front.
    allocator.reassign(&vec![7, 9]);
    assert_eq!(allocator.palette_of(7), 1);
    assert_eq!(allocator.palette_of(9), 2);
    // Two assigned and one free: three entries already.
    assert!(!allocator.set_len(3));
    // Shrinking drops the out-of-range assignment.
    assert!(allocator.set_len(2));
    assert_eq!(allocator.palette_of(9), 0);
    assert_eq!(allocator.palette_of(7), 1);
}

#[test]
fn exhausted_palette_hands_out_past_the_end() {
    let mut allocator = PaletteAllocator::default();
    allocator.set_len(1);
    allocator.reassign(&vec![1, 2, 3]);
    assert_eq!(allocator.palette_of(1), 0);
    assert_eq!(allocator.palette_of(2), 1);
    assert_eq!(allocator.palette_of(3), 2);
}

#[test]
fn distinct_ascending_sorts_and_dedups() {
    assert_eq!(distinct_ascending(&vec![3, 1, 3, 2, 1]), vec![1, 2, 3]);
    assert_eq!(distinct_ascending(&vec![]), Vec::<usize>::new());
}

#[test]
fn bootstrap_assigns_render_indices() {
    let mut coloring = FaceColoring::default();
    coloring.bootstrap(&[10, 11, 12], vec![0, 1, 0], 2);
    assert_eq!(coloring.colors, vec![0, 1, 0]);
    assert_eq!(coloring.render_indices, vec![0, 1, 0]);
}

#[test]
fn finalize_carries_colors_and_mints_new_ones() {
    let mut coloring = FaceColoring::default();
    coloring.bootstrap(&[10, 11, 12], vec![0, 1, 0], 2);
    let a = sig(4, vec![3, 3, 3, 3]);
    let b = sig(3, vec![4, 4, 4]);
    let c = sig(8, vec![3, 8, 3, 8, 3, 8, 3, 8]);
    // 13 is carved from 12 and inherits its slot; 14 is a new facetype.
    coloring.finalize(&[10, 11, 13, 14], &vec![(13, 12)], &[a.clone(), b, a, c]);
    assert_eq!(coloring.colors, vec![0, 1, 0, 2]);
    assert_eq!(coloring.render_indices, vec![0, 1, 0, 2]);
}

#[test]
fn finalize_normalizes_one_color_per_signature() {
    let mut coloring = FaceColoring::default();
    coloring.bootstrap(&[10], vec![0], 1);
    let a = sig(3, vec![3, 3, 3]);
    // The two fresh faces mint slot 1, but the carried-over slot 0 wins the signature.
    coloring.finalize(&[10, 20, 21], &vec![], &[a.clone(), a.clone(), a]);
    assert_eq!(coloring.colors, vec![0, 0, 0]);
}

#[test]
fn finalize_prefers_larger_group_then_smaller_slot() {
    let mut coloring = FaceColoring::default();
    coloring.bootstrap(&[1, 2, 3], vec![4, 7, 7], 8);
    let a = sig(5, vec![5, 5, 5, 5, 5]);
    coloring.finalize(&[1, 2, 3], &vec![], &[a.clone(), a.clone(), a]);
    assert_eq!(coloring.colors, vec![7, 7, 7]);
}

#[test]
fn set_palette_len_refreshes_only_on_change() {
    let mut coloring = FaceColoring::default();
    coloring.bootstrap(&[1, 2], vec![0, 1], 2);
    let before = coloring.render_indices.clone();
    coloring.set_palette_len(2);
    assert_eq!(coloring.render_indices, before);
    coloring.set_palette_len(1);
    // Slot 1 lost its index; as a newcomer with no free index it is handed one past the end.
    assert_eq!(coloring.render_indices, vec![0, 1]);
}
