use polyblade::polyhedron::primitives::Edge;
use polyblade::polyhedron::shape::edge::{EdgeKey, EdgeMap, EdgeSet};
use polyblade::polyhedron::shape::planarity::control::{Control, ControlFlow};

#[test]
fn edge_equality_ignores_order() {
    let a: Edge = [1, 2].into();
    let b: Edge = Edge::from([2, 1]);
    let c: Edge = [1, 3].into();
    assert!(a == b);
    assert!(a != c);
    assert_eq!(a.v(), 1);
    assert_eq!(a.w(), 2);
    assert_eq!(b.min(), 1);
    assert_eq!(b.max(), 2);
    let back: [usize; 2] = b.into();
    assert_eq!(back, [2, 1]);
    assert_eq!(b.inner(), [2, 1]);
}

#[test]
fn edge_key_normalizes() {
    assert_eq!(EdgeKey::new(5, 2).inner(), [2, 5]);
    assert_eq!(EdgeKey::new(2, 5), EdgeKey::from([5, 2]));
}

#[test]
fn edge_map_round_trip() {
    let mut map: EdgeMap<usize> = EdgeMap::new();
    assert_eq!(map.insert([3, 1], 10), None);
    assert_eq!(map.insert([1, 3], 11), Some(10));
    assert_eq!(map.get([3, 1]), Some(&11));
    assert!(map.contains_key([1, 3]));
    assert!(!map.contains_key([1, 2]));
    map.insert([0, 2], 7);
    let mut keys = map.keys();
    keys.sort();
    assert_eq!(keys, vec![[0, 2], [1, 3]]);
    assert_eq!(map.remove([3, 1]), Some(11));
    assert_eq!(map.remove([3, 1]), None);
    assert_eq!(map.get([1, 3]), None);
}

#[test]
fn edge_set_round_trip() {
    let mut set = EdgeSet::new();
    assert!(set.insert([4, 1]));
    assert!(!set.insert([1, 4]));
    assert!(set.contains([4, 1]));
    assert!(set.insert([2, 3]));
    assert_eq!(set.iter().len(), 2);
    assert!(set.remove([1, 4]));
    assert!(!set.remove([1, 4]));
    assert_eq!(set.iter(), vec![[2, 3]]);
}

#[test]
fn control_flow_values() {
    assert!(Control::Break.should_break());
    assert!(!Control::Prune.should_break());
    assert!(Control::Prune.should_prune());
    assert!(!Control::continuing().should_prune());
    let ok: Result<Control, ()> = Ok(Control::Prune);
    assert!(ok.should_prune());
    let err: Result<Control, ()> = Err(());
    assert!(err.should_break());
    assert!(!err.should_prune());
    assert!(!().should_break());
}

#[test]
fn edge_map_get_mut_changes_in_place() {
    let mut map: EdgeMap<usize> = EdgeMap::new();
    map.insert([4, 2], 1);
    map.insert([0, 1], 5);
    if let Some(value) = map.get_mut([2, 4]) {
        *value += 10;
    }
    assert_eq!(map.get([4, 2]), Some(&11));
    assert_eq!(map.get([1, 0]), Some(&5));
    assert!(map.get_mut([2, 3]).is_none());
}
