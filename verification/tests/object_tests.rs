use patchjuggler::object::Object;

#[test]
fn new_object_is_at_rest() {
    let pos = [1.5f64.to_bits(), 2.25f64.to_bits()];
    let obj = Object::new(pos, [10, 20, 30]);
    assert_eq!(obj.pos, pos);
    assert_eq!(obj.velo, [0, 0]);
    assert_eq!(f64::from_bits(obj.velo[0]), 0.0);
    assert_eq!(f64::from_bits(obj.velo[1]), 0.0);
    assert_eq!(obj.color, [10, 20, 30]);
}

#[test]
fn default_object_is_all_zero() {
    let obj = Object::default();
    assert_eq!(obj, Object { pos: [0, 0], velo: [0, 0], color: [0, 0, 0] });
    assert_eq!(f64::from_bits(obj.pos[0]), 0.0);
}

#[test]
fn objects_compare_by_fields() {
    let a = Object::new([1, 2], [3, 4, 5]);
    let mut b = a;
    assert_eq!(a, b);
    b.velo[1] = 1;
    assert_ne!(a, b);
}

#[test]
fn items_are_reachable_from_the_crate_root() {
    let map = patchjuggler::SortMap::new(2);
    assert_eq!(map.hash_table[0], patchjuggler::HashEntry { particle_idx: 0, cell_hash: 0 });
    let finder = patchjuggler::object::FindScanner::new(None);
    assert!(finder.into_find_result().is_empty());
    assert_eq!(patchjuggler::Object::default(), Object::default());
}
