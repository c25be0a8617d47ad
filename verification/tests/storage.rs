use starframe::base::storage::{
    ContainerInit, DenseVecStorage, HashMapStorage, NullStorage, Storage, VecStorage,
};

/// Every storage gives back what was last inserted for an object and nothing for the others.
fn check_read_after_insert<S: Storage<Item = u32>>(mut s: S) {
    assert!(s.get(3).is_none());
    s.insert(3, 30);
    s.insert(5, 50);
    assert_eq!(s.get(3), Some(&30));
    assert_eq!(s.get(5), Some(&50));
    assert!(s.get(4).is_none());
    s.insert(3, 33);
    assert_eq!(s.get(3), Some(&33));
    assert_eq!(s.get(5), Some(&50));
    *s.get_mut(5).unwrap() = 55;
    assert_eq!(s.get(5), Some(&55));
    assert!(s.get_mut(6).is_none());
}

#[test]
fn dense_vec_storage_read_after_insert() {
    check_read_after_insert(DenseVecStorage::<u32>::new(ContainerInit { capacity: 8 }));
}

#[test]
fn vec_storage_read_after_insert() {
    check_read_after_insert(VecStorage::<u32>::new(ContainerInit { capacity: 8 }));
}

#[test]
fn hash_map_storage_read_after_insert() {
    let mut s = HashMapStorage::<u32>::new(ContainerInit { capacity: 8 });
    // the capacity is not a limit here
    s.insert(1000, 1);
    assert_eq!(s.get(1000), Some(&1));
    check_read_after_insert(s);
}

/// The tag storage has the tag for every object.
#[test]
fn null_storage_has_every_tag() {
    let mut s = NullStorage::new(ContainerInit { capacity: 2 });
    assert_eq!(s.get(0), Some(&()));
    assert_eq!(s.get(7), Some(&()));
    s.insert(1, ());
    assert!(s.get_mut(5).is_some());
}
