use starframe::base::container::{joined_ids, Container};
use starframe::base::recipe::Recipe;
use starframe::base::space::{CommandQueue, CreationId, Id, Space};
use starframe::base::storage::{ContainerInit, DenseVecStorage, NullStorage};

struct Features {
    pos: Container<DenseVecStorage<u32>>,
    tag: Container<NullStorage>,
}

fn features(init: ContainerInit) -> Features {
    Features { pos: Container::new(init), tag: Container::new(init) }
}

/// A Space hands out each id once, in order, until it is full.
#[test]
fn space_gives_out_distinct_ids_until_full() {
    let mut space = Space::with_capacity(3, features);
    let a = space.create_object().unwrap();
    let b = space.create_object().unwrap();
    let c = space.create_object().unwrap();
    assert!(a != b && b != c && a != c);
    assert!(space.create_object().is_none());

    // destroying objects disables them but does not give their ids back
    let mut commands = CommandQueue::new();
    commands.kill_object(Id::from(b));
    space.tick(commands);
    assert!(space.create_object().is_none());
}

/// Components inserted through a creation id are read back through the object's id.
#[test]
fn container_read_after_insert() {
    let mut space = Space::with_capacity(4, features);
    let a = space.create_object().unwrap();
    let b = space.create_object().unwrap();
    space.features.pos.insert(a, 10);
    space.features.tag.insert(b, ());
    let (ia, ib) = (Id::from(a), Id::from(b));

    assert_eq!(space.features.pos.get(ia), Some(&10));
    assert!(space.features.pos.get(ib).is_none());
    assert!(space.features.pos.has(ia));
    assert!(!space.features.pos.has(ib));
    assert!(space.features.tag.has(ib));
    assert!(!space.features.tag.has(ia));
    assert_eq!(space.features.tag.get(ib), Some(&()));
    assert!(space.features.tag.get(ia).is_none());

    *space.features.pos.get_mut(ia).unwrap() = 11;
    assert_eq!(space.features.pos.get(ia), Some(&11));
    assert!(space.features.pos.get_mut(ib).is_none());
    space.features.pos.insert(a, 12);
    assert_eq!(space.features.pos.get(ia), Some(&12));
}

/// Every bullet is tagged; each instance has its own speed.
struct Bullet {
    speed: u32,
}

impl Recipe<Features> for Bullet {
    fn spawn_consts(id: CreationId, features: &mut Features) {
        features.tag.insert(id, ());
    }

    fn spawn_vars(self, id: CreationId, features: &mut Features) {
        features.pos.insert(id, self.speed);
    }
}

/// A pool limits how many instances are enabled at once; destroyed instances free their slots
/// for new ones.
#[test]
fn pool_limits_simultaneous_instances() {
    let mut space = Space::with_capacity(10, features);
    let pool = space.create_pool::<Bullet>(3).unwrap();

    let a = space.spawn(Some(&pool), Bullet { speed: 1 }).unwrap();
    let b = space.spawn(Some(&pool), Bullet { speed: 2 }).unwrap();
    let c = space.spawn(Some(&pool), Bullet { speed: 3 }).unwrap();
    assert!(a != b && b != c && a != c);
    assert!(space.spawn(Some(&pool), Bullet { speed: 4 }).is_none());
    for (id, speed) in [(a, 1), (b, 2), (c, 3)] {
        assert!(space.features.tag.has(id));
        assert_eq!(space.features.pos.get(id), Some(&speed));
    }

    // destroying an instance frees its slot
    let mut commands = CommandQueue::new();
    commands.kill_object(b);
    space.tick(commands);
    let d = space.spawn(Some(&pool), Bullet { speed: 5 }).unwrap();
    assert!(d == b);
    assert_eq!(space.features.pos.get(d), Some(&5));
    assert!(space.spawn(Some(&pool), Bullet { speed: 6 }).is_none());

    // without a pool, a new object is made, outside the pool's slots
    let e = space.spawn(None, Bullet { speed: 7 }).unwrap();
    assert!(e != a && e != b && e != c);
    assert!(space.features.tag.has(e));
    assert_eq!(space.features.pos.get(e), Some(&7));
}

/// A pool that does not fit in the rest of the Space is not made.
#[test]
fn pool_needs_room() {
    let mut space = Space::with_capacity(5, features);
    assert!(space.create_pool::<Bullet>(6).is_none());
    // four slots, then one id is left
    assert!(space.create_pool::<Bullet>(4).is_some());
    assert!(space.create_pool::<Bullet>(2).is_none());
    assert!(space.create_object().is_some());
    assert!(space.create_object().is_none());
    assert!(space.create_pool::<Bullet>(0).is_some());
    assert!(space.create_pool::<Bullet>(1).is_none());
}

/// Joining the enabled objects with container users picks the objects that are enabled, have
/// every component asked for and none of those excluded, in ascending order.
#[test]
fn join_enabled_objects_with_components() {
    let mut space = Space::with_capacity(6, features);
    let ids: Vec<CreationId> = (0..5).map(|_| space.create_object().unwrap()).collect();
    for (k, id) in ids.iter().enumerate() {
        if k % 2 == 0 {
            space.features.pos.insert(*id, k as u32);
        }
        if k >= 2 {
            space.features.tag.insert(*id, ());
        }
    }
    let mut commands = CommandQueue::new();
    commands.kill_object(Id::from(ids[4]));
    space.tick(commands);

    let seed = space.iter_seed();
    let with_pos = joined_ids(seed, &vec![space.features.pos.users()], &Vec::new());
    assert_eq!(with_pos, vec![0, 2]);
    let pos_and_tag = joined_ids(
        seed,
        &vec![space.features.pos.users(), space.features.tag.users()],
        &Vec::new(),
    );
    assert_eq!(pos_and_tag, vec![2]);
    let tag_not_pos = joined_ids(seed, &vec![space.features.tag.users()], &vec![space.features.pos.users()]);
    assert_eq!(tag_not_pos, vec![3]);
    let all = joined_ids(seed, &Vec::new(), &Vec::new());
    assert_eq!(all, vec![0, 1, 2, 3]);
}

/// Making a pool creates the shared components of every slot at once; the components of each
/// instance come only when it is spawned.
#[test]
fn pool_creates_shared_components_for_every_slot() {
    let mut space = Space::with_capacity(10, features);
    let first = space.create_object().unwrap();
    let pool = space.create_pool::<Bullet>(3).unwrap();
    for slot in 1u32..4 {
        assert!(space.features.tag.users().contains(slot));
        assert!(!space.features.pos.users().contains(slot));
    }
    assert!(!space.features.tag.users().contains(0));
    assert!(!space.features.tag.users().contains(4));
    let a = space.spawn(Some(&pool), Bullet { speed: 9 }).unwrap();
    assert_eq!(space.features.pos.get(a), Some(&9));
    assert!(space.features.pos.users().contains(1));
    assert!(!space.features.tag.has(Id::from(first)));
}
