use starframe::ecs::componentcontainer::ComponentContainer;
use starframe::ecs::space::{LifecycleEvent, Space};
use starframe::ecs::storage::{ComponentStorage, CreateWithCapacity, VecStorage};

/// Objects get ids in order; when the space is full, the smallest dead id is reused with a
/// new generation.
#[test]
fn ecs_space_reuses_dead_ids() {
    let mut space = Space::with_capacity(3);
    assert_eq!(space.create_object(), 0);
    assert_eq!(space.try_create_object(), Some(1));
    assert_eq!(space.create_object(), 2);
    assert_eq!(space.try_create_object(), None);
    assert_eq!(space.get_gen(1), 1);

    space.destroy_object(1);
    assert!(!space.is_alive(1));
    assert!(space.is_alive(0));
    assert_eq!(space.try_create_object(), Some(1));
    assert!(space.is_alive(1));
    assert_eq!(space.get_gen(1), 2);
    assert_eq!(space.get_gen(0), 1);
}

/// Disabling and enabling change only whether an object is enabled.
#[test]
fn ecs_enable_disable() {
    let mut space = Space::with_capacity(2);
    let a = space.create_object();
    assert!(space.is_enabled(a));
    space.disable_object(a);
    assert!(!space.is_enabled(a));
    assert!(space.is_alive(a));
    space.disable_object(a);
    assert!(!space.is_enabled(a));
    space.enable_object(a);
    assert!(space.is_enabled(a));
    LifecycleEvent::Disable(a).handle(&mut space);
    assert!(!space.is_enabled(a));
    LifecycleEvent::Destroy(a).handle(&mut space);
    assert!(!space.is_alive(a));
}

/// Destroying everything makes every id dead and restarts the generations.
#[test]
fn ecs_destroy_all() {
    let mut space = Space::with_capacity(2);
    space.create_object();
    space.create_object();
    space.destroy_all();
    assert!(!space.is_alive(0));
    assert!(!space.is_alive(1));
    assert_eq!(space.get_gen(0), 0);
    assert_eq!(space.try_create_object(), Some(0));
    assert_eq!(space.get_gen(0), 1);
}

/// Generations count object lifetimes modulo 256.
#[test]
fn ecs_generation_wraps() {
    let mut space = Space::with_capacity(1);
    for expected in 1..=255u8 {
        assert_eq!(space.create_object(), 0);
        assert_eq!(space.get_gen(0), expected);
        space.destroy_object(0);
    }
    assert_eq!(space.create_object(), 0);
    assert_eq!(space.get_gen(0), 0);
}

#[test]
fn ecs_vec_storage_read_after_insert() {
    let mut s: VecStorage<char> = VecStorage::with_capacity(4);
    s.insert(2, 'x');
    s.insert(0, 'y');
    assert_eq!(*s.get(2), 'x');
    assert_eq!(*s.get(0), 'y');
    *s.get_mut(2) = 'z';
    assert_eq!(*s.get(2), 'z');
    s.insert(0, 'w');
    assert_eq!(*s.get(0), 'w');
}

/// A pool keeps its objects disabled until they are spawned; once all are enabled, spawning
/// fails until one is disabled again.
#[test]
fn ecs_pool_spawns_disabled_objects() {
    let mut space = Space::with_capacity(4);
    let first = space.create_object();
    let pool = space.create_pool(2).unwrap();
    assert!(space.is_alive(1) && space.is_alive(2));
    assert!(!space.is_enabled(1) && !space.is_enabled(2));
    assert_eq!(space.spawn_from_pool(&pool), Some(1));
    assert!(space.is_enabled(1));
    assert_eq!(space.spawn_from_pool(&pool), Some(2));
    assert_eq!(space.spawn_from_pool(&pool), None);
    space.disable_object(1);
    assert_eq!(space.spawn_from_pool(&pool), Some(1));
    assert!(space.is_enabled(first));
}

/// A pool that does not fit in the free ids is not made, and nothing changes.
#[test]
fn ecs_pool_needs_free_ids() {
    let mut space = Space::with_capacity(3);
    space.create_object();
    assert!(space.create_pool(3).is_none());
    assert!(!space.is_alive(1));
    let pool = space.create_pool(2).unwrap();
    assert!(space.try_create_object().is_none());
    // destroyed ids count as free
    space.destroy_object(0);
    assert!(space.create_pool(2).is_none());
    assert!(space.create_pool(1).is_some());
    assert!(space.is_alive(0) && !space.is_enabled(0));
    assert_eq!(space.spawn_from_pool(&pool), Some(1));
}

/// Destroying everything destroys the pools too: spawning from one gives nothing.
#[test]
fn ecs_destroy_all_destroys_pools() {
    let mut space = Space::with_capacity(4);
    let pool = space.create_pool(2).unwrap();
    space.destroy_all();
    assert_eq!(space.spawn_from_pool(&pool), None);
    let fresh = space.create_pool(2).unwrap();
    assert!(space.spawn_from_pool(&fresh).is_some());
}

/// A pool takes never-used ids first, then the smallest dead ones.
#[test]
fn ecs_pool_takes_fresh_then_smallest_dead_ids() {
    let mut space = Space::with_capacity(5);
    for _ in 0..4 {
        space.create_object();
    }
    space.destroy_object(2);
    space.destroy_object(0);
    let pool = space.create_pool(3).unwrap();
    assert_eq!(space.spawn_from_pool(&pool), Some(4));
    assert_eq!(space.spawn_from_pool(&pool), Some(0));
    assert_eq!(space.spawn_from_pool(&pool), Some(2));
    assert_eq!(space.spawn_from_pool(&pool), None);
}

/// A component belongs to the object it was made for: once the id is given to a new object,
/// the old component is no longer found.
#[test]
fn ecs_components_follow_generations() {
    let mut space = Space::with_capacity(2);
    let mut names: ComponentContainer<char, VecStorage<char>> = ComponentContainer::new(2);
    let a = space.create_object();
    space.create_component(&mut names, a, 'a');
    assert!(space.has_component(&names, a));
    assert_eq!(space.read_component(&names, a), Some(&'a'));
    *space.write_component(&mut names, a).unwrap() = 'b';
    assert_eq!(space.read_component(&names, a), Some(&'b'));
    assert!(!space.has_component(&names, 1));

    space.destroy_object(a);
    assert!(!space.has_component(&names, a));
    space.create_object();
    let again = space.create_object();
    assert_eq!(again, a);
    assert!(space.is_alive(a));
    assert!(!space.has_component(&names, a));
    assert!(space.read_component(&names, a).is_none());
    assert!(space.write_component(&mut names, a).is_none());
    assert_eq!(names.get_gen(a), 1);
    assert_eq!(space.get_gen(a), 2);
}
