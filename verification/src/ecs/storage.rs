//! Generic component storage for the entity-component-system space.
use vstd::prelude::*;
use crate::ecs::IdType;

verus! {

/// Generic storage to be used internally by a component container.
/// None of these methods should ever be called directly by the user.
pub trait ComponentStorage<T> {
    /// The component of each object that has one.
    spec fn contents(&self) -> Map<IdType, T>;

    /// The number of object ids the storage has room for.
    spec fn capacity(&self) -> nat;

    /// Get an immutable reference to a component; the object must have one.
    fn get(&self, id: IdType) -> (r: &T)
        requires
            self.contents().contains_key(id),
        ensures
            *r == self.contents()[id],
    ;

    /// Get a mutable reference to a component; the object must have one.
    fn get_mut(&mut self, id: IdType) -> (r: &mut T)
        requires
            old(self).contents().contains_key(id),
        ensures
            *r == old(self).contents()[id],
            final(self).contents() == old(self).contents().insert(id, *final(r)),
            final(self).capacity() == old(self).capacity(),
    ;

    /// Insert a new component at position id.
    fn insert(&mut self, id: IdType, comp: T)
        requires
            id < old(self).capacity(),
        ensures
            final(self).contents() == old(self).contents().insert(id, comp),
            final(self).capacity() == old(self).capacity(),
    ;
}

/// A Storage must be able to create itself, empty, with a given capacity.
pub trait CreateWithCapacity<T>: ComponentStorage<T> + Sized {
    fn with_capacity(cap: IdType) -> (r: Self)
        ensures
            r.contents() == Map::<IdType, T>::empty(),
            r.capacity() == cap,
    ;
}

/// Trait describing the default storage type for a type when used as a component.
pub trait DefaultStorage: Sized {
    type DefaultStorage: CreateWithCapacity<Self>;
}

/// A sparse vector container. Components are stored in a single Vec
/// indexed by their id; positions without a component hold nothing.
pub struct VecStorage<T> {
    content: Vec<Option<T>>,
}

impl<T> CreateWithCapacity<T> for VecStorage<T> {
    fn with_capacity(cap: IdType) -> (r: Self) {
        let mut content: Vec<Option<T>> = Vec::new();
        while content.len() < cap
            invariant
                content@.len() <= cap,
                forall|a: int| 0 <= a < content@.len() ==> #[trigger] content@[a] is None,
            decreases cap - content@.len(),
        {
            content.push(None);
        }
        let r = VecStorage { content };
        proof {
            assert(r.contents() =~= Map::<IdType, T>::empty());
        }
        r
    }
}

impl<T> ComponentStorage<T> for VecStorage<T> {
    closed spec fn contents(&self) -> Map<IdType, T> {
        Map::new(
            |id: IdType| id < self.content@.len() && self.content@[id as int] is Some,
            |id: IdType| self.content@[id as int]->Some_0,
        )
    }

    closed spec fn capacity(&self) -> nat {
        self.content@.len()
    }

    fn get(&self, id: IdType) -> (r: &T) {
        self.content[id].as_ref().unwrap()
    }

    fn get_mut(&mut self, id: IdType) -> (r: &mut T) {
        self.content[id].as_mut().unwrap()
    }

    fn insert(&mut self, id: IdType, comp: T) {
        let ghost s0 = *self;
        self.content.set(id, Some(comp));
        proof {
            assert(self.contents() =~= s0.contents().insert(id, comp));
        }
    }
}

} // verus!
