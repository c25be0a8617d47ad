//! Data structures for component storage inside of containers.
//!
//! Every storage maps object ids to components; the [`Storage`] trait states that map as
//! `contents`, and which ids a storage can hold at all as `accepts`.
use vstd::prelude::*;
use std::collections::HashMap;

verus! {

/// What a container hands its storages when it is created.
#[derive(Clone, Copy, Debug)]
pub struct ContainerInit {
    /// The number of objects the container holds at most.
    pub capacity: usize,
}

/// Trait allowing generic access to storage types.
pub trait Storage: Sized {
    type Item;

    /// The component of each object that has one.
    spec fn contents(&self) -> Map<usize, Self::Item>;

    /// The storage can hold a component for object `id`.
    spec fn accepts(&self, id: usize) -> bool;

    spec fn wf(&self) -> bool;

    /// A storage with room for the objects of a container of `init.capacity` objects.
    fn new(init: ContainerInit) -> (r: Self)
        ensures
            r.wf(),
            forall|id: usize| id < init.capacity ==> #[trigger] r.accepts(id),
    ;

    /// Store `component` for object `id`, replacing the one it had.
    fn insert(&mut self, id: usize, component: Self::Item)
        requires
            old(self).wf(),
            old(self).accepts(id),
        ensures
            final(self).wf(),
            final(self).contents() == old(self).contents().insert(id, component),
            forall|x: usize| #[trigger] final(self).accepts(x) == old(self).accepts(x),
    ;

    /// The component of object `id`, if it has one.
    fn get(&self, id: usize) -> (r: Option<&Self::Item>)
        requires
            self.wf(),
            self.accepts(id),
        ensures
            match r {
                Some(v) => self.contents().contains_key(id) && *v == self.contents()[id],
                None => !self.contents().contains_key(id),
            },
    ;

    /// Mutable access to the component of object `id`, if it has one.
    fn get_mut(&mut self, id: usize) -> (r: Option<&mut Self::Item>)
        requires
            old(self).wf(),
            old(self).accepts(id),
        ensures
            old(self).contents().contains_key(id) ==> {
                &&& r.is_some()
                &&& *r.unwrap() == old(self).contents()[id]
                &&& final(self).wf()
                &&& final(self).contents() == old(self).contents().insert(id, *final(r.unwrap()))
                &&& forall|x: usize| #[trigger] final(self).accepts(x) == old(self).accepts(x)
            },
            !old(self).contents().contains_key(id) ==> {
                &&& r.is_none()
                &&& final(self).wf()
                &&& final(self).contents() == old(self).contents()
                &&& forall|x: usize| #[trigger] final(self).accepts(x) == old(self).accepts(x)
            },
    ;
}

/// The most commonly used Storage type.
/// Stores components in a densely packed array with an additional
/// sparse array mapping object ids to indices in the dense array.
pub struct DenseVecStorage<T> {
    indices: Vec<Option<usize>>,
    items: Vec<T>,
}

impl<T> DenseVecStorage<T> {
    /// The number of components in the densely packed array.
    pub closed spec fn dense_len(&self) -> nat {
        self.items@.len()
    }
}

impl<T> Storage for DenseVecStorage<T> {
    type Item = T;

    closed spec fn contents(&self) -> Map<usize, T> {
        Map::new(
            |id: usize| id < self.indices@.len() && self.indices@[id as int] is Some,
            |id: usize| self.items@[self.indices@[id as int]->Some_0 as int],
        )
    }

    closed spec fn accepts(&self, id: usize) -> bool {
        id < self.indices@.len()
    }

    /// Every index points into the dense array, and no two objects share an entry.
    closed spec fn wf(&self) -> bool {
        &&& forall|a: int| 0 <= a < self.indices@.len() && #[trigger] self.indices@[a] is Some
            ==> self.indices@[a]->Some_0 < self.items@.len()
        &&& forall|a: int, b: int|
            0 <= a < self.indices@.len() && 0 <= b < self.indices@.len() && a != b
            && #[trigger] self.indices@[a] is Some && #[trigger] self.indices@[b] is Some
            ==> self.indices@[a] != self.indices@[b]
    }

    fn new(init: ContainerInit) -> (r: Self)
        ensures
            r.wf(),
            r.contents() == Map::<usize, T>::empty(),
            forall|id: usize| #[trigger] r.accepts(id) <==> id < init.capacity,
            r.dense_len() == 0,
    {
        let mut indices: Vec<Option<usize>> = Vec::new();
        while indices.len() < init.capacity
            invariant
                indices@.len() <= init.capacity,
                forall|a: int| 0 <= a < indices@.len() ==> #[trigger] indices@[a] is None,
            decreases init.capacity - indices@.len(),
        {
            indices.push(None);
        }
        let items: Vec<T> = Vec::with_capacity(init.capacity);
        let r = DenseVecStorage { indices, items };
        proof {
            assert(r.contents() =~= Map::<usize, T>::empty());
        }
        r
    }

    /// An object that had a component keeps its place in the dense array; a new one is
    /// appended to it.
    fn insert(&mut self, id: usize, component: T)
        ensures
            final(self).dense_len() == old(self).dense_len() + if old(self).contents().contains_key(id) {
                0int
            } else {
                1int
            },
    {
        let ghost s0 = *self;
        match self.indices[id] {
            Some(i) => {
                self.items.set(i, component);
            },
            None => {
                let n = self.items.len();
                self.indices.set(id, Some(n));
                self.items.push(component);
                proof {
                    assert forall|a: int| 0 <= a < self.indices@.len() && #[trigger] self.indices@[a] is Some
                        implies self.indices@[a]->Some_0 < self.items@.len() by {
                        if a != id {
                            assert(s0.indices@[a] is Some);
                        }
                    }
                }
            },
        }
        proof {
            assert(self.contents() =~= s0.contents().insert(id, component));
        }
    }

    fn get(&self, id: usize) -> (r: Option<&T>) {
        match self.indices[id] {
            Some(i) => Some(&self.items[i]),
            None => None,
        }
    }

    fn get_mut(&mut self, id: usize) -> (r: Option<&mut T>) {
        let ghost s0 = *self;
        match self.indices[id] {
            Some(i) => {
                let r = &mut self.items[i];
                proof {
                    assert(self.indices@ == s0.indices@);
                }
                Some(r)
            },
            None => None,
        }
    }
}

/// A single sparse array indexed with object ids.
/// Useful when almost every object in a Space has a component,
/// such as for `Transform`s.
pub struct VecStorage<T> {
    items: Vec<Option<T>>,
}

impl<T> Storage for VecStorage<T> {
    type Item = T;

    closed spec fn contents(&self) -> Map<usize, T> {
        Map::new(
            |id: usize| id < self.items@.len() && self.items@[id as int] is Some,
            |id: usize| self.items@[id as int]->Some_0,
        )
    }

    closed spec fn accepts(&self, id: usize) -> bool {
        id < self.items@.len()
    }

    closed spec fn wf(&self) -> bool {
        true
    }

    fn new(init: ContainerInit) -> (r: Self)
        ensures
            r.contents() == Map::<usize, T>::empty(),
            forall|id: usize| #[trigger] r.accepts(id) <==> id < init.capacity,
    {
        let mut items: Vec<Option<T>> = Vec::new();
        while items.len() < init.capacity
            invariant
                items@.len() <= init.capacity,
                forall|a: int| 0 <= a < items@.len() ==> #[trigger] items@[a] is None,
            decreases init.capacity - items@.len(),
        {
            items.push(None);
        }
        let r = VecStorage { items };
        proof {
            assert(r.contents() =~= Map::<usize, T>::empty());
        }
        r
    }

    fn insert(&mut self, id: usize, component: T) {
        let ghost s0 = *self;
        self.items.set(id, Some(component));
        proof {
            assert(self.contents() =~= s0.contents().insert(id, component));
        }
    }

    fn get(&self, id: usize) -> (r: Option<&T>) {
        self.items[id].as_ref()
    }

    fn get_mut(&mut self, id: usize) -> (r: Option<&mut T>) {
        self.items[id].as_mut()
    }
}

/// Mutable access to the value at key `k` of `m`, if there is one.
///
/// Calls `HashMap::get_mut`, which std documents as returning a mutable reference to the
/// value of the key; the contract states that the reference is to that value and that a
/// write through it is a write to the map.
#[verifier::external_body]
fn map_get_mut<T>(m: &mut HashMap<usize, T>, k: usize) -> (r: Option<&mut T>)
    ensures
        old(m)@.contains_key(k) ==> {
            &&& r.is_some()
            &&& *r.unwrap() == old(m)@[k]
            &&& final(m)@ == old(m)@.insert(k, *final(r.unwrap()))
        },
        !old(m)@.contains_key(k) ==> r.is_none() && final(m)@ == old(m)@,
{
    m.get_mut(&k)
}

/// A hashmap-based storage. Good when there are very few objects with this component.
pub struct HashMapStorage<T> {
    items: HashMap<usize, T>,
}

impl<T> Storage for HashMapStorage<T> {
    type Item = T;

    closed spec fn contents(&self) -> Map<usize, T> {
        self.items@
    }

    closed spec fn accepts(&self, id: usize) -> bool {
        true
    }

    closed spec fn wf(&self) -> bool {
        true
    }

    fn new(init: ContainerInit) -> (r: Self)
        ensures
            r.contents() == Map::<usize, T>::empty(),
            forall|id: usize| #[trigger] r.accepts(id),
    {
        // ignore capacity to save memory; this won't be used to hold that many things
        HashMapStorage { items: HashMap::new() }
    }

    fn insert(&mut self, id: usize, component: T) {
        broadcast use vstd::std_specs::hash::group_hash_axioms;

        self.items.insert(id, component);
    }

    fn get(&self, id: usize) -> (r: Option<&T>) {
        broadcast use vstd::std_specs::hash::group_hash_axioms;

        self.items.get(&id)
    }

    fn get_mut(&mut self, id: usize) -> (r: Option<&mut T>) {
        map_get_mut(&mut self.items, id)
    }
}

/// Storage for tags that don't contain any data.
pub struct NullStorage(());

impl Storage for NullStorage {
    type Item = ();

    /// Every object has the tag.
    closed spec fn contents(&self) -> Map<usize, ()> {
        Map::total(|id: usize| ())
    }

    closed spec fn accepts(&self, id: usize) -> bool {
        true
    }

    closed spec fn wf(&self) -> bool {
        true
    }

    fn new(init: ContainerInit) -> (r: Self)
        ensures
            forall|id: usize| #[trigger] r.accepts(id),
            forall|id: usize| #[trigger] r.contents().contains_key(id),
    {
        NullStorage(())
    }

    fn insert(&mut self, id: usize, component: ()) {
        proof {
            assert(self.contents().insert(id, component) =~= self.contents());
        }
    }

    fn get(&self, id: usize) -> (r: Option<&()>) {
        Some(&self.0)
    }

    fn get_mut(&mut self, id: usize) -> (r: Option<&mut ()>) {
        proof {
            assert(old(self).contents().insert(id, ()) =~= old(self).contents());
        }
        Some(&mut self.0)
    }
}

/// A storage gives back for an object what was last inserted for it; every other object keeps
/// what it had.
pub proof fn lemma_read_after_insert<S: Storage>(before: S, after: S, id: usize, component: S::Item, other: usize)
    requires
        after.contents() == before.contents().insert(id, component),
    ensures
        after.contents().contains_key(id),
        after.contents()[id] == component,
        other != id ==> after.contents().contains_key(other) == before.contents().contains_key(other),
        other != id && before.contents().contains_key(other) ==> after.contents()[other] == before.contents()[other],
{
}

} // verus!
