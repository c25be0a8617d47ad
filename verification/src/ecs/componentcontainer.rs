//! A container for one type of component: its storage, which objects use it, and the
//! generation of the object each component was made for.
use vstd::prelude::*;
use hibitset::BitSet;
use crate::bits::{bit_contents, bit_iterable, bitset_add, bitset_with_capacity, max_eid};
use crate::ecs::storage::CreateWithCapacity;
use crate::ecs::IdType;
use std::marker::PhantomData;

verus! {

/// A generic container for components that keeps track of users.
/// The Space handles the updates; none of this should be directly accessed by the user.
pub struct ComponentContainer<T, S> {
    users: BitSet,
    generations: Vec<u8>,
    storage: S,
    _marker: PhantomData<T>,
}

impl<T, S: CreateWithCapacity<T>> ComponentContainer<T, S> {
    /// The objects that have a component here.
    pub closed spec fn user_ids(&self) -> Set<u32> {
        bit_contents(self.users)
    }

    /// The generation of the object each component was made for.
    pub closed spec fn generations(&self) -> Seq<u8> {
        self.generations@
    }

    /// The components.
    pub closed spec fn stored(&self) -> Map<IdType, T> {
        self.storage.contents()
    }

    /// The number of object ids the container has room for.
    pub closed spec fn capacity(&self) -> nat {
        self.generations@.len()
    }

    /// Every user has a component, and the storage has room for every id.
    pub closed spec fn wf(&self) -> bool {
        &&& self.generations@.len() == self.storage.capacity()
        &&& self.generations@.len() <= max_eid()
        &&& bit_iterable(self.users)
        &&& forall|u: u32| #[trigger] bit_contents(self.users).contains(u) ==> {
            &&& u < self.generations@.len()
            &&& self.storage.contents().contains_key(u as IdType)
        }
    }

    /// Every user of a well-formed container is within its capacity and has a component.
    pub proof fn lemma_wf(&self)
        requires
            self.wf(),
        ensures
            forall|u: u32| #[trigger] self.user_ids().contains(u) ==> u < self.capacity()
                && self.stored().contains_key(u as IdType),
            self.capacity() <= max_eid(),
    {
    }

    /// An empty container for the objects of a Space of `capacity` objects.
    pub fn new(capacity: IdType) -> (r: Self)
        requires
            capacity <= max_eid(),
        ensures
            r.wf(),
            r.capacity() == capacity,
            r.user_ids() == Set::<u32>::empty(),
            r.stored() == Map::<IdType, T>::empty(),
            r.generations() == Seq::new(capacity as nat, |i: int| 0u8),
    {
        let mut generations: Vec<u8> = Vec::new();
        while generations.len() < capacity
            invariant
                generations@.len() <= capacity,
                forall|a: int| 0 <= a < generations@.len() ==> #[trigger] generations@[a] == 0,
            decreases capacity - generations@.len(),
        {
            generations.push(0);
        }
        let r = ComponentContainer {
            storage: S::with_capacity(capacity),
            generations,
            users: bitset_with_capacity(capacity as u32),
            _marker: PhantomData,
        };
        proof {
            assert(r.generations() =~= Seq::new(capacity as nat, |i: int| 0u8));
        }
        r
    }

    /// Store `comp` for object `id` of generation `gen`, replacing the component it had.
    pub fn insert(&mut self, id: IdType, gen: u8, comp: T)
        requires
            old(self).wf(),
            id < old(self).capacity(),
        ensures
            final(self).wf(),
            final(self).capacity() == old(self).capacity(),
            final(self).user_ids() == old(self).user_ids().insert(id as u32),
            final(self).generations() == old(self).generations().update(id as int, gen),
            final(self).stored() == old(self).stored().insert(id, comp),
    {
        let ghost c0 = *self;
        bitset_add(&mut self.users, id as u32);
        self.generations.set(id, gen);
        self.storage.insert(id, comp);
        proof {
            assert forall|u: u32| #[trigger] bit_contents(self.users).contains(u) implies {
                &&& u < self.generations@.len()
                &&& self.storage.contents().contains_key(u as IdType)
            } by {
                if u != id as u32 {
                    assert(bit_contents(c0.users).contains(u));
                }
            }
        }
    }

    /// The objects that have a component here, as a bit set.
    pub fn users(&self) -> (r: &BitSet)
        requires
            self.wf(),
        ensures
            bit_iterable(*r),
            bit_contents(*r) == self.user_ids(),
    {
        &self.users
    }

    /// The generation of the object the component of `id` was made for.
    pub fn get_gen(&self, id: IdType) -> (r: u8)
        requires
            self.wf(),
            id < self.capacity(),
        ensures
            r == self.generations()[id as int],
    {
        self.generations[id]
    }

    /// Read access to the underlying storage.
    pub fn read(&self) -> (r: &S)
        ensures
            r.contents() == self.stored(),
    {
        &self.storage
    }

    /// The component of object `id`; the object must use the container.
    pub(crate) fn get(&self, id: IdType) -> (r: &T)
        requires
            self.wf(),
            self.user_ids().contains(id as u32),
            id < max_eid(),
        ensures
            *r == self.stored()[id],
    {
        self.storage.get(id)
    }

    /// Mutable access to the component of object `id`; the object must use the container.
    pub(crate) fn get_mut(&mut self, id: IdType) -> (r: &mut T)
        requires
            old(self).wf(),
            old(self).user_ids().contains(id as u32),
            id < max_eid(),
        ensures
            *r == old(self).stored()[id],
            final(self).wf(),
            final(self).capacity() == old(self).capacity(),
            final(self).user_ids() == old(self).user_ids(),
            final(self).generations() == old(self).generations(),
            final(self).stored() == old(self).stored().insert(id, *final(r)),
    {
        self.storage.get_mut(id)
    }
}

} // verus!
