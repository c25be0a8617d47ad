//! Containers of the components of game objects.
//!
//! A container pairs a [`Storage`] with the bit set of the objects that use it: an object has
//! a component exactly when its id is in that set.
use vstd::prelude::*;
use hibitset::BitSet;
use crate::bits::{
    bit_contents, bit_iterable, bitset_add, bitset_and, bitset_and_not, bitset_clone, bitset_contains,
    bitset_to_vec, bitset_with_capacity, max_eid,
};
use crate::base::space::{CreationId, Id};
use crate::base::storage::{ContainerInit, Storage};

verus! {

/// A container for a specific type of component,
/// typically belonging to a feature of a Space.
///
/// There are several `Storage` types to choose from (see the `storage` module);
/// which one is optimal depends mostly on how common the component type is.
/// Usually `DenseVecStorage` perfoms the best.
pub struct Container<S: Storage> {
    users: BitSet,
    storage: S,
}

impl<S: Storage> Container<S> {
    /// The component of each object that uses the container.
    pub closed spec fn contents(&self) -> Map<usize, S::Item> {
        Map::new(
            |k: usize| k < max_eid() && bit_contents(self.users).contains(k as u32),
            |k: usize| self.storage.contents()[k],
        )
    }

    /// The container can hold a component for object `id`.
    pub closed spec fn accepts(&self, id: usize) -> bool {
        self.storage.accepts(id)
    }

    /// Every user has its component in the storage.
    pub closed spec fn wf(&self) -> bool {
        &&& self.storage.wf()
        &&& bit_iterable(self.users)
        &&& forall|u: u32| #[trigger] bit_contents(self.users).contains(u) ==> {
            &&& u < max_eid()
            &&& self.storage.accepts(u as usize)
            &&& self.storage.contents().contains_key(u as usize)
        }
    }

    /// Create a new, empty Container for the objects of a space of `init.capacity` objects.
    pub fn new(init: ContainerInit) -> (r: Self)
        requires
            init.capacity <= max_eid(),
        ensures
            r.wf(),
            r.contents() == Map::<usize, S::Item>::empty(),
            forall|id: usize| id < init.capacity ==> #[trigger] r.accepts(id),
    {
        let r = Container { users: bitset_with_capacity(init.capacity as u32), storage: S::new(init) };
        proof {
            assert(r.contents() =~= Map::<usize, S::Item>::empty());
        }
        r
    }

    /// Insert a component into the Container, replacing the one the object had.
    ///
    /// This requires a `CreationId`, which you can get from the containing `Space` by creating an object.
    pub fn insert(&mut self, id: CreationId, comp: S::Item)
        requires
            old(self).wf(),
            old(self).accepts(id.index()),
        ensures
            final(self).wf(),
            final(self).contents() == old(self).contents().insert(id.index(), comp),
            forall|x: usize| #[trigger] final(self).accepts(x) == old(self).accepts(x),
    {
        let ghost c0 = *self;
        let idx = id.value();
        bitset_add(&mut self.users, idx as u32);
        self.storage.insert(idx, comp);
        proof {
            assert forall|u: u32| #[trigger] bit_contents(self.users).contains(u) implies {
                &&& u < max_eid()
                &&& self.storage.accepts(u as usize)
                &&& self.storage.contents().contains_key(u as usize)
            } by {
                if u != idx as u32 {
                    assert(bit_contents(c0.users).contains(u));
                    assert(c0.storage.accepts(u as usize));
                }
            }
            assert(self.contents() =~= c0.contents().insert(id.index(), comp));
        }
    }

    /// Get an immutable reference to a component of a specific object, if it has it.
    pub fn get(&self, id: Id) -> (r: Option<&S::Item>)
        requires
            self.wf(),
        ensures
            match r {
                Some(v) => self.contents().contains_key(id.index()) && *v == self.contents()[id.index()],
                None => !self.contents().contains_key(id.index()),
            },
    {
        let id = id.value();
        if bitset_contains(&self.users, id as u32) {
            Some(self.storage.get(id).unwrap())
        } else {
            None
        }
    }

    /// Get a mutable reference to a component of a specific object, if it has it.
    pub fn get_mut(&mut self, id: Id) -> (r: Option<&mut S::Item>)
        requires
            old(self).wf(),
        ensures
            old(self).contents().contains_key(id.index()) ==> {
                &&& r is Some
                &&& *r.unwrap() == old(self).contents()[id.index()]
                &&& final(self).wf()
                &&& final(self).contents() == old(self).contents().insert(id.index(), *final(r.unwrap()))
                &&& forall|x: usize| #[trigger] final(self).accepts(x) == old(self).accepts(x)
            },
            !old(self).contents().contains_key(id.index()) ==> {
                &&& r is None
                &&& final(self).wf()
                &&& final(self).contents() == old(self).contents()
                &&& forall|x: usize| #[trigger] final(self).accepts(x) == old(self).accepts(x)
            },
    {
        let id = id.value();
        if bitset_contains(&self.users, id as u32) {
            let r = self.storage.get_mut(id);
            r
        } else {
            None
        }
    }

    /// The objects that have a component in this Container, as a bit set to join with others
    /// in [`joined_ids`].
    pub fn users(&self) -> (r: &BitSet)
        requires
            self.wf(),
        ensures
            bit_iterable(*r),
            forall|i: u32| #[trigger] bit_contents(*r).contains(i) <==> self.contents().contains_key(i as usize),
    {
        proof {
            assert forall|i: u32| #[trigger] bit_contents(self.users).contains(i) implies (i as usize) < max_eid() by {}
        }
        &self.users
    }

    /// Returns whether or not the given object has the component stored in this Container.
    pub fn has(&self, id: Id) -> (r: bool)
        ensures
            r == self.contents().contains_key(id.index()),
    {
        bitset_contains(&self.users, id.value() as u32)
    }
}

/// Object `i` is in `base`, in every set of `with` and in no set of `without`.
pub open spec fn joined(base: BitSet, with: Seq<&BitSet>, without: Seq<&BitSet>, i: u32) -> bool {
    &&& bit_contents(base).contains(i)
    &&& forall|k: int| 0 <= k < with.len() ==> bit_contents(*#[trigger] with[k]).contains(i)
    &&& forall|k: int| 0 <= k < without.len() ==> !bit_contents(*#[trigger] without[k]).contains(i)
}

/// The objects, in ascending order, that are in `base`, in every set of `with` and in no set
/// of `without`: what iterating a join of container users gives, such as the enabled objects
/// of a Space that have some components and lack others.
pub fn joined_ids(base: &BitSet, with: &Vec<&BitSet>, without: &Vec<&BitSet>) -> (r: Vec<u32>)
    requires
        bit_iterable(*base),
        forall|k: int| 0 <= k < with@.len() ==> bit_iterable(*#[trigger] with@[k]),
    ensures
        forall|a: int, b: int| 0 <= a < b < r@.len() ==> r@[a] < r@[b],
        forall|i: u32| r@.contains(i) <==> (i < max_eid() && joined(*base, with@, without@, i)),
{
    let mut acc = bitset_clone(base);
    let mut k: usize = 0;
    while k < with.len()
        invariant
            k <= with@.len(),
            bit_iterable(acc),
            forall|k: int| 0 <= k < with@.len() ==> bit_iterable(*#[trigger] with@[k]),
            forall|i: u32| #[trigger] bit_contents(acc).contains(i) <==> (bit_contents(*base).contains(i)
                && forall|j: int| 0 <= j < k ==> bit_contents(*#[trigger] with@[j]).contains(i)),
        decreases with@.len() - k,
    {
        let next = bitset_and(&acc, with[k]);
        proof {
            assert forall|i: u32| #[trigger] bit_contents(next).contains(i) <==> (bit_contents(*base).contains(i)
                && forall|j: int| 0 <= j < k + 1 ==> bit_contents(*#[trigger] with@[j]).contains(i)) by {
                if bit_contents(*base).contains(i) && forall|j: int| 0 <= j < k + 1 ==> bit_contents(*#[trigger] with@[j]).contains(i) {
                    assert(bit_contents(*with@[k as int]).contains(i));
                }
            }
        }
        acc = next;
        k += 1;
    }
    let mut k: usize = 0;
    while k < without.len()
        invariant
            k <= without@.len(),
            bit_iterable(acc),
            forall|i: u32| #[trigger] bit_contents(acc).contains(i) <==> (bit_contents(*base).contains(i)
                && (forall|j: int| 0 <= j < with@.len() ==> bit_contents(*#[trigger] with@[j]).contains(i))
                && forall|j: int| 0 <= j < k ==> !bit_contents(*#[trigger] without@[j]).contains(i)),
        decreases without@.len() - k,
    {
        let next = bitset_and_not(&acc, without[k]);
        proof {
            assert forall|i: u32| #[trigger] bit_contents(next).contains(i) <==> (bit_contents(*base).contains(i)
                && (forall|j: int| 0 <= j < with@.len() ==> bit_contents(*#[trigger] with@[j]).contains(i))
                && forall|j: int| 0 <= j < k + 1 ==> !bit_contents(*#[trigger] without@[j]).contains(i)) by {
                if bit_contents(*base).contains(i)
                    && (forall|j: int| 0 <= j < with@.len() ==> bit_contents(*#[trigger] with@[j]).contains(i))
                    && forall|j: int| 0 <= j < k + 1 ==> !bit_contents(*#[trigger] without@[j]).contains(i) {
                    assert(!bit_contents(*without@[k as int]).contains(i));
                }
            }
        }
        acc = next;
        k += 1;
    }
    let r = bitset_to_vec(&acc);
    proof {
        assert forall|i: u32| r@.contains(i) <==> (i < max_eid() && joined(*base, with@, without@, i)) by {
            assert(bit_contents(acc).contains(i) <==> joined(*base, with@, without@, i));
        }
    }
    r
}

} // verus!
