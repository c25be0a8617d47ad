//! A Space is an environment that manages game objects: it reserves and gives out their ids
//! and tracks which of them are enabled, while their components live in the feature set it
//! carries.
use vstd::prelude::*;
use hibitset::BitSet;
use crate::bits::{
    bit_contents, bit_iterable, bitset_add, bitset_first_absent, bitset_first_in_not_in, bitset_new,
    bitset_remove, bitset_to_vec, bitset_with_capacity, max_eid,
};
use crate::base::recipe::{Recipe, consts_spawned_all, id_range, lemma_consts_spawned_none, lemma_consts_spawned_push};
use crate::base::storage::ContainerInit;
use std::marker::PhantomData;

verus! {

/// A handle to an object that can be used to add new components to it.
/// Only given out during object creation.
#[derive(Clone, Copy, Debug, PartialEq, Eq, Hash, Structural)]
pub struct CreationId(pub(crate) usize);

/// A handle to an object that can only be used to modify existing components,
/// not create new ones.
#[derive(Clone, Copy, Debug, PartialEq, Eq, Hash, Structural)]
pub struct Id(pub(crate) usize);

impl CreationId {
    /// Ids are only made by a Space, which never gives out one that a bit set cannot hold.
    #[verifier::type_invariant]
    pub open spec fn in_range(self) -> bool {
        self.index() < max_eid()
    }

    /// The index of the object.
    pub closed spec fn index(self) -> usize {
        self.0
    }

    /// The index of the object, which a bit set can hold.
    pub(crate) fn value(self) -> (r: usize)
        ensures
            r == self.index(),
            r < max_eid(),
    {
        proof {
            use_type_invariant(self);
        }
        self.0
    }

}

impl Id {
    #[verifier::type_invariant]
    pub open spec fn in_range(self) -> bool {
        self.index() < max_eid()
    }

    /// The index of the object.
    pub closed spec fn index(self) -> usize {
        self.0
    }

    /// The index of the object, which a bit set can hold.
    pub(crate) fn value(self) -> (r: usize)
        ensures
            r == self.index(),
            r < max_eid(),
    {
        proof {
            use_type_invariant(self);
        }
        self.0
    }


    /// Converting keeps the object.
    pub proof fn lemma_from_creation_id(c: CreationId)
        ensures
            <Id as vstd::std_specs::convert::FromSpec<CreationId>>::from_spec(c).index() == c.index(),
    {
    }
}

impl From<CreationId> for Id {
    fn from(other: CreationId) -> (r: Self) {
        proof {
            use_type_invariant(other);
        }
        Self(other.0)
    }
}

impl vstd::std_specs::convert::FromSpecImpl<CreationId> for Id {
    open spec fn obeys_from_spec() -> bool {
        true
    }

    /// The same object, with the rights of an `Id`.
    closed spec fn from_spec(v: CreationId) -> Id {
        Id(v.0)
    }
}

/// Facilities to queue actions that need to be executed between ticks.
pub struct CommandQueue {
    destroy_queue: BitSet,
}

impl CommandQueue {
    /// Only ids of objects, which a bit set can iterate over, are queued.
    #[verifier::type_invariant]
    closed spec fn in_range(&self) -> bool {
        &&& forall|i: u32| #[trigger] bit_contents(self.destroy_queue).contains(i) ==> i < max_eid()
        &&& bit_iterable(self.destroy_queue)
    }

    /// The objects queued for destruction.
    pub closed spec fn destroyed(&self) -> Set<u32> {
        bit_contents(self.destroy_queue)
    }

    /// A queue with nothing in it.
    pub fn new() -> (r: Self)
        ensures
            r.destroyed() == Set::<u32>::empty(),
    {
        CommandQueue { destroy_queue: bitset_new() }
    }

    /// Destroy an object.
    pub fn kill_object(&mut self, id: Id)
        ensures
            final(self).destroyed() == old(self).destroyed().insert(id.index() as u32),
    {
        proof {
            use_type_invariant(id);
            use_type_invariant(&*self);
        }
        let mut queue = bitset_new();
        std::mem::swap(&mut queue, &mut self.destroy_queue);
        bitset_add(&mut queue, id.0 as u32);
        self.destroy_queue = queue;
    }
}

/// Bit-set indices as object ids.
pub open spec fn to_usizes(ids: Seq<u32>) -> Seq<usize> {
    ids.map_values(|i: u32| i as usize)
}

/// An ascending sequence that holds exactly the indices from `start` to `end` holds each at
/// its place: `ids[k]` is `start + k`.
proof fn lemma_ascending_at(ids: Seq<u32>, start: int, end: int, k: int)
    requires
        0 <= start <= end <= u32::MAX as int + 1,
        forall|a: int, b: int| 0 <= a < b < ids.len() ==> ids[a] < ids[b],
        forall|i: u32| ids.contains(i) <==> start <= i < end,
        0 <= k < ids.len(),
    ensures
        ids[k] == start + k,
    decreases k,
{
    assert(ids.contains(ids[k]));
    if k > 0 {
        lemma_ascending_at(ids, start, end, k - 1);
    }
    let v = (start + k) as u32;
    assert(ids.contains(v));
    let j = choose|j: int| 0 <= j < ids.len() && ids[j] == v;
    if j < k {
        if k > 0 {
            lemma_ascending_at(ids, start, end, j);
        }
    }
}

/// An ascending sequence that holds exactly the indices from `start` to `end` is that range.
proof fn lemma_ascending_range(ids: Seq<u32>, start: int, end: int)
    requires
        0 <= start <= end <= u32::MAX as int + 1,
        forall|a: int, b: int| 0 <= a < b < ids.len() ==> ids[a] < ids[b],
        forall|i: u32| ids.contains(i) <==> start <= i < end,
    ensures
        to_usizes(ids) == id_range(start, (end - start) as nat),
{
    assert forall|k: int| 0 <= k < ids.len() implies ids[k] == start + k by {
        lemma_ascending_at(ids, start, end, k);
    }
    if ids.len() < end - start {
        let v = (start + ids.len()) as u32;
        assert(ids.contains(v));
        let j = choose|j: int| 0 <= j < ids.len() && ids[j] == v;
    }
    if ids.len() > end - start {
        let k = end - start;
        assert(ids.contains(ids[k]));
    }
    assert(to_usizes(ids) =~= id_range(start, (end - start) as nat));
}

/// The slots a Space keeps for the instances of one recipe. The pool limits how many instances
/// of the recipe are enabled at once.
pub struct Pool<F, R> {
    reserved_slots: BitSet,
    _marker: PhantomData<(F, R)>,
}

impl<F, R> Pool<F, R> {
    /// Slots are ids, which a bit set can iterate over.
    #[verifier::type_invariant]
    closed spec fn in_range(&self) -> bool {
        &&& forall|i: u32| #[trigger] bit_contents(self.reserved_slots).contains(i) ==> i < max_eid()
        &&& bit_iterable(self.reserved_slots)
    }

    /// The ids of the pool's slots.
    pub closed spec fn slots(&self) -> Set<u32> {
        bit_contents(self.reserved_slots)
    }
}

impl<F, R: Recipe<F>> Pool<F, R> {
    /// A pool of the given slots; the components every instance shares are created for each.
    fn new(slots: BitSet, features: &mut F) -> (r: Self)
        requires
            forall|i: u32| #[trigger] bit_contents(slots).contains(i) ==> i < max_eid(),
            bit_iterable(slots),
        ensures
            r.slots() == bit_contents(slots),
            exists|ids: Seq<u32>| {
                &&& forall|a: int, b: int| 0 <= a < b < ids.len() ==> ids[a] < ids[b]
                &&& forall|i: u32| ids.contains(i) <==> #[trigger] bit_contents(slots).contains(i)
                &&& consts_spawned_all::<F, R>(to_usizes(ids), *old(features), *final(features))
            },
    {
        let ghost f0 = *features;
        let ids = bitset_to_vec(&slots);
        let mut k: usize = 0;
        proof {
            assert(to_usizes(ids@.take(0)) =~= Seq::<usize>::empty());
            lemma_consts_spawned_none::<F, R>(f0);
        }
        while k < ids.len()
            invariant
                k <= ids@.len(),
                forall|i: u32| ids@.contains(i) ==> i < max_eid(),
                consts_spawned_all::<F, R>(to_usizes(ids@.take(k as int)), f0, *features),
            decreases ids@.len() - k,
        {
            let slot = ids[k];
            proof {
                assert(ids@.contains(slot));
            }
            let ghost mid = *features;
            let cid = CreationId(slot as usize);
            R::spawn_consts(cid, features);
            proof {
                assert(cid.index() == slot as usize);
                assert(R::consts_spawned(cid.index(), mid, *features));
                let done = to_usizes(ids@.take(k + 1));
                assert(done.drop_last() =~= to_usizes(ids@.take(k as int)));
                assert(done.last() == slot as usize);
                assert(consts_spawned_all::<F, R>(done.drop_last(), f0, mid));
                lemma_consts_spawned_push::<F, R>(to_usizes(ids@.take(k as int)), slot as usize, f0, mid, *features);
                assert(done =~= to_usizes(ids@.take(k as int)).push(slot as usize));
            }
            k += 1;
        }
        proof {
            assert(ids@.take(ids@.len() as int) =~= ids@);
        }
        Pool { reserved_slots: slots, _marker: PhantomData }
    }
}

/// An environment where game objects live.
///
/// The Space handles reserving and giving out IDs for objects,
/// while all Components are stored and handled inside of Features.
pub struct Space<F> {
    reserved_ids: BitSet,
    enabled_ids: BitSet,
    next_obj_id: usize,
    capacity: usize,
    pub features: F,
}

impl<F> Space<F> {
    /// The ids that have been given out.
    pub closed spec fn reserved(&self) -> Set<u32> {
        bit_contents(self.reserved_ids)
    }

    /// The ids of the objects that are alive and enabled.
    pub closed spec fn enabled(&self) -> Set<u32> {
        bit_contents(self.enabled_ids)
    }

    /// The id the next object gets.
    pub closed spec fn next_id(&self) -> int {
        self.next_obj_id as int
    }

    /// The feature set the Space carries.
    pub closed spec fn feature_set(&self) -> F {
        self.features
    }

    /// The number of objects the Space can hold.
    pub closed spec fn capacity(&self) -> int {
        self.capacity as int
    }

    /// Ids are given out in ascending order and never taken back, so the reserved ids are
    /// exactly those below the next one; every enabled id is reserved.
    pub closed spec fn wf(&self) -> bool {
        &&& self.capacity <= max_eid()
        &&& self.next_obj_id <= self.capacity
        &&& forall|i: u32| #[trigger] self.reserved().contains(i) <==> i < self.next_obj_id
        &&& forall|i: u32| #[trigger] self.enabled().contains(i) ==> self.reserved().contains(i)
        &&& bit_iterable(self.enabled_ids)
    }

    /// The enabled objects, where iteration over the objects of the Space starts: join it with
    /// the users of containers in [`crate::base::container::joined_ids`].
    pub fn iter_seed(&self) -> (r: &BitSet)
        requires
            self.wf(),
        ensures
            bit_iterable(*r),
            bit_contents(*r) == self.enabled(),
    {
        &self.enabled_ids
    }

    /// What a well-formed Space keeps: the reserved ids are exactly those below the next one,
    /// every enabled id is reserved, and the ids fit the capacity, which a bit set can hold.
    pub proof fn lemma_wf(&self)
        requires
            self.wf(),
        ensures
            forall|i: u32| #[trigger] self.reserved().contains(i) <==> i < self.next_id(),
            forall|i: u32| #[trigger] self.enabled().contains(i) ==> self.reserved().contains(i),
            0 <= self.next_id() <= self.capacity() <= max_eid(),
    {
    }

    /// Create a Space with a a given maximum capacity.
    ///
    /// Currently this capacity is a hard limit; Spaces do not grow.
    /// The feature set is made by `f_init` here.
    pub fn with_capacity(capacity: usize, f_init: impl FnOnce(ContainerInit) -> F) -> (r: Self)
        requires
            capacity <= max_eid(),
            f_init.requires((ContainerInit { capacity },)),
        ensures
            r.wf(),
            r.capacity() == capacity,
            r.next_id() == 0,
            r.reserved() == Set::<u32>::empty(),
            r.enabled() == Set::<u32>::empty(),
            f_init.ensures((ContainerInit { capacity },), r.feature_set()),
    {
        let reserved_ids = bitset_with_capacity(capacity as u32);
        let enabled_ids = bitset_with_capacity(capacity as u32);
        let features = f_init(ContainerInit { capacity });
        // find the first index that is not reserved and start accepting new objects from there;
        // the complement of a set that fits the index space always has a first item
        let first = bitset_first_absent(&reserved_ids);
        proof {
            if first is None {
                assert(bit_contents(reserved_ids).contains(0u32));
            }
        }
        let next_obj_id = first.unwrap() as usize;
        proof {
            if next_obj_id > 0 {
                assert(bit_contents(reserved_ids).contains(0u32));
            }
        }
        Space { reserved_ids, enabled_ids, next_obj_id, capacity, features }
    }

    /// What creating an object does: while there is room, the next id is given out, reserved
    /// and enabled; a full Space stays as it was and gives out nothing.
    pub open spec fn created(old_space: Space<F>, new_space: Space<F>, r: Option<CreationId>) -> bool {
        &&& new_space.wf()
        &&& new_space.capacity() == old_space.capacity()
        &&& (r is Some <==> old_space.next_id() < old_space.capacity())
        &&& (r is None <==> forall|i: u32| i < old_space.capacity() ==> #[trigger] old_space.reserved().contains(i))
        &&& r matches Some(id) ==> {
            &&& id.index() == old_space.next_id()
            &&& !old_space.reserved().contains(id.index() as u32)
            &&& new_space.next_id() == old_space.next_id() + 1
            &&& new_space.reserved() == old_space.reserved().insert(id.index() as u32)
            &&& new_space.enabled() == old_space.enabled().insert(id.index() as u32)
        }
        &&& r is None ==> {
            &&& new_space.next_id() == old_space.next_id()
            &&& new_space.reserved() == old_space.reserved()
            &&& new_space.enabled() == old_space.enabled()
        }
    }

    /// Reserve an id for a new object and enable it.
    /// Returns `None` if there's no room left in the Space; the new object's components are
    /// then added through the returned id and `features`.
    pub fn create_object(&mut self) -> (r: Option<CreationId>)
        requires
            old(self).wf(),
        ensures
            Self::created(*old(self), *final(self), r),
            final(self).feature_set() == old(self).feature_set(),
    {
        if self.next_obj_id < self.capacity {
            let id = self.next_obj_id;
            let ghost s0 = *self;
            proof {
                assert(!s0.reserved().contains(id as u32));
            }
            self.next_obj_id += 1;
            self.create_object_at(id);
            proof {
                assert forall|i: u32| #[trigger] self.reserved().contains(i) <==> i < self.next_obj_id by {
                    assert(s0.reserved().contains(i) <==> i < id);
                }
                assert forall|i: u32| #[trigger] self.enabled().contains(i)
                    implies self.reserved().contains(i) by {
                    if i != id as u32 {
                        assert(s0.enabled().contains(i));
                    }
                }
            }
            Some(CreationId(id))
        } else {
            // find a dead object
            let free = bitset_first_absent(&self.reserved_ids);
            match free {
                Some(id) => {
                    if (id as usize) < self.capacity {
                        proof {
                            assert(self.reserved().contains(id));
                        }
                        self.create_object_at(id as usize);
                        Some(CreationId(id as usize))
                    } else {
                        None
                    }
                },
                None => None,
            }
        }
    }

    /// The pool's slots are ids this Space has given out.
    pub open spec fn holds_pool<R>(&self, pool: &Pool<F, R>) -> bool {
        forall|i: u32| #[trigger] pool.slots().contains(i) ==> self.reserved().contains(i)
    }

    /// Create a pool for a specific Recipe in this Space, with the slots that follow the ids
    /// given out so far. Returns `None` if there's not enough continuous room left in the Space.
    ///
    /// This creates all components defined in the Recipe's `spawn_consts` method immediately,
    /// which won't need to be created again when an object is spawned.
    /// Spawning from the pool fails if there's no room left in it; in other words,
    /// a pool defines the maximum number of simultaneous instances of the Recipe in the Space.
    pub fn create_pool<R: Recipe<F>>(&mut self, size: usize) -> (r: Option<Pool<F, R>>)
        requires
            old(self).wf(),
            old(self).next_id() + size <= usize::MAX,
        ensures
            final(self).wf(),
            final(self).capacity() == old(self).capacity(),
            final(self).enabled() == old(self).enabled(),
            r is Some <==> old(self).next_id() + size <= old(self).capacity(),
            r matches Some(pool) ==> {
                &&& forall|i: u32| #[trigger] pool.slots().contains(i)
                    <==> old(self).next_id() <= i < old(self).next_id() + size
                &&& final(self).next_id() == old(self).next_id() + size
                &&& final(self).holds_pool(&pool)
                &&& consts_spawned_all::<F, R>(id_range(old(self).next_id(), size as nat), old(self).feature_set(), final(self).feature_set())
            },
            r is None ==> *final(self) == *old(self),
    {
        let start = self.next_obj_id;
        let end = start + size;
        if end > self.capacity {
            return None;
        }
        let mut slots = bitset_new();
        let mut id = start;
        while id < end
            invariant
                start <= id <= end,
                end <= max_eid(),
                bit_iterable(slots),
                forall|i: u32| #[trigger] bit_contents(slots).contains(i) <==> start <= i < id,
            decreases end - id,
        {
            bitset_add(&mut slots, id as u32);
            id += 1;
        }
        let ghost s0 = *self;
        self.next_obj_id = end;
        let ids = bitset_to_vec(&slots);
        let mut k: usize = 0;
        while k < ids.len()
            invariant
                k <= ids@.len(),
                forall|i: u32| ids@.contains(i) <==> start <= i < end,
                forall|a: int, b: int| 0 <= a < b < ids@.len() ==> ids@[a] < ids@[b],
                self.next_obj_id == end,
                end <= max_eid(),
                self.capacity == s0.capacity,
                self.enabled_ids == s0.enabled_ids,
                self.features == s0.features,
                forall|i: u32| #[trigger] self.reserved().contains(i) <==> (s0.reserved().contains(i)
                    || exists|j: int| 0 <= j < k && ids@[j] == i),
            decreases ids@.len() - k,
        {
            let slot = ids[k];
            proof {
                assert(ids@.contains(slot));
            }
            let ghost prev = self.reserved();
            bitset_add(&mut self.reserved_ids, slot);
            proof {
                assert forall|i: u32| #[trigger] self.reserved().contains(i) <==> (s0.reserved().contains(i)
                    || exists|j: int| 0 <= j < k + 1 && ids@[j] == i) by {
                    assert(prev.contains(i) <==> (s0.reserved().contains(i)
                        || exists|j: int| 0 <= j < k && ids@[j] == i));
                    if i == slot {
                        assert(ids@[k as int] == i);
                    } else {
                        if exists|j: int| 0 <= j < k + 1 && ids@[j] == i {
                            let j = choose|j: int| 0 <= j < k + 1 && ids@[j] == i;
                            assert(j < k);
                        }
                        if exists|j: int| 0 <= j < k && ids@[j] == i {
                            let j = choose|j: int| 0 <= j < k && ids@[j] == i;
                            assert(0 <= j < k + 1);
                        }
                    }
                }
            }
            k += 1;
        }
        proof {
            assert forall|i: u32| #[trigger] self.reserved().contains(i) <==> i < self.next_obj_id by {
                if start <= i < end {
                    assert(ids@.contains(i));
                    let j = choose|j: int| 0 <= j < ids@.len() && ids@[j] == i;
                    assert(exists|j: int| 0 <= j < k && ids@[j] == i);
                }
                if exists|j: int| 0 <= j < k && ids@[j] == i {
                    let j = choose|j: int| 0 <= j < k && ids@[j] == i;
                    assert(ids@.contains(i));
                }
            }
            assert forall|i: u32| #[trigger] self.enabled().contains(i) implies self.reserved().contains(i) by {
                assert(s0.enabled().contains(i));
            }
        }
        let ghost s1 = *self;
        let ghost slot_set = bit_contents(slots);
        let pool = Pool::new(slots, &mut self.features);
        proof {
            assert(self.reserved() == s1.reserved());
            assert(self.enabled() == s1.enabled());
            assert(pool.slots() == slot_set);
            let order = choose|order: Seq<u32>| {
                &&& forall|a: int, b: int| 0 <= a < b < order.len() ==> order[a] < order[b]
                &&& forall|i: u32| order.contains(i) <==> #[trigger] slot_set.contains(i)
                &&& consts_spawned_all::<F, R>(to_usizes(order), s1.features, self.features)
            };
            assert forall|i: u32| order.contains(i) <==> start <= i < end by {
                assert(slot_set.contains(i) <==> start <= i < end);
            }
            lemma_ascending_range(order, start as int, end as int);
        }
        Some(pool)
    }

    /// Instantiate a Recipe in this Space, in `pool` if there is one, otherwise as a new
    /// object. Returns `None` if there's no room in the pool or the Space.
    pub fn spawn<R: Recipe<F>>(&mut self, pool: Option<&Pool<F, R>>, recipe: R) -> (r: Option<Id>)
        requires
            old(self).wf(),
            pool matches Some(p) ==> old(self).holds_pool(p),
        ensures
            final(self).wf(),
            final(self).capacity() == old(self).capacity(),
            match pool {
                Some(p) => {
                    &&& final(self).next_id() == old(self).next_id()
                    &&& final(self).reserved() == old(self).reserved()
                    &&& (r is Some <==> exists|i: u32| #[trigger] p.slots().contains(i) && !old(self).enabled().contains(i))
                    &&& r matches Some(id) ==> {
                        &&& p.slots().contains(id.index() as u32)
                        &&& !old(self).enabled().contains(id.index() as u32)
                        &&& forall|j: u32| j < id.index() && #[trigger] p.slots().contains(j) ==> old(self).enabled().contains(j)
                        &&& final(self).enabled() == old(self).enabled().insert(id.index() as u32)
                        &&& recipe.vars_spawned(id.index(), old(self).feature_set(), final(self).feature_set())
                    }
                    &&& r is None ==> {
                        &&& final(self).enabled() == old(self).enabled()
                        &&& final(self).feature_set() == old(self).feature_set()
                    }
                },
                None => {
                    &&& (r is Some <==> old(self).next_id() < old(self).capacity())
                    &&& r matches Some(id) ==> {
                        &&& id.index() == old(self).next_id()
                        &&& final(self).next_id() == old(self).next_id() + 1
                        &&& final(self).reserved() == old(self).reserved().insert(id.index() as u32)
                        &&& final(self).enabled() == old(self).enabled().insert(id.index() as u32)
                        &&& exists|mid: F| #[trigger] R::consts_spawned(id.index(), old(self).feature_set(), mid)
                            && recipe.vars_spawned(id.index(), mid, final(self).feature_set())
                    }
                    &&& r is None ==> {
                        &&& final(self).next_id() == old(self).next_id()
                        &&& final(self).reserved() == old(self).reserved()
                        &&& final(self).enabled() == old(self).enabled()
                        &&& final(self).feature_set() == old(self).feature_set()
                    }
                },
            },
    {
        match pool {
            Some(p) => {
                proof {
                    use_type_invariant(p);
                }
                let ghost s0 = *self;
                match bitset_first_in_not_in(&p.reserved_slots, &self.enabled_ids) {
                    Some(my_id) => {
                        proof {
                            assert(p.slots().contains(my_id));
                            assert(s0.reserved().contains(my_id));
                        }
                        bitset_add(&mut self.enabled_ids, my_id);
                        proof {
                            assert forall|i: u32| #[trigger] self.enabled().contains(i) implies self.reserved().contains(i) by {
                                if i != my_id {
                                    assert(s0.enabled().contains(i));
                                }
                            }
                        }
                        let ghost s1 = *self;
                        recipe.spawn_vars(CreationId(my_id as usize), &mut self.features);
                        proof {
                            assert(self.reserved() == s1.reserved());
                            assert(self.enabled() == s1.enabled());
                        }
                        Some(Id(my_id as usize))
                    },
                    None => {
                        proof {
                            assert forall|i: u32| #[trigger] p.slots().contains(i) implies s0.enabled().contains(i) by {
                                assert(i < max_eid());
                            }
                        }
                        None
                    },
                }
            },
            None => {
                let created = self.create_object();
                match created {
                    Some(a) => {
                        R::spawn_consts(a, &mut self.features);
                        recipe.spawn_vars(a, &mut self.features);
                        Some(Id::from(a))
                    },
                    None => None,
                }
            },
        }
    }

    fn create_object_at(&mut self, id: usize)
        requires
            id < max_eid(),
        ensures
            final(self).reserved() == old(self).reserved().insert(id as u32),
            final(self).enabled() == old(self).enabled().insert(id as u32),
            final(self).next_obj_id == old(self).next_obj_id,
            final(self).capacity == old(self).capacity,
            final(self).feature_set() == old(self).feature_set(),
            bit_iterable(old(self).enabled_ids) ==> bit_iterable(final(self).enabled_ids),
    {
        bitset_add(&mut self.reserved_ids, id as u32);
        bitset_add(&mut self.enabled_ids, id as u32);
    }

    /// Finish a tick: carry out what was queued during it, disabling every object queued for
    /// destruction. Their ids stay reserved.
    pub fn tick(&mut self, commands: CommandQueue)
        requires
            old(self).wf(),
        ensures
            final(self).wf(),
            final(self).capacity() == old(self).capacity(),
            final(self).next_id() == old(self).next_id(),
            final(self).feature_set() == old(self).feature_set(),
            final(self).reserved() == old(self).reserved(),
            final(self).enabled() == old(self).enabled().difference(commands.destroyed()),
    {
        let ghost destroyed = commands.destroyed();
        proof {
            use_type_invariant(&commands);
        }
        let ids = bitset_to_vec(&commands.destroy_queue);
        let ghost enabled0 = self.enabled();
        let mut k: usize = 0;
        while k < ids.len()
            invariant
                0 <= k <= ids@.len(),
                self.wf(),
                self.reserved() == old(self).reserved(),
                self.next_obj_id == old(self).next_obj_id,
                self.capacity == old(self).capacity,
                self.features == old(self).features,
                enabled0 == old(self).enabled(),
                forall|i: u32| #[trigger] self.enabled().contains(i) <==> (enabled0.contains(i)
                    && forall|j: int| 0 <= j < k ==> ids@[j] != i),
            decreases ids@.len() - k,
        {
            let id = ids[k];
            let ghost prev = self.enabled();
            bitset_remove(&mut self.enabled_ids, id);
            proof {
                assert forall|i: u32| #[trigger] self.enabled().contains(i) <==> (enabled0.contains(i)
                    && forall|j: int| 0 <= j < k + 1 ==> ids@[j] != i) by {
                    assert(prev.contains(i) <==> (enabled0.contains(i)
                        && forall|j: int| 0 <= j < k ==> ids@[j] != i));
                }
                assert forall|i: u32| #[trigger] self.enabled().contains(i)
                    implies self.reserved().contains(i) by {
                    assert(prev.contains(i));
                }
            }
            k += 1;
        }
        proof {
            assert forall|i: u32| #[trigger] self.enabled().contains(i)
                == enabled0.difference(destroyed).contains(i) by {
                if destroyed.contains(i) {
                    assert(ids@.contains(i));
                }
            }
            assert(self.enabled() =~= enabled0.difference(destroyed));
        }
    }
}

/// Ids are handed out in ascending order, so two creations one after the other never give out
/// the same id.
pub proof fn lemma_created_ids_ascend<F>(
    s0: Space<F>,
    s1: Space<F>,
    s2: Space<F>,
    a: CreationId,
    b: CreationId,
)
    requires
        Space::created(s0, s1, Some(a)),
        Space::created(s1, s2, Some(b)),
    ensures
        b.index() == a.index() + 1,
        !s1.reserved().contains(b.index() as u32),
        s2.reserved().contains(a.index() as u32),
{
}

} // verus!
