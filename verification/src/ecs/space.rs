//! An Entity-Component-System environment: which object ids are alive and enabled, and the
//! generation of each id, which changes every time the id is given to a new object.
use vstd::prelude::*;
use hibitset::BitSet;
use crate::bits::{
    bit_contents, bitset_add, bitset_clear, bitset_contains, bitset_first_absent, bitset_remove,
    bitset_with_capacity, max_eid,
};
use crate::ecs::IdType;
use crate::ecs::componentcontainer::ComponentContainer;
use crate::ecs::storage::CreateWithCapacity;

verus! {

/// The generation an id gets when it is given to a new object: one more than it had,
/// wrapping around after 255.
pub open spec fn next_generation(g: u8) -> u8 {
    if g == 255 {
        0
    } else {
        (g + 1) as u8
    }
}

/// The number of ids below `n` that are not alive.
pub open spec fn dead_below(alive: Set<u32>, n: nat) -> nat
    decreases n,
{
    if n == 0 {
        0
    } else {
        dead_below(alive, (n - 1) as nat) + if alive.contains((n - 1) as u32) { 0nat } else { 1nat }
    }
}

/// Some id below `n` is dead exactly when the count of dead ids below `n` is positive.
pub proof fn lemma_dead_below_positive(alive: Set<u32>, n: nat)
    requires
        n <= u32::MAX + 1,
    ensures
        dead_below(alive, n) > 0 <==> exists|i: u32| i < n && !alive.contains(i),
        dead_below(alive, n) <= n,
    decreases n,
{
    if n > 0 {
        lemma_dead_below_positive(alive, (n - 1) as nat);
        if exists|i: u32| i < n && !alive.contains(i) {
            let i = choose|i: u32| i < n && !alive.contains(i);
            if i < n - 1 {
                assert(exists|j: u32| j < n - 1 && !alive.contains(j));
            }
        }
        if exists|i: u32| i < n - 1 && !alive.contains(i) {
            let i = choose|i: u32| i < n - 1 && !alive.contains(i);
            assert(i < n && !alive.contains(i));
        }
        if !alive.contains((n - 1) as u32) {
            assert(((n - 1) as u32) < n);
        }
    }
}

/// Making a dead id below `n` alive leaves one dead id fewer below `n`.
pub proof fn lemma_dead_below_insert(alive: Set<u32>, n: nat, id: u32)
    requires
        n <= u32::MAX + 1,
        id < n,
        !alive.contains(id),
    ensures
        dead_below(alive.insert(id), n) + 1 == dead_below(alive, n),
    decreases n,
{
    if id < n - 1 {
        lemma_dead_below_insert(alive, (n - 1) as nat, id);
        assert(alive.insert(id).contains((n - 1) as u32) == alive.contains((n - 1) as u32));
    } else {
        lemma_dead_below_same(alive, alive.insert(id), (n - 1) as nat);
    }
}

/// Sets that agree below `n` have as many dead ids below `n`.
pub proof fn lemma_dead_below_same(a: Set<u32>, b: Set<u32>, n: nat)
    requires
        n <= u32::MAX + 1,
        forall|i: u32| i < n ==> (a.contains(i) <==> b.contains(i)),
    ensures
        dead_below(a, n) == dead_below(b, n),
    decreases n,
{
    if n > 0 {
        lemma_dead_below_same(a, b, (n - 1) as nat);
        assert(a.contains((n - 1) as u32) <==> b.contains((n - 1) as u32));
    }
}

/// The ids a pool of objects gets in a Space whose alive ids are `alive`, whose next never-used
/// id is `next` and whose capacity is `cap`: the never-used ids from `next` on while there are
/// any, then the smallest ids that are not alive, in ascending order.
pub open spec fn pool_ids_taken(alive: Set<u32>, next: int, cap: int, ids: Seq<IdType>) -> bool {
    let m = if ids.len() <= cap - next { ids.len() as int } else { cap - next };
    &&& forall|k: int| 0 <= k < m ==> #[trigger] ids[k] == next + k
    &&& forall|k: int| m <= k < ids.len() ==> #[trigger] ids[k] < next
    &&& forall|a: int, b: int| m <= a < b < ids.len() ==> #[trigger] ids[a] < #[trigger] ids[b]
    &&& forall|k: int, i: u32|
        m <= k < ids.len() && i < #[trigger] ids[k] && !#[trigger] alive.contains(i)
            ==> exists|a: int| m <= a < k && ids[a] == i
}

proof fn lemma_pool_step_fresh(alive: Set<u32>, next: int, cap: int, ids: Seq<IdType>, id: IdType)
    requires
        pool_ids_taken(alive, next, cap, ids),
        0 <= next,
        ids.len() < cap - next,
        id == next + ids.len(),
    ensures
        pool_ids_taken(alive, next, cap, ids.push(id)),
{
    let ids2 = ids.push(id);
    assert forall|k: int| 0 <= k < ids2.len() implies #[trigger] ids2[k] == next + k by {
        if k < ids.len() {
            assert(ids2[k] == ids[k]);
        }
    }
}

proof fn lemma_pool_step_reuse(
    alive: Set<u32>,
    now_alive: Set<u32>,
    next: int,
    cap: int,
    ids: Seq<IdType>,
    id: IdType,
)
    requires
        pool_ids_taken(alive, next, cap, ids),
        0 <= next <= cap <= u32::MAX,
        ids.len() >= cap - next,
        forall|i: u32| #[trigger] now_alive.contains(i) <==> (alive.contains(i) || ids.contains(i as IdType)),
        forall|i: u32| #[trigger] alive.contains(i) ==> i < next,
        id < cap,
        !now_alive.contains(id as u32),
        forall|j: u32| j < id ==> #[trigger] now_alive.contains(j),
    ensures
        pool_ids_taken(alive, next, cap, ids.push(id)),
        id < next,
{
    let m = cap - next;
    let ids2 = ids.push(id);
    // every id from `next` on was given to the pool already
    if id >= next {
        let k = id - next;
        assert(ids[k] == next + k);
        assert(ids.contains(id));
        assert(now_alive.contains(id as u32));
    }
    assert forall|k: int| 0 <= k < m implies #[trigger] ids2[k] == next + k by {
        assert(ids2[k] == ids[k]);
    }
    assert forall|k: int| m <= k < ids2.len() implies #[trigger] ids2[k] < next by {
        if k < ids.len() {
            assert(ids2[k] == ids[k]);
        }
    }
    assert forall|a: int, b: int| m <= a < b < ids2.len() implies #[trigger] ids2[a] < #[trigger] ids2[b] by {
        assert(ids2[a] == ids[a]);
        if b == ids.len() {
            if id <= ids[a] {
                if id != ids[a] {
                    assert(!alive.contains(id as u32));
                    assert(exists|a2: int| m <= a2 < a && ids[a2] == id);
                    let a2 = choose|a2: int| m <= a2 < a && ids[a2] == id;
                    assert(ids.contains(id));
                } else {
                    assert(ids.contains(id));
                }
                assert(now_alive.contains(id as u32));
            }
        } else {
            assert(ids2[b] == ids[b]);
        }
    }
    assert forall|k: int, i: u32|
        m <= k < ids2.len() && i < #[trigger] ids2[k] && !#[trigger] alive.contains(i)
            implies exists|a: int| m <= a < k && ids2[a] == i by {
        if k < ids.len() {
            assert(ids2[k] == ids[k]);
            let a = choose|a: int| m <= a < k && ids[a] == i;
            assert(ids2[a] == i);
        } else {
            assert(now_alive.contains(i));
            assert(ids.contains(i as IdType));
            let a = choose|a: int| 0 <= a < ids.len() && ids[a] == i as IdType;
            if a < m {
                assert(ids[a] == next + a);
            }
            assert(ids2[a] == i);
        }
    }
}

/// The ids a Space keeps for objects that are created and destroyed often, such as bullets.
pub struct Pool {
    ids: Vec<IdType>,
    epoch: u64,
}

impl Pool {
    /// The pool's objects, in the order they are looked at when spawning.
    pub closed spec fn ids(&self) -> Seq<IdType> {
        self.ids@
    }

    /// The pools epoch of the Space when the pool was made.
    pub closed spec fn epoch(&self) -> u64 {
        self.epoch
    }
}

/// An Entity-Component-System environment.
pub struct Space {
    alive_objects: BitSet,
    enabled_objects: BitSet,
    generations: Vec<u8>,
    next_obj_id: IdType,
    capacity: IdType,
    pool_epoch: u64,
}

impl Space {
    /// Which generation of pools the Space holds: destroying everything destroys every pool
    /// made before, by moving to the next epoch.
    pub closed spec fn pools_epoch(&self) -> u64 {
        self.pool_epoch
    }

    /// `pool` is one of the Space's pools, not destroyed since it was made.
    pub open spec fn holds_pool(&self, pool: &Pool) -> bool {
        pool.epoch() == self.pools_epoch()
    }

    /// The ids of the objects that are alive.
    pub closed spec fn alive_ids(&self) -> Set<u32> {
        bit_contents(self.alive_objects)
    }

    /// The ids of the objects that are enabled.
    pub closed spec fn enabled_ids(&self) -> Set<u32> {
        bit_contents(self.enabled_objects)
    }

    /// The generation of each id.
    pub closed spec fn generations(&self) -> Seq<u8> {
        self.generations@
    }

    /// The id the next object gets while there are ids that were never used.
    pub closed spec fn next_id(&self) -> int {
        self.next_obj_id as int
    }

    /// The number of objects the Space can hold.
    pub closed spec fn capacity(&self) -> int {
        self.capacity as int
    }

    /// The Space can give out another id.
    pub open spec fn has_room(&self) -> bool {
        self.next_id() < self.capacity() || exists|i: u32| i < self.capacity() && !self.alive_ids().contains(i)
    }

    /// Alive objects have ids that were given out; enabled ones have ids within the capacity;
    /// there is a generation for every id.
    pub closed spec fn wf(&self) -> bool {
        &&& self.capacity <= max_eid()
        &&& self.next_obj_id <= self.capacity
        &&& self.generations@.len() == self.capacity
        &&& forall|i: u32| #[trigger] self.alive_ids().contains(i) ==> i < self.next_obj_id
        &&& forall|i: u32| #[trigger] self.enabled_ids().contains(i) ==> i < self.capacity
    }

    /// Create a Space with a given maximum capacity.
    pub fn with_capacity(capacity: IdType) -> (r: Self)
        requires
            capacity <= max_eid(),
        ensures
            r.wf(),
            r.capacity() == capacity,
            r.next_id() == 0,
            r.alive_ids() == Set::<u32>::empty(),
            r.enabled_ids() == Set::<u32>::empty(),
            r.generations() == Seq::new(capacity as nat, |i: int| 0u8),
    {
        let mut generations: Vec<u8> = Vec::new();
        while generations.len() < capacity
            invariant
                generations@.len() <= capacity,
                forall|a: int| 0 <= a < generations@.len() ==> #[trigger] generations@[a] == 0,
            decreases capacity - generations@.len(),
        {
            generations.push(0);
        }
        let r = Space {
            alive_objects: bitset_with_capacity(capacity as u32),
            enabled_objects: bitset_with_capacity(capacity as u32),
            generations,
            next_obj_id: 0,
            capacity,
            pool_epoch: 0,
        };
        proof {
            assert(r.generations() =~= Seq::new(capacity as nat, |i: int| 0u8));
        }
        r
    }

    /// Reserves an object id for use and marks it as alive.
    /// The Space must not be full.
    pub fn create_object(&mut self) -> (r: IdType)
        requires
            old(self).wf(),
            old(self).has_room(),
        ensures
            Self::created(*old(self), *final(self), r),
    {
        let id = self.try_create_object();
        id.unwrap()
    }

    /// What creating an object changes: the first never-used id, or where every id has been
    /// used the smallest one that is not alive, becomes alive and enabled, and its generation
    /// advances.
    pub open spec fn created(old_space: Space, new_space: Space, id: IdType) -> bool {
        &&& new_space.wf()
        &&& new_space.capacity() == old_space.capacity()
        &&& new_space.pools_epoch() == old_space.pools_epoch()
        &&& id < old_space.capacity()
        &&& !old_space.alive_ids().contains(id as u32)
        &&& if old_space.next_id() < old_space.capacity() {
            &&& id == old_space.next_id()
            &&& new_space.next_id() == old_space.next_id() + 1
        } else {
            &&& forall|j: u32| j < id ==> #[trigger] old_space.alive_ids().contains(j)
            &&& new_space.next_id() == old_space.next_id()
        }
        &&& new_space.alive_ids() == old_space.alive_ids().insert(id as u32)
        &&& new_space.enabled_ids() == old_space.enabled_ids().insert(id as u32)
        &&& new_space.generations() == old_space.generations().update(
            id as int,
            next_generation(old_space.generations()[id as int]),
        )
    }

    /// Like create_object, but returns None instead of panicking if the Space is full.
    pub fn try_create_object(&mut self) -> (r: Option<IdType>)
        requires
            old(self).wf(),
        ensures
            r is Some <==> old(self).has_room(),
            r matches Some(id) ==> Self::created(*old(self), *final(self), id),
            r is None ==> *final(self) == *old(self),
    {
        if self.next_obj_id < self.capacity {
            let id = self.next_obj_id;
            let ghost s0 = *self;
            self.next_obj_id += 1;
            self.create_object_at(id);
            proof {
                assert forall|i: u32| #[trigger] self.alive_ids().contains(i) implies i < self.next_obj_id by {
                    if i != id as u32 {
                        assert(s0.alive_ids().contains(i));
                    }
                }
                assert forall|i: u32| #[trigger] self.enabled_ids().contains(i) implies i < self.capacity by {
                    if i != id as u32 {
                        assert(s0.enabled_ids().contains(i));
                    }
                }
                assert(!s0.alive_ids().contains(id as u32));
            }
            Some(id)
        } else {
            // find a dead object
            let free = bitset_first_absent(&self.alive_objects);
            match free {
                Some(id) => {
                    if (id as IdType) < self.capacity {
                        let ghost s0 = *self;
                        self.create_object_at(id as IdType);
                        proof {
                            assert forall|i: u32| #[trigger] self.alive_ids().contains(i) implies i < self.next_obj_id by {
                                if i != id {
                                    assert(s0.alive_ids().contains(i));
                                }
                            }
                            assert forall|i: u32| #[trigger] self.enabled_ids().contains(i) implies i < self.capacity by {
                                if i != id {
                                    assert(s0.enabled_ids().contains(i));
                                }
                            }
                        }
                        Some(id as IdType)
                    } else {
                        proof {
                            assert forall|i: u32| i < self.capacity() implies #[trigger] self.alive_ids().contains(i) by {
                                assert(i < id);
                            }
                        }
                        None
                    }
                },
                None => {
                    proof {
                        assert forall|i: u32| i < self.capacity() implies #[trigger] self.alive_ids().contains(i) by {
                            assert(i < max_eid());
                        }
                    }
                    None
                },
            }
        }
    }

    /// Creates a pool of `count` objects, disabled until they are spawned from the pool.
    /// Returns `None`, and changes nothing, if the Space has fewer than `count` free ids.
    /// Disable pooled objects instead of destroying them so they can be spawned again.
    pub fn create_pool(&mut self, count: IdType) -> (r: Option<Pool>)
        requires
            old(self).wf(),
        ensures
            final(self).wf(),
            final(self).capacity() == old(self).capacity(),
            r is Some <==> count <= dead_below(old(self).alive_ids(), old(self).capacity() as nat),
            r is None ==> *final(self) == *old(self),
            final(self).pools_epoch() == old(self).pools_epoch(),
            r matches Some(pool) ==> {
                &&& final(self).holds_pool(&pool)
                &&& pool.ids().len() == count
                &&& pool_ids_taken(old(self).alive_ids(), old(self).next_id(), old(self).capacity(), pool.ids())
                &&& final(self).next_id() == old(self).next_id() + if count <= old(self).capacity() - old(self).next_id() {
                    count as int
                } else {
                    old(self).capacity() - old(self).next_id()
                }
                &&& pool.ids().no_duplicates()
                &&& forall|k: int| 0 <= k < count ==> {
                    &&& #[trigger] pool.ids()[k] < old(self).capacity()
                    &&& !old(self).alive_ids().contains(pool.ids()[k] as u32)
                }
                &&& forall|i: u32| #[trigger] final(self).alive_ids().contains(i)
                    <==> (old(self).alive_ids().contains(i) || pool.ids().contains(i as IdType))
                &&& forall|i: u32| #[trigger] final(self).enabled_ids().contains(i)
                    <==> (old(self).enabled_ids().contains(i) && !pool.ids().contains(i as IdType))
                &&& final(self).generations().len() == old(self).generations().len()
                &&& forall|i: int| 0 <= i < old(self).capacity() ==> #[trigger] final(self).generations()[i]
                    == if pool.ids().contains(i as IdType) {
                        next_generation(old(self).generations()[i])
                    } else {
                        old(self).generations()[i]
                    }
            },
    {
        // count the free ids first, so that a pool that does not fit changes nothing
        let mut free: usize = 0;
        let mut k: usize = 0;
        while k < self.capacity
            invariant
                k <= self.capacity,
                self.wf(),
                free == dead_below(self.alive_ids(), k as nat),
                free <= k,
            decreases self.capacity - k,
        {
            proof {
                lemma_dead_below_positive(self.alive_ids(), (k + 1) as nat);
            }
            if !self.is_alive(k) {
                free += 1;
            }
            k += 1;
        }
        if free < count {
            return None;
        }
        let ghost s0 = *self;
        let mut ids: Vec<IdType> = Vec::new();
        let mut j: usize = 0;
        while j < count
            invariant
                j <= count <= free,
                free == dead_below(s0.alive_ids(), s0.capacity as nat),
                self.wf(),
                self.capacity == s0.capacity,
                self.pool_epoch == s0.pool_epoch,
                ids@.len() == j,
                s0.wf(),
                pool_ids_taken(s0.alive_ids(), s0.next_id(), s0.capacity(), ids@),
                self.next_id() == s0.next_id() + if j <= s0.capacity() - s0.next_id() {
                    j as int
                } else {
                    s0.capacity() - s0.next_id()
                },
                ids@.no_duplicates(),
                dead_below(self.alive_ids(), self.capacity as nat) + j == free,
                forall|k: int| 0 <= k < j ==> {
                    &&& #[trigger] ids@[k] < s0.capacity
                    &&& !s0.alive_ids().contains(ids@[k] as u32)
                },
                forall|i: u32| #[trigger] self.alive_ids().contains(i)
                    <==> (s0.alive_ids().contains(i) || ids@.contains(i as IdType)),
                forall|i: u32| #[trigger] self.enabled_ids().contains(i)
                    <==> (s0.enabled_ids().contains(i) && !ids@.contains(i as IdType)),
                self.generations().len() == s0.generations().len(),
                forall|i: int| 0 <= i < s0.capacity ==> #[trigger] self.generations()[i]
                    == if ids@.contains(i as IdType) {
                        next_generation(s0.generations()[i])
                    } else {
                        s0.generations()[i]
                    },
            decreases count - j,
        {
            proof {
                lemma_dead_below_positive(self.alive_ids(), self.capacity as nat);
                if self.next_obj_id < self.capacity {
                    assert(!self.alive_ids().contains(self.next_obj_id as u32));
                }
            }
            let ghost s1 = *self;
            let created = self.try_create_object();
            let id = created.unwrap();
            proof {
                if s1.next_obj_id < s1.capacity {
                    lemma_pool_step_fresh(s0.alive_ids(), s0.next_id(), s0.capacity(), ids@, id);
                } else {
                    lemma_pool_step_reuse(s0.alive_ids(), s1.alive_ids(), s0.next_id(), s0.capacity(), ids@, id);
                }
                lemma_dead_below_insert(s1.alive_ids(), s1.capacity as nat, id as u32);
                assert(!ids@.contains(id)) by {
                    if ids@.contains(id) {
                        assert(s1.alive_ids().contains(id as u32));
                    }
                }
            }
            let ghost s2 = *self;
            self.actually_disable_object(id);
            let ghost ids0 = ids@;
            ids.push(id);
            proof {
                assert(ids@ == ids0.push(id));
                assert forall|x: IdType| ids@.contains(x) <==> (ids0.contains(x) || x == id) by {
                    if ids@.contains(x) {
                        let k = choose|k: int| 0 <= k < ids@.len() && ids@[k] == x;
                        if k < ids0.len() {
                            assert(ids0[k] == x);
                        }
                    }
                    if ids0.contains(x) {
                        let k = choose|k: int| 0 <= k < ids0.len() && ids0[k] == x;
                        assert(ids@[k] == x);
                    }
                    if x == id {
                        assert(ids@[ids0.len() as int] == x);
                    }
                }
                assert forall|i: u32| #[trigger] self.alive_ids().contains(i)
                    <==> (s0.alive_ids().contains(i) || ids@.contains(i as IdType)) by {
                    assert(ids@.contains(i as IdType) <==> (ids0.contains(i as IdType) || i as IdType == id));
                    assert(s1.alive_ids().contains(i) <==> (s0.alive_ids().contains(i) || ids0.contains(i as IdType)));
                }
                assert forall|i: u32| #[trigger] self.enabled_ids().contains(i)
                    <==> (s0.enabled_ids().contains(i) && !ids@.contains(i as IdType)) by {
                    assert(ids@.contains(i as IdType) <==> (ids0.contains(i as IdType) || i as IdType == id));
                    assert(s1.enabled_ids().contains(i) <==> (s0.enabled_ids().contains(i) && !ids0.contains(i as IdType)));
                }
                assert forall|i: int| 0 <= i < s0.capacity implies #[trigger] self.generations()[i]
                    == if ids@.contains(i as IdType) {
                        next_generation(s0.generations()[i])
                    } else {
                        s0.generations()[i]
                    } by {
                    assert(ids@.contains(i as IdType) <==> (ids0.contains(i as IdType) || i as IdType == id));
                    assert(s1.generations()[i] == if ids0.contains(i as IdType) {
                        next_generation(s0.generations()[i])
                    } else {
                        s0.generations()[i]
                    });
                }
                assert forall|k: int| 0 <= k < j + 1 implies {
                    &&& #[trigger] ids@[k] < s0.capacity
                    &&& !s0.alive_ids().contains(ids@[k] as u32)
                } by {
                    if k == j {
                        assert(!s0.alive_ids().contains(id as u32));
                    }
                }
            }
            j += 1;
        }
        Some(Pool { ids, epoch: self.pool_epoch })
    }

    /// Enables an object from the pool and returns its id, or None if the pool was destroyed
    /// or all objects from the pool are already enabled. Every object of a pool the Space
    /// still holds must be alive.
    pub fn spawn_from_pool(&mut self, pool: &Pool) -> (r: Option<IdType>)
        requires
            old(self).wf(),
            old(self).holds_pool(pool) ==> forall|k: int| 0 <= k < pool.ids().len() ==> {
                &&& #[trigger] pool.ids()[k] < old(self).capacity()
                &&& old(self).alive_ids().contains(pool.ids()[k] as u32)
            },
        ensures
            r is None <==> !old(self).holds_pool(pool) || forall|k: int| 0 <= k < pool.ids().len()
                ==> old(self).enabled_ids().contains(#[trigger] pool.ids()[k] as u32),
            r is None ==> *final(self) == *old(self),
            r matches Some(id) ==> {
                &&& exists|k: int| 0 <= k < pool.ids().len() && #[trigger] pool.ids()[k] == id
                    && forall|j: int| 0 <= j < k ==> old(self).enabled_ids().contains(#[trigger] pool.ids()[j] as u32)
                &&& !old(self).enabled_ids().contains(id as u32)
                &&& Self::handled(*old(self), *final(self), LifecycleEvent::Enable(id))
            },
    {
        if pool.epoch != self.pool_epoch {
            return None;
        }
        let mut k: usize = 0;
        while k < pool.ids.len()
            invariant
                k <= pool.ids@.len(),
                *self == *old(self),
                old(self).wf(),
                old(self).holds_pool(pool),
                forall|k: int| 0 <= k < pool.ids().len() ==> {
                    &&& #[trigger] pool.ids()[k] < old(self).capacity()
                    &&& old(self).alive_ids().contains(pool.ids()[k] as u32)
                },
                forall|j: int| 0 <= j < k ==> old(self).enabled_ids().contains(#[trigger] pool.ids@[j] as u32),
            decreases pool.ids@.len() - k,
        {
            let id = pool.ids[k];
            if !self.is_enabled(id) {
                proof {
                    assert(!old(self).enabled_ids().contains(pool.ids()[k as int] as u32));
                }
                self.enable_object(id);
                return Some(id);
            }
            k += 1;
        }
        None
    }

    /// The object `id` is alive and has a component in `cont` made for its current
    /// generation.
    pub open spec fn has_component_spec<T, S: CreateWithCapacity<T>>(&self, cont: &ComponentContainer<T, S>, id: IdType) -> bool {
        &&& id < self.capacity()
        &&& self.alive_ids().contains(id as u32)
        &&& cont.user_ids().contains(id as u32)
        &&& self.generations()[id as int] == cont.generations()[id as int]
    }

    /// Create a component for object `id` in `cont`, made for the object's current generation.
    pub fn create_component<T, S: CreateWithCapacity<T>>(&self, cont: &mut ComponentContainer<T, S>, id: IdType, comp: T)
        requires
            self.wf(),
            old(cont).wf(),
            id < self.capacity(),
            id < old(cont).capacity(),
        ensures
            final(cont).wf(),
            final(cont).capacity() == old(cont).capacity(),
            final(cont).user_ids() == old(cont).user_ids().insert(id as u32),
            final(cont).generations() == old(cont).generations().update(id as int, self.generations()[id as int]),
            final(cont).stored() == old(cont).stored().insert(id, comp),
    {
        let gen = self.generations[id];
        cont.insert(id, gen, comp);
    }

    /// Checks whether an object has a component in `cont`: it is alive and the component was
    /// made for it, not for an earlier object with the same id.
    pub fn has_component<T, S: CreateWithCapacity<T>>(&self, cont: &ComponentContainer<T, S>, id: IdType) -> (r: bool)
        requires
            self.wf(),
            cont.wf(),
        ensures
            r == self.has_component_spec(cont, id),
    {
        if id >= self.capacity {
            return false;
        }
        if !(self.is_alive(id) && bitset_contains(cont.users(), id as u32)) {
            return false;
        }
        proof {
            cont.lemma_wf();
        }
        self.generations[id] == cont.get_gen(id)
    }

    /// The component of object `id` in `cont`, if the object has one.
    pub fn read_component<'c, T, S: CreateWithCapacity<T>>(&self, cont: &'c ComponentContainer<T, S>, id: IdType) -> (r: Option<&'c T>)
        requires
            self.wf(),
            cont.wf(),
        ensures
            match r {
                Some(c) => self.has_component_spec(cont, id) && *c == cont.stored()[id],
                None => !self.has_component_spec(cont, id),
            },
    {
        if self.has_component(cont, id) {
            Some(cont.get(id))
        } else {
            None
        }
    }

    /// Mutable access to the component of object `id` in `cont`, if the object has one.
    pub fn write_component<'c, T, S: CreateWithCapacity<T>>(&self, cont: &'c mut ComponentContainer<T, S>, id: IdType) -> (r: Option<&'c mut T>)
        requires
            self.wf(),
            old(cont).wf(),
        ensures
            match r {
                Some(c) => {
                    &&& self.has_component_spec(&*old(cont), id)
                    &&& *c == old(cont).stored()[id]
                    &&& final(cont).wf()
                    &&& final(cont).capacity() == old(cont).capacity()
                    &&& final(cont).user_ids() == old(cont).user_ids()
                    &&& final(cont).generations() == old(cont).generations()
                    &&& final(cont).stored() == old(cont).stored().insert(id, *final(c))
                },
                None => !self.has_component_spec(&*old(cont), id) && *final(cont) == *old(cont),
            },
    {
        if self.has_component(cont, id) {
            Some(cont.get_mut(id))
        } else {
            None
        }
    }

    fn create_object_at(&mut self, id: IdType)
        requires
            id < old(self).capacity,
            old(self).capacity <= max_eid(),
            old(self).generations@.len() == old(self).capacity,
        ensures
            final(self).alive_ids() == old(self).alive_ids().insert(id as u32),
            final(self).enabled_ids() == old(self).enabled_ids().insert(id as u32),
            final(self).generations() == old(self).generations().update(
                id as int,
                next_generation(old(self).generations()[id as int]),
            ),
            final(self).next_obj_id == old(self).next_obj_id,
            final(self).capacity == old(self).capacity,
            final(self).pool_epoch == old(self).pool_epoch,
    {
        bitset_add(&mut self.alive_objects, id as u32);
        bitset_add(&mut self.enabled_objects, id as u32);
        let g = self.generations[id];
        self.generations.set(id, g.wrapping_add(1));
    }

    /// Mark an object as dead. None of its components will receive updates anymore and they
    /// can be replaced with something new.
    pub fn destroy_object(&mut self, id: IdType)
        requires
            old(self).wf(),
        ensures
            Self::handled(*old(self), *final(self), LifecycleEvent::Destroy(id)),
    {
        LifecycleEvent::Destroy(id).handle(self);
    }

    /// Actually destroy an object.
    fn actually_destroy_object(&mut self, id: IdType)
        requires
            old(self).wf(),
        ensures
            Self::handled(*old(self), *final(self), LifecycleEvent::Destroy(id)),
    {
        let ghost s0 = *self;
        bitset_remove(&mut self.alive_objects, id as u32);
        proof {
            assert forall|i: u32| #[trigger] self.alive_ids().contains(i) implies i < self.next_obj_id by {
                assert(s0.alive_ids().contains(i));
            }
            assert forall|i: u32| #[trigger] self.enabled_ids().contains(i) implies i < self.capacity by {
                assert(s0.enabled_ids().contains(i));
            }
        }
    }

    fn actually_disable_object(&mut self, id: IdType)
        requires
            old(self).wf(),
        ensures
            Self::handled(*old(self), *final(self), LifecycleEvent::Disable(id)),
    {
        let ghost s0 = *self;
        bitset_remove(&mut self.enabled_objects, id as u32);
        proof {
            assert forall|i: u32| #[trigger] self.alive_ids().contains(i) implies i < self.next_obj_id by {
                assert(s0.alive_ids().contains(i));
            }
            assert forall|i: u32| #[trigger] self.enabled_ids().contains(i) implies i < self.capacity by {
                assert(s0.enabled_ids().contains(i));
            }
        }
    }

    fn actually_enable_object(&mut self, id: IdType)
        requires
            old(self).wf(),
            id < old(self).capacity(),
        ensures
            Self::handled(*old(self), *final(self), LifecycleEvent::Enable(id)),
    {
        let ghost s0 = *self;
        bitset_add(&mut self.enabled_objects, id as u32);
        proof {
            assert forall|i: u32| #[trigger] self.alive_ids().contains(i) implies i < self.next_obj_id by {
                assert(s0.alive_ids().contains(i));
            }
            assert forall|i: u32| #[trigger] self.enabled_ids().contains(i) implies i < self.capacity by {
                if i != id as u32 {
                    assert(s0.enabled_ids().contains(i));
                }
            }
        }
    }

    /// Destroys every object in the Space, and every pool of it; every generation starts
    /// over.
    pub fn destroy_all(&mut self)
        requires
            old(self).wf(),
        ensures
            final(self).wf(),
            final(self).pools_epoch() == if old(self).pools_epoch() == u64::MAX {
                0
            } else {
                (old(self).pools_epoch() + 1) as u64
            },
            forall|pool: &Pool| old(self).holds_pool(pool) ==> !#[trigger] final(self).holds_pool(pool),
            final(self).alive_ids() == Set::<u32>::empty(),
            final(self).enabled_ids() == old(self).enabled_ids(),
            final(self).generations() == Seq::new(old(self).capacity() as nat, |i: int| 0u8),
            final(self).next_id() == old(self).next_id(),
            final(self).capacity() == old(self).capacity(),
    {
        bitset_clear(&mut self.alive_objects);
        let mut k: usize = 0;
        while k < self.generations.len()
            invariant
                k <= self.generations@.len(),
                self.generations@.len() == old(self).generations@.len(),
                forall|a: int| 0 <= a < k ==> #[trigger] self.generations@[a] == 0,
                self.alive_ids() == Set::<u32>::empty(),
                self.enabled_objects == old(self).enabled_objects,
                self.next_obj_id == old(self).next_obj_id,
                self.capacity == old(self).capacity,
                self.pool_epoch == old(self).pool_epoch,
            decreases self.generations@.len() - k,
        {
            self.generations.set(k, 0);
            k += 1;
        }
        self.pool_epoch = self.pool_epoch.wrapping_add(1);
        proof {
            assert(self.generations() =~= Seq::new(old(self).capacity() as nat, |i: int| 0u8));
            assert(self.enabled_ids() == old(self).enabled_ids());
            assert forall|i: u32| #[trigger] self.enabled_ids().contains(i) implies i < self.capacity by {
                assert(old(self).enabled_ids().contains(i));
            }
        }
    }

    /// Disable an object. This means it will not receive updates from most Systems.
    pub fn disable_object(&mut self, id: IdType)
        requires
            old(self).wf(),
        ensures
            Self::handled(*old(self), *final(self), LifecycleEvent::Disable(id)),
    {
        LifecycleEvent::Disable(id).handle(self);
    }

    /// Re-enable a disabled object. It will receive updates from all Systems again.
    pub fn enable_object(&mut self, id: IdType)
        requires
            old(self).wf(),
            id < old(self).capacity(),
        ensures
            Self::handled(*old(self), *final(self), LifecycleEvent::Enable(id)),
    {
        LifecycleEvent::Enable(id).handle(self);
    }

    /// What a lifecycle event changes: destroying an object takes it out of the alive ones,
    /// disabling and enabling take it out of and put it in the enabled ones.
    pub open spec fn handled(old_space: Space, new_space: Space, event: LifecycleEvent) -> bool {
        &&& new_space.wf()
        &&& new_space.next_id() == old_space.next_id()
        &&& new_space.capacity() == old_space.capacity()
        &&& new_space.pools_epoch() == old_space.pools_epoch()
        &&& new_space.generations() == old_space.generations()
        &&& match event {
            LifecycleEvent::Destroy(id) => {
                &&& new_space.alive_ids() == old_space.alive_ids().remove(id as u32)
                &&& new_space.enabled_ids() == old_space.enabled_ids()
            },
            LifecycleEvent::Disable(id) => {
                &&& new_space.alive_ids() == old_space.alive_ids()
                &&& new_space.enabled_ids() == old_space.enabled_ids().remove(id as u32)
            },
            LifecycleEvent::Enable(id) => {
                &&& new_space.alive_ids() == old_space.alive_ids()
                &&& new_space.enabled_ids() == old_space.enabled_ids().insert(id as u32)
            },
        }
    }

    /// Get a reference to the bitset of alive objects in this space.
    pub fn alive(&self) -> (r: &BitSet)
        ensures
            bit_contents(*r) == self.alive_ids(),
    {
        &self.alive_objects
    }

    /// Returns whether or not the an object with the given id is currently alive.
    pub fn is_alive(&self, id: IdType) -> (r: bool)
        ensures
            r == self.alive_ids().contains(id as u32),
    {
        bitset_contains(&self.alive_objects, id as u32)
    }

    /// Get a reference to the bitset of enabled objects in this space.
    pub fn enabled(&self) -> (r: &BitSet)
        ensures
            bit_contents(*r) == self.enabled_ids(),
    {
        &self.enabled_objects
    }

    /// Returns whether or not an object with the given id is currently enabled.
    pub fn is_enabled(&self, id: IdType) -> (r: bool)
        ensures
            r == self.enabled_ids().contains(id as u32),
    {
        bitset_contains(&self.enabled_objects, id as u32)
    }

    /// Get the generation value of a given object.
    pub fn get_gen(&self, id: IdType) -> (r: u8)
        requires
            self.wf(),
            id < self.capacity(),
        ensures
            r == self.generations()[id as int],
    {
        self.generations[id]
    }
}

/// Events which handle object lifecycles.
/// Variants should be self-explanatory.
pub enum LifecycleEvent {
    Destroy(IdType),
    Disable(IdType),
    Enable(IdType),
}

impl LifecycleEvent {
    /// The object the event is about.
    pub open spec fn object(&self) -> IdType {
        match *self {
            LifecycleEvent::Destroy(id) => id,
            LifecycleEvent::Disable(id) => id,
            LifecycleEvent::Enable(id) => id,
        }
    }

    /// Apply the event to the object's state in `space`. Disabling an object that is not
    /// enabled, and enabling one that is, change nothing.
    ///
    /// The listeners of the object, which live among its components, are run by the code
    /// that holds them: before destroying or disabling, after enabling.
    pub fn handle(&self, space: &mut Space)
        requires
            old(space).wf(),
            *self is Enable ==> self.object() < old(space).capacity(),
        ensures
            Space::handled(*old(space), *final(space), *self),
    {
        match self {
            LifecycleEvent::Destroy(id) => {
                space.actually_destroy_object(*id);
            },
            LifecycleEvent::Disable(id) => {
                if space.is_enabled(*id) {
                    space.actually_disable_object(*id);
                } else {
                    proof {
                        assert(old(space).enabled_ids().remove(*id as u32) =~= old(space).enabled_ids());
                    }
                }
            },
            LifecycleEvent::Enable(id) => {
                if !space.is_enabled(*id) {
                    space.actually_enable_object(*id);
                } else {
                    proof {
                        assert(old(space).enabled_ids().insert(*id as u32) =~= old(space).enabled_ids());
                    }
                }
            },
        }
    }
}

/// Each time an id is given to a new object its generation changes, so what was stored for the
/// object that had the id before is told apart from the new one.
pub proof fn lemma_new_object_new_generation(s0: Space, s1: Space, id: IdType)
    requires
        s0.wf(),
        Space::created(s0, s1, id),
    ensures
        s1.generations()[id as int] != s0.generations()[id as int],
        s1.alive_ids().contains(id as u32),
        s1.enabled_ids().contains(id as u32),
{
}

} // verus!
