//! The hierarchical bit sets of `hibitset`, which the object spaces use to track ids.
//!
//! A `BitSet` is opaque here; what it holds is named by [`bit_contents`], and each
//! operation the library uses has a small wrapper whose contract speaks of that name.
use vstd::prelude::*;
use hibitset::BitSet;
use hibitset::BitSetLike;

verus! {

#[verifier::external_type_specification]
#[verifier::external_body]
pub struct ExBitSet(hibitset::BitSet);

/// The indices held by a bit set.
pub uninterp spec fn bit_contents(s: BitSet) -> Set<u32>;

/// The summary layers of a bit set agree with its bits, and it holds no index from
/// `max_eid()` on, so that iterating it yields exactly what it holds. Every set that only the
/// wrappers below have built is so.
pub uninterp spec fn bit_iterable(s: BitSet) -> bool;

/// The number of indices a bit set can hold: `usize::BITS` to the fourth power, that is
/// 2^24 where `usize` has 64 bits and 2^20 where it has 32.
pub open spec fn max_eid() -> int {
    if usize::BITS == 64 {
        0x100_0000
    } else {
        0x10_0000
    }
}

/// Calls `BitSet::new`, which makes an empty set.
#[verifier::external_body]
pub(crate) fn bitset_new() -> (r: BitSet)
    ensures
        bit_contents(r) == Set::<u32>::empty(),
        bit_iterable(r),
{
    BitSet::new()
}

/// Calls `BitSet::with_capacity`, which makes an empty set with room for indices up to
/// `max`; it panics where `max` is above `max_eid()`.
#[verifier::external_body]
pub(crate) fn bitset_with_capacity(max: u32) -> (r: BitSet)
    requires
        max <= max_eid(),
    ensures
        bit_contents(r) == Set::<u32>::empty(),
        bit_iterable(r),
{
    BitSet::with_capacity(max)
}

/// Calls `BitSet::add`, which puts `id` in the set and returns whether it was there
/// already. Growing the set panics where `id` is above `max_eid()`; `max_eid()` itself is
/// left out as well, because its summary bit is shared with the smallest ids, so that
/// removing it again would hide them from iteration.
#[verifier::external_body]
pub(crate) fn bitset_add(s: &mut BitSet, id: u32) -> (was_present: bool)
    requires
        id < max_eid(),
    ensures
        was_present == bit_contents(*old(s)).contains(id),
        bit_contents(*final(s)) == bit_contents(*old(s)).insert(id),
        bit_iterable(*old(s)) ==> bit_iterable(*final(s)),
{
    s.add(id)
}

/// Calls `BitSet::remove`, which takes `id` out of the set and returns whether it was there.
#[verifier::external_body]
pub(crate) fn bitset_remove(s: &mut BitSet, id: u32) -> (was_present: bool)
    ensures
        was_present == bit_contents(*old(s)).contains(id),
        bit_contents(*final(s)) == bit_contents(*old(s)).remove(id),
        bit_iterable(*old(s)) ==> bit_iterable(*final(s)),
{
    s.remove(id)
}

/// Calls `BitSet::clear`, which empties the set.
#[verifier::external_body]
pub(crate) fn bitset_clear(s: &mut BitSet)
    ensures
        bit_contents(*final(s)) == Set::<u32>::empty(),
        bit_iterable(*final(s)),
{
    s.clear()
}

/// Calls `BitSet::contains`.
#[verifier::external_body]
pub(crate) fn bitset_contains(s: &BitSet, id: u32) -> (r: bool)
    ensures
        r == bit_contents(*s).contains(id),
{
    s.contains(id)
}

/// The smallest index below `max_eid()` that is not in the set, if there is one: the first
/// item of the iterator over the set's complement, `(!s).iter().nth(0)`, which walks the
/// index space in ascending order.
#[verifier::external_body]
pub(crate) fn bitset_first_absent(s: &BitSet) -> (r: Option<u32>)
    ensures
        match r {
            Some(i) => {
                &&& i < max_eid()
                &&& !bit_contents(*s).contains(i)
                &&& forall|j: u32| j < i ==> #[trigger] bit_contents(*s).contains(j)
            },
            None => forall|j: u32| j < max_eid() ==> #[trigger] bit_contents(*s).contains(j),
        },
{
    (!s).iter().nth(0)
}

/// The smallest index below `max_eid()` that is in `a` and not in `b`, if there is one: the
/// first item of the iterator over `BitSetAnd(a, !b)`, which walks the index space in
/// ascending order.
#[verifier::external_body]
pub(crate) fn bitset_first_in_not_in(a: &BitSet, b: &BitSet) -> (r: Option<u32>)
    requires
        bit_iterable(*a),
    ensures
        match r {
            Some(i) => {
                &&& i < max_eid()
                &&& bit_contents(*a).contains(i)
                &&& !bit_contents(*b).contains(i)
                &&& forall|j: u32| j < i && #[trigger] bit_contents(*a).contains(j) ==> bit_contents(*b).contains(j)
            },
            None => forall|j: u32| j < max_eid() && #[trigger] bit_contents(*a).contains(j) ==> bit_contents(*b).contains(j),
        },
{
    hibitset::BitSetAnd(a, !b).iter().nth(0)
}

/// A copy of the set: calls `BitSet::clone`, which copies every layer.
#[verifier::external_body]
pub(crate) fn bitset_clone(s: &BitSet) -> (r: BitSet)
    ensures
        bit_contents(r) == bit_contents(*s),
        bit_iterable(*s) ==> bit_iterable(r),
{
    s.clone()
}

/// The indices in both sets, collected into a new set: what iterating `BitSetAnd(a, b)`
/// yields, each item added to `BitSet::new()` (its `FromIterator`).
#[verifier::external_body]
pub(crate) fn bitset_and(a: &BitSet, b: &BitSet) -> (r: BitSet)
    requires
        bit_iterable(*a),
        bit_iterable(*b),
    ensures
        bit_iterable(r),
        forall|i: u32| #[trigger] bit_contents(r).contains(i)
            <==> (bit_contents(*a).contains(i) && bit_contents(*b).contains(i)),
{
    hibitset::BitSetAnd(a, b).iter().collect()
}

/// The indices in `a` and not in `b`, collected into a new set: what iterating
/// `BitSetAnd(a, !b)` yields, each item added to `BitSet::new()`.
#[verifier::external_body]
pub(crate) fn bitset_and_not(a: &BitSet, b: &BitSet) -> (r: BitSet)
    requires
        bit_iterable(*a),
    ensures
        bit_iterable(r),
        forall|i: u32| #[trigger] bit_contents(r).contains(i)
            <==> (bit_contents(*a).contains(i) && !bit_contents(*b).contains(i)),
{
    hibitset::BitSetAnd(a, !b).iter().collect()
}

/// The indices of the set below `max_eid()`, in ascending order: what iterating the set
/// yields, collected.
#[verifier::external_body]
pub(crate) fn bitset_to_vec(s: &BitSet) -> (r: Vec<u32>)
    requires
        bit_iterable(*s),
    ensures
        forall|a: int, b: int| 0 <= a < b < r@.len() ==> r@[a] < r@[b],
        forall|i: u32| r@.contains(i) <==> (bit_contents(*s).contains(i) && i < max_eid()),
{
    s.iter().collect()
}

} // verus!
