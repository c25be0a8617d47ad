//! Recipes describe how to spawn a kind of object into a Space.
use vstd::prelude::*;
use crate::base::space::CreationId;

verus! {

/// A kind of object that can be spawned into a Space with feature set `F`.
///
/// The components split in two: those that are the same for every instance, which a pool
/// creates once for each of its slots, and those of each instance. Each recipe says, through
/// the two spec functions, what creating them does to the feature set.
pub trait Recipe<F>: Sized {
    /// `after` is `before` with the components that every instance shares created for the
    /// object `id`. A recipe that does not say what they are promises nothing of them.
    open spec fn consts_spawned(id: usize, before: F, after: F) -> bool {
        true
    }

    /// `after` is `before` with the components of this instance created for the object `id`.
    /// A recipe that does not say what they are promises nothing of them.
    open spec fn vars_spawned(&self, id: usize, before: F, after: F) -> bool {
        true
    }

    /// Create the components that don't change between instances of the recipe.
    fn spawn_consts(id: CreationId, features: &mut F)
        ensures
            Self::consts_spawned(id.index(), *old(features), *final(features)),
    ;

    /// Create the components of this instance.
    fn spawn_vars(self, id: CreationId, features: &mut F)
        ensures
            self.vars_spawned(id.index(), *old(features), *final(features)),
    ;
}

/// `after` is `before` with the components every instance of `R` shares created for each id
/// of `ids`, one id after another in the order of `ids`: a chain of feature sets leads from
/// `before` to `after`, each step creating the shared components of the next id.
pub open spec fn consts_spawned_all<F, R: Recipe<F>>(ids: Seq<usize>, before: F, after: F) -> bool {
    exists|fs: Seq<F>| #[trigger] consts_chain::<F, R>(ids, fs, before, after)
}

/// `fs` is a chain of feature sets from `before` to `after`, step `k` creating the shared
/// components of `ids[k]`.
pub open spec fn consts_chain<F, R: Recipe<F>>(ids: Seq<usize>, fs: Seq<F>, before: F, after: F) -> bool {
    &&& fs.len() == ids.len() + 1
    &&& fs[0] == before
    &&& fs.last() == after
    &&& forall|k: int| 0 <= k < ids.len() ==> R::consts_spawned(#[trigger] ids[k], fs[k], fs[k + 1])
}

/// No ids: nothing is created.
pub proof fn lemma_consts_spawned_none<F, R: Recipe<F>>(f: F)
    ensures
        consts_spawned_all::<F, R>(Seq::<usize>::empty(), f, f),
{
    assert(consts_chain::<F, R>(Seq::<usize>::empty(), seq![f], f, f));
}

/// Creating the shared components for one more id extends the chain.
pub proof fn lemma_consts_spawned_push<F, R: Recipe<F>>(ids: Seq<usize>, id: usize, before: F, mid: F, after: F)
    requires
        consts_spawned_all::<F, R>(ids, before, mid),
        R::consts_spawned(id, mid, after),
    ensures
        consts_spawned_all::<F, R>(ids.push(id), before, after),
{
    let fs = choose|fs: Seq<F>| #[trigger] consts_chain::<F, R>(ids, fs, before, mid);
    let gs = fs.push(after);
    let s = ids.push(id);
    assert forall|k: int| 0 <= k < s.len() implies R::consts_spawned(#[trigger] s[k], gs[k], gs[k + 1]) by {
        if k < ids.len() {
            assert(s[k] == ids[k]);
            assert(gs[k] == fs[k] && gs[k + 1] == fs[k + 1]);
        } else {
            assert(gs[k] == fs.last());
        }
    }
    assert(consts_chain::<F, R>(s, gs, before, after));
}

/// The ids `start`, `start + 1`, ..., `start + n - 1`.
pub open spec fn id_range(start: int, n: nat) -> Seq<usize> {
    Seq::new(n, |k: int| (start + k) as usize)
}

} // verus!
