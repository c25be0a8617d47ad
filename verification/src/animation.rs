//! Choosing the active animation of an animated mesh by name.
use vstd::prelude::*;

verus! {

/// Error type indicating that an animation with a given name does not exist.
#[derive(Debug, Clone, Copy)]
pub struct AnimationNotFoundError;

/// An animation with this entry as its name is called `name`.
pub open spec fn is_named(entry: Option<String>, name: Seq<char>) -> bool {
    entry matches Some(n) && n@ == name
}

/// The first position in `names` that holds `name`.
pub open spec fn first_named(names: Seq<Option<String>>, name: Seq<char>, idx: int) -> bool {
    &&& 0 <= idx < names.len()
    &&& is_named(names[idx], name)
    &&& forall|j: int| 0 <= j < idx ==> !is_named(#[trigger] names[j], name)
}

/// Activate the animation with the given name, if it exists: `names` holds the name of each
/// animation of a mesh animator, and `active_anim_idx` its active one.
/// Returns an error, and leaves the active animation as it was, if an animation with the
/// given name doesn't exist.
pub fn activate_animation(
    names: &Vec<Option<String>>,
    active_anim_idx: &mut Option<usize>,
    name: &String,
) -> (r: Result<(), AnimationNotFoundError>)
    ensures
        r is Ok <==> exists|i: int| 0 <= i < names@.len() && is_named(#[trigger] names@[i], name@),
        r is Ok ==> (*final(active_anim_idx)) is Some && first_named(
            names@,
            name@,
            (*final(active_anim_idx))->Some_0 as int,
        ),
        r is Err ==> *final(active_anim_idx) == *old(active_anim_idx),
{
    let mut k: usize = 0;
    while k < names.len()
        invariant
            k <= names@.len(),
            *active_anim_idx == *old(active_anim_idx),
            forall|j: int| 0 <= j < k ==> !is_named(#[trigger] names@[j], name@),
        decreases names@.len() - k,
    {
        match &names[k] {
            Some(n) => {
                if n.eq(name) {
                    proof {
                        assert(is_named(names@[k as int], name@));
                    }
                    *active_anim_idx = Some(k);
                    return Ok(());
                }
            },
            None => {},
        }
        k += 1;
    }
    Err(AnimationNotFoundError)
}

} // verus!
