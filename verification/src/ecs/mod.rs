//! The entity-component-system space: object ids, their lifecycles and component storage.

pub mod componentcontainer;
pub mod space;
pub mod storage;

use vstd::prelude::*;

verus! {

/// The type of object ids.
pub type IdType = usize;

} // verus!
