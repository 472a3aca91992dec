//! Game data: ids and their pools, target kinds, unit references, and the
//! enums and records of the game's messages.
pub mod aliases;
pub mod entities;
pub mod game;
pub mod logger;
pub mod target_type;
pub mod uid_types;
pub mod units;

use vstd::pervasive::cloned;
use vstd::prelude::*;

verus! {

/// Properties an entity can have.
#[derive(Clone, Copy, Debug, PartialEq, Eq)]
pub enum Flag {
    IsUnit,
    IsStructure,
    IsMobile,
    IsGround,
    IsFlying,
    IsMissile,
    IsAutomated,
    IsTransportable,
}

/// The blueprint of a weapon; it carries no data.
pub struct WeaponBlueprint;

/// `n` clones of `default`.
pub fn full_vec<T: Clone>(n: usize, default: T) -> (r: Vec<T>)
    ensures
        r.len() == n,
        forall|i: int| 0 <= i < n ==> cloned::<T>(default, #[trigger] r@[i]),
{
    let mut vec: Vec<T> = Vec::with_capacity(n);
    for k in 0..n
        invariant
            vec.len() == k,
            forall|i: int| 0 <= i < k ==> cloned::<T>(default, #[trigger] vec@[i]),
    {
        vec.push(default.clone());
    }
    vec
}

} // verus!
