//! The kinds of missiles.
use crate::data::uid_types::{MissileTypeID, USizeWrapper};
use vstd::prelude::*;

verus! {

/// A kind of missile.
#[derive(Clone, Copy)]
pub enum MissileType {
    Fast1,
    Medium1,
    Artillery1,
}

/// The place of a kind of missile in the order of declaration.
pub open spec fn missile_type_index(t: MissileType) -> nat {
    match t {
        MissileType::Fast1 => 0,
        MissileType::Medium1 => 1,
        MissileType::Artillery1 => 2,
    }
}

/// The id of a kind of missile: its place in the order of declaration.
pub fn id(missile_type: MissileType) -> (r: MissileTypeID)
    ensures
        r.id_value() == missile_type_index(missile_type),
{
    let ix: usize = match missile_type {
        MissileType::Fast1 => 0,
        MissileType::Medium1 => 1,
        MissileType::Artillery1 => 2,
    };
    MissileTypeID::usize_wrap(ix)
}

} // verus!
