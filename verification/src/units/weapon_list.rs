//! The kinds of weapons.
use crate::data::uid_types::{USizeWrapper, WeaponTypeID};
use vstd::prelude::*;

verus! {

/// A kind of weapon.
#[derive(Clone, Copy)]
pub enum WeaponType {
    TestUnit,
    TestStructure,
}

/// The place of a kind of weapon in the order of declaration.
pub open spec fn weapon_type_index(t: WeaponType) -> nat {
    match t {
        WeaponType::TestUnit => 0,
        WeaponType::TestStructure => 1,
    }
}

/// The id of a kind of weapon: its place in the order of declaration.
pub fn id(weapon_type: WeaponType) -> (r: WeaponTypeID)
    ensures
        r.id_value() == weapon_type_index(weapon_type),
{
    let ix: usize = match weapon_type {
        WeaponType::TestUnit => 0,
        WeaponType::TestStructure => 1,
    };
    WeaponTypeID::usize_wrap(ix)
}

} // verus!
