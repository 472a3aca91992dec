//! A reference to a unit that stays valid only for the life of that unit.
use crate::data::uid_types::UnitID;
use vstd::prelude::*;

verus! {

/// A unit id together with the generation ("soul") of the unit that held
/// the id when the reference was made; a later unit reusing the id has
/// another soul.
#[derive(Clone, Copy, Debug, PartialEq, Eq, Hash)]
pub struct UnitTarget {
    soul_id: usize,
    unit_id: UnitID,
}

impl UnitTarget {
    /// The soul the reference was made for.
    pub closed spec fn soul(self) -> nat {
        self.soul_id as nat
    }

    /// The unit id the reference names.
    pub closed spec fn unit(self) -> UnitID {
        self.unit_id
    }

    /// A reference to the unit `unit_id` in its generation `soul_id`.
    pub fn new(soul_id: usize, unit_id: UnitID) -> (r: UnitTarget)
        ensures
            r.soul() == soul_id,
            r.unit() == unit_id,
    {
        UnitTarget { soul_id, unit_id }
    }

    /// The id, if the unit that now holds it has the soul the reference was
    /// made for.
    pub fn id_if_soul(self, current_soul: usize) -> (r: Option<UnitID>)
        ensures
            r == if current_soul == self.soul() {
                Some(self.unit())
            } else {
                None
            },
    {
        if self.soul_id == current_soul {
            Some(self.unit_id)
        } else {
            None
        }
    }

    /// The unit id the reference names.
    pub fn unit_id(self) -> (r: UnitID)
        ensures
            r == self.unit(),
    {
        self.unit_id
    }

    /// The soul the reference was made for.
    pub fn soul_id(self) -> (r: usize)
        ensures
            r == self.soul(),
    {
        self.soul_id
    }
}

} // verus!
