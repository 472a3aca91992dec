//! How an entity moves, and the stages of a unit's life.
use vstd::prelude::*;

verus! {

/// The ways an entity can move.
#[allow(non_camel_case_types)]
#[derive(Debug, Copy, Clone, PartialEq, Eq)]
pub enum MoveType {
    GROUND,
    FLYING,
    FLOATING,
    HOVERING,
    AMPHIBIOUS,
    ORBITAL,
    NONE,
}

/// The stages of a unit's life.
#[allow(non_camel_case_types)]
#[derive(Debug, Copy, Clone, PartialEq, Eq)]
pub enum UnitStatus {
    ALIVE,
    DEAD,
    NON_EXISTENT,
    BEING_MADE,
    BEING_TRANSPORTED,
}

} // verus!
