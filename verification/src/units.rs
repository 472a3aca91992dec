//! The kinds of missiles and weapons, each with the id that indexes its
//! prototype.
pub mod missile_list;
pub mod weapon_list;
