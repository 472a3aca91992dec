//! The heat of a weapon: the timers that say when it may fire again and the
//! count of shots spent from its current salvo.
use crate::data::aliases::FPS;
use vstd::prelude::*;

verus! {

/// The firing state of one weapon, in milliseconds scaled as the game keeps
/// them: a full cooldown between salvos, a shorter one between the shots of
/// a salvo, and how many shots of the salvo are spent.
#[derive(Clone, Copy, Debug)]
pub struct WeaponHeat {
    pub cooldown: isize,
    pub salvo_cooldown: isize,
    pub salvo: usize,
    pub salvo_size: usize,
    pub fire_rate: isize,
    pub salvo_fire_rate: isize,
}

/// A weapon may fire when its full cooldown is over, or when the cooldown
/// between shots is over and the salvo is not yet spent.
pub open spec fn ready(w: WeaponHeat) -> bool {
    w.cooldown <= 0 || (w.salvo_cooldown <= 0 && w.salvo < w.salvo_size)
}

/// Whether the weapon starts a new salvo when it fires.
pub open spec fn starts_salvo(w: WeaponHeat) -> bool {
    w.cooldown <= 0
}

/// The weapon after it fires one shot: a new salvo resets the timers and the
/// count; then the shot is counted and the wait between shots is added.
pub open spec fn heated(w: WeaponHeat) -> WeaponHeat {
    let fps = FPS as int;
    let (cooldown, salvo, salvo_cooldown) = if starts_salvo(w) {
        (w.cooldown + fps * w.fire_rate, 0int, 0int)
    } else {
        (w.cooldown as int, w.salvo as int, w.salvo_cooldown as int)
    };
    WeaponHeat {
        cooldown: cooldown as isize,
        salvo_cooldown: (salvo_cooldown + fps * w.salvo_fire_rate) as isize,
        salvo: (salvo + 1) as usize,
        ..w
    }
}

/// Whether every number `heated` computes fits its machine type.
pub open spec fn heat_fits(w: WeaponHeat) -> bool {
    let fps = FPS as int;
    let salvo_base: int = if starts_salvo(w) { 0 } else { w.salvo as int };
    let wait_base: int = if starts_salvo(w) { 0 } else { w.salvo_cooldown as int };
    &&& isize::MIN <= fps * w.fire_rate <= isize::MAX
    &&& isize::MIN <= fps * w.salvo_fire_rate <= isize::MAX
    &&& starts_salvo(w) ==> isize::MIN <= w.cooldown + fps * w.fire_rate <= isize::MAX
    &&& salvo_base + 1 <= usize::MAX
    &&& isize::MIN <= wait_base + fps * w.salvo_fire_rate <= isize::MAX
}

/// The weapon after one step of cooling: each timer that still runs drops
/// by a second.
pub open spec fn cooled(w: WeaponHeat) -> WeaponHeat {
    WeaponHeat {
        cooldown: if w.cooldown > 0 { (w.cooldown - 1000) as isize } else { w.cooldown },
        salvo_cooldown: if w.salvo_cooldown > 0 {
            (w.salvo_cooldown - 1000) as isize
        } else {
            w.salvo_cooldown
        },
        ..w
    }
}

/// Whether the weapon may fire now.
pub fn weapon_is_ready_to_fire(w: &WeaponHeat) -> (r: bool)
    ensures
        r == ready(*w),
{
    w.cooldown <= 0 || (w.salvo_cooldown <= 0 && w.salvo < w.salvo_size)
}

/// Counts one shot: starts a new salvo when the full cooldown is over, then
/// adds the wait before the next shot.
pub fn heatup_weapon(w: &mut WeaponHeat)
    requires
        heat_fits(*old(w)),
    ensures
        *final(w) == heated(*old(w)),
{
    let fps: isize = FPS as isize;
    if w.cooldown <= 0 {
        w.cooldown = w.cooldown + fps * w.fire_rate;
        w.salvo = 0;
        w.salvo_cooldown = 0;
    }
    w.salvo = w.salvo + 1;
    w.salvo_cooldown = w.salvo_cooldown + fps * w.salvo_fire_rate;
}

/// One step of cooling: each running timer drops by a second.
pub fn cooldown_weapon(w: &mut WeaponHeat)
    ensures
        *final(w) == cooled(*old(w)),
{
    if w.salvo_cooldown > 0 {
        w.salvo_cooldown = w.salvo_cooldown - 1000;
    }
    if w.cooldown > 0 {
        w.cooldown = w.cooldown - 1000;
    }
}

/// A weapon that fires only when it is ready never spends more shots than
/// its salvo holds, and cooling leaves the count alone.
pub proof fn lemma_salvo_within_size(w: WeaponHeat)
    requires
        w.salvo <= w.salvo_size,
        1 <= w.salvo_size,
        heat_fits(w),
    ensures
        ready(w) ==> heated(w).salvo <= heated(w).salvo_size,
        cooled(w).salvo <= cooled(w).salvo_size,
        heated(w).salvo_size == w.salvo_size,
{
}

/// Right after the first shot of a salvo, with a positive wait between
/// shots and a full cooldown that ends in the future, the weapon is not
/// ready to fire.
pub proof fn lemma_new_salvo_waits(w: WeaponHeat)
    requires
        starts_salvo(w),
        heat_fits(w),
        w.salvo_fire_rate > 0,
        w.cooldown + (FPS as int) * w.fire_rate > 0,
    ensures
        !ready(heated(w)),
{
}

} // verus!
