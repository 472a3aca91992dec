use rts_server::basic_weapon::{cooldown_weapon, heatup_weapon, weapon_is_ready_to_fire, WeaponHeat};

fn cold_weapon() -> WeaponHeat {
    WeaponHeat {
        cooldown: 0,
        salvo_cooldown: 0,
        salvo: 0,
        salvo_size: 2,
        fire_rate: 300,
        salvo_fire_rate: 100,
    }
}

#[test]
fn cold_weapon_is_ready() {
    assert!(weapon_is_ready_to_fire(&cold_weapon()));
}

#[test]
fn first_shot_starts_a_salvo() {
    let mut w = cold_weapon();
    w.cooldown = -200;
    w.salvo = 5;
    w.salvo_cooldown = -50;
    heatup_weapon(&mut w);
    assert_eq!(w.cooldown, -200 + 10 * 300);
    assert_eq!(w.salvo, 1);
    assert_eq!(w.salvo_cooldown, 1000);
    assert!(!weapon_is_ready_to_fire(&w));
}

#[test]
fn salvo_shots_then_full_cooldown() {
    let mut w = cold_weapon();
    heatup_weapon(&mut w);
    assert_eq!((w.cooldown, w.salvo_cooldown, w.salvo), (3000, 1000, 1));
    cooldown_weapon(&mut w);
    assert_eq!((w.cooldown, w.salvo_cooldown), (2000, 0));
    assert!(weapon_is_ready_to_fire(&w));
    heatup_weapon(&mut w);
    assert_eq!((w.cooldown, w.salvo_cooldown, w.salvo), (2000, 1000, 2));
    cooldown_weapon(&mut w);
    assert_eq!((w.cooldown, w.salvo_cooldown), (1000, 0));
    // the salvo is spent: only the full cooldown can make it ready again
    assert!(!weapon_is_ready_to_fire(&w));
    cooldown_weapon(&mut w);
    assert_eq!((w.cooldown, w.salvo_cooldown), (0, 0));
    assert!(weapon_is_ready_to_fire(&w));
    heatup_weapon(&mut w);
    assert_eq!(w.salvo, 1);
}

#[test]
fn cooling_stops_at_spent_timers() {
    let mut w = cold_weapon();
    w.cooldown = -5;
    w.salvo_cooldown = 1;
    cooldown_weapon(&mut w);
    assert_eq!((w.cooldown, w.salvo_cooldown), (-5, -999));
}
