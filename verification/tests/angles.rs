use rts_server::libs::fast_float::{ratio16, Angle, Fast, FastBase};
use rts_server::libs::fixed_point::{
    dist_to_stop, div_toward_zero, Coord, FixedAngle, FixedBase, UFixed64,
};
use rts_server::libs::tiny_float::{TinyAngle, TinyBase, TinyFloat};
use rts_server::pathing::direction::{rotate_c, rotate_cc, translate, Degree, Direction};

#[test]
fn fixed_angle_distance_wraps_the_short_way() {
    let a = FixedAngle::from_data(100);
    let b = FixedAngle::from_data(65000);
    assert_eq!(a.distance(b).data(), 635);
    assert_eq!(b.distance(a).data(), 635);
    assert_eq!(a.distance(FixedAngle::from_data(300)).data(), 200);
}

#[test]
fn fixed_angle_add_and_sub() {
    let a = FixedAngle::from_data(2000);
    let b = FixedAngle::from_data(500);
    assert_eq!((a + b).data(), 2500);
    assert_eq!((a - b).data(), 1500);
}

#[test]
fn fixed_angle_turn_towards_steps_or_arrives() {
    let a = FixedAngle::from_data(1000);
    let goal = FixedAngle::from_data(2000);
    assert_eq!(a.turn_towards(goal, FixedAngle::from_data(300)).data(), 1300);
    assert_eq!(a.turn_towards(goal, FixedAngle::from_data(5000)).data(), 2000);
    // The short way round from 1000 to 64000 goes down through zero.
    let far = FixedAngle::from_data(64000);
    assert_eq!(a.turn_towards(far, FixedAngle::from_data(500)).data(), 500);
}

#[test]
fn fixed_angle_lock_angle_pulls_into_the_arc() {
    let org = FixedAngle::from_data(10000);
    let arc = FixedAngle::from_data(1000);
    assert_eq!(FixedAngle::from_data(10500).lock_angle(org, arc).data(), 10500);
    assert_eq!(FixedAngle::from_data(13000).lock_angle(org, arc).data(), 11000);
    assert_eq!(FixedAngle::from_data(7000).lock_angle(org, arc).data(), 9000);
}

#[test]
fn ufixed_and_stopping_distance() {
    assert_eq!(UFixed64::new(3).data(), 3 * 4294967296);
    let speed = UFixed64::from_data(12);
    let decel = UFixed64::from_data(4);
    // 12 + 8 + 4
    assert_eq!(dist_to_stop(speed, decel).data(), 24);
    assert_eq!(dist_to_stop(UFixed64::from_data(0), decel).data(), 0);
}

#[test]
fn coord_division_rounds_toward_zero() {
    assert_eq!(div_toward_zero(-7, 2), -3);
    assert_eq!(div_toward_zero(7, 2), 3);
    assert_eq!(Coord::from_data(-5).data(), -5);
}

fn fixed_base() -> FixedBase {
    let mut cos_sin = Vec::new();
    for i in 0..65535i32 {
        cos_sin.push((i % 32768, -(i % 32768)));
    }
    let mut atan2 = Vec::new();
    for i in 0..(1024 * 1024) {
        atan2.push((i % 1000) as u16);
    }
    FixedBase::new(cos_sin, atan2).unwrap()
}

#[test]
fn fixed_base_checks_table_sizes() {
    assert!(FixedBase::new(vec![(0, 0)], vec![0]).is_none());
    let mut atan2 = Vec::new();
    for _ in 0..(1024 * 1024) {
        atan2.push(20000u16);
    }
    let cos_sin = vec![(0, 0); 65535];
    assert!(FixedBase::new(cos_sin, atan2).is_none());
}

#[test]
fn fixed_base_atan2_by_quadrant() {
    let base = fixed_base();
    // Index 3 * 1024 + 5 = 3077 holds 77.
    assert_eq!(base.atan2(Coord::from_data(3), Coord::from_data(5)).data(), 77);
    assert_eq!(base.atan2(Coord::from_data(3), Coord::from_data(-5)).data(), 32767 - 77);
    assert_eq!(base.atan2(Coord::from_data(-3), Coord::from_data(-5)).data(), 32767 + 77);
    assert_eq!(base.atan2(Coord::from_data(-3), Coord::from_data(5)).data(), 65535 - 77);
}

#[test]
fn fixed_base_offset_scales_by_the_table() {
    let base = fixed_base();
    // Entry 100 is (100, -100): 32767 * 100 / 32767 = 100.
    let (x, y) = base.offset(FixedAngle::from_data(100), Coord::from_data(32767));
    assert_eq!(x.data(), 100);
    assert_eq!(y.data(), -100);
}

#[test]
fn tiny_types_keep_their_data() {
    assert_eq!(TinyAngle::from_data(12).data(), 12);
    assert_eq!(TinyFloat::from_data(-4).data(), -4);
    assert!(TinyBase::new(vec![], vec![]).is_none());
}

#[test]
fn fast_ratio_and_angles() {
    assert_eq!(ratio16(3, 3), 65535);
    assert_eq!(ratio16(-1, 2), 32768);
    assert_eq!(Fast::from_data(7).data(), 7);
    let a = Angle::from_data(65000);
    let b = Angle::from_data(1000);
    assert_eq!(a.distance(b).data(), 1535);
    assert!(FastBase::new(vec![], vec![]).is_none());
}

#[test]
fn direction_rotations_and_moves() {
    assert_eq!(rotate_c(Degree(2), Direction(7)), Direction(1));
    assert_eq!(rotate_cc(Degree(3), Direction(1)), Direction(6));
    // Half a turn each way lands on the same direction.
    assert_eq!(rotate_c(Degree(4), Direction(2)), rotate_cc(Degree(4), Direction(2)));
    assert_eq!(translate(3, Direction(3), (10, 10)), (13, 7));
    assert_eq!(translate(2, Direction(7), (0, 0)), (-2, 2));
}
