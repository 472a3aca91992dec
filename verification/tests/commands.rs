use rts_server::data::aliases::QueueOrder;
use rts_server::data::game::{
    apply_queue_order, info_message, map_info_message, order_units, parse_request, refunds_training,
    CommandKind, ParseError, Request,
};
use rts_server::data::logger::{encode_order_completed, encode_unit_deaths, Logger};
use rts_server::data::uid_types::{OrderID, USizeWrapper, UnitID};
use rts_server::data::units::UnitTarget;
use std::collections::VecDeque;

fn header(kind: u8, order_id: u32) -> Vec<u8> {
    let mut v = vec![kind];
    v.extend_from_slice(&order_id.to_be_bytes());
    v
}

#[test]
fn move_command_is_read_with_its_units() {
    let mut m = header(0, 5);
    m.extend_from_slice(&1.5f64.to_bits().to_be_bytes());
    m.extend_from_slice(&(-2.25f64).to_bits().to_be_bytes());
    m.push(1);
    m.extend_from_slice(&[0, 3, 1, 4, 9]);
    match parse_request(&m) {
        Ok(Request::Order(c)) => {
            assert_eq!(c.order_id, 5);
            assert_eq!(c.queue, QueueOrder::Append);
            assert_eq!(c.units, vec![3, 260]);
            match c.kind {
                CommandKind::Move { x_bits, y_bits } => {
                    assert_eq!(f64::from_bits(x_bits), 1.5);
                    assert_eq!(f64::from_bits(y_bits), -2.25);
                }
                _ => panic!("a move command"),
            }
        }
        other => panic!("unexpected {:?}", other),
    }
}

#[test]
fn train_command_is_read() {
    let mut m = header(4, 9);
    m.extend_from_slice(&[0, 2, 1, 2, 0, 1]);
    match parse_request(&m) {
        Ok(Request::Order(c)) => {
            assert_eq!(c.order_id, 9);
            assert_eq!(c.queue, QueueOrder::Replace);
            assert_eq!(c.units, vec![1]);
            assert!(matches!(c.kind, CommandKind::Train { unit_type: 2, repeat: true }));
        }
        other => panic!("unexpected {:?}", other),
    }
    let mut m = header(4, 9);
    m.extend_from_slice(&[0, 2, 2, 0]);
    match parse_request(&m) {
        Ok(Request::Order(c)) => {
            assert!(matches!(c.kind, CommandKind::Train { unit_type: 2, repeat: false }));
            assert_eq!(c.queue, QueueOrder::Prepend);
            assert!(c.units.is_empty());
        }
        other => panic!("unexpected {:?}", other),
    }
}

#[test]
fn build_and_target_commands_are_read() {
    let mut m = header(3, 1);
    m.extend_from_slice(&[0, 7]);
    m.extend_from_slice(&10.0f64.to_bits().to_be_bytes());
    m.extend_from_slice(&20.0f64.to_bits().to_be_bytes());
    m.push(3);
    match parse_request(&m) {
        Ok(Request::Order(c)) => match c.kind {
            CommandKind::Build { unit_type, x_bits, y_bits } => {
                assert_eq!(unit_type, 7);
                assert_eq!(f64::from_bits(x_bits), 10.0);
                assert_eq!(f64::from_bits(y_bits), 20.0);
                assert_eq!(c.queue, QueueOrder::Clear);
            }
            _ => panic!("a build command"),
        },
        other => panic!("unexpected {:?}", other),
    }
    let mut m = header(2, 1);
    m.extend_from_slice(&[1, 0, 0, 0, 8]);
    match parse_request(&m) {
        Ok(Request::Order(c)) => {
            assert!(matches!(c.kind, CommandKind::AttackTarget { target: 256 }));
            assert_eq!(c.units, vec![8]);
        }
        other => panic!("unexpected {:?}", other),
    }
    let mut m = header(5, 1);
    m.extend_from_slice(&[0, 4, 1]);
    assert!(matches!(parse_request(&m), Ok(Request::Order(c)) if matches!(c.kind, CommandKind::Assist { target: 4 })));
}

#[test]
fn info_requests_need_an_order_id() {
    assert!(matches!(parse_request(&header(7, 0)), Ok(Request::MapInfo)));
    assert!(matches!(parse_request(&header(8, 0)), Ok(Request::UnitInfo)));
    assert!(matches!(parse_request(&header(9, 0)), Ok(Request::MissileInfo)));
    assert!(matches!(parse_request(&[7, 0, 0]), Err(ParseError::Truncated)));
}

#[test]
fn bad_messages_are_refused() {
    assert!(matches!(parse_request(&[]), Err(ParseError::Empty)));
    assert!(matches!(parse_request(&[10, 0, 0, 0, 0, 0]), Err(ParseError::UnknownKind)));
    assert!(matches!(parse_request(&header(6, 1)), Err(ParseError::Truncated)));
    let mut m = header(6, 1);
    m.push(4);
    assert!(matches!(parse_request(&m), Err(ParseError::BadQueueOrder)));
    let mut m = header(0, 1);
    m.extend_from_slice(&[0; 15]);
    assert!(matches!(parse_request(&m), Err(ParseError::Truncated)));
    let mut m = header(6, 1);
    m.extend_from_slice(&[0, 0, 2]);
    assert!(matches!(parse_request(&m), Ok(Request::Order(c)) if c.units == vec![2] && matches!(c.kind, CommandKind::Stop)));
}

#[test]
fn only_own_manual_units_take_orders() {
    let teams = vec![0, 1, 0, 0];
    let automatic = vec![false, false, true, false];
    let r = order_units(&[3, 1, 2, 0, 9, 3], 4, &teams, &automatic, 0);
    let ids: Vec<usize> = r.iter().map(|u| u.usize_unwrap()).collect();
    assert_eq!(ids, vec![3, 0, 3]);
}

#[test]
fn queue_orders_place_the_new_order() {
    let mut q: VecDeque<u8> = VecDeque::from(vec![1, 2]);
    apply_queue_order(&mut q, QueueOrder::Append, 3);
    assert_eq!(q, VecDeque::from(vec![1, 2, 3]));
    apply_queue_order(&mut q, QueueOrder::Prepend, 0);
    assert_eq!(q, VecDeque::from(vec![0, 1, 2, 3]));
    apply_queue_order(&mut q, QueueOrder::Replace, 7);
    assert_eq!(q, VecDeque::from(vec![7]));
    apply_queue_order(&mut q, QueueOrder::Clear, 8);
    assert!(q.is_empty());
    assert!(!refunds_training(QueueOrder::Append));
    assert!(refunds_training(QueueOrder::Prepend));
    assert!(refunds_training(QueueOrder::Replace));
    assert!(refunds_training(QueueOrder::Clear));
}

#[test]
fn deaths_are_told_to_teams_that_see_them() {
    let mut log = Logger::new();
    log.log_unit_death(UnitID::usize_wrap(2), 5);
    log.log_unit_death(UnitID::usize_wrap(1), 6);
    log.log_unit_death(UnitID::usize_wrap(300), 7);
    let mut visible = vec![false; 301];
    visible[2] = true;
    visible[300] = true;
    let mut out = vec![0xAA];
    encode_unit_deaths(&log.unit_deaths, &visible, &mut out);
    assert_eq!(out, vec![0xAA, 1, 0, 2, 5, 1, 1, 44, 7]);
    log.clear();
    assert!(log.unit_deaths.is_empty());
}

#[test]
fn completed_orders_are_told_to_the_units_team() {
    let mut log = Logger::new();
    log.log_order_completed(UnitTarget::new(4, UnitID::usize_wrap(1)), OrderID::usize_wrap(513));
    log.log_order_completed(UnitTarget::new(3, UnitID::usize_wrap(0)), OrderID::usize_wrap(2));
    log.log_order_completed(UnitTarget::new(9, UnitID::usize_wrap(1)), OrderID::usize_wrap(3));
    let souls = vec![3, 4];
    let teams = vec![1, 0];
    let mut out = Vec::new();
    encode_order_completed(&log.orders_completed, &souls, &teams, 0, &mut out);
    assert_eq!(out, vec![2, 0, 1, 2, 1]);
    let mut out = Vec::new();
    encode_order_completed(&log.orders_completed, &souls, &teams, 1, &mut out);
    assert_eq!(out, vec![2, 0, 0, 0, 2]);
}

#[test]
fn info_messages_start_with_the_frame() {
    assert_eq!(info_message(0x01020304, &[9, 8]), vec![1, 2, 3, 4, 9, 8]);
    assert_eq!(map_info_message(7, 258, &[5]), vec![0, 0, 0, 7, 9, 2, 5]);
}
