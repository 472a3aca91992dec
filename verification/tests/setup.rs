use rts_server::data::aliases::ClientMessage;
use rts_server::data::game::descriptions_message;
use rts_server::data::uid_types::{
    assign_type_ids, resolve_names, MissileTypeID, UIDMapping, USizeWrapper, UnitTypeID,
};
use rts_server::libs::bytegrid::ByteGrid;
use rts_server::pathing::path_grid::PathGrid;
use rts_server::setup_game::{blocked_tiles, close_byte_tiles, close_path_tiles};

fn names(v: &[&str]) -> Vec<String> {
    v.iter().map(|s| s.to_string()).collect()
}

#[test]
fn descriptions_are_framed_with_kind_and_length() {
    let descs = vec![b"{}".to_vec(), Vec::new(), b"abc".to_vec()];
    let r = descriptions_message(ClientMessage::UnitInfo, &descs);
    assert_eq!(r, vec![10, 0, 0, 0, 2, b'{', b'}', 10, 0, 0, 0, 0, 10, 0, 0, 0, 3, b'a', b'b', b'c']);
    let m = descriptions_message(ClientMessage::MissileInfo, &[vec![7u8; 300]]);
    assert_eq!(&m[..5], &[11, 0, 0, 1, 44]);
    assert_eq!(m.len(), 305);
    assert!(descriptions_message(ClientMessage::MissileInfo, &[]).is_empty());
}

#[test]
fn type_ids_are_handed_out_in_order() {
    let mut ids = UIDMapping::<UnitTypeID>::new(256);
    let got = assign_type_ids(&names(&["Tank", "Scout", "Tank"]), &mut ids).unwrap();
    let vals: Vec<usize> = got.iter().map(|t| t.usize_unwrap()).collect();
    assert_eq!(vals, vec![0, 1, 0]);
    let more = assign_type_ids(&names(&["Scout", "Drone"]), &mut ids).unwrap();
    let vals: Vec<usize> = more.iter().map(|t| t.usize_unwrap()).collect();
    assert_eq!(vals, vec![1, 2]);
}

#[test]
fn type_ids_run_out() {
    let mut ids = UIDMapping::<MissileTypeID>::new(2);
    assert!(assign_type_ids(&names(&["a", "b", "a", "c"]), &mut ids).is_none());
    // The names before the failure keep their ids.
    assert_eq!(ids.id(&"a".to_string()).map(|t| t.usize_unwrap()), Some(0));
    assert_eq!(ids.id(&"b".to_string()).map(|t| t.usize_unwrap()), Some(1));
    assert!(ids.id(&"c".to_string()).is_none());
}

#[test]
fn names_resolve_to_their_ids() {
    let mut ids = UIDMapping::<UnitTypeID>::new(8);
    assign_type_ids(&names(&["Tank", "Scout"]), &mut ids).unwrap();
    let r = resolve_names(&names(&["Scout", "Tank", "Scout"]), &ids).unwrap();
    let vals: Vec<usize> = r.iter().map(|t| t.usize_unwrap()).collect();
    assert_eq!(vals, vec![1, 0, 1]);
    assert!(resolve_names(&[], &ids).unwrap().is_empty());
    match resolve_names(&names(&["Tank", "Ghost", "Wraith"]), &ids) {
        Err(k) => assert_eq!(k, 1),
        Ok(_) => panic!("an unknown name resolved"),
    }
}

#[test]
fn blocked_codes_close_tiles_bottom_up() {
    // Three columns, two rows, listed from the top row.
    let codes = vec![0usize, 1, 3, 2, 4, 5];
    let tiles = blocked_tiles(&codes, 3, 2);
    assert_eq!(tiles, vec![(0, 1), (2, 1), (1, 0)]);
    let mut g = PathGrid::new(3, 2);
    close_path_tiles(&mut g, &tiles);
    assert!(!g.is_open((0, 1)) && !g.is_open((2, 1)) && !g.is_open((1, 0)));
    assert!(g.is_open((1, 1)) && g.is_open((0, 0)) && g.is_open((2, 0)));
    let mut b = ByteGrid::new(3, 2);
    close_byte_tiles(&mut b, &tiles);
    assert!(!b.is_open((0, 1)) && !b.is_open((2, 1)) && !b.is_open((1, 0)));
    assert!(b.is_open((1, 1)) && b.is_open((0, 0)) && b.is_open((2, 0)));
}
