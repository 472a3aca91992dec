use rts_server::data::aliases::{ClientMessage, MoveType, QueueOrder, ServerMessage};
use rts_server::data::full_vec;
use rts_server::data::target_type::{TargetType, TargetTypes};
use rts_server::data::uid_types::{UIDMapping, UIDPool, USizeWrapper, UnitID, UnitTypeID, VecUID};
use rts_server::data::units::UnitTarget;
use rts_server::libs::tmx_decode::{map_readable, Layer, Location, MapData, TempMapData};
use rts_server::vis_set::VisSet;

#[test]
fn target_types_set_and_match() {
    let t = TargetType::new().set(TargetTypes::Air).set(TargetTypes::Hover);
    assert!(t.get(TargetTypes::Air));
    assert!(t.get(TargetTypes::Hover));
    assert!(!t.get(TargetTypes::Ground));
    assert!(TargetType::new_all_set().get(TargetTypes::Underwater));
    assert!(t.has_a_match(TargetType::new().set(TargetTypes::Hover)));
    assert!(!t.has_a_match(TargetType::new().set(TargetTypes::Water)));
    assert!(!TargetType::new().has_a_match(TargetType::new_all_set()));
}

#[test]
fn pool_hands_out_ids_in_order_and_takes_them_back() {
    let mut pool: UIDPool<UnitID> = UIDPool::new(3);
    let a = pool.get_id().unwrap();
    let b = pool.get_id().unwrap();
    assert_eq!(a.usize_unwrap(), 0);
    assert_eq!(b.usize_unwrap(), 1);
    let mut in_use: Vec<usize> = pool.iter().iter().map(|id| id.usize_unwrap()).collect();
    in_use.sort();
    assert_eq!(in_use, vec![0, 1]);
    pool.put_id(a);
    let c = pool.get_id().unwrap();
    assert_eq!(c.usize_unwrap(), 2);
    let d = pool.get_id().unwrap();
    assert_eq!(d.usize_unwrap(), 0);
    assert!(pool.get_id().is_none());
}

#[test]
fn pool_ignores_an_id_not_in_use() {
    let mut pool: UIDPool<UnitID> = UIDPool::new(2);
    pool.put_id(UnitID::usize_wrap(1));
    assert_eq!(pool.get_id().unwrap().usize_unwrap(), 0);
    assert_eq!(pool.get_id().unwrap().usize_unwrap(), 1);
    assert!(pool.get_id().is_none());
}

#[test]
fn mapping_gives_one_id_per_name() {
    let mut map: UIDMapping<UnitTypeID> = UIDMapping::new(2);
    let tank = map.name_to_id("tank".to_string()).unwrap();
    let jet = map.name_to_id("jet".to_string()).unwrap();
    assert_eq!(map.name_to_id("tank".to_string()).unwrap(), tank);
    assert_ne!(tank, jet);
    assert!(map.name_to_id("boat".to_string()).is_none());
}

#[test]
fn vec_uid_indexes_by_id() {
    let mut v: VecUID<UnitID, u32> = VecUID::full_vec(4, 9);
    assert_eq!(v.len(), 4);
    v.set(UnitID::usize_wrap(2), 5);
    assert_eq!(*v.get(UnitID::usize_wrap(2)), 5);
    assert_eq!(*v.get(UnitID::usize_wrap(3)), 9);
    assert_eq!(full_vec(3, 'a'), vec!['a', 'a', 'a']);
}

#[test]
fn vis_set_inserts_and_grows() {
    let mut set = VisSet::with_capacity(2);
    set.insert(5);
    // 5 % 2 == 1.
    assert_eq!(set.inner_vec().clone(), vec![(false, 0), (true, 5)]);
    let mut set = VisSet::with_capacity(1);
    set.insert(3);
    assert_eq!(set.inner_vec().clone(), vec![(true, 3)]);
    // Full: the table grows to three slots and 3 moves to slot 0.
    set.insert(4);
    assert_eq!(set.inner_vec().clone(), vec![(true, 3), (true, 4), (false, 0)]);
    set.clear();
    assert_eq!(set.inner_vec().clone(), vec![(false, 0), (false, 0), (false, 0)]);
}

#[test]
fn vis_set_insert_of_a_present_id_changes_nothing() {
    let mut set = VisSet::with_capacity(4);
    set.insert(6);
    set.insert(6);
    assert_eq!(set.inner_vec().clone(), vec![(false, 0), (false, 0), (true, 6), (false, 0)]);
}

#[test]
fn vis_set_counts_a_zero_id_in_a_free_slot_as_present() {
    let mut set = VisSet::with_capacity(2);
    set.insert(0);
    assert_eq!(set.inner_vec().clone(), vec![(false, 0), (false, 0)]);
}

#[test]
fn message_codes() {
    assert_eq!(ClientMessage::UnitMove.code(), 0);
    assert_eq!(ClientMessage::OrderCompleted.code(), 2);
    assert_eq!(ClientMessage::MissileInfo.code(), 11);
    assert_eq!(ServerMessage::from_u8(4), Some(ServerMessage::Train));
    assert_eq!(ServerMessage::from_u8(10), None);
    assert_eq!(QueueOrder::from_u8(3), Some(QueueOrder::Clear));
    assert_eq!(QueueOrder::from_u8(4), None);
    assert_eq!(MoveType::from_usize(137), Some(MoveType::Hover));
    assert_eq!(MoveType::from_usize(99999), Some(MoveType::Air));
    assert_eq!(MoveType::from_usize(0), None);
}

#[test]
fn unit_target_checks_the_soul() {
    let t = UnitTarget::new(3, UnitID::usize_wrap(8));
    assert_eq!(t.id_if_soul(3), Some(UnitID::usize_wrap(8)));
    assert_eq!(t.id_if_soul(4), None);
    assert_eq!(t.soul_id(), 3);
}

fn layer(name: &str, data: Option<Vec<usize>>, objects: Option<Vec<Location>>) -> Layer {
    Layer { name: name.to_string(), data, collision: None, objects }
}

#[test]
fn map_data_reads_layers() {
    let temp = TempMapData {
        width: 2,
        height: 1,
        tileheight: 32,
        tilewidth: 32,
        layers: vec![
            layer("terrain", Some(vec![1, 66]), None),
            layer("collision", Some(vec![134, 143]), None),
            layer("start_locations", None, Some(vec![Location { x: 64, y: 96 }])),
            layer("prime_nodes", None, Some(vec![Location { x: 33, y: 0 }])),
            layer("decoration", Some(vec![5]), None),
        ],
    };
    let map = MapData::new(temp);
    assert_eq!(map.width_and_height(), (2, 1));
    assert_eq!(map.collisions().clone(), vec![1, 0]);
    // Tile 66 on a sheet 2048 / 32 = 64 tiles wide is column 1 of row 1.
    let bytes = map.encode();
    assert_eq!(
        bytes,
        vec![
            0, 2, 0, 1, // width and height
            0, 0, 1, 1, // tiles
            1, 0, // collisions
            1, 0, 2, 0, 3, // one start location at (2, 3)
            0, 0, 0, 1, 0, 1, 0, 0, // one prime node at (1, 0)
        ]
    );
    assert_eq!(Location { x: 4, y: 5 }.xy(), (4, 5));
}

#[test]
fn unreadable_maps_are_recognised() {
    let map = |tw: usize, layers: Vec<Layer>| TempMapData { width: 1, height: 1, tileheight: tw, tilewidth: tw, layers };
    assert!(map_readable(&map(32, vec![layer("terrain", Some(vec![1]), None), layer("collision", Some(vec![140]), None)])));
    assert!(!map_readable(&map(0, vec![])));
    assert!(!map_readable(&map(32, vec![layer("terrain", Some(vec![0]), None)])));
    assert!(!map_readable(&map(4096, vec![layer("terrain", Some(vec![1]), None)])));
    assert!(map_readable(&map(4096, vec![layer("terrain", Some(vec![]), None)])));
    assert!(!map_readable(&map(32, vec![layer("collision", Some(vec![134, 7]), None)])));
    assert!(map_readable(&map(32, vec![layer("other", Some(vec![0, 7]), None)])));
}

#[test]
fn uid_mapping_keeps_ids_across_calls() {
    let mut m = UIDMapping::<UnitTypeID>::new(2);
    let ask = |m: &mut UIDMapping<UnitTypeID>, s: &str| m.name_to_id(s.to_string()).map(|t| t.usize_unwrap());
    assert_eq!(ask(&mut m, "a"), Some(0));
    assert_eq!(ask(&mut m, "b"), Some(1));
    assert_eq!(ask(&mut m, "a"), Some(0));
    assert_eq!(ask(&mut m, "c"), None);
    assert_eq!(ask(&mut m, "b"), Some(1));
    assert_eq!(ask(&mut m, "c"), None);
}

#[test]
fn uid_pool_tracks_ids_across_calls() {
    let mut p = UIDPool::<UnitTypeID>::new(3);
    let ids = |p: &UIDPool<UnitTypeID>| p.iter().iter().map(|t| t.usize_unwrap()).collect::<Vec<usize>>();
    assert_eq!(p.get_id().map(|t| t.usize_unwrap()), Some(0));
    assert_eq!(p.get_id().map(|t| t.usize_unwrap()), Some(1));
    p.put_id(UnitTypeID::usize_wrap(0));
    assert_eq!(ids(&p), vec![1]);
    assert_eq!(p.get_id().map(|t| t.usize_unwrap()), Some(2));
    assert_eq!(p.get_id().map(|t| t.usize_unwrap()), Some(0));
    assert_eq!(ids(&p), vec![0, 1, 2]);
    assert!(p.get_id().is_none());
    assert_eq!(ids(&p), vec![0, 1, 2]);
}
