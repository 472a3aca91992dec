use rts_server::data::uid_types::USizeWrapper;
use rts_server::libs::netcom::{get_messages, lookup, Incoming, Netcom, Outcome, Player};
use rts_server::netcom::{self as ws_netcom, matching_teams};
use rts_server::units::missile_list::{self, MissileType};
use rts_server::units::weapon_list::{self, WeaponType};

fn roster() -> Vec<(String, String, usize)> {
    vec![
        ("p1".to_string(), "p1".to_string(), 0),
        ("p2".to_string(), "p2".to_string(), 0),
        ("p3".to_string(), "p3".to_string(), 1),
        ("p4".to_string(), "p4".to_string(), 1),
    ]
}

fn text(s: &str) -> Incoming {
    Incoming::Text(s.to_string())
}

#[test]
fn lookup_finds_the_last_entry_under_a_name() {
    let mut r = roster();
    r.push(("p1".to_string(), "other".to_string(), 7));
    assert_eq!(lookup(&r, &"p1".to_string()), Some(("other".to_string(), 7)));
    assert_eq!(lookup(&r, &"p3".to_string()), Some(("p3".to_string(), 1)));
    assert_eq!(lookup(&r, &"nobody".to_string()), None);
}

#[test]
fn login_with_the_right_password_is_accepted() {
    let r = roster();
    let mut p = Player::new();
    assert!(matches!(p.on_message(text("p3"), &r), Outcome::Continue));
    assert!(p.has_name && !p.has_pass && !p.verified);
    assert!(matches!(p.on_message(text("p3"), &r), Outcome::Accept));
    assert!(p.verified);
    assert_eq!(p.team, 1);
    match p.on_message(text("hello"), &r) {
        Outcome::Show(t) => assert_eq!(t, "hello"),
        _ => panic!("a verified player's text is shown"),
    }
    match p.on_message(Incoming::Binary(vec![1, 2, 3]), &r) {
        Outcome::Queue(b) => assert_eq!(b, vec![1, 2, 3]),
        _ => panic!("a verified player's bytes are queued"),
    }
    assert_eq!(p.name, "p3");
    assert_eq!(p.pass, "p3");
}

#[test]
fn login_with_a_wrong_password_fails() {
    let r = roster();
    let mut p = Player::new();
    let _ = p.on_message(text("p2"), &r);
    assert!(matches!(p.on_message(text("nope"), &r), Outcome::WrongPassword));
    assert!(!p.verified);
    assert!(matches!(p.on_message(text("again"), &r), Outcome::WrongPassword));
    assert_eq!(p.pass, "nope");
}

#[test]
fn login_with_an_unknown_name_fails() {
    let r = roster();
    let mut p = Player::new();
    let _ = p.on_message(text("ghost"), &r);
    assert!(matches!(p.on_message(text("p1"), &r), Outcome::UnknownPlayer));
    assert!(!p.verified);
}

#[test]
fn bytes_before_login_are_refused() {
    let r = roster();
    let mut p = Player::new();
    assert!(matches!(p.on_message(Incoming::Binary(vec![9]), &r), Outcome::NotVerified));
    let _ = p.on_message(text("p1"), &r);
    assert!(matches!(p.on_message(Incoming::Binary(vec![9]), &r), Outcome::NotVerified));
}

#[test]
fn connected_players_are_kept_by_name() {
    let mut net: Netcom<u32> = Netcom::new();
    net.connect("a".to_string(), 0, 10);
    net.connect("b".to_string(), 1, 20);
    net.connect("c".to_string(), 0, 30);
    net.connect("a".to_string(), 1, 40);
    assert_eq!(net.len(), 3);
    assert_eq!(net.player(0), &("a".to_string(), 1, 40));
    assert_eq!(net.player_index(&"c".to_string()), Some(2));
    assert_eq!(net.team_members(1), vec![0, 1]);
    assert_eq!(net.team_members(0), vec![2]);
    net.remove_player(&"b".to_string());
    assert_eq!(net.len(), 2);
    assert_eq!(net.player_index(&"b".to_string()), None);
    assert_eq!(net.player(1), &("c".to_string(), 0, 30));
    net.remove_player(&"zzz".to_string());
    assert_eq!(net.len(), 2);
}

#[test]
fn messages_are_taken_oldest_first() {
    let mut net: Netcom<u32> = Netcom::new();
    net.push_message("a".to_string(), 0, vec![1]);
    net.push_message("b".to_string(), 1, vec![2, 3]);
    let got = get_messages(&mut net);
    assert_eq!(got, vec![("a".to_string(), 0, vec![1]), ("b".to_string(), 1, vec![2, 3])]);
    assert!(get_messages(&mut net).is_empty());
}

#[test]
fn greeting_matches_roster_entries() {
    let mut r = roster();
    r.push(("p3".to_string(), "p3".to_string(), 5));
    assert_eq!(matching_teams(&r, &"p3".to_string(), &"p3".to_string()), vec![1, 5]);
    assert!(matching_teams(&r, &"p3".to_string(), &"bad".to_string()).is_empty());
}

#[test]
fn websocket_messages_are_taken_oldest_first() {
    let mut net: ws_netcom::Netcom<()> = ws_netcom::Netcom::new();
    net.add_player(ws_netcom::Player { name: "p1".to_string(), pass: "p1".to_string(), team: 0, client: () });
    net.push_message("p1".to_string(), 0, vec![4]);
    assert_eq!(ws_netcom::get_messages(&mut net), vec![("p1".to_string(), 0, vec![4])]);
    assert!(ws_netcom::get_messages(&mut net).is_empty());
    assert_eq!(net.len(), 1);
    assert_eq!(net.player(0).team, 0);
}

#[test]
fn kinds_have_their_declaration_order_as_id() {
    assert_eq!(missile_list::id(MissileType::Fast1).usize_unwrap(), 0);
    assert_eq!(missile_list::id(MissileType::Medium1).usize_unwrap(), 1);
    assert_eq!(missile_list::id(MissileType::Artillery1).usize_unwrap(), 2);
    assert_eq!(weapon_list::id(WeaponType::TestUnit).usize_unwrap(), 0);
    assert_eq!(weapon_list::id(WeaponType::TestStructure).usize_unwrap(), 1);
}
