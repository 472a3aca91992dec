use byteorder::{BigEndian, WriteBytesExt};
use rts_server::netcom::name_and_pass;

#[test]
fn name_and_pass_test() {
    let mut vec = Vec::new();
    let name_str = "Zach".to_string();
    let name_vec = name_str.as_bytes().to_vec();
    let pass_str = "Hoodabaga".to_string();
    let pass_vec = pass_str.as_bytes().to_vec();

    let _ = vec.write_u16::<BigEndian>(name_str.len() as u16);
    let _ = vec.extend(name_vec);

    let _ = vec.write_u16::<BigEndian>(pass_str.len() as u16);
    let _ = vec.extend(pass_vec);

    match name_and_pass(&vec) {
        Some((name, pass)) => assert!(name == name_str && pass == pass_str),
        None => println!("Failure!"),
    }
}

#[test]
fn name_and_pass_rejects_invalid_utf8() {
    let vec: Vec<u8> = vec![0, 2, 0xff, 0xfe, 0, 1, b'a'];
    assert_eq!(name_and_pass(&vec), None);
}

#[test]
fn name_and_pass_truncates_to_buffer() {
    // The password announces five bytes but only three follow.
    let vec: Vec<u8> = vec![0, 1, b'x', 0, 5, b'a', b'b', b'c'];
    assert_eq!(name_and_pass(&vec), Some(("x".to_string(), "abc".to_string())));
}
