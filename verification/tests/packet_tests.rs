use call_to_exist_gui_lib::cursor::ByteCursor;
use call_to_exist_gui_lib::error::FormatError;
use call_to_exist_gui_lib::packet::Packet;

fn packet_bytes(magic: &[u8; 4], mode: u32, payload: &[u8]) -> Vec<u8> {
    let mut v = magic.to_vec();
    v.extend_from_slice(&mode.to_le_bytes());
    v.extend_from_slice(&(payload.len() as u64).to_le_bytes());
    v.extend_from_slice(payload);
    v
}

#[test]
fn builds_a_packet_from_its_header() {
    let bytes = packet_bytes(b"CPK ", 1, b"hello");
    let mut c = ByteCursor::new(&bytes);
    let p = Packet::build(&mut c).unwrap();
    assert_eq!(p.magic, u32::from_le_bytes(*b"CPK "));
    assert_eq!(p.packet_mode, 1);
    assert_eq!(p.packet_size, 5);
    assert_eq!(p.packet_data, b"hello".to_vec());
    assert_eq!(c.position(), 21);
}

#[test]
fn short_packet_is_refused() {
    let mut bytes = packet_bytes(b"TOC ", 1, b"hello");
    bytes.pop();
    let mut c = ByteCursor::new(&bytes);
    assert_eq!(Packet::build(&mut c).err(), Some(FormatError::UnexpectedEof));
    let header_only = [0u8; 10];
    let mut c = ByteCursor::new(&header_only);
    assert_eq!(Packet::build(&mut c).err(), Some(FormatError::UnexpectedEof));
}

#[test]
fn decrypt_applies_the_key_stream_in_mode_zero() {
    let bytes = packet_bytes(b"CPK ", 0, &[0u8; 6]);
    let mut c = ByteCursor::new(&bytes);
    let mut p = Packet::build(&mut c).unwrap();
    p.decrypt();
    assert_eq!(p.packet_data, vec![0x5F, 0xCB, 0xA7, 0xB3, 0xAF, 0x5B]);
    assert_eq!(p.packet_mode, 0);
}

#[test]
fn decrypt_twice_restores_the_payload() {
    let payload = b"@UTF some table bytes".to_vec();
    let bytes = packet_bytes(b"CPK ", 0, &payload);
    let mut c = ByteCursor::new(&bytes);
    let mut p = Packet::build(&mut c).unwrap();
    p.decrypt();
    assert_ne!(p.packet_data, payload);
    p.decrypt();
    assert_eq!(p.packet_data, payload);
}

#[test]
fn decrypt_leaves_other_modes_alone() {
    let bytes = packet_bytes(b"CPK ", 0xFF, b"plain");
    let mut c = ByteCursor::new(&bytes);
    let mut p = Packet::build(&mut c).unwrap();
    p.decrypt();
    assert_eq!(p.packet_data, b"plain".to_vec());
}
