use call_to_exist_gui_lib::cursor::{check_utf8, decode_text, trim_zeros, read_bytes, read_cstring, read_u16, read_u32, read_u64, read_u8, ByteCursor, ByteOrder};
use call_to_exist_gui_lib::error::FormatError;

#[test]
fn reads_integers_in_both_byte_orders() {
    let data = [0x12u8, 0x34, 0x56, 0x78, 0x9A, 0xBC, 0xDE, 0xF0];
    let mut c = ByteCursor::new(&data);
    assert_eq!(read_u16(&mut c, ByteOrder::Big), 0x1234);
    assert_eq!(c.position(), 2);
    let mut c = ByteCursor::new(&data);
    assert_eq!(read_u16(&mut c, ByteOrder::Little), 0x3412);
    let mut c = ByteCursor::new(&data);
    assert_eq!(read_u32(&mut c, ByteOrder::Big), 0x12345678);
    let mut c = ByteCursor::new(&data);
    assert_eq!(read_u32(&mut c, ByteOrder::Little), 0x78563412);
    let mut c = ByteCursor::new(&data);
    assert_eq!(read_u64(&mut c, ByteOrder::Big), 0x123456789ABCDEF0);
    let mut c = ByteCursor::new(&data);
    assert_eq!(read_u64(&mut c, ByteOrder::Little), 0xF0DEBC9A78563412);
    assert_eq!(c.position(), 8);
    let mut c = ByteCursor::new(&data);
    assert_eq!(read_u8(&mut c, ByteOrder::Big), 0x12);
}

#[test]
fn reads_bytes_and_strings() {
    let data = b"abc\0def";
    let mut c = ByteCursor::new(data);
    assert_eq!(read_cstring(&mut c), Ok(b"abc".to_vec()));
    assert_eq!(c.position(), 4);
    assert_eq!(read_bytes(&mut c, 3), b"def".to_vec());
    assert_eq!(read_cstring(&mut c), Err(FormatError::UnexpectedEof));
    let bad = [0xFFu8, 0x00];
    let mut c = ByteCursor::new(&bad);
    assert_eq!(read_cstring(&mut c), Err(FormatError::InvalidUtf8));
    assert_eq!(c.position(), 0);
}

#[test]
fn cursor_positions_and_skips() {
    let data = [1u8, 2, 3, 4];
    let mut c = ByteCursor::at(&data, 3);
    assert_eq!(c.position(), 3);
    assert_eq!(c.remaining(), 1);
    c.seek_to(10);
    assert_eq!(c.remaining(), 0);
    assert_eq!(c.skip(5), Ok(()));
    assert_eq!(c.position(), 15);
    c.seek_to(u64::MAX - 1);
    assert_eq!(c.skip(2), Err(FormatError::Overflow));
    assert_eq!(c.position(), u64::MAX - 1);
    assert!(check_utf8(&"héllo".as_bytes().to_vec()));
    assert!(!check_utf8(&vec![0xC3u8]));
}

#[test]
fn trims_trailing_zero_bytes() {
    assert_eq!(trim_zeros(b"MESH".to_vec()), b"MESH".to_vec());
    assert_eq!(trim_zeros(b"TX\0\0".to_vec()), b"TX".to_vec());
    assert_eq!(trim_zeros(b"a\0b\0".to_vec()), b"a\0b".to_vec());
    assert_eq!(trim_zeros(vec![0u8, 0, 0]), Vec::<u8>::new());
}

#[test]
fn empty_read_succeeds_past_the_end() {
    let data = [7u8];
    let mut c = ByteCursor::at(&data, 5);
    assert_eq!(read_bytes(&mut c, 0), Vec::<u8>::new());
    assert_eq!(c.position(), 5);
}

#[test]
fn decodes_fixed_size_text_fields() {
    assert_eq!(decode_text(b"MESH".to_vec()), b"MESH".to_vec());
    assert_eq!(decode_text(b"ab\0\0".to_vec()), b"ab".to_vec());
    assert_eq!(decode_text(vec![b'x', 0xC3, 0, 0]), "x\u{FFFD}".as_bytes().to_vec());
}
