use call_to_exist_gui_lib::decimal::{parse_usize, to_decimal};
use call_to_exist_gui_lib::enums::{DataStorage, DataType, RowData, NodeType, duplicate_cell};
use call_to_exist_gui_lib::hash::calculate_hash;

#[test]
fn writes_numbers_in_decimal() {
    assert_eq!(to_decimal(0), b"0".to_vec());
    assert_eq!(to_decimal(7), b"7".to_vec());
    assert_eq!(to_decimal(1024), b"1024".to_vec());
    assert_eq!(to_decimal(u64::MAX), b"18446744073709551615".to_vec());
}

#[test]
fn parses_keys_as_the_standard_library_does() {
    assert_eq!(parse_usize(&b"42".to_vec()), Some(42));
    assert_eq!(parse_usize(&b"+42".to_vec()), Some(42));
    assert_eq!(parse_usize(&b"007".to_vec()), Some(7));
    assert_eq!(parse_usize(&b"".to_vec()), None);
    assert_eq!(parse_usize(&b"+".to_vec()), None);
    assert_eq!(parse_usize(&b"-1".to_vec()), None);
    assert_eq!(parse_usize(&b"4a".to_vec()), None);
    assert_eq!(parse_usize(&b"99999999999999999999999".to_vec()), None);
    for s in ["0", "+5", "12", "18446744073709551615", "x", " 1"] {
        assert_eq!(parse_usize(&s.as_bytes().to_vec()), s.parse::<usize>().ok());
    }
}

#[test]
fn decimal_round_trip() {
    for n in [0u64, 1, 9, 10, 99, 100, 123456789, 4294967296] {
        assert_eq!(parse_usize(&to_decimal(n)), Some(n as usize));
    }
}

#[test]
fn hashes_strings_with_wrapping_arithmetic() {
    assert_eq!(calculate_hash(&b"".to_vec()), 0);
    assert_eq!(calculate_hash(&b"abc".to_vec()), 112371);
    assert_eq!(calculate_hash(&b"sh_custom.pac".to_vec()), 3920857436);
    assert_eq!(calculate_hash(&vec![b'a'; 20]), 2589774350);
}

#[test]
fn storage_and_type_codes() {
    assert_eq!(DataStorage::STORAGE_MASK.code(), 0xF0);
    assert_eq!(DataStorage::STORAGE_NONE.code(), 0x00);
    assert_eq!(DataStorage::STORAGE_ZERO.code(), 0x10);
    assert_eq!(DataStorage::STORAGE_CONSTANT.code(), 0x30);
    assert_eq!(DataStorage::STORAGE_PERROW.code(), 0x50);
    assert_eq!(DataType::DATATYPE_MASK.code(), 0x0F);
    assert_eq!(DataType::UINT8.code(), 0);
    assert_eq!(DataType::UINT16_1.code(), 3);
    assert_eq!(DataType::UINT64_1.code(), 7);
    assert_eq!(DataType::FLOAT.code(), 8);
    assert_eq!(DataType::STRING.code(), 0xA);
    assert_eq!(DataType::BYTEARRAY.code(), 0xB);
}

#[test]
fn cells_are_copied_whole() {
    let c = Some(RowData::String(b"DirName".to_vec()));
    assert_eq!(duplicate_cell(&c), c);
    assert_eq!(duplicate_cell(&None), None);
    assert_eq!(RowData::Float(0x3F80_0000).duplicate(), RowData::Float(0x3F80_0000));
    let f = NodeType::File { file_offset: 1, file_size: 2, extract_size: 3 };
    assert_ne!(f, NodeType::Folder);
}
