use call_to_exist_gui_lib::cursor::ByteCursor;
use call_to_exist_gui_lib::enums::RowData;
use call_to_exist_gui_lib::error::FormatError;
use call_to_exist_gui_lib::utf::{read_table, UTFPacket};

struct Strings {
    bytes: Vec<u8>,
}

impl Strings {
    fn new() -> Self {
        Strings { bytes: b"<NULL>\0".to_vec() }
    }

    fn add(&mut self, s: &[u8]) -> u32 {
        let o = self.bytes.len() as u32;
        self.bytes.extend_from_slice(s);
        self.bytes.push(0);
        o
    }
}

fn def(flag: u8, name: u32, constant: &[u8]) -> Vec<u8> {
    let mut v = vec![flag];
    v.extend_from_slice(&name.to_be_bytes());
    v.extend_from_slice(constant);
    v
}

fn table(defs: &[Vec<u8>], rows: &[Vec<u8>], row_length: u16, strings: &Strings, data: &[u8]) -> Vec<u8> {
    let defs_bytes: Vec<u8> = defs.concat();
    let rows_start = 32 + defs_bytes.len();
    let strings_start = rows_start + rows.len() * row_length as usize;
    let data_start = strings_start + strings.bytes.len();
    let total = data_start + data.len();
    let mut v = b"@UTF".to_vec();
    v.extend_from_slice(&((total - 8) as u32).to_be_bytes());
    v.extend_from_slice(&((rows_start - 8) as u32).to_be_bytes());
    v.extend_from_slice(&((strings_start - 8) as u32).to_be_bytes());
    v.extend_from_slice(&((data_start - 8) as u32).to_be_bytes());
    v.extend_from_slice(&0u32.to_be_bytes());
    v.extend_from_slice(&(defs.len() as u16).to_be_bytes());
    v.extend_from_slice(&row_length.to_be_bytes());
    v.extend_from_slice(&(rows.len() as u32).to_be_bytes());
    v.extend_from_slice(&defs_bytes);
    for r in rows {
        assert_eq!(r.len(), row_length as usize);
        v.extend_from_slice(r);
    }
    v.extend_from_slice(&strings.bytes);
    v.extend_from_slice(data);
    v
}

fn sample() -> (Vec<u8>, usize) {
    let mut s = Strings::new();
    let names: Vec<u32> = ["DirName", "FileName", "FileSize", "ExtractSize", "FileOffset", "ID", "Zero", "Empty"]
        .iter()
        .map(|n| s.add(n.as_bytes()))
        .collect();
    let defs = vec![
        def(0x5A, names[0], &[]),
        def(0x5A, names[1], &[]),
        def(0x55, names[2], &[]),
        def(0x55, names[3], &[]),
        def(0x57, names[4], &[]),
        def(0x35, names[5], &9u32.to_be_bytes()),
        def(0x15, names[6], &[]),
        def(0x05, names[7], &[]),
    ];
    let mut row = |dir: &[u8], file: &[u8], size: u32, extract: u32, offset: u64| {
        let mut r = s.add(dir).to_be_bytes().to_vec();
        r.extend_from_slice(&s.add(file).to_be_bytes());
        r.extend_from_slice(&size.to_be_bytes());
        r.extend_from_slice(&extract.to_be_bytes());
        r.extend_from_slice(&offset.to_be_bytes());
        r
    };
    let rows = vec![row(b"data/sub", b"a.bin", 16, 16, 0x800), row(b"data", b"b.bin", 5, 7, 0x900)];
    let defs_len: usize = defs.iter().map(|d| d.len()).sum();
    (table(&defs, &rows, 24, &s, &[]), 32 + defs_len)
}

fn string(s: &[u8]) -> Option<RowData> {
    Some(RowData::String(s.to_vec()))
}

#[test]
fn reads_a_whole_table() {
    let (bytes, rows_start) = sample();
    let t: UTFPacket = read_table(&bytes).unwrap();
    assert_eq!(t.magic, u32::from_be_bytes(*b"@UTF"));
    assert_eq!(t.ColumnsNumber, 8);
    assert_eq!(t.RowLength, 24);
    assert_eq!(t.RowsNumber, 2);
    assert_eq!(t.RowsOffset as usize, rows_start);
    assert_eq!(t.UTFRowsOffsets, vec![rows_start as u64, rows_start as u64 + 24]);
    assert_eq!(t.UTFColumns.len(), 8);
    assert_eq!(t.UTFColumns[5].flag, 0x35);
    assert_eq!(t.UTFColumns[5].index, 5);
    assert_eq!(t.UTFColumns[5].column_constant_value, Some(RowData::UInt32(9)));
    let names: Vec<Vec<u8>> = t.column_instances.iter().map(|c| c.Name.clone()).collect();
    assert_eq!(names[0], b"DirName".to_vec());
    assert_eq!(names[7], b"Empty".to_vec());
    assert_eq!(t.column_instances[4].DataStorage, 0x50);
    assert_eq!(t.column_instances[4].DataType, 7);
    assert_eq!(
        t.UTFRowsData[0],
        vec![
            string(b"data/sub"),
            string(b"a.bin"),
            Some(RowData::UInt32(16)),
            Some(RowData::UInt32(16)),
            Some(RowData::UInt64(0x800)),
            Some(RowData::UInt32(9)),
            Some(RowData::UInt8(0)),
            None,
        ]
    );
    assert_eq!(t.UTFRowsData[1][1], string(b"b.bin"));
    assert_eq!(t.UTFRowsData[1][3], Some(RowData::UInt32(7)));
}

#[test]
fn every_row_holds_one_cell_per_column() {
    let (bytes, _) = sample();
    let t = read_table(&bytes).unwrap();
    assert_eq!(t.UTFRowsData.len(), t.RowsNumber as usize);
    assert_eq!(t.UTFRowsOffsets.len(), t.RowsNumber as usize);
    assert_eq!(t.column_instances.len(), t.ColumnsNumber as usize);
    for row in &t.UTFRowsData {
        assert_eq!(row.len(), t.ColumnsNumber as usize);
    }
}

#[test]
fn reads_the_table_step_by_step() {
    let (bytes, _) = sample();
    let mut c = ByteCursor::new(&bytes);
    let mut t = UTFPacket::build(&mut c).unwrap();
    assert_eq!(c.position(), 32);
    assert!(t.UTFColumns.is_empty());
    t.read_column_definition(&mut c).unwrap();
    assert_eq!(t.UTFColumns.len(), 8);
    t.read_rows(&mut c).unwrap();
    assert_eq!(t.UTFRowsOffsets.len(), 2);
    t.parse_decrypted_packet(&mut c).unwrap();
    assert_eq!(t.UTFRowsData.len(), 2);
}

#[test]
fn parses_each_cell_type() {
    let mut s = Strings::new();
    let text = s.add(b"hello");
    let mut bytes = vec![0u8; 16];
    bytes[0] = 0xAB;
    bytes[1..3].copy_from_slice(&0x1234u16.to_be_bytes());
    bytes[3..7].copy_from_slice(&0x3F80_0000u32.to_be_bytes());
    bytes[7..11].copy_from_slice(&text.to_be_bytes());
    let mut whole = table(&[], &[], 0, &s, b"xyzw");
    let base = whole.len();
    whole.extend_from_slice(&bytes);
    let mut blob = 1u32.to_be_bytes().to_vec();
    blob.extend_from_slice(&2u32.to_be_bytes());
    whole.extend_from_slice(&blob);
    let t = read_table(&whole).unwrap();
    let mut c = ByteCursor::at(&whole, base as u64);
    assert_eq!(t.parse_row_data(&mut c, 1), Ok(RowData::UInt8(0xAB)));
    assert_eq!(t.parse_row_data(&mut c, 2), Ok(RowData::UInt16(0x1234)));
    assert_eq!(t.parse_row_data(&mut c, 8), Ok(RowData::Float(0x3F80_0000)));
    assert_eq!(t.parse_row_data(&mut c, 0xA), Ok(RowData::String(b"hello".to_vec())));
    assert_eq!(c.position(), base as u64 + 11);
    c.seek_to((base + 16) as u64);
    assert_eq!(t.parse_row_data(&mut c, 0xB), Ok(RowData::ByteArray(b"yz".to_vec())));
    assert_eq!(c.position(), (base + 24) as u64);
    let mut end = ByteCursor::at(&whole, whole.len() as u64);
    assert_eq!(t.parse_row_data(&mut end, 6), Err(FormatError::UnexpectedEof));
}

#[test]
fn zero_flag_is_followed_by_the_real_flag() {
    let mut s = Strings::new();
    let name = s.add(b"Value");
    let mut d = vec![0u8, 0, 0, 0, 0x54];
    d.extend_from_slice(&name.to_be_bytes());
    let bytes = table(&[d], &[7u32.to_be_bytes().to_vec()], 4, &s, &[]);
    let t = read_table(&bytes).unwrap();
    assert_eq!(t.UTFColumns[0].flag, 0x54);
    assert_eq!(t.UTFRowsData[0], vec![Some(RowData::UInt32(7))]);
}

#[test]
fn unknown_codes_are_refused() {
    let mut s = Strings::new();
    let name = s.add(b"Odd");
    let bytes = table(&[def(0x5C, name, &[])], &[vec![0u8; 4]], 4, &s, &[]);
    assert_eq!(read_table(&bytes).err(), Some(FormatError::UnknownDataType(0xC)));
    let bytes = table(&[def(0x74, name, &[])], &[vec![0u8; 4]], 4, &s, &[]);
    assert_eq!(read_table(&bytes).err(), Some(FormatError::UnknownDataStorage(0x70)));
}

#[test]
fn broken_tables_are_refused() {
    let (bytes, _) = sample();
    assert_eq!(read_table(&bytes[..20]).err(), Some(FormatError::UnexpectedEof));
    let mut big = bytes.clone();
    big[8..12].copy_from_slice(&0xFFFF_FFFFu32.to_be_bytes());
    assert_eq!(read_table(&big).err(), Some(FormatError::Overflow));
    let mut s = Strings::new();
    let name = s.add(&[0xFF, 0xFE]);
    let bad = table(&[def(0x55, name, &[])], &[], 4, &s, &[]);
    assert_eq!(read_table(&bad).err(), Some(FormatError::InvalidUtf8));
    let cut = &bytes[..bytes.len() - 3];
    assert_eq!(read_table(cut).err(), Some(FormatError::UnexpectedEof));
}
