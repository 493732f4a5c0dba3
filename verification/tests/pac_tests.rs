use call_to_exist_gui_lib::cpk::DataTableRow;
use call_to_exist_gui_lib::cursor::ByteCursor;
use call_to_exist_gui_lib::enums::NodeType;
use call_to_exist_gui_lib::error::FormatError;
use call_to_exist_gui_lib::extract::pac_output_name;
use call_to_exist_gui_lib::pac::{
    build_table_pac, build_tree_pac, extract_pac, open_pac, pac_entries, PACFileHeader, PacEntry, PAC,
};
use call_to_exist_gui_lib::tree::{count_files, TreeNode};

fn put(v: &mut Vec<u8>, at: usize, bytes: &[u8]) {
    if v.len() < at + bytes.len() {
        v.resize(at + bytes.len(), 0);
    }
    v[at..at + bytes.len()].copy_from_slice(bytes);
}

fn file_header(v: &mut Vec<u8>, at: usize, kind: &[u8], id: u16, file_id: u16, name: &[u8]) {
    put(v, at, kind);
    put(v, at + 4, &id.to_le_bytes());
    put(v, at + 6, &file_id.to_le_bytes());
    put(v, at + 14, &(name.len() as u16).to_le_bytes());
    put(v, at + 20, name);
}

/// An archive without the extra header: two files, records at 128 and 136.
fn plain_archive() -> Vec<u8> {
    let mut v = Vec::new();
    put(&mut v, 0, &4411969u32.to_le_bytes());
    put(&mut v, 6, &2u16.to_le_bytes());
    put(&mut v, 8, &77u64.to_le_bytes());
    put(&mut v, 16, b"pl00_archive");
    put(&mut v, 48, &128u32.to_le_bytes());
    put(&mut v, 52, &136u32.to_le_bytes());
    file_header(&mut v, 64, b"TEX\0", 1, 10, b"a.tex\0");
    file_header(&mut v, 96, b"MDL\0", 2, 11, b"b.mdl");
    put(&mut v, 128, &4u32.to_le_bytes());
    put(&mut v, 132, &32u32.to_le_bytes());
    put(&mut v, 136, &3u32.to_le_bytes());
    put(&mut v, 140, &32u32.to_le_bytes());
    put(&mut v, 160, b"DATA");
    put(&mut v, 168, b"xyz");
    v
}

/// The same files behind the extra header: offsets are stored 8 less.
fn extra_archive() -> Vec<u8> {
    let mut v = Vec::new();
    put(&mut v, 0, &1380011330u32.to_le_bytes());
    put(&mut v, 4, &5u32.to_le_bytes());
    put(&mut v, 8, &4411969u32.to_le_bytes());
    put(&mut v, 14, &1u16.to_le_bytes());
    put(&mut v, 16, &1u64.to_le_bytes());
    put(&mut v, 24, b"ex");
    put(&mut v, 56, &(96u32 - 8).to_le_bytes());
    file_header(&mut v, 64, b"SND\0", 3, 12, b"c.snd");
    put(&mut v, 96, &2u32.to_le_bytes());
    put(&mut v, 100, &8u32.to_le_bytes());
    put(&mut v, 104, b"ok");
    v
}

#[test]
fn opens_an_archive_head_and_file_headers() {
    let data = plain_archive();
    let (pac, headers): (PAC, Vec<PACFileHeader>) = open_pac(&data).unwrap();
    assert_eq!(pac.magic, 4411969);
    assert_eq!(pac.get_file_num(), 2);
    assert_eq!(pac.file_num1, 77);
    assert_eq!(pac.get_archive_name(), b"pl00_archive".to_vec());
    assert_eq!(pac.get_offsets(), vec![128, 136]);
    assert!(!pac.has_extra_header);
    assert_eq!(headers.len(), 2);
    assert_eq!(headers[0].get_contained_type(), b"TEX".to_vec());
    assert_eq!(headers[0].get_contained_id(), 1);
    assert_eq!(headers[0].get_file_id(), 10);
    assert_eq!(headers[0].filename_length, 6);
    assert_eq!(headers[0].get_filename(), b"a.tex".to_vec());
    assert_eq!(headers[1].get_filename(), b"b.mdl".to_vec());
}

#[test]
fn reads_step_by_step_with_alignment() {
    let data = plain_archive();
    let mut c = ByteCursor::new(&data);
    let pac = PAC::build(&mut c).unwrap();
    assert_eq!(c.position(), 64);
    let h = PACFileHeader::build(&mut c, pac.has_extra_header).unwrap();
    assert_eq!(h.file_id, 10);
    assert_eq!(c.position(), 96);
    let h = PACFileHeader::build(&mut c, pac.has_extra_header).unwrap();
    assert_eq!(h.file_id, 11);
    assert_eq!(c.position(), 128);
}

#[test]
fn the_extra_header_shifts_offsets_and_alignment() {
    let data = extra_archive();
    let mut c = ByteCursor::new(&data);
    let pac = PAC::build(&mut c).unwrap();
    assert!(pac.has_extra_header);
    assert_eq!(pac.magic, 4411969);
    assert_eq!(pac.offsets, vec![96]);
    assert_eq!(pac.archive_name, b"ex".to_vec());
    assert_eq!(c.position(), 64);
    let (pac, headers) = open_pac(&data).unwrap();
    let entries = pac_entries(&data, &pac, &headers).unwrap();
    assert_eq!(entries[0].file_offset, 104);
    assert_eq!(entries[0].file_size, 2);
    let mut c = ByteCursor::at(&data, 64);
    let _ = PACFileHeader::build(&mut c, true).unwrap();
    assert_eq!(c.position(), 96);
}

#[test]
fn locates_the_files() {
    let data = plain_archive();
    let (pac, headers) = open_pac(&data).unwrap();
    let entries: Vec<PacEntry> = pac_entries(&data, &pac, &headers).unwrap();
    assert_eq!(entries.len(), 2);
    assert_eq!(entries[0].file_size, 4);
    assert_eq!(entries[0].file_offset, 160);
    assert_eq!(entries[0].file_id, 10);
    assert_eq!(entries[0].filename, b"a.tex".to_vec());
    assert_eq!(entries[0].contained_type, b"TEX".to_vec());
    assert_eq!(entries[1].file_offset, 168);
    let one = vec![headers[0].clone()];
    assert_eq!(pac_entries(&data, &pac, &one).unwrap().len(), 1);
}

#[test]
fn builds_the_tree_and_extracts() {
    let data = plain_archive();
    let (pac, headers) = open_pac(&data).unwrap();
    let entries = pac_entries(&data, &pac, &headers).unwrap();
    let path = b"dir/pl00.pac".to_vec();
    let mut tree: Vec<TreeNode> = Vec::new();
    build_tree_pac(&mut tree, &entries, &path);
    assert_eq!(tree.len(), 2);
    assert_eq!(tree[0].key, b"dir/pl00.pac:10".to_vec());
    assert_eq!(tree[0].label, b"a.tex".to_vec());
    assert_eq!(tree[0].node_type, NodeType::File { file_offset: 160, file_size: 4, extract_size: 0 });
    assert_eq!(tree[0].contained_type, b"TEX".to_vec());
    assert_eq!(tree[1].key, b"dir/pl00.pac:11".to_vec());
    assert_eq!(count_files(&tree), 2);
    assert_eq!(extract_pac(&data, &tree[0]), Ok(b"DATA".to_vec()));
    assert_eq!(extract_pac(&data, &tree[1]), Ok(b"xyz".to_vec()));
    assert_eq!(pac_output_name(&tree[0]), b"a.tex_TEX".to_vec());
    assert_eq!(pac_output_name(&tree[1]), b"b.mdl_MDL".to_vec());
}

#[test]
fn opening_the_same_pac_twice_adds_nothing() {
    let data = plain_archive();
    let (pac, headers) = open_pac(&data).unwrap();
    let entries = pac_entries(&data, &pac, &headers).unwrap();
    let path = b"pl00.pac".to_vec();
    let mut tree = Vec::new();
    let mut rows: Vec<DataTableRow> = Vec::new();
    build_tree_pac(&mut tree, &entries, &path);
    build_table_pac(&mut rows, &entries, &path);
    build_tree_pac(&mut tree, &entries, &path);
    build_table_pac(&mut rows, &entries, &path);
    assert_eq!(tree.len(), 2);
    assert_eq!(rows.len(), 2);
    assert_eq!(rows[0].file_name, b"a.tex".to_vec());
    assert_eq!(rows[0].dir_name, Vec::<u8>::new());
    assert_eq!(rows[0].file_offset, 160);
    assert_eq!(rows[0].extract_size, 0);
    build_tree_pac(&mut tree, &entries, &b"other.pac".to_vec());
    assert_eq!(tree.len(), 4);
}

#[test]
fn refuses_unknown_archives() {
    let mut data = plain_archive();
    put(&mut data, 0, &0x1234_5678u32.to_le_bytes());
    assert_eq!(open_pac(&data).err(), Some(FormatError::InvalidPacHeader(0x1234_5678)));
    assert_eq!(open_pac(&plain_archive()[..40]).err(), Some(FormatError::UnexpectedEof));
    assert_eq!(open_pac(&plain_archive()[..100]).err(), Some(FormatError::UnexpectedEof));
    assert_eq!(open_pac(&[0x41u8, 0x52]).err(), Some(FormatError::UnexpectedEof));
}

#[test]
fn file_records_out_of_the_archive_are_refused() {
    let data = plain_archive();
    let (mut pac, headers) = open_pac(&data).unwrap();
    pac.offsets[1] = 1000;
    assert_eq!(pac_entries(&data, &pac, &headers).err(), Some(FormatError::UnexpectedEof));
    let mut big = data.clone();
    put(&mut big, 132, &u32::MAX.to_le_bytes());
    let (pac, headers) = open_pac(&big).unwrap();
    assert_eq!(pac_entries(&big, &pac, &headers).err(), Some(FormatError::Overflow));
    let node = TreeNode {
        key: b"k".to_vec(),
        label: b"l".to_vec(),
        node_type: NodeType::File { file_offset: 170, file_size: 4, extract_size: 0 },
        children: vec![],
        path: vec![],
        contained_type: vec![],
    };
    assert_eq!(extract_pac(&data, &node), Err(FormatError::UnexpectedEof));
}

#[test]
fn names_are_read_as_text_with_invalid_bytes_replaced() {
    let mut a = plain_archive();
    file_header(&mut a, 64, b"TEX\0", 1, 10, b"n\xFF\0\0\0\0");
    file_header(&mut a, 96, b"MDL\0", 2, 11, b"n\xFE");
    let (pac, headers) = open_pac(&a).unwrap();
    assert_eq!(headers[0].filename, "n\u{FFFD}".as_bytes().to_vec());
    assert_eq!(headers[1].filename, "n\u{FFFD}".as_bytes().to_vec());
    let mut entries = pac_entries(&a, &pac, &headers).unwrap();
    entries[1].file_offset = entries[0].file_offset;
    entries[1].file_size = entries[0].file_size;
    let mut rows: Vec<DataTableRow> = Vec::new();
    build_table_pac(&mut rows, &entries, &b"p.pac".to_vec());
    assert_eq!(rows.len(), 1);
}
