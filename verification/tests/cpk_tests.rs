use call_to_exist_gui_lib::cpk::{
    build_table_cpk, build_tree_cpk, bytes_eq, extract_cpk, has_cpk_header, open_cpk, split_dir_name, toc_entries,
    DataTableRow, TocEntry,
};
use call_to_exist_gui_lib::enums::{NodeType, RowData};
use call_to_exist_gui_lib::error::FormatError;
use call_to_exist_gui_lib::extract::plan_extraction;
use call_to_exist_gui_lib::tree::{count_files, get_next_key_cpk, TreeNode};
use call_to_exist_gui_lib::utf::read_table;

struct Strings {
    bytes: Vec<u8>,
}

impl Strings {
    fn new() -> Self {
        Strings { bytes: b"<NULL>\0".to_vec() }
    }

    fn add(&mut self, s: &[u8]) -> u32 {
        let o = self.bytes.len() as u32;
        self.bytes.extend_from_slice(s);
        self.bytes.push(0);
        o
    }
}

fn def(flag: u8, name: u32, constant: &[u8]) -> Vec<u8> {
    let mut v = vec![flag];
    v.extend_from_slice(&name.to_be_bytes());
    v.extend_from_slice(constant);
    v
}

fn table(defs: &[Vec<u8>], rows: &[Vec<u8>], row_length: u16, strings: &Strings, data: &[u8]) -> Vec<u8> {
    let defs_bytes: Vec<u8> = defs.concat();
    let rows_start = 32 + defs_bytes.len();
    let strings_start = rows_start + rows.len() * row_length as usize;
    let data_start = strings_start + strings.bytes.len();
    let total = data_start + data.len();
    let mut v = b"@UTF".to_vec();
    v.extend_from_slice(&((total - 8) as u32).to_be_bytes());
    v.extend_from_slice(&((rows_start - 8) as u32).to_be_bytes());
    v.extend_from_slice(&((strings_start - 8) as u32).to_be_bytes());
    v.extend_from_slice(&((data_start - 8) as u32).to_be_bytes());
    v.extend_from_slice(&0u32.to_be_bytes());
    v.extend_from_slice(&(defs.len() as u16).to_be_bytes());
    v.extend_from_slice(&row_length.to_be_bytes());
    v.extend_from_slice(&(rows.len() as u32).to_be_bytes());
    v.extend_from_slice(&defs_bytes);
    for r in rows {
        assert_eq!(r.len(), row_length as usize);
        v.extend_from_slice(r);
    }
    v.extend_from_slice(&strings.bytes);
    v.extend_from_slice(data);
    v
}

fn toc_table(entries: &[(&[u8], &[u8], u32, u32, u64)]) -> Vec<u8> {
    let mut s = Strings::new();
    let names: Vec<u32> = ["DirName", "FileName", "FileSize", "ExtractSize", "FileOffset"]
        .iter()
        .map(|n| s.add(n.as_bytes()))
        .collect();
    let defs = vec![
        def(0x5A, names[0], &[]),
        def(0x5A, names[1], &[]),
        def(0x55, names[2], &[]),
        def(0x55, names[3], &[]),
        def(0x57, names[4], &[]),
    ];
    let mut rows = Vec::new();
    for (dir, file, size, extract, offset) in entries {
        let mut r = s.add(dir).to_be_bytes().to_vec();
        r.extend_from_slice(&s.add(file).to_be_bytes());
        r.extend_from_slice(&size.to_be_bytes());
        r.extend_from_slice(&extract.to_be_bytes());
        r.extend_from_slice(&offset.to_be_bytes());
        rows.push(r);
    }
    table(&defs, &rows, 24, &s, &[])
}

fn entry(dir: &[u8], file: &[u8], size: u32, extract: u32, offset: u64) -> TocEntry {
    TocEntry { dir_name: dir.to_vec(), file_name: file.to_vec(), file_offset: offset, file_size: size, extract_size: extract }
}

fn sample_entries() -> Vec<TocEntry> {
    vec![entry(b"data/sub", b"a.bin", 16, 16, 0x100), entry(b"data", b"b.bin", 5, 7, 0x200)]
}

fn node(key: &str, label: &str, node_type: NodeType, children: Vec<TreeNode>) -> TreeNode {
    TreeNode {
        key: key.as_bytes().to_vec(),
        label: label.as_bytes().to_vec(),
        node_type,
        children,
        path: b"x.cpk".to_vec(),
        contained_type: Vec::new(),
    }
}

fn file(offset: u64, size: u32, extract: u32) -> NodeType {
    NodeType::File { file_offset: offset, file_size: size, extract_size: extract }
}

fn expected_tree() -> Vec<TreeNode> {
    vec![node(
        "0",
        "data",
        NodeType::Folder,
        vec![
            node("1", "sub", NodeType::Folder, vec![node("2", "a.bin", file(0x100, 16, 16), vec![])]),
            node("3", "b.bin", file(0x200, 5, 7), vec![]),
        ],
    )]
}

#[test]
fn reads_the_table_of_contents() {
    let bytes = toc_table(&[(b"data/sub", b"a.bin", 16, 16, 0x100), (b"data", b"b.bin", 5, 7, 0x200)]);
    let t = read_table(&bytes).unwrap();
    let entries = toc_entries(&t).unwrap();
    assert_eq!(entries, sample_entries());
}

#[test]
fn missing_or_mistyped_fields_are_refused() {
    let mut s = Strings::new();
    let names: Vec<u32> = ["DirName", "FileName", "FileSize", "ExtractSize", "FileOffset"]
        .iter()
        .map(|n| s.add(n.as_bytes()))
        .collect();
    let dir = s.add(b"d");
    let f = s.add(b"f");
    let defs = vec![
        def(0x5A, names[0], &[]),
        def(0x5A, names[1], &[]),
        def(0x55, names[2], &[]),
        def(0x55, names[3], &[]),
        def(0x55, names[4], &[]),
    ];
    let mut r = dir.to_be_bytes().to_vec();
    r.extend_from_slice(&f.to_be_bytes());
    r.extend_from_slice(&[0u8; 12]);
    let t = read_table(&table(&defs, &[r.clone()], 20, &s, &[])).unwrap();
    assert_eq!(toc_entries(&t), Err(FormatError::MissingField));
    let t = read_table(&table(&defs[..4], &[r[..16].to_vec()], 16, &s, &[])).unwrap();
    assert_eq!(toc_entries(&t), Err(FormatError::MissingField));
    let t = read_table(&table(&defs, &[], 20, &s, &[])).unwrap();
    assert_eq!(toc_entries(&t), Ok(vec![]));
}

#[test]
fn a_later_column_of_the_same_name_wins() {
    let mut s = Strings::new();
    let names: Vec<u32> = ["DirName", "FileName", "FileSize", "ExtractSize", "FileOffset"]
        .iter()
        .map(|n| s.add(n.as_bytes()))
        .collect();
    let dir = s.add(b"d");
    let f = s.add(b"f");
    let defs = vec![
        def(0x5A, names[0], &[]),
        def(0x5A, names[1], &[]),
        def(0x55, names[2], &[]),
        def(0x55, names[3], &[]),
        def(0x57, names[4], &[]),
        def(0x35, names[2], &44u32.to_be_bytes()),
    ];
    let mut r = dir.to_be_bytes().to_vec();
    r.extend_from_slice(&f.to_be_bytes());
    r.extend_from_slice(&1u32.to_be_bytes());
    r.extend_from_slice(&2u32.to_be_bytes());
    r.extend_from_slice(&3u64.to_be_bytes());
    let t = read_table(&table(&defs, &[r], 24, &s, &[])).unwrap();
    assert_eq!(toc_entries(&t), Ok(vec![entry(b"d", b"f", 44, 2, 3)]));
}

#[test]
fn splits_directory_names() {
    assert_eq!(split_dir_name(&b"a/b/c".to_vec()), vec![b"a".to_vec(), b"b".to_vec(), b"c".to_vec()]);
    assert_eq!(split_dir_name(&b"data".to_vec()), vec![b"data".to_vec()]);
    assert_eq!(split_dir_name(&b"".to_vec()), vec![Vec::<u8>::new()]);
    assert_eq!(split_dir_name(&b"a//b/".to_vec()), vec![b"a".to_vec(), b"".to_vec(), b"b".to_vec(), b"".to_vec()]);
    assert!(bytes_eq(&b"abc".to_vec(), &b"abc".to_vec()));
    assert!(!bytes_eq(&b"abc".to_vec(), &b"abd".to_vec()));
    assert!(!bytes_eq(&b"ab".to_vec(), &b"abc".to_vec()));
}

#[test]
fn builds_the_folder_tree() {
    let mut tree = Vec::new();
    let mut next_key = 0usize;
    build_tree_cpk(&mut tree, &mut next_key, &sample_entries(), &b"x.cpk".to_vec()).unwrap();
    assert_eq!(tree, expected_tree());
    assert_eq!(next_key, 4);
    assert_eq!(get_next_key_cpk(&tree), Ok(4));
    assert_eq!(count_files(&tree), 2);
}

#[test]
fn opening_the_same_archive_twice_adds_nothing() {
    let mut tree = Vec::new();
    let mut next_key = 0usize;
    let path = b"x.cpk".to_vec();
    build_tree_cpk(&mut tree, &mut next_key, &sample_entries(), &path).unwrap();
    build_tree_cpk(&mut tree, &mut next_key, &sample_entries(), &path).unwrap();
    assert_eq!(tree, expected_tree());
    assert_eq!(next_key, 4);
    let mut rows = Vec::new();
    build_table_cpk(&mut rows, &sample_entries(), &path);
    build_table_cpk(&mut rows, &sample_entries(), &path);
    assert_eq!(rows.len(), 2);
}

#[test]
fn new_entries_join_existing_folders_with_fresh_keys() {
    let mut tree = expected_tree();
    let mut next_key = get_next_key_cpk(&tree).unwrap();
    let more = vec![entry(b"data/sub", b"c.bin", 1, 1, 0x300), entry(b"other", b"d.bin", 2, 2, 0x400)];
    build_tree_cpk(&mut tree, &mut next_key, &more, &b"y.cpk".to_vec()).unwrap();
    assert_eq!(next_key, 7);
    let sub = &tree[0].children[0];
    assert_eq!(sub.children.len(), 2);
    assert_eq!(sub.children[1].key, b"4".to_vec());
    assert_eq!(sub.children[1].path, b"y.cpk".to_vec());
    assert_eq!(tree[1].label, b"other".to_vec());
    assert_eq!(tree[1].key, b"5".to_vec());
    assert_eq!(tree[1].children[0].key, b"6".to_vec());
    let mut keys = Vec::new();
    fn collect(nodes: &[TreeNode], keys: &mut Vec<Vec<u8>>) {
        for n in nodes {
            keys.push(n.key.clone());
            collect(&n.children, keys);
        }
    }
    collect(&tree, &mut keys);
    let mut unique = keys.clone();
    unique.sort();
    unique.dedup();
    assert_eq!(unique.len(), keys.len());
}

#[test]
fn a_file_beside_a_folder_of_its_name_is_not_added() {
    let mut tree = Vec::new();
    let mut next_key = 0usize;
    let entries = vec![entry(b"a/b", b"x", 1, 1, 0), entry(b"a", b"b", 2, 2, 0)];
    build_tree_cpk(&mut tree, &mut next_key, &entries, &b"p".to_vec()).unwrap();
    assert_eq!(next_key, 3);
    assert_eq!(tree[0].children.len(), 1);
    assert_eq!(tree[0].children[0].node_type, NodeType::Folder);
}

#[test]
fn running_out_of_keys_is_an_overflow() {
    let mut tree = Vec::new();
    let mut next_key = usize::MAX;
    let r = build_tree_cpk(&mut tree, &mut next_key, &sample_entries(), &b"x.cpk".to_vec());
    assert_eq!(r, Err(FormatError::Overflow));
    assert!(tree.is_empty());
    assert_eq!(next_key, usize::MAX);
    let mut tree = Vec::new();
    let mut next_key = usize::MAX - 3;
    let r = build_tree_cpk(&mut tree, &mut next_key, &sample_entries(), &b"x.cpk".to_vec());
    assert_eq!(r, Err(FormatError::Overflow));
    assert_eq!(next_key, usize::MAX);
    assert_eq!(tree.len(), 1);
    assert_eq!(tree[0].children.len(), 1);
    assert_eq!(tree[0].children[0].children[0].label, b"a.bin".to_vec());
    assert_eq!(tree[0].children[0].children[0].key, (usize::MAX - 1).to_string().into_bytes());
}

#[test]
fn key_scan_refuses_keys_that_are_not_numbers() {
    let tree = vec![node("7", "a", NodeType::Folder, vec![node("x", "b", NodeType::Folder, vec![])])];
    assert_eq!(get_next_key_cpk(&tree), Err(FormatError::InvalidKey));
    let tree = vec![node("3", "a", NodeType::Folder, vec![node("9", "b", NodeType::Folder, vec![])]), node("1", "c", NodeType::Folder, vec![])];
    assert_eq!(get_next_key_cpk(&tree), Ok(10));
    assert_eq!(get_next_key_cpk(&vec![]), Ok(0));
    let top = usize::MAX.to_string();
    let tree = vec![node(&top, "a", NodeType::Folder, vec![])];
    assert_eq!(get_next_key_cpk(&tree), Err(FormatError::Overflow));
}

#[test]
fn builds_the_table_without_repeats() {
    let mut rows: Vec<DataTableRow> = Vec::new();
    let path = b"x.cpk".to_vec();
    let mut entries = sample_entries();
    entries.push(entry(b"data", b"b.bin", 5, 7, 0x200));
    entries.push(entry(b"data", b"big.bin", 1, 1, 0x1_0000_0010));
    build_table_cpk(&mut rows, &entries, &path);
    assert_eq!(rows.len(), 3);
    assert_eq!(rows[0].dir_name, b"data/sub".to_vec());
    assert_eq!(rows[0].file_offset, 0x100);
    assert_eq!(rows[1].extract_size, 7);
    assert_eq!(rows[2].file_offset, 0x10);
    assert_eq!(rows[2].path, path);
}

fn packet(magic: &[u8; 4], mode: u32, payload: &[u8]) -> Vec<u8> {
    let mut body = payload.to_vec();
    if mode == 0 {
        let mut m: u32 = 0x655F;
        for b in body.iter_mut() {
            *b ^= (m & 0xFF) as u8;
            m = m.wrapping_mul(0x4115);
        }
    }
    let mut v = magic.to_vec();
    v.extend_from_slice(&mode.to_le_bytes());
    v.extend_from_slice(&(body.len() as u64).to_le_bytes());
    v.extend_from_slice(&body);
    v
}

fn header_table(toc_offset: u64) -> Vec<u8> {
    let mut s = Strings::new();
    let a = s.add(b"TocOffset");
    let b = s.add(b"TocSize");
    let mut row = toc_offset.to_be_bytes().to_vec();
    row.extend_from_slice(&64u64.to_be_bytes());
    table(&[def(0x57, a, &[]), def(0x57, b, &[])], &[row], 16, &s, &[])
}

fn archive() -> (Vec<u8>, u64) {
    let toc_offset: u64 = 0x400;
    let mut data = packet(b"CPK ", 0, &header_table(toc_offset));
    data.resize(toc_offset as usize, 0);
    let toc = toc_table(&[(b"data/sub", b"a.bin", 16, 16, 0x100), (b"data", b"b.bin", 5, 7, 0x200)]);
    data.extend_from_slice(&packet(b"TOC ", 1, &toc));
    data.resize((toc_offset + 0x100) as usize, 0);
    data.extend_from_slice(b"0123456789abcdef");
    data.resize((toc_offset + 0x200) as usize, 0);
    data.extend_from_slice(b"hello");
    (data, toc_offset)
}

#[test]
fn opens_an_archive_and_extracts_its_files() {
    let (data, toc_offset) = archive();
    let (toc, table) = open_cpk(&data).unwrap();
    assert_eq!(toc, toc_offset);
    let entries = toc_entries(&table).unwrap();
    assert_eq!(entries, sample_entries());
    let mut tree = Vec::new();
    let mut next_key = 0usize;
    build_tree_cpk(&mut tree, &mut next_key, &entries, &b"x.cpk".to_vec()).unwrap();
    let a = &tree[0].children[0].children[0];
    assert_eq!(extract_cpk(&data, toc, a, false), Ok(b"0123456789abcdef".to_vec()));
    let b = &tree[0].children[1];
    assert_eq!(extract_cpk(&data, toc, b, false), Ok(b"hello".to_vec()));
    assert_eq!(extract_cpk(&data, toc, &tree[0], false), Ok(vec![]));
}

#[test]
fn extraction_errors() {
    let (data, toc) = archive();
    let far = node("9", "far", file(0x10_0000, 4, 4), vec![]);
    assert_eq!(extract_cpk(&data, toc, &far, false), Err(FormatError::UnexpectedEof));
    let wrap = node("9", "wrap", file(u64::MAX, 4, 4), vec![]);
    assert_eq!(extract_cpk(&data, toc, &wrap, false), Err(FormatError::Overflow));
    let not_crilayla = node("9", "b", file(0x200, 5, 7), vec![]);
    assert_eq!(extract_cpk(&data, toc, &not_crilayla, true), Err(FormatError::UnexpectedEof));
}

#[test]
fn archive_errors() {
    let (data, _) = archive();
    assert!(has_cpk_header(&data));
    assert!(!has_cpk_header(&data[..10]));
    let cut = &data[..0x404];
    assert!(has_cpk_header(cut));
    assert_eq!(open_cpk(cut).err(), Some(FormatError::UnexpectedEof));
    let mut s = Strings::new();
    let a = s.add(b"TocOffset");
    let only = table(&[def(0x57, a, &[])], &[0x400u64.to_be_bytes().to_vec()], 8, &s, &[]);
    assert!(!has_cpk_header(&packet(b"CPK ", 1, &only)));
    let b = s.add(b"TocSize");
    let small = table(&[def(0x57, a, &[]), def(0x55, b, &[])], &[vec![0u8; 12]], 12, &s, &[]);
    assert!(!has_cpk_header(&packet(b"CPK ", 1, &small)));
    let empty = table(&[def(0x57, a, &[]), def(0x57, b, &[])], &[], 16, &s, &[]);
    assert!(!has_cpk_header(&packet(b"CPK ", 1, &empty)));
}

#[test]
fn plans_the_extraction_of_a_selection() {
    let tree = expected_tree();
    let (steps, progress) = plan_extraction(&tree);
    assert_eq!(progress.filecount, count_files(&tree));
    assert_eq!(progress.filecount, 2);
    assert_eq!(progress.finished_count, 0);
    let labels: Vec<Vec<Vec<u8>>> = steps.iter().map(|s| s.labels.clone()).collect();
    assert_eq!(
        labels,
        vec![
            vec![b"data".to_vec()],
            vec![b"data".to_vec(), b"sub".to_vec()],
            vec![b"data".to_vec(), b"sub".to_vec(), b"a.bin".to_vec()],
            vec![b"data".to_vec(), b"b.bin".to_vec()],
        ]
    );
    assert_eq!(steps[2].node_type, file(0x100, 16, 16));
    assert_eq!(steps[0].node_type, NodeType::Folder);
    assert_eq!(steps[3].archive, b"x.cpk".to_vec());
    let files = steps.iter().filter(|s| matches!(s.node_type, NodeType::File { .. })).count();
    assert_eq!(files, progress.filecount);
}

#[test]
fn node_getters() {
    let n = node("1", "a", file(10, 20, 30), vec![]);
    assert_eq!(n.get_file_offset(), 10);
    assert_eq!(n.get_file_size(), 20);
    assert_eq!(n.get_extract_size(), 30);
    let f = node("2", "d", NodeType::Folder, vec![]);
    assert_eq!((f.get_file_offset(), f.get_file_size(), f.get_extract_size()), (0, 0, 0));
    let _ = RowData::UInt8(0);
}

#[test]
fn no_list_of_the_tree_holds_a_label_twice() {
    fn distinct(nodes: &[TreeNode]) -> bool {
        let mut labels: Vec<&Vec<u8>> = nodes.iter().map(|n| &n.label).collect();
        labels.sort();
        let before = labels.len();
        labels.dedup();
        labels.len() == before && nodes.iter().all(|n| distinct(&n.children))
    }
    let mut tree = expected_tree();
    let mut next_key = get_next_key_cpk(&tree).unwrap();
    let more = vec![
        entry(b"data/sub", b"a.bin", 99, 99, 0x900),
        entry(b"data", b"sub", 1, 1, 0),
        entry(b"data/sub/deep", b"a.bin", 1, 1, 0),
        entry(b"data", b"b.bin", 2, 2, 0),
    ];
    build_tree_cpk(&mut tree, &mut next_key, &more, &b"z.cpk".to_vec()).unwrap();
    assert!(distinct(&tree));
    let sub = &tree[0].children[0];
    assert_eq!(sub.children.len(), 2);
    assert_eq!(sub.children[0].node_type, file(0x100, 16, 16));
    assert_eq!(sub.children[1].label, b"deep".to_vec());
    assert_eq!(tree[0].children.len(), 2);
}
