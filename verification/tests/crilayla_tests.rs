use call_to_exist_gui_lib::cpk::extract_cpk;
use call_to_exist_gui_lib::crilayla::Crilayla;
use call_to_exist_gui_lib::cursor::ByteCursor;
use call_to_exist_gui_lib::enums::NodeType;
use call_to_exist_gui_lib::error::FormatError;
use call_to_exist_gui_lib::tree::TreeNode;

struct Bits {
    bits: Vec<bool>,
}

impl Bits {
    fn new() -> Self {
        Bits { bits: Vec::new() }
    }

    fn put(&mut self, value: u32, width: u32) {
        for i in (0..width).rev() {
            self.bits.push((value >> i) & 1 == 1);
        }
    }

    fn literal(&mut self, byte: u8) {
        self.put(0, 1);
        self.put(byte as u32, 8);
    }

    /// The stream bytes as stored in a file: the reader reverses them first.
    fn stored(&self) -> Vec<u8> {
        let mut bytes = vec![0u8; (self.bits.len() + 7) / 8];
        for (i, b) in self.bits.iter().enumerate() {
            if *b {
                bytes[i / 8] |= 0x80 >> (i % 8);
            }
        }
        bytes.reverse();
        bytes
    }
}

fn stored_header() -> Vec<u8> {
    (0..=255u8).collect()
}

fn crilayla_file(uncompressed_size: u32, stream: &[u8]) -> Vec<u8> {
    let mut v = b"CRILAYLA".to_vec();
    v.extend_from_slice(&uncompressed_size.to_le_bytes());
    v.extend_from_slice(&(stream.len() as u32).to_le_bytes());
    v.extend_from_slice(stream);
    v.extend_from_slice(&stored_header());
    v
}

fn decompress(file: &[u8]) -> Result<Vec<u8>, FormatError> {
    let mut c = ByteCursor::new(file);
    let mut cr = Crilayla::build(&mut c)?;
    cr.decompress_crilayla()
}

fn expect(out: &[u8]) -> Vec<u8> {
    let mut v = stored_header();
    v.extend(out.iter().rev());
    v
}

#[test]
fn reads_the_header() {
    let mut b = Bits::new();
    b.literal(b'A');
    let file = crilayla_file(1, &b.stored());
    let mut c = ByteCursor::new(&file);
    let cr = Crilayla::build(&mut c).unwrap();
    assert_eq!(cr.magic, u64::from_le_bytes(*b"CRILAYLA"));
    assert_eq!(cr.uncompressed_size, 1);
    assert_eq!(cr.compressed_size, 2);
    assert_eq!(cr.uncompressed_data_header, stored_header());
    assert!(cr.output_decompressed.is_empty());
    assert_eq!(c.position() as usize, file.len());
    assert_eq!(Crilayla::build(&mut ByteCursor::new(&file[..file.len() - 1])).err(), Some(FormatError::UnexpectedEof));
    assert_eq!(Crilayla::build(&mut ByteCursor::new(&file[..12])).err(), Some(FormatError::UnexpectedEof));
}

#[test]
fn length_fields_widths() {
    assert_eq!(Crilayla::levels(0), 2);
    assert_eq!(Crilayla::levels(1), 3);
    assert_eq!(Crilayla::levels(2), 5);
    assert_eq!(Crilayla::levels(3), 8);
    assert_eq!(Crilayla::levels(40), 8);
}

#[test]
fn decodes_literals() {
    let mut b = Bits::new();
    b.literal(b'A');
    b.literal(b'B');
    let out = decompress(&crilayla_file(2, &b.stored())).unwrap();
    assert_eq!(out, expect(b"AB"));
    assert_eq!(out.len(), 256 + 2);
}

#[test]
fn decodes_back_references() {
    let mut b = Bits::new();
    b.literal(b'a');
    b.literal(b'b');
    b.literal(b'c');
    b.put(1, 1);
    b.put(0, 13);
    b.put(0, 2);
    let out = decompress(&crilayla_file(6, &b.stored())).unwrap();
    assert_eq!(out, expect(b"abcabc"));
}

#[test]
fn overlapping_copies_repeat_the_window() {
    let mut b = Bits::new();
    for x in b"xyz" {
        b.literal(*x);
    }
    b.put(1, 1);
    b.put(0, 13);
    b.put(3, 2);
    b.put(2, 3);
    let out = decompress(&crilayla_file(11, &b.stored())).unwrap();
    assert_eq!(out, expect(b"xyzxyzxyzxy"));
}

#[test]
fn the_last_copy_may_pass_the_target() {
    let mut b = Bits::new();
    for x in b"pqr" {
        b.literal(*x);
    }
    b.put(1, 1);
    b.put(0, 13);
    b.put(2, 2);
    let out = decompress(&crilayla_file(4, &b.stored())).unwrap();
    assert_eq!(out, expect(b"pqrpqrpq"));
    assert!(out.len() >= 256 + 4);
    assert_eq!(&out[..256], &stored_header()[..]);
}

#[test]
fn a_reference_before_the_start_is_refused() {
    let mut b = Bits::new();
    b.put(1, 1);
    b.put(0, 13);
    b.put(0, 2);
    assert_eq!(decompress(&crilayla_file(3, &b.stored())), Err(FormatError::InvalidBackReference));
}

#[test]
fn a_short_stream_is_refused() {
    let mut b = Bits::new();
    b.literal(b'A');
    assert_eq!(decompress(&crilayla_file(5, &b.stored())), Err(FormatError::UnexpectedEof));
}

#[test]
fn a_reference_longer_than_sixteen_bits_is_refused() {
    let mut b = Bits::new();
    for x in b"abc" {
        b.literal(*x);
    }
    b.put(1, 1);
    b.put(0, 13);
    b.put(3, 2);
    b.put(7, 3);
    b.put(31, 5);
    for _ in 0..300 {
        b.put(255, 8);
    }
    assert_eq!(decompress(&crilayla_file(100_000, &b.stored())), Err(FormatError::Overflow));
}

#[test]
fn nothing_to_decode_gives_the_stored_header() {
    assert_eq!(decompress(&crilayla_file(0, &[])), Ok(stored_header()));
}

#[test]
fn extraction_decompresses_when_sizes_differ() {
    let mut b = Bits::new();
    b.literal(b'A');
    b.literal(b'B');
    let blob = crilayla_file(2, &b.stored());
    let mut data = vec![0u8; 32];
    data.extend_from_slice(&blob);
    let node = TreeNode {
        key: b"0".to_vec(),
        label: b"f".to_vec(),
        node_type: NodeType::File { file_offset: 16, file_size: blob.len() as u32, extract_size: 258 },
        children: vec![],
        path: b"x.cpk".to_vec(),
        contained_type: vec![],
    };
    assert_eq!(extract_cpk(&data, 16, &node, true), Ok(expect(b"AB")));
    assert_eq!(extract_cpk(&data, 16, &node, false), Ok(blob.clone()));
}
