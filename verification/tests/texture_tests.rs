use call_to_exist_gui_lib::cursor::ByteCursor;
use call_to_exist_gui_lib::error::FormatError;
use call_to_exist_gui_lib::texture::{assemble_rgba, decode_bc7_blocks, texture_to_png, texture_to_rgba, Texture};

/// A BC7 mode-6 block whose endpoints and indices are all ones: every pixel is opaque white.
fn white_block() -> Vec<u8> {
    let mut b = vec![0xFFu8; 16];
    b[0] = 0xC0;
    b
}

/// A block with no valid mode: the decoder writes transparent black.
fn void_block() -> Vec<u8> {
    vec![0u8; 16]
}

fn texture_file(width: u16, height: u16, name: &[u8], name_field: u32, pixels: &[u8]) -> Vec<u8> {
    let mut v = vec![0u8; 48];
    v[0..4].copy_from_slice(b"TEX ");
    v[8..10].copy_from_slice(&width.to_le_bytes());
    v[10..12].copy_from_slice(&height.to_le_bytes());
    v[12..14].copy_from_slice(&(width * 4).to_le_bytes());
    v[16..18].copy_from_slice(&1u16.to_le_bytes());
    v[24..28].copy_from_slice(&(48 + name_field).to_le_bytes());
    v[36..40].copy_from_slice(&48u32.to_le_bytes());
    let mut n = name.to_vec();
    n.resize(name_field as usize, 0);
    v.extend_from_slice(&n);
    v.extend_from_slice(pixels);
    v
}

#[test]
fn reads_the_texture_header() {
    let bytes = texture_file(4, 4, b"tex01", 8, &white_block());
    let mut c = ByteCursor::new(&bytes);
    let t = Texture::build(&mut c).unwrap();
    assert_eq!(t.magic, u32::from_le_bytes(*b"TEX "));
    assert_eq!(t.width, 4);
    assert_eq!(t.height, 4);
    assert_eq!(t.pitch, 16);
    assert_eq!(t.mipmap_count, 1);
    assert_eq!(t.header_size, 56);
    assert_eq!(t.header_size_without_texture_name, 48);
    assert_eq!(t.texture_name, b"tex01".to_vec());
    assert_eq!(t.pixel_data, white_block());
}

#[test]
fn texture_header_errors() {
    let bytes = texture_file(4, 4, b"tex01", 8, &white_block());
    assert_eq!(Texture::build(&mut ByteCursor::new(&bytes[..30])).err(), Some(FormatError::UnexpectedEof));
    assert_eq!(Texture::build(&mut ByteCursor::new(&bytes[..52])).err(), Some(FormatError::UnexpectedEof));
    let mut odd = bytes.clone();
    odd[36..40].copy_from_slice(&100u32.to_le_bytes());
    assert_eq!(Texture::build(&mut ByteCursor::new(&odd)).err(), Some(FormatError::Overflow));
    let bare = texture_file(4, 4, b"", 0, &[]);
    let t = Texture::build(&mut ByteCursor::new(&bare)).unwrap();
    assert!(t.texture_name.is_empty() && t.pixel_data.is_empty());
}

#[test]
fn decodes_blocks_with_the_bc7_decoder() {
    let mut pixels = white_block();
    pixels.extend_from_slice(&void_block());
    let blocks = decode_bc7_blocks(&pixels, 2).unwrap();
    assert_eq!(blocks.len(), 2);
    assert_eq!(blocks[0], vec![0xFFu8; 64]);
    assert_eq!(blocks[1], vec![0u8; 64]);
    let mut direct = [0u8; 64];
    bcdec_rs::bc7(&pixels[..16], &mut direct, 16);
    assert_eq!(blocks[0], direct.to_vec());
    assert_eq!(decode_bc7_blocks(&pixels, 3).err(), Some(FormatError::UnexpectedEof));
}

#[test]
fn lays_out_blocks_row_by_row_and_cuts_the_edges() {
    let a: Vec<u8> = (0..64u8).collect();
    let b: Vec<u8> = (100..164u8).collect();
    let rgba = assemble_rgba(5, 2, &vec![a.clone(), b.clone()]).unwrap();
    assert_eq!(rgba.len(), 5 * 2 * 4);
    assert_eq!(&rgba[0..16], &a[0..16]);
    assert_eq!(&rgba[16..20], &b[0..4]);
    assert_eq!(&rgba[20..36], &a[16..32]);
    assert_eq!(&rgba[36..40], &b[16..20]);
}

#[test]
fn decodes_a_texture_to_rgba() {
    let mut pixels = white_block();
    pixels.extend_from_slice(&void_block());
    let t = Texture::build(&mut ByteCursor::new(&texture_file(8, 4, b"t", 4, &pixels))).unwrap();
    let rgba = texture_to_rgba(&t).unwrap();
    assert_eq!(rgba.len(), 8 * 4 * 4);
    for y in 0..4 {
        let row = &rgba[y * 32..y * 32 + 32];
        assert_eq!(&row[..16], &[0xFFu8; 16]);
        assert_eq!(&row[16..], &[0u8; 16]);
    }
    let short = Texture::build(&mut ByteCursor::new(&texture_file(8, 8, b"t", 4, &pixels))).unwrap();
    assert_eq!(texture_to_rgba(&short), Err(FormatError::UnexpectedEof));
}

#[test]
fn encodes_a_texture_as_png() {
    let mut pixels = white_block();
    pixels.extend_from_slice(&void_block());
    let t = Texture::build(&mut ByteCursor::new(&texture_file(8, 4, b"t", 4, &pixels))).unwrap();
    let png = texture_to_png(&t).unwrap();
    assert_eq!(&png[..8], &[0x89, b'P', b'N', b'G', 0x0D, 0x0A, 0x1A, 0x0A]);
    let back = image::load_from_memory(&png).unwrap().to_rgba8();
    assert_eq!(back.width(), 8);
    assert_eq!(back.height(), 4);
    assert_eq!(back.into_raw(), texture_to_rgba(&t).unwrap());
}

#[test]
fn an_empty_texture_is_refused_by_the_encoder() {
    let t = Texture::build(&mut ByteCursor::new(&texture_file(0, 0, b"", 0, &[]))).unwrap();
    assert_eq!(texture_to_rgba(&t), Ok(vec![]));
    assert_eq!(texture_to_png(&t), Err(FormatError::ImageEncoding));
}
