use vstd::prelude::*;
use vstd::arithmetic::div_mod::lemma_fundamental_div_mod_converse;
use crate::cursor::{
    ByteCursor, ByteOrder, can_take, le_u16, le_u32, read_bytes, read_u16, read_u32, take_bytes,
    text_of, decode_text,
};
use crate::error::FormatError;

verus! {

/// A texture file: a little-endian header, the texture name, then BC7 blocks.
#[derive(Debug, Clone, PartialEq, Eq)]
pub struct Texture {
    pub magic: u32,
    pub width: u16,
    pub height: u16,
    pub pitch: u16,
    pub mipmap_count: u16,
    pub header_size: u32,
    pub header_size_without_texture_name: u32,
    pub texture_name: Vec<u8>,
    pub pixel_data: Vec<u8>,
}

/// What the BC7 decoder makes of one 16-byte block: 4 rows of 4 RGBA pixels.
pub uninterp spec fn bc7_block(compressed: Seq<u8>) -> Seq<u8>;

/// What the PNG encoder makes of an RGBA image (`None` when it refuses it).
pub uninterp spec fn png_encoding(width: u32, height: u32, rgba: Seq<u8>) -> Option<Seq<u8>>;

/// `bcdec_rs::bc7` with a row pitch of 16 bytes into a fresh 64-byte block:
/// the 4x4 RGBA pixels that the 16 compressed bytes stand for.
#[verifier::external_body]
fn bc7_decode(compressed: &[u8]) -> (out: Vec<u8>)
    requires
        compressed@.len() == 16,
    ensures
        out@ == bc7_block(compressed@),
        out@.len() == 64,
{
    let mut block = [0u8; 64];
    bcdec_rs::bc7(compressed, &mut block, 16);
    block.to_vec()
}

/// `image::RgbaImage::from_raw` followed by `write_to` in the PNG format, into
/// memory: the PNG file of the image, or `None` when either call fails.
#[verifier::external_body]
fn encode_png(width: u32, height: u32, rgba: Vec<u8>) -> (r: Option<Vec<u8>>)
    ensures
        match r {
            Some(v) => png_encoding(width, height, rgba@) == Some(v@),
            None => png_encoding(width, height, rgba@) is None,
        },
{
    let image = image::RgbaImage::from_raw(width, height, rgba)?;
    let mut out = std::io::Cursor::new(Vec::new());
    image.write_to(&mut out, image::ImageFormat::Png).ok()?;
    Some(out.into_inner())
}

/// The number of 4-pixel block columns (or rows) that cover `n` pixels.
pub open spec fn blocks_for(n: int) -> int {
    (n + 3) / 4
}

/// The index, in row-major block order, of the block that holds pixel (x, y).
pub open spec fn block_index(w: int, x: int, y: int) -> int {
    (y / 4) * blocks_for(w) + x / 4
}

/// The RGBA image (4 bytes per pixel, row-major) of a `w` x `h` texture whose
/// decoded blocks are `blocks`: pixel (x, y) is pixel (x mod 4, y mod 4) of its block.
pub open spec fn rgba_from_blocks(w: int, h: int, blocks: Seq<Seq<u8>>) -> Seq<u8> {
    Seq::new(
        (w * h * 4) as nat,
        |i: int|
            {
                let p = i / 4;
                let x = p % w;
                let y = p / w;
                blocks[block_index(w, x, y)][(y % 4) * 16 + (x % 4) * 4 + i % 4]
            },
    )
}

/// The decoded blocks of `count` consecutive 16-byte BC7 blocks.
pub open spec fn decoded_blocks(pixel_data: Seq<u8>, count: int) -> Seq<Seq<u8>> {
    Seq::new(count as nat, |k: int| bc7_block(pixel_data.subrange(16 * k, 16 * k + 16)))
}

/// The RGBA image of a texture, or why there is none: too few blocks, or an
/// image too large for memory sizes.
pub open spec fn spec_texture_rgba(t: &Texture) -> Result<Seq<u8>, FormatError> {
    let w = t.width as int;
    let h = t.height as int;
    let count = blocks_for(w) * blocks_for(h);
    if count * 16 > t.pixel_data@.len() {
        Err(FormatError::UnexpectedEof)
    } else if w * h * 4 > usize::MAX {
        Err(FormatError::Overflow)
    } else {
        Ok(rgba_from_blocks(w, h, decoded_blocks(t.pixel_data@, count)))
    }
}

/// A decoded texture has four bytes per pixel, row after row.
pub proof fn lemma_texture_rgba_size(t: &Texture)
    ensures
        spec_texture_rgba(t) matches Ok(v) ==> v.len() == t.width * t.height * 4,
{
}

/// Where each pixel of a decoded texture comes from: the four bytes of pixel
/// (x, y) sit at `4 * (y * width + x)` and are the bytes of row `y % 4`,
/// column `x % 4` of the block in block row `y / 4`, block column `x / 4`,
/// blocks being stored row after row, as many per row as it takes to cover
/// the width.
pub proof fn lemma_texture_pixel_source(t: &Texture, x: int, y: int, c: int)
    requires
        0 <= x < t.width,
        0 <= y < t.height,
        0 <= c < 4,
    ensures
        spec_texture_rgba(t) matches Ok(v) ==> v[4 * (y * t.width + x) + c] == bc7_block(
            t.pixel_data@.subrange(
                16 * ((y / 4) * ((t.width + 3) / 4) + x / 4),
                16 * ((y / 4) * ((t.width + 3) / 4) + x / 4) + 16,
            ),
        )[(y % 4) * 16 + (x % 4) * 4 + c],
{
    let w = t.width as int;
    let h = t.height as int;
    let i = 4 * (y * w + x) + c;
    assert(i / 4 == y * w + x && i % 4 == c) by (nonlinear_arith)
        requires
            i == 4 * (y * w + x) + c,
            0 <= c < 4,
            0 <= x,
            0 <= y,
            w >= 0,
    ;
    assert((y * w + x) % w == x && (y * w + x) / w == y) by (nonlinear_arith)
        requires
            0 <= x < w,
            0 <= y,
    ;
    assert(0 <= i < w * h * 4) by (nonlinear_arith)
        requires
            i == 4 * (y * w + x) + c,
            0 <= c < 4,
            0 <= x < w,
            0 <= y < h,
    ;
    let bw = (w + 3) / 4;
    let bh = (h + 3) / 4;
    assert(0 <= (y / 4) * bw + x / 4 < bw * bh) by (nonlinear_arith)
        requires
            0 <= x < w,
            0 <= y < h,
            bw == (w + 3) / 4,
            bh == (h + 3) / 4,
    ;
}

/// Whether the texture header fits at `p`.
pub open spec fn texture_header_fits(b: Seq<u8>, p: int) -> bool {
    p + 40 <= b.len()
}

/// Whether the position after the texture header is a 64-bit position.
pub open spec fn texture_header_end_fits(p: int) -> bool {
    p + 48 <= u64::MAX
}

/// Decodes `count` consecutive BC7 blocks.
pub fn decode_bc7_blocks(pixel_data: &Vec<u8>, count: usize) -> (r: Result<
    Vec<Vec<u8>>,
    FormatError,
>)
    ensures
        match r {
            Ok(blocks) => count * 16 <= pixel_data@.len() && blocks.deep_view() == decoded_blocks(
                pixel_data@,
                count as int,
            ) && blocks@.len() == count && forall|k: int|
                0 <= k < count ==> (#[trigger] blocks@[k])@.len() == 64,
            Err(e) => count * 16 > pixel_data@.len() && e == FormatError::UnexpectedEof,
        },
{
    let len = pixel_data.len();
    if count > len / 16 {
        return Err(FormatError::UnexpectedEof);
    }
    let mut blocks: Vec<Vec<u8>> = Vec::new();
    let mut k: usize = 0;
    while k < count
        invariant
            0 <= k <= count,
            count <= len / 16,
            len == pixel_data@.len(),
            blocks.deep_view() == decoded_blocks(pixel_data@, k as int),
            blocks@.len() == k,
            forall|m: int| 0 <= m < k ==> (#[trigger] blocks@[m])@.len() == 64,
        decreases count - k,
    {
        let start = k * 16;
        let mut compressed: Vec<u8> = Vec::new();
        let mut j: usize = 0;
        while j < 16
            invariant
                0 <= j <= 16,
                start == k * 16,
                k < count,
                count <= len / 16,
                len == pixel_data@.len(),
                compressed@ == pixel_data@.subrange(start as int, start + j),
            decreases 16 - j,
        {
            compressed.push(pixel_data[start + j]);
            j = j + 1;
            assert(compressed@ =~= pixel_data@.subrange(start as int, start + j));
        }
        let block = bc7_decode(compressed.as_slice());
        let ghost before = blocks.deep_view();
        assert(block.deep_view() =~= block@);
        blocks.push(block);
        assert(blocks.deep_view() =~= before + seq![bc7_block(pixel_data@.subrange(16 * k, 16 * k + 16))]);
        k = k + 1;
        assert(blocks.deep_view() =~= decoded_blocks(pixel_data@, k as int));
    }
    Ok(blocks)
}

proof fn lemma_pixel_index(i: int, w: int, h: int)
    requires
        0 <= i < w * h * 4,
        w > 0,
        h > 0,
    ensures
        0 <= (i / 4) % w < w,
        0 <= (i / 4) / w < h,
        0 <= i % 4 < 4,
        0 <= block_index(w, (i / 4) % w, (i / 4) / w) < blocks_for(w) * blocks_for(h),
{
    let p = i / 4;
    assert(0 <= p < w * h) by (nonlinear_arith)
        requires
            0 <= i < w * h * 4,
            p == i / 4,
    ;
    let x = p % w;
    let y = p / w;
    assert(0 <= x < w && 0 <= y < h) by (nonlinear_arith)
        requires
            0 <= p < w * h,
            w > 0,
            x == p % w,
            y == p / w,
    ;
    let bw = blocks_for(w);
    let bh = blocks_for(h);
    assert(0 <= (y / 4) * bw + x / 4 < bw * bh) by (nonlinear_arith)
        requires
            0 <= x < w,
            0 <= y < h,
            bw == (w + 3) / 4,
            bh == (h + 3) / 4,
    ;
}

/// Lays out decoded blocks as a row-major RGBA image of `width` x `height`
/// pixels; blocks that reach past the right or bottom edge are cut.
pub fn assemble_rgba(width: u16, height: u16, blocks: &Vec<Vec<u8>>) -> (r: Result<
    Vec<u8>,
    FormatError,
>)
    requires
        blocks@.len() == blocks_for(width as int) * blocks_for(height as int),
        forall|k: int| 0 <= k < blocks@.len() ==> (#[trigger] blocks@[k])@.len() == 64,
    ensures
        match r {
            Ok(v) => width * height * 4 <= usize::MAX && v@ == rgba_from_blocks(
                width as int,
                height as int,
                blocks.deep_view(),
            ),
            Err(e) => width * height * 4 > usize::MAX && e == FormatError::Overflow,
        },
{
    let w = width as u64;
    let h = height as u64;
    assert(w * h * 4 <= 0xFFFF * 0xFFFF * 4) by (nonlinear_arith)
        requires
            w <= 0xFFFF,
            h <= 0xFFFF,
    ;
    let total64 = w * h * 4;
    if total64 > usize::MAX as u64 {
        return Err(FormatError::Overflow);
    }
    let total = total64 as usize;
    let wu = width as usize;
    let bw = (wu + 3) / 4;
    let ghost spec = rgba_from_blocks(width as int, height as int, blocks.deep_view());
    let nb = blocks.len();
    let mut rgba: Vec<u8> = Vec::new();
    let mut i: usize = 0;
    while i < total
        invariant
            0 <= i <= total,
            nb == blocks@.len(),
            total == width * height * 4,
            wu == width,
            bw == blocks_for(width as int),
            blocks@.len() == blocks_for(width as int) * blocks_for(height as int),
            forall|k: int| 0 <= k < blocks@.len() ==> (#[trigger] blocks@[k])@.len() == 64,
            spec == rgba_from_blocks(width as int, height as int, blocks.deep_view()),
            rgba@ == spec.take(i as int),
        decreases total - i,
    {
        proof {
            lemma_pixel_index(i as int, width as int, height as int);
        }
        let p = i / 4;
        let x = p % wu;
        let y = p / wu;
        let c = i % 4;
        assert((y / 4) * bw <= (y / 4) * bw + x / 4);
        let bi = (y / 4) * bw + x / 4;
        let block = &blocks[bi];
        let idx = (y % 4) * 16 + (x % 4) * 4 + c;
        let byte = block[idx];
        assert(blocks.deep_view()[bi as int] == block@);
        rgba.push(byte);
        i = i + 1;
        assert(rgba@ =~= spec.take(i as int));
    }
    assert(rgba@ =~= spec);
    Ok(rgba)
}

/// Decodes the texture into an RGBA image.
pub fn texture_to_rgba(texture: &Texture) -> (r: Result<Vec<u8>, FormatError>)
    ensures
        match r {
            Ok(v) => spec_texture_rgba(texture) == Ok::<Seq<u8>, FormatError>(v@),
            Err(e) => spec_texture_rgba(texture) == Err::<Seq<u8>, FormatError>(e),
        },
{
    let w = texture.width as usize;
    let h = texture.height as usize;
    assert(((w + 3) / 4) * ((h + 3) / 4) <= 0x4000 * 0x4000) by (nonlinear_arith)
        requires
            w <= 0xFFFF,
            h <= 0xFFFF,
    ;
    let count = ((w + 3) / 4) * ((h + 3) / 4);
    let blocks = match decode_bc7_blocks(&texture.pixel_data, count) {
        Ok(b) => b,
        Err(e) => return Err(e),
    };
    assemble_rgba(texture.width, texture.height, &blocks)
}

/// Decodes the texture and encodes it as a PNG file.
pub fn texture_to_png(texture: &Texture) -> (r: Result<Vec<u8>, FormatError>)
    ensures
        match spec_texture_rgba(texture) {
            Err(e) => r == Err::<Vec<u8>, FormatError>(e),
            Ok(rgba) => match png_encoding(texture.width as u32, texture.height as u32, rgba) {
                Some(png) => r matches Ok(v) && v@ == png,
                None => r == Err::<Vec<u8>, FormatError>(FormatError::ImageEncoding),
            },
        },
{
    let rgba = match texture_to_rgba(texture) {
        Ok(v) => v,
        Err(e) => return Err(e),
    };
    match encode_png(texture.width as u32, texture.height as u32, rgba) {
        Some(png) => Ok(png),
        None => Err(FormatError::ImageEncoding),
    }
}

impl Texture {
    /// Reads the little-endian texture header, the texture name (its length is
    /// the header size minus the header size without the name; trailing zero
    /// bytes are dropped) and all remaining bytes as pixel data.
    pub fn build(file: &mut ByteCursor) -> (r: Result<Self, FormatError>)
        ensures
            final(file).data@ == old(file).data@,
            ({
                let b = old(file).data@;
                let p = old(file).pos as int;
                let name_len = le_u32(b, p + 24) - le_u32(b, p + 36);
                let pixels_at = p + 48 + name_len;
                match r {
                    Ok(t) => texture_header_fits(b, p) && texture_header_end_fits(p) && name_len >= 0 && can_take(b, p + 48, name_len)
                        && t.magic == le_u32(b, p)
                        && t.width == le_u16(b, p + 8)
                        && t.height == le_u16(b, p + 10)
                        && t.pitch == le_u16(b, p + 12)
                        && t.mipmap_count == le_u16(b, p + 16)
                        && t.header_size == le_u32(b, p + 24)
                        && t.header_size_without_texture_name == le_u32(b, p + 36)
                        && t.texture_name@ == text_of(take_bytes(b, p + 48, name_len))
                        && t.pixel_data@ == (if pixels_at <= b.len() {
                            b.subrange(pixels_at, b.len() as int)
                        } else {
                            Seq::empty()
                        }),
                    Err(e) => if !texture_header_fits(b, p) {
                        e == FormatError::UnexpectedEof
                    } else if !texture_header_end_fits(p) || name_len < 0 {
                        e == FormatError::Overflow
                    } else {
                        !can_take(b, p + 48, name_len) && e == FormatError::UnexpectedEof
                    },
                }
            }),
    {
        if file.remaining() < 40 {
            return Err(FormatError::UnexpectedEof);
        }
        let start = file.position();
        if start > u64::MAX - 48 {
            return Err(FormatError::Overflow);
        }
        let magic = read_u32(file, ByteOrder::Little);
        file.seek_to(start + 8);
        let width = read_u16(file, ByteOrder::Little);
        let height = read_u16(file, ByteOrder::Little);
        let pitch = read_u16(file, ByteOrder::Little);
        file.seek_to(start + 16);
        let mipmap_count = read_u16(file, ByteOrder::Little);
        file.seek_to(start + 24);
        let header_size = read_u32(file, ByteOrder::Little);
        file.seek_to(start + 36);
        let header_size_without_texture_name = read_u32(file, ByteOrder::Little);
        file.seek_to(start + 48);
        if header_size < header_size_without_texture_name {
            return Err(FormatError::Overflow);
        }
        let texture_name_length = header_size - header_size_without_texture_name;
        if texture_name_length != 0 && file.remaining() < texture_name_length as u64 {
            return Err(FormatError::UnexpectedEof);
        }
        let name_bytes = read_bytes(file, texture_name_length as u64);
        let texture_name = decode_text(name_bytes);
        let rest = file.remaining();
        let pixel_data = if rest > 0 {
            read_bytes(file, rest)
        } else {
            Vec::new()
        };
        proof {
            if rest > 0 {
                assert(take_bytes(file.data@, start + 48 + texture_name_length, rest as int)
                    =~= file.data@.subrange(start + 48 + texture_name_length, file.data@.len() as int));
            }
        }
        Ok(Texture {
            magic,
            width,
            height,
            pitch,
            mipmap_count,
            header_size,
            header_size_without_texture_name,
            texture_name,
            pixel_data,
        })
    }
}

} // verus!
