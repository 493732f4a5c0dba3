use vstd::prelude::*;
use vstd::utf8::valid_utf8;
use crate::error::FormatError;

verus! {

/// Byte order of a multi-byte integer field.
#[derive(Debug, Clone, Copy, PartialEq, Eq)]
pub enum ByteOrder {
    Big,
    Little,
}

/// A read position over a borrowed byte buffer, in the manner of an
/// in-memory stream: the position may point past the end, and reads there fail.
pub struct ByteCursor<'a> {
    pub data: &'a [u8],
    pub pos: u64,
}

// ---------------------------------------------------------------------------
// The integer encodings, as values of the bytes at an index.
// ---------------------------------------------------------------------------

pub open spec fn be_u16(b: Seq<u8>, i: int) -> int {
    b[i] * 0x100 + b[i + 1]
}

pub open spec fn le_u16(b: Seq<u8>, i: int) -> int {
    b[i] + b[i + 1] * 0x100
}

pub open spec fn be_u32(b: Seq<u8>, i: int) -> int {
    b[i] * 0x100_0000 + b[i + 1] * 0x1_0000 + b[i + 2] * 0x100 + b[i + 3]
}

pub open spec fn le_u32(b: Seq<u8>, i: int) -> int {
    b[i] + b[i + 1] * 0x100 + b[i + 2] * 0x1_0000 + b[i + 3] * 0x100_0000
}

pub open spec fn be_u64(b: Seq<u8>, i: int) -> int {
    be_u32(b, i) * 0x1_0000_0000 + be_u32(b, i + 4)
}

pub open spec fn le_u64(b: Seq<u8>, i: int) -> int {
    le_u32(b, i) + le_u32(b, i + 4) * 0x1_0000_0000
}

pub open spec fn u16_at(b: Seq<u8>, i: int, e: ByteOrder) -> int {
    match e {
        ByteOrder::Big => be_u16(b, i),
        ByteOrder::Little => le_u16(b, i),
    }
}

pub open spec fn u32_at(b: Seq<u8>, i: int, e: ByteOrder) -> int {
    match e {
        ByteOrder::Big => be_u32(b, i),
        ByteOrder::Little => le_u32(b, i),
    }
}

pub open spec fn u64_at(b: Seq<u8>, i: int, e: ByteOrder) -> int {
    match e {
        ByteOrder::Big => be_u64(b, i),
        ByteOrder::Little => le_u64(b, i),
    }
}

/// The bytes from `p` up to (not including) the first zero byte at or after `p`;
/// `None` when no zero byte follows.
pub open spec fn cstring_at(b: Seq<u8>, p: int) -> Option<Seq<u8>>
    decreases b.len() - p,
{
    if p < 0 || p >= b.len() {
        None
    } else if b[p] == 0 {
        Some(Seq::empty())
    } else {
        match cstring_at(b, p + 1) {
            Some(s) => Some(seq![b[p]] + s),
            None => None,
        }
    }
}

/// What reading a zero-terminated UTF-8 string at `p` gives.
pub open spec fn spec_read_cstring(b: Seq<u8>, p: int) -> Result<Seq<u8>, FormatError> {
    match cstring_at(b, p) {
        None => Err(FormatError::UnexpectedEof),
        Some(s) => if valid_utf8(s) {
            Ok(s)
        } else {
            Err(FormatError::InvalidUtf8)
        },
    }
}

/// The `n` bytes at `p`; reading no bytes succeeds anywhere, even past the end.
pub open spec fn take_bytes(b: Seq<u8>, p: int, n: int) -> Seq<u8> {
    if n == 0 {
        Seq::empty()
    } else {
        b.subrange(p, p + n)
    }
}

/// Whether `n` bytes can be read at `p`.
pub open spec fn can_take(b: Seq<u8>, p: int, n: int) -> bool {
    n == 0 || p + n <= b.len()
}

/// `o` rounded up to a multiple of `a`.
pub open spec fn round_up(o: int, a: int) -> int {
    ((o + a - 1) / a) * a
}

/// `s` without its trailing zero bytes.
pub open spec fn trim_trailing_zeros(s: Seq<u8>) -> Seq<u8>
    decreases s.len(),
{
    if s.len() > 0 && s.last() == 0 {
        trim_trailing_zeros(s.drop_last())
    } else {
        s
    }
}

/// The string at `p` is the bytes from `p` up to the first zero byte, which
/// lies inside the buffer.
pub proof fn lemma_cstring_at_len(b: Seq<u8>, p: int)
    requires
        cstring_at(b, p) is Some,
    ensures
        0 <= p,
        p + cstring_at(b, p).unwrap().len() < b.len(),
        b[p + cstring_at(b, p).unwrap().len()] == 0,
        cstring_at(b, p).unwrap() == b.subrange(p, p + cstring_at(b, p).unwrap().len()),
    decreases b.len() - p,
{
    if b[p] != 0 {
        lemma_cstring_at_len(b, p + 1);
        let s = cstring_at(b, p + 1).unwrap();
        assert(cstring_at(b, p).unwrap() =~= b.subrange(p, p + 1 + s.len()));
    } else {
        assert(cstring_at(b, p).unwrap() =~= b.subrange(p, p));
    }
}

/// Scanning from `p` to `z` over nonzero bytes does not change the result, up to the prefix.
proof fn lemma_cstring_skip(b: Seq<u8>, p: int, z: int)
    requires
        0 <= p <= z,
        z <= b.len(),
        forall|k: int| p <= k < z ==> b[k] != 0,
    ensures
        cstring_at(b, p) == match cstring_at(b, z) {
            Some(s) => Some(b.subrange(p, z) + s),
            None => None::<Seq<u8>>,
        },
    decreases z - p,
{
    if p < z {
        lemma_cstring_skip(b, p + 1, z);
        match cstring_at(b, z) {
            Some(s) => {
                assert(seq![b[p]] + (b.subrange(p + 1, z) + s) =~= b.subrange(p, z) + s);
            },
            None => {},
        }
    } else {
        match cstring_at(b, z) {
            Some(s) => {
                assert(b.subrange(p, z) + s =~= s);
            },
            None => {},
        }
    }
}

impl<'a> ByteCursor<'a> {
    /// A cursor at the start of `data`.
    pub fn new(data: &'a [u8]) -> (c: Self)
        ensures
            c.data@ == data@,
            c.pos == 0,
    {
        ByteCursor { data, pos: 0 }
    }

    /// A cursor at `pos` in `data`.
    pub fn at(data: &'a [u8], pos: u64) -> (c: Self)
        ensures
            c.data@ == data@,
            c.pos == pos,
    {
        ByteCursor { data, pos }
    }

    /// The current position.
    pub fn position(&self) -> (p: u64)
        ensures
            p == self.pos,
    {
        self.pos
    }

    /// How many bytes lie between the position and the end (zero past the end).
    pub fn remaining(&self) -> (n: u64)
        ensures
            n == if self.pos <= self.data@.len() {
                self.data@.len() - self.pos
            } else {
                0
            },
    {
        let len = self.data.len() as u64;
        if self.pos <= len {
            len - self.pos
        } else {
            0
        }
    }

    /// Moves to an absolute position.
    pub fn seek_to(&mut self, pos: u64)
        ensures
            final(self).data@ == old(self).data@,
            final(self).pos == pos,
    {
        self.pos = pos;
    }

    /// Moves forward by `n` bytes; fails when the position would overflow.
    pub fn skip(&mut self, n: u64) -> (r: Result<(), FormatError>)
        ensures
            final(self).data@ == old(self).data@,
            old(self).pos + n <= u64::MAX ==> r is Ok && final(self).pos == old(self).pos + n,
            old(self).pos + n > u64::MAX ==> r == Err::<(), FormatError>(FormatError::Overflow)
                && final(self).pos == old(self).pos,
    {
        match self.pos.checked_add(n) {
            Some(p) => {
                self.pos = p;
                Ok(())
            },
            None => Err(FormatError::Overflow),
        }
    }
}

/// Reads one byte (the byte order has no effect on a single byte).
pub fn read_u8(file: &mut ByteCursor, endianness: ByteOrder) -> (r: u8)
    requires
        old(file).pos + 1 <= old(file).data@.len(),
    ensures
        r == old(file).data@[old(file).pos as int],
        final(file).data@ == old(file).data@,
        final(file).pos == old(file).pos + 1,
{
    let p = file.pos as usize;
    let b = file.data[p];
    file.pos = file.pos + 1;
    b
}

/// Reads a 16-bit unsigned integer in the given byte order.
pub fn read_u16(file: &mut ByteCursor, endianness: ByteOrder) -> (r: u16)
    requires
        old(file).pos + 2 <= old(file).data@.len(),
    ensures
        r == u16_at(old(file).data@, old(file).pos as int, endianness),
        final(file).data@ == old(file).data@,
        final(file).pos == old(file).pos + 2,
{
    let p = file.pos as usize;
    let b0 = file.data[p] as u16;
    let b1 = file.data[p + 1] as u16;
    file.pos = file.pos + 2;
    match endianness {
        ByteOrder::Big => b0 * 0x100 + b1,
        ByteOrder::Little => b0 + b1 * 0x100,
    }
}

/// Reads a 32-bit unsigned integer in the given byte order.
pub fn read_u32(file: &mut ByteCursor, endianness: ByteOrder) -> (r: u32)
    requires
        old(file).pos + 4 <= old(file).data@.len(),
    ensures
        r == u32_at(old(file).data@, old(file).pos as int, endianness),
        final(file).data@ == old(file).data@,
        final(file).pos == old(file).pos + 4,
{
    let p = file.pos as usize;
    let b0 = file.data[p] as u32;
    let b1 = file.data[p + 1] as u32;
    let b2 = file.data[p + 2] as u32;
    let b3 = file.data[p + 3] as u32;
    file.pos = file.pos + 4;
    match endianness {
        ByteOrder::Big => b0 * 0x100_0000 + b1 * 0x1_0000 + b2 * 0x100 + b3,
        ByteOrder::Little => b0 + b1 * 0x100 + b2 * 0x1_0000 + b3 * 0x100_0000,
    }
}

/// Reads a 64-bit unsigned integer in the given byte order.
pub fn read_u64(file: &mut ByteCursor, endianness: ByteOrder) -> (r: u64)
    requires
        old(file).pos + 8 <= old(file).data@.len(),
    ensures
        r == u64_at(old(file).data@, old(file).pos as int, endianness),
        final(file).data@ == old(file).data@,
        final(file).pos == old(file).pos + 8,
{
    let ghost b = file.data@;
    let ghost p0 = file.pos as int;
    let first = read_u32(file, endianness) as u64;
    let second = read_u32(file, endianness) as u64;
    match endianness {
        ByteOrder::Big => {
            assert(first * 0x1_0000_0000 + second <= u64::MAX) by (nonlinear_arith)
                requires first <= u32::MAX, second <= u32::MAX;
            first * 0x1_0000_0000 + second
        },
        ByteOrder::Little => {
            assert(first + second * 0x1_0000_0000 <= u64::MAX) by (nonlinear_arith)
                requires first <= u32::MAX, second <= u32::MAX;
            first + second * 0x1_0000_0000
        },
    }
}

/// Reads `size` bytes.
pub fn read_bytes(file: &mut ByteCursor, size: u64) -> (r: Vec<u8>)
    requires
        can_take(old(file).data@, old(file).pos as int, size as int),
    ensures
        r@ == take_bytes(old(file).data@, old(file).pos as int, size as int),
        final(file).data@ == old(file).data@,
        final(file).pos == old(file).pos + size,
{
    if size == 0 {
        return Vec::new();
    }
    let len = file.data.len();
    let start = file.pos as usize;
    let end = start + size as usize;
    let mut out: Vec<u8> = Vec::new();
    let mut k = start;
    while k < end
        invariant
            start <= k <= end,
            end <= file.data@.len(),
            len == file.data@.len(),
            out@ == file.data@.subrange(start as int, k as int),
        decreases end - k,
    {
        out.push(file.data[k]);
        k = k + 1;
        assert(out@ =~= file.data@.subrange(start as int, k as int));
    }
    file.pos = file.pos + size;
    out
}

/// Whether the bytes are well-formed UTF-8, as the standard library decides it.
#[verifier::external_body]
fn utf8_is_valid(bytes: &[u8]) -> (r: bool)
    ensures
        r == valid_utf8(bytes@),
{
    std::str::from_utf8(bytes).is_ok()
}

/// What the standard library makes of bytes read as UTF-8 with every invalid
/// sequence replaced by U+FFFD.
pub uninterp spec fn lossy_utf8(s: Seq<u8>) -> Seq<u8>;

/// `String::from_utf8_lossy`, as bytes: the text of the bytes with each
/// invalid sequence replaced by U+FFFD.  The result is well-formed UTF-8, and
/// bytes that are well-formed UTF-8 already come back unchanged.
#[verifier::external_body]
fn utf8_lossy(bytes: &[u8]) -> (r: Vec<u8>)
    ensures
        r@ == lossy_utf8(bytes@),
        valid_utf8(r@),
        valid_utf8(bytes@) ==> r@ == bytes@,
{
    String::from_utf8_lossy(bytes).into_owned().into_bytes()
}

/// The text of a fixed-size field: its bytes read as UTF-8 (invalid
/// sequences replaced), without trailing zero bytes.
pub open spec fn text_of(raw: Seq<u8>) -> Seq<u8> {
    trim_trailing_zeros(lossy_utf8(raw))
}

/// Decodes the text of a fixed-size field (see `text_of`).
pub fn decode_text(raw: Vec<u8>) -> (r: Vec<u8>)
    ensures
        r@ == text_of(raw@),
{
    trim_zeros(utf8_lossy(raw.as_slice()))
}

/// Checks that a byte string is well-formed UTF-8.
pub fn check_utf8(bytes: &Vec<u8>) -> (r: bool)
    ensures
        r == valid_utf8(bytes@),
{
    utf8_is_valid(bytes.as_slice())
}

/// Reads a zero-terminated UTF-8 string; the terminator is consumed but not returned.
/// On failure the cursor does not move.
pub fn read_cstring(file: &mut ByteCursor) -> (r: Result<Vec<u8>, FormatError>)
    ensures
        final(file).data@ == old(file).data@,
        match r {
            Ok(s) => spec_read_cstring(old(file).data@, old(file).pos as int) == Ok::<Seq<u8>, FormatError>(s@)
                && final(file).pos == old(file).pos + s@.len() + 1,
            Err(e) => spec_read_cstring(old(file).data@, old(file).pos as int) == Err::<Seq<u8>, FormatError>(e)
                && final(file).pos == old(file).pos,
        },
{
    let len = file.data.len();
    let ghost b = file.data@;
    let ghost p = file.pos as int;
    if file.pos >= len as u64 {
        return Err(FormatError::UnexpectedEof);
    }
    let start = file.pos as usize;
    let mut z = start;
    while z < len && file.data[z] != 0
        invariant
            start <= z <= len,
            len == b.len(),
            b == file.data@,
            p == start,
            forall|k: int| start <= k < z ==> b[k] != 0,
        decreases len - z,
    {
        z = z + 1;
    }
    proof {
        lemma_cstring_skip(b, p, z as int);
    }
    if z == len {
        return Err(FormatError::UnexpectedEof);
    }
    let mut out: Vec<u8> = Vec::new();
    let mut k = start;
    while k < z
        invariant
            start <= k <= z,
            z < len,
            len == file.data@.len(),
            out@ == file.data@.subrange(start as int, k as int),
        decreases z - k,
    {
        out.push(file.data[k]);
        k = k + 1;
        assert(out@ =~= file.data@.subrange(start as int, k as int));
    }
    assert(cstring_at(b, z as int) == Some(Seq::<u8>::empty()));
    assert(b.subrange(p, z as int) + Seq::<u8>::empty() =~= out@);
    if !check_utf8(&out) {
        return Err(FormatError::InvalidUtf8);
    }
    file.pos = (z + 1) as u64;
    Ok(out)
}

/// Removes the trailing zero bytes of a fixed-size text field.
pub fn trim_zeros(bytes: Vec<u8>) -> (r: Vec<u8>)
    ensures
        r@ == trim_trailing_zeros(bytes@),
{
    let mut v = bytes;
    while v.len() > 0 && v[v.len() - 1] == 0
        invariant
            trim_trailing_zeros(v@) == trim_trailing_zeros(bytes@),
        decreases v.len(),
    {
        let ghost before = v@;
        v.pop();
        assert(v@ =~= before.drop_last());
    }
    v
}

proof fn lemma_round_up_bits(o: u64, a: u64)
    requires
        a == 4 || a == 8 || a == 32,
        o + a - 1 <= u64::MAX,
    ensures
        ((o + a - 1) as u64) & !((a - 1) as u64) == round_up(o as int, a as int),
        o <= round_up(o as int, a as int) < o + a,
        round_up(o as int, a as int) % (a as int) == 0,
{
    let x = (o + a - 1) as u64;
    if a == 4 {
        assert(x & !3u64 == x - x % 4) by (bit_vector);
    } else if a == 8 {
        assert(x & !7u64 == x - x % 8) by (bit_vector);
    } else {
        assert(x & !31u64 == x - x % 32) by (bit_vector);
    }
    assert((x / a) * a == x - x % a) by (nonlinear_arith)
        requires a > 0;
    assert(x - x % a == round_up(o as int, a as int));
    assert(((x / a) * a) % (a as int) == 0) by (nonlinear_arith)
        requires a > 0;
}

/// Moves the position up to the next multiple of `alignment` and returns it.
pub(crate) fn align(file: &mut ByteCursor, alignment: u64) -> (r: Result<u64, FormatError>)
    requires
        alignment == 4 || alignment == 8 || alignment == 32,
    ensures
        final(file).data@ == old(file).data@,
        old(file).pos + alignment - 1 <= u64::MAX ==> r == Ok::<u64, FormatError>(
            round_up(old(file).pos as int, alignment as int) as u64)
            && final(file).pos == round_up(old(file).pos as int, alignment as int)
            && final(file).pos % alignment == 0
            && old(file).pos <= final(file).pos < old(file).pos + alignment,
        old(file).pos + alignment - 1 > u64::MAX ==> r == Err::<u64, FormatError>(
            FormatError::Overflow),
{
    let offset = file.pos;
    if offset > u64::MAX - (alignment - 1) {
        return Err(FormatError::Overflow);
    }
    let aligned = (offset + (alignment - 1)) & !(alignment - 1);
    proof {
        lemma_round_up_bits(offset, alignment);
    }
    file.pos = aligned;
    Ok(aligned)
}

} // verus!
