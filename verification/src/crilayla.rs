use vstd::prelude::*;
use vstd::arithmetic::power2::{pow2, lemma_pow2_unfold, lemma2_to64};
use bitstream_io::{BigEndian, BitRead, BitReader};
use crate::cursor::{ByteCursor, ByteOrder, le_u32, le_u64, read_bytes, read_u32, read_u64, take_bytes};
use crate::error::FormatError;

verus! {

/// A big-endian `bitstream_io::BitReader` over a byte slice, which hands out
/// the bits of the slice one field at a time.
#[verifier::external_body]
pub struct StreamBits<'a> {
    reader: BitReader<&'a [u8], BigEndian>,
}

/// The bits that the reader has yet to hand out, first bit first.
pub uninterp spec fn bit_reader_queue(r: StreamBits) -> Seq<bool>;

/// The bits of a byte string, most significant bit of each byte first.
pub open spec fn bits_of(bytes: Seq<u8>) -> Seq<bool> {
    Seq::new(bytes.len() * 8, |i: int| (bytes[i / 8] >> ((7 - i % 8) as u8)) & 1 == 1)
}

/// The unsigned number that a bit string spells, most significant bit first.
pub open spec fn bits_value(bits: Seq<bool>) -> nat
    decreases bits.len(),
{
    if bits.len() == 0 {
        0
    } else {
        bits_value(bits.drop_last()) * 2 + if bits.last() {
            1nat
        } else {
            0nat
        }
    }
}

/// `bitstream_io::BitReader::endian` over a byte slice, in big-endian bit order:
/// the reader hands out the bits of the slice, most significant bit of each byte first.
#[verifier::external_body]
fn new_bit_reader<'a>(data: &'a [u8]) -> (r: StreamBits<'a>)
    ensures
        bit_reader_queue(r) == bits_of(data@),
{
    StreamBits { reader: BitReader::endian(data, BigEndian) }
}

/// `bitstream_io::BitRead::read_var::<u16>`: takes the next `bits` bits and returns
/// the number they spell; fails (`None`) when fewer bits are left.  What the
/// reader holds after a failure is not stated.
#[verifier::external_body]
fn read_bits(r: &mut StreamBits, bits: u32) -> (v: Option<u16>)
    requires
        1 <= bits <= 16,
    ensures
        bit_reader_queue(*old(r)).len() >= bits ==> (v matches Some(x) && x == bits_value(
            bit_reader_queue(*old(r)).take(bits as int),
        ) && bit_reader_queue(*final(r)) == bit_reader_queue(*old(r)).skip(bits as int)),
        bit_reader_queue(*old(r)).len() < bits ==> v is None,
{
    r.reader.read_var::<u16>(bits).ok()
}

/// A CRILAYLA-compressed file: the compressed stream is read backwards, bit by
/// bit, and produces the decompressed bytes in reverse; the first 256 bytes of
/// the result are stored uncompressed after the stream.
#[derive(Debug, Clone, PartialEq, Eq)]
pub struct Crilayla {
    pub magic: u64,
    pub uncompressed_size: u32,
    pub compressed_size: u32,
    pub compressed_data: Vec<u8>,
    pub uncompressed_data_header: Vec<u8>,
    pub output_decompressed: Vec<u8>,
}

/// Width of the `i`-th field of a back-reference length: 2, 3, 5, then 8 bits.
pub open spec fn level_width(i: nat) -> nat {
    if i == 0 {
        2
    } else if i == 1 {
        3
    } else if i == 2 {
        5
    } else {
        8
    }
}

/// The all-ones value of the `i`-th length field, which says that another field follows.
pub open spec fn level_all_ones(i: nat) -> nat {
    if i == 0 {
        3
    } else if i == 1 {
        7
    } else if i == 2 {
        31
    } else {
        255
    }
}

/// The length of a back-reference: starting from `len`, the fields from level
/// `i` on are added until one is not all ones; the length is a 16-bit number.
/// Gives the length and the bits after the fields.
pub open spec fn spec_reference_length(bits: Seq<bool>, i: nat, len: int) -> Result<
    (int, Seq<bool>),
    FormatError,
>
    decreases bits.len(),
{
    let w = level_width(i);
    if bits.len() < w {
        Err(FormatError::UnexpectedEof)
    } else {
        let v = bits_value(bits.take(w as int));
        if len + v > u16::MAX {
            Err(FormatError::Overflow)
        } else if v == level_all_ones(i) {
            spec_reference_length(bits.skip(w as int), i + 1, len + v)
        } else {
            Ok((len + v, bits.skip(w as int)))
        }
    }
}

/// `out` followed by `n` bytes copied from `offset` bytes back, the copy
/// overlapping itself when `n` exceeds `offset`.
pub open spec fn lz_copy(out: Seq<u8>, offset: int, n: int) -> Seq<u8> {
    Seq::new(
        (out.len() + n) as nat,
        |i: int|
            if i < out.len() {
                out[i]
            } else {
                out[out.len() - offset + (i - out.len()) % offset]
            },
    )
}

/// The length fields only add to a back-reference length.
pub proof fn lemma_reference_length_grows(bits: Seq<bool>, i: nat, len: int)
    ensures
        spec_reference_length(bits, i, len) matches Ok((n, _)) ==> n >= len,
    decreases bits.len(),
{
    let w = level_width(i);
    if bits.len() >= w {
        let v = bits_value(bits.take(w as int));
        if len + v <= u16::MAX && v == level_all_ones(i) {
            lemma_reference_length_grows(bits.skip(w as int), i + 1, len + v);
        }
    }
}

/// Decoding from `bits` until `out` holds at least `target` bytes.  A zero
/// control bit is followed by a literal byte (8 bits); a one control bit by a
/// back-reference: a 13-bit distance (plus 3) and a length (from 3 on).
pub open spec fn spec_crilayla_decode(bits: Seq<bool>, out: Seq<u8>, target: int) -> Result<
    Seq<u8>,
    FormatError,
>
    decreases (if out.len() < target {
        target - out.len()
    } else {
        0
    }),
{
    if out.len() >= target {
        Ok(out)
    } else if bits.len() < 1 {
        Err(FormatError::UnexpectedEof)
    } else if !bits[0] {
        if bits.len() < 9 {
            Err(FormatError::UnexpectedEof)
        } else {
            spec_crilayla_decode(
                bits.skip(9),
                out.push(bits_value(bits.subrange(1, 9)) as u8),
                target,
            )
        }
    } else if bits.len() < 14 {
        Err(FormatError::UnexpectedEof)
    } else {
        let offset = bits_value(bits.subrange(1, 14)) + 3int;
        match spec_reference_length(bits.skip(14), 0, 3) {
            Err(e) => Err(e),
            Ok((n, rest)) => if offset > out.len() {
                Err(FormatError::InvalidBackReference)
            } else {
                proof {
                    lemma_reference_length_grows(bits.skip(14), 0, 3);
                }
                spec_crilayla_decode(rest, lz_copy(out, offset, n), target)
            },
        }
    }
}

/// The decompressed file: the stored header, then the decoded bytes reversed.
pub open spec fn spec_decompress(
    compressed: Seq<u8>,
    header: Seq<u8>,
    out: Seq<u8>,
    uncompressed_size: u32,
) -> Result<Seq<u8>, FormatError> {
    match spec_crilayla_decode(bits_of(compressed.reverse()), out, uncompressed_size as int) {
        Ok(o) => Ok(header + o.reverse()),
        Err(e) => Err(e),
    }
}

/// Decoding only appends: a successful decode keeps what was already in the
/// output and reaches the target length.
pub proof fn lemma_crilayla_decode_extends(bits: Seq<bool>, out: Seq<u8>, target: int)
    ensures
        spec_crilayla_decode(bits, out, target) matches Ok(o) ==> o.len() >= target && o.len()
            >= out.len() && o.take(out.len() as int) == out,
    decreases (if out.len() < target {
        target - out.len()
    } else {
        0
    }),
{
    if out.len() < target && bits.len() >= 1 {
        if !bits[0] {
            if bits.len() >= 9 {
                let next = out.push(bits_value(bits.subrange(1, 9)) as u8);
                lemma_crilayla_decode_extends(bits.skip(9), next, target);
                if spec_crilayla_decode(bits, out, target) is Ok {
                    let o = spec_crilayla_decode(bits, out, target)->Ok_0;
                    assert(o.take(out.len() as int) =~= o.take(next.len() as int).take(out.len() as int));
                    assert(next.take(out.len() as int) =~= out);
                }
            }
        } else if bits.len() >= 14 {
            let offset = bits_value(bits.subrange(1, 14)) + 3int;
            lemma_reference_length_grows(bits.skip(14), 0, 3);
            match spec_reference_length(bits.skip(14), 0, 3) {
                Err(_) => {},
                Ok((n, rest)) => {
                    if offset <= out.len() {
                        let next = lz_copy(out, offset, n);
                        lemma_crilayla_decode_extends(rest, next, target);
                        if spec_crilayla_decode(bits, out, target) is Ok {
                            let o = spec_crilayla_decode(bits, out, target)->Ok_0;
                            assert(o.take(out.len() as int) =~= o.take(next.len() as int).take(
                                out.len() as int,
                            ));
                            assert(next.take(out.len() as int) =~= out);
                        }
                    }
                },
            }
        }
    }
}

/// A successful decompression from an empty output gives the stored header
/// first, then at least `uncompressed_size` decoded bytes.
pub proof fn lemma_decompress_shape(
    compressed: Seq<u8>,
    header: Seq<u8>,
    uncompressed_size: u32,
)
    ensures
        spec_decompress(compressed, header, Seq::empty(), uncompressed_size) matches Ok(v) ==> v.len()
            >= header.len() + uncompressed_size && v.take(header.len() as int) == header,
{
    lemma_crilayla_decode_extends(
        bits_of(compressed.reverse()),
        Seq::empty(),
        uncompressed_size as int,
    );
    if spec_decompress(compressed, header, Seq::empty(), uncompressed_size) is Ok {
        let o = spec_crilayla_decode(
            bits_of(compressed.reverse()),
            Seq::empty(),
            uncompressed_size as int,
        )->Ok_0;
        assert((header + o.reverse()).take(header.len() as int) =~= header);
    }
}

/// A copy from `offset` bytes back keeps the output and appends `n` bytes,
/// each equal to the byte `offset` places before it.
pub proof fn lemma_lz_copy_repeats(out: Seq<u8>, offset: int, n: int)
    requires
        0 < offset <= out.len(),
        0 <= n,
    ensures
        lz_copy(out, offset, n).len() == out.len() + n,
        lz_copy(out, offset, n).take(out.len() as int) == out,
        forall|k: int|
            out.len() <= k < out.len() + n ==> #[trigger] lz_copy(out, offset, n)[k] == lz_copy(
                out,
                offset,
                n,
            )[k - offset],
{
    let w = lz_copy(out, offset, n);
    let len = out.len() as int;
    assert(w.take(len) =~= out);
    assert forall|k: int| len <= k < len + n implies #[trigger] w[k] == w[k - offset] by {
        let j = k - len;
        if k - offset < len {
            assert(j % offset == j) by (nonlinear_arith)
                requires
                    0 <= j < offset,
            ;
        } else {
            assert((j - offset) % offset == j % offset) by (nonlinear_arith)
                requires
                    j >= offset,
                    offset > 0,
            ;
        }
    }
}

/// One step of decoding.  A zero control bit is followed by a literal: the
/// next 8 bits, most significant first, are the byte appended.  A one control
/// bit is followed by a back-reference: the next 13 bits plus 3 are the
/// distance, then the length fields give the length; the bytes appended each
/// repeat the byte that distance back.
pub proof fn lemma_decode_step(bits: Seq<bool>, out: Seq<u8>, target: int)
    requires
        out.len() < target,
    ensures
        bits.len() >= 9 && !bits[0] ==> spec_crilayla_decode(bits, out, target)
            == spec_crilayla_decode(
            bits.skip(9),
            out.push(
                (bits_value(bits.subrange(1, 5)) * 16 + bits_value(bits.subrange(5, 9))) as u8,
            ),
            target,
        ),
        bits.len() >= 14 && bits[0] ==> match spec_reference_length(bits.skip(14), 0, 3) {
            Err(e) => spec_crilayla_decode(bits, out, target) == Err::<Seq<u8>, FormatError>(e),
            Ok((n, rest)) => {
                let distance = bits_value(bits.subrange(1, 14)) + 3int;
                if distance > out.len() {
                    spec_crilayla_decode(bits, out, target) == Err::<Seq<u8>, FormatError>(
                        FormatError::InvalidBackReference,
                    )
                } else {
                    &&& spec_crilayla_decode(bits, out, target) == spec_crilayla_decode(
                        rest,
                        lz_copy(out, distance, n),
                        target,
                    )
                    &&& lz_copy(out, distance, n).len() == out.len() + n
                    &&& lz_copy(out, distance, n).take(out.len() as int) == out
                    &&& forall|k: int|
                        out.len() <= k < out.len() + n ==> #[trigger] lz_copy(out, distance, n)[k]
                            == lz_copy(out, distance, n)[k - distance]
                }
            },
        },
{
    if bits.len() >= 9 && !bits[0] {
        lemma2_to64();
        lemma_bits_value_split(bits.subrange(1, 9), 4);
        assert(bits.subrange(1, 9).take(4) =~= bits.subrange(1, 5));
        assert(bits.subrange(1, 9).skip(4) =~= bits.subrange(5, 9));
    }
    if bits.len() >= 14 && bits[0] {
        lemma_reference_length_grows(bits.skip(14), 0, 3);
        if let Ok((n, rest)) = spec_reference_length(bits.skip(14), 0, 3) {
            let distance = bits_value(bits.subrange(1, 14)) + 3int;
            if distance <= out.len() {
                lemma_lz_copy_repeats(out, distance, n);
            }
        }
    }
}

/// The value of a bit string is the value of its first `k` bits shifted past
/// the rest, plus the value of the rest.
proof fn lemma_bits_value_split(bits: Seq<bool>, k: int)
    requires
        0 <= k <= bits.len(),
    ensures
        bits_value(bits) == bits_value(bits.take(k)) * pow2((bits.len() - k) as nat) + bits_value(
            bits.skip(k),
        ),
    decreases bits.len() - k,
{
    if k == bits.len() {
        assert(bits.take(k) =~= bits);
        assert(bits.skip(k) =~= Seq::<bool>::empty());
        lemma2_to64();
    } else {
        lemma_bits_value_split(bits.drop_last(), k);
        assert(bits.drop_last().take(k) =~= bits.take(k));
        assert(bits.skip(k).drop_last() =~= bits.drop_last().skip(k));
        assert(bits.skip(k).last() == bits.last());
        let m = (bits.len() - 1 - k) as nat;
        lemma_pow2_unfold(m + 1);
        let a = bits_value(bits.take(k));
        let r = bits_value(bits.drop_last().skip(k));
        let c: int = if bits.last() { 1 } else { 0 };
        assert((a * pow2(m) + r) * 2 + c == a * (pow2(m) * 2) + (r * 2 + c)) by (nonlinear_arith);
    }
}

/// The length of a back-reference: 3 plus a 2-bit field; when that field is
/// all ones, plus a 3-bit field; when that one is all ones too, plus a 5-bit
/// field; then plus 8-bit fields for as long as the last is all ones.
pub proof fn lemma_reference_length_fields(bits: Seq<bool>)
    ensures
        ({
            let v0 = bits_value(bits.take(2));
            let v1 = bits_value(bits.subrange(2, 5));
            let v2 = bits_value(bits.subrange(5, 10));
            let v3 = bits_value(bits.subrange(10, 18));
            &&& bits.len() < 2 ==> spec_reference_length(bits, 0, 3) == Err::<(int, Seq<bool>), FormatError>(
                FormatError::UnexpectedEof,
            )
            &&& bits.len() >= 2 && v0 < 3 ==> spec_reference_length(bits, 0, 3) == Ok::<
                (int, Seq<bool>),
                FormatError,
            >((3 + v0 as int, bits.skip(2)))
            &&& bits.len() >= 5 && v0 == 3 && v1 < 7 ==> spec_reference_length(bits, 0, 3) == Ok::<
                (int, Seq<bool>),
                FormatError,
            >((6 + v1 as int, bits.skip(5)))
            &&& bits.len() >= 10 && v0 == 3 && v1 == 7 && v2 < 31 ==> spec_reference_length(
                bits,
                0,
                3,
            ) == Ok::<(int, Seq<bool>), FormatError>((13 + v2 as int, bits.skip(10)))
            &&& bits.len() >= 18 && v0 == 3 && v1 == 7 && v2 == 31 && v3 < 255
                ==> spec_reference_length(bits, 0, 3) == Ok::<(int, Seq<bool>), FormatError>(
                (44 + v3 as int, bits.skip(18)),
            )
        }),
{
    reveal_with_fuel(spec_reference_length, 5);
    let s2 = bits.skip(2);
    let s5 = bits.skip(5);
    let s10 = bits.skip(10);
    if bits.len() >= 5 {
        assert(s2.take(3) =~= bits.subrange(2, 5));
        assert(s2.skip(3) =~= s5);
    }
    if bits.len() >= 10 {
        assert(s5.take(5) =~= bits.subrange(5, 10));
        assert(s5.skip(5) =~= s10);
    }
    if bits.len() >= 18 {
        assert(s10.take(8) =~= bits.subrange(10, 18));
        assert(s10.skip(8) =~= bits.skip(18));
    }
    if bits.len() >= 2 {
        lemma_bits_value_bound(bits.take(2));
        lemma2_to64();
    }
    if bits.len() >= 5 {
        lemma_bits_value_bound(bits.subrange(2, 5));
    }
    if bits.len() >= 10 {
        lemma_bits_value_bound(bits.subrange(5, 10));
    }
    if bits.len() >= 18 {
        lemma_bits_value_bound(bits.subrange(10, 18));
    }
}

/// Whether a CRILAYLA header and its data fit at `p`.
pub open spec fn crilayla_fits(b: Seq<u8>, p: int) -> bool {
    &&& p + 16 <= b.len()
    &&& p + 16 + le_u32(b, p + 12) + 256 <= b.len()
}

proof fn lemma_bits_value_bound(bits: Seq<bool>)
    ensures
        bits_value(bits) < pow2(bits.len()),
    decreases bits.len(),
{
    if bits.len() > 0 {
        lemma_bits_value_bound(bits.drop_last());
        lemma_pow2_unfold(bits.len());
    } else {
        lemma2_to64();
    }
}

fn reverse_bytes(v: &mut Vec<u8>)
    ensures
        final(v)@ == old(v)@.reverse(),
{
    let n = v.len();
    let mut i: usize = 0;
    while i < n / 2
        invariant
            n == v@.len(),
            n == old(v)@.len(),
            i <= n / 2,
            forall|k: int| 0 <= k < i ==> v@[k] == old(v)@[n - 1 - k],
            forall|k: int| 0 <= k < i ==> v@[n - 1 - k] == old(v)@[k],
            forall|k: int| i <= k < n - i ==> v@[k] == old(v)@[k],
        decreases n / 2 - i,
    {
        let a = v[i];
        let b = v[n - 1 - i];
        v.set(i, b);
        v.set(n - 1 - i, a);
        i = i + 1;
    }
    assert(v@ =~= old(v)@.reverse());
}


/// Reads the length fields of a back-reference (the length starts at 3).
fn read_reference_length(reader: &mut StreamBits) -> (r: Result<u16, FormatError>)
    ensures
        match r {
            Ok(n) => spec_reference_length(bit_reader_queue(*old(reader)), 0, 3) == Ok::<
                (int, Seq<bool>),
                FormatError,
            >((n as int, bit_reader_queue(*final(reader)))),
            Err(e) => spec_reference_length(bit_reader_queue(*old(reader)), 0, 3) == Err::<
                (int, Seq<bool>),
                FormatError,
            >(e),
        },
{
    let mut reference_length: u16 = 3;
    let mut level: usize = 0;
    let ghost mut gi: nat = 0;
    let ghost lengths = spec_reference_length(bit_reader_queue(*reader), 0, 3);
    loop
        invariant_except_break
            level == if gi < 3 {
                gi
            } else {
                3
            },
            lengths == spec_reference_length(bit_reader_queue(*old(reader)), 0, 3),
            lengths == spec_reference_length(
                bit_reader_queue(*reader),
                gi,
                reference_length as int,
            ),
        ensures
            lengths == Ok::<(int, Seq<bool>), FormatError>(
                (reference_length as int, bit_reader_queue(*reader)),
            ),
        decreases bit_reader_queue(*reader).len(),
    {
        let ghost ql = bit_reader_queue(*reader);
        let w = Crilayla::levels(level);
        assert(level_width(level as nat) == level_width(gi));
        let v = match read_bits(reader, w) {
            Some(v) => v,
            None => return Err(FormatError::UnexpectedEof),
        };
        let ones: u16 = if level == 0 {
            3
        } else if level == 1 {
            7
        } else if level == 2 {
            31
        } else {
            255
        };
        assert(ones == level_all_ones(gi));
        if v > u16::MAX - reference_length {
            return Err(FormatError::Overflow);
        }
        reference_length = reference_length + v;
        if v != ones {
            break;
        }
        if level < 3 {
            level = level + 1;
        }
        proof {
            gi = gi + 1;
        }
    }
    Ok(reference_length)
}

/// Appends `n` bytes copied from `offset` bytes back, one at a time, so that
/// the copy may overlap the bytes it appends.
fn lz_extend(out: &mut Vec<u8>, offset: u16, n: u16)
    requires
        3 <= offset <= old(out)@.len(),
    ensures
        final(out)@ == lz_copy(old(out)@, offset as int, n as int),
{
    let ghost base = out@;
    let mut k: u16 = 0;
    assert(out@ =~= lz_copy(base, offset as int, 0));
    while k < n
        invariant
            0 <= k <= n,
            3 <= offset <= base.len(),
            base == old(out)@,
            out@ == lz_copy(base, offset as int, k as int),
        decreases n - k,
    {
        let len = out.len();
        let byte = out[len - offset as usize];
        proof {
            let o = offset as int;
            let kk = k as int;
            if kk >= o {
                assert((kk - o) % o == kk % o) by (nonlinear_arith)
                    requires
                        kk >= o,
                        o > 0,
                ;
            } else {
                assert(kk % o == kk) by (nonlinear_arith)
                    requires
                        0 <= kk < o,
                ;
            }
        }
        out.push(byte);
        k = k + 1;
        assert(out@ =~= lz_copy(base, offset as int, k as int));
    }
}

impl Crilayla {
    /// The width of the `index`-th length field: 2, 3, 5, then 8 for all later fields.
    pub fn levels(index: usize) -> (w: u32)
        ensures
            w == level_width(index as nat),
    {
        if index == 0 {
            2
        } else if index == 1 {
            3
        } else if index == 2 {
            5
        } else {
            8
        }
    }

    /// Reads the little-endian header (magic, uncompressed size, compressed
    /// size), the compressed stream and the 256 stored bytes.
    pub fn build(file: &mut ByteCursor) -> (r: Result<Self, FormatError>)
        ensures
            final(file).data@ == old(file).data@,
            ({
                let b = old(file).data@;
                let p = old(file).pos as int;
                match r {
                    Ok(c) => crilayla_fits(b, p) && c.magic == le_u64(b, p)
                        && c.uncompressed_size == le_u32(b, p + 8)
                        && c.compressed_size == le_u32(b, p + 12)
                        && c.compressed_data@ == take_bytes(b, p + 16, c.compressed_size as int)
                        && c.uncompressed_data_header@ == b.subrange(
                        p + 16 + c.compressed_size,
                        p + 16 + c.compressed_size + 256,
                    ) && c.output_decompressed@.len() == 0 && final(file).pos == p + 16
                        + c.compressed_size + 256,
                    Err(e) => !crilayla_fits(b, p) && e == FormatError::UnexpectedEof,
                }
            }),
    {
        if file.remaining() < 16 {
            return Err(FormatError::UnexpectedEof);
        }
        let magic = read_u64(file, ByteOrder::Little);
        let uncompressed_size = read_u32(file, ByteOrder::Little);
        let compressed_size = read_u32(file, ByteOrder::Little);
        let rem = file.remaining();
        if rem < 256 || rem - 256 < compressed_size as u64 {
            return Err(FormatError::UnexpectedEof);
        }
        let compressed_data = read_bytes(file, compressed_size as u64);
        let uncompressed_data_header = read_bytes(file, 256);
        Ok(Crilayla {
            magic,
            uncompressed_size,
            compressed_size,
            compressed_data,
            uncompressed_data_header,
            output_decompressed: Vec::new(),
        })
    }

    /// Decompresses: reverses the compressed stream (in place), decodes it
    /// into `output_decompressed` until at least `uncompressed_size` bytes are
    /// there, and returns the stored header followed by the output reversed.
    pub fn decompress_crilayla(&mut self) -> (r: Result<Vec<u8>, FormatError>)
        ensures
            final(self).compressed_data@ == old(self).compressed_data@.reverse(),
            final(self).magic == old(self).magic,
            final(self).uncompressed_size == old(self).uncompressed_size,
            final(self).compressed_size == old(self).compressed_size,
            final(self).uncompressed_data_header@ == old(self).uncompressed_data_header@,
            r is Ok ==> spec_crilayla_decode(
                bits_of(old(self).compressed_data@.reverse()),
                old(self).output_decompressed@,
                old(self).uncompressed_size as int,
            ) == Ok::<Seq<u8>, FormatError>(final(self).output_decompressed@),
            ({
                let spec = spec_decompress(
                    old(self).compressed_data@,
                    old(self).uncompressed_data_header@,
                    old(self).output_decompressed@,
                    old(self).uncompressed_size,
                );
                match r {
                    Ok(v) => spec == Ok::<Seq<u8>, FormatError>(v@),
                    Err(e) => spec == Err::<Seq<u8>, FormatError>(e),
                }
            }),
    {
        reverse_bytes(&mut self.compressed_data);
        let ghost out0 = self.output_decompressed@;
        let target = self.uncompressed_size as usize;
        let ghost bits0 = bits_of(self.compressed_data@);
        let mut reader = new_bit_reader(self.compressed_data.as_slice());
        let ghost total = spec_crilayla_decode(bits0, out0, target as int);
        while self.output_decompressed.len() < target
            invariant
                target == self.uncompressed_size,
                self.compressed_data@ == old(self).compressed_data@.reverse(),
                self.magic == old(self).magic,
                self.uncompressed_size == old(self).uncompressed_size,
                self.compressed_size == old(self).compressed_size,
                self.uncompressed_data_header@ == old(self).uncompressed_data_header@,
                out0 == old(self).output_decompressed@,
                bits0 == bits_of(old(self).compressed_data@.reverse()),
                total == spec_crilayla_decode(bits0, out0, target as int),
                total == spec_crilayla_decode(
                    bit_reader_queue(reader),
                    self.output_decompressed@,
                    target as int,
                ),
            decreases (if self.output_decompressed@.len() < target {
                target - self.output_decompressed@.len()
            } else {
                0
            }),
        {
            let ghost q = bit_reader_queue(reader);
            let ghost out = self.output_decompressed@;
            let control = match read_bits(&mut reader, 1) {
                Some(v) => v,
                None => return Err(FormatError::UnexpectedEof),
            };
            assert(q.take(1) =~= seq![q[0]]);
            assert(q.take(1).drop_last() =~= Seq::<bool>::empty());
            assert(bits_value(Seq::<bool>::empty()) == 0);
            assert(control == 0 <==> !q[0]);
            if control == 0 {
                let ghost q1 = bit_reader_queue(reader);
                let byte = match read_bits(&mut reader, 8) {
                    Some(v) => v,
                    None => return Err(FormatError::UnexpectedEof),
                };
                proof {
                    lemma_bits_value_bound(q1.take(8));
                    lemma2_to64();
                    assert(q1.take(8) =~= q.subrange(1, 9));
                    assert(bit_reader_queue(reader) =~= q.skip(9));
                }
                self.output_decompressed.push(byte as u8);
            } else {
                assert(spec_crilayla_decode(q, out, target as int) == if q.len() < 14 {
                    Err(FormatError::UnexpectedEof)
                } else {
                    let offset = bits_value(q.subrange(1, 14)) + 3int;
                    match spec_reference_length(q.skip(14), 0, 3) {
                        Err(e) => Err(e),
                        Ok((n, rest)) => if offset > out.len() {
                            Err(FormatError::InvalidBackReference)
                        } else {
                            spec_crilayla_decode(rest, lz_copy(out, offset, n), target as int)
                        },
                    }
                });
                let ghost q1 = bit_reader_queue(reader);
                let raw = match read_bits(&mut reader, 13) {
                    Some(v) => v,
                    None => return Err(FormatError::UnexpectedEof),
                };
                proof {
                    lemma_bits_value_bound(q1.take(13));
                    lemma2_to64();
                    assert(q1.take(13) =~= q.subrange(1, 14));
                    assert(bit_reader_queue(reader) =~= q.skip(14));
                }
                let offset: u16 = raw + 3;
                let reference_length = match read_reference_length(&mut reader) {
                    Ok(n) => n,
                    Err(e) => return Err(e),
                };
                if offset as usize > self.output_decompressed.len() {
                    return Err(FormatError::InvalidBackReference);
                }
                proof {
                    lemma_reference_length_grows(q.skip(14), 0, 3);
                }
                lz_extend(&mut self.output_decompressed, offset, reference_length);
            }
        }
        let mut result = self.uncompressed_data_header.clone();
        let n = self.output_decompressed.len();
        let ghost head = result@;
        let mut k: usize = 0;
        while k < n
            invariant
                n == self.output_decompressed@.len(),
                0 <= k <= n,
                result@ == head + self.output_decompressed@.reverse().take(k as int),
            decreases n - k,
        {
            result.push(self.output_decompressed[n - 1 - k]);
            k = k + 1;
            assert(result@ =~= head + self.output_decompressed@.reverse().take(k as int));
        }
        assert(self.output_decompressed@.reverse().take(n as int) =~= self.output_decompressed@.reverse());
        Ok(result)
    }
}

} // verus!
