use vstd::prelude::*;
use crate::cpk::{DataTableRow, DataTableRowView, bytes_eq};
use crate::cursor::{
    ByteCursor, ByteOrder, align, can_take, le_u16, le_u32, le_u64, read_bytes, read_u16,
    read_u32, read_u64, round_up, take_bytes, text_of, decode_text,
};
use crate::decimal::{decimal, to_decimal};
use crate::enums::NodeType;
use crate::error::FormatError;
use crate::tree::{TreeNode, TreeNodeView, lemma_nodes_view_index, lemma_nodes_view_len, node_view, nodes_view};

verus! {

/// The header word of a PAC archive that is preceded by an extra header ("BMAR").
pub open spec fn extra_header_word() -> u32 {
    1380011330
}

/// The header word of a PAC archive without the extra header.
pub open spec fn plain_header_word() -> u32 {
    4411969
}

/// Whether a header word is one of the two that a PAC archive starts with.
pub open spec fn known_header_word(w: int) -> bool {
    w == extra_header_word() || w == plain_header_word()
}

/// The head of a PAC archive: its header, name and the offsets of its files.
#[derive(Debug, Clone, PartialEq, Eq)]
pub struct PAC {
    pub magic: u32,
    pub file_num: u16,
    pub file_num1: u64,
    pub archive_name: Vec<u8>,
    pub offsets: Vec<u32>,
    pub has_extra_header: bool,
}

pub struct PACView {
    pub magic: u32,
    pub file_num: u16,
    pub file_num1: u64,
    pub archive_name: Seq<u8>,
    pub offsets: Seq<u32>,
    pub has_extra_header: bool,
}

impl DeepView for PAC {
    type V = PACView;

    open spec fn deep_view(&self) -> PACView {
        PACView {
            magic: self.magic,
            file_num: self.file_num,
            file_num1: self.file_num1,
            archive_name: self.archive_name@,
            offsets: self.offsets@,
            has_extra_header: self.has_extra_header,
        }
    }
}

/// The header of one file in a PAC archive.
#[derive(Debug, Clone, PartialEq, Eq)]
pub struct PACFileHeader {
    pub contained_type: Vec<u8>,
    pub contained_id: u16,
    pub file_id: u16,
    pub filename_length: u16,
    pub filename: Vec<u8>,
}

pub struct PACFileHeaderView {
    pub contained_type: Seq<u8>,
    pub contained_id: u16,
    pub file_id: u16,
    pub filename_length: u16,
    pub filename: Seq<u8>,
}

impl DeepView for PACFileHeader {
    type V = PACFileHeaderView;

    open spec fn deep_view(&self) -> PACFileHeaderView {
        PACFileHeaderView {
            contained_type: self.contained_type@,
            contained_id: self.contained_id,
            file_id: self.file_id,
            filename_length: self.filename_length,
            filename: self.filename@,
        }
    }
}

/// The alignment of the records of an archive: 8 with the extra header, 32 without.
pub open spec fn pac_alignment(extra: bool) -> int {
    if extra {
        8
    } else {
        32
    }
}

/// The offsets of files `i..n`, stored from `q` on as little-endian words;
/// with the extra header each offset is 8 more than stored.
pub open spec fn spec_pac_offsets(b: Seq<u8>, q: int, i: int, n: int, extra: bool) -> Result<
    Seq<u32>,
    FormatError,
>
    decreases n - i,
{
    if i >= n {
        Ok(Seq::empty())
    } else if q + 4 * i + 4 > b.len() {
        Err(FormatError::UnexpectedEof)
    } else {
        let v = le_u32(b, q + 4 * i);
        if extra && v + 8 > u32::MAX {
            Err(FormatError::Overflow)
        } else {
            match spec_pac_offsets(b, q, i + 1, n, extra) {
                Err(e) => Err(e),
                Ok(rest) => Ok(
                    seq![
                        if extra {
                            (v + 8) as u32
                        } else {
                            v as u32
                        },
                    ] + rest,
                ),
            }
        }
    }
}

/// Where the fields after the header word start, or the error of the header word.
pub open spec fn pac_fields_at(b: Seq<u8>, p: int) -> Result<int, FormatError> {
    if p + 4 > b.len() {
        Err(FormatError::UnexpectedEof)
    } else if le_u32(b, p) == extra_header_word() {
        if p + 12 > b.len() {
            Err(FormatError::UnexpectedEof)
        } else {
            Ok(p + 14)
        }
    } else if le_u32(b, p) == plain_header_word() {
        Ok(p + 6)
    } else {
        Err(FormatError::InvalidPacHeader(le_u32(b, p) as u32))
    }
}

/// The archive head at `p` and the (aligned) position after it.
pub open spec fn spec_pac_head(b: Seq<u8>, p: int) -> Result<(PACView, int), FormatError> {
    match pac_fields_at(b, p) {
        Err(e) => Err(e),
        Ok(q) => {
            let extra = le_u32(b, p) == extra_header_word();
            if q + 42 > b.len() {
                Err(FormatError::UnexpectedEof)
            } else {
                let n = le_u16(b, q) as int;
                match spec_pac_offsets(b, q + 42, 0, n, extra) {
                    Err(e) => Err(e),
                    Ok(offsets) => if q + 42 + 4 * n + pac_alignment(extra) - 1 > u64::MAX {
                        Err(FormatError::Overflow)
                    } else {
                        Ok(
                            (
                                PACView {
                                    magic: (if extra {
                                        le_u32(b, p + 8)
                                    } else {
                                        le_u32(b, p)
                                    }) as u32,
                                    file_num: n as u16,
                                    file_num1: le_u64(b, q + 2) as u64,
                                    archive_name: text_of(b.subrange(q + 10, q + 42)),
                                    offsets,
                                    has_extra_header: extra,
                                },
                                round_up(q + 42 + 4 * n, pac_alignment(extra)),
                            ),
                        )
                    },
                }
            }
        },
    }
}

/// An archive head and its file headers.
pub open spec fn spec_open_pac(b: Seq<u8>) -> Result<(PACView, Seq<PACFileHeaderView>), FormatError> {
    match spec_pac_head(b, 0) {
        Err(e) => Err(e),
        Ok((pac, p1)) => match spec_file_headers(b, p1, 0, pac.file_num as int, pac.has_extra_header) {
            Err(e) => Err(e),
            Ok(hs) => Ok((pac, hs)),
        },
    }
}

/// The file header at `p` and the (aligned) position after it.
pub open spec fn spec_file_header(b: Seq<u8>, p: int, extra: bool) -> Result<
    (PACFileHeaderView, int),
    FormatError,
> {
    if p + 16 > b.len() {
        Err(FormatError::UnexpectedEof)
    } else if p + 20 > u64::MAX {
        Err(FormatError::Overflow)
    } else {
        let len = le_u16(b, p + 14);
        if !can_take(b, p + 20, len) {
            Err(FormatError::UnexpectedEof)
        } else if p + 20 + len + pac_alignment(extra) - 1 > u64::MAX {
            Err(FormatError::Overflow)
        } else {
            Ok(
                (
                    PACFileHeaderView {
                        contained_type: text_of(b.subrange(p, p + 4)),
                        contained_id: le_u16(b, p + 4) as u16,
                        file_id: le_u16(b, p + 6) as u16,
                        filename_length: len as u16,
                        filename: text_of(take_bytes(b, p + 20, len)),
                    },
                    round_up(p + 20 + len, pac_alignment(extra)),
                ),
            )
        }
    }
}

proof fn lemma_round_up_to(o: int, a: int)
    requires
        0 <= o,
        a > 0,
    ensures
        round_up(o, a) % a == 0,
        o <= round_up(o, a) < o + a,
{
    let q = (o + a - 1) / a;
    let r = (o + a - 1) % a;
    assert(o + a - 1 == q * a + r && 0 <= r < a) by (nonlinear_arith)
        requires
            a > 0,
            q == (o + a - 1) / a,
            r == (o + a - 1) % a,
    ;
    assert((q * a) % a == 0) by (nonlinear_arith)
        requires
            a > 0,
    ;
}

/// A file header is the 20 fixed bytes and the name; the next one starts at
/// the first multiple of 8 after it in an archive with the extra header, and
/// of 32 in one without.
pub proof fn lemma_file_header_end(b: Seq<u8>, p: int, extra: bool)
    requires
        0 <= p,
    ensures
        spec_file_header(b, p, extra) matches Ok((_, next)) ==> {
            let end = p + 20 + (b[p + 14] + b[p + 15] * 256);
            let a: int = if extra {
                8
            } else {
                32
            };
            &&& next % a == 0
            &&& end <= next < end + a
        },
{
    if let Ok((_, next)) = spec_file_header(b, p, extra) {
        lemma_round_up_to(p + 20 + le_u16(b, p + 14), pac_alignment(extra));
    }
}

/// The first file header starts at the first multiple of 8 (with the extra
/// header) or 32 (without) after the archive's offsets, four bytes for each
/// file after the 42 bytes of counts and name.
pub proof fn lemma_pac_head_end(b: Seq<u8>)
    ensures
        spec_pac_head(b, 0) matches Ok((pac, next)) ==> {
            let extra = pac.has_extra_header;
            let end = (if extra {
                14int
            } else {
                6int
            }) + 42 + 4 * pac.file_num;
            let a: int = if extra {
                8
            } else {
                32
            };
            &&& next % a == 0
            &&& end <= next < end + a
            &&& pac.offsets.len() == pac.file_num
        },
{
    if let Ok((pac, next)) = spec_pac_head(b, 0) {
        let q = pac_fields_at(b, 0)->Ok_0;
        let n = le_u16(b, q);
        lemma_pac_offsets_len(b, q + 42, 0, n, pac.has_extra_header);
        lemma_round_up_to(q + 42 + 4 * n, pac_alignment(pac.has_extra_header));
    }
}

proof fn lemma_pac_offsets_len(b: Seq<u8>, q: int, i: int, n: int, extra: bool)
    requires
        0 <= i <= n,
    ensures
        spec_pac_offsets(b, q, i, n, extra) matches Ok(v) ==> v.len() == n - i,
    decreases n - i,
{
    if i < n {
        lemma_pac_offsets_len(b, q, i + 1, n, extra);
    }
}

/// The file headers `i..n` from `p` on.
pub open spec fn spec_file_headers(b: Seq<u8>, p: int, i: int, n: int, extra: bool) -> Result<
    Seq<PACFileHeaderView>,
    FormatError,
>
    decreases n - i,
{
    if i >= n {
        Ok(Seq::empty())
    } else {
        match spec_file_header(b, p, extra) {
            Err(e) => Err(e),
            Ok((h, p1)) => match spec_file_headers(b, p1, i + 1, n, extra) {
                Err(e) => Err(e),
                Ok(rest) => Ok(seq![h] + rest),
            },
        }
    }
}

impl PAC {
    /// Reads the archive head: the header word (with the extra header, a
    /// second word and then the magic word follow), two skipped bytes, the
    /// file count, a second count, the 32-byte archive name (trailing zero
    /// bytes dropped) and one offset per file; then moves to the next multiple
    /// of 8 (with the extra header) or 32.  The header word, when there is one,
    /// is one of the two known words.
    pub fn build(file: &mut ByteCursor) -> (r: Result<Self, FormatError>)
        requires
            old(file).pos + 4 <= old(file).data@.len() ==> known_header_word(
                le_u32(old(file).data@, old(file).pos as int),
            ),
        ensures
            final(file).data@ == old(file).data@,
            match r {
                Ok(pac) => spec_pac_head(old(file).data@, old(file).pos as int) == Ok::<
                    (PACView, int),
                    FormatError,
                >((pac.deep_view(), final(file).pos as int)),
                Err(e) => spec_pac_head(old(file).data@, old(file).pos as int) == Err::<
                    (PACView, int),
                    FormatError,
                >(e),
            },
    {
        Self::read_head(file)
    }

    /// Reads the archive head; an unknown header word is an error.
    fn read_head(file: &mut ByteCursor) -> (r: Result<Self, FormatError>)
        ensures
            final(file).data@ == old(file).data@,
            match r {
                Ok(pac) => spec_pac_head(old(file).data@, old(file).pos as int) == Ok::<
                    (PACView, int),
                    FormatError,
                >((pac.deep_view(), final(file).pos as int)),
                Err(e) => spec_pac_head(old(file).data@, old(file).pos as int) == Err::<
                    (PACView, int),
                    FormatError,
                >(e),
            },
    {
        let ghost b = file.data@;
        let ghost p = file.pos as int;
        let _len = file.data.len();
        if file.remaining() < 4 {
            return Err(FormatError::UnexpectedEof);
        }
        let extra_1 = read_u32(file, ByteOrder::Little);
        let magic: u32;
        let has_extra_header: bool;
        if extra_1 == 1380011330 {
            if file.remaining() < 8 {
                return Err(FormatError::UnexpectedEof);
            }
            let _extra_2 = read_u32(file, ByteOrder::Little);
            magic = read_u32(file, ByteOrder::Little);
            has_extra_header = true;
        } else if extra_1 == 4411969 {
            magic = extra_1;
            has_extra_header = false;
        } else {
            return Err(FormatError::InvalidPacHeader(extra_1));
        }
        let here = file.position();
        assert(pac_fields_at(b, p) == Ok::<int, FormatError>(here + 2));
        if here > u64::MAX - 44 {
            return Err(FormatError::UnexpectedEof);
        }
        file.seek_to(here + 2);
        if file.remaining() < 42 {
            return Err(FormatError::UnexpectedEof);
        }
        let file_num = read_u16(file, ByteOrder::Little);
        let file_num1 = read_u64(file, ByteOrder::Little);
        let name_bytes = read_bytes(file, 32);
        let archive_name = decode_text(name_bytes);
        let ghost q = here + 2;
        let ghost n = file_num as int;
        let ghost base = q + 42;
        let mut offsets: Vec<u32> = Vec::new();
        let mut i: u16 = 0;
        while i < file_num
            invariant
                0 <= i <= file_num,
                b == file.data@,
                b == old(file).data@,
                p == old(file).pos,
                pac_fields_at(b, p) == Ok::<int, FormatError>(q),
                q + 42 <= b.len(),
                base == q + 42,
                n == le_u16(b, q),
                magic == (if has_extra_header {
                    le_u32(b, p + 8)
                } else {
                    le_u32(b, p)
                }),
                file_num1 == le_u64(b, q + 2),
                archive_name@ == text_of(b.subrange(q + 10, q + 42)),
                base + 4 * i == file.pos,
                base <= b.len(),
                n == file_num,
                has_extra_header == (le_u32(b, p) == extra_header_word()),
                spec_pac_offsets(b, base, 0, n, has_extra_header) == match spec_pac_offsets(
                    b,
                    base,
                    i as int,
                    n,
                    has_extra_header,
                ) {
                    Err(e) => Err(e),
                    Ok(rest) => Ok(offsets@ + rest),
                },
            decreases file_num - i,
        {
            if file.remaining() < 4 {
                return Err(FormatError::UnexpectedEof);
            }
            let v = read_u32(file, ByteOrder::Little);
            let stored: u32;
            if has_extra_header {
                if v > u32::MAX - 8 {
                    return Err(FormatError::Overflow);
                }
                stored = v + 8;
            } else {
                stored = v;
            }
            let ghost before = offsets@;
            offsets.push(stored);
            proof {
                match spec_pac_offsets(b, base, i + 1, n, has_extra_header) {
                    Ok(rest) => {
                        assert(before + (seq![stored] + rest) =~= offsets@ + rest);
                    },
                    Err(_) => {},
                }
            }
            i = i + 1;
        }
        assert(offsets@ + Seq::<u32>::empty() =~= offsets@);
        let alignment: u64 = if has_extra_header {
            8
        } else {
            32
        };
        match align(file, alignment) {
            Ok(_) => {},
            Err(e) => return Err(e),
        }
        Ok(PAC { magic, file_num, file_num1, archive_name, offsets, has_extra_header })
    }

    pub fn get_file_num(&self) -> (r: u16)
        ensures
            r == self.file_num,
    {
        self.file_num
    }

    pub fn get_offsets(&self) -> (r: Vec<u32>)
        ensures
            r@ == self.offsets@,
    {
        self.offsets.clone()
    }

    pub fn get_archive_name(&self) -> (r: Vec<u8>)
        ensures
            r@ == self.archive_name@,
    {
        self.archive_name.clone()
    }
}

impl PACFileHeader {
    /// Reads one file header: a 4-byte type (trailing zero bytes dropped), the
    /// contained id, the file id, 6 skipped bytes, the name length, 4 skipped
    /// bytes and the name; then moves to the next multiple of 8 (archives with
    /// the extra header) or 32.
    pub fn build(file: &mut ByteCursor, has_extra_header: bool) -> (r: Result<Self, FormatError>)
        ensures
            final(file).data@ == old(file).data@,
            match r {
                Ok(h) => spec_file_header(old(file).data@, old(file).pos as int, has_extra_header)
                    == Ok::<(PACFileHeaderView, int), FormatError>(
                    (h.deep_view(), final(file).pos as int),
                ),
                Err(e) => spec_file_header(old(file).data@, old(file).pos as int, has_extra_header)
                    == Err::<(PACFileHeaderView, int), FormatError>(e),
            },
    {
        if file.remaining() < 16 {
            return Err(FormatError::UnexpectedEof);
        }
        let start = file.position();
        let type_bytes = read_bytes(file, 4);
        let contained_type = decode_text(type_bytes);
        let contained_id = read_u16(file, ByteOrder::Little);
        let file_id = read_u16(file, ByteOrder::Little);
        if start > u64::MAX - 20 {
            return Err(FormatError::Overflow);
        }
        file.seek_to(start + 14);
        let filename_length = read_u16(file, ByteOrder::Little);
        file.seek_to(start + 20);
        if filename_length != 0 && file.remaining() < filename_length as u64 {
            return Err(FormatError::UnexpectedEof);
        }
        let name_bytes = read_bytes(file, filename_length as u64);
        let filename = decode_text(name_bytes);
        let alignment: u64 = if has_extra_header {
            8
        } else {
            32
        };
        match align(file, alignment) {
            Ok(_) => {},
            Err(e) => return Err(e),
        }
        Ok(PACFileHeader { contained_type, contained_id, file_id, filename_length, filename })
    }

    pub fn get_contained_type(&self) -> (r: Vec<u8>)
        ensures
            r@ == self.contained_type@,
    {
        self.contained_type.clone()
    }

    pub fn get_contained_id(&self) -> (r: u16)
        ensures
            r == self.contained_id,
    {
        self.contained_id
    }

    pub fn get_file_id(&self) -> (r: u16)
        ensures
            r == self.file_id,
    {
        self.file_id
    }

    pub fn get_filename(&self) -> (r: Vec<u8>)
        ensures
            r@ == self.filename@,
    {
        self.filename.clone()
    }
}

/// Reads the archive head at the start of `data`, then one file header per file.
pub fn open_pac(data: &[u8]) -> (r: Result<(PAC, Vec<PACFileHeader>), FormatError>)
    ensures
        match r {
            Ok((pac, headers)) => spec_open_pac(data@) == Ok::<
                (PACView, Seq<PACFileHeaderView>),
                FormatError,
            >((pac.deep_view(), headers.deep_view())),
            Err(e) => spec_open_pac(data@) == Err::<(PACView, Seq<PACFileHeaderView>), FormatError>(e),
        },
{
    let mut file = ByteCursor::new(data);
    let pac = match PAC::read_head(&mut file) {
        Ok(p) => p,
        Err(e) => return Err(e),
    };
    let ghost p1 = file.pos as int;
    let mut headers: Vec<PACFileHeader> = Vec::new();
    let mut i: u16 = 0;
    while i < pac.file_num
        invariant
            0 <= i <= pac.file_num,
            file.data@ == data@,
            headers@.len() == i,
            spec_pac_head(data@, 0) == Ok::<(PACView, int), FormatError>((pac.deep_view(), p1)),
            spec_file_headers(data@, p1, 0, pac.file_num as int, pac.has_extra_header) == match spec_file_headers(
                data@,
                file.pos as int,
                i as int,
                pac.file_num as int,
                pac.has_extra_header,
            ) {
                Err(e) => Err(e),
                Ok(rest) => Ok(headers.deep_view() + rest),
            },
        decreases pac.file_num - i,
    {
        let h = match PACFileHeader::build(&mut file, pac.has_extra_header) {
            Ok(h) => h,
            Err(e) => return Err(e),
        };
        let ghost before = headers.deep_view();
        let ghost hv = h.deep_view();
        headers.push(h);
        assert(headers.deep_view() =~= before.push(hv));
        proof {
            match spec_file_headers(data@, file.pos as int, i + 1, pac.file_num as int, pac.has_extra_header) {
                Ok(rest) => {
                    assert(before + (seq![hv] + rest) =~= headers.deep_view() + rest);
                },
                Err(_) => {},
            }
        }
        i = i + 1;
    }
    assert(headers.deep_view() + Seq::<PACFileHeaderView>::empty() =~= headers.deep_view());
    Ok((pac, headers))
}

/// Where one file of a PAC archive lies: read from the 8 bytes at its offset
/// (the size, then the data offset relative to that offset).
#[derive(Debug, Clone, PartialEq, Eq)]
pub struct PacEntry {
    pub file_size: u32,
    pub file_offset: u32,
    pub file_id: u16,
    pub filename: Vec<u8>,
    pub contained_type: Vec<u8>,
}

pub struct PacEntryView {
    pub file_size: u32,
    pub file_offset: u32,
    pub file_id: u16,
    pub filename: Seq<u8>,
    pub contained_type: Seq<u8>,
}

impl DeepView for PacEntry {
    type V = PacEntryView;

    open spec fn deep_view(&self) -> PacEntryView {
        PacEntryView {
            file_size: self.file_size,
            file_offset: self.file_offset,
            file_id: self.file_id,
            filename: self.filename@,
            contained_type: self.contained_type@,
        }
    }
}

/// The entry of the file whose record is at `offset`, with its header `h`.
pub open spec fn spec_pac_entry(b: Seq<u8>, offset: u32, h: PACFileHeaderView) -> Result<
    PacEntryView,
    FormatError,
> {
    if offset + 8 > b.len() {
        Err(FormatError::UnexpectedEof)
    } else if le_u32(b, offset + 4) + offset > u32::MAX {
        Err(FormatError::Overflow)
    } else {
        Ok(
            PacEntryView {
                file_size: le_u32(b, offset as int) as u32,
                file_offset: (le_u32(b, offset + 4) + offset) as u32,
                file_id: h.file_id,
                filename: h.filename,
                contained_type: h.contained_type,
            },
        )
    }
}

/// The entries of the first `k` (offset, header) pairs.
pub open spec fn spec_pac_entries(
    b: Seq<u8>,
    offsets: Seq<u32>,
    headers: Seq<PACFileHeaderView>,
    k: int,
) -> Result<Seq<PacEntryView>, FormatError>
    decreases k,
{
    if k <= 0 {
        Ok(Seq::empty())
    } else {
        match spec_pac_entries(b, offsets, headers, k - 1) {
            Err(e) => Err(e),
            Ok(es) => match spec_pac_entry(b, offsets[k - 1], headers[k - 1]) {
                Err(e) => Err(e),
                Ok(en) => Ok(es.push(en)),
            },
        }
    }
}

/// The number of (offset, header) pairs.
pub open spec fn pair_count(offsets: Seq<u32>, headers: Seq<PACFileHeaderView>) -> int {
    if offsets.len() < headers.len() {
        offsets.len() as int
    } else {
        headers.len() as int
    }
}

proof fn lemma_pac_entries_error_extends(
    b: Seq<u8>,
    offsets: Seq<u32>,
    headers: Seq<PACFileHeaderView>,
    k: int,
    n: int,
)
    requires
        0 <= k <= n,
        spec_pac_entries(b, offsets, headers, k) is Err,
    ensures
        spec_pac_entries(b, offsets, headers, n) == spec_pac_entries(b, offsets, headers, k),
    decreases n - k,
{
    if k < n {
        lemma_pac_entries_error_extends(b, offsets, headers, k + 1, n);
    }
}

/// Reads where each file of the archive lies, pairing the offsets with the
/// file headers in order.
pub fn pac_entries(data: &[u8], pac: &PAC, headers: &Vec<PACFileHeader>) -> (r: Result<
    Vec<PacEntry>,
    FormatError,
>)
    ensures
        ({
            let spec = spec_pac_entries(
                data@,
                pac.offsets@,
                headers.deep_view(),
                pair_count(pac.offsets@, headers.deep_view()),
            );
            match r {
                Ok(es) => spec == Ok::<Seq<PacEntryView>, FormatError>(es.deep_view()),
                Err(e) => spec == Err::<Seq<PacEntryView>, FormatError>(e),
            }
        }),
{
    let ghost hv = headers.deep_view();
    let n = if pac.offsets.len() < headers.len() {
        pac.offsets.len()
    } else {
        headers.len()
    };
    let mut out: Vec<PacEntry> = Vec::new();
    assert(out.deep_view() =~= Seq::<PacEntryView>::empty());
    let mut k: usize = 0;
    while k < n
        invariant
            0 <= k <= n,
            n == pair_count(pac.offsets@, hv),
            hv == headers.deep_view(),
            out@.len() == k,
            spec_pac_entries(data@, pac.offsets@, hv, k as int) == Ok::<
                Seq<PacEntryView>,
                FormatError,
            >(out.deep_view()),
        decreases n - k,
    {
        let offset = pac.offsets[k];
        let h = &headers[k];
        assert(hv[k as int] == h.deep_view());
        let mut file = ByteCursor::at(data, offset as u64);
        if file.remaining() < 8 {
            proof {
                lemma_pac_entries_error_extends(data@, pac.offsets@, hv, k + 1, n as int);
            }
            return Err(FormatError::UnexpectedEof);
        }
        let file_size = read_u32(&mut file, ByteOrder::Little);
        let relative = read_u32(&mut file, ByteOrder::Little);
        if relative > u32::MAX - offset {
            proof {
                lemma_pac_entries_error_extends(data@, pac.offsets@, hv, k + 1, n as int);
            }
            return Err(FormatError::Overflow);
        }
        let entry = PacEntry {
            file_size,
            file_offset: relative + offset,
            file_id: h.file_id,
            filename: h.filename.clone(),
            contained_type: h.contained_type.clone(),
        };
        let ghost before = out.deep_view();
        let ghost ev = entry.deep_view();
        out.push(entry);
        assert(out.deep_view() =~= before.push(ev));
        k = k + 1;
    }
    Ok(out)
}

/// The tree node of a PAC file: its key is the archive path, `:` and the file id.
pub open spec fn pac_node(e: PacEntryView, path: Seq<u8>) -> TreeNodeView {
    TreeNodeView {
        key: path + seq![58u8] + decimal(e.file_id as nat),
        label: e.filename,
        node_type: NodeType::File {
            file_offset: e.file_offset as u64,
            file_size: e.file_size,
            extract_size: 0,
        },
        children: Seq::empty(),
        path,
        contained_type: e.contained_type,
    }
}

/// Whether some node has this key.
pub open spec fn has_key(nodes: Seq<TreeNodeView>, key: Seq<u8>) -> bool {
    exists|j: int| 0 <= j < nodes.len() && #[trigger] nodes[j].key == key
}

/// The top-level nodes after the files are appended, each unless a node of the same key exists.
pub open spec fn spec_build_tree_pac(
    nodes: Seq<TreeNodeView>,
    entries: Seq<PacEntryView>,
    path: Seq<u8>,
) -> Seq<TreeNodeView>
    decreases entries.len(),
{
    if entries.len() == 0 {
        nodes
    } else {
        let n1 = spec_build_tree_pac(nodes, entries.drop_last(), path);
        let node = pac_node(entries.last(), path);
        if has_key(n1, node.key) {
            n1
        } else {
            n1.push(node)
        }
    }
}

/// Whether two table lines name the same PAC file (same name, offset, size and archive).
pub open spec fn same_pac_line(x: DataTableRowView, y: DataTableRowView) -> bool {
    &&& x.file_name == y.file_name
    &&& x.file_offset == y.file_offset
    &&& x.file_size == y.file_size
    &&& x.path == y.path
}

/// The table line of a PAC file.
pub open spec fn pac_line(e: PacEntryView, path: Seq<u8>) -> DataTableRowView {
    DataTableRowView {
        dir_name: Seq::empty(),
        file_name: e.filename,
        file_size: e.file_size,
        extract_size: 0,
        file_offset: e.file_offset,
        path,
    }
}

/// The table after the lines of the files are appended, each unless a line
/// for the same file is there.
pub open spec fn spec_build_table_pac(
    rows: Seq<DataTableRowView>,
    entries: Seq<PacEntryView>,
    path: Seq<u8>,
) -> Seq<DataTableRowView>
    decreases entries.len(),
{
    if entries.len() == 0 {
        rows
    } else {
        let r1 = spec_build_table_pac(rows, entries.drop_last(), path);
        let line = pac_line(entries.last(), path);
        if exists|j: int| 0 <= j < r1.len() && same_pac_line(#[trigger] r1[j], line) {
            r1
        } else {
            r1.push(line)
        }
    }
}

/// Adds the files of one archive to the top level of the tree.
pub fn build_tree_pac(tree_nodes: &mut Vec<TreeNode>, entries: &Vec<PacEntry>, pac_path: &Vec<u8>)
    ensures
        nodes_view(final(tree_nodes)@) == spec_build_tree_pac(
            nodes_view(old(tree_nodes)@),
            entries.deep_view(),
            pac_path@,
        ),
{
    let ghost ev = entries.deep_view();
    let n = entries.len();
    let mut i: usize = 0;
    while i < n
        invariant
            0 <= i <= n,
            n == entries@.len(),
            ev == entries.deep_view(),
            nodes_view(tree_nodes@) == spec_build_tree_pac(
                nodes_view(old(tree_nodes)@),
                ev.take(i as int),
                pac_path@,
            ),
        decreases n - i,
    {
        let entry = &entries[i];
        assert(ev[i as int] == entry.deep_view());
        assert(ev.take(i + 1).drop_last() =~= ev.take(i as int));
        let mut key = pac_path.clone();
        key.push(58u8);
        assert(key@ =~= pac_path@ + seq![58u8]);
        let id_text = to_decimal(entry.file_id as u64);
        let ghost k0 = key@;
        let mut t: usize = 0;
        while t < id_text.len()
            invariant
                0 <= t <= id_text@.len(),
                key@ == k0 + id_text@.take(t as int),
            decreases id_text@.len() - t,
        {
            key.push(id_text[t]);
            t = t + 1;
            assert(key@ =~= k0 + id_text@.take(t as int));
        }
        assert(id_text@.take(id_text@.len() as int) =~= id_text@);
        let node = TreeNode {
            key,
            label: entry.filename.clone(),
            node_type: NodeType::File {
                file_offset: entry.file_offset as u64,
                file_size: entry.file_size,
                extract_size: 0,
            },
            children: Vec::new(),
            path: pac_path.clone(),
            contained_type: entry.contained_type.clone(),
        };
        assert(node.children@ =~= Seq::<TreeNode>::empty());
        assert(nodes_view(node.children@) =~= Seq::<TreeNodeView>::empty());
        assert(node_view(node) == pac_node(ev[i as int], pac_path@));
        let ghost nv = nodes_view(tree_nodes@);
        proof {
            lemma_nodes_view_len(tree_nodes@);
        }
        let mut exists = false;
        let m = tree_nodes.len();
        let mut j: usize = 0;
        while j < m
            invariant
                0 <= j <= m,
                m == tree_nodes@.len(),
                nv == nodes_view(tree_nodes@),
                nv.len() == m,
                exists == (exists|q: int| 0 <= q < j && #[trigger] nv[q].key == node.key@),
            decreases m - j,
        {
            proof {
                lemma_nodes_view_index(tree_nodes@, j as int);
            }
            let same = bytes_eq(&tree_nodes[j].key, &node.key);
            assert(nv[j as int].key == tree_nodes@[j as int].key@);
            if same {
                exists = true;
            }
            j = j + 1;
        }
        if !exists {
            proof {
                assert(tree_nodes@.push(node).drop_last() =~= tree_nodes@);
            }
            tree_nodes.push(node);
        }
        i = i + 1;
    }
    assert(ev.take(n as int) =~= ev);
}

/// Adds the table lines of the files of one archive.
pub fn build_table_pac(rows: &mut Vec<DataTableRow>, entries: &Vec<PacEntry>, pac_path: &Vec<u8>)
    ensures
        final(rows).deep_view() == spec_build_table_pac(
            old(rows).deep_view(),
            entries.deep_view(),
            pac_path@,
        ),
{
    let ghost ev = entries.deep_view();
    let n = entries.len();
    let mut i: usize = 0;
    while i < n
        invariant
            0 <= i <= n,
            n == entries@.len(),
            ev == entries.deep_view(),
            rows.deep_view() == spec_build_table_pac(old(rows).deep_view(), ev.take(i as int), pac_path@),
        decreases n - i,
    {
        let entry = &entries[i];
        assert(ev[i as int] == entry.deep_view());
        assert(ev.take(i + 1).drop_last() =~= ev.take(i as int));
        let row = DataTableRow {
            dir_name: Vec::new(),
            file_name: entry.filename.clone(),
            file_size: entry.file_size,
            extract_size: 0,
            file_offset: entry.file_offset,
            path: pac_path.clone(),
        };
        let ghost line = row.deep_view();
        assert(line == pac_line(ev[i as int], pac_path@));
        let mut present = false;
        let m = rows.len();
        let mut j: usize = 0;
        while j < m
            invariant
                0 <= j <= m,
                m == rows@.len(),
                line == row.deep_view(),
                present == exists|q: int| 0 <= q < j && same_pac_line(#[trigger] rows.deep_view()[q], line),
            decreases m - j,
        {
            let x = &rows[j];
            assert(rows.deep_view()[j as int] == x.deep_view());
            if bytes_eq(&x.file_name, &row.file_name) && x.file_offset == row.file_offset
                && x.file_size == row.file_size && bytes_eq(&x.path, &row.path) {
                present = true;
            }
            j = j + 1;
        }
        if !present {
            let ghost before = rows.deep_view();
            rows.push(row);
            assert(rows.deep_view() =~= before.push(line));
        }
        i = i + 1;
    }
    assert(ev.take(n as int) =~= ev);
}

/// Nodes already in the tree stay where they are: the old top level is a
/// prefix of the new one.
pub proof fn lemma_build_tree_pac_keeps(
    nodes: Seq<TreeNodeView>,
    entries: Seq<PacEntryView>,
    path: Seq<u8>,
)
    ensures
        spec_build_tree_pac(nodes, entries, path).len() >= nodes.len(),
        spec_build_tree_pac(nodes, entries, path).take(nodes.len() as int) == nodes,
    decreases entries.len(),
{
    if entries.len() > 0 {
        lemma_build_tree_pac_keeps(nodes, entries.drop_last(), path);
        let n1 = spec_build_tree_pac(nodes, entries.drop_last(), path);
        let node = pac_node(entries.last(), path);
        if !has_key(n1, node.key) {
            assert(n1.push(node).take(nodes.len() as int) =~= n1.take(nodes.len() as int));
        }
    }
}

/// After the files are added, the key of every file is in the tree.
pub proof fn lemma_build_tree_pac_covers(
    nodes: Seq<TreeNodeView>,
    entries: Seq<PacEntryView>,
    path: Seq<u8>,
    k: int,
)
    requires
        0 <= k < entries.len(),
    ensures
        has_key(spec_build_tree_pac(nodes, entries, path), pac_node(entries[k], path).key),
    decreases entries.len(),
{
    let n1 = spec_build_tree_pac(nodes, entries.drop_last(), path);
    let node = pac_node(entries.last(), path);
    if k < entries.len() - 1 {
        lemma_build_tree_pac_covers(nodes, entries.drop_last(), path, k);
        assert(entries.drop_last()[k] == entries[k]);
        if !has_key(n1, node.key) {
            let j = choose|j: int| 0 <= j < n1.len() && #[trigger] n1[j].key == pac_node(
                entries[k],
                path,
            ).key;
            assert(n1.push(node)[j] == n1[j]);
        }
    } else {
        if !has_key(n1, node.key) {
            assert(n1.push(node)[n1.len() as int] == node);
        }
    }
}

/// When the key of every file is already in the tree, adding the files
/// changes nothing.
pub proof fn lemma_build_tree_pac_nothing_new(
    nodes: Seq<TreeNodeView>,
    entries: Seq<PacEntryView>,
    path: Seq<u8>,
)
    requires
        forall|k: int| 0 <= k < entries.len() ==> has_key(nodes, #[trigger] pac_node(entries[k], path).key),
    ensures
        spec_build_tree_pac(nodes, entries, path) == nodes,
    decreases entries.len(),
{
    if entries.len() > 0 {
        assert forall|k: int| 0 <= k < entries.drop_last().len() implies has_key(
            nodes,
            #[trigger] pac_node(entries.drop_last()[k], path).key,
        ) by {
            assert(entries.drop_last()[k] == entries[k]);
        }
        lemma_build_tree_pac_nothing_new(nodes, entries.drop_last(), path);
        assert(has_key(nodes, pac_node(entries[entries.len() - 1], path).key));
    }
}

/// Opening the same archive a second time leaves the tree as the first time
/// left it.
pub proof fn lemma_build_tree_pac_idempotent(
    nodes: Seq<TreeNodeView>,
    entries: Seq<PacEntryView>,
    path: Seq<u8>,
)
    ensures
        spec_build_tree_pac(spec_build_tree_pac(nodes, entries, path), entries, path)
            == spec_build_tree_pac(nodes, entries, path),
{
    let once = spec_build_tree_pac(nodes, entries, path);
    assert forall|k: int| 0 <= k < entries.len() implies has_key(
        once,
        #[trigger] pac_node(entries[k], path).key,
    ) by {
        lemma_build_tree_pac_covers(nodes, entries, path, k);
    }
    lemma_build_tree_pac_nothing_new(once, entries, path);
}

/// Whether no two nodes share a key.
pub open spec fn keys_distinct(nodes: Seq<TreeNodeView>) -> bool {
    forall|a: int, b: int|
        0 <= a < nodes.len() && 0 <= b < nodes.len() && a != b ==> #[trigger] nodes[a].key
            != #[trigger] nodes[b].key
}

/// A top level whose keys are distinct keeps them distinct when files are added.
pub proof fn lemma_build_tree_pac_keys_distinct(
    nodes: Seq<TreeNodeView>,
    entries: Seq<PacEntryView>,
    path: Seq<u8>,
)
    requires
        keys_distinct(nodes),
    ensures
        keys_distinct(spec_build_tree_pac(nodes, entries, path)),
    decreases entries.len(),
{
    if entries.len() > 0 {
        lemma_build_tree_pac_keys_distinct(nodes, entries.drop_last(), path);
        let n1 = spec_build_tree_pac(nodes, entries.drop_last(), path);
        let node = pac_node(entries.last(), path);
        if !has_key(n1, node.key) {
            let n2 = n1.push(node);
            assert forall|a: int, b: int| 0 <= a < n2.len() && 0 <= b < n2.len() && a != b implies #[trigger] n2[a].key
                != #[trigger] n2[b].key by {
                if a < n1.len() && b < n1.len() {
                    assert(n2[a] == n1[a] && n2[b] == n1[b]);
                } else if a == n1.len() {
                    assert(n2[b] == n1[b]);
                } else {
                    assert(n2[a] == n1[a]);
                }
            }
        }
    }
}

/// Whether the table has a line for the same file as `line`.
pub open spec fn has_pac_line(rows: Seq<DataTableRowView>, line: DataTableRowView) -> bool {
    exists|j: int| 0 <= j < rows.len() && same_pac_line(#[trigger] rows[j], line)
}

/// After the files are added, the table has a line for every file.
pub proof fn lemma_build_table_pac_covers(
    rows: Seq<DataTableRowView>,
    entries: Seq<PacEntryView>,
    path: Seq<u8>,
    k: int,
)
    requires
        0 <= k < entries.len(),
    ensures
        has_pac_line(spec_build_table_pac(rows, entries, path), pac_line(entries[k], path)),
    decreases entries.len(),
{
    let r1 = spec_build_table_pac(rows, entries.drop_last(), path);
    let line = pac_line(entries.last(), path);
    let target = pac_line(entries[k], path);
    if k < entries.len() - 1 {
        lemma_build_table_pac_covers(rows, entries.drop_last(), path, k);
        assert(entries.drop_last()[k] == entries[k]);
        if !has_pac_line(r1, line) {
            let j = choose|j: int| 0 <= j < r1.len() && same_pac_line(#[trigger] r1[j], target);
            assert(r1.push(line)[j] == r1[j]);
        }
    } else {
        if !has_pac_line(r1, line) {
            assert(same_pac_line(r1.push(line)[r1.len() as int], line));
        }
    }
}

/// After the files of an archive are added, the table has, for each of them,
/// a line with its name, offset and size and that archive's path: a line of
/// another archive never stands in for it.
pub proof fn lemma_build_table_pac_lines(
    rows: Seq<DataTableRowView>,
    entries: Seq<PacEntryView>,
    path: Seq<u8>,
    k: int,
)
    requires
        0 <= k < entries.len(),
    ensures
        exists|j: int|
            0 <= j < spec_build_table_pac(rows, entries, path).len() && {
                let r = #[trigger] spec_build_table_pac(rows, entries, path)[j];
                &&& r.file_name == entries[k].filename
                &&& r.file_offset == entries[k].file_offset
                &&& r.file_size == entries[k].file_size
                &&& r.path == path
            },
{
    lemma_build_table_pac_covers(rows, entries, path, k);
    let t = spec_build_table_pac(rows, entries, path);
    let j = choose|j: int| 0 <= j < t.len() && same_pac_line(#[trigger] t[j], pac_line(entries[k], path));
    assert(t[j].file_name == entries[k].filename);
}

/// When the table has a line for every file already, adding the files
/// changes nothing.
pub proof fn lemma_build_table_pac_nothing_new(
    rows: Seq<DataTableRowView>,
    entries: Seq<PacEntryView>,
    path: Seq<u8>,
)
    requires
        forall|k: int| 0 <= k < entries.len() ==> #[trigger] has_pac_line(rows, pac_line(entries[k], path)),
    ensures
        spec_build_table_pac(rows, entries, path) == rows,
    decreases entries.len(),
{
    if entries.len() > 0 {
        assert forall|k: int| 0 <= k < entries.drop_last().len() implies #[trigger] has_pac_line(
            rows,
            pac_line(entries.drop_last()[k], path),
        ) by {
            assert(entries.drop_last()[k] == entries[k]);
            assert(has_pac_line(rows, pac_line(entries[k], path)));
        }
        lemma_build_table_pac_nothing_new(rows, entries.drop_last(), path);
        let last = entries.len() - 1;
        assert(has_pac_line(rows, pac_line(entries[last], path)));
    }
}

/// Adding the same archive's files a second time leaves the table as the
/// first time left it.
pub proof fn lemma_build_table_pac_idempotent(
    rows: Seq<DataTableRowView>,
    entries: Seq<PacEntryView>,
    path: Seq<u8>,
)
    ensures
        spec_build_table_pac(spec_build_table_pac(rows, entries, path), entries, path)
            == spec_build_table_pac(rows, entries, path),
{
    let once = spec_build_table_pac(rows, entries, path);
    assert forall|k: int| 0 <= k < entries.len() implies #[trigger] has_pac_line(
        once,
        pac_line(entries[k], path),
    ) by {
        lemma_build_table_pac_covers(rows, entries, path, k);
    }
    lemma_build_table_pac_nothing_new(once, entries, path);
}

/// The bytes of a file of a PAC archive, read at the node's offset.
pub fn extract_pac(data: &[u8], file_node: &TreeNode) -> (r: Result<Vec<u8>, FormatError>)
    ensures
        ({
            let off = match file_node.node_type {
                NodeType::File { file_offset, .. } => file_offset as int,
                NodeType::Folder => 0,
            };
            let size = match file_node.node_type {
                NodeType::File { file_size, .. } => file_size as int,
                NodeType::Folder => 0,
            };
            match r {
                Ok(v) => can_take(data@, off, size) && v@ == take_bytes(data@, off, size),
                Err(e) => !can_take(data@, off, size) && e == FormatError::UnexpectedEof,
            }
        }),
{
    let file_offset = file_node.get_file_offset();
    let file_size = file_node.get_file_size();
    let mut file = ByteCursor::at(data, file_offset);
    if file_size != 0 && file.remaining() < file_size as u64 {
        return Err(FormatError::UnexpectedEof);
    }
    Ok(read_bytes(&mut file, file_size as u64))
}

} // verus!
