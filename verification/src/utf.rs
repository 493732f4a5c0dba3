use vstd::prelude::*;
use crate::cursor::{
    ByteCursor, ByteOrder, be_u16, be_u32, be_u64, read_bytes, read_cstring, read_u16,
    read_u32, read_u64, read_u8, spec_read_cstring, can_take, take_bytes,
};
use crate::enums::{duplicate_cell, DataStorage, DataType, RowData, RowValue};
use crate::error::FormatError;

verus! {

/// The definition of one column, as stored after the table header.
#[derive(Debug, Clone, PartialEq, Eq)]
pub struct ColumnDefinition {
    pub index: u16,
    pub flag: u8,
    pub name_offset: u32,
    pub column_constant_value: Option<RowData>,
}

pub struct ColumnDefinitionView {
    pub index: u16,
    pub flag: u8,
    pub name_offset: u32,
    pub column_constant_value: Option<RowValue>,
}

impl DeepView for ColumnDefinition {
    type V = ColumnDefinitionView;

    open spec fn deep_view(&self) -> ColumnDefinitionView {
        ColumnDefinitionView {
            index: self.index,
            flag: self.flag,
            name_offset: self.name_offset,
            column_constant_value: self.column_constant_value.deep_view(),
        }
    }
}

/// A resolved column: its storage and type codes, its name and its constant value.
#[allow(non_snake_case)]
#[derive(Debug, Clone, PartialEq, Eq)]
pub struct Column {
    pub DataStorage: u8,
    pub DataType: u8,
    pub Name: Vec<u8>,
    pub ColumnConstantValue: Option<RowData>,
}

#[allow(non_snake_case)]
pub struct ColumnView {
    pub DataStorage: u8,
    pub DataType: u8,
    pub Name: Seq<u8>,
    pub ColumnConstantValue: Option<RowValue>,
}

impl DeepView for Column {
    type V = ColumnView;

    open spec fn deep_view(&self) -> ColumnView {
        ColumnView {
            DataStorage: self.DataStorage,
            DataType: self.DataType,
            Name: self.Name@,
            ColumnConstantValue: self.ColumnConstantValue.deep_view(),
        }
    }
}

/// A UTF table: its header, its column definitions, the offsets of its rows,
/// the resolved columns and, for each row, one cell per resolved column.
#[allow(non_snake_case)]
#[derive(Debug, Clone, PartialEq, Eq)]
pub struct UTFPacket {
    pub magic: u32,
    pub TableSize: u32,
    pub RowsOffset: u32,
    pub StringsOffset: u32,
    pub DataOffset: u32,
    pub TableName: u32,
    pub ColumnsNumber: u16,
    pub RowLength: u16,
    pub RowsNumber: u32,
    pub UTFColumns: Vec<ColumnDefinition>,
    pub UTFRowsOffsets: Vec<u64>,
    pub column_instances: Vec<Column>,
    pub UTFRowsData: Vec<Vec<Option<RowData>>>,
}

// ---------------------------------------------------------------------------
// The format, as spec functions of the bytes.
// ---------------------------------------------------------------------------

/// Prepends `x` to the sequence of a successful result.
pub open spec fn prepend_ok<T>(x: T, r: Result<(Seq<T>, int), FormatError>) -> Result<
    (Seq<T>, int),
    FormatError,
> {
    match r {
        Ok((s, e)) => Ok((seq![x] + s, e)),
        Err(e) => Err(e),
    }
}

/// Prepends `a` to the sequence of a successful result.
pub open spec fn prepend_all_ok<T>(a: Seq<T>, r: Result<(Seq<T>, int), FormatError>) -> Result<
    (Seq<T>, int),
    FormatError,
> {
    match r {
        Ok((s, e)) => Ok((a + s, e)),
        Err(e) => Err(e),
    }
}

/// Whether `t` is one of the defined data type codes.
pub open spec fn known_data_type(t: u8) -> bool {
    t <= 8 || t == 0xA || t == 0xB
}

/// One cell of type code `t` at `p`: its value and the position after it.
/// Strings and byte arrays are stored elsewhere; the cell holds their offset
/// (and size), and reading them does not move past the cell.
pub open spec fn spec_row_data(
    b: Seq<u8>,
    p: int,
    strings_offset: u32,
    data_offset: u32,
    t: u8,
) -> Result<(RowValue, int), FormatError> {
    if t == 0 || t == 1 {
        if p + 1 <= b.len() {
            Ok((RowValue::UInt8(b[p]), p + 1))
        } else {
            Err(FormatError::UnexpectedEof)
        }
    } else if t == 2 || t == 3 {
        if p + 2 <= b.len() {
            Ok((RowValue::UInt16(be_u16(b, p) as u16), p + 2))
        } else {
            Err(FormatError::UnexpectedEof)
        }
    } else if t == 4 || t == 5 {
        if p + 4 <= b.len() {
            Ok((RowValue::UInt32(be_u32(b, p) as u32), p + 4))
        } else {
            Err(FormatError::UnexpectedEof)
        }
    } else if t == 6 || t == 7 {
        if p + 8 <= b.len() {
            Ok((RowValue::UInt64(be_u64(b, p) as u64), p + 8))
        } else {
            Err(FormatError::UnexpectedEof)
        }
    } else if t == 8 {
        if p + 4 <= b.len() {
            Ok((RowValue::Float(be_u32(b, p) as u32), p + 4))
        } else {
            Err(FormatError::UnexpectedEof)
        }
    } else if t == 0xA {
        if p + 4 > b.len() {
            Err(FormatError::UnexpectedEof)
        } else if strings_offset + be_u32(b, p) > u32::MAX {
            Err(FormatError::Overflow)
        } else {
            match spec_read_cstring(b, strings_offset + be_u32(b, p)) {
                Ok(s) => Ok((RowValue::String(s), p + 4)),
                Err(e) => Err(e),
            }
        }
    } else if t == 0xB {
        if p + 8 > b.len() {
            Err(FormatError::UnexpectedEof)
        } else if data_offset + be_u32(b, p) > u32::MAX {
            Err(FormatError::Overflow)
        } else if !can_take(b, data_offset + be_u32(b, p), be_u32(b, p + 4)) {
            Err(FormatError::UnexpectedEof)
        } else {
            Ok(
                (
                    RowValue::ByteArray(
                        take_bytes(b, data_offset + be_u32(b, p), be_u32(b, p + 4)),
                    ),
                    p + 8,
                ),
            )
        }
    } else {
        Err(FormatError::UnknownDataType(t))
    }
}

/// One column definition at `p`: a flag byte (when it is zero, the real flag
/// follows three bytes later), the offset of the name, and, for constant
/// columns, the constant cell.
pub open spec fn spec_column_definition(
    b: Seq<u8>,
    p: int,
    index: u16,
    strings_offset: u32,
    data_offset: u32,
) -> Result<(ColumnDefinitionView, int), FormatError> {
    if p + 1 > b.len() || (b[p] == 0 && p + 5 > b.len()) {
        Err(FormatError::UnexpectedEof)
    } else {
        let flag = if b[p] == 0 {
            b[p + 4]
        } else {
            b[p]
        };
        let p1 = if b[p] == 0 {
            p + 5
        } else {
            p + 1
        };
        if p1 + 4 > b.len() {
            Err(FormatError::UnexpectedEof)
        } else {
            let name_offset = be_u32(b, p1) as u32;
            if flag & 0xF0 == 0x30 {
                match spec_row_data(b, p1 + 4, strings_offset, data_offset, flag & 0x0F) {
                    Ok((v, p2)) => Ok(
                        (
                            ColumnDefinitionView {
                                index,
                                flag,
                                name_offset,
                                column_constant_value: Some(v),
                            },
                            p2,
                        ),
                    ),
                    Err(e) => Err(e),
                }
            } else {
                Ok(
                    (
                        ColumnDefinitionView {
                            index,
                            flag,
                            name_offset,
                            column_constant_value: None,
                        },
                        p1 + 4,
                    ),
                )
            }
        }
    }
}

/// The column definitions `i..n`, starting at `p`.
pub open spec fn spec_column_definitions(
    b: Seq<u8>,
    p: int,
    i: int,
    n: int,
    strings_offset: u32,
    data_offset: u32,
) -> Result<(Seq<ColumnDefinitionView>, int), FormatError>
    decreases n - i,
{
    if i >= n {
        Ok((Seq::empty(), p))
    } else {
        match spec_column_definition(b, p, i as u16, strings_offset, data_offset) {
            Ok((c, p1)) => prepend_ok(
                c,
                spec_column_definitions(b, p1, i + 1, n, strings_offset, data_offset),
            ),
            Err(e) => Err(e),
        }
    }
}

/// The resolved column of a definition: its name is read at the strings offset
/// plus the name offset.
pub open spec fn spec_column(b: Seq<u8>, strings_offset: u32, d: ColumnDefinitionView) -> Result<
    ColumnView,
    FormatError,
> {
    if strings_offset + d.name_offset > u32::MAX {
        Err(FormatError::Overflow)
    } else {
        match spec_read_cstring(b, strings_offset + d.name_offset) {
            Ok(name) => Ok(
                ColumnView {
                    DataStorage: d.flag & 0xF0,
                    DataType: d.flag & 0x0F,
                    Name: name,
                    ColumnConstantValue: d.column_constant_value,
                },
            ),
            Err(e) => Err(e),
        }
    }
}

/// The resolved columns of the definitions `defs[i..]`.
pub open spec fn spec_columns(
    b: Seq<u8>,
    strings_offset: u32,
    defs: Seq<ColumnDefinitionView>,
    i: int,
) -> Result<Seq<ColumnView>, FormatError>
    decreases defs.len() - i,
{
    if i < 0 || i >= defs.len() {
        Ok(Seq::empty())
    } else {
        match spec_column(b, strings_offset, defs[i]) {
            Ok(c) => match spec_columns(b, strings_offset, defs, i + 1) {
                Ok(cs) => Ok(seq![c] + cs),
                Err(e) => Err(e),
            },
            Err(e) => Err(e),
        }
    }
}

/// The cells of columns `cols[k..]` of a row, the per-row cells being read from `p` on.
pub open spec fn spec_row_cells(
    b: Seq<u8>,
    p: int,
    cols: Seq<ColumnView>,
    k: int,
    strings_offset: u32,
    data_offset: u32,
) -> Result<Seq<Option<RowValue>>, FormatError>
    decreases cols.len() - k,
{
    if k < 0 || k >= cols.len() {
        Ok(Seq::empty())
    } else {
        let c = cols[k];
        if c.DataStorage == 0x00 {
            match spec_row_cells(b, p, cols, k + 1, strings_offset, data_offset) {
                Ok(rest) => Ok(seq![None] + rest),
                Err(e) => Err(e),
            }
        } else if c.DataStorage == 0x10 {
            match spec_row_cells(b, p, cols, k + 1, strings_offset, data_offset) {
                Ok(rest) => Ok(seq![Some(RowValue::UInt8(0))] + rest),
                Err(e) => Err(e),
            }
        } else if c.DataStorage == 0x30 {
            match spec_row_cells(b, p, cols, k + 1, strings_offset, data_offset) {
                Ok(rest) => Ok(seq![c.ColumnConstantValue] + rest),
                Err(e) => Err(e),
            }
        } else if c.DataStorage == 0x50 {
            match spec_row_data(b, p, strings_offset, data_offset, c.DataType) {
                Ok((v, p1)) => match spec_row_cells(b, p1, cols, k + 1, strings_offset, data_offset) {
                    Ok(rest) => Ok(seq![Some(v)] + rest),
                    Err(e) => Err(e),
                },
                Err(e) => Err(e),
            }
        } else {
            Err(FormatError::UnknownDataStorage(c.DataStorage))
        }
    }
}

/// The rows at `offsets[j..]`.
pub open spec fn spec_rows(
    b: Seq<u8>,
    offsets: Seq<u64>,
    j: int,
    cols: Seq<ColumnView>,
    strings_offset: u32,
    data_offset: u32,
) -> Result<Seq<Seq<Option<RowValue>>>, FormatError>
    decreases offsets.len() - j,
{
    if j < 0 || j >= offsets.len() {
        Ok(Seq::empty())
    } else {
        match spec_row_cells(b, offsets[j] as int, cols, 0, strings_offset, data_offset) {
            Ok(r) => match spec_rows(b, offsets, j + 1, cols, strings_offset, data_offset) {
                Ok(rs) => Ok(seq![r] + rs),
                Err(e) => Err(e),
            },
            Err(e) => Err(e),
        }
    }
}

/// What a cell holds, by type code: codes 0 and 1 are one byte, 2 and 3 a
/// big-endian 16-bit value, 4 and 5 a big-endian 32-bit value, 6 and 7 a
/// big-endian 64-bit value, 8 the bits of a big-endian 32-bit float; the
/// cursor moves past exactly those bytes, and a cell that does not fit is
/// an error.  A string cell (0xA) is a 32-bit offset into the strings area,
/// a byte-array cell (0xB) a 32-bit offset into the data area and a 32-bit
/// size; both move past the cell only.  Any other code is refused.
pub proof fn lemma_cell_layout(b: Seq<u8>, p: int, so: u32, dof: u32)
    requires
        0 <= p,
    ensures
        forall|t: u8|
            (t == 0 || t == 1) ==> #[trigger] spec_row_data(b, p, so, dof, t) == if p + 1 <= b.len() {
                Ok::<(RowValue, int), FormatError>((RowValue::UInt8(b[p]), p + 1))
            } else {
                Err(FormatError::UnexpectedEof)
            },
        forall|t: u8|
            (t == 2 || t == 3) ==> #[trigger] spec_row_data(b, p, so, dof, t) == if p + 2 <= b.len() {
                Ok::<(RowValue, int), FormatError>(
                    (RowValue::UInt16((b[p] * 0x100 + b[p + 1]) as u16), p + 2),
                )
            } else {
                Err(FormatError::UnexpectedEof)
            },
        forall|t: u8|
            (t == 4 || t == 5) ==> #[trigger] spec_row_data(b, p, so, dof, t) == if p + 4 <= b.len() {
                Ok::<(RowValue, int), FormatError>((RowValue::UInt32(be_u32(b, p) as u32), p + 4))
            } else {
                Err(FormatError::UnexpectedEof)
            },
        forall|t: u8|
            (t == 6 || t == 7) ==> #[trigger] spec_row_data(b, p, so, dof, t) == if p + 8 <= b.len() {
                Ok::<(RowValue, int), FormatError>(
                    (RowValue::UInt64((be_u32(b, p) * 0x1_0000_0000 + be_u32(b, p + 4)) as u64), p + 8),
                )
            } else {
                Err(FormatError::UnexpectedEof)
            },
        spec_row_data(b, p, so, dof, 8) == if p + 4 <= b.len() {
            Ok::<(RowValue, int), FormatError>((RowValue::Float(be_u32(b, p) as u32), p + 4))
        } else {
            Err(FormatError::UnexpectedEof)
        },
        p + 4 <= b.len() && so + be_u32(b, p) <= u32::MAX ==> spec_row_data(b, p, so, dof, 0xA)
            == match spec_read_cstring(b, so + be_u32(b, p)) {
            Ok(s) => Ok::<(RowValue, int), FormatError>((RowValue::String(s), p + 4)),
            Err(e) => Err(e),
        },
        p + 8 <= b.len() && dof + be_u32(b, p) <= u32::MAX && can_take(
            b,
            dof + be_u32(b, p),
            be_u32(b, p + 4),
        ) ==> spec_row_data(b, p, so, dof, 0xB) == Ok::<(RowValue, int), FormatError>(
            (RowValue::ByteArray(take_bytes(b, dof + be_u32(b, p), be_u32(b, p + 4))), p + 8),
        ),
        forall|t: u8|
            !(t <= 8 || t == 0xA || t == 0xB) ==> #[trigger] spec_row_data(b, p, so, dof, t)
                == Err::<(RowValue, int), FormatError>(FormatError::UnknownDataType(t)),
{
}

/// Whether a 32-byte table header fits at `p`.
pub open spec fn utf_header_fits(b: Seq<u8>, p: int) -> bool {
    p + 32 <= b.len()
}

/// Whether the three table-relative offsets of the header at `p` can be made absolute.
pub open spec fn utf_offsets_fit(b: Seq<u8>, p: int) -> bool {
    &&& be_u32(b, p + 8) + 8 <= u32::MAX
    &&& be_u32(b, p + 12) + 8 <= u32::MAX
    &&& be_u32(b, p + 16) + 8 <= u32::MAX
}

impl UTFPacket {
    pub open spec fn same_header(&self, other: &UTFPacket) -> bool {
        &&& self.magic == other.magic
        &&& self.TableSize == other.TableSize
        &&& self.RowsOffset == other.RowsOffset
        &&& self.StringsOffset == other.StringsOffset
        &&& self.DataOffset == other.DataOffset
        &&& self.TableName == other.TableName
        &&& self.ColumnsNumber == other.ColumnsNumber
        &&& self.RowLength == other.RowLength
        &&& self.RowsNumber == other.RowsNumber
    }

    /// Reads the table header (big-endian); the rows, strings and data
    /// offsets are made absolute by adding the 8 bytes of the UTF header.
    pub fn build(file: &mut ByteCursor) -> (r: Result<Self, FormatError>)
        ensures
            final(file).data@ == old(file).data@,
            ({
                let b = old(file).data@;
                let p = old(file).pos as int;
                match r {
                    Ok(t) => utf_header_fits(b, p) && utf_offsets_fit(b, p)
                        && t.magic == be_u32(b, p)
                        && t.TableSize == be_u32(b, p + 4)
                        && t.RowsOffset == be_u32(b, p + 8) + 8
                        && t.StringsOffset == be_u32(b, p + 12) + 8
                        && t.DataOffset == be_u32(b, p + 16) + 8
                        && t.TableName == be_u32(b, p + 20)
                        && t.ColumnsNumber == be_u16(b, p + 24)
                        && t.RowLength == be_u16(b, p + 26)
                        && t.RowsNumber == be_u32(b, p + 28)
                        && t.UTFColumns@.len() == 0
                        && t.UTFRowsOffsets@.len() == 0
                        && t.column_instances@.len() == 0
                        && t.UTFRowsData@.len() == 0
                        && final(file).pos == p + 32,
                    Err(e) => if !utf_header_fits(b, p) {
                        e == FormatError::UnexpectedEof
                    } else {
                        !utf_offsets_fit(b, p) && e == FormatError::Overflow
                    },
                }
            }),
    {
        if file.remaining() < 32 {
            return Err(FormatError::UnexpectedEof);
        }
        let magic = read_u32(file, ByteOrder::Big);
        let table_size = read_u32(file, ByteOrder::Big);
        let rows_offset = read_u32(file, ByteOrder::Big);
        let strings_offset = read_u32(file, ByteOrder::Big);
        let data_offset = read_u32(file, ByteOrder::Big);
        let table_name = read_u32(file, ByteOrder::Big);
        let columns_number = read_u16(file, ByteOrder::Big);
        let row_length = read_u16(file, ByteOrder::Big);
        let rows_number = read_u32(file, ByteOrder::Big);
        let rows_offset = match rows_offset.checked_add(8) {
            Some(v) => v,
            None => return Err(FormatError::Overflow),
        };
        let strings_offset = match strings_offset.checked_add(8) {
            Some(v) => v,
            None => return Err(FormatError::Overflow),
        };
        let data_offset = match data_offset.checked_add(8) {
            Some(v) => v,
            None => return Err(FormatError::Overflow),
        };
        Ok(UTFPacket {
            magic,
            TableSize: table_size,
            RowsOffset: rows_offset,
            StringsOffset: strings_offset,
            DataOffset: data_offset,
            TableName: table_name,
            ColumnsNumber: columns_number,
            RowLength: row_length,
            RowsNumber: rows_number,
            UTFColumns: Vec::new(),
            UTFRowsOffsets: Vec::new(),
            column_instances: Vec::new(),
            UTFRowsData: Vec::new(),
        })
    }

    /// Reads one cell of type code `data_type` at the cursor; the code is one
    /// of the defined types (0 to 8, 0xA, 0xB).
    pub fn parse_row_data(&self, file: &mut ByteCursor, data_type: u8) -> (r: Result<
        RowData,
        FormatError,
    >)
        requires
            known_data_type(data_type),
        ensures
            final(file).data@ == old(file).data@,
            match r {
                Ok(v) => spec_row_data(
                    old(file).data@,
                    old(file).pos as int,
                    self.StringsOffset,
                    self.DataOffset,
                    data_type,
                ) == Ok::<(RowValue, int), FormatError>((v.deep_view(), final(file).pos as int)),
                Err(e) => spec_row_data(
                    old(file).data@,
                    old(file).pos as int,
                    self.StringsOffset,
                    self.DataOffset,
                    data_type,
                ) == Err::<(RowValue, int), FormatError>(e),
            },
    {
        self.read_cell(file, data_type)
    }

    /// Reads one cell of type code `data_type` at the cursor; an undefined
    /// code is an error.
    fn read_cell(&self, file: &mut ByteCursor, data_type: u8) -> (r: Result<
        RowData,
        FormatError,
    >)
        ensures
            final(file).data@ == old(file).data@,
            match r {
                Ok(v) => spec_row_data(
                    old(file).data@,
                    old(file).pos as int,
                    self.StringsOffset,
                    self.DataOffset,
                    data_type,
                ) == Ok::<(RowValue, int), FormatError>((v.deep_view(), final(file).pos as int)),
                Err(e) => spec_row_data(
                    old(file).data@,
                    old(file).pos as int,
                    self.StringsOffset,
                    self.DataOffset,
                    data_type,
                ) == Err::<(RowValue, int), FormatError>(e),
            },
    {
        let ghost b = file.data@;
        let ghost p = file.pos as int;
        let rem = file.remaining();
        if data_type == DataType::UINT8.code() || data_type == DataType::UINT8_1.code() {
            if rem < 1 {
                return Err(FormatError::UnexpectedEof);
            }
            Ok(RowData::UInt8(read_u8(file, ByteOrder::Big)))
        } else if data_type == DataType::UINT16.code() || data_type == DataType::UINT16_1.code() {
            if rem < 2 {
                return Err(FormatError::UnexpectedEof);
            }
            Ok(RowData::UInt16(read_u16(file, ByteOrder::Big)))
        } else if data_type == DataType::UINT32.code() || data_type == DataType::UINT32_1.code() {
            if rem < 4 {
                return Err(FormatError::UnexpectedEof);
            }
            Ok(RowData::UInt32(read_u32(file, ByteOrder::Big)))
        } else if data_type == DataType::UINT64.code() || data_type == DataType::UINT64_1.code() {
            if rem < 8 {
                return Err(FormatError::UnexpectedEof);
            }
            Ok(RowData::UInt64(read_u64(file, ByteOrder::Big)))
        } else if data_type == DataType::FLOAT.code() {
            if rem < 4 {
                return Err(FormatError::UnexpectedEof);
            }
            Ok(RowData::Float(read_u32(file, ByteOrder::Big)))
        } else if data_type == DataType::STRING.code() {
            if rem < 4 {
                return Err(FormatError::UnexpectedEof);
            }
            let offset = read_u32(file, ByteOrder::Big);
            let current_position = file.position();
            let target = match self.StringsOffset.checked_add(offset) {
                Some(v) => v,
                None => return Err(FormatError::Overflow),
            };
            file.seek_to(target as u64);
            let string = read_cstring(file);
            file.seek_to(current_position);
            match string {
                Ok(s) => Ok(RowData::String(s)),
                Err(e) => Err(e),
            }
        } else if data_type == DataType::BYTEARRAY.code() {
            if rem < 8 {
                return Err(FormatError::UnexpectedEof);
            }
            let offset = read_u32(file, ByteOrder::Big);
            let size = read_u32(file, ByteOrder::Big);
            let current_position = file.position();
            let target = match self.DataOffset.checked_add(offset) {
                Some(v) => v,
                None => return Err(FormatError::Overflow),
            };
            file.seek_to(target as u64);
            if size != 0 && file.remaining() < size as u64 {
                return Err(FormatError::UnexpectedEof);
            }
            let bytes = read_bytes(file, size as u64);
            file.seek_to(current_position);
            Ok(RowData::ByteArray(bytes))
        } else {
            Err(FormatError::UnknownDataType(data_type))
        }
    }
}


/// Prepends `a` to a successful sequence result.
pub open spec fn prepend_seq_ok<T>(a: Seq<T>, r: Result<Seq<T>, FormatError>) -> Result<
    Seq<T>,
    FormatError,
> {
    match r {
        Ok(s) => Ok(a + s),
        Err(e) => Err(e),
    }
}

/// The row offsets of `n` rows of `row_length` bytes from `p`.
pub open spec fn row_offsets(p: int, n: int, row_length: int) -> Seq<u64> {
    Seq::new(n as nat, |j: int| (p + j * row_length) as u64)
}

impl UTFPacket {
    fn read_one_column_definition(&self, file: &mut ByteCursor, index: u16) -> (r: Result<
        ColumnDefinition,
        FormatError,
    >)
        ensures
            final(file).data@ == old(file).data@,
            match r {
                Ok(c) => spec_column_definition(
                    old(file).data@,
                    old(file).pos as int,
                    index,
                    self.StringsOffset,
                    self.DataOffset,
                ) == Ok::<(ColumnDefinitionView, int), FormatError>(
                    (c.deep_view(), final(file).pos as int),
                ),
                Err(e) => spec_column_definition(
                    old(file).data@,
                    old(file).pos as int,
                    index,
                    self.StringsOffset,
                    self.DataOffset,
                ) == Err::<(ColumnDefinitionView, int), FormatError>(e),
            },
    {
        let len = file.data.len();
        if file.remaining() < 1 {
            return Err(FormatError::UnexpectedEof);
        }
        let mut flag = read_u8(file, ByteOrder::Big);
        if flag == 0 {
            if file.remaining() < 4 {
                return Err(FormatError::UnexpectedEof);
            }
            let skipped = file.position() + 3;
            file.seek_to(skipped);
            flag = read_u8(file, ByteOrder::Big);
        }
        if file.remaining() < 4 {
            return Err(FormatError::UnexpectedEof);
        }
        let name_offset = read_u32(file, ByteOrder::Big);
        let mut column_constant_value: Option<RowData> = None;
        if flag & DataStorage::STORAGE_MASK.code() == DataStorage::STORAGE_CONSTANT.code() {
            match self.read_cell(file, flag & DataType::DATATYPE_MASK.code()) {
                Ok(v) => {
                    column_constant_value = Some(v);
                },
                Err(e) => return Err(e),
            }
        }
        Ok(ColumnDefinition { index, flag, name_offset, column_constant_value })
    }

    /// Reads the `ColumnsNumber` column definitions that follow the header
    /// and appends them to `UTFColumns`.
    pub fn read_column_definition(&mut self, file: &mut ByteCursor) -> (r: Result<(), FormatError>)
        ensures
            final(file).data@ == old(file).data@,
            final(self).same_header(&*old(self)),
            final(self).UTFRowsOffsets@ == old(self).UTFRowsOffsets@,
            final(self).column_instances.deep_view() == old(self).column_instances.deep_view(),
            final(self).UTFRowsData.deep_view() == old(self).UTFRowsData.deep_view(),
            ({
                let spec = spec_column_definitions(
                    old(file).data@,
                    old(file).pos as int,
                    0,
                    old(self).ColumnsNumber as int,
                    old(self).StringsOffset,
                    old(self).DataOffset,
                );
                match r {
                    Ok(_) => match spec {
                        Ok((defs, end)) => final(self).UTFColumns.deep_view()
                            == old(self).UTFColumns.deep_view() + defs && final(file).pos == end,
                        Err(_) => false,
                    },
                    Err(e) => spec == Err::<(Seq<ColumnDefinitionView>, int), FormatError>(e),
                }
            }),
    {
        let ghost b = file.data@;
        let ghost p0 = file.pos as int;
        let ghost old_cols = self.UTFColumns.deep_view();
        let ghost mut acc: Seq<ColumnDefinitionView> = Seq::empty();
        let n = self.ColumnsNumber;
        let mut i: u16 = 0;
        while i < n
            invariant
                0 <= i <= n,
                n == self.ColumnsNumber,
                n == old(self).ColumnsNumber,
                b == old(file).data@,
                p0 == old(file).pos,
                file.data@ == b,
                self.same_header(&*old(self)),
                self.UTFRowsOffsets@ == old(self).UTFRowsOffsets@,
                self.column_instances.deep_view() == old(self).column_instances.deep_view(),
                self.UTFRowsData.deep_view() == old(self).UTFRowsData.deep_view(),
                self.UTFColumns.deep_view() == old_cols + acc,
                spec_column_definitions(b, p0, 0, n as int, self.StringsOffset, self.DataOffset)
                    == prepend_all_ok(
                    acc,
                    spec_column_definitions(
                        b,
                        file.pos as int,
                        i as int,
                        n as int,
                        self.StringsOffset,
                        self.DataOffset,
                    ),
                ),
            decreases n - i,
        {
            let ghost pos_before = file.pos as int;
            let ghost before = self.UTFColumns.deep_view();
            assert(spec_column_definitions(
                b,
                pos_before,
                i as int,
                n as int,
                self.StringsOffset,
                self.DataOffset,
            ) == match spec_column_definition(b, pos_before, i as u16, self.StringsOffset, self.DataOffset) {
                Ok((c, p1)) => prepend_ok(
                    c,
                    spec_column_definitions(b, p1, i + 1, n as int, self.StringsOffset, self.DataOffset),
                ),
                Err(e) => Err(e),
            });
            let c = match self.read_one_column_definition(file, i) {
                Ok(c) => c,
                Err(e) => {
                    return Err(e);
                },
            };
            let ghost cv = c.deep_view();
            let ghost rest = spec_column_definitions(
                b,
                file.pos as int,
                i + 1,
                n as int,
                self.StringsOffset,
                self.DataOffset,
            );
            assert(spec_column_definitions(
                b,
                pos_before,
                i as int,
                n as int,
                self.StringsOffset,
                self.DataOffset,
            ) == prepend_ok(cv, rest));
            proof {
                match rest {
                Ok((s, e)) => {
                    assert(acc + (seq![cv] + s) =~= (acc + seq![cv]) + s);
                },
                Err(_) => {},
                }
            }
            self.UTFColumns.push(c);
            assert(self.UTFColumns.deep_view() =~= before + seq![cv]);
            proof {
                acc = acc + seq![cv];
                assert(self.UTFColumns.deep_view() =~= old_cols + acc);
            }
            i = i + 1;
        }
        assert(acc + Seq::<ColumnDefinitionView>::empty() =~= acc);
        Ok(())
    }

    /// Records the offsets of the `RowsNumber` rows that follow, each `RowLength`
    /// bytes long, and moves past them.
    pub fn read_rows(&mut self, file: &mut ByteCursor) -> (r: Result<(), FormatError>)
        ensures
            final(file).data@ == old(file).data@,
            final(self).same_header(&*old(self)),
            final(self).UTFColumns.deep_view() == old(self).UTFColumns.deep_view(),
            final(self).column_instances.deep_view() == old(self).column_instances.deep_view(),
            final(self).UTFRowsData.deep_view() == old(self).UTFRowsData.deep_view(),
            ({
                let p = old(file).pos as int;
                let n = old(self).RowsNumber as int;
                let rl = old(self).RowLength as int;
                match r {
                    Ok(_) => p + n * rl <= u64::MAX && final(self).UTFRowsOffsets@
                        == old(self).UTFRowsOffsets@ + row_offsets(p, n, rl) && final(file).pos
                        == p + n * rl,
                    Err(e) => p + n * rl > u64::MAX && e == FormatError::Overflow,
                }
            }),
    {
        let ghost p = file.pos as int;
        let ghost old_offsets = self.UTFRowsOffsets@;
        let n = self.RowsNumber;
        let rl = self.RowLength as u64;
        let mut j: u32 = 0;
        while j < n
            invariant
                0 <= j <= n,
                n == self.RowsNumber,
                rl == self.RowLength,
                file.data@ == old(file).data@,
                p == old(file).pos,
                self.same_header(&*old(self)),
                self.UTFColumns.deep_view() == old(self).UTFColumns.deep_view(),
                self.column_instances.deep_view() == old(self).column_instances.deep_view(),
                self.UTFRowsData.deep_view() == old(self).UTFRowsData.deep_view(),
                file.pos == p + j * rl,
                self.UTFRowsOffsets@ == old_offsets + row_offsets(p, j as int, rl as int),
            decreases n - j,
        {
            let here = file.position();
            self.UTFRowsOffsets.push(here);
            assert(self.UTFRowsOffsets@ =~= old_offsets + row_offsets(p, j + 1, rl as int));
            if here > u64::MAX - rl {
                assert(p + n * rl > u64::MAX) by (nonlinear_arith)
                    requires
                        here == p + j * rl,
                        here + rl > u64::MAX,
                        j < n,
                        rl >= 0,
                ;
                return Err(FormatError::Overflow);
            }
            file.seek_to(here + rl);
            assert(file.pos == p + (j + 1) * rl) by (nonlinear_arith)
                requires
                    file.pos == here + rl,
                    here == p + j * rl,
            ;
            j = j + 1;
        }
        Ok(())
    }

    /// The cells of one row, the per-row cells being read at the cursor.
    fn parse_row(&self, file: &mut ByteCursor) -> (r: Result<Vec<Option<RowData>>, FormatError>)
        ensures
            final(file).data@ == old(file).data@,
            ({
                let spec = spec_row_cells(
                    old(file).data@,
                    old(file).pos as int,
                    self.column_instances.deep_view(),
                    0,
                    self.StringsOffset,
                    self.DataOffset,
                );
                match r {
                    Ok(cells) => spec == Ok::<Seq<Option<RowValue>>, FormatError>(
                        cells.deep_view(),
                    ),
                    Err(e) => spec == Err::<Seq<Option<RowValue>>, FormatError>(e),
                }
            }),
    {
        let ghost b = file.data@;
        let ghost p0 = file.pos as int;
        let ghost cols = self.column_instances.deep_view();
        let mut cells: Vec<Option<RowData>> = Vec::new();
        let n = self.column_instances.len();
        let mut k: usize = 0;
        while k < n
            invariant
                0 <= k <= n,
                n == self.column_instances@.len(),
                cols == self.column_instances.deep_view(),
                b == old(file).data@,
                p0 == old(file).pos,
                file.data@ == b,
                spec_row_cells(b, p0, cols, 0, self.StringsOffset, self.DataOffset)
                    == prepend_seq_ok(
                    cells.deep_view(),
                    spec_row_cells(
                        b,
                        file.pos as int,
                        cols,
                        k as int,
                        self.StringsOffset,
                        self.DataOffset,
                    ),
                ),
            decreases n - k,
        {
            let ghost before = cells.deep_view();
            let ghost pos_before = file.pos as int;
            let column = &self.column_instances[k];
            assert(cols[k as int] == column.deep_view());
            assert(spec_row_cells(b, pos_before, cols, k as int, self.StringsOffset, self.DataOffset)
                == if cols[k as int].DataStorage == 0x00 {
                    prepend_seq_ok(seq![None], spec_row_cells(b, pos_before, cols, k + 1, self.StringsOffset, self.DataOffset))
                } else if cols[k as int].DataStorage == 0x10 {
                    prepend_seq_ok(seq![Some(RowValue::UInt8(0))], spec_row_cells(b, pos_before, cols, k + 1, self.StringsOffset, self.DataOffset))
                } else if cols[k as int].DataStorage == 0x30 {
                    prepend_seq_ok(seq![cols[k as int].ColumnConstantValue], spec_row_cells(b, pos_before, cols, k + 1, self.StringsOffset, self.DataOffset))
                } else if cols[k as int].DataStorage == 0x50 {
                    match spec_row_data(b, pos_before, self.StringsOffset, self.DataOffset, cols[k as int].DataType) {
                        Ok((v, p1)) => prepend_seq_ok(seq![Some(v)], spec_row_cells(b, p1, cols, k + 1, self.StringsOffset, self.DataOffset)),
                        Err(e) => Err(e),
                    }
                } else {
                    Err(FormatError::UnknownDataStorage(cols[k as int].DataStorage))
                });
            let storage = column.DataStorage;
            let cell: Option<RowData>;
            if storage == DataStorage::STORAGE_NONE.code() {
                cell = None;
            } else if storage == DataStorage::STORAGE_ZERO.code() {
                cell = Some(RowData::UInt8(0));
            } else if storage == DataStorage::STORAGE_CONSTANT.code() {
                cell = duplicate_cell(&column.ColumnConstantValue);
            } else if storage == DataStorage::STORAGE_PERROW.code() {
                match self.read_cell(file, column.DataType) {
                    Ok(v) => {
                        cell = Some(v);
                    },
                    Err(e) => {
                        return Err(e);
                    },
                }
            } else {
                return Err(FormatError::UnknownDataStorage(storage));
            }
            let ghost rest = spec_row_cells(
                b,
                file.pos as int,
                cols,
                k + 1,
                self.StringsOffset,
                self.DataOffset,
            );
            assert(spec_row_cells(b, pos_before, cols, k as int, self.StringsOffset, self.DataOffset)
                == prepend_seq_ok(seq![cell.deep_view()], rest));
            cells.push(cell);
            assert(cells.deep_view() =~= before + seq![cell.deep_view()]);
            proof {
                match rest {
                Ok(s) => {
                    assert(before + (seq![cell.deep_view()] + s) =~= cells.deep_view() + s);
                },
                Err(_) => {},
                }
            }
            k = k + 1;
        }
        assert(cells.deep_view() + Seq::<Option<RowValue>>::empty() =~= cells.deep_view());
        Ok(cells)
    }

    /// Resolves the column definitions (reading their names) into
    /// `column_instances`, then reads every recorded row into `UTFRowsData`.
    pub fn parse_decrypted_packet(&mut self, file: &mut ByteCursor) -> (r: Result<(), FormatError>)
        ensures
            final(file).data@ == old(file).data@,
            final(self).same_header(&*old(self)),
            final(self).UTFColumns.deep_view() == old(self).UTFColumns.deep_view(),
            final(self).UTFRowsOffsets@ == old(self).UTFRowsOffsets@,
            ({
                let b = old(file).data@;
                let cols = spec_columns(
                    b,
                    old(self).StringsOffset,
                    old(self).UTFColumns.deep_view(),
                    0,
                );
                match cols {
                    Err(e) => r == Err::<(), FormatError>(e),
                    Ok(new_cols) => {
                        let all = old(self).column_instances.deep_view() + new_cols;
                        let rows = spec_rows(
                            b,
                            old(self).UTFRowsOffsets@,
                            0,
                            all,
                            old(self).StringsOffset,
                            old(self).DataOffset,
                        );
                        match rows {
                            Err(e) => r == Err::<(), FormatError>(e),
                            Ok(new_rows) => r is Ok && final(self).column_instances.deep_view()
                                == all && final(self).UTFRowsData.deep_view()
                                == old(self).UTFRowsData.deep_view() + new_rows,
                        }
                    },
                }
            }),
    {
        let ghost b = file.data@;
        let ghost defs = self.UTFColumns.deep_view();
        let ghost old_instances = self.column_instances.deep_view();
        let ghost mut acc: Seq<ColumnView> = Seq::empty();
        let n = self.UTFColumns.len();
        let mut k: usize = 0;
        while k < n
            invariant
                0 <= k <= n,
                n == self.UTFColumns@.len(),
                defs == self.UTFColumns.deep_view(),
                b == old(file).data@,
                old_instances == old(self).column_instances.deep_view(),
                file.data@ == b,
                self.same_header(&*old(self)),
                self.UTFColumns.deep_view() == old(self).UTFColumns.deep_view(),
                self.UTFRowsOffsets@ == old(self).UTFRowsOffsets@,
                self.UTFRowsData.deep_view() == old(self).UTFRowsData.deep_view(),
                self.column_instances.deep_view() == old_instances + acc,
                spec_columns(b, self.StringsOffset, defs, 0) == prepend_seq_ok(
                    acc,
                    spec_columns(b, self.StringsOffset, defs, k as int),
                ),
            decreases n - k,
        {
            let ghost before = self.column_instances.deep_view();
            let d = &self.UTFColumns[k];
            assert(defs[k as int] == d.deep_view());
            assert(spec_columns(b, self.StringsOffset, defs, k as int) == match spec_column(b, self.StringsOffset, defs[k as int]) {
                Ok(c) => prepend_seq_ok(seq![c], spec_columns(b, self.StringsOffset, defs, k + 1)),
                Err(e) => Err(e),
            });
            let flag = d.flag;
            let target = match self.StringsOffset.checked_add(d.name_offset) {
                Some(t) => t,
                None => return Err(FormatError::Overflow),
            };
            file.seek_to(target as u64);
            let name = match read_cstring(file) {
                Ok(s) => s,
                Err(e) => return Err(e),
            };
            let column = Column {
                DataStorage: flag & DataStorage::STORAGE_MASK.code(),
                DataType: flag & DataType::DATATYPE_MASK.code(),
                Name: name,
                ColumnConstantValue: duplicate_cell(&d.column_constant_value),
            };
            let ghost cv = column.deep_view();
            assert(spec_column(b, self.StringsOffset, defs[k as int]) == Ok::<ColumnView, FormatError>(cv));
            let ghost rest = spec_columns(b, self.StringsOffset, defs, k + 1);
            proof {
                match rest {
                Ok(s) => {
                    assert(acc + (seq![cv] + s) =~= (acc + seq![cv]) + s);
                },
                Err(_) => {},
                }
            }
            self.column_instances.push(column);
            assert(self.column_instances.deep_view() =~= before + seq![cv]);
            proof {
                acc = acc + seq![cv];
                assert(self.column_instances.deep_view() =~= old_instances + acc);
            }
            k = k + 1;
        }
        assert(acc + Seq::<ColumnView>::empty() =~= acc);
        let ghost all = self.column_instances.deep_view();
        let ghost offsets = self.UTFRowsOffsets@;
        let ghost old_rows = self.UTFRowsData.deep_view();
        let ghost mut racc: Seq<Seq<Option<RowValue>>> = Seq::empty();
        let m = self.UTFRowsOffsets.len();
        let mut j: usize = 0;
        while j < m
            invariant
                0 <= j <= m,
                m == self.UTFRowsOffsets@.len(),
                offsets == self.UTFRowsOffsets@,
                all == self.column_instances.deep_view(),
                b == old(file).data@,
                old_rows == old(self).UTFRowsData.deep_view(),
                old_instances == old(self).column_instances.deep_view(),
                all == old_instances + acc,
                spec_columns(b, old(self).StringsOffset, old(self).UTFColumns.deep_view(), 0)
                    == Ok::<Seq<ColumnView>, FormatError>(acc),
                file.data@ == b,
                self.same_header(&*old(self)),
                self.UTFColumns.deep_view() == old(self).UTFColumns.deep_view(),
                self.UTFRowsOffsets@ == old(self).UTFRowsOffsets@,
                self.UTFRowsData.deep_view() == old_rows + racc,
                spec_rows(b, offsets, 0, all, self.StringsOffset, self.DataOffset)
                    == prepend_seq_ok(
                    racc,
                    spec_rows(b, offsets, j as int, all, self.StringsOffset, self.DataOffset),
                ),
            decreases m - j,
        {
            let offset = self.UTFRowsOffsets[j];
            assert(spec_rows(b, offsets, j as int, all, self.StringsOffset, self.DataOffset) == match spec_row_cells(b, offsets[j as int] as int, all, 0, self.StringsOffset, self.DataOffset) {
                Ok(r) => prepend_seq_ok(seq![r], spec_rows(b, offsets, j + 1, all, self.StringsOffset, self.DataOffset)),
                Err(e) => Err(e),
            });
            let ghost before_rows = self.UTFRowsData.deep_view();
            file.seek_to(offset);
            let row = match self.parse_row(file) {
                Ok(row) => row,
                Err(e) => return Err(e),
            };
            let ghost rv = row.deep_view();
            let ghost rest = spec_rows(b, offsets, j + 1, all, self.StringsOffset, self.DataOffset);
            proof {
                match rest {
                Ok(s) => {
                    assert(racc + (seq![rv] + s) =~= (racc + seq![rv]) + s);
                },
                Err(_) => {},
                }
            }
            self.UTFRowsData.push(row);
            assert(self.UTFRowsData.deep_view() =~= before_rows + seq![rv]);
            proof {
                racc = racc + seq![rv];
                assert(self.UTFRowsData.deep_view() =~= old_rows + racc);
            }
            j = j + 1;
        }
        assert(racc + Seq::<Seq<Option<RowValue>>>::empty() =~= racc);
        Ok(())
    }
}

/// The mathematical value of a whole table.
#[allow(non_snake_case)]
pub struct UTFTableView {
    pub magic: u32,
    pub TableSize: u32,
    pub RowsOffset: u32,
    pub StringsOffset: u32,
    pub DataOffset: u32,
    pub TableName: u32,
    pub ColumnsNumber: u16,
    pub RowLength: u16,
    pub RowsNumber: u32,
    pub columns: Seq<ColumnDefinitionView>,
    pub row_offsets: Seq<u64>,
    pub column_instances: Seq<ColumnView>,
    pub rows: Seq<Seq<Option<RowValue>>>,
}

impl DeepView for UTFPacket {
    type V = UTFTableView;

    open spec fn deep_view(&self) -> UTFTableView {
        UTFTableView {
            magic: self.magic,
            TableSize: self.TableSize,
            RowsOffset: self.RowsOffset,
            StringsOffset: self.StringsOffset,
            DataOffset: self.DataOffset,
            TableName: self.TableName,
            ColumnsNumber: self.ColumnsNumber,
            RowLength: self.RowLength,
            RowsNumber: self.RowsNumber,
            columns: self.UTFColumns.deep_view(),
            row_offsets: self.UTFRowsOffsets@,
            column_instances: self.column_instances.deep_view(),
            rows: self.UTFRowsData.deep_view(),
        }
    }
}

/// A whole table at the start of `b`: the header, the column definitions
/// right after it, the rows right after those, and every row read.
pub open spec fn spec_read_table(b: Seq<u8>) -> Result<UTFTableView, FormatError> {
    if !utf_header_fits(b, 0) {
        Err(FormatError::UnexpectedEof)
    } else if !utf_offsets_fit(b, 0) {
        Err(FormatError::Overflow)
    } else {
        let so = (be_u32(b, 12) + 8) as u32;
        let dof = (be_u32(b, 16) + 8) as u32;
        let n = be_u16(b, 24);
        let rl = be_u16(b, 26);
        let rn = be_u32(b, 28);
        match spec_column_definitions(b, 32, 0, n, so, dof) {
            Err(e) => Err(e),
            Ok((defs, p1)) => if p1 + rn * rl > u64::MAX {
                Err(FormatError::Overflow)
            } else {
                let offs = row_offsets(p1, rn, rl);
                match spec_columns(b, so, defs, 0) {
                    Err(e) => Err(e),
                    Ok(cols) => match spec_rows(b, offs, 0, cols, so, dof) {
                        Err(e) => Err(e),
                        Ok(rows) => Ok(
                            UTFTableView {
                                magic: be_u32(b, 0) as u32,
                                TableSize: be_u32(b, 4) as u32,
                                RowsOffset: (be_u32(b, 8) + 8) as u32,
                                StringsOffset: so,
                                DataOffset: dof,
                                TableName: be_u32(b, 20) as u32,
                                ColumnsNumber: n as u16,
                                RowLength: rl as u16,
                                RowsNumber: rn as u32,
                                columns: defs,
                                row_offsets: offs,
                                column_instances: cols,
                                rows,
                            },
                        ),
                    },
                }
            },
        }
    }
}

proof fn lemma_column_definitions_len(
    b: Seq<u8>,
    p: int,
    i: int,
    n: int,
    strings_offset: u32,
    data_offset: u32,
)
    requires
        i <= n,
    ensures
        spec_column_definitions(b, p, i, n, strings_offset, data_offset) matches Ok((defs, _))
            ==> defs.len() == n - i,
    decreases n - i,
{
    if i < n {
        if let Ok((c, p1)) = spec_column_definition(b, p, i as u16, strings_offset, data_offset) {
            lemma_column_definitions_len(b, p1, i + 1, n, strings_offset, data_offset);
        }
    }
}

proof fn lemma_columns_len(b: Seq<u8>, strings_offset: u32, defs: Seq<ColumnDefinitionView>, i: int)
    requires
        0 <= i <= defs.len(),
    ensures
        spec_columns(b, strings_offset, defs, i) matches Ok(cols) ==> cols.len() == defs.len() - i,
    decreases defs.len() - i,
{
    if i < defs.len() {
        lemma_columns_len(b, strings_offset, defs, i + 1);
    }
}

proof fn lemma_row_cells_len(
    b: Seq<u8>,
    p: int,
    cols: Seq<ColumnView>,
    k: int,
    strings_offset: u32,
    data_offset: u32,
)
    requires
        0 <= k <= cols.len(),
    ensures
        spec_row_cells(b, p, cols, k, strings_offset, data_offset) matches Ok(cells) ==> cells.len()
            == cols.len() - k,
    decreases cols.len() - k,
{
    if k < cols.len() {
        let c = cols[k];
        lemma_row_cells_len(b, p, cols, k + 1, strings_offset, data_offset);
        if c.DataStorage == 0x50 {
            if let Ok((v, p1)) = spec_row_data(b, p, strings_offset, data_offset, c.DataType) {
                lemma_row_cells_len(b, p1, cols, k + 1, strings_offset, data_offset);
            }
        }
    }
}

proof fn lemma_rows_shape(
    b: Seq<u8>,
    offsets: Seq<u64>,
    j: int,
    cols: Seq<ColumnView>,
    strings_offset: u32,
    data_offset: u32,
)
    requires
        0 <= j <= offsets.len(),
    ensures
        spec_rows(b, offsets, j, cols, strings_offset, data_offset) matches Ok(rows) ==> rows.len()
            == offsets.len() - j && forall|r: int| 0 <= r < rows.len() ==> (#[trigger] rows[r]).len()
            == cols.len(),
    decreases offsets.len() - j,
{
    if j < offsets.len() {
        lemma_rows_shape(b, offsets, j + 1, cols, strings_offset, data_offset);
        lemma_row_cells_len(b, offsets[j] as int, cols, 0, strings_offset, data_offset);
        if let Ok(rows) = spec_rows(b, offsets, j, cols, strings_offset, data_offset) {
            let first = spec_row_cells(b, offsets[j] as int, cols, 0, strings_offset, data_offset)->Ok_0;
            let rest = spec_rows(b, offsets, j + 1, cols, strings_offset, data_offset)->Ok_0;
            assert(rows == seq![first] + rest);
            assert forall|r: int| 0 <= r < rows.len() implies (#[trigger] rows[r]).len() == cols.len() by {
                if r > 0 {
                    assert(rows[r] == rest[r - 1]);
                }
            }
        }
    }
}

/// A table that reads has as many column definitions and resolved columns
/// as its header announces columns, and as many rows (and row offsets) as it
/// announces rows; every row holds one cell per column.
pub proof fn lemma_read_table_shape(b: Seq<u8>)
    ensures
        spec_read_table(b) matches Ok(t) ==> {
            &&& t.columns.len() == t.ColumnsNumber
            &&& t.column_instances.len() == t.ColumnsNumber
            &&& t.row_offsets.len() == t.RowsNumber
            &&& t.rows.len() == t.RowsNumber
            &&& forall|r: int| 0 <= r < t.rows.len() ==> (#[trigger] t.rows[r]).len() == t.ColumnsNumber
        },
{
    if utf_header_fits(b, 0) && utf_offsets_fit(b, 0) {
        let so = (be_u32(b, 12) + 8) as u32;
        let dof = (be_u32(b, 16) + 8) as u32;
        let n = be_u16(b, 24);
        let rl = be_u16(b, 26);
        let rn = be_u32(b, 28);
        lemma_column_definitions_len(b, 32, 0, n, so, dof);
        if let Ok((defs, p1)) = spec_column_definitions(b, 32, 0, n, so, dof) {
            lemma_columns_len(b, so, defs, 0);
            if let Ok(cols) = spec_columns(b, so, defs, 0) {
                let offs = row_offsets(p1, rn, rl);
                lemma_rows_shape(b, offs, 0, cols, so, dof);
            }
        }
    }
}

/// The header of a table: nine big-endian fields at fixed places (the
/// magic word at 0, the table size at 4, the rows, strings and data offsets
/// at 8, 12 and 16, counted from byte 8 of the table, the name at 20, the
/// column count at 24, the row length at 26 and the row count at 28); the
/// column definitions start at byte 32.
pub proof fn lemma_read_table_header(b: Seq<u8>)
    ensures
        spec_read_table(b) matches Ok(t) ==> {
            &&& t.magic == b[0] * 0x100_0000 + b[1] * 0x1_0000 + b[2] * 0x100 + b[3]
            &&& t.TableSize == b[4] * 0x100_0000 + b[5] * 0x1_0000 + b[6] * 0x100 + b[7]
            &&& t.RowsOffset == b[8] * 0x100_0000 + b[9] * 0x1_0000 + b[10] * 0x100 + b[11] + 8
            &&& t.StringsOffset == b[12] * 0x100_0000 + b[13] * 0x1_0000 + b[14] * 0x100 + b[15]
                + 8
            &&& t.DataOffset == b[16] * 0x100_0000 + b[17] * 0x1_0000 + b[18] * 0x100 + b[19] + 8
            &&& t.TableName == b[20] * 0x100_0000 + b[21] * 0x1_0000 + b[22] * 0x100 + b[23]
            &&& t.ColumnsNumber == b[24] * 0x100 + b[25]
            &&& t.RowLength == b[26] * 0x100 + b[27]
            &&& t.RowsNumber == b[28] * 0x100_0000 + b[29] * 0x1_0000 + b[30] * 0x100 + b[31]
            &&& spec_column_definitions(
                b,
                32,
                0,
                t.ColumnsNumber as int,
                t.StringsOffset,
                t.DataOffset,
            ) is Ok
        },
{
    if let Ok(t) = spec_read_table(b) {
        assert(be_u32(b, 0) <= u32::MAX && be_u32(b, 4) <= u32::MAX && be_u32(b, 20) <= u32::MAX
            && be_u32(b, 28) <= u32::MAX && be_u16(b, 24) <= u16::MAX && be_u16(b, 26)
            <= u16::MAX) by {
            assert(0 <= b[0] < 256 && 0 <= b[1] < 256 && 0 <= b[2] < 256 && 0 <= b[3] < 256);
            assert(0 <= b[4] < 256 && 0 <= b[5] < 256 && 0 <= b[6] < 256 && 0 <= b[7] < 256);
            assert(0 <= b[20] < 256 && 0 <= b[21] < 256 && 0 <= b[22] < 256 && 0 <= b[23] < 256);
            assert(0 <= b[28] < 256 && 0 <= b[29] < 256 && 0 <= b[30] < 256 && 0 <= b[31] < 256);
        }
    }
}

/// Reads a whole table held in `bytes`: header, column definitions, row
/// offsets, resolved columns and rows.
pub fn read_table(bytes: &[u8]) -> (r: Result<UTFPacket, FormatError>)
    ensures
        match r {
            Ok(t) => spec_read_table(bytes@) == Ok::<UTFTableView, FormatError>(t.deep_view()),
            Err(e) => spec_read_table(bytes@) == Err::<UTFTableView, FormatError>(e),
        },
{
    let mut file = ByteCursor::new(bytes);
    let mut table = match UTFPacket::build(&mut file) {
        Ok(t) => t,
        Err(e) => return Err(e),
    };
    assert(table.UTFColumns.deep_view() =~= Seq::<ColumnDefinitionView>::empty());
    assert(table.column_instances.deep_view() =~= Seq::<ColumnView>::empty());
    assert(table.UTFRowsData.deep_view() =~= Seq::<Seq<Option<RowValue>>>::empty());
    match table.read_column_definition(&mut file) {
        Ok(_) => {},
        Err(e) => return Err(e),
    }
    match table.read_rows(&mut file) {
        Ok(_) => {},
        Err(e) => return Err(e),
    }
    match table.parse_decrypted_packet(&mut file) {
        Ok(_) => {},
        Err(e) => return Err(e),
    }
    assert(table.UTFColumns.deep_view() =~= Seq::<ColumnDefinitionView>::empty() + table.UTFColumns.deep_view());
    Ok(table)
}

} // verus!
