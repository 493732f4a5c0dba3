use vstd::prelude::*;

verus! {

/// The storage codes of a UTF column (the high nibble of its flag byte).
#[allow(non_camel_case_types)]
#[derive(Debug, Clone, Copy, PartialEq, Eq)]
pub enum DataStorage {
    STORAGE_MASK,
    STORAGE_NONE,
    STORAGE_ZERO,
    STORAGE_CONSTANT,
    STORAGE_PERROW,
}

impl DataStorage {
    pub open spec fn spec_code(self) -> u8 {
        match self {
            DataStorage::STORAGE_MASK => 0xF0,
            DataStorage::STORAGE_NONE => 0x00,
            DataStorage::STORAGE_ZERO => 0x10,
            DataStorage::STORAGE_CONSTANT => 0x30,
            DataStorage::STORAGE_PERROW => 0x50,
        }
    }

    /// The byte value of the code.
    pub fn code(&self) -> (r: u8)
        ensures
            r == self.spec_code(),
    {
        match self {
            DataStorage::STORAGE_MASK => 0xF0,
            DataStorage::STORAGE_NONE => 0x00,
            DataStorage::STORAGE_ZERO => 0x10,
            DataStorage::STORAGE_CONSTANT => 0x30,
            DataStorage::STORAGE_PERROW => 0x50,
        }
    }
}

/// The data type codes of a UTF column (the low nibble of its flag byte).
#[allow(non_camel_case_types)]
#[derive(Debug, Clone, Copy, PartialEq, Eq)]
pub enum DataType {
    DATATYPE_MASK,
    UINT8,
    UINT8_1,
    UINT16,
    UINT16_1,
    UINT32,
    UINT32_1,
    UINT64,
    UINT64_1,
    FLOAT,
    STRING,
    BYTEARRAY,
}

impl DataType {
    pub open spec fn spec_code(self) -> u8 {
        match self {
            DataType::DATATYPE_MASK => 0x0F,
            DataType::UINT8 => 0,
            DataType::UINT8_1 => 1,
            DataType::UINT16 => 2,
            DataType::UINT16_1 => 3,
            DataType::UINT32 => 4,
            DataType::UINT32_1 => 5,
            DataType::UINT64 => 6,
            DataType::UINT64_1 => 7,
            DataType::FLOAT => 8,
            DataType::STRING => 0xA,
            DataType::BYTEARRAY => 0xB,
        }
    }

    /// The byte value of the code.
    pub fn code(&self) -> (r: u8)
        ensures
            r == self.spec_code(),
    {
        match self {
            DataType::DATATYPE_MASK => 0x0F,
            DataType::UINT8 => 0,
            DataType::UINT8_1 => 1,
            DataType::UINT16 => 2,
            DataType::UINT16_1 => 3,
            DataType::UINT32 => 4,
            DataType::UINT32_1 => 5,
            DataType::UINT64 => 6,
            DataType::UINT64_1 => 7,
            DataType::FLOAT => 8,
            DataType::STRING => 0xA,
            DataType::BYTEARRAY => 0xB,
        }
    }
}

/// One value of a UTF table cell.  A float cell holds the bit pattern of
/// its IEEE-754 single-precision value; text holds its UTF-8 bytes.
#[derive(Debug, Clone, PartialEq, Eq)]
pub enum RowData {
    UInt8(u8),
    UInt16(u16),
    UInt32(u32),
    UInt64(u64),
    Float(u32),
    String(Vec<u8>),
    ByteArray(Vec<u8>),
}

/// The mathematical value of a cell.
pub enum RowValue {
    UInt8(u8),
    UInt16(u16),
    UInt32(u32),
    UInt64(u64),
    Float(u32),
    String(Seq<u8>),
    ByteArray(Seq<u8>),
}

impl DeepView for RowData {
    type V = RowValue;

    open spec fn deep_view(&self) -> RowValue {
        match self {
            RowData::UInt8(v) => RowValue::UInt8(*v),
            RowData::UInt16(v) => RowValue::UInt16(*v),
            RowData::UInt32(v) => RowValue::UInt32(*v),
            RowData::UInt64(v) => RowValue::UInt64(*v),
            RowData::Float(v) => RowValue::Float(*v),
            RowData::String(s) => RowValue::String(s@),
            RowData::ByteArray(s) => RowValue::ByteArray(s@),
        }
    }
}

impl RowData {
    /// A copy of the cell.
    pub fn duplicate(&self) -> (r: RowData)
        ensures
            r.deep_view() == self.deep_view(),
    {
        match self {
            RowData::UInt8(v) => RowData::UInt8(*v),
            RowData::UInt16(v) => RowData::UInt16(*v),
            RowData::UInt32(v) => RowData::UInt32(*v),
            RowData::UInt64(v) => RowData::UInt64(*v),
            RowData::Float(v) => RowData::Float(*v),
            RowData::String(s) => RowData::String(s.clone()),
            RowData::ByteArray(s) => RowData::ByteArray(s.clone()),
        }
    }
}

/// A copy of an optional cell.
pub fn duplicate_cell(c: &Option<RowData>) -> (r: Option<RowData>)
    ensures
        r.deep_view() == c.deep_view(),
{
    match c {
        Some(v) => Some(v.duplicate()),
        None => None,
    }
}

/// What a node of the archive tree stands for.
#[derive(Debug, Clone, Copy, PartialEq, Eq)]
pub enum NodeType {
    Folder,
    File { file_offset: u64, file_size: u32, extract_size: u32 },
}

} // verus!
