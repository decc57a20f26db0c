use vstd::prelude::*;

verus! {

/// The type of a column.
#[derive(Debug, Clone, Copy, PartialEq, Eq, Structural)]
pub enum DataType {
    Null,
    Bool,
    UInt32,
    UInt64,
    Int32,
    Int64,
    Float64,
    Text,
    Blob,
    Timestamp,
}

/// The byte that stands for a data type on disk.
pub open spec fn data_type_byte(t: DataType) -> u8 {
    match t {
        DataType::Null => 0,
        DataType::Bool => 1,
        DataType::UInt32 => 2,
        DataType::UInt64 => 3,
        DataType::Int32 => 4,
        DataType::Int64 => 5,
        DataType::Float64 => 6,
        DataType::Text => 7,
        DataType::Blob => 8,
        DataType::Timestamp => 9,
    }
}

/// The data type whose byte is `b`, if any.
pub open spec fn data_type_of_byte(b: u8) -> Option<DataType> {
    if b == 0 {
        Some(DataType::Null)
    } else if b == 1 {
        Some(DataType::Bool)
    } else if b == 2 {
        Some(DataType::UInt32)
    } else if b == 3 {
        Some(DataType::UInt64)
    } else if b == 4 {
        Some(DataType::Int32)
    } else if b == 5 {
        Some(DataType::Int64)
    } else if b == 6 {
        Some(DataType::Float64)
    } else if b == 7 {
        Some(DataType::Text)
    } else if b == 8 {
        Some(DataType::Blob)
    } else if b == 9 {
        Some(DataType::Timestamp)
    } else {
        None
    }
}

/// The encoded width of a value of the type, where that width is fixed.
pub open spec fn data_type_fixed_size(t: DataType) -> Option<usize> {
    match t {
        DataType::Null => Some(0),
        DataType::Bool => Some(1),
        DataType::Int32 | DataType::UInt32 => Some(4),
        DataType::Int64 | DataType::UInt64 | DataType::Float64 | DataType::Timestamp => Some(8),
        DataType::Text | DataType::Blob => None,
    }
}

impl DataType {
    /// Decodes a type byte.
    pub fn from_byte(b: u8) -> (r: Option<Self>)
        ensures
            r == data_type_of_byte(b),
    {
        match b {
            0 => Some(DataType::Null),
            1 => Some(DataType::Bool),
            2 => Some(DataType::UInt32),
            3 => Some(DataType::UInt64),
            4 => Some(DataType::Int32),
            5 => Some(DataType::Int64),
            6 => Some(DataType::Float64),
            7 => Some(DataType::Text),
            8 => Some(DataType::Blob),
            9 => Some(DataType::Timestamp),
            _ => None,
        }
    }

    /// Encodes the type as its byte.
    pub fn to_byte(&self) -> (b: u8)
        ensures
            b == data_type_byte(*self),
    {
        match self {
            DataType::Null => 0,
            DataType::Bool => 1,
            DataType::UInt32 => 2,
            DataType::UInt64 => 3,
            DataType::Int32 => 4,
            DataType::Int64 => 5,
            DataType::Float64 => 6,
            DataType::Text => 7,
            DataType::Blob => 8,
            DataType::Timestamp => 9,
        }
    }

    /// The encoded width of a value of this type, where that width is fixed.
    pub fn fixed_size(&self) -> (r: Option<usize>)
        ensures
            r == data_type_fixed_size(*self),
    {
        match self {
            DataType::Null => Some(0),
            DataType::Bool => Some(1),
            DataType::Int32 | DataType::UInt32 => Some(4),
            DataType::Int64 | DataType::UInt64 | DataType::Float64 | DataType::Timestamp => Some(8),
            DataType::Text | DataType::Blob => None,
        }
    }
}

/// Decoding the byte of a type gives the type back.
pub proof fn lemma_data_type_byte_roundtrip(t: DataType)
    ensures
        data_type_of_byte(data_type_byte(t)) == Some(t),
{
}

/// A byte that decodes to a type is that type's byte.
pub proof fn lemma_data_type_of_byte_inverse(b: u8)
    ensures
        data_type_of_byte(b) matches Some(t) ==> data_type_byte(t) == b,
        data_type_of_byte(b) is None <==> b > 9,
{
}

} // verus!
