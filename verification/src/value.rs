use vstd::prelude::*;
use vstd::bytes::*;
use vstd::utf8::*;
use crate::codec::{KeyOrder, lex_order, utf8_of, compare_bytes, bytes_equal, str_equal, append_bytes, read_u32_le, read_u64_le, string_from_utf8};
use crate::data_type::DataType;
use crate::error::DbError;

verus! {

broadcast use vstd::utf8::group_utf8_lib;

/// The content of one cell.
///
/// A `Float64` is held as the IEEE-754 bit pattern of the number
/// (`f64::to_bits`), so that the library never computes on floats.
#[derive(Debug)]
pub enum Value {
    Null,
    Bool(bool),
    UInt32(u32),
    UInt64(u64),
    Int32(i32),
    Int64(i64),
    Float64(u64),
    Text(String),
    Blob(Vec<u8>),
    Timestamp(i64),
}

/// The mathematical model of a cell.
pub enum ValueV {
    Null,
    Bool(bool),
    UInt32(u32),
    UInt64(u64),
    Int32(i32),
    Int64(i64),
    Float64(u64),
    Text(Seq<char>),
    Blob(Seq<u8>),
    Timestamp(i64),
}

impl View for Value {
    type V = ValueV;

    open spec fn view(&self) -> ValueV {
        match self {
            Value::Null => ValueV::Null,
            Value::Bool(b) => ValueV::Bool(*b),
            Value::UInt32(u) => ValueV::UInt32(*u),
            Value::UInt64(u) => ValueV::UInt64(*u),
            Value::Int32(n) => ValueV::Int32(*n),
            Value::Int64(n) => ValueV::Int64(*n),
            Value::Float64(f) => ValueV::Float64(*f),
            Value::Text(s) => ValueV::Text(s@),
            Value::Blob(d) => ValueV::Blob(d@),
            Value::Timestamp(t) => ValueV::Timestamp(*t),
        }
    }
}

/// The data type of a cell.
pub open spec fn value_type(v: ValueV) -> DataType {
    match v {
        ValueV::Null => DataType::Null,
        ValueV::Bool(_) => DataType::Bool,
        ValueV::UInt32(_) => DataType::UInt32,
        ValueV::UInt64(_) => DataType::UInt64,
        ValueV::Int32(_) => DataType::Int32,
        ValueV::Int64(_) => DataType::Int64,
        ValueV::Float64(_) => DataType::Float64,
        ValueV::Text(_) => DataType::Text,
        ValueV::Blob(_) => DataType::Blob,
        ValueV::Timestamp(_) => DataType::Timestamp,
    }
}

/// The bytes that `Value::serialize` appends for a cell: fixed-size cells
/// as little-endian words, text and blobs with a four-byte length before
/// them, nothing for `Null`.
pub open spec fn value_bytes(v: ValueV) -> Seq<u8> {
    match v {
        ValueV::Null => seq![],
        ValueV::Bool(b) => seq![if b { 1u8 } else { 0u8 }],
        ValueV::UInt32(u) => spec_u32_to_le_bytes(u),
        ValueV::UInt64(u) => spec_u64_to_le_bytes(u),
        ValueV::Int32(n) => spec_u32_to_le_bytes(n as u32),
        ValueV::Int64(n) => spec_u64_to_le_bytes(n as u64),
        ValueV::Float64(f) => spec_u64_to_le_bytes(f),
        ValueV::Text(s) => spec_u32_to_le_bytes(utf8_of(s).len() as u32) + utf8_of(s),
        ValueV::Blob(d) => spec_u32_to_le_bytes(d.len() as u32) + d,
        ValueV::Timestamp(t) => spec_u64_to_le_bytes(t as u64),
    }
}

/// The concatenated encodings of a sequence of cells.
pub open spec fn values_bytes(vs: Seq<ValueV>) -> Seq<u8>
    decreases vs.len(),
{
    if vs.len() == 0 {
        seq![]
    } else {
        values_bytes(vs.drop_last()) + value_bytes(vs.last())
    }
}

/// Reading a length-prefixed byte string at `off`: the bytes and the offset
/// just past them.
pub open spec fn decode_prefixed(data: Seq<u8>, off: int) -> Option<(Seq<u8>, int)> {
    if 0 <= off && off + 4 <= data.len() {
        let n = spec_u32_from_le_bytes(data.subrange(off, off + 4)) as int;
        if off + 4 + n <= data.len() {
            Some((data.subrange(off + 4, off + 4 + n), off + 4 + n))
        } else {
            None
        }
    } else {
        None
    }
}

/// The little-endian word of `w` bytes at `off`, where there are `w` bytes.
pub open spec fn word_at(data: Seq<u8>, off: int, w: int) -> Option<Seq<u8>> {
    if 0 <= off && off + w <= data.len() {
        Some(data.subrange(off, off + w))
    } else {
        None
    }
}

/// What `Value::deserialize` gives for a cell of type `t` stored at `off`:
/// the cell and the offset just past it, or the error.
pub open spec fn decode_value(t: DataType, data: Seq<u8>, off: int) -> Result<(ValueV, int), DbError> {
    match t {
        DataType::Null => Ok((ValueV::Null, off)),
        DataType::Bool => match word_at(data, off, 1) {
            Some(w) => Ok((ValueV::Bool(w[0] != 0), off + 1)),
            None => Err(DbError::UnexpectedEof),
        },
        DataType::UInt32 => match word_at(data, off, 4) {
            Some(w) => Ok((ValueV::UInt32(spec_u32_from_le_bytes(w)), off + 4)),
            None => Err(DbError::UnexpectedEof),
        },
        DataType::UInt64 => match word_at(data, off, 8) {
            Some(w) => Ok((ValueV::UInt64(spec_u64_from_le_bytes(w)), off + 8)),
            None => Err(DbError::UnexpectedEof),
        },
        DataType::Int32 => match word_at(data, off, 4) {
            Some(w) => Ok((ValueV::Int32(spec_u32_from_le_bytes(w) as i32), off + 4)),
            None => Err(DbError::UnexpectedEof),
        },
        DataType::Int64 => match word_at(data, off, 8) {
            Some(w) => Ok((ValueV::Int64(spec_u64_from_le_bytes(w) as i64), off + 8)),
            None => Err(DbError::UnexpectedEof),
        },
        DataType::Float64 => match word_at(data, off, 8) {
            Some(w) => Ok((ValueV::Float64(spec_u64_from_le_bytes(w)), off + 8)),
            None => Err(DbError::UnexpectedEof),
        },
        DataType::Text => match decode_prefixed(data, off) {
            Some((b, end)) => if valid_utf8(b) {
                Ok((ValueV::Text(decode_utf8(b)), end))
            } else {
                Err(DbError::InvalidData)
            },
            None => Err(DbError::UnexpectedEof),
        },
        DataType::Blob => match decode_prefixed(data, off) {
            Some((b, end)) => Ok((ValueV::Blob(b), end)),
            None => Err(DbError::UnexpectedEof),
        },
        DataType::Timestamp => match word_at(data, off, 8) {
            Some(w) => Ok((ValueV::Timestamp(spec_u64_from_le_bytes(w) as i64), off + 8)),
            None => Err(DbError::UnexpectedEof),
        },
    }
}

/// A cell whose encoding `Value::deserialize` reads back: text and blobs
/// shorter than 2^32 bytes (the length prefix holds four bytes), any other
/// cell.
pub open spec fn value_roundtrips(v: ValueV) -> bool {
    match v {
        ValueV::Text(s) => utf8_of(s).len() < 0x1_0000_0000,
        ValueV::Blob(d) => d.len() < 0x1_0000_0000,
        _ => true,
    }
}

/// The bit pattern is a NaN.
pub open spec fn f64_is_nan(b: u64) -> bool {
    (b & 0x7ff0_0000_0000_0000u64) == 0x7ff0_0000_0000_0000u64 && (b & 0x000f_ffff_ffff_ffffu64)
        != 0
}

/// The bit pattern is positive or negative zero.
pub open spec fn f64_is_zero(b: u64) -> bool {
    (b & 0x7fff_ffff_ffff_ffffu64) == 0
}

/// IEEE-754 equality of two bit patterns: NaN equals nothing, the two zeros
/// are equal.
pub open spec fn f64_eq(a: u64, b: u64) -> bool {
    !f64_is_nan(a) && !f64_is_nan(b) && (a == b || (f64_is_zero(a) && f64_is_zero(b)))
}

/// A number with the same order as the float that the (non-NaN) bit pattern
/// stands for.
pub open spec fn f64_rank(b: u64) -> int {
    if (b >> 63u64) == 1 {
        -((b & 0x7fff_ffff_ffff_ffffu64) as int)
    } else {
        (b & 0x7fff_ffff_ffff_ffffu64) as int
    }
}

/// `partial_cmp` of two floats, with an unordered pair counted as equal.
pub open spec fn f64_order(a: u64, b: u64) -> KeyOrder {
    if f64_is_nan(a) || f64_is_nan(b) {
        KeyOrder::Equal
    } else {
        int_order(f64_rank(a), f64_rank(b))
    }
}

/// The order of two integers.
pub open spec fn int_order(a: int, b: int) -> KeyOrder {
    if a < b {
        KeyOrder::Less
    } else if a > b {
        KeyOrder::Greater
    } else {
        KeyOrder::Equal
    }
}

/// `false` before `true`.
pub open spec fn bool_order(a: bool, b: bool) -> KeyOrder {
    if a == b {
        KeyOrder::Equal
    } else if !a {
        KeyOrder::Less
    } else {
        KeyOrder::Greater
    }
}

/// Equality of cells: same variant and equal contents, with floats compared
/// as IEEE-754 numbers.
pub open spec fn value_eq(a: ValueV, b: ValueV) -> bool {
    match (a, b) {
        (ValueV::Null, ValueV::Null) => true,
        (ValueV::Bool(x), ValueV::Bool(y)) => x == y,
        (ValueV::UInt32(x), ValueV::UInt32(y)) => x == y,
        (ValueV::UInt64(x), ValueV::UInt64(y)) => x == y,
        (ValueV::Int32(x), ValueV::Int32(y)) => x == y,
        (ValueV::Int64(x), ValueV::Int64(y)) => x == y,
        (ValueV::Float64(x), ValueV::Float64(y)) => f64_eq(x, y),
        (ValueV::Text(x), ValueV::Text(y)) => x == y,
        (ValueV::Blob(x), ValueV::Blob(y)) => x == y,
        (ValueV::Timestamp(x), ValueV::Timestamp(y)) => x == y,
        _ => false,
    }
}

/// The key order used by `Value::cmp_key`: `Null` first, same-typed values by
/// their natural order (text by its bytes), everything else equal.
pub open spec fn key_order(a: ValueV, b: ValueV) -> KeyOrder {
    match (a, b) {
        (ValueV::Null, ValueV::Null) => KeyOrder::Equal,
        (ValueV::Null, _) => KeyOrder::Less,
        (_, ValueV::Null) => KeyOrder::Greater,
        (ValueV::Int32(x), ValueV::Int32(y)) => int_order(x as int, y as int),
        (ValueV::Int64(x), ValueV::Int64(y)) => int_order(x as int, y as int),
        (ValueV::Text(x), ValueV::Text(y)) => lex_order(utf8_of(x), utf8_of(y)),
        (ValueV::Blob(x), ValueV::Blob(y)) => lex_order(x, y),
        (ValueV::Bool(x), ValueV::Bool(y)) => bool_order(x, y),
        (ValueV::Float64(x), ValueV::Float64(y)) => f64_order(x, y),
        (ValueV::Timestamp(x), ValueV::Timestamp(y)) => int_order(x as int, y as int),
        _ => KeyOrder::Equal,
    }
}

/// Cells of the same integer type, text or blob are equal exactly when
/// their contents are, and cells of different types never are.
pub proof fn lemma_value_eq_plain(a: i64, b: i64, c: i32, d: i32, s: Seq<char>, t: Seq<char>)
    ensures
        value_eq(ValueV::Int64(a), ValueV::Int64(b)) == (a == b),
        value_eq(ValueV::Int32(c), ValueV::Int32(d)) == (c == d),
        value_eq(ValueV::Text(s), ValueV::Text(t)) == (s == t),
        !value_eq(ValueV::Int64(a), ValueV::Int32(c)),
        !value_eq(ValueV::Text(s), ValueV::Int64(a)),
        !value_eq(ValueV::Null, ValueV::Int64(a)),
{
}

/// Keys of the integer types and timestamps are ordered as the numbers they
/// hold: one comes first exactly when its number is smaller, and they are
/// equal exactly when the numbers are.
pub proof fn lemma_key_order_numbers(a: i64, b: i64, c: i32, d: i32)
    ensures
        (key_order(ValueV::Int64(a), ValueV::Int64(b)) == KeyOrder::Less) == (a < b),
        (key_order(ValueV::Int64(a), ValueV::Int64(b)) == KeyOrder::Equal) == (a == b),
        (key_order(ValueV::Int64(a), ValueV::Int64(b)) == KeyOrder::Greater) == (a > b),
        (key_order(ValueV::Int32(c), ValueV::Int32(d)) == KeyOrder::Less) == (c < d),
        (key_order(ValueV::Int32(c), ValueV::Int32(d)) == KeyOrder::Equal) == (c == d),
        (key_order(ValueV::Int32(c), ValueV::Int32(d)) == KeyOrder::Greater) == (c > d),
        (key_order(ValueV::Timestamp(a), ValueV::Timestamp(b)) == KeyOrder::Less) == (a < b),
        (key_order(ValueV::Timestamp(a), ValueV::Timestamp(b)) == KeyOrder::Equal) == (a == b),
        (key_order(ValueV::Timestamp(a), ValueV::Timestamp(b)) == KeyOrder::Greater) == (a > b),
{
}

/// Blob keys are ordered by their bytes and text keys by their UTF-8
/// bytes: by the first byte where they differ, a proper prefix first.
pub proof fn lemma_key_order_bytes(p: Seq<u8>, x: Seq<u8>, y: Seq<u8>, s: Seq<char>, t: Seq<char>)
    ensures
        y.len() > 0 ==> key_order(ValueV::Blob(x), ValueV::Blob(x + y)) == KeyOrder::Less,
        x.len() > 0 && y.len() > 0 && x[0] < y[0] ==> key_order(ValueV::Blob(p + x), ValueV::Blob(p + y)) == KeyOrder::Less,
        (key_order(ValueV::Blob(x), ValueV::Blob(y)) == KeyOrder::Equal) == (x == y),
        utf8_of(s).len() > 0 && utf8_of(t).len() > 0 && utf8_of(s)[0] < utf8_of(t)[0] ==> key_order(ValueV::Text(s), ValueV::Text(t))
            == KeyOrder::Less,
{
    crate::codec::lemma_lex_order_laws(p, x, y);
    crate::codec::lemma_lex_order_laws(Seq::empty(), x, y);
    crate::codec::lemma_lex_order_flip(x, y);
    crate::codec::lemma_lex_order_laws(Seq::empty(), utf8_of(s), utf8_of(t));
}

/// `Null` keys come before every other key, and `false` before `true`.
pub proof fn lemma_key_order_null_bool(v: ValueV)
    ensures
        v != ValueV::Null ==> key_order(ValueV::Null, v) == KeyOrder::Less && key_order(v, ValueV::Null) == KeyOrder::Greater,
        key_order(ValueV::Null, ValueV::Null) == KeyOrder::Equal,
        key_order(ValueV::Bool(false), ValueV::Bool(true)) == KeyOrder::Less,
        key_order(ValueV::Bool(true), ValueV::Bool(false)) == KeyOrder::Greater,
{
}

pub(crate) fn i32_order(a: i32, b: i32) -> (r: KeyOrder)
    ensures
        r == int_order(a as int, b as int),
{
    if a < b {
        KeyOrder::Less
    } else if a > b {
        KeyOrder::Greater
    } else {
        KeyOrder::Equal
    }
}

pub(crate) fn i64_order(a: i64, b: i64) -> (r: KeyOrder)
    ensures
        r == int_order(a as int, b as int),
{
    if a < b {
        KeyOrder::Less
    } else if a > b {
        KeyOrder::Greater
    } else {
        KeyOrder::Equal
    }
}

pub(crate) fn u64_order(a: u64, b: u64) -> (r: KeyOrder)
    ensures
        r == int_order(a as int, b as int),
{
    if a < b {
        KeyOrder::Less
    } else if a > b {
        KeyOrder::Greater
    } else {
        KeyOrder::Equal
    }
}

pub(crate) fn bools_order(a: bool, b: bool) -> (r: KeyOrder)
    ensures
        r == bool_order(a, b),
{
    if a == b {
        KeyOrder::Equal
    } else if !a {
        KeyOrder::Less
    } else {
        KeyOrder::Greater
    }
}

pub(crate) fn float_is_nan(b: u64) -> (r: bool)
    ensures
        r == f64_is_nan(b),
{
    (b & 0x7ff0_0000_0000_0000u64) == 0x7ff0_0000_0000_0000u64 && (b & 0x000f_ffff_ffff_ffffu64)
        != 0
}

pub(crate) fn floats_equal(a: u64, b: u64) -> (r: bool)
    ensures
        r == f64_eq(a, b),
{
    !float_is_nan(a) && !float_is_nan(b) && (a == b || ((a & 0x7fff_ffff_ffff_ffffu64) == 0 && (b
        & 0x7fff_ffff_ffff_ffffu64) == 0))
}

pub(crate) fn floats_order(a: u64, b: u64) -> (r: KeyOrder)
    ensures
        r == f64_order(a, b),
{
    if float_is_nan(a) || float_is_nan(b) {
        return KeyOrder::Equal;
    }
    let ma = a & 0x7fff_ffff_ffff_ffffu64;
    let mb = b & 0x7fff_ffff_ffff_ffffu64;
    let na = (a >> 63u64) == 1;
    let nb = (b >> 63u64) == 1;
    if na {
        if nb {
            u64_order(mb, ma)
        } else if ma == 0 && mb == 0 {
            KeyOrder::Equal
        } else {
            KeyOrder::Less
        }
    } else {
        if nb {
            if ma == 0 && mb == 0 {
                KeyOrder::Equal
            } else {
                KeyOrder::Greater
            }
        } else {
            u64_order(ma, mb)
        }
    }
}

impl Value {
    /// The data type of the cell.
    pub fn data_type(&self) -> (t: DataType)
        ensures
            t == value_type(self@),
    {
        match self {
            Value::Null => DataType::Null,
            Value::Bool(_) => DataType::Bool,
            Value::UInt32(_) => DataType::UInt32,
            Value::UInt64(_) => DataType::UInt64,
            Value::Int32(_) => DataType::Int32,
            Value::Int64(_) => DataType::Int64,
            Value::Float64(_) => DataType::Float64,
            Value::Text(_) => DataType::Text,
            Value::Blob(_) => DataType::Blob,
            Value::Timestamp(_) => DataType::Timestamp,
        }
    }

    /// A copy of the cell.
    pub fn copy(&self) -> (r: Value)
        ensures
            r@ == self@,
    {
        match self {
            Value::Null => Value::Null,
            Value::Bool(b) => Value::Bool(*b),
            Value::UInt32(u) => Value::UInt32(*u),
            Value::UInt64(u) => Value::UInt64(*u),
            Value::Int32(n) => Value::Int32(*n),
            Value::Int64(n) => Value::Int64(*n),
            Value::Float64(f) => Value::Float64(*f),
            Value::Text(s) => Value::Text(s.clone()),
            Value::Blob(d) => Value::Blob(vstd::slice::slice_to_vec(d.as_slice())),
            Value::Timestamp(t) => Value::Timestamp(*t),
        }
    }

    /// Appends the encoding of the cell to `buf`.
    pub fn serialize(&self, buf: &mut Vec<u8>)
        ensures
            final(buf)@ == old(buf)@ + value_bytes(self@),
    {
        match self {
            Value::Null => {
                assert(old(buf)@ + seq![] =~= old(buf)@);
            },
            Value::Bool(b) => {
                buf.push(if *b { 1 } else { 0 });
                assert(final(buf)@ =~= old(buf)@ + value_bytes(self@));
            },
            Value::UInt32(u) => {
                let w = u32_to_le_bytes(*u);
                append_bytes(buf, w.as_slice());
            },
            Value::UInt64(u) => {
                let w = u64_to_le_bytes(*u);
                append_bytes(buf, w.as_slice());
            },
            Value::Int32(n) => {
                let w = u32_to_le_bytes(*n as u32);
                append_bytes(buf, w.as_slice());
            },
            Value::Int64(n) => {
                let w = u64_to_le_bytes(*n as u64);
                append_bytes(buf, w.as_slice());
            },
            Value::Float64(f) => {
                let w = u64_to_le_bytes(*f);
                append_bytes(buf, w.as_slice());
            },
            Value::Text(s) => {
                let bytes = s.as_str().as_bytes();
                let w = u32_to_le_bytes(bytes.len() as u32);
                append_bytes(buf, w.as_slice());
                append_bytes(buf, bytes);
                assert(final(buf)@ =~= old(buf)@ + value_bytes(self@));
            },
            Value::Blob(data) => {
                let w = u32_to_le_bytes(data.len() as u32);
                append_bytes(buf, w.as_slice());
                append_bytes(buf, data.as_slice());
                assert(final(buf)@ =~= old(buf)@ + value_bytes(self@));
            },
            Value::Timestamp(ts) => {
                let w = u64_to_le_bytes(*ts as u64);
                append_bytes(buf, w.as_slice());
            },
        }
    }

    /// Reads a cell of type `dtype` at `*offset`, and moves `*offset` past
    /// it. On an error `*offset` is left as it was, except for text that is
    /// not UTF-8, where it has moved past the length prefix.
    pub fn deserialize(dtype: DataType, data: &[u8], offset: &mut usize) -> (r: Result<
        Value,
        DbError,
    >)
        ensures
            match decode_value(dtype, data@, *old(offset) as int) {
                Ok((v, end)) => r matches Ok(x) && x@ == v && *final(offset) as int == end,
                Err(e) => r == Err::<Value, DbError>(e) && *final(offset) == (if dtype == DataType::Text && e == DbError::InvalidData {
                    (*old(offset) + 4) as usize
                } else {
                    *old(offset)
                }),
            },
    {
        let off = *offset;
        let dlen = data.len();
        assert(data@.len() == dlen);
        match dtype {
            DataType::Null => Ok(Value::Null),
            DataType::Bool => {
                if off >= data.len() {
                    return Err(DbError::UnexpectedEof);
                }
                let v = data[off];
                *offset = off + 1;
                Ok(Value::Bool(v != 0))
            },
            DataType::UInt32 => match read_u32_le(data, off) {
                Some(u) => {
                    *offset = off + 4;
                    Ok(Value::UInt32(u))
                },
                None => Err(DbError::UnexpectedEof),
            },
            DataType::UInt64 => match read_u64_le(data, off) {
                Some(u) => {
                    *offset = off + 8;
                    Ok(Value::UInt64(u))
                },
                None => Err(DbError::UnexpectedEof),
            },
            DataType::Int32 => match read_u32_le(data, off) {
                Some(u) => {
                    *offset = off + 4;
                    Ok(Value::Int32(u as i32))
                },
                None => Err(DbError::UnexpectedEof),
            },
            DataType::Int64 => match read_u64_le(data, off) {
                Some(u) => {
                    *offset = off + 8;
                    Ok(Value::Int64(u as i64))
                },
                None => Err(DbError::UnexpectedEof),
            },
            DataType::Float64 => match read_u64_le(data, off) {
                Some(u) => {
                    *offset = off + 8;
                    Ok(Value::Float64(u))
                },
                None => Err(DbError::UnexpectedEof),
            },
            DataType::Text => match read_prefixed(data, off) {
                Some((bytes, end)) => match string_from_utf8(bytes) {
                    Some(s) => {
                        *offset = end;
                        Ok(Value::Text(s))
                    },
                    None => {
                        *offset = off + 4;
                        Err(DbError::InvalidData)
                    },
                },
                None => Err(DbError::UnexpectedEof),
            },
            DataType::Blob => match read_prefixed(data, off) {
                Some((bytes, end)) => {
                    *offset = end;
                    Ok(Value::Blob(bytes))
                },
                None => Err(DbError::UnexpectedEof),
            },
            DataType::Timestamp => match read_u64_le(data, off) {
                Some(u) => {
                    *offset = off + 8;
                    Ok(Value::Timestamp(u as i64))
                },
                None => Err(DbError::UnexpectedEof),
            },
        }
    }

    /// Compares two cells in the key order.
    pub fn cmp_key(&self, other: &Self) -> (r: KeyOrder)
        ensures
            r == key_order(self@, other@),
    {
        match (self, other) {
            (Value::Null, Value::Null) => KeyOrder::Equal,
            (Value::Null, _) => KeyOrder::Less,
            (_, Value::Null) => KeyOrder::Greater,
            (Value::Int32(a), Value::Int32(b)) => i32_order(*a, *b),
            (Value::Int64(a), Value::Int64(b)) => i64_order(*a, *b),
            (Value::Text(a), Value::Text(b)) => compare_bytes(a.as_str().as_bytes(), b.as_str().as_bytes()),
            (Value::Blob(a), Value::Blob(b)) => compare_bytes(a.as_slice(), b.as_slice()),
            (Value::Bool(a), Value::Bool(b)) => bools_order(*a, *b),
            (Value::Float64(a), Value::Float64(b)) => floats_order(*a, *b),
            (Value::Timestamp(a), Value::Timestamp(b)) => i64_order(*a, *b),
            _ => KeyOrder::Equal,
        }
    }

    /// Compares two cells in the key order (a plain function name for
    /// callers that compare lists of cells).
    pub fn key_compare(&self, other: &Self) -> (r: KeyOrder)
        ensures
            r == key_order(self@, other@),
    {
        self.cmp_key(other)
    }

    /// Equality of cells (floats compared as numbers).
    pub fn equals(&self, other: &Self) -> (r: bool)
        ensures
            r == value_eq(self@, other@),
    {
        match (self, other) {
            (Value::Null, Value::Null) => true,
            (Value::Bool(a), Value::Bool(b)) => *a == *b,
            (Value::UInt32(a), Value::UInt32(b)) => *a == *b,
            (Value::UInt64(a), Value::UInt64(b)) => *a == *b,
            (Value::Int32(a), Value::Int32(b)) => *a == *b,
            (Value::Int64(a), Value::Int64(b)) => *a == *b,
            (Value::Float64(a), Value::Float64(b)) => floats_equal(*a, *b),
            (Value::Text(a), Value::Text(b)) => str_equal(a.as_str(), b.as_str()),
            (Value::Blob(a), Value::Blob(b)) => bytes_equal(a.as_slice(), b.as_slice()),
            (Value::Timestamp(a), Value::Timestamp(b)) => *a == *b,
            _ => false,
        }
    }
}

/// Reads a length-prefixed byte string at `off`.
pub(crate) fn read_prefixed(data: &[u8], off: usize) -> (r: Option<(Vec<u8>, usize)>)
    ensures
        match decode_prefixed(data@, off as int) {
            Some((b, end)) => r matches Some((v, e)) && v@ == b && e as int == end,
            None => r is None,
        },
{
    match read_u32_le(data, off) {
        None => None,
        Some(n) => {
            let dlen = data.len();
            assert(data@.len() == dlen);
            let start = off + 4;
            if (n as usize) > data.len() - start {
                return None;
            }
            let end = start + n as usize;
            let bytes = vstd::slice::slice_to_vec(vstd::slice::slice_subrange(data, start, end));
            Some((bytes, end))
        },
    }
}

impl Clone for Value {
    fn clone(&self) -> (r: Self)
        ensures
            r@ == self@,
    {
        self.copy()
    }
}

impl PartialEq for Value {
    fn eq(&self, other: &Self) -> (r: bool) {
        self.equals(other)
    }
}

impl vstd::std_specs::cmp::PartialEqSpecImpl for Value {
    open spec fn obeys_eq_spec() -> bool {
        true
    }

    open spec fn eq_spec(&self, other: &Self) -> bool {
        value_eq(self@, other@)
    }
}

/// Two's-complement casts between `i32` and `u32` undo each other.
pub proof fn lemma_i32_u32_cast(n: i32)
    ensures
        (n as u32) as i32 == n,
{
    assert((n as u32) as i32 == n) by (bit_vector);
}

/// Two's-complement casts between `i64` and `u64` undo each other.
pub proof fn lemma_i64_u64_cast(n: i64)
    ensures
        (n as u64) as i64 == n,
{
    assert((n as u64) as i64 == n) by (bit_vector);
}

/// Reading back the encoding of a cell, at any offset and followed by any
/// bytes, gives the cell and the offset just past its encoding, for every
/// cell that `value_roundtrips` admits.
pub proof fn lemma_value_roundtrip(v: ValueV, prefix: Seq<u8>, rest: Seq<u8>)
    requires
        value_roundtrips(v),
    ensures
        decode_value(value_type(v), prefix + value_bytes(v) + rest, prefix.len() as int) == Ok::<
            (ValueV, int),
            DbError,
        >((v, (prefix.len() + value_bytes(v).len()) as int)),
{
    lemma_auto_spec_u32_to_from_le_bytes();
    lemma_auto_spec_u64_to_from_le_bytes();
    let data = prefix + value_bytes(v) + rest;
    let off = prefix.len() as int;
    match v {
        ValueV::Null => {},
        ValueV::Bool(b) => {
            assert(data[off] == value_bytes(v)[0]);
        },
        ValueV::Int32(n) => {
            assert(data.subrange(off, off + 4) =~= value_bytes(v));
            lemma_i32_u32_cast(n);
        },
        ValueV::Int64(n) => {
            assert(data.subrange(off, off + 8) =~= value_bytes(v));
            lemma_i64_u64_cast(n);
        },
        ValueV::Float64(f) => {
            assert(data.subrange(off, off + 8) =~= value_bytes(v));
        },
        ValueV::UInt32(u) => {
            assert(data.subrange(off, off + 4) =~= value_bytes(v));
        },
        ValueV::UInt64(u) => {
            assert(data.subrange(off, off + 8) =~= value_bytes(v));
        },
        ValueV::Timestamp(t) => {
            assert(data.subrange(off, off + 8) =~= value_bytes(v));
            lemma_i64_u64_cast(t);
        },
        ValueV::Text(s) => {
            let b = utf8_of(s);
            let w = spec_u32_to_le_bytes(b.len() as u32);
            assert(data.subrange(off, off + 4) =~= w);
            assert((b.len() as u32) as int == b.len());
            assert(data.subrange(off + 4, off + 4 + b.len()) =~= b);
        },
        ValueV::Blob(d) => {
            let w = spec_u32_to_le_bytes(d.len() as u32);
            assert(data.subrange(off, off + 4) =~= w);
            assert((d.len() as u32) as int == d.len());
            assert(data.subrange(off + 4, off + 4 + d.len()) =~= d);
        },
    }
}

} // verus!
