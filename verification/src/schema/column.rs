use vstd::prelude::*;
use crate::codec::{u8_prefixed_str, decode_u8_str, lemma_u8_str_roundtrip, read_u8_str, write_u8_str, utf8_of, reads_back};
use crate::data_type::{DataType, data_type_byte, data_type_of_byte};
use crate::error::DbError;
use crate::value::{Value, ValueV, value_bytes, decode_value, value_type, value_roundtrips, lemma_value_roundtrip};

verus! {

/// A column of a table.
///
/// `auto_increment` marks a column whose `Null` cells `Database::insert` fills
/// from the table's counter.
#[derive(Debug)]
pub struct Column {
    pub name: String,
    pub data_type: DataType,
    pub nullable: bool,
    pub default: Option<Value>,
    pub auto_increment: bool,
}

/// A column as plain values.
pub struct ColumnV {
    pub name: Seq<char>,
    pub data_type: DataType,
    pub nullable: bool,
    pub default: Option<ValueV>,
    pub auto_increment: bool,
}

impl View for Column {
    type V = ColumnV;

    open spec fn view(&self) -> ColumnV {
        ColumnV {
            name: self.name@,
            data_type: self.data_type,
            nullable: self.nullable,
            default: match self.default {
                Some(v) => Some(v@),
                None => None,
            },
            auto_increment: self.auto_increment,
        }
    }
}

/// The flags byte of a column: bit 0 nullable, bit 1 auto-increment.
pub open spec fn column_flags(nullable: bool, auto_increment: bool) -> u8 {
    ((if nullable { 1u8 } else { 0u8 }) + (if auto_increment { 2u8 } else { 0u8 })) as u8
}

/// The bytes `Column::serialize` appends: the name (one-byte length), the type
/// byte, the flags byte, then `1` and the default value, or `0`.
pub open spec fn column_bytes(c: ColumnV) -> Seq<u8> {
    u8_prefixed_str(c.name) + seq![data_type_byte(c.data_type)] + seq![column_flags(c.nullable, c.auto_increment)]
        + match c.default {
        Some(v) => seq![1u8] + value_bytes(v),
        None => seq![0u8],
    }
}

/// What `Column::deserialize` reads at `off`.
pub open spec fn decode_column(data: Seq<u8>, off: int) -> Result<(ColumnV, int), DbError> {
    match decode_u8_str(data, off) {
        Err(e) => Err(e),
        Ok((name, o)) => if o + 3 > data.len() {
            if o < data.len() && data_type_of_byte(data[o]) is None {
                Err(DbError::InvalidData)
            } else {
                Err(DbError::UnexpectedEof)
            }
        } else {
            match data_type_of_byte(data[o]) {
                None => Err(DbError::InvalidData),
                Some(t) => {
                    let nullable = data[o + 1] % 2 == 1;
                    let auto_increment = (data[o + 1] / 2) % 2 == 1;
                    if data[o + 2] != 0 {
                        match decode_value(t, data, o + 3) {
                            Ok((v, e)) => Ok(
                                (
                                    ColumnV {
                                        name,
                                        data_type: t,
                                        nullable,
                                        default: Some(v),
                                        auto_increment,
                                    },
                                    e,
                                ),
                            ),
                            Err(e) => Err(e),
                        }
                    } else {
                        Ok(
                            (
                                ColumnV {
                                    name,
                                    data_type: t,
                                    nullable,
                                    default: None,
                                    auto_increment,
                                },
                                o + 3,
                            ),
                        )
                    }
                },
            }
        },
    }
}

/// The column encoder and decoder as spec closures.
pub open spec fn column_encoder() -> spec_fn(ColumnV) -> Seq<u8> {
    |c: ColumnV| column_bytes(c)
}

pub open spec fn column_decoder() -> spec_fn(Seq<u8>, int) -> Result<(ColumnV, int), DbError> {
    |d: Seq<u8>, o: int| decode_column(d, o)
}

/// A column that reads back from its encoding: a name of fewer than 256 UTF-8
/// bytes, and a default (if any) of the column's own type that reads back.
pub open spec fn column_roundtrips(c: ColumnV) -> bool {
    &&& utf8_of(c.name).len() < 256
    &&& c.default matches Some(v) ==> value_type(v) == c.data_type && value_roundtrips(v)
}

/// A column that `column_roundtrips` admits reads back at a given place.
#[verifier::rlimit(40)]
pub proof fn lemma_column_roundtrip_at(c: ColumnV, p: Seq<u8>, r: Seq<u8>)
    requires
        column_roundtrips(c),
    ensures
        decode_column(p + column_bytes(c) + r, p.len() as int) == Ok::<(ColumnV, int), DbError>(
            (c, (p.len() + column_bytes(c).len()) as int),
        ),
{
    lemma_u8_str_roundtrip(c.name);
    let flag: u8 = column_flags(c.nullable, c.auto_increment);
    let dflt = match c.default {
        Some(v) => seq![1u8] + value_bytes(v),
        None => seq![0u8],
    };
    let tail = seq![data_type_byte(c.data_type)] + seq![flag] + dflt;
    let d = p + column_bytes(c) + r;
    assert(d =~= p + u8_prefixed_str(c.name) + (tail + r));
    let o = (p.len() + u8_prefixed_str(c.name).len()) as int;
    assert(decode_u8_str(p + u8_prefixed_str(c.name) + (tail + r), p.len() as int) == Ok::<
        (Seq<char>, int),
        DbError,
    >((c.name, o)));
    assert(d[o] == data_type_byte(c.data_type));
    assert(d[o + 1] == flag);
    crate::data_type::lemma_data_type_byte_roundtrip(c.data_type);
    match c.default {
        Some(v) => {
            assert(d[o + 2] == 1u8);
            let q = p + u8_prefixed_str(c.name) + seq![data_type_byte(c.data_type)] + seq![flag]
                + seq![1u8];
            assert(d =~= q + value_bytes(v) + r);
            lemma_value_roundtrip(v, q, r);
        },
        None => {
            assert(d[o + 2] == 0u8);
        },
    }
}

/// A column that `column_roundtrips` admits reads back, wherever it stands.
pub proof fn lemma_column_roundtrip(c: ColumnV)
    requires
        column_roundtrips(c),
    ensures
        reads_back(column_encoder(), column_decoder(), c),
{
    assert forall|p: Seq<u8>, r: Seq<u8>|
        #[trigger] (column_decoder())(p + (column_encoder())(c) + r, p.len() as int) == Ok::<
            (ColumnV, int),
            DbError,
        >((c, (p.len() + (column_encoder())(c).len()) as int)) by {
        lemma_column_roundtrip_at(c, p, r);
    }
}

impl Column {
    /// A nullable column without a default.
    pub fn new(name: &str, data_type: DataType) -> (c: Self)
        ensures
            c@ == (ColumnV {
                name: name@,
                data_type,
                nullable: true,
                default: None,
                auto_increment: false,
            }),
    {
        Column { name: name.to_owned(), data_type, nullable: true, default: None, auto_increment: false }
    }

    /// The same column, not nullable.
    pub fn not_null(self) -> (c: Self)
        ensures
            c@ == (ColumnV { nullable: false, ..self@ }),
    {
        let mut c = self;
        c.nullable = false;
        c
    }

    /// The same column, with a default value.
    pub fn default(self, value: Value) -> (c: Self)
        ensures
            c@ == (ColumnV { default: Some(value@), ..self@ }),
    {
        let mut c = self;
        c.default = Some(value);
        c
    }

    /// A copy of the column.
    pub fn copy(&self) -> (c: Self)
        ensures
            c@ == self@,
    {
        Column {
            name: self.name.clone(),
            data_type: self.data_type,
            nullable: self.nullable,
            default: match &self.default {
                Some(v) => Some(v.copy()),
                None => None,
            },
            auto_increment: self.auto_increment,
        }
    }

    /// Appends the encoding of the column.
    pub fn serialize(&self, buf: &mut Vec<u8>)
        ensures
            final(buf)@ == old(buf)@ + column_bytes(self@),
    {
        write_u8_str(buf, self.name.as_str());
        buf.push(self.data_type.to_byte());
        let flags: u8 = (if self.nullable { 1u8 } else { 0u8 }) + (if self.auto_increment { 2u8 } else { 0u8 });
        buf.push(flags);
        match &self.default {
            Some(v) => {
                buf.push(1);
                v.serialize(buf);
            },
            None => buf.push(0),
        }
        assert(final(buf)@ =~= old(buf)@ + column_bytes(self@));
    }

    /// Reads a column at `*offset` and moves `*offset` past it.
    pub fn deserialize(data: &[u8], offset: &mut usize) -> (r: Result<Self, DbError>)
        ensures
            match decode_column(data@, *old(offset) as int) {
                Ok((c, end)) => r matches Ok(x) && x@ == c && *final(offset) as int == end,
                Err(e) => r matches Err(x) && x == e,
            },
    {
        let dlen = data.len();
        let (name, o) = match read_u8_str(data, *offset) {
            Ok(x) => x,
            Err(e) => return Err(e),
        };
        if o > dlen || dlen - o < 3 {
            if o < dlen {
                if DataType::from_byte(data[o]).is_none() {
                    return Err(DbError::InvalidData);
                }
            }
            return Err(DbError::UnexpectedEof);
        }
        let data_type = match DataType::from_byte(data[o]) {
            Some(t) => t,
            None => return Err(DbError::InvalidData),
        };
        let nullable = data[o + 1] % 2 == 1;
        let auto_increment = (data[o + 1] / 2) % 2 == 1;
        let has_default = data[o + 2] != 0;
        let mut off = o + 3;
        let default = if has_default {
            match Value::deserialize(data_type, data, &mut off) {
                Ok(v) => Some(v),
                Err(e) => return Err(e),
            }
        } else {
            None
        };
        *offset = off;
        Ok(Column { name, data_type, nullable, default, auto_increment })
    }
}

impl Clone for Column {
    fn clone(&self) -> (c: Self)
        ensures
            c@ == self@,
    {
        self.copy()
    }
}

} // verus!
