use vstd::prelude::*;
use vstd::bytes::*;
use vstd::utf8::*;
use crate::codec::{
    u16_prefixed, decode_u16_prefixed, lemma_u16_prefixed_roundtrip, lemma_u16_prefixed_len,
    read_u16_prefixed, utf8_of, strings_view, str_encoder, str_decoder, encode_list, decode_list,
    lemma_decode_list_err, lemma_list_roundtrip, lemma_str_list_roundtrip, write_str_list,
    read_str_list, copy_strings, read_u16_le, read_u64_le, append_bytes, string_from_utf8,
    str_equal, reads_back,
};
use crate::error::DbError;
use crate::schema::column::{Column, ColumnV, column_encoder, column_decoder, column_roundtrips, lemma_column_roundtrip};
use crate::schema::index_def::{
    IndexDef, IndexDefV, index_def_encoder, index_def_decoder, index_def_roundtrips,
    lemma_index_def_roundtrip,
};

verus! {


/// The definition of a table: its columns, primary key columns, secondary
/// indexes, the root page of its tree, its row count and the next value of
/// its auto-increment counter.
#[derive(Debug)]
pub struct TableSchema {
    pub name: String,
    pub columns: Vec<Column>,
    pub primary_key: Vec<String>,
    pub indexes: Vec<IndexDef>,
    pub root_page: u64,
    pub row_count: u64,
    pub auto_increment: u64,
}

/// A table schema as plain values.
pub struct TableSchemaV {
    pub name: Seq<char>,
    pub columns: Seq<ColumnV>,
    pub primary_key: Seq<Seq<char>>,
    pub indexes: Seq<IndexDefV>,
    pub root_page: u64,
    pub row_count: u64,
    pub auto_increment: u64,
}

/// The contents of a list of columns.
pub open spec fn columns_view(v: Seq<Column>) -> Seq<ColumnV> {
    Seq::new(v.len(), |i: int| v[i]@)
}

/// The contents of a list of index definitions.
pub open spec fn indexes_view(v: Seq<IndexDef>) -> Seq<IndexDefV> {
    Seq::new(v.len(), |i: int| v[i]@)
}

impl View for TableSchema {
    type V = TableSchemaV;

    open spec fn view(&self) -> TableSchemaV {
        TableSchemaV {
            name: self.name@,
            columns: columns_view(self.columns@),
            primary_key: strings_view(self.primary_key@),
            indexes: indexes_view(self.indexes@),
            root_page: self.root_page,
            row_count: self.row_count,
            auto_increment: self.auto_increment,
        }
    }
}

/// The position of the first column called `name`.
pub open spec fn column_position(cols: Seq<ColumnV>, name: Seq<char>) -> Option<int>
    decreases cols.len(),
{
    if cols.len() == 0 {
        None
    } else {
        match column_position(cols.drop_last(), name) {
            Some(i) => Some(i),
            None => if cols.last().name == name {
                Some(cols.len() - 1)
            } else {
                None
            },
        }
    }
}

/// The position of the first index called `name`.
pub open spec fn index_position(idxs: Seq<IndexDefV>, name: Seq<char>) -> Option<int>
    decreases idxs.len(),
{
    if idxs.len() == 0 {
        None
    } else {
        match index_position(idxs.drop_last(), name) {
            Some(i) => Some(i),
            None => if idxs.last().name == name {
                Some(idxs.len() - 1)
            } else {
                None
            },
        }
    }
}

/// `i` is the first position whose column is called `name`.
pub open spec fn is_first_column(cols: Seq<ColumnV>, name: Seq<char>, i: int) -> bool {
    0 <= i < cols.len() && cols[i].name == name && forall|j: int| 0 <= j < i ==> cols[j].name != name
}

/// `i` is the first position whose index is called `name`.
pub open spec fn is_first_index(idxs: Seq<IndexDefV>, name: Seq<char>, i: int) -> bool {
    0 <= i < idxs.len() && idxs[i].name == name && forall|j: int| 0 <= j < i ==> idxs[j].name != name
}

/// `column_position` is the first position with that name, or none when no
/// column has it.
pub proof fn lemma_column_position_first(cols: Seq<ColumnV>, name: Seq<char>)
    ensures
        match column_position(cols, name) {
            Some(i) => is_first_column(cols, name, i),
            None => forall|j: int| 0 <= j < cols.len() ==> cols[j].name != name,
        },
    decreases cols.len(),
{
    if cols.len() > 0 {
        lemma_column_position_first(cols.drop_last(), name);
        assert forall|j: int| 0 <= j < cols.len() - 1 implies cols.drop_last()[j] == cols[j] by {}
    }
}

/// `index_position` is the first position with that name, or none when no
/// index has it.
pub proof fn lemma_index_position_first(idxs: Seq<IndexDefV>, name: Seq<char>)
    ensures
        match index_position(idxs, name) {
            Some(i) => is_first_index(idxs, name, i),
            None => forall|j: int| 0 <= j < idxs.len() ==> idxs[j].name != name,
        },
    decreases idxs.len(),
{
    if idxs.len() > 0 {
        lemma_index_position_first(idxs.drop_last(), name);
        assert forall|j: int| 0 <= j < idxs.len() - 1 implies idxs.drop_last()[j] == idxs[j] by {}
    }
}

/// The first position is unique, so `column_position` is it.
pub proof fn lemma_column_position(cols: Seq<ColumnV>, name: Seq<char>, i: int)
    requires
        is_first_column(cols, name, i),
    ensures
        column_position(cols, name) == Some(i),
{
    lemma_column_position_first(cols, name);
    match column_position(cols, name) {
        Some(k) => {
            if k < i {
                assert(cols[k].name != name);
            }
            if i < k {
                assert(cols[i].name != name);
            }
        },
        None => {
            assert(cols[i].name != name);
        },
    }
}

/// The first position is unique, so `index_position` is it.
pub proof fn lemma_index_position(idxs: Seq<IndexDefV>, name: Seq<char>, i: int)
    requires
        is_first_index(idxs, name, i),
    ensures
        index_position(idxs, name) == Some(i),
{
    lemma_index_position_first(idxs, name);
    match index_position(idxs, name) {
        Some(k) => {
            if k < i {
                assert(idxs[k].name != name);
            }
            if i < k {
                assert(idxs[i].name != name);
            }
        },
        None => {
            assert(idxs[i].name != name);
        },
    }
}

/// The bytes `TableSchema::serialize` appends.
pub open spec fn schema_bytes(s: TableSchemaV) -> Seq<u8> {
    u16_prefixed(utf8_of(s.name)) + spec_u16_to_le_bytes(s.columns.len() as u16) + encode_list(
        column_encoder(),
        s.columns,
    ) + seq![s.primary_key.len() as u8] + encode_list(str_encoder(), s.primary_key)
        + spec_u16_to_le_bytes(s.indexes.len() as u16) + encode_list(index_def_encoder(), s.indexes)
        + spec_u64_to_le_bytes(s.root_page) + spec_u64_to_le_bytes(s.row_count)
        + spec_u64_to_le_bytes(s.auto_increment)
}

/// Reading the trailing three counters at `o`.
pub open spec fn decode_schema_tail(
    data: Seq<u8>,
    o: int,
    name: Seq<char>,
    cols: Seq<ColumnV>,
    pk: Seq<Seq<char>>,
    idxs: Seq<IndexDefV>,
) -> Result<TableSchemaV, DbError> {
    if o + 24 > data.len() {
        Err(DbError::UnexpectedEof)
    } else {
        Ok(
            TableSchemaV {
                name,
                columns: cols,
                primary_key: pk,
                indexes: idxs,
                root_page: spec_u64_from_le_bytes(data.subrange(o, o + 8)),
                row_count: spec_u64_from_le_bytes(data.subrange(o + 8, o + 16)),
                auto_increment: spec_u64_from_le_bytes(data.subrange(o + 16, o + 24)),
            },
        )
    }
}

/// What `TableSchema::deserialize` reads from the start of `data`: the name,
/// then the columns, primary key, indexes and counters.
pub open spec fn decode_schema(data: Seq<u8>) -> Result<TableSchemaV, DbError> {
    match decode_u16_prefixed(data, 0) {
        None => Err(DbError::UnexpectedEof),
        Some((nb, o1)) => if !valid_utf8(nb) {
            Err(DbError::InvalidData)
        } else {
            decode_schema_columns(data, o1, decode_utf8(nb))
        },
    }
}

/// The columns part, from their count at `o`.
pub open spec fn decode_schema_columns(data: Seq<u8>, o: int, name: Seq<char>) -> Result<
    TableSchemaV,
    DbError,
> {
    if o + 2 > data.len() {
        Err(DbError::UnexpectedEof)
    } else {
        let nc = spec_u16_from_le_bytes(data.subrange(o, o + 2)) as nat;
        match decode_list(column_decoder(), data, o + 2, nc) {
            Err(e) => Err(e),
            Ok((cols, o2)) => decode_schema_pk(data, o2, name, cols),
        }
    }
}

/// The primary-key part, from its count at `o`.
pub open spec fn decode_schema_pk(data: Seq<u8>, o: int, name: Seq<char>, cols: Seq<ColumnV>) -> Result<
    TableSchemaV,
    DbError,
> {
    if o >= data.len() {
        Err(DbError::UnexpectedEof)
    } else {
        match decode_list(str_decoder(), data, o + 1, data[o] as nat) {
            Err(e) => Err(e),
            Ok((pk, o3)) => decode_schema_indexes(data, o3, name, cols, pk),
        }
    }
}

/// The indexes part, from their count at `o`.
pub open spec fn decode_schema_indexes(
    data: Seq<u8>,
    o: int,
    name: Seq<char>,
    cols: Seq<ColumnV>,
    pk: Seq<Seq<char>>,
) -> Result<TableSchemaV, DbError> {
    if o + 2 > data.len() {
        Err(DbError::UnexpectedEof)
    } else {
        let ni = spec_u16_from_le_bytes(data.subrange(o, o + 2)) as nat;
        match decode_list(index_def_decoder(), data, o + 2, ni) {
            Err(e) => Err(e),
            Ok((idxs, o4)) => decode_schema_tail(data, o4, name, cols, pk, idxs),
        }
    }
}

/// A schema that reads back from its encoding: every count and name within
/// what its length field can hold, and every column and index reading back.
pub open spec fn schema_roundtrips(s: TableSchemaV) -> bool {
    &&& utf8_of(s.name).len() < 0x1_0000
    &&& s.columns.len() < 0x1_0000
    &&& forall|i: int| 0 <= i < s.columns.len() ==> column_roundtrips(#[trigger] s.columns[i])
    &&& s.primary_key.len() < 256
    &&& forall|i: int|
        0 <= i < s.primary_key.len() ==> utf8_of(#[trigger] s.primary_key[i]).len() < 256
    &&& s.indexes.len() < 0x1_0000
    &&& forall|i: int| 0 <= i < s.indexes.len() ==> index_def_roundtrips(#[trigger] s.indexes[i])
}

proof fn lemma_schema_tail(s: TableSchemaV, q: Seq<u8>, r: Seq<u8>)
    ensures
        decode_schema_tail(
            q + (spec_u64_to_le_bytes(s.root_page) + spec_u64_to_le_bytes(s.row_count)
                + spec_u64_to_le_bytes(s.auto_increment)) + r,
            q.len() as int,
            s.name,
            s.columns,
            s.primary_key,
            s.indexes,
        ) == Ok::<TableSchemaV, DbError>(s),
{
    lemma_auto_spec_u64_to_from_le_bytes();
    let t = spec_u64_to_le_bytes(s.root_page) + spec_u64_to_le_bytes(s.row_count)
        + spec_u64_to_le_bytes(s.auto_increment);
    let d = q + t + r;
    let o = q.len() as int;
    assert(d.subrange(o, o + 8) =~= spec_u64_to_le_bytes(s.root_page));
    assert(d.subrange(o + 8, o + 16) =~= spec_u64_to_le_bytes(s.row_count));
    assert(d.subrange(o + 16, o + 24) =~= spec_u64_to_le_bytes(s.auto_increment));
}

proof fn lemma_schema_indexes(s: TableSchemaV, q: Seq<u8>, r: Seq<u8>)
    requires
        schema_roundtrips(s),
    ensures
        decode_schema_indexes(
            q + (spec_u16_to_le_bytes(s.indexes.len() as u16) + encode_list(index_def_encoder(), s.indexes)
                + (spec_u64_to_le_bytes(s.root_page) + spec_u64_to_le_bytes(s.row_count)
                + spec_u64_to_le_bytes(s.auto_increment))) + r,
            q.len() as int,
            s.name,
            s.columns,
            s.primary_key,
        ) == Ok::<TableSchemaV, DbError>(s),
{
    lemma_auto_spec_u16_to_from_le_bytes();
    let iw = spec_u16_to_le_bytes(s.indexes.len() as u16);
    let il = encode_list(index_def_encoder(), s.indexes);
    let t = spec_u64_to_le_bytes(s.root_page) + spec_u64_to_le_bytes(s.row_count)
        + spec_u64_to_le_bytes(s.auto_increment);
    let d = q + (iw + il + t) + r;
    let o = q.len() as int;
    assert(d.subrange(o, o + 2) =~= iw);
    assert(d =~= (q + iw) + il + (t + r));
    assert forall|i: int| 0 <= i < s.indexes.len() implies reads_back(
        index_def_encoder(),
        index_def_decoder(),
        #[trigger] s.indexes[i],
    ) by {
        lemma_index_def_roundtrip(s.indexes[i]);
    }
    lemma_list_roundtrip(index_def_encoder(), index_def_decoder(), s.indexes, q + iw, t + r);
    assert(d =~= (q + iw + il) + t + r);
    lemma_schema_tail(s, q + iw + il, r);
}

proof fn lemma_schema_pk(s: TableSchemaV, q: Seq<u8>, rest: Seq<u8>, r: Seq<u8>)
    requires
        schema_roundtrips(s),
        rest == spec_u16_to_le_bytes(s.indexes.len() as u16) + encode_list(index_def_encoder(), s.indexes)
            + (spec_u64_to_le_bytes(s.root_page) + spec_u64_to_le_bytes(s.row_count)
            + spec_u64_to_le_bytes(s.auto_increment)),
    ensures
        decode_schema_pk(
            q + (seq![s.primary_key.len() as u8] + encode_list(str_encoder(), s.primary_key) + rest) + r,
            q.len() as int,
            s.name,
            s.columns,
        ) == Ok::<TableSchemaV, DbError>(s),
{
    let pc = seq![s.primary_key.len() as u8];
    let pl = encode_list(str_encoder(), s.primary_key);
    let d = q + (pc + pl + rest) + r;
    let o = q.len() as int;
    assert(d[o] == s.primary_key.len() as u8);
    assert(d =~= (q + pc) + pl + (rest + r));
    lemma_str_list_roundtrip(s.primary_key, q + pc, rest + r);
    assert(d =~= (q + pc + pl) + rest + r);
    lemma_schema_indexes(s, q + pc + pl, r);
}

proof fn lemma_schema_columns(s: TableSchemaV, q: Seq<u8>, rest: Seq<u8>, r: Seq<u8>)
    requires
        schema_roundtrips(s),
        rest == seq![s.primary_key.len() as u8] + encode_list(str_encoder(), s.primary_key)
            + (spec_u16_to_le_bytes(s.indexes.len() as u16) + encode_list(index_def_encoder(), s.indexes)
            + (spec_u64_to_le_bytes(s.root_page) + spec_u64_to_le_bytes(s.row_count)
            + spec_u64_to_le_bytes(s.auto_increment))),
    ensures
        decode_schema_columns(
            q + (spec_u16_to_le_bytes(s.columns.len() as u16) + encode_list(column_encoder(), s.columns) + rest) + r,
            q.len() as int,
            s.name,
        ) == Ok::<TableSchemaV, DbError>(s),
{
    lemma_auto_spec_u16_to_from_le_bytes();
    let cw = spec_u16_to_le_bytes(s.columns.len() as u16);
    let cl = encode_list(column_encoder(), s.columns);
    let d = q + (cw + cl + rest) + r;
    let o = q.len() as int;
    assert(d.subrange(o, o + 2) =~= cw);
    assert(d =~= (q + cw) + cl + (rest + r));
    assert forall|i: int| 0 <= i < s.columns.len() implies reads_back(
        column_encoder(),
        column_decoder(),
        #[trigger] s.columns[i],
    ) by {
        lemma_column_roundtrip(s.columns[i]);
    }
    lemma_list_roundtrip(column_encoder(), column_decoder(), s.columns, q + cw, rest + r);
    let pk_rest = spec_u16_to_le_bytes(s.indexes.len() as u16) + encode_list(index_def_encoder(), s.indexes)
        + (spec_u64_to_le_bytes(s.root_page) + spec_u64_to_le_bytes(s.row_count)
        + spec_u64_to_le_bytes(s.auto_increment));
    assert(d =~= (q + cw + cl) + (seq![s.primary_key.len() as u8] + encode_list(str_encoder(), s.primary_key) + pk_rest) + r);
    lemma_schema_pk(s, q + cw + cl, pk_rest, r);
}

proof fn lemma_schema_name(name: Seq<char>, x: Seq<u8>)
    requires
        utf8_of(name).len() < 0x1_0000,
    ensures
        decode_schema(u16_prefixed(utf8_of(name)) + x) == decode_schema_columns(
            u16_prefixed(utf8_of(name)) + x,
            (2 + utf8_of(name).len()) as int,
            name,
        ),
{
    let nb = utf8_of(name);
    crate::codec::lemma_utf8_roundtrip(name);
    let e = Seq::<u8>::empty();
    assert(e + u16_prefixed(nb) + x =~= u16_prefixed(nb) + x);
    lemma_u16_prefixed_roundtrip(e, nb, x);
}

/// Reading back the encoding of a schema that `schema_roundtrips` admits, at
/// the start of any buffer, gives the schema.
pub proof fn lemma_schema_roundtrip(s: TableSchemaV, r: Seq<u8>)
    requires
        schema_roundtrips(s),
    ensures
        decode_schema(schema_bytes(s) + r) == Ok::<TableSchemaV, DbError>(s),
{
    let nb = utf8_of(s.name);
    let rest = seq![s.primary_key.len() as u8] + encode_list(str_encoder(), s.primary_key)
        + (spec_u16_to_le_bytes(s.indexes.len() as u16) + encode_list(index_def_encoder(), s.indexes)
        + (spec_u64_to_le_bytes(s.root_page) + spec_u64_to_le_bytes(s.row_count)
        + spec_u64_to_le_bytes(s.auto_increment)));
    let body = spec_u16_to_le_bytes(s.columns.len() as u16) + encode_list(column_encoder(), s.columns) + rest;
    assert(schema_bytes(s) + r =~= u16_prefixed(nb) + (body + r));
    lemma_schema_name(s.name, body + r);
    lemma_u16_prefixed_len(nb);
    assert(u16_prefixed(nb) + (body + r) =~= u16_prefixed(nb) + body + r);
    lemma_schema_columns(s, u16_prefixed(nb), rest, r);
}

/// Appends each column's encoding.
fn write_columns(buf: &mut Vec<u8>, v: &Vec<Column>)
    ensures
        final(buf)@ == old(buf)@ + encode_list(column_encoder(), columns_view(v@)),
{
    let ghost start = buf@;
    let ghost cv = columns_view(v@);
    let mut i: usize = 0;
    assert(cv.take(0) =~= Seq::<ColumnV>::empty());
    while i < v.len()
        invariant
            0 <= i <= v@.len(),
            cv == columns_view(v@),
            buf@ == start + encode_list(column_encoder(), cv.take(i as int)),
        decreases v@.len() - i,
    {
        v[i].serialize(buf);
        assert(cv.take(i + 1).drop_last() =~= cv.take(i as int));
        assert(cv.take(i + 1).last() == v@[i as int]@);
        assert(buf@ =~= start + encode_list(column_encoder(), cv.take(i + 1)));
        i = i + 1;
    }
    assert(cv.take(v@.len() as int) =~= cv);
}

/// Appends each index definition's encoding.
fn write_indexes(buf: &mut Vec<u8>, v: &Vec<IndexDef>)
    ensures
        final(buf)@ == old(buf)@ + encode_list(index_def_encoder(), indexes_view(v@)),
{
    let ghost start = buf@;
    let ghost iv = indexes_view(v@);
    let mut i: usize = 0;
    assert(iv.take(0) =~= Seq::<IndexDefV>::empty());
    while i < v.len()
        invariant
            0 <= i <= v@.len(),
            iv == indexes_view(v@),
            buf@ == start + encode_list(index_def_encoder(), iv.take(i as int)),
        decreases v@.len() - i,
    {
        v[i].serialize(buf);
        assert(iv.take(i + 1).drop_last() =~= iv.take(i as int));
        assert(iv.take(i + 1).last() == v@[i as int]@);
        assert(buf@ =~= start + encode_list(index_def_encoder(), iv.take(i + 1)));
        i = i + 1;
    }
    assert(iv.take(v@.len() as int) =~= iv);
}

/// Reads `n` columns from `off`.
fn read_columns(data: &[u8], off: usize, n: usize) -> (r: Result<(Vec<Column>, usize), DbError>)
    ensures
        match decode_list(column_decoder(), data@, off as int, n as nat) {
            Ok((xs, end)) => r matches Ok((v, e)) && columns_view(v@) == xs && e as int == end,
            Err(err) => r matches Err(x) && x == err,
        },
{
    let mut v: Vec<Column> = Vec::new();
    let mut o = off;
    let mut i: usize = 0;
    assert(columns_view(v@) =~= Seq::<ColumnV>::empty());
    while i < n
        invariant
            0 <= i <= n,
            decode_list(column_decoder(), data@, off as int, i as nat) == Ok::<
                (Seq<ColumnV>, int),
                DbError,
            >((columns_view(v@), o as int)),
        decreases n - i,
    {
        let mut o2 = o;
        match Column::deserialize(data, &mut o2) {
            Ok(c) => {
                let ghost before = v@;
                v.push(c);
                assert(v@ == before.push(c));
                assert(columns_view(v@) =~= columns_view(before).push(c@));
                o = o2;
            },
            Err(err) => {
                proof {
                    lemma_decode_list_err(column_decoder(), data@, off as int, (i + 1) as nat, n as nat);
                }
                return Err(err);
            },
        }
        i = i + 1;
    }
    Ok((v, o))
}

/// Reads `n` index definitions from `off`.
fn read_indexes(data: &[u8], off: usize, n: usize) -> (r: Result<(Vec<IndexDef>, usize), DbError>)
    ensures
        match decode_list(index_def_decoder(), data@, off as int, n as nat) {
            Ok((xs, end)) => r matches Ok((v, e)) && indexes_view(v@) == xs && e as int == end,
            Err(err) => r matches Err(x) && x == err,
        },
{
    let mut v: Vec<IndexDef> = Vec::new();
    let mut o = off;
    let mut i: usize = 0;
    assert(indexes_view(v@) =~= Seq::<IndexDefV>::empty());
    while i < n
        invariant
            0 <= i <= n,
            decode_list(index_def_decoder(), data@, off as int, i as nat) == Ok::<
                (Seq<IndexDefV>, int),
                DbError,
            >((indexes_view(v@), o as int)),
        decreases n - i,
    {
        let mut o2 = o;
        match IndexDef::deserialize(data, &mut o2) {
            Ok(c) => {
                let ghost before = v@;
                v.push(c);
                assert(v@ == before.push(c));
                assert(indexes_view(v@) =~= indexes_view(before).push(c@));
                o = o2;
            },
            Err(err) => {
                proof {
                    lemma_decode_list_err(index_def_decoder(), data@, off as int, (i + 1) as nat, n as nat);
                }
                return Err(err);
            },
        }
        i = i + 1;
    }
    Ok((v, o))
}

/// A copy of a list of columns.
pub fn copy_columns(v: &Vec<Column>) -> (r: Vec<Column>)
    ensures
        columns_view(r@) == columns_view(v@),
{
    let mut out: Vec<Column> = Vec::new();
    let mut i: usize = 0;
    while i < v.len()
        invariant
            0 <= i <= v@.len(),
            columns_view(out@) == columns_view(v@).take(i as int),
        decreases v@.len() - i,
    {
        let c = v[i].copy();
        let ghost before = out@;
        out.push(c);
        assert(out@ == before.push(c));
        assert(columns_view(before).len() == before.len());
        assert(before.len() == i);
        assert(out@.len() == i + 1);
        assert forall|j: int| 0 <= j < i implies columns_view(out@)[j] == columns_view(v@).take(i + 1)[j] by {
            assert(columns_view(before)[j] == columns_view(v@).take(i as int)[j]);
        }
        assert(columns_view(out@) =~= columns_view(v@).take(i + 1));
        i = i + 1;
    }
    assert(columns_view(v@).take(v@.len() as int) =~= columns_view(v@));
    out
}

/// A copy of a list of index definitions.
pub fn copy_indexes(v: &Vec<IndexDef>) -> (r: Vec<IndexDef>)
    ensures
        indexes_view(r@) == indexes_view(v@),
{
    let mut out: Vec<IndexDef> = Vec::new();
    let mut i: usize = 0;
    while i < v.len()
        invariant
            0 <= i <= v@.len(),
            indexes_view(out@) == indexes_view(v@).take(i as int),
        decreases v@.len() - i,
    {
        let c = v[i].copy();
        let ghost before = out@;
        out.push(c);
        assert(out@ == before.push(c));
        assert(indexes_view(before).len() == before.len());
        assert(before.len() == i);
        assert(out@.len() == i + 1);
        assert forall|j: int| 0 <= j < i implies indexes_view(out@)[j] == indexes_view(v@).take(i + 1)[j] by {
            assert(indexes_view(before)[j] == indexes_view(v@).take(i as int)[j]);
        }
        assert(indexes_view(out@) =~= indexes_view(v@).take(i + 1));
        i = i + 1;
    }
    assert(indexes_view(v@).take(v@.len() as int) =~= indexes_view(v@));
    out
}

impl TableSchema {
    /// An empty schema: no columns, no key, no indexes, root page 0, no rows,
    /// auto-increment counter at 1.
    pub fn new(name: &str) -> (s: Self)
        ensures
            s@ == (TableSchemaV {
                name: name@,
                columns: Seq::empty(),
                primary_key: Seq::empty(),
                indexes: Seq::empty(),
                root_page: 0,
                row_count: 0,
                auto_increment: 1,
            }),
    {
        let s = TableSchema {
            name: name.to_owned(),
            columns: Vec::new(),
            primary_key: Vec::new(),
            indexes: Vec::new(),
            root_page: 0,
            row_count: 0,
            auto_increment: 1,
        };
        assert(s@.columns =~= Seq::<ColumnV>::empty());
        assert(s@.primary_key =~= Seq::<Seq<char>>::empty());
        assert(s@.indexes =~= Seq::<IndexDefV>::empty());
        s
    }

    /// The same schema with one more column at the end.
    pub fn column(self, col: Column) -> (s: Self)
        ensures
            s@ == (TableSchemaV { columns: self@.columns.push(col@), ..self@ }),
    {
        let mut s = self;
        let ghost before = s.columns@;
        s.columns.push(col);
        assert(s@.columns =~= columns_view(before).push(col@));
        s
    }

    /// The same schema with the given primary key columns.
    pub fn primary_key(self, columns: &[&str]) -> (s: Self)
        ensures
            s@ == (TableSchemaV {
                primary_key: Seq::new(columns@.len(), |i: int| columns@[i]@),
                ..self@
            }),
    {
        let mut s = self;
        let mut pk: Vec<String> = Vec::new();
        let mut i: usize = 0;
        while i < columns.len()
            invariant
                0 <= i <= columns@.len(),
                strings_view(pk@) == Seq::new(i as nat, |j: int| columns@[j]@),
            decreases columns@.len() - i,
        {
            let c = columns[i].to_owned();
            let ghost before = pk@;
            pk.push(c);
            assert(pk@ == before.push(c));
            assert(strings_view(before).len() == before.len());
            assert(before.len() == i);
            assert forall|j: int| 0 <= j < i implies strings_view(pk@)[j] == columns@[j]@ by {
                assert(strings_view(before)[j] == Seq::new(i as nat, |j: int| columns@[j]@)[j]);
            }
            assert(strings_view(pk@) =~= Seq::new((i + 1) as nat, |j: int| columns@[j]@));
            i = i + 1;
        }
        s.primary_key = pk;
        s
    }

    /// The same schema with one more index definition at the end.
    pub fn index(self, idx: IndexDef) -> (s: Self)
        ensures
            s@ == (TableSchemaV { indexes: self@.indexes.push(idx@), ..self@ }),
    {
        let mut s = self;
        let ghost before = s.indexes@;
        s.indexes.push(idx);
        assert(s@.indexes =~= indexes_view(before).push(idx@));
        s
    }

    /// The position of the first column called `name`.
    pub fn get_column_index(&self, name: &str) -> (r: Option<usize>)
        ensures
            match r {
                Some(i) => is_first_column(self@.columns, name@, i as int),
                None => column_position(self@.columns, name@) is None,
            },
            r matches Some(i) ==> column_position(self@.columns, name@) == Some(i as int),
    {
        let mut i: usize = 0;
        while i < self.columns.len()
            invariant
                0 <= i <= self@.columns.len(),
                forall|j: int| 0 <= j < i ==> self@.columns[j].name != name@,
            decreases self@.columns.len() - i,
        {
            if str_equal(self.columns[i].name.as_str(), name) {
                assert(self@.columns[i as int].name == name@);
                proof {
                    lemma_column_position(self@.columns, name@, i as int);
                }
                return Some(i);
            }
            assert(self@.columns[i as int].name != name@);
            i = i + 1;
        }
        proof {
            lemma_column_position_first(self@.columns, name@);
            if column_position(self@.columns, name@) is Some {
                let k = column_position(self@.columns, name@).unwrap();
                assert(self@.columns[k].name != name@);
            }
        }
        None
    }

    /// The first column called `name`.
    pub fn get_column(&self, name: &str) -> (r: Option<&Column>)
        ensures
            match column_position(self@.columns, name@) {
                Some(i) => r matches Some(c) && c@ == self@.columns[i],
                None => r is None,
            },
    {
        match self.get_column_index(name) {
            Some(i) => Some(&self.columns[i]),
            None => None,
        }
    }

    /// The position of the first index called `name`.
    pub fn get_index_position(&self, name: &str) -> (r: Option<usize>)
        ensures
            match r {
                Some(i) => is_first_index(self@.indexes, name@, i as int),
                None => index_position(self@.indexes, name@) is None,
            },
            r matches Some(i) ==> index_position(self@.indexes, name@) == Some(i as int),
    {
        let mut i: usize = 0;
        while i < self.indexes.len()
            invariant
                0 <= i <= self@.indexes.len(),
                forall|j: int| 0 <= j < i ==> self@.indexes[j].name != name@,
            decreases self@.indexes.len() - i,
        {
            if str_equal(self.indexes[i].name.as_str(), name) {
                assert(self@.indexes[i as int].name == name@);
                proof {
                    lemma_index_position(self@.indexes, name@, i as int);
                }
                return Some(i);
            }
            assert(self@.indexes[i as int].name != name@);
            i = i + 1;
        }
        proof {
            lemma_index_position_first(self@.indexes, name@);
            if index_position(self@.indexes, name@) is Some {
                let k = index_position(self@.indexes, name@).unwrap();
                assert(self@.indexes[k].name != name@);
            }
        }
        None
    }

    /// The first index called `name`.
    pub fn get_index(&self, name: &str) -> (r: Option<&IndexDef>)
        ensures
            match index_position(self@.indexes, name@) {
                Some(i) => r matches Some(x) && x@ == self@.indexes[i],
                None => r is None,
            },
    {
        match self.get_index_position(name) {
            Some(i) => Some(&self.indexes[i]),
            None => None,
        }
    }

    /// A copy of the schema.
    pub fn copy(&self) -> (s: Self)
        ensures
            s@ == self@,
    {
        TableSchema {
            name: self.name.clone(),
            columns: copy_columns(&self.columns),
            primary_key: copy_strings(&self.primary_key),
            indexes: copy_indexes(&self.indexes),
            root_page: self.root_page,
            row_count: self.row_count,
            auto_increment: self.auto_increment,
        }
    }

    /// Appends the encoding of the schema.
    pub fn serialize(&self, buf: &mut Vec<u8>)
        ensures
            final(buf)@ == old(buf)@ + schema_bytes(self@),
    {
        let name_bytes = self.name.as_str().as_bytes();
        append_bytes(buf, u16_to_le_bytes(name_bytes.len() as u16).as_slice());
        append_bytes(buf, name_bytes);
        append_bytes(buf, u16_to_le_bytes(self.columns.len() as u16).as_slice());
        write_columns(buf, &self.columns);
        buf.push(self.primary_key.len() as u8);
        write_str_list(buf, &self.primary_key);
        append_bytes(buf, u16_to_le_bytes(self.indexes.len() as u16).as_slice());
        write_indexes(buf, &self.indexes);
        append_bytes(buf, u64_to_le_bytes(self.root_page).as_slice());
        append_bytes(buf, u64_to_le_bytes(self.row_count).as_slice());
        append_bytes(buf, u64_to_le_bytes(self.auto_increment).as_slice());
        assert(final(buf)@ =~= old(buf)@ + schema_bytes(self@));
    }

    /// Decodes a schema from the start of `data`.
    pub fn deserialize(data: &[u8]) -> (r: Result<Self, DbError>)
        ensures
            match decode_schema(data@) {
                Ok(s) => r matches Ok(x) && x@ == s,
                Err(e) => r matches Err(x) && x == e,
            },
    {
        let dlen = data.len();
        let (name_bytes, o1) = match read_u16_prefixed(data, 0) {
            Some(x) => x,
            None => return Err(DbError::UnexpectedEof),
        };
        let name = match string_from_utf8(name_bytes) {
            Some(s) => s,
            None => return Err(DbError::InvalidData),
        };
        let nc = match read_u16_le(data, o1) {
            Some(n) => n,
            None => return Err(DbError::UnexpectedEof),
        };
        let (columns, o2) = match read_columns(data, o1 + 2, nc as usize) {
            Ok(x) => x,
            Err(e) => return Err(e),
        };
        if o2 >= dlen {
            return Err(DbError::UnexpectedEof);
        }
        let np = data[o2] as usize;
        let (primary_key, o3) = match read_str_list(data, o2 + 1, np) {
            Ok(x) => x,
            Err(e) => return Err(e),
        };
        let ni = match read_u16_le(data, o3) {
            Some(n) => n,
            None => return Err(DbError::UnexpectedEof),
        };
        let (indexes, o4) = match read_indexes(data, o3 + 2, ni as usize) {
            Ok(x) => x,
            Err(e) => return Err(e),
        };
        if o4 > dlen || dlen - o4 < 24 {
            return Err(DbError::UnexpectedEof);
        }
        let root_page = read_u64_le(data, o4).unwrap();
        let row_count = read_u64_le(data, o4 + 8).unwrap();
        let auto_increment = read_u64_le(data, o4 + 16).unwrap();
        Ok(TableSchema { name, columns, primary_key, indexes, root_page, row_count, auto_increment })
    }
}

impl Clone for TableSchema {
    fn clone(&self) -> (s: Self)
        ensures
            s@ == self@,
    {
        self.copy()
    }
}

} // verus!
