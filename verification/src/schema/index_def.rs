use vstd::prelude::*;
use vstd::bytes::*;
use crate::codec::{
    u8_prefixed_str, decode_u8_str, lemma_u8_str_roundtrip, read_u8_str, write_u8_str, utf8_of,
    strings_view, str_encoder, str_decoder, encode_list, decode_list, lemma_str_list_roundtrip,
    write_str_list, read_str_list, copy_strings, read_u64_le, append_bytes, reads_back,
};
use crate::error::DbError;

verus! {

/// A secondary index: its name, the indexed columns in order, whether
/// indexed values must be unique, and the root page of its tree.
#[derive(Debug)]
pub struct IndexDef {
    pub name: String,
    pub columns: Vec<String>,
    pub unique: bool,
    pub root_page: u64,
}

/// An index definition as plain values.
pub struct IndexDefV {
    pub name: Seq<char>,
    pub columns: Seq<Seq<char>>,
    pub unique: bool,
    pub root_page: u64,
}

impl View for IndexDef {
    type V = IndexDefV;

    open spec fn view(&self) -> IndexDefV {
        IndexDefV {
            name: self.name@,
            columns: strings_view(self.columns@),
            unique: self.unique,
            root_page: self.root_page,
        }
    }
}

/// The bytes `IndexDef::serialize` appends: the name, the column count as one
/// byte, the column names, the unique flag and the root page.
pub open spec fn index_def_bytes(x: IndexDefV) -> Seq<u8> {
    u8_prefixed_str(x.name) + seq![x.columns.len() as u8] + encode_list(str_encoder(), x.columns)
        + seq![
        if x.unique {
            1u8
        } else {
            0u8
        },
    ] + spec_u64_to_le_bytes(x.root_page)
}

/// What `IndexDef::deserialize` reads at `off`.
pub open spec fn decode_index_def(data: Seq<u8>, off: int) -> Result<(IndexDefV, int), DbError> {
    match decode_u8_str(data, off) {
        Err(e) => Err(e),
        Ok((name, o)) => if o >= data.len() {
            Err(DbError::UnexpectedEof)
        } else {
            match decode_list(str_decoder(), data, o + 1, data[o] as nat) {
                Err(e) => Err(e),
                Ok((cols, o2)) => if o2 + 9 > data.len() {
                    Err(DbError::UnexpectedEof)
                } else {
                    Ok(
                        (
                            IndexDefV {
                                name,
                                columns: cols,
                                unique: data[o2] != 0,
                                root_page: spec_u64_from_le_bytes(data.subrange(o2 + 1, o2 + 9)),
                            },
                            o2 + 9,
                        ),
                    )
                },
            }
        },
    }
}

/// The index-definition encoder and decoder as spec closures.
pub open spec fn index_def_encoder() -> spec_fn(IndexDefV) -> Seq<u8> {
    |x: IndexDefV| index_def_bytes(x)
}

pub open spec fn index_def_decoder() -> spec_fn(Seq<u8>, int) -> Result<(IndexDefV, int), DbError> {
    |d: Seq<u8>, o: int| decode_index_def(d, o)
}

/// An index definition that reads back: names shorter than 256 UTF-8 bytes,
/// fewer than 256 columns.
pub open spec fn index_def_roundtrips(x: IndexDefV) -> bool {
    &&& utf8_of(x.name).len() < 256
    &&& x.columns.len() < 256
    &&& forall|i: int| 0 <= i < x.columns.len() ==> utf8_of(#[trigger] x.columns[i]).len() < 256
}

/// An index definition that `index_def_roundtrips` admits reads back at a
/// given place.
pub proof fn lemma_index_def_roundtrip_at(x: IndexDefV, p: Seq<u8>, r: Seq<u8>)
    requires
        index_def_roundtrips(x),
    ensures
        decode_index_def(p + index_def_bytes(x) + r, p.len() as int) == Ok::<
            (IndexDefV, int),
            DbError,
        >((x, (p.len() + index_def_bytes(x).len()) as int)),
{
    lemma_auto_spec_u64_to_from_le_bytes();
    lemma_u8_str_roundtrip(x.name);
    let flag: u8 = if x.unique {
        1u8
    } else {
        0u8
    };
    let cl = encode_list(str_encoder(), x.columns);
    let w = spec_u64_to_le_bytes(x.root_page);
    let d = p + index_def_bytes(x) + r;
    assert(d =~= p + u8_prefixed_str(x.name) + (seq![x.columns.len() as u8] + cl + seq![flag] + w
        + r));
    let o = (p.len() + u8_prefixed_str(x.name).len()) as int;
    assert(decode_u8_str(
        p + u8_prefixed_str(x.name) + (seq![x.columns.len() as u8] + cl + seq![flag] + w + r),
        p.len() as int,
    ) == Ok::<(Seq<char>, int), DbError>((x.name, o)));
    assert(d[o] == x.columns.len() as u8);
    let q = p + u8_prefixed_str(x.name) + seq![x.columns.len() as u8];
    assert(d =~= q + cl + (seq![flag] + w + r));
    lemma_str_list_roundtrip(x.columns, q, seq![flag] + w + r);
    let o2 = (q.len() + cl.len()) as int;
    assert(d[o2] == flag);
    assert(d.subrange(o2 + 1, o2 + 9) =~= w);
}

/// An index definition that `index_def_roundtrips` admits reads back,
/// wherever it stands.
pub proof fn lemma_index_def_roundtrip(x: IndexDefV)
    requires
        index_def_roundtrips(x),
    ensures
        reads_back(index_def_encoder(), index_def_decoder(), x),
{
    assert forall|p: Seq<u8>, r: Seq<u8>|
        #[trigger] (index_def_decoder())(p + (index_def_encoder())(x) + r, p.len() as int) == Ok::<
            (IndexDefV, int),
            DbError,
        >((x, (p.len() + (index_def_encoder())(x).len()) as int)) by {
        lemma_index_def_roundtrip_at(x, p, r);
    }
}

impl IndexDef {
    /// A definition not yet given a root page (0).
    pub fn new(name: &str, columns: Vec<String>, unique: bool) -> (x: Self)
        ensures
            x@ == (IndexDefV { name: name@, columns: strings_view(columns@), unique, root_page: 0 }),
    {
        IndexDef { name: name.to_owned(), columns, unique, root_page: 0 }
    }

    /// A copy of the definition.
    pub fn copy(&self) -> (x: Self)
        ensures
            x@ == self@,
    {
        IndexDef {
            name: self.name.clone(),
            columns: copy_strings(&self.columns),
            unique: self.unique,
            root_page: self.root_page,
        }
    }

    /// Appends the encoding of the definition.
    pub fn serialize(&self, buf: &mut Vec<u8>)
        ensures
            final(buf)@ == old(buf)@ + index_def_bytes(self@),
    {
        write_u8_str(buf, self.name.as_str());
        buf.push(self.columns.len() as u8);
        write_str_list(buf, &self.columns);
        buf.push(if self.unique { 1 } else { 0 });
        let w = u64_to_le_bytes(self.root_page);
        append_bytes(buf, w.as_slice());
        assert(final(buf)@ =~= old(buf)@ + index_def_bytes(self@));
    }

    /// Reads a definition at `*offset` and moves `*offset` past it.
    pub fn deserialize(data: &[u8], offset: &mut usize) -> (r: Result<Self, DbError>)
        ensures
            match decode_index_def(data@, *old(offset) as int) {
                Ok((x, end)) => r matches Ok(v) && v@ == x && *final(offset) as int == end,
                Err(e) => r matches Err(v) && v == e,
            },
    {
        let dlen = data.len();
        let (name, o) = match read_u8_str(data, *offset) {
            Ok(x) => x,
            Err(e) => return Err(e),
        };
        if o >= dlen {
            return Err(DbError::UnexpectedEof);
        }
        let count = data[o] as usize;
        let (columns, o2) = match read_str_list(data, o + 1, count) {
            Ok(x) => x,
            Err(e) => return Err(e),
        };
        if o2 > dlen || dlen - o2 < 9 {
            return Err(DbError::UnexpectedEof);
        }
        let unique = data[o2] != 0;
        let root_page = read_u64_le(data, o2 + 1).unwrap();
        *offset = o2 + 9;
        Ok(IndexDef { name, columns, unique, root_page })
    }
}

impl Clone for IndexDef {
    fn clone(&self) -> (x: Self)
        ensures
            x@ == self@,
    {
        self.copy()
    }
}

} // verus!
