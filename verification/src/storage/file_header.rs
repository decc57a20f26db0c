use vstd::prelude::*;
use vstd::bytes::*;
use crate::codec::{zeros, write_at, read_u32_le, read_u64_le};
use crate::error::DbError;

verus! {

/// Size of every page of the file, the header page included.
pub const PAGE_SIZE: usize = 4096;

/// The magic bytes "BPDB" that open every database file.
pub open spec fn magic_bytes() -> Seq<u8> {
    seq![0x42u8, 0x50u8, 0x44u8, 0x42u8]
}

/// The format version written by this library.
pub const VERSION: u32 = 1;

/// Number of bytes of the header page that hold fields.
pub const HEADER_FIELDS_LEN: usize = 36;

/// The header that occupies page 0 of a database file.
#[derive(Debug)]
pub struct FileHeader {
    pub(crate) magic: [u8; 4],
    pub(crate) version: u32,
    pub(crate) page_size: u32,
    pub(crate) total_pages: u64,
    pub(crate) free_list_head: u64,
    pub(crate) schema_catalog_root: u64,
}

/// The header's fields as plain values.
pub struct FileHeaderV {
    pub magic: Seq<u8>,
    pub version: u32,
    pub page_size: u32,
    pub total_pages: u64,
    pub free_list_head: u64,
    pub schema_catalog_root: u64,
}

impl View for FileHeader {
    type V = FileHeaderV;

    closed spec fn view(&self) -> FileHeaderV {
        FileHeaderV {
            magic: self.magic@,
            version: self.version,
            page_size: self.page_size,
            total_pages: self.total_pages,
            free_list_head: self.free_list_head,
            schema_catalog_root: self.schema_catalog_root,
        }
    }
}

/// The page that `FileHeader::serialize` writes: the magic, then the version,
/// the page size, the page count, the free-list head and the catalog root in
/// little-endian order, then zeros up to the page size.
pub open spec fn header_bytes(h: FileHeaderV) -> Seq<u8> {
    h.magic + spec_u32_to_le_bytes(h.version) + spec_u32_to_le_bytes(h.page_size)
        + spec_u64_to_le_bytes(h.total_pages) + spec_u64_to_le_bytes(h.free_list_head)
        + spec_u64_to_le_bytes(h.schema_catalog_root) + Seq::new(
        (PAGE_SIZE - HEADER_FIELDS_LEN) as nat,
        |i: int| 0u8,
    )
}

/// What `FileHeader::deserialize` reads from the bytes of page 0.
pub open spec fn decode_header(data: Seq<u8>) -> Result<FileHeaderV, DbError> {
    if data.subrange(0, 4) != magic_bytes() {
        Err(DbError::InvalidData)
    } else {
        Ok(
            FileHeaderV {
                magic: magic_bytes(),
                version: spec_u32_from_le_bytes(data.subrange(4, 8)),
                page_size: spec_u32_from_le_bytes(data.subrange(8, 12)),
                total_pages: spec_u64_from_le_bytes(data.subrange(12, 20)),
                free_list_head: spec_u64_from_le_bytes(data.subrange(20, 28)),
                schema_catalog_root: spec_u64_from_le_bytes(data.subrange(28, 36)),
            },
        )
    }
}

impl FileHeader {
    /// The header of a fresh file: one page, no free list, no catalog.
    pub fn new() -> (h: Self)
        ensures
            h@ == (FileHeaderV {
                magic: magic_bytes(),
                version: VERSION,
                page_size: PAGE_SIZE as u32,
                total_pages: 1,
                free_list_head: 0,
                schema_catalog_root: 0,
            }),
    {
        let h = FileHeader {
            magic: [0x42u8, 0x50u8, 0x44u8, 0x42u8],
            version: VERSION,
            page_size: 4096u32,
            total_pages: 1,
            free_list_head: 0,
            schema_catalog_root: 0,
        };
        assert(h.magic@ =~= magic_bytes());
        h
    }

    /// Number of pages of the file, the header page included.
    pub fn total_pages(&self) -> (r: u64)
        ensures
            r == self@.total_pages,
    {
        self.total_pages
    }

    /// Root page of the schema catalog tree (0 when there is none).
    pub fn schema_catalog_root(&self) -> (r: u64)
        ensures
            r == self@.schema_catalog_root,
    {
        self.schema_catalog_root
    }

    /// Records the number of pages.
    pub fn set_total_pages(&mut self, n: u64)
        ensures
            final(self)@ == (FileHeaderV { total_pages: n, ..old(self)@ }),
    {
        self.total_pages = n;
    }

    /// Records the root page of the schema catalog.
    pub fn set_schema_catalog_root(&mut self, p: u64)
        ensures
            final(self)@ == (FileHeaderV { schema_catalog_root: p, ..old(self)@ }),
    {
        self.schema_catalog_root = p;
    }

    /// Encodes the header as a full page.
    pub fn serialize(&self) -> (r: Vec<u8>)
        ensures
            r@ == header_bytes(self@),
            r@.len() == PAGE_SIZE,
    {
        let mut buf = zeros(PAGE_SIZE);
        write_at(&mut buf, 0, self.magic.as_slice());
        write_at(&mut buf, 4, u32_to_le_bytes(self.version).as_slice());
        write_at(&mut buf, 8, u32_to_le_bytes(self.page_size).as_slice());
        write_at(&mut buf, 12, u64_to_le_bytes(self.total_pages).as_slice());
        write_at(&mut buf, 20, u64_to_le_bytes(self.free_list_head).as_slice());
        write_at(&mut buf, 28, u64_to_le_bytes(self.schema_catalog_root).as_slice());
        assert(buf@ =~= header_bytes(self@));
        buf
    }

    /// Decodes the header from the bytes of page 0; fails with `InvalidData`
    /// when the magic is not there.
    pub fn deserialize(data: &[u8]) -> (r: Result<Self, DbError>)
        requires
            data@.len() >= 4,
            data@.subrange(0, 4) == magic_bytes() ==> data@.len() >= HEADER_FIELDS_LEN,
        ensures
            match decode_header(data@) {
                Ok(v) => r matches Ok(h) && h@ == v,
                Err(e) => r == Err::<Self, DbError>(e),
            },
    {
        if !(data[0] == 0x42u8 && data[1] == 0x50u8 && data[2] == 0x44u8 && data[3] == 0x42u8) {
            assert(data@.subrange(0, 4) != magic_bytes()) by {
                if data@.subrange(0, 4) == magic_bytes() {
                    assert(data@.subrange(0, 4)[0] == data@[0]);
                    assert(data@.subrange(0, 4)[1] == data@[1]);
                    assert(data@.subrange(0, 4)[2] == data@[2]);
                    assert(data@.subrange(0, 4)[3] == data@[3]);
                }
            }
            return Err(DbError::InvalidData);
        }
        assert(data@.subrange(0, 4) =~= magic_bytes());
        let version = read_u32_le(data, 4).unwrap();
        let page_size = read_u32_le(data, 8).unwrap();
        let total_pages = read_u64_le(data, 12).unwrap();
        let free_list_head = read_u64_le(data, 20).unwrap();
        let schema_catalog_root = read_u64_le(data, 28).unwrap();
        let h = FileHeader {
            magic: [0x42u8, 0x50u8, 0x44u8, 0x42u8],
            version,
            page_size,
            total_pages,
            free_list_head,
            schema_catalog_root,
        };
        assert(h.magic@ =~= magic_bytes());
        Ok(h)
    }
}

/// Reading back a serialized header gives the same header, for every header
/// that carries the magic.
pub proof fn lemma_header_roundtrip(h: FileHeaderV)
    requires
        h.magic == magic_bytes(),
    ensures
        header_bytes(h).len() == PAGE_SIZE,
        decode_header(header_bytes(h)) == Ok::<FileHeaderV, DbError>(h),
{
    lemma_auto_spec_u32_to_from_le_bytes();
    lemma_auto_spec_u64_to_from_le_bytes();
    let b = header_bytes(h);
    assert(b.subrange(0, 4) =~= h.magic);
    assert(b.subrange(4, 8) =~= spec_u32_to_le_bytes(h.version));
    assert(b.subrange(8, 12) =~= spec_u32_to_le_bytes(h.page_size));
    assert(b.subrange(12, 20) =~= spec_u64_to_le_bytes(h.total_pages));
    assert(b.subrange(20, 28) =~= spec_u64_to_le_bytes(h.free_list_head));
    assert(b.subrange(28, 36) =~= spec_u64_to_le_bytes(h.schema_catalog_root));
}

} // verus!
