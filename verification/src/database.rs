use vstd::prelude::*;
use vstd::bytes::*;
use crate::btree::internal_node::{InternalNode, NODE_INTERNAL};
use crate::btree::leaf_node::{LeafNode, NODE_LEAF};
use crate::codec::{KeyOrder, compare_bytes, bytes_equal, starts_with, write_at, str_equal, lex_order, lex_lt, lex_le, is_prefix, byte_strings};
use crate::error::DbError;
use crate::row::{Row, values_view, copy_values};
use crate::schema::column::Column;
use crate::schema::index_def::IndexDef;
use crate::schema::table_schema::{TableSchema, TableSchemaV, column_position};
use crate::storage::file_header::{FileHeader, FileHeaderV, PAGE_SIZE};
use crate::storage::page::{Page, PageCache, PageCacheV, PageManager, PageV, page_at, holds_page, image_page, image_after_write, zero_page, cache_writable, write_in_range};
use crate::value::{Value, ValueV};

verus! {

/// Number of pages the page cache holds by default.
pub const DEFAULT_CACHE_SIZE: usize = 256;

/// An embedded database: a page file, a page cache in front of it, the file
/// header and the schemas of the tables.
pub struct Database {
    page_manager: PageManager,
    cache: PageCache,
    header: FileHeader,
    schemas: Vec<TableSchema>,
}

/// Every cached page is one page long.
pub open spec fn pages_full(ps: Seq<PageV>) -> bool {
    forall|i: int| 0 <= i < ps.len() ==> (#[trigger] ps[i]).data.len() == PAGE_SIZE
}

/// Every clean cached page, other than the header page, holds what the file
/// holds at its place.
pub open spec fn clean_agrees(ps: Seq<PageV>, image: Seq<u8>) -> bool {
    forall|i: int|
        0 <= i < ps.len() && (#[trigger] ps[i]).page_num != 0 && !ps[i].dirty ==> image_page(image, ps[i].page_num) == Some(
            ps[i].data,
        )
}

/// The bytes of page `n` given a cache and a file image: the cached copy
/// when the page is cached, else the file's.
pub open spec fn store_of(c: PageCacheV, image: Seq<u8>, n: u64) -> Option<Seq<u8>> {
    match c.lookup(n) {
        Some(p) => Some(p.data),
        None => image_page(image, n),
    }
}

/// Caching page `p` (and writing back the page this evicts when it is
/// dirty) gives page `p` its bytes, keeps every other page other than the
/// header page, and keeps clean pages in agreement with the file.
proof fn lemma_cache_insert_store(c0: PageCacheV, i0: Seq<u8>, c1: PageCacheV, i1: Seq<u8>, p: PageV, ev: Option<PageV>)
    requires
        c0.wf(),
        c1.wf(),
        pages_full(c0.pages),
        clean_agrees(c0.pages, i0),
        p.data.len() == PAGE_SIZE,
        !p.dirty && p.page_num != 0 ==> image_page(i0, p.page_num) == Some(p.data),
        c1.lookup(p.page_num) == Some(p),
        forall|k: int| 0 <= k < c1.pages.len() ==> c1.pages[k] == p || c0.pages.contains(#[trigger] c1.pages[k]),
        ev matches Some(e) ==> c0.pages.contains(e) && e.page_num != p.page_num && c1.lookup(e.page_num) is None,
        forall|m: u64| m != p.page_num && !(ev matches Some(e) && e.page_num == m) ==> #[trigger] c1.lookup(m) == c0.lookup(m),
        i1 == match ev {
            Some(e) => if e.dirty {
                image_after_write(i0, e.page_num, e.data)
            } else {
                i0
            },
            None => i0,
        },
    ensures
        clean_agrees(c1.pages, i0),
        clean_agrees(c1.pages, i1),
        store_of(c1, i1, p.page_num) == Some(p.data),
        forall|m: u64| #![trigger store_of(c1, i1, m)] m != 0 && m != p.page_num && store_of(c0, i0, m) is Some ==> store_of(c1, i1, m) == store_of(c0, i0, m),
{
    assert forall|k: int| 0 <= k < c1.pages.len() && (#[trigger] c1.pages[k]).page_num != 0 && !c1.pages[k].dirty implies image_page(i0, c1.pages[k].page_num) == Some(c1.pages[k].data) by {
        if c1.pages[k] != p {
            assert(c0.pages.contains(c1.pages[k]));
            let j = choose|j: int| 0 <= j < c0.pages.len() && c0.pages[j] == c1.pages[k];
            assert(c0.pages[j].page_num != 0 && !c0.pages[j].dirty);
        }
    }
    if ev is Some {
        let e = ev->Some_0;
        let je = choose|j: int| 0 <= j < c0.pages.len() && c0.pages[j] == e;
        assert(e.data.len() == PAGE_SIZE);
        crate::storage::page::lemma_lookup_at(c0, e.page_num, je);
        if e.dirty {
            crate::storage::page::lemma_image_write_same(i0, e.page_num, e.data);
            assert forall|k: int| 0 <= k < c1.pages.len() && (#[trigger] c1.pages[k]).page_num != 0 && !c1.pages[k].dirty implies image_page(i1, c1.pages[k].page_num) == Some(c1.pages[k].data) by {
                let q = c1.pages[k];
                assert(page_at(c1.pages, q.page_num, k));
                assert(holds_page(c1.pages, q.page_num));
                assert(q.page_num != e.page_num);
                crate::storage::page::lemma_image_write_other(i0, e.page_num, e.data, q.page_num);
            }
            assert forall|m: u64| #![trigger store_of(c1, i1, m)] m != 0 && m != p.page_num && store_of(c0, i0, m) is Some implies store_of(c1, i1, m) == store_of(c0, i0, m) by {
                if m != e.page_num {
                    assert(c1.lookup(m) == c0.lookup(m));
                    crate::storage::page::lemma_image_write_other(i0, e.page_num, e.data, m);
                }
            }
        } else {
            assert forall|m: u64| #![trigger store_of(c1, i1, m)] m != 0 && m != p.page_num && store_of(c0, i0, m) is Some implies store_of(c1, i1, m) == store_of(c0, i0, m) by {
                if m != e.page_num {
                    assert(c1.lookup(m) == c0.lookup(m));
                } else {
                    assert(c0.pages[je].page_num != 0 && !c0.pages[je].dirty);
                }
            }
        }
    } else {
        assert forall|m: u64| #![trigger store_of(c1, i1, m)] m != 0 && m != p.page_num && store_of(c0, i0, m) is Some implies store_of(c1, i1, m) == store_of(c0, i0, m) by {
            assert(c1.lookup(m) == c0.lookup(m));
        }
    }
}

/// What `get` answers for `key` in table `t` agrees with the pages of `db`:
/// a row is the decoding of what the table's tree holds for `key`, and no
/// row means the tree holds nothing for it.
pub open spec fn got_row(db: Database, t: TableSchemaV, key: Seq<u8>, fuel: nat, r: Result<Option<Seq<ValueV>>, DbError>) -> bool {
    match r {
        Ok(Some(row)) => exists|b: Seq<u8>|
            crate::row::decode_row(b, t.columns) == Ok::<Seq<ValueV>, DbError>(row) && #[trigger] tree_holds(db, t.root_page, key, fuel, Some(b)),
        Ok(None) => tree_holds(db, t.root_page, key, fuel, None),
        Err(_) => true,
    }
}

/// The cell that an auto-increment column of type `dt` gets from counter
/// value `n`: `InvalidInput` when the value does not fit the type or the
/// type is not an integer type that auto-increment supports.
pub open spec fn auto_value(dt: crate::data_type::DataType, n: u64) -> Result<ValueV, DbError> {
    match dt {
        crate::data_type::DataType::UInt32 => if n > 0xFFFF_FFFFu64 {
            Err(DbError::InvalidInput)
        } else {
            Ok(ValueV::UInt32(n as u32))
        },
        crate::data_type::DataType::UInt64 => Ok(ValueV::UInt64(n)),
        crate::data_type::DataType::Int32 => if n > 0x7FFF_FFFFu64 {
            Err(DbError::InvalidInput)
        } else {
            Ok(ValueV::Int32(n as i32))
        },
        crate::data_type::DataType::Int64 => Ok(ValueV::Int64(n as i64)),
        _ => Err(DbError::InvalidInput),
    }
}

/// Filling in the `Null` cells of the auto-increment columns of `row`,
/// from column `c` on, with counter values from `n` up: the filled row and
/// the next counter value, or the error (a value that does not fit, or a
/// counter that would pass the largest `u64`).
pub open spec fn autofill(cols: Seq<crate::schema::column::ColumnV>, row: Seq<ValueV>, n: u64, c: nat) -> Result<
    (Seq<ValueV>, u64),
    DbError,
>
    decreases cols.len() - c,
{
    if c >= cols.len() {
        Ok((row, n))
    } else if cols[c as int].auto_increment && row[c as int] is Null {
        match auto_value(cols[c as int].data_type, n) {
            Ok(v) => if n == u64::MAX {
                Err(DbError::InvalidInput)
            } else {
                autofill(cols, row.update(c as int, v), (n + 1) as u64, c + 1)
            },
            Err(e) => Err(e),
        }
    } else {
        autofill(cols, row, n, c + 1)
    }
}

/// The row that an insert of `row` into table `t` stores: `row` with its
/// auto-increment cells filled in (`row` itself when filling in fails).
pub open spec fn filled_row(t: TableSchemaV, row: Seq<ValueV>) -> Seq<ValueV> {
    match autofill(t.columns, row, t.auto_increment, 0) {
        Ok((f, _)) => f,
        Err(_) => row,
    }
}

/// A row with no `Null` auto-increment cell is filled in as it is.
pub proof fn lemma_autofill_none(cols: Seq<crate::schema::column::ColumnV>, row: Seq<ValueV>, n: u64, c: nat)
    requires
        forall|j: int| 0 <= j < cols.len() && (#[trigger] cols[j]).auto_increment ==> !(row[j] is Null),
    ensures
        autofill(cols, row, n, c) == Ok::<(Seq<ValueV>, u64), DbError>((row, n)),
    decreases cols.len() - c,
{
    if c < cols.len() {
        lemma_autofill_none(cols, row, n, c + 1);
    }
}

/// No auto-increment column of the row is `Null`, so an insert fills in
/// nothing.
pub open spec fn no_autofill(cols: Seq<crate::schema::column::ColumnV>, row: Seq<ValueV>) -> bool {
    forall|c: int| 0 <= c < cols.len() && (#[trigger] cols[c]).auto_increment ==> !(row[c] is Null)
}

/// The tree of table `t` holds the encoding of `row` under the row's
/// primary key (unless the descent passes through the header page).
pub open spec fn stored_row(db: Database, t: TableSchemaV, row: Seq<ValueV>, fuel: nat) -> bool {
    match pk_key_of(t, row) {
        Ok(k) => tree_holds(db, t.root_page, k, fuel, Some(crate::row::row_bytes(row, t.columns.len()))),
        Err(_) => false,
    }
}

/// The pages, other than new ones, that inserting `row` may write in the
/// tree of table `t` (none when the row's key cannot be built).
pub open spec fn table_writes(db: Database, t: TableSchemaV, row: Seq<ValueV>) -> Seq<u64> {
    match pk_key_of(t, row) {
        Ok(k) => insert_writes(db, t.root_page, k, db.header_view().total_pages as nat),
        Err(_) => Seq::empty(),
    }
}

/// The pages, other than new ones, that inserting `row` may write in the
/// tree of index `j` of table `t` (none when the index key cannot be
/// built).
pub open spec fn index_writes(db: Database, t: TableSchemaV, row: Seq<ValueV>, j: int) -> Seq<u64> {
    match index_key_of(t, t.indexes[j], row) {
        Ok(ik) => insert_writes(db, t.indexes[j].root_page, ik, db.header_view().total_pages as nat),
        Err(_) => Seq::empty(),
    }
}

/// The tree of index `j` of table `t` can take the index key of `row`
/// along a descent that an insert can split.
pub open spec fn index_ready(db: Database, t: TableSchemaV, row: Seq<ValueV>, j: int) -> bool {
    index_key_of(t, t.indexes[j], row) matches Ok(ik) && split_ready(db, t.indexes[j].root_page, ik, db.header_view().total_pages as nat)
}

/// Index `j` of table `t` holds no entry that starts with the indexed
/// cells of `row`, as far as a prefix scan of its tree on the pages of `db`
/// tells.
pub open spec fn unique_clear(db: Database, t: TableSchemaV, row: Seq<ValueV>, j: int) -> bool {
    key_of(t.columns, t.indexes[j].columns, row) matches Ok(p) && (tree_collect(
        db,
        t.indexes[j].root_page,
        Some(p),
        ScanMode::Prefix { p },
        db.header_view().total_pages as nat,
    ) matches Some(es) ==> es.len() == 0)
}

/// A prefix scan that found nothing after reads means the tree held nothing
/// under the prefix before them, where a scan before them gets through.
proof fn lemma_scan_clear(a: Database, b: Database, root: u64, p: Seq<u8>, es: Seq<(Seq<u8>, Seq<u8>)>)
    requires
        pages_kept(a, b),
        b.header_view() == a.header_view(),
        es.len() == 0,
        tree_collect(b, root, Some(p), ScanMode::Prefix { p }, a.header_view().total_pages as nat) == Some(es) || scan_meets_header(
            b,
            root,
            Some(p),
            a.header_view().total_pages as nat,
        ),
    ensures
        tree_collect(a, root, Some(p), ScanMode::Prefix { p }, a.header_view().total_pages as nat) matches Some(xs) ==> xs.len() == 0,
{
    let fuel = a.header_view().total_pages as nat;
    lemma_collect_kept(a, b, root, Some(p), ScanMode::Prefix { p }, fuel);
    if tree_collect(a, root, Some(p), ScanMode::Prefix { p }, fuel) is Some {
        lemma_descent_kept(a, b, root, p, fuel);
        lemma_descent_kept(b, b, root, p, fuel);
    }
}

/// A descent reaches a leaf exactly when it visits pages down to one, and
/// the leaf it reaches is the last page it visits.
pub proof fn lemma_descent_leaf_pages(db: Database, p: u64, key: Seq<u8>, fuel: nat)
    ensures
        descent_leaf(db, p, key, fuel) is Some <==> descent_pages(db, p, key, fuel) is Some,
        descent_pages(db, p, key, fuel) is Some ==> descent_leaf(db, p, key, fuel) == Some(descent_pages(db, p, key, fuel).unwrap().last()),
    decreases fuel,
{
    if fuel > 0 && db.stored(p) is Some {
        let b = db.stored(p).unwrap();
        if b[0] == NODE_INTERNAL {
            match crate::btree::internal_node::decode_internal(b) {
                Ok(n) => {
                    let c = n.children[child_pos(n.keys, key)];
                    lemma_descent_leaf_pages(db, c, key, (fuel - 1) as nat);
                    if descent_pages(db, c, key, (fuel - 1) as nat) is Some {
                        let rest = descent_pages(db, c, key, (fuel - 1) as nat).unwrap();
                        assert((seq![p] + rest).last() == rest.last());
                    }
                },
                Err(_) => {},
            }
        }
    }
}

/// A descent that reaches a leaf of distinct keys still does on pages that
/// agree on the pages it visits.
pub proof fn lemma_distinct_kept(a: Database, b: Database, root: u64, key: Seq<u8>, fuel: nat)
    requires
        descent_leaf_distinct(a, root, key, fuel),
        descent_pages(a, root, key, fuel) is Some,
        agrees_on(b, a, descent_pages(a, root, key, fuel).unwrap()),
    ensures
        descent_leaf_distinct(b, root, key, fuel),
{
    let ps = descent_pages(a, root, key, fuel).unwrap();
    lemma_descent_agrees(a, b, root, key, fuel, fuel);
    lemma_descent_leaf_pages(a, root, key, fuel);
    lemma_descent_leaf_pages(b, root, key, fuel);
    assert(ps.last() == ps[ps.len() - 1]);
    assert(b.stored(ps.last()) == a.stored(ps.last()));
}

/// Index `j`'s descent for the index key of `row` visits page `p`.
pub open spec fn index_visits(db: Database, t: TableSchemaV, row: Seq<ValueV>, j: int, p: u64) -> bool {
    index_key_of(t, t.indexes[j], row) matches Ok(ik) && descent_pages(
        db,
        t.indexes[j].root_page,
        ik,
        db.header_view().total_pages as nat,
    ) matches Some(ps) && ps.contains(p)
}

/// Index `j` of table `t` can drop the entry of `row` apart from the table's
/// descent for `key` and from the other indexes' descents for the row: its
/// descent for the row's index key reaches a leaf of distinct keys, that
/// leaf is a page of none of those descents, and the leaf of the table's
/// descent is not a page of its own descent.
pub open spec fn index_leaf_apart(db: Database, t: TableSchemaV, key: Seq<u8>, row: Seq<ValueV>, j: int) -> bool {
    let fuel = db.header_view().total_pages as nat;
    match index_key_of(t, t.indexes[j], row) {
        Ok(ik) => descent_pages(db, t.indexes[j].root_page, ik, fuel) matches Some(ps) && {
            &&& descent_leaf_distinct(db, t.indexes[j].root_page, ik, fuel)
            &&& !(descent_pages(db, t.root_page, key, fuel) matches Some(tps) && tps.contains(ps.last()))
            &&& !(descent_pages(db, t.root_page, key, fuel) matches Some(tps) && ps.contains(tps.last()))
            &&& forall|j2: int| 0 <= j2 < t.indexes.len() && j2 != j ==> !#[trigger] index_visits(db, t, row, j2, ps.last())
        },
        Err(_) => true,
    }
}

/// Index `j` of table `t` no longer holds the index key of `row` on the
/// pages of `x`, along the descent it had on the pages of `s0`.
pub open spec fn index_done(s0: Database, x: Database, t: TableSchemaV, row: Seq<ValueV>, j: int) -> bool {
    let fuel = s0.header_view().total_pages as nat;
    &&& index_key_of(t, t.indexes[j], row) is Ok
    &&& descent_pages(s0, t.indexes[j].root_page, index_key_of(t, t.indexes[j], row).unwrap(), fuel) is Some
    &&& descent_pages(x, t.indexes[j].root_page, index_key_of(t, t.indexes[j], row).unwrap(), fuel) == descent_pages(
        s0,
        t.indexes[j].root_page,
        index_key_of(t, t.indexes[j], row).unwrap(),
        fuel,
    )
    &&& tree_lookup(x, t.indexes[j].root_page, index_key_of(t, t.indexes[j], row).unwrap(), fuel) == Some(None::<Seq<u8>>)
}

/// Index `j` of table `t` holds nothing under the index key of `row` on the
/// pages of `db`, or the key cannot be built.
pub open spec fn index_cleared(db: Database, t: TableSchemaV, row: Seq<ValueV>, j: int, fuel: nat) -> bool {
    index_key_of(t, t.indexes[j], row) matches Ok(ik) ==> tree_holds(db, t.indexes[j].root_page, ik, fuel, None)
}

/// What an index that is done holds stays where only a page off its descent
/// changes.
proof fn lemma_index_done_kept(s0: Database, x: Database, y: Database, t: TableSchemaV, row: Seq<ValueV>, j: int, p: u64)
    requires
        index_done(s0, x, t, row, j),
        kept_but(x, y, p),
        !descent_pages(
            s0,
            t.indexes[j].root_page,
            index_key_of(t, t.indexes[j], row).unwrap(),
            s0.header_view().total_pages as nat,
        ).unwrap().contains(p),
    ensures
        index_done(s0, y, t, row, j),
{
    let fuel = s0.header_view().total_pages as nat;
    let ik = index_key_of(t, t.indexes[j], row).unwrap();
    let root = t.indexes[j].root_page;
    let ps = descent_pages(s0, root, ik, fuel).unwrap();
    lemma_descent_stored(x, root, ik, fuel);
    assert forall|i: int| 0 <= i < ps.len() implies y.stored(#[trigger] ps[i]) == x.stored(ps[i]) by {
        assert(x.stored(ps[i]) is Some);
        assert(ps.contains(ps[i]));
    }
    lemma_descent_agrees(x, y, root, ik, fuel, fuel);
}

/// A delete of the row under `key` from table `t` whose index trees sit
/// apart from the table's tree: for the row that the table's tree holds
/// under `key`, every index can drop its entry without touching the other
/// descents (`index_leaf_apart`).
pub open spec fn delete_apart(db: Database, t: TableSchemaV, key: Seq<u8>) -> bool {
    forall|b: Seq<u8>|
        tree_lookup(db, t.root_page, key, db.header_view().total_pages as nat) == Some(Some(b)) ==> match #[trigger] crate::row::decode_row(
            b,
            t.columns,
        ) {
            Ok(row) => forall|j: int| 0 <= j < t.indexes.len() ==> #[trigger] index_leaf_apart(db, t, key, row, j),
            Err(_) => true,
        }
}

/// The leaf that index `j`'s descent for the index key of `row` reaches.
pub open spec fn index_leaf(db: Database, t: TableSchemaV, row: Seq<ValueV>, j: int) -> u64 {
    descent_pages(
        db,
        t.indexes[j].root_page,
        index_key_of(t, t.indexes[j], row).unwrap(),
        db.header_view().total_pages as nat,
    ).unwrap().last()
}

/// `b` holds every page that `a` holds outside `touched`, as `a` does.
pub open spec fn kept_outside_set(a: Database, b: Database, touched: Set<u64>) -> bool {
    forall|m: u64| #![trigger b.stored(m)] a.stored(m) is Some && !touched.contains(m) ==> b.stored(m) == a.stored(m)
}

/// Every page that a descent visits is held.
pub proof fn lemma_descent_stored(db: Database, p: u64, key: Seq<u8>, fuel: nat)
    requires
        descent_pages(db, p, key, fuel) is Some,
    ensures
        forall|i: int|
            0 <= i < descent_pages(db, p, key, fuel).unwrap().len() ==> db.stored(
                #[trigger] descent_pages(db, p, key, fuel).unwrap()[i],
            ) is Some,
    decreases fuel,
{
    let ps = descent_pages(db, p, key, fuel).unwrap();
    let b = db.stored(p).unwrap();
    if b[0] == NODE_INTERNAL {
        let n = crate::btree::internal_node::decode_internal(b).unwrap();
        let c = n.children[child_pos(n.keys, key)];
        let rest = descent_pages(db, c, key, (fuel - 1) as nat).unwrap();
        lemma_descent_stored(db, c, key, (fuel - 1) as nat);
        assert(ps == seq![p] + rest);
        assert forall|i: int| 0 <= i < ps.len() implies db.stored(#[trigger] ps[i]) is Some by {
            if i > 0 {
                assert(ps[i] == rest[i - 1]);
            }
        }
    }
}

/// A descent keeps its pages where every page but its leaf is kept and the
/// leaf is rewritten as another leaf that decodes.
pub proof fn lemma_descent_leaf_rewritten(a: Database, b: Database, p: u64, key: Seq<u8>, fuel: nat)
    requires
        descent_pages(a, p, key, fuel) is Some,
        forall|i: int|
            0 <= i < descent_pages(a, p, key, fuel).unwrap().len() - 1 ==> b.stored(#[trigger] descent_pages(a, p, key, fuel).unwrap()[i])
                == a.stored(descent_pages(a, p, key, fuel).unwrap()[i]),
        leaf_tagged(b.stored(descent_pages(a, p, key, fuel).unwrap().last())),
        crate::btree::leaf_node::decode_leaf(b.stored(descent_pages(a, p, key, fuel).unwrap().last()).unwrap()) is Ok,
    ensures
        descent_pages(b, p, key, fuel) == descent_pages(a, p, key, fuel),
    decreases fuel,
{
    let ps = descent_pages(a, p, key, fuel).unwrap();
    let ab = a.stored(p).unwrap();
    if ab[0] == NODE_INTERNAL {
        let n = crate::btree::internal_node::decode_internal(ab).unwrap();
        let c = n.children[child_pos(n.keys, key)];
        let rest = descent_pages(a, c, key, (fuel - 1) as nat).unwrap();
        assert(ps == seq![p] + rest);
        assert(ps.len() > 1);
        assert(b.stored(ps[0]) == a.stored(ps[0]));
        assert(rest.last() == ps.last());
        assert forall|i: int| 0 <= i < rest.len() - 1 implies b.stored(#[trigger] rest[i]) == a.stored(rest[i]) by {
            assert(rest[i] == ps[i + 1]);
        }
        lemma_descent_leaf_rewritten(a, b, c, key, (fuel - 1) as nat);
    } else {
        assert(ps == seq![p]);
        assert(ps.last() == p);
    }
}

/// The pages a descent visits before its leaf are internal nodes, and its
/// leaf is a leaf.
pub proof fn lemma_descent_tags(db: Database, p: u64, key: Seq<u8>, fuel: nat)
    requires
        descent_pages(db, p, key, fuel) is Some,
    ensures
        forall|i: int|
            0 <= i < descent_pages(db, p, key, fuel).unwrap().len() - 1 ==> internal_tagged(
                db.stored(#[trigger] descent_pages(db, p, key, fuel).unwrap()[i]),
            ),
        leaf_tagged(db.stored(descent_pages(db, p, key, fuel).unwrap().last())),
        crate::btree::leaf_node::decode_leaf(db.stored(descent_pages(db, p, key, fuel).unwrap().last()).unwrap()) is Ok,
    decreases fuel,
{
    let ps = descent_pages(db, p, key, fuel).unwrap();
    let b = db.stored(p).unwrap();
    if b[0] == NODE_INTERNAL {
        let n = crate::btree::internal_node::decode_internal(b).unwrap();
        let c = n.children[child_pos(n.keys, key)];
        let rest = descent_pages(db, c, key, (fuel - 1) as nat).unwrap();
        lemma_descent_tags(db, c, key, (fuel - 1) as nat);
        assert(ps == seq![p] + rest);
        assert(rest.last() == ps.last());
        assert forall|i: int| 0 <= i < ps.len() - 1 implies internal_tagged(db.stored(#[trigger] ps[i])) by {
            if i > 0 {
                assert(ps[i] == rest[i - 1]);
            }
        }
    } else {
        assert(ps == seq![p]);
    }
}

/// Rewriting the leaf that a descent reaches as a leaf that fits, and
/// keeping every other page, keeps the pages of the descent.
proof fn lemma_leaf_rewrite_keeps_descent(
    s0: Database,
    x: Database,
    root: u64,
    key: Seq<u8>,
    fuel: nat,
    lf: u64,
    l: crate::btree::leaf_node::LeafV,
)
    requires
        descent_pages(s0, root, key, fuel) is Some,
        descent_leaf(s0, root, key, fuel) == Some(lf),
        descent_leaf(s0, root, key, fuel) == Some(descent_pages(s0, root, key, fuel).unwrap().last()),
        kept_but(s0, x, lf),
        x.stored(lf) == Some(crate::btree::leaf_node::leaf_bytes(l)),
        crate::btree::leaf_node::leaf_fits(l),
    ensures
        descent_pages(x, root, key, fuel) == descent_pages(s0, root, key, fuel),
{
    let ps = descent_pages(s0, root, key, fuel).unwrap();
    lemma_descent_stored(s0, root, key, fuel);
    lemma_descent_tags(s0, root, key, fuel);
    assert forall|i: int| 0 <= i < ps.len() - 1 implies x.stored(#[trigger] ps[i]) == s0.stored(ps[i]) by {
        assert(s0.stored(ps[i]) is Some);
        assert(internal_tagged(s0.stored(ps[i])));
        assert(ps[i] != lf);
    }
    crate::btree::leaf_node::lemma_leaf_roundtrip(l);
    assert(crate::btree::leaf_node::leaf_bytes(l)[0] == NODE_LEAF);
    lemma_descent_leaf_rewritten(s0, x, root, key, fuel);
}

/// Pages that `x` keeps from `a` outside `touched` agree with `a` on a
/// descent in `a` that visits none of `touched`.
proof fn lemma_descent_outside(a: Database, x: Database, p: u64, key: Seq<u8>, fuel: nat, touched: Set<u64>)
    requires
        descent_pages(a, p, key, fuel) is Some,
        kept_outside_set(a, x, touched),
        forall|i: int| 0 <= i < descent_pages(a, p, key, fuel).unwrap().len() ==> !touched.contains(
            #[trigger] descent_pages(a, p, key, fuel).unwrap()[i],
        ),
    ensures
        agrees_on(x, a, descent_pages(a, p, key, fuel).unwrap()),
        descent_pages(x, p, key, fuel) == descent_pages(a, p, key, fuel),
        descent_leaf(x, p, key, fuel) == Some(descent_pages(a, p, key, fuel).unwrap().last()),
{
    let ps = descent_pages(a, p, key, fuel).unwrap();
    lemma_descent_stored(a, p, key, fuel);
    assert forall|i: int| 0 <= i < ps.len() implies x.stored(#[trigger] ps[i]) == a.stored(ps[i]) by {
        assert(a.stored(ps[i]) is Some);
        assert(!touched.contains(ps[i]));
    }
    lemma_descent_agrees(a, x, p, key, fuel, fuel);
    lemma_descent_leaf_pages(x, p, key, fuel);
}

/// One index of a delete: while the pages outside the leaves of the indexes
/// before `k` are kept, the descent of index `k` reaches its leaf.
proof fn lemma_index_step(s0: Database, x: Database, t: TableSchemaV, key: Seq<u8>, row: Seq<ValueV>, k: int, touched: Set<u64>)
    requires
        0 <= k < t.indexes.len(),
        forall|j: int| 0 <= j < t.indexes.len() ==> #[trigger] index_leaf_apart(s0, t, key, row, j),
        index_key_of(t, t.indexes[k], row) is Ok,
        kept_outside_set(s0, x, touched),
        forall|m: u64| #[trigger] touched.contains(m) ==> exists|j: int| 0 <= j < k && index_key_of(t, t.indexes[j], row) is Ok
            && m == #[trigger] index_leaf(s0, t, row, j),
    ensures
        descent_leaf(
            x,
            t.indexes[k].root_page,
            index_key_of(t, t.indexes[k], row).unwrap(),
            s0.header_view().total_pages as nat,
        ) == Some(index_leaf(s0, t, row, k)),
        descent_pages(x, t.indexes[k].root_page, index_key_of(t, t.indexes[k], row).unwrap(), s0.header_view().total_pages as nat)
            == descent_pages(s0, t.indexes[k].root_page, index_key_of(t, t.indexes[k], row).unwrap(), s0.header_view().total_pages as nat),
        descent_leaf_distinct(x, t.indexes[k].root_page, index_key_of(t, t.indexes[k], row).unwrap(), s0.header_view().total_pages as nat),
{
    let fuel = s0.header_view().total_pages as nat;
    let ik = index_key_of(t, t.indexes[k], row).unwrap();
    let root = t.indexes[k].root_page;
    assert(index_leaf_apart(s0, t, key, row, k));
    let ps = descent_pages(s0, root, ik, fuel).unwrap();
    assert forall|i: int| 0 <= i < ps.len() implies !touched.contains(#[trigger] ps[i]) by {
        if touched.contains(ps[i]) {
            let j = choose|j: int| 0 <= j < k && index_key_of(t, t.indexes[j], row) is Ok && ps[i] == #[trigger] index_leaf(s0, t, row, j);
            assert(index_leaf_apart(s0, t, key, row, j));
            assert(!index_visits(s0, t, row, k, index_leaf(s0, t, row, j)));
            assert(ps.contains(ps[i]));
        }
    }
    lemma_descent_outside(s0, x, root, ik, fuel, touched);
    lemma_distinct_kept(s0, x, root, ik, fuel);
}

/// After the indexes are done, the table's descent for `key` still sees the
/// pages it saw.
proof fn lemma_table_outside(s0: Database, x: Database, t: TableSchemaV, key: Seq<u8>, row: Seq<ValueV>, touched: Set<u64>)
    requires
        descent_pages(s0, t.root_page, key, s0.header_view().total_pages as nat) is Some,
        forall|j: int| 0 <= j < t.indexes.len() ==> #[trigger] index_leaf_apart(s0, t, key, row, j),
        kept_outside_set(s0, x, touched),
        forall|m: u64| #[trigger] touched.contains(m) ==> exists|j: int| 0 <= j < t.indexes.len() && index_key_of(t, t.indexes[j], row) is Ok
            && m == #[trigger] index_leaf(s0, t, row, j),
    ensures
        agrees_on(x, s0, descent_pages(s0, t.root_page, key, s0.header_view().total_pages as nat).unwrap()),
        descent_leaf(x, t.root_page, key, s0.header_view().total_pages as nat) == Some(
            descent_pages(s0, t.root_page, key, s0.header_view().total_pages as nat).unwrap().last(),
        ),
{
    let fuel = s0.header_view().total_pages as nat;
    let ps = descent_pages(s0, t.root_page, key, fuel).unwrap();
    assert forall|i: int| 0 <= i < ps.len() implies !touched.contains(#[trigger] ps[i]) by {
        if touched.contains(ps[i]) {
            let j = choose|j: int| 0 <= j < t.indexes.len() && index_key_of(t, t.indexes[j], row) is Ok && ps[i] == #[trigger] index_leaf(s0, t, row, j);
            assert(index_leaf_apart(s0, t, key, row, j));
            assert(ps.contains(ps[i]));
        }
    }
    lemma_descent_outside(s0, x, t.root_page, key, fuel, touched);
}

/// One index of a delete is done: the index that was just cleared holds
/// nothing under the row's index key, and the ones before it still do not.
proof fn index_step_done(s_old: Database, s_k: Database, s_n: Database, t: TableSchemaV, key: Seq<u8>, row: Seq<ValueV>, k: int)
    requires
        0 <= k < t.indexes.len(),
        forall|j: int| 0 <= j < t.indexes.len() ==> #[trigger] index_leaf_apart(s_old, t, key, row, j),
        index_key_of(t, t.indexes[k], row) is Ok,
        s_k.header_view() == s_old.header_view(),
        descent_pages(s_k, t.indexes[k].root_page, index_key_of(t, t.indexes[k], row).unwrap(), s_old.header_view().total_pages as nat)
            == descent_pages(s_old, t.indexes[k].root_page, index_key_of(t, t.indexes[k], row).unwrap(), s_old.header_view().total_pages as nat),
        descent_leaf_distinct(s_k, t.indexes[k].root_page, index_key_of(t, t.indexes[k], row).unwrap(), s_old.header_view().total_pages as nat),
        kept_but(s_k, s_n, index_leaf(s_old, t, row, k)),
        tree_holds(s_n, t.indexes[k].root_page, index_key_of(t, t.indexes[k], row).unwrap(), s_old.header_view().total_pages as nat, None),
        match descent_pages(s_k, t.indexes[k].root_page, index_key_of(t, t.indexes[k], row).unwrap(), s_old.header_view().total_pages as nat) {
            Some(ps) => descent_pages(s_n, t.indexes[k].root_page, index_key_of(t, t.indexes[k], row).unwrap(), s_old.header_view().total_pages as nat)
                == Some(ps),
            None => true,
        },
        forall|j: int| 0 <= j < k ==> #[trigger] index_done(s_old, s_k, t, row, j),
    ensures
        forall|j: int| 0 <= j < k + 1 ==> #[trigger] index_done(s_old, s_n, t, row, j),
{
    let fuel = s_old.header_view().total_pages as nat;
    let ik = index_key_of(t, t.indexes[k], row).unwrap();
    let root = t.indexes[k].root_page;
    assert(index_leaf_apart(s_old, t, key, row, k));
    lemma_descent_leaf_pages(s_n, root, ik, fuel);
    lemma_descent_kept(s_n, s_n, root, ik, fuel);
    assert(index_done(s_old, s_n, t, row, k));
    let lf = index_leaf(s_old, t, row, k);
    assert forall|j: int| 0 <= j < k + 1 implies #[trigger] index_done(s_old, s_n, t, row, j) by {
        if j < k {
            assert(index_done(s_old, s_k, t, row, j));
            assert(!index_visits(s_old, t, row, j, lf));
            lemma_index_done_kept(s_old, s_k, s_n, t, row, j, lf);
        }
    }
}

/// `b` holds every page that `a` holds, but page `p`, as `a` does.
pub open spec fn kept_but(a: Database, b: Database, p: u64) -> bool {
    forall|m: u64| #![trigger b.stored(m)] m != p && a.stored(m) is Some ==> b.stored(m) == a.stored(m)
}

/// The tree of index `j` of table `t` holds the row's primary key under
/// the row's index key.
pub open spec fn index_holds(db: Database, t: TableSchemaV, row: Seq<ValueV>, j: int) -> bool {
    &&& pk_key_of(t, row) matches Ok(pk)
    &&& index_key_of(t, t.indexes[j], row) matches Ok(ik)
    &&& tree_lookup(db, t.indexes[j].root_page, ik, db.header_view().total_pages as nat) == Some(Some(pk))
}

/// An insert of the (filled-in) row `row` into table `t` of `db` along
/// well-formed trees: the descent for the row's key in the table's tree,
/// and for its index key in each index's tree, is one that an insert can
/// split along; and no two of these inserts may write the same page.
pub open spec fn insert_ready(db: Database, t: TableSchemaV, row: Seq<ValueV>) -> bool {
    &&& pk_key_of(t, row) matches Ok(k) && split_ready(db, t.root_page, k, db.header_view().total_pages as nat)
    &&& forall|j: int| 0 <= j < t.indexes.len() ==> #[trigger] index_ready(db, t, row, j)
    &&& forall|j: int| 0 <= j < t.indexes.len() ==> apart(#[trigger] index_writes(db, t, row, j), table_writes(db, t, row))
    &&& forall|j1: int, j2: int|
        0 <= j1 < j2 < t.indexes.len() ==> apart(#[trigger] index_writes(db, t, row, j1), #[trigger] index_writes(db, t, row, j2))
}

/// The schemas `ts` with `s` recorded: in place of the table of the same
/// name, or added at the end.
pub open spec fn put_table(ts: Seq<TableSchemaV>, s: TableSchemaV) -> Seq<TableSchemaV> {
    if has_table(ts, s.name) {
        ts.update(choose|i: int| table_at(ts, s.name, i), s)
    } else {
        ts.push(s)
    }
}

/// What `put_schema` leaves is `put_table` of what it found.
proof fn lemma_put_table(before: Seq<TableSchemaV>, s: TableSchemaV, after: Seq<TableSchemaV>)
    requires
        has_table(before, s.name) ==> forall|i: int| table_at(before, s.name, i) ==> after == before.update(i, s),
        !has_table(before, s.name) ==> after == before.push(s),
    ensures
        after == put_table(before, s),
{
    if has_table(before, s.name) {
        let i = choose|i: int| table_at(before, s.name, i);
        assert(table_at(before, s.name, i));
    }
}

/// The schemas that loading the catalog entries `es`, in order, records on
/// top of `ts`: each entry's value decoded as a schema. A key that is not
/// UTF-8 fails with `InvalidData`; a value that does not decode fails as
/// the decoding does.
pub open spec fn load_tables(ts: Seq<TableSchemaV>, es: Seq<(Seq<u8>, Seq<u8>)>) -> Result<Seq<TableSchemaV>, DbError>
    decreases es.len(),
{
    if es.len() == 0 {
        Ok(ts)
    } else if !vstd::utf8::valid_utf8(es[0].0) {
        Err(DbError::InvalidData)
    } else {
        match crate::schema::table_schema::decode_schema(es[0].1) {
            Ok(s) => load_tables(put_table(ts, s), es.drop_first()),
            Err(e) => Err(e),
        }
    }
}

/// `es` are the entries of the schema catalog of `db`, as a scan of its
/// tree collects them (any entries, where the scan meets the header page).
pub open spec fn catalog_scanned(db: Database, es: Seq<(Seq<u8>, Seq<u8>)>) -> bool {
    let root = db.header_view().schema_catalog_root;
    let fuel = db.header_view().total_pages as nat;
    tree_collect(db, root, None, ScanMode::Range { lo: None, hi: None }, fuel) == Some(es) || scan_meets_header(db, root, None, fuel)
}

/// The file of `db` holds every page (but the header page) as `db` sees
/// it: nothing is pending in the cache.
pub open spec fn on_file(db: Database) -> bool {
    forall|n: u64| n != 0 && #[trigger] db.stored(n) is Some ==> image_page(db.image_view(), n) == db.stored(n)
}

/// `db` holds every page (but the header page) that the file image `image`
/// holds, as the image holds it: what opening the image gives.
pub open spec fn opened_from(db: Database, image: Seq<u8>) -> bool {
    forall|n: u64| n != 0 && #[trigger] image_page(image, n) is Some ==> db.stored(n) == image_page(image, n)
}

/// Reopening after a sync: a database opened from the file of a database
/// that nothing is pending in (as `sync` leaves it) holds every page that
/// the first one holds, as it holds it; so a descent in any tree finds on
/// the reopened database what it found before.
pub proof fn lemma_reopen_after_sync(db: Database, db2: Database, root: u64, key: Seq<u8>, fuel: nat)
    requires
        on_file(db),
        opened_from(db2, db.image_view()),
    ensures
        pages_kept(db, db2),
        tree_lookup(db, root, key, fuel) is Some ==> tree_lookup(db2, root, key, fuel) == tree_lookup(db, root, key, fuel),
{
    assert forall|n: u64| #![trigger db.stored(n)] #![trigger db2.stored(n)] db.stored(n) is Some implies db2.stored(n) == db.stored(n) by {
        assert(n != 0);
        assert(image_page(db.image_view(), n) == db.stored(n));
    }
    lemma_lookup_kept(db, db2, root, key, fuel);
}

/// What `get` reads back of a row that `insert` stored: when the tree of
/// table `t` holds the encoding of `row` under the row's primary key on the
/// pages of `db1`, a `get` on `db1` with the row's key cells (ending at `db2`)
/// answers the row itself, or fails. Left out: a descent that passes through
/// the header page, and rows whose text or blob cells are too long for their
/// length prefix.
pub proof fn lemma_get_after_insert(
    db1: Database,
    db2: Database,
    t: TableSchemaV,
    row: Seq<ValueV>,
    pk: Seq<Value>,
    fuel: nat,
    got: Result<Option<Seq<ValueV>>, DbError>,
)
    requires
        stored_row(db1, t, row, fuel),
        pk_key_of(t, row) == Ok::<Seq<u8>, DbError>(key_bytes(pk)),
        !meets_header(db1, t.root_page, key_bytes(pk), fuel),
        crate::row::row_roundtrips(row, t.columns),
        got is Ok ==> pages_kept(db1, db2),
        got_row(db2, t, key_bytes(pk), fuel, got),
    ensures
        got is Ok ==> got == Ok::<Option<Seq<ValueV>>, DbError>(Some(row)),
{
    let k = key_bytes(pk);
    let v = crate::row::row_bytes(row, t.columns.len());
    if got is Ok {
        assert(tree_lookup(db1, t.root_page, k, fuel) == Some(Some(v)));
        lemma_lookup_kept(db1, db2, t.root_page, k, fuel);
        lemma_lookup_not_header(db2, t.root_page, k, fuel);
        crate::row::lemma_row_roundtrip(row, t.columns, Seq::empty());
        assert(v + Seq::<u8>::empty() =~= v);
        match got {
            Ok(Some(r2)) => {
                let b = choose|b: Seq<u8>|
                    crate::row::decode_row(b, t.columns) == Ok::<Seq<ValueV>, DbError>(r2) && #[trigger] tree_holds(db2, t.root_page, k, fuel, Some(b));
                assert(b == v);
            },
            _ => {},
        }
    }
}

/// What `get` reads after `delete`: when the tree of table `t` holds nothing
/// for `key` on the pages of `db1`, a `get` on `db1` for that key (ending at
/// `db2`) answers that there is no row, or fails. Left out: a descent that
/// passes through the header page.
pub proof fn lemma_get_after_delete(
    db1: Database,
    db2: Database,
    t: TableSchemaV,
    pk: Seq<Value>,
    fuel: nat,
    got: Result<Option<Seq<ValueV>>, DbError>,
)
    requires
        tree_holds(db1, t.root_page, key_bytes(pk), fuel, None),
        !meets_header(db1, t.root_page, key_bytes(pk), fuel),
        got is Ok ==> pages_kept(db1, db2),
        got_row(db2, t, key_bytes(pk), fuel, got),
    ensures
        got is Ok ==> got == Ok::<Option<Seq<ValueV>>, DbError>(None),
{
    let k = key_bytes(pk);
    if got is Ok {
        lemma_lookup_kept(db1, db2, t.root_page, k, fuel);
        lemma_lookup_not_header(db2, t.root_page, k, fuel);
        match got {
            Ok(Some(r2)) => {
                let b = choose|b: Seq<u8>|
                    crate::row::decode_row(b, t.columns) == Ok::<Seq<ValueV>, DbError>(r2) && #[trigger] tree_holds(db2, t.root_page, k, fuel, Some(b));
                assert(tree_lookup(db2, t.root_page, k, fuel) == Some(None::<Seq<u8>>));
            },
            _ => {},
        }
    }
}

/// The key made of the encodings of `values`, one after the other.
pub open spec fn key_bytes(values: Seq<Value>) -> Seq<u8> {
    crate::value::values_bytes(Seq::new(values.len(), |i: int| values[i]@))
}

/// Reading page `n` of `db` succeeds: the page is cached, or it lies within
/// the pages the file can be read at, the file holds it, and a page that the
/// read evicts from the cache can be written back.
pub open spec fn page_readable(db: Database, n: u64) -> bool {
    db.cache_view().lookup(n) is Some || (cache_writable(db.cache_view()) && n < db.file_page_count() && image_page(
        db.image_view(),
        n,
    ) is Some)
}

/// Every page of `ps` can be read, and stays so across other reads: each
/// is held and lies below the pages the file can be read at, and cached
/// pages can be written back.
pub open spec fn pages_readable(db: Database, ps: Seq<u64>) -> bool {
    &&& cache_writable(db.cache_view())
    &&& forall|i: int| 0 <= i < ps.len() ==> (#[trigger] ps[i]) < db.file_page_count() && db.stored(ps[i]) is Some
}

/// A page of readable pages can be read.
pub proof fn lemma_pages_readable(db: Database, ps: Seq<u64>, n: u64)
    requires
        pages_readable(db, ps),
        ps.contains(n),
    ensures
        page_readable(db, n),
        n != 0,
        db.stored(n) is Some,
{
    let i = choose|i: int| 0 <= i < ps.len() && ps[i] == n;
    assert(ps[i] < db.file_page_count() && db.stored(ps[i]) is Some);
}

/// Reads keep pages readable.
pub proof fn lemma_pages_readable_kept(a: Database, b: Database, ps: Seq<u64>)
    requires
        pages_readable(a, ps),
        pages_kept(a, b),
        cache_writable(b.cache_view()),
        b.file_page_count() == a.file_page_count(),
    ensures
        pages_readable(b, ps),
{
    assert forall|i: int| 0 <= i < ps.len() implies (#[trigger] ps[i]) < b.file_page_count() && b.stored(ps[i]) is Some by {
        assert(a.stored(ps[i]) is Some);
    }
}

/// `a` and `b` hold the same bytes (or nothing) at each of the pages `ps`.
pub open spec fn agrees_on(a: Database, b: Database, ps: Seq<u64>) -> bool {
    forall|i: int| 0 <= i < ps.len() ==> a.stored(#[trigger] ps[i]) == b.stored(ps[i])
}

/// Bytes tagged as a leaf.
pub open spec fn leaf_tagged(o: Option<Seq<u8>>) -> bool {
    o matches Some(b) && b[0] == NODE_LEAF
}

/// Bytes tagged as an internal node.
pub open spec fn internal_tagged(o: Option<Seq<u8>>) -> bool {
    o matches Some(b) && b[0] == NODE_INTERNAL
}

/// The pages of a descent path.
pub open spec fn path_pages(path: Seq<(u64, usize)>) -> Seq<u64> {
    Seq::new(path.len(), |i: int| path[i].0)
}

/// Every page that `a` holds, `b` holds alike.
pub open spec fn pages_kept(a: Database, b: Database) -> bool {
    forall|n: u64| #![trigger a.stored(n)] #![trigger b.stored(n)] a.stored(n) is Some ==> b.stored(n) == a.stored(n)
}

/// `b` holds `d` at page `n` (unless `n` is the header page), and every
/// other page that `a` holds as `a` does.
pub open spec fn page_written(a: Database, b: Database, n: u64, d: Seq<u8>) -> bool {
    &&& n != 0 ==> b.stored(n) == Some(d)
    &&& forall|m: u64| #![trigger a.stored(m)] #![trigger b.stored(m)] m != n && a.stored(m) is Some ==> b.stored(m) == a.stored(m)
}

/// No two tables share a name.
pub open spec fn names_distinct(ts: Seq<TableSchemaV>) -> bool {
    forall|i: int, j: int| 0 <= i < ts.len() && 0 <= j < ts.len() && i != j ==> ts[i].name != ts[j].name
}

/// Position `i` holds the table called `name`.
pub open spec fn table_at(ts: Seq<TableSchemaV>, name: Seq<char>, i: int) -> bool {
    0 <= i < ts.len() && ts[i].name == name
}

/// Some table is called `name`.
pub open spec fn has_table(ts: Seq<TableSchemaV>, name: Seq<char>) -> bool {
    exists|i: int| table_at(ts, name, i)
}

/// The table called `name`, if any.
pub open spec fn table_named(ts: Seq<TableSchemaV>, name: Seq<char>) -> Option<TableSchemaV> {
    if has_table(ts, name) {
        Some(ts[choose|i: int| table_at(ts, name, i)])
    } else {
        None
    }
}

/// With distinct names, the table at a known position is the one `table_named`
/// gives.
pub proof fn lemma_table_named_at(ts: Seq<TableSchemaV>, name: Seq<char>, i: int)
    requires
        names_distinct(ts),
        table_at(ts, name, i),
    ensures
        table_named(ts, name) == Some(ts[i]),
{
    let k = choose|k: int| table_at(ts, name, k);
    assert(table_at(ts, name, k));
}

/// The contents of a list of schemas.
pub open spec fn schemas_view(v: Seq<TableSchema>) -> Seq<TableSchemaV> {
    Seq::new(v.len(), |i: int| v[i]@)
}

/// The rows of a join: a left row, the matching right row (or all `Null`s),
/// and both rows' cells one after the other.
#[derive(Debug)]
pub struct JoinedRow {
    pub left: Row,
    pub right: Row,
    pub all_values: Vec<Value>,
}

/// A joined row as plain values.
pub struct JoinedRowV {
    pub left: Seq<ValueV>,
    pub right: Seq<ValueV>,
    pub all_values: Seq<ValueV>,
}

impl View for JoinedRow {
    type V = JoinedRowV;

    open spec fn view(&self) -> JoinedRowV {
        JoinedRowV { left: self.left@, right: self.right@, all_values: values_view(self.all_values@) }
    }
}

/// The joined row of `l` and `r`.
pub open spec fn joined(l: Seq<ValueV>, r: Seq<ValueV>) -> JoinedRowV {
    JoinedRowV { left: l, right: r, all_values: l + r }
}

/// A joined row lists the left row's cells, then the right row's, and
/// keeps both rows.
pub proof fn lemma_joined_cells(l: Seq<ValueV>, r: Seq<ValueV>)
    ensures
        joined(l, r).left == l,
        joined(l, r).right == r,
        joined(l, r).all_values.len() == l.len() + r.len(),
        forall|i: int| 0 <= i < l.len() ==> joined(l, r).all_values[i] == l[i],
        forall|i: int| 0 <= i < r.len() ==> joined(l, r).all_values[l.len() + i] == r[i],
{
}

impl JoinedRow {
    /// Joins two rows.
    pub fn new(left: Row, right: Row) -> (j: Self)
        ensures
            j@ == joined(left@, right@),
    {
        let mut all_values = copy_values(&left.values);
        let ghost lv = all_values@;
        let mut i: usize = 0;
        while i < right.values.len()
            invariant
                0 <= i <= right@.len(),
                values_view(all_values@) == left@ + right@.take(i as int),
            decreases right@.len() - i,
        {
            let ghost before = all_values@;
            all_values.push(right.values[i].copy());
            assert(values_view(all_values@) =~= values_view(before).push(right@[i as int]));
            assert(right@.take(i + 1) =~= right@.take(i as int).push(right@[i as int]));
            assert(left@ + right@.take(i + 1) =~= (left@ + right@.take(i as int)).push(right@[i as int]));
            i = i + 1;
        }
        assert(right@.take(right@.len() as int) =~= right@);
        JoinedRow { left, right, all_values }
    }
}

/// The kind of join.
#[derive(Debug, Clone, Copy, PartialEq, Eq, Structural)]
pub enum JoinType {
    Inner,
    LeftOuter,
}

impl Database {
    /// The schemas of the tables, in the order they are kept.
    pub closed spec fn tables(&self) -> Seq<TableSchemaV> {
        schemas_view(self.schemas@)
    }

    /// The bytes of the database file.
    pub closed spec fn image_view(&self) -> Seq<u8> {
        self.page_manager@.image
    }

    /// How many pages reads from the file may reach (the page count the
    /// file was opened or created with).
    pub closed spec fn file_page_count(&self) -> u64 {
        self.page_manager@.total_pages
    }

    /// The file header as last written.
    pub closed spec fn header_view(&self) -> FileHeaderV {
        self.header@
    }

    /// The page cache.
    pub closed spec fn cache_view(&self) -> PageCacheV {
        self.cache@
    }

    /// The bytes of page `n` as the database sees them: the cached copy when
    /// the page is cached, else the file's. The header page (page 0) is not
    /// counted as one of them: the header is written to the file behind the
    /// cache's back.
    pub closed spec fn stored(&self, n: u64) -> Option<Seq<u8>> {
        if n == 0 {
            None
        } else {
            store_of(self.cache@, self.page_manager@.image, n)
        }
    }

    /// The invariant of a database value.
    pub closed spec fn inv(&self) -> bool {
        &&& self.cache.inv()
        &&& pages_full(self.cache@.pages)
        &&& names_distinct(self.tables())
        &&& clean_agrees(self.cache@.pages, self.page_manager@.image)
    }

    /// A valid database keeps no two tables of one name.
    pub proof fn lemma_inv_names_distinct(&self)
        requires
            self.inv(),
        ensures
            names_distinct(self.tables()),
    {
    }

    /// A new database: a header page and nothing else.
    pub fn create() -> (r: Result<Self, DbError>)
        ensures
            r matches Ok(db) && db.inv() && db.tables().len() == 0 && db.header_view().total_pages == 1
                && db.header_view().schema_catalog_root == 0 && db.cache_view().capacity == DEFAULT_CACHE_SIZE
                && cache_writable(db.cache_view()),
    {
        let header = FileHeader::new();
        let mut page_manager = PageManager::new(Vec::new(), 1);
        let mut header_page = Page::from_data(0, header.serialize());
        header_page.mark_dirty();
        match page_manager.write_page(&header_page) {
            Ok(()) => {},
            Err(e) => return Err(e),
        }
        let db = Database { page_manager, cache: PageCache::new(DEFAULT_CACHE_SIZE), header, schemas: Vec::new() };
        assert(db.tables() =~= Seq::<TableSchemaV>::empty());
        Ok(db)
    }

    /// Opens a database from the bytes of its file: reads the header from
    /// page 0, then loads the schema catalog. Fails as reading page 0 fails
    /// (an image shorter than a page) or as decoding the header fails;
    /// otherwise gives the header read, no tables when there is no catalog,
    /// and else the tables that loading the catalog's entries records.
    pub fn open(image: Vec<u8>) -> (r: Result<Self, DbError>)
        ensures
            r matches Ok(db) ==> db.inv() && opened_from(db, image@),
            match crate::storage::page::read_page_result(
                crate::storage::page::PageManagerV { image: image@, total_pages: u64::MAX },
                0,
            ) {
                Err(e) => r matches Err(x) && x == e,
                Ok(b) => match crate::storage::file_header::decode_header(b) {
                    Err(e) => r matches Err(x) && x == e,
                    Ok(h) => {
                        &&& h.schema_catalog_root == 0 ==> (r matches Ok(db) && db.tables().len() == 0)
                        &&& r matches Ok(db) ==> db.header_view() == h && (
                        h.schema_catalog_root != 0 ==> exists|es: Seq<(Seq<u8>, Seq<u8>)>|
                            #[trigger] catalog_scanned(db, es) && load_tables(Seq::empty(), es) == Ok::<Seq<TableSchemaV>, DbError>(
                                db.tables(),
                            ))
                    },
                },
            },
    {
        let ghost image_v = image@;
        let mut probe = PageManager::new(image, u64::MAX);
        let header_page = match probe.read_page(0) {
            Ok(p) => p,
            Err(e) => return Err(e),
        };
        let header = match FileHeader::deserialize(header_page.as_bytes()) {
            Ok(h) => h,
            Err(e) => return Err(e),
        };
        let page_manager = PageManager::new(probe.into_image(), header.total_pages());
        let mut db = Database { page_manager, cache: PageCache::new(DEFAULT_CACHE_SIZE), header, schemas: Vec::new() };
        assert(db.tables() =~= Seq::<TableSchemaV>::empty());
        assert(opened_from(db, image_v));
        match db.load_schema_catalog() {
            Ok(()) => Ok(db),
            Err(e) => Err(e),
        }
    }

    /// The same database with an empty page cache of `size` pages (pages
    /// that were dirty in the old cache are dropped).
    pub fn with_cache_size(self, size: usize) -> (r: Self)
        requires
            self.inv(),
        ensures
            r.inv(),
            r.tables() == self.tables(),
            r.header_view() == self.header_view(),
            r.cache_view().pages.len() == 0,
            r.cache_view().capacity == size,
            r.image_view() == self.image_view(),
            forall|n: u64| n != 0 ==> #[trigger] r.stored(n) == image_page(self.image_view(), n),
    {
        let mut db = self;
        db.cache = PageCache::new(size);
        db
    }

    /// The bytes of the database file as the page file holds them.
    pub fn file_image(&self) -> (r: &[u8])
        ensures
            r@ == self.image_view(),
    {
        self.page_manager.image()
    }

    /// Number of pages of the file, according to the header.
    pub fn total_pages(&self) -> (r: u64)
        ensures
            r == self.header_view().total_pages,
    {
        self.header.total_pages()
    }

    /// Reads page `n`, from the cache or else from the file (caching it, and
    /// writing back the page that this evicts if it was dirty).
    fn read_page(&mut self, page_num: u64) -> (r: Result<Vec<u8>, DbError>)
        requires
            old(self).inv(),
        ensures
            final(self).inv(),
            final(self).tables() == old(self).tables(),
            final(self).header_view() == old(self).header_view(),
            r matches Ok(d) ==> d@.len() == PAGE_SIZE && (page_num != 0 ==> old(self).stored(page_num) == Some(d@)),
            r is Ok ==> pages_kept(*old(self), *final(self)),
            old(self).cache_view().lookup(page_num) matches Some(p) ==> r matches Ok(d) && d@ == p.data,
            page_readable(*old(self), page_num) ==> r is Ok,
            cache_writable(old(self).cache_view()) && r is Ok ==> cache_writable(final(self).cache_view()),
            final(self).file_page_count() == old(self).file_page_count(),
    {
        let cached = match self.cache.get(page_num) {
            Some(page) => Some(vstd::slice::slice_to_vec(page.as_bytes())),
            None => None,
        };
        match cached {
            Some(d) => {
                let ghost cv = self.cache@;
                proof {
                    let i = choose|i: int| page_at(cv.pages, page_num, i);
                    assert(cv.pages[i].data.len() == PAGE_SIZE);
                    assert forall|n: u64| #![trigger old(self).stored(n)] #![trigger self.stored(n)] n != 0 && old(self).stored(n) is Some implies self.stored(n) == old(self).stored(n) by {}
                }
                return Ok(d);
            },
            None => {},
        }
        let page = match self.page_manager.read_page(page_num) {
            Ok(p) => p,
            Err(e) => return Err(e),
        };
        let data = vstd::slice::slice_to_vec(page.as_bytes());
        let ghost c0 = self.cache@;
        let ghost i0 = self.page_manager@.image;
        let ghost pv = page@;
        let evicted = self.cache.insert(page);
        let ghost c1 = self.cache@;
        proof {
            assert forall|i: int| 0 <= i < c1.pages.len() implies (#[trigger] c1.pages[i]).data.len() == PAGE_SIZE by {
                if !(c1.pages[i] == pv) {
                    let j = choose|j: int| 0 <= j < c0.pages.len() && c0.pages[j] == c1.pages[i];
                    assert(c0.pages[j].data.len() == PAGE_SIZE);
                }
            }
        }
        let ghost ev = match &evicted {
            Some(e) => Some(e@),
            None => None,
        };
        let ghost i1 = match ev {
            Some(e) => if e.dirty {
                image_after_write(i0, e.page_num, e.data)
            } else {
                i0
            },
            None => i0,
        };
        proof {
            lemma_cache_insert_store(c0, i0, c1, i1, pv, ev);
        }
        match evicted {
            Some(e) => {
                if e.dirty {
                    match self.page_manager.write_page(&e) {
                        Ok(()) => {},
                        Err(err) => return Err(err),
                    }
                }
            },
            None => {},
        }
        assert(self.page_manager@.image == i1);
        proof {
            assert forall|n: u64| #![trigger old(self).stored(n)] #![trigger self.stored(n)] n != 0 && old(self).stored(n) is Some implies self.stored(n) == old(self).stored(n) by {
                assert(store_of(c1, i1, n) == self.stored(n));
                assert(store_of(c0, i0, n) == old(self).stored(n));
            }
        }
        Ok(data)
    }

    /// Puts page `n` with `data` in the cache, marked dirty (writing back the
    /// page that this evicts if it was dirty).
    fn write_page(&mut self, page_num: u64, data: &[u8]) -> (r: Result<(), DbError>)
        requires
            old(self).inv(),
            data@.len() == PAGE_SIZE,
        ensures
            final(self).inv(),
            final(self).tables() == old(self).tables(),
            final(self).header_view() == old(self).header_view(),
            final(self).cache_view().lookup(page_num) == Some(PageV { page_num, data: data@, dirty: true }),
            r is Ok ==> page_written(*old(self), *final(self), page_num, data@),
            cache_writable(old(self).cache_view()) ==> r is Ok,
            cache_writable(old(self).cache_view()) && write_in_range(page_num, PAGE_SIZE as nat) ==> cache_writable(
                final(self).cache_view(),
            ),
            final(self).file_page_count() == old(self).file_page_count(),
    {
        let mut page = Page::from_data(page_num, vstd::slice::slice_to_vec(data));
        page.mark_dirty();
        let ghost c0 = self.cache@;
        let ghost i0 = self.page_manager@.image;
        let ghost pv = page@;
        let evicted = self.cache.insert(page);
        let ghost c1 = self.cache@;
        proof {
            assert forall|i: int| 0 <= i < c1.pages.len() implies (#[trigger] c1.pages[i]).data.len() == PAGE_SIZE by {
                if !(c1.pages[i] == pv) {
                    let j = choose|j: int| 0 <= j < c0.pages.len() && c0.pages[j] == c1.pages[i];
                    assert(c0.pages[j].data.len() == PAGE_SIZE);
                }
            }
        }
        let ghost ev = match &evicted {
            Some(e) => Some(e@),
            None => None,
        };
        let ghost i1 = match ev {
            Some(e) => if e.dirty {
                image_after_write(i0, e.page_num, e.data)
            } else {
                i0
            },
            None => i0,
        };
        proof {
            lemma_cache_insert_store(c0, i0, c1, i1, pv, ev);
        }
        match evicted {
            Some(e) => {
                if e.dirty {
                    match self.page_manager.write_page(&e) {
                        Ok(()) => {},
                        Err(err) => return Err(err),
                    }
                }
            },
            None => {},
        }
        assert(self.page_manager@.image == i1);
        proof {
            assert(page_num != 0 ==> self.stored(page_num) == store_of(c1, i1, page_num));
            assert forall|m: u64| #![trigger old(self).stored(m)] #![trigger self.stored(m)] m != 0 && m != page_num && old(self).stored(m) is Some implies self.stored(m) == old(self).stored(m) by {
                assert(store_of(c1, i1, m) == self.stored(m));
                assert(store_of(c0, i0, m) == old(self).stored(m));
            }
        }
        Ok(())
    }

    /// Writes the header to page 0 of the file, bypassing the cache.
    fn flush_header(&mut self) -> (r: Result<(), DbError>)
        requires
            old(self).inv(),
        ensures
            final(self).inv(),
            final(self).tables() == old(self).tables(),
            final(self).header_view() == old(self).header_view(),
            final(self).cache_view() == old(self).cache_view(),
            pages_kept(*old(self), *final(self)),
            r is Ok,
            image_page(final(self).image_view(), 0) == Some(crate::storage::file_header::header_bytes(old(self).header_view())),
            final(self).file_page_count() == old(self).file_page_count(),
    {
        let mut header_page = Page::from_data(0, self.header.serialize());
        header_page.mark_dirty();
        let ghost i0 = self.page_manager@.image;
        let ghost hb = header_page@.data;
        let r = self.page_manager.write_page(&header_page);
        proof {
            let c = self.cache@;
            let i1 = self.page_manager@.image;
            assert(i1 == i0 || i1 == image_after_write(i0, 0, hb));
            assert forall|k: int| 0 <= k < c.pages.len() && (#[trigger] c.pages[k]).page_num != 0 && !c.pages[k].dirty implies image_page(i1, c.pages[k].page_num) == Some(c.pages[k].data) by {
                crate::storage::page::lemma_image_write_other(i0, 0, hb, c.pages[k].page_num);
            }
            assert forall|n: u64| #![trigger old(self).stored(n)] #![trigger self.stored(n)] n != 0 && old(self).stored(n) is Some implies self.stored(n) == old(self).stored(n) by {
                crate::storage::page::lemma_image_write_other(i0, 0, hb, n);
            }
            assert(write_in_range(0, PAGE_SIZE as nat));
            crate::storage::page::lemma_image_write_same(i0, 0, hb);
        }
        r
    }

    /// Appends a page of zeros, records the new page count in the header and
    /// writes the header; returns the new page's number.
    fn allocate_page(&mut self) -> (r: Result<u64, DbError>)
        requires
            old(self).inv(),
        ensures
            final(self).inv(),
            final(self).tables() == old(self).tables(),
            final(self).header_view().schema_catalog_root == old(self).header_view().schema_catalog_root,
            r matches Ok(p) ==> p == old(self).header_view().total_pages && final(self).header_view().total_pages == p + 1
                && page_written(*old(self), *final(self), p, zero_page()),
            final(self).header_view().total_pages >= old(self).header_view().total_pages,
            old(self).header_view().total_pages == u64::MAX ==> r == Err::<u64, DbError>(DbError::InvalidInput),
            old(self).header_view().total_pages < u64::MAX && cache_writable(old(self).cache_view()) ==> r is Ok,
            r is Ok ==> image_page(final(self).image_view(), 0) == Some(crate::storage::file_header::header_bytes(final(self).header_view())),
            cache_writable(old(self).cache_view()) && r is Ok && write_in_range(old(self).header_view().total_pages, PAGE_SIZE as nat)
                ==> cache_writable(final(self).cache_view()),
            final(self).file_page_count() == old(self).file_page_count(),
    {
        let page_num = self.header.total_pages();
        if page_num == u64::MAX {
            return Err(DbError::InvalidInput);
        }
        self.header.set_total_pages(page_num + 1);
        let ghost s0 = *self;
        assert(pages_kept(*old(self), s0));
        let empty = crate::codec::zeros(PAGE_SIZE);
        assert(empty@ =~= zero_page());
        match self.write_page(page_num, empty.as_slice()) {
            Ok(()) => {},
            Err(e) => return Err(e),
        }
        let ghost s1 = *self;
        match self.flush_header() {
            Ok(()) => {
                proof {
                    assert(s1.cache_view().lookup(page_num) is Some);
                    assert(self.stored(page_num) == s1.stored(page_num));
                    assert forall|m: u64| #![trigger old(self).stored(m)] #![trigger self.stored(m)] m != 0 && m != page_num && old(self).stored(m) is Some implies self.stored(m) == old(self).stored(m) by {
                        assert(s0.stored(m) == old(self).stored(m));
                        assert(s1.stored(m) == s0.stored(m));
                        assert(self.stored(m) == s1.stored(m));
                    }
                }
                Ok(page_num)
            },
            Err(e) => Err(e),
        }
    }

    /// Writes every dirty cached page to the file and marks them clean.
    fn flush_cache(&mut self) -> (r: Result<(), DbError>)
        requires
            old(self).inv(),
        ensures
            final(self).inv(),
            final(self).tables() == old(self).tables(),
            final(self).header_view() == old(self).header_view(),
            r is Ok ==> pages_kept(*old(self), *final(self)),
            r is Ok ==> on_file(*final(self)),
            cache_writable(old(self).cache_view()) ==> r is Ok,
            cache_writable(old(self).cache_view()) ==> cache_writable(final(self).cache_view()),
            final(self).file_page_count() == old(self).file_page_count(),
            r is Ok ==> forall|i: int| 0 <= i < final(self).cache_view().pages.len() ==> !(#[trigger] final(self).cache_view().pages[i]).dirty,
    {
        let dirty = self.cache.dirty_pages();
        let ghost c0 = self.cache@;
        let ghost dv = crate::storage::page::pages_view(dirty@);
        proof {
            assert forall|k: int| 0 <= k < dv.len() implies (#[trigger] dv[k]).dirty && c0.pages.contains(dv[k]) by {
                assert(dv.contains(dv[k]));
                c0.pages.lemma_filter_contains_rev(|p: PageV| p.dirty, dv[k]);
            }
        }
        let mut i: usize = 0;
        while i < dirty.len()
            invariant
                self.inv(),
                self.tables() == old(self).tables(),
                self.header_view() == old(self).header_view(),
                self.cache@ == c0,
                c0 == old(self).cache@,
                dv == crate::storage::page::pages_view(dirty@),
                dv == c0.pages.filter(|p: PageV| p.dirty),
                forall|k: int| 0 <= k < dv.len() ==> (#[trigger] dv[k]).dirty && c0.pages.contains(dv[k]),
                0 <= i <= dirty@.len(),
                pages_kept(*old(self), *self),
                forall|k: int| 0 <= k < i ==> image_page(self.page_manager@.image, (#[trigger] dv[k]).page_num) == Some(dv[k].data),
                self.file_page_count() == old(self).file_page_count(),
            decreases dirty@.len() - i,
        {
            let ghost i0 = self.page_manager@.image;
            let ghost s0 = *self;
            let ghost q = dv[i as int];
            assert(dirty@[i as int]@ == q);
            proof {
                let qj = choose|j: int| 0 <= j < c0.pages.len() && c0.pages[j] == q;
                assert(q.data.len() == PAGE_SIZE);
                crate::storage::page::lemma_lookup_at(c0, q.page_num, qj);
                if cache_writable(c0) {
                    assert(write_in_range(c0.pages[qj].page_num, c0.pages[qj].data.len()));
                }
            }
            match self.page_manager.write_page(&dirty[i]) {
                Ok(()) => {},
                Err(e) => return Err(e),
            }
            proof {
                let i1 = self.page_manager@.image;
                assert(i1 == image_after_write(i0, q.page_num, q.data));
                crate::storage::page::lemma_image_write_same(i0, q.page_num, q.data);
                assert forall|k: int| 0 <= k < c0.pages.len() && (#[trigger] c0.pages[k]).page_num != 0 && !c0.pages[k].dirty implies image_page(i1, c0.pages[k].page_num) == Some(c0.pages[k].data) by {
                    let qj = choose|j: int| 0 <= j < c0.pages.len() && c0.pages[j] == q;
                    assert(qj != k);
                    assert(c0.pages[k].page_num != q.page_num);
                    crate::storage::page::lemma_image_write_other(i0, q.page_num, q.data, c0.pages[k].page_num);
                }
                assert forall|k: int| 0 <= k < i + 1 implies image_page(i1, (#[trigger] dv[k]).page_num) == Some(dv[k].data) by {
                    if k < i {
                        let jk = choose|j: int| 0 <= j < c0.pages.len() && c0.pages[j] == dv[k];
                        crate::storage::page::lemma_lookup_at(c0, dv[k].page_num, jk);
                        if dv[k].page_num == q.page_num {
                            assert(dv[k] == q);
                        } else {
                            crate::storage::page::lemma_image_write_other(i0, q.page_num, q.data, dv[k].page_num);
                        }
                    }
                }
                assert forall|n: u64| #![trigger s0.stored(n)] #![trigger self.stored(n)] n != 0 && s0.stored(n) is Some implies self.stored(n) == s0.stored(n) by {
                    if n != q.page_num {
                        crate::storage::page::lemma_image_write_other(i0, q.page_num, q.data, n);
                    }
                }
                assert(pages_kept(s0, *self));
            }
            i = i + 1;
        }
        let ghost s1 = *self;
        self.cache.clear_dirty_flags();
        proof {
            if cache_writable(c0) {
                assert forall|k: int| 0 <= k < self.cache@.pages.len() implies write_in_range(
                    (#[trigger] self.cache@.pages[k]).page_num,
                    self.cache@.pages[k].data.len(),
                ) by {
                    assert(self.cache@.pages[k].data == c0.pages[k].data && self.cache@.pages[k].page_num == c0.pages[k].page_num);
                }
            }
            let img = self.page_manager@.image;
            let c1 = self.cache@;
            assert forall|k: int| 0 <= k < c1.pages.len() && (#[trigger] c1.pages[k]).page_num != 0 && !c1.pages[k].dirty implies image_page(img, c1.pages[k].page_num) == Some(c1.pages[k].data) by {
                let q = c0.pages[k];
                assert(c1.pages[k].data == q.data && c1.pages[k].page_num == q.page_num);
                if q.dirty {
                    c0.pages.lemma_filter_contains(|p: PageV| p.dirty, k);
                    assert(c0.pages.filter(|p: PageV| p.dirty).contains(q));
                    let kk = choose|kk: int| 0 <= kk < dv.len() && dv[kk] == q;
                    assert(image_page(img, dv[kk].page_num) == Some(dv[kk].data));
                }
            }
            assert forall|n: u64| #![trigger s1.stored(n)] #![trigger self.stored(n)] n != 0 && s1.stored(n) is Some implies self.stored(n) == s1.stored(n) by {
                assert(c1.lookup(n) == match c0.lookup(n) {
                    Some(p) => Some(PageV { dirty: false, ..p }),
                    None => None,
                });
            }
            assert forall|n: u64| n != 0 && #[trigger] self.stored(n) is Some implies image_page(self.image_view(), n) == self.stored(n) by {
                if holds_page(c1.pages, n) {
                    let k = choose|k: int| page_at(c1.pages, n, k);
                    crate::storage::page::lemma_lookup_at(c1, n, k);
                    assert(!c1.pages[k].dirty);
                }
            }
        }
        Ok(())
    }

    /// Writes all pending pages to the file: afterwards the file holds every
    /// page as the database sees it, and the pages are as they were.
    pub fn sync(&mut self) -> (r: Result<(), DbError>)
        requires
            old(self).inv(),
        ensures
            final(self).inv(),
            final(self).tables() == old(self).tables(),
            final(self).header_view() == old(self).header_view(),
            r is Ok ==> pages_kept(*old(self), *final(self)),
            r is Ok ==> on_file(*final(self)),
            cache_writable(old(self).cache_view()) ==> r is Ok,
            r is Ok ==> forall|i: int| 0 <= i < final(self).cache_view().pages.len() ==> !(#[trigger] final(self).cache_view().pages[i]).dirty,
    {
        self.flush_cache()
    }

    /// A page the database holds fills a page.
    proof fn lemma_stored_len(&self, n: u64)
        requires
            self.inv(),
        ensures
            self.stored(n) matches Some(b) ==> b.len() == PAGE_SIZE,
    {
        if n != 0 {
            match self.cache@.lookup(n) {
                Some(p) => {
                    let i = choose|i: int| page_at(self.cache@.pages, n, i);
                    assert(self.cache@.pages[i].data.len() == PAGE_SIZE);
                },
                None => {},
            }
        }
    }

    /// Reads and decodes page `n` as a leaf.
    fn read_leaf(&mut self, page_num: u64) -> (r: Result<LeafNode, DbError>)
        requires
            old(self).inv(),
        ensures
            final(self).inv(),
            final(self).tables() == old(self).tables(),
            final(self).header_view() == old(self).header_view(),
            r matches Ok(l) ==> l.keys@.len() == l.values@.len(),
            r is Ok ==> pages_kept(*old(self), *final(self)),
            r matches Ok(l) ==> (page_num != 0 ==> leaf_tagged(old(self).stored(page_num)) && crate::btree::leaf_node::decode_leaf(
                old(self).stored(page_num).unwrap(),
            ) == Ok::<crate::btree::leaf_node::LeafV, DbError>(l@)),
            page_num != 0 && page_readable(*old(self), page_num) ==> match crate::btree::leaf_node::decode_leaf(
                old(self).stored(page_num).unwrap(),
            ) {
                Ok(v) => r matches Ok(l) && l@ == v,
                Err(e) => r == Err::<LeafNode, DbError>(e),
            },
            cache_writable(old(self).cache_view()) && r is Ok ==> cache_writable(final(self).cache_view()),
            final(self).file_page_count() == old(self).file_page_count(),
    {
        let data = match self.read_page(page_num) {
            Ok(d) => d,
            Err(e) => return Err(e),
        };
        LeafNode::deserialize(data.as_slice())
    }

    /// Encodes a leaf into page `n`; fails with `InvalidInput` when the leaf
    /// does not fit in a page.
    fn write_leaf(&mut self, page_num: u64, leaf: &LeafNode) -> (r: Result<(), DbError>)
        requires
            old(self).inv(),
        ensures
            final(self).inv(),
            final(self).tables() == old(self).tables(),
            final(self).header_view() == old(self).header_view(),
            r is Ok ==> crate::btree::leaf_node::leaf_fits(leaf@) && page_written(*old(self), *final(self), page_num, crate::btree::leaf_node::leaf_bytes(leaf@)),
            !crate::btree::leaf_node::leaf_fits(leaf@) ==> r == Err::<(), DbError>(DbError::InvalidInput),
            crate::btree::leaf_node::leaf_fits(leaf@) && cache_writable(old(self).cache_view()) ==> r is Ok,
            cache_writable(old(self).cache_view()) && write_in_range(page_num, PAGE_SIZE as nat) ==> cache_writable(
                final(self).cache_view(),
            ),
            final(self).file_page_count() == old(self).file_page_count(),
    {
        if !leaf.fits_in_page() {
            return Err(DbError::InvalidInput);
        }
        let bytes = leaf.serialize();
        self.write_page(page_num, bytes.as_slice())
    }

    /// Encodes an internal node into page `n`; fails with `InvalidInput` when
    /// the node does not fit in a page.
    fn write_internal(&mut self, page_num: u64, node: &InternalNode) -> (r: Result<(), DbError>)
        requires
            old(self).inv(),
        ensures
            final(self).inv(),
            final(self).tables() == old(self).tables(),
            final(self).header_view() == old(self).header_view(),
            r is Ok ==> crate::btree::internal_node::internal_fits(node@) && page_written(
                *old(self),
                *final(self),
                page_num,
                crate::btree::internal_node::internal_bytes(node@),
            ),
            !crate::btree::internal_node::internal_fits(node@) ==> r == Err::<(), DbError>(DbError::InvalidInput),
            crate::btree::internal_node::internal_fits(node@) && cache_writable(old(self).cache_view()) ==> r is Ok,
            cache_writable(old(self).cache_view()) && write_in_range(page_num, PAGE_SIZE as nat) ==> cache_writable(
                final(self).cache_view(),
            ),
            final(self).file_page_count() == old(self).file_page_count(),
    {
        if !node.fits_in_page() {
            return Err(DbError::InvalidInput);
        }
        let bytes = node.serialize();
        self.write_page(page_num, bytes.as_slice())
    }
}

/// The child to descend into for `key`: the first separator above `key`,
/// or the last child.
pub open spec fn child_for(keys: Seq<Seq<u8>>, key: Seq<u8>, r: int) -> bool {
    &&& 0 <= r <= keys.len()
    &&& forall|j: int| 0 <= j < r ==> !lex_lt(key, keys[j])
    &&& r < keys.len() ==> lex_lt(key, keys[r])
}

/// The child that a descent for `key` takes: the position of the first
/// separator above `key`, or the last child.
pub open spec fn child_pos(keys: Seq<Seq<u8>>, key: Seq<u8>) -> int {
    choose|r: int| child_for(keys, key, r)
}

/// There is one child for a key, and `child_pos` names it.
pub proof fn lemma_child_pos(keys: Seq<Seq<u8>>, key: Seq<u8>, r: int)
    requires
        child_for(keys, key, r),
    ensures
        child_pos(keys, key) == r,
{
    let c = child_pos(keys, key);
    assert(child_for(keys, key, c));
    if c < r {
        assert(!lex_lt(key, keys[c]));
    } else if c > r {
        assert(!lex_lt(key, keys[r]));
    }
}

/// What a leaf gives for `key`, its keys scanned in order from position
/// `i`: the value of the first key equal to `key`, unless a key above `key`
/// comes first.
pub open spec fn leaf_scan(keys: Seq<Seq<u8>>, values: Seq<Seq<u8>>, key: Seq<u8>, i: int) -> Option<Seq<u8>>
    decreases keys.len() - i,
{
    if i < 0 || i >= keys.len() {
        None
    } else if keys[i] == key {
        Some(values[i])
    } else if lex_lt(key, keys[i]) {
        None
    } else {
        leaf_scan(keys, values, key, i + 1)
    }
}

/// A leaf whose keys from position `i` to before `pos` all come before
/// `key`, and whose key at `pos` is `key`, gives the value at `pos` when
/// scanned from `i`.
pub proof fn lemma_leaf_scan_finds(keys: Seq<Seq<u8>>, values: Seq<Seq<u8>>, key: Seq<u8>, pos: int, i: int)
    requires
        0 <= i <= pos < keys.len(),
        keys[pos] == key,
        forall|j: int| i <= j < pos ==> lex_lt(#[trigger] keys[j], key),
    ensures
        leaf_scan(keys, values, key, i) == Some(values[pos]),
    decreases pos - i,
{
    if i < pos {
        crate::codec::lemma_lex_order_flip(keys[i], key);
        assert(lex_lt(keys[i], key));
        lemma_leaf_scan_finds(keys, values, key, pos, i + 1);
    }
}

/// Scanning a leaf with an entry inserted at `pos` from one position past
/// `j` finds what scanning the leaf itself from `j` finds, for `j` at or
/// after `pos`.
proof fn lemma_scan_shifted(keys: Seq<Seq<u8>>, values: Seq<Seq<u8>>, k: Seq<u8>, v: Seq<u8>, pos: int, k2: Seq<u8>, j: int)
    requires
        keys.len() == values.len(),
        0 <= pos <= j <= keys.len(),
    ensures
        leaf_scan(keys.insert(pos, k), values.insert(pos, v), k2, j + 1) == leaf_scan(keys, values, k2, j),
    decreases keys.len() - j,
{
    if j < keys.len() {
        assert(keys.insert(pos, k)[j + 1] == keys[j]);
        assert(values.insert(pos, v)[j + 1] == values[j]);
        lemma_scan_shifted(keys, values, k, v, pos, k2, j + 1);
    }
}

/// Inserting `k` at its sorted position `pos` (every key before it comes
/// first, the key at it does not come before `k`) leaves what a scan for
/// any other key finds.
pub proof fn lemma_scan_insert_other(keys: Seq<Seq<u8>>, values: Seq<Seq<u8>>, k: Seq<u8>, v: Seq<u8>, pos: int, k2: Seq<u8>, i: int)
    requires
        keys.len() == values.len(),
        0 <= i <= pos <= keys.len(),
        forall|j: int| 0 <= j < pos ==> lex_lt(#[trigger] keys[j], k),
        pos < keys.len() ==> crate::codec::lex_le(k, keys[pos]),
        k2 != k,
    ensures
        leaf_scan(keys.insert(pos, k), values.insert(pos, v), k2, i) == leaf_scan(keys, values, k2, i),
    decreases pos - i,
{
    let nk = keys.insert(pos, k);
    let nv = values.insert(pos, v);
    if i < pos {
        assert(nk[i] == keys[i]);
        assert(nv[i] == values[i]);
        lemma_scan_insert_other(keys, values, k, v, pos, k2, i + 1);
    } else {
        assert(nk[pos] == k);
        crate::codec::lemma_lex_order_flip(k2, k);
        if lex_lt(k2, k) {
            if pos < keys.len() {
                crate::codec::lemma_lex_order_flip(k, keys[pos]);
                if k != keys[pos] {
                    crate::codec::lemma_lex_lt_transitive(k2, k, keys[pos]);
                }
                crate::codec::lemma_lex_order_flip(k2, keys[pos]);
            }
        } else {
            lemma_scan_shifted(keys, values, k, v, pos, k2, pos);
        }
    }
}

/// Replacing the value at a position whose key is not `k2` leaves what a
/// scan for `k2` finds.
pub proof fn lemma_scan_update_other(keys: Seq<Seq<u8>>, values: Seq<Seq<u8>>, v: Seq<u8>, pos: int, k2: Seq<u8>, i: int)
    requires
        keys.len() == values.len(),
        0 <= pos < keys.len(),
        keys[pos] != k2,
        0 <= i <= keys.len(),
    ensures
        leaf_scan(keys, values.update(pos, v), k2, i) == leaf_scan(keys, values, k2, i),
    decreases keys.len() - i,
{
    if i < keys.len() {
        if i != pos {
            assert(values.update(pos, v)[i] == values[i]);
        }
        lemma_scan_update_other(keys, values, v, pos, k2, i + 1);
    }
}

/// When only page `lf` differs between `a` and `b` among the pages `a`
/// holds, and as a leaf it answers `k2` alike in both, a lookup of `k2`
/// that succeeds on `a` gives the same on `b`.
pub proof fn lemma_lookup_other_leaf(
    a: Database,
    b: Database,
    p: u64,
    k2: Seq<u8>,
    fuel: nat,
    lf: u64,
    la: crate::btree::leaf_node::LeafV,
    lb: crate::btree::leaf_node::LeafV,
)
    requires
        forall|m: u64| #![trigger b.stored(m)] m != lf && a.stored(m) is Some ==> b.stored(m) == a.stored(m),
        lf != 0 ==> (a.stored(lf) matches Some(x) && crate::btree::leaf_node::decode_leaf(x) == Ok::<
            crate::btree::leaf_node::LeafV,
            DbError,
        >(la)),
        lf != 0 ==> (b.stored(lf) matches Some(y) && crate::btree::leaf_node::decode_leaf(y) == Ok::<
            crate::btree::leaf_node::LeafV,
            DbError,
        >(lb)),
        leaf_scan(lb.keys, lb.values, k2, 0) == leaf_scan(la.keys, la.values, k2, 0),
        tree_lookup(a, p, k2, fuel) is Some,
    ensures
        tree_lookup(b, p, k2, fuel) == tree_lookup(a, p, k2, fuel),
    decreases fuel,
{
    if p == lf && lf != 0 {
        let x = a.stored(lf).unwrap();
        let y = b.stored(lf).unwrap();
        assert(x[0] == NODE_LEAF);
        assert(y[0] == NODE_LEAF);
    } else {
        assert(a.stored(p) is Some);
        assert(b.stored(p) == a.stored(p));
        let bytes = a.stored(p).unwrap();
        if bytes[0] == NODE_INTERNAL {
            match crate::btree::internal_node::decode_internal(bytes) {
                Ok(n) => lemma_lookup_other_leaf(a, b, n.children[child_pos(n.keys, k2)], k2, (fuel - 1) as nat, lf, la, lb),
                Err(_) => {},
            }
        }
    }
}

/// Removing the entry at `pos` from a leaf whose keys come in order leaves
/// what a scan for any key other than the removed one finds.
pub proof fn lemma_scan_remove_other(keys: Seq<Seq<u8>>, values: Seq<Seq<u8>>, pos: int, k2: Seq<u8>, i: int)
    requires
        keys.len() == values.len(),
        0 <= i <= pos < keys.len(),
        keys_sorted(keys),
        keys[pos] != k2,
    ensures
        leaf_scan(keys.remove(pos), values.remove(pos), k2, i) == leaf_scan(keys, values, k2, i),
    decreases pos - i,
{
    let nk = keys.remove(pos);
    let nv = values.remove(pos);
    if i < pos {
        assert(nk[i] == keys[i]);
        assert(nv[i] == values[i]);
        lemma_scan_remove_other(keys, values, pos, k2, i + 1);
    } else {
        let k = keys[pos];
        crate::codec::lemma_lex_order_flip(k2, k);
        if lex_lt(k2, k) {
            if pos + 1 < keys.len() {
                assert(nk[pos] == keys[pos + 1]);
                assert(crate::codec::lex_le(k, keys[pos + 1]));
                crate::codec::lemma_lex_order_flip(k, keys[pos + 1]);
                if k != keys[pos + 1] {
                    crate::codec::lemma_lex_lt_transitive(k2, k, keys[pos + 1]);
                }
                crate::codec::lemma_lex_order_flip(k2, keys[pos + 1]);
            }
        } else {
            lemma_scan_unshifted(keys, values, pos, k2, pos);
        }
    }
}

/// Scanning a leaf with the entry at `pos` removed from `j` finds what
/// scanning the leaf itself from `j + 1` finds, for `j` at or after `pos`.
proof fn lemma_scan_unshifted(keys: Seq<Seq<u8>>, values: Seq<Seq<u8>>, pos: int, k2: Seq<u8>, j: int)
    requires
        keys.len() == values.len(),
        0 <= pos <= j < keys.len(),
    ensures
        leaf_scan(keys.remove(pos), values.remove(pos), k2, j) == leaf_scan(keys, values, k2, j + 1),
    decreases keys.len() - j,
{
    if j + 1 < keys.len() {
        assert(keys.remove(pos)[j] == keys[j + 1]);
        assert(values.remove(pos)[j] == values[j + 1]);
        lemma_scan_unshifted(keys, values, pos, k2, j + 1);
    }
}

/// The leaf that the descent for `key` reaches decodes and keeps its keys
/// in order.
pub open spec fn descent_leaf_sorted(db: Database, root: u64, key: Seq<u8>, fuel: nat) -> bool {
    match descent_leaf(db, root, key, fuel) {
        Some(lf) => match crate::btree::leaf_node::decode_leaf(db.stored(lf).unwrap()) {
            Ok(l) => keys_sorted(l.keys),
            Err(_) => false,
        },
        None => false,
    }
}

/// Rewriting only the leaf `lf` (read from `s1`, which keeps the pages of
/// `s0`) with a leaf that answers every key but `key` as before keeps every
/// lookup of another key that succeeded on `s0`.
proof fn lemma_leaf_write_keeps_others(
    s0: Database,
    s1: Database,
    s2: Database,
    s3: Database,
    root: u64,
    key: Seq<u8>,
    fuel: nat,
    lf: u64,
    before: crate::btree::leaf_node::LeafV,
    after: crate::btree::leaf_node::LeafV,
)
    requires
        pages_kept(s0, s1),
        pages_kept(s1, s2),
        page_written(s2, s3, lf, crate::btree::leaf_node::leaf_bytes(after)),
        crate::btree::leaf_node::leaf_fits(after),
        lf != 0 ==> (s1.stored(lf) matches Some(x) && crate::btree::leaf_node::decode_leaf(x) == Ok::<
            crate::btree::leaf_node::LeafV,
            DbError,
        >(before)),
        forall|k2: Seq<u8>| k2 != key ==> #[trigger] leaf_scan(after.keys, after.values, k2, 0) == leaf_scan(before.keys, before.values, k2, 0),
    ensures
        forall|k2: Seq<u8>|
            k2 != key && (#[trigger] tree_lookup(s0, root, k2, fuel)) is Some ==> tree_lookup(s3, root, k2, fuel) == tree_lookup(
                s0,
                root,
                k2,
                fuel,
            ),
{
    crate::btree::leaf_node::lemma_leaf_roundtrip(after);
    assert forall|m: u64| #![trigger s3.stored(m)] m != lf && s1.stored(m) is Some implies s3.stored(m) == s1.stored(m) by {
        assert(s2.stored(m) == s1.stored(m));
    }
    assert forall|k2: Seq<u8>| k2 != key && (#[trigger] tree_lookup(s0, root, k2, fuel)) is Some implies tree_lookup(s3, root, k2, fuel)
        == tree_lookup(s0, root, k2, fuel) by {
        lemma_lookup_kept(s0, s1, root, k2, fuel);
        assert(leaf_scan(after.keys, after.values, k2, 0) == leaf_scan(before.keys, before.values, k2, 0));
        lemma_lookup_other_leaf(s1, s3, root, k2, fuel, lf, before, after);
    }
}

/// What looking `key` up in the tree whose root is page `p` gives on the
/// pages of `db`, descending at most `fuel` levels: `Some` with the leaf's
/// answer, or `None` when the descent fails (a page that is not held, or is
/// not a node that decodes, or more levels than `fuel`).
pub open spec fn tree_lookup(db: Database, p: u64, key: Seq<u8>, fuel: nat) -> Option<Option<Seq<u8>>>
    decreases fuel,
{
    if fuel == 0 {
        None
    } else {
        match db.stored(p) {
            None => None,
            Some(b) => if b[0] == NODE_INTERNAL {
                match crate::btree::internal_node::decode_internal(b) {
                    Ok(n) => tree_lookup(db, n.children[child_pos(n.keys, key)], key, (fuel - 1) as nat),
                    Err(_) => None,
                }
            } else if b[0] == NODE_LEAF {
                match crate::btree::leaf_node::decode_leaf(b) {
                    Ok(l) => Some(leaf_scan(l.keys, l.values, key, 0)),
                    Err(_) => None,
                }
            } else {
                None
            },
        }
    }
}

/// The tree at `root` holds `v` for `key` on the pages of `db` (`None`: no
/// value), unless the descent for `key` passes through the header page.
pub open spec fn tree_holds(db: Database, root: u64, key: Seq<u8>, fuel: nat, v: Option<Seq<u8>>) -> bool {
    tree_lookup(db, root, key, fuel) == Some(v) || meets_header(db, root, key, fuel)
}

/// Reading pages keeps what a descent finds: where the descent on `a`
/// succeeds, the one on `b` finds the same; where it meets the header page,
/// so does the one on `b`.
pub proof fn lemma_lookup_kept(a: Database, b: Database, p: u64, key: Seq<u8>, fuel: nat)
    requires
        pages_kept(a, b),
    ensures
        tree_lookup(a, p, key, fuel) is Some ==> tree_lookup(b, p, key, fuel) == tree_lookup(a, p, key, fuel),
        meets_header(a, p, key, fuel) ==> meets_header(b, p, key, fuel),
    decreases fuel,
{
    if fuel > 0 && a.stored(p) is Some {
        assert(b.stored(p) == a.stored(p));
        let bytes = a.stored(p).unwrap();
        if bytes[0] == NODE_INTERNAL {
            match crate::btree::internal_node::decode_internal(bytes) {
                Ok(n) => lemma_lookup_kept(a, b, n.children[child_pos(n.keys, key)], key, (fuel - 1) as nat),
                Err(_) => {},
            }
        }
    }
}

/// The leaf page that the descent for `key` from page `p` reaches on the
/// pages of `db` within `fuel` levels, if it reaches one that decodes.
pub open spec fn descent_leaf(db: Database, p: u64, key: Seq<u8>, fuel: nat) -> Option<u64>
    decreases fuel,
{
    if fuel == 0 {
        None
    } else {
        match db.stored(p) {
            None => None,
            Some(b) => if b[0] == NODE_INTERNAL {
                match crate::btree::internal_node::decode_internal(b) {
                    Ok(n) => descent_leaf(db, n.children[child_pos(n.keys, key)], key, (fuel - 1) as nat),
                    Err(_) => None,
                }
            } else if b[0] == NODE_LEAF {
                match crate::btree::leaf_node::decode_leaf(b) {
                    Ok(_) => Some(p),
                    Err(_) => None,
                }
            } else {
                None
            },
        }
    }
}

/// The descent for `key` reaches a leaf whose keys are all different.
pub open spec fn descent_leaf_distinct(db: Database, root: u64, key: Seq<u8>, fuel: nat) -> bool {
    match descent_leaf(db, root, key, fuel) {
        Some(lf) => match crate::btree::leaf_node::decode_leaf(db.stored(lf).unwrap()) {
            Ok(l) => l.keys.no_duplicates(),
            Err(_) => false,
        },
        None => false,
    }
}

/// Reading pages keeps the leaf that a descent reaches.
pub proof fn lemma_descent_kept(a: Database, b: Database, p: u64, key: Seq<u8>, fuel: nat)
    requires
        pages_kept(a, b),
    ensures
        descent_leaf(a, p, key, fuel) is Some ==> descent_leaf(b, p, key, fuel) == descent_leaf(a, p, key, fuel),
        descent_leaf(a, p, key, fuel) is Some ==> !meets_header(a, p, key, fuel),
        descent_leaf(a, p, key, fuel) is Some ==> a.stored(descent_leaf(a, p, key, fuel).unwrap()) is Some,
    decreases fuel,
{
    if fuel > 0 && a.stored(p) is Some {
        assert(b.stored(p) == a.stored(p));
        let bytes = a.stored(p).unwrap();
        if bytes[0] == NODE_INTERNAL {
            match crate::btree::internal_node::decode_internal(bytes) {
                Ok(n) => lemma_descent_kept(a, b, n.children[child_pos(n.keys, key)], key, (fuel - 1) as nat),
                Err(_) => {},
            }
        }
    }
}

/// The pages that the descent for `key` from page `p` visits within `fuel`
/// levels, down to the leaf that it reaches, when that leaf decodes.
pub open spec fn descent_pages(db: Database, p: u64, key: Seq<u8>, fuel: nat) -> Option<Seq<u64>>
    decreases fuel,
{
    if fuel == 0 {
        None
    } else {
        match db.stored(p) {
            None => None,
            Some(b) => if b[0] == NODE_INTERNAL {
                match crate::btree::internal_node::decode_internal(b) {
                    Ok(n) => match descent_pages(db, n.children[child_pos(n.keys, key)], key, (fuel - 1) as nat) {
                        Some(ps) => Some(seq![p] + ps),
                        None => None,
                    },
                    Err(_) => None,
                }
            } else if b[0] == NODE_LEAF {
                match crate::btree::leaf_node::decode_leaf(b) {
                    Ok(_) => Some(seq![p]),
                    Err(_) => None,
                }
            } else {
                None
            },
        }
    }
}

/// A descent that reaches a leaf depends only on the pages it visits, finds
/// the same with more fuel, starts at its page and visits at most `fuel`
/// pages.
#[verifier::spinoff_prover]
pub proof fn lemma_descent_agrees(a: Database, x: Database, p: u64, key: Seq<u8>, fuel: nat, more: nat)
    requires
        descent_pages(a, p, key, fuel) is Some,
        agrees_on(x, a, descent_pages(a, p, key, fuel).unwrap()),
        fuel <= more,
    ensures
        descent_pages(x, p, key, more) == descent_pages(a, p, key, fuel),
        tree_lookup(x, p, key, more) == tree_lookup(a, p, key, fuel),
        tree_lookup(a, p, key, fuel) is Some,
        descent_pages(a, p, key, fuel).unwrap().len() <= fuel,
        descent_pages(a, p, key, fuel).unwrap()[0] == p,
    decreases fuel,
{
    let ps = descent_pages(a, p, key, fuel).unwrap();
    let b = a.stored(p).unwrap();
    assert(ps[0] == p);
    assert(x.stored(ps[0]) == a.stored(ps[0]));
    if b[0] == NODE_INTERNAL {
        let n = crate::btree::internal_node::decode_internal(b).unwrap();
        let c = n.children[child_pos(n.keys, key)];
        let rest = descent_pages(a, c, key, (fuel - 1) as nat).unwrap();
        assert(ps == seq![p] + rest);
        assert forall|i: int| 0 <= i < rest.len() implies x.stored(#[trigger] rest[i]) == a.stored(rest[i]) by {
            assert(rest[i] == ps[i + 1]);
        }
        lemma_descent_agrees(a, x, c, key, (fuel - 1) as nat, (more - 1) as nat);
    }
}

/// A descent that finds an answer visits pages down to a leaf.
pub proof fn lemma_lookup_descent(db: Database, p: u64, key: Seq<u8>, fuel: nat)
    requires
        tree_lookup(db, p, key, fuel) is Some,
    ensures
        descent_pages(db, p, key, fuel) is Some,
    decreases fuel,
{
    let b = db.stored(p).unwrap();
    if b[0] == NODE_INTERNAL {
        let n = crate::btree::internal_node::decode_internal(b).unwrap();
        lemma_lookup_descent(db, n.children[child_pos(n.keys, key)], key, (fuel - 1) as nat);
    }
}

/// One step of a descent for `key`: page `step.0` holds an internal node
/// whose child for `key` is at position `step.1` and is page `next`.
pub open spec fn descends(db: Database, step: (u64, usize), key: Seq<u8>, next: u64) -> bool {
    &&& internal_tagged(db.stored(step.0))
    &&& crate::btree::internal_node::decode_internal(db.stored(step.0).unwrap()) matches Ok(n)
    &&& child_for(n.keys, key, step.1 as int)
    &&& step.1 < n.children.len()
    &&& n.children[step.1 as int] == next
}

/// `path` is the descent for `key` from `root` down to page `last`: each
/// step's page and the child it takes.
pub open spec fn path_to(db: Database, root: u64, key: Seq<u8>, path: Seq<(u64, usize)>, last: u64) -> bool {
    &&& path.len() == 0 ==> root == last
    &&& path.len() > 0 ==> path[0].0 == root
    &&& forall|i: int|
        0 <= i < path.len() ==> descends(db, #[trigger] path[i], key, if i + 1 < path.len() {
            path[i + 1].0
        } else {
            last
        })
}

/// A path stays the descent on pages that agree with it on its pages.
pub proof fn lemma_path_agrees(a: Database, x: Database, root: u64, key: Seq<u8>, path: Seq<(u64, usize)>, last: u64)
    requires
        path_to(a, root, key, path, last),
        agrees_on(x, a, path_pages(path)),
    ensures
        path_to(x, root, key, path, last),
{
    assert forall|i: int| 0 <= i < path.len() implies descends(x, #[trigger] path[i], key, if i + 1 < path.len() {
        path[i + 1].0
    } else {
        last
    }) by {
        assert(path_pages(path)[i] == path[i].0);
        assert(x.stored(path[i].0) == a.stored(path[i].0));
    }
}

/// The descent from `root` follows `path` to `last` and goes on from there.
#[verifier::rlimit(30)]
#[verifier::spinoff_prover]
pub proof fn lemma_path_descent(db: Database, root: u64, key: Seq<u8>, path: Seq<(u64, usize)>, last: u64, f: nat)
    requires
        path_to(db, root, key, path, last),
        descent_pages(db, last, key, f) is Some,
    ensures
        descent_pages(db, root, key, f + path.len()) == Some(path_pages(path) + descent_pages(db, last, key, f).unwrap()),
        tree_lookup(db, root, key, f + path.len()) == tree_lookup(db, last, key, f),
    decreases path.len(),
{
    if path.len() == 0 {
        assert(path_pages(path) + descent_pages(db, last, key, f).unwrap() =~= descent_pages(db, last, key, f).unwrap());
    } else {
        let k = path.len() - 1;
        let pl = path[k];
        let pre = path.drop_last();
        assert(descends(db, path[k], key, last));
        let b = db.stored(pl.0).unwrap();
        lemma_child_pos(crate::btree::internal_node::decode_internal(b).unwrap().keys, key, pl.1 as int);
        assert(descent_pages(db, pl.0, key, f + 1) == Some(seq![pl.0] + descent_pages(db, last, key, f).unwrap()));
        assert forall|i: int| 0 <= i < pre.len() implies descends(db, #[trigger] pre[i], key, if i + 1 < pre.len() {
            pre[i + 1].0
        } else {
            pl.0
        }) by {
            assert(pre[i] == path[i]);
            assert(descends(db, path[i], key, if i + 1 < path.len() { path[i + 1].0 } else { last }));
        }
        assert(path_to(db, root, key, pre, pl.0));
        lemma_path_descent(db, root, key, pre, pl.0, f + 1);
        assert(f + 1 + pre.len() == f + path.len());
        assert(path_pages(path) =~= path_pages(pre).push(pl.0));
        assert(path_pages(pre) + (seq![pl.0] + descent_pages(db, last, key, f).unwrap()) =~= path_pages(path)
            + descent_pages(db, last, key, f).unwrap());
    }
}

/// A descent from `root` that reaches a leaf starts with the pages of any
/// path from `root`, then goes on as the descent from the path's end.
#[verifier::spinoff_prover]
pub proof fn lemma_path_prefix(db: Database, root: u64, key: Seq<u8>, path: Seq<(u64, usize)>, last: u64, f: nat)
    requires
        path_to(db, root, key, path, last),
        descent_pages(db, root, key, f) is Some,
    ensures
        f >= path.len(),
        descent_pages(db, last, key, (f - path.len()) as nat) is Some,
        descent_pages(db, root, key, f) == Some(path_pages(path) + descent_pages(db, last, key, (f - path.len()) as nat).unwrap()),
    decreases path.len(),
{
    if path.len() > 0 {
        let next = if 1 < path.len() { path[1].0 } else { last };
        assert(descends(db, path[0], key, next));
        lemma_child_pos(crate::btree::internal_node::decode_internal(db.stored(root).unwrap()).unwrap().keys, key, path[0].1 as int);
        let rest = path.drop_first();
        assert forall|i: int| 0 <= i < rest.len() implies descends(db, #[trigger] rest[i], key, if i + 1 < rest.len() {
            rest[i + 1].0
        } else {
            last
        }) by {
            assert(rest[i] == path[i + 1]);
            assert(descends(db, path[i + 1], key, if i + 2 < path.len() { path[i + 2].0 } else { last }));
        }
        assert(path_to(db, next, key, rest, last));
        assert(descent_pages(db, root, key, f) == Some(seq![root] + descent_pages(db, next, key, (f - 1) as nat).unwrap()));
        lemma_path_prefix(db, next, key, rest, last, (f - 1) as nat);
        assert(path_pages(path) =~= seq![root] + path_pages(rest));
        assert((f - 1 - rest.len()) as nat == (f - path.len()) as nat);
        assert(seq![root] + (path_pages(rest) + descent_pages(db, last, key, (f - path.len()) as nat).unwrap()) =~= path_pages(path)
            + descent_pages(db, last, key, (f - path.len()) as nat).unwrap());
    } else {
        assert(path_pages(path) + descent_pages(db, last, key, f).unwrap() =~= descent_pages(db, last, key, f).unwrap());
    }
}

/// Every page that a descent reaching a leaf visits is held, and none is the
/// header page, so the descent does not meet the header page.
pub proof fn lemma_descent_held(db: Database, p: u64, key: Seq<u8>, fuel: nat)
    requires
        descent_pages(db, p, key, fuel) is Some,
    ensures
        forall|i: int|
            0 <= i < descent_pages(db, p, key, fuel).unwrap().len() ==> db.stored(
                #[trigger] descent_pages(db, p, key, fuel).unwrap()[i],
            ) is Some && descent_pages(db, p, key, fuel).unwrap()[i] != 0,
        !meets_header(db, p, key, fuel),
    decreases fuel,
{
    let ps = descent_pages(db, p, key, fuel).unwrap();
    let b = db.stored(p).unwrap();
    if b[0] == NODE_INTERNAL {
        let n = crate::btree::internal_node::decode_internal(b).unwrap();
        let c = n.children[child_pos(n.keys, key)];
        let rest = descent_pages(db, c, key, (fuel - 1) as nat).unwrap();
        lemma_descent_held(db, c, key, (fuel - 1) as nat);
        assert(ps == seq![p] + rest);
        assert forall|i: int| 0 <= i < ps.len() implies db.stored(#[trigger] ps[i]) is Some && ps[i] != 0 by {
            if i > 0 {
                assert(ps[i] == rest[i - 1]);
            }
        }
    }
}

/// The last step of a path and the path before it.
pub proof fn lemma_path_pop(db: Database, root: u64, key: Seq<u8>, path: Seq<(u64, usize)>, last: u64)
    requires
        path_to(db, root, key, path, last),
        path.len() > 0,
    ensures
        path_to(db, root, key, path.drop_last(), path.last().0),
        descends(db, path.last(), key, last),
{
    let pre = path.drop_last();
    let k = path.len() - 1;
    assert(descends(db, path[k], key, last));
    assert forall|i: int| 0 <= i < pre.len() implies descends(db, #[trigger] pre[i], key, if i + 1 < pre.len() {
        pre[i + 1].0
    } else {
        path.last().0
    }) by {
        assert(pre[i] == path[i]);
        assert(descends(db, path[i], key, if i + 1 < path.len() { path[i + 1].0 } else { last }));
    }
}

/// After page `p` is written with internal node `x`, the descent from `p`
/// for `key` takes the child `sub` that `x` gives it and goes on as from
/// `sub` before.
pub proof fn lemma_node_written(
    a: Database,
    b: Database,
    p: u64,
    x: crate::btree::internal_node::InternalV,
    key: Seq<u8>,
    c: int,
    sub: u64,
    f: nat,
)
    requires
        p != 0,
        page_written(a, b, p, crate::btree::internal_node::internal_bytes(x)),
        crate::btree::internal_node::internal_fits(x),
        x.children.len() == x.keys.len() + 1,
        child_for(x.keys, key, c),
        x.children[c] == sub,
        descent_pages(a, sub, key, f) is Some,
        !descent_pages(a, sub, key, f).unwrap().contains(p),
    ensures
        descent_pages(b, p, key, f + 1) == Some(seq![p] + descent_pages(a, sub, key, f).unwrap()),
        tree_lookup(b, p, key, f + 1) == tree_lookup(a, sub, key, f),
{
    crate::btree::internal_node::lemma_internal_roundtrip(x);
    lemma_child_pos(x.keys, key, c);
    let ds = descent_pages(a, sub, key, f).unwrap();
    lemma_descent_held(a, sub, key, f);
    assert forall|i: int| 0 <= i < ds.len() implies b.stored(#[trigger] ds[i]) == a.stored(ds[i]) by {
        assert(ds[i] != p);
    }
    lemma_descent_agrees(a, b, sub, key, f, f);
    let bytes = crate::btree::internal_node::internal_bytes(x);
    assert(bytes[0] == crate::btree::internal_node::internal_body(x)[0]);
    assert(b.stored(p) == Some(bytes));
}

/// After page `p` is written with leaf `l`, holding `key` at `pos` after
/// keys below it, the descent from `p` for `key` stops there and finds the
/// value at `pos`.
pub proof fn lemma_leaf_written(a: Database, b: Database, p: u64, l: crate::btree::leaf_node::LeafV, key: Seq<u8>, pos: int)
    requires
        p != 0,
        page_written(a, b, p, crate::btree::leaf_node::leaf_bytes(l)),
        crate::btree::leaf_node::leaf_fits(l),
        0 <= pos < l.keys.len(),
        l.keys[pos] == key,
        forall|j: int| 0 <= j < pos ==> lex_lt(#[trigger] l.keys[j], key),
    ensures
        descent_pages(b, p, key, 1) == Some(seq![p]),
        tree_lookup(b, p, key, 1) == Some(Some(l.values[pos])),
{
    crate::btree::leaf_node::lemma_leaf_roundtrip(l);
    let bytes = crate::btree::leaf_node::leaf_bytes(l);
    assert(bytes[0] == crate::btree::leaf_node::leaf_body(l)[0]);
    lemma_leaf_scan_finds(l.keys, l.values, key, pos, 0);
}

/// Every page below the page count of `a` that `a` holds, but the pages
/// `ws`, `b` holds as `a` does.
pub open spec fn kept_outside(a: Database, b: Database, ws: Seq<u64>) -> bool {
    forall|m: u64|
        #![trigger b.stored(m)]
        m < a.header_view().total_pages && a.stored(m) is Some && !ws.contains(m) ==> b.stored(m) == a.stored(m)
}

/// The pages, other than new ones, that inserting `key` into the tree at
/// `root` may write: the pages of the descent for `key`, and the next leaf
/// of the leaf it reaches.
pub open spec fn insert_writes(db: Database, root: u64, key: Seq<u8>, fuel: nat) -> Seq<u64> {
    match descent_pages(db, root, key, fuel) {
        Some(ps) => match crate::btree::leaf_node::decode_leaf(db.stored(ps.last()).unwrap()) {
            Ok(l) => ps.push(l.next_leaf),
            Err(_) => ps,
        },
        None => Seq::empty(),
    }
}

/// The descent for `key` from `root` reaches a leaf within `f` levels
/// through pages below the page count, each of them new (at or above
/// `lim`) or one of the pages `orig`.
pub open spec fn new_descent(db: Database, root: u64, key: Seq<u8>, f: nat, lim: u64, orig: Seq<u64>) -> bool {
    descent_pages(db, root, key, f) matches Some(ps) && forall|i: int|
        0 <= i < ps.len() ==> (#[trigger] ps[i]) < db.header_view().total_pages && (ps[i] >= lim || orig.contains(ps[i]))
}

/// The catalog of `db` can take the schema of the table called `name`
/// along a descent that an insert can split: there is no catalog yet, or
/// the descent for the name in the catalog's tree is `split_ready`.
pub open spec fn catalog_ready(db: Database, name: Seq<char>) -> bool {
    let root = db.header_view().schema_catalog_root;
    root == 0 || split_ready(db, root, crate::codec::utf8_of(name), db.header_view().total_pages as nat)
}

/// The pages, other than new ones, that storing the schema of the table
/// called `name` may write: none without a catalog, else those that the
/// insert into the catalog's tree may write.
pub open spec fn catalog_writes(db: Database, name: Seq<char>) -> Seq<u64> {
    let root = db.header_view().schema_catalog_root;
    if root == 0 {
        Seq::empty()
    } else {
        insert_writes(db, root, crate::codec::utf8_of(name), db.header_view().total_pages as nat)
    }
}

/// No page is in both `a` and `b`.
pub open spec fn apart(a: Seq<u64>, b: Seq<u64>) -> bool {
    forall|i: int, j: int| 0 <= i < a.len() && 0 <= j < b.len() ==> a[i] != b[j]
}

/// The pages that an insert along a `split_ready` descent may write, other
/// than new ones, are below the page count (or are the page number 0 of a
/// missing next leaf).
proof fn lemma_insert_writes_below(db: Database, root: u64, key: Seq<u8>)
    requires
        split_ready(db, root, key, db.header_view().total_pages as nat),
    ensures
        forall|i: int|
            0 <= i < insert_writes(db, root, key, db.header_view().total_pages as nat).len() ==> #[trigger] insert_writes(
                db,
                root,
                key,
                db.header_view().total_pages as nat,
            )[i] < db.header_view().total_pages || insert_writes(db, root, key, db.header_view().total_pages as nat)[i] == 0,
{
    let ps = descent_pages(db, root, key, db.header_view().total_pages as nat).unwrap();
    let ws = insert_writes(db, root, key, db.header_view().total_pages as nat);
    assert forall|i: int| 0 <= i < ws.len() implies #[trigger] ws[i] < db.header_view().total_pages || ws[i] == 0 by {
        if i < ps.len() {
            assert(ws[i] == ps[i]);
        }
    }
}

/// A descent that an insert can split stays one, with the same pages to
/// write, where every page but the pages `ws`, which are apart from those,
/// is kept.
proof fn lemma_split_ready_kept(a: Database, b: Database, root: u64, key: Seq<u8>, ws: Seq<u64>)
    requires
        split_ready(a, root, key, a.header_view().total_pages as nat),
        kept_outside(a, b, ws),
        apart(insert_writes(a, root, key, a.header_view().total_pages as nat), ws),
        a.header_view().total_pages <= b.header_view().total_pages,
    ensures
        split_ready(b, root, key, b.header_view().total_pages as nat),
        insert_writes(b, root, key, b.header_view().total_pages as nat) == insert_writes(a, root, key, a.header_view().total_pages as nat),
{
    let fa = a.header_view().total_pages as nat;
    let fb = b.header_view().total_pages as nat;
    let ps = descent_pages(a, root, key, fa).unwrap();
    let iw = insert_writes(a, root, key, fa);
    lemma_descent_held(a, root, key, fa);
    assert forall|i: int| 0 <= i < ps.len() implies b.stored(#[trigger] ps[i]) == a.stored(ps[i]) by {
        assert(iw[i] == ps[i]);
        if ws.contains(ps[i]) {
            let j = choose|j: int| 0 <= j < ws.len() && ws[j] == ps[i];
            assert(iw[i] != ws[j]);
        }
    }
    lemma_descent_agrees(a, b, root, key, fa, fb);
    assert(b.stored(ps.last()) == a.stored(ps.last())) by {
        assert(ps.last() == ps[ps.len() - 1]);
    }
    assert forall|i: int| 0 <= i < ps.len() - 1 implies sorted_node(b.stored(#[trigger] ps[i])) by {}
}

/// The catalog can take the schema of table `t` after inserting `row`
/// without touching the pages of the inserts into the table's and its
/// indexes' trees: there is no catalog, or the catalog's descent for the
/// table's name is `split_ready` and the pages its insert may write are
/// apart from those that the other inserts may write.
pub open spec fn insert_apart(db: Database, t: TableSchemaV, row: Seq<ValueV>) -> bool {
    &&& catalog_ready(db, t.name)
    &&& apart(catalog_writes(db, t.name), table_writes(db, t, row))
    &&& forall|j: int| 0 <= j < t.indexes.len() ==> apart(catalog_writes(db, t.name), #[trigger] index_writes(db, t, row, j))
}

/// `a` and `b` have no page in common whichever comes first.
proof fn lemma_apart_sym(a: Seq<u64>, b: Seq<u64>)
    requires
        apart(a, b),
    ensures
        apart(b, a),
{
    assert forall|i: int, j: int| 0 <= i < b.len() && 0 <= j < a.len() implies b[i] != a[j] by {
        assert(a[j] != b[i]);
    }
}

/// Where an insert into table `t` stands after the table's tree took the
/// row and the first `k` indexes took their keys (on `s`, from `s0`): the
/// table's new tree at `new_root` holds `v` for `key` along pages of the
/// table's insert or new ones; the indexes still to come, and the catalog
/// when it is apart, are as ready as they were, with the same pages to
/// write.
spec fn insert_stage(
    s: Database,
    s0: Database,
    t: TableSchemaV,
    row: Seq<ValueV>,
    new_root: u64,
    key: Seq<u8>,
    v: Seq<u8>,
    k: int,
) -> bool {
    &&& tree_lookup(s, new_root, key, s.header_view().total_pages as nat) == Some(Some(v))
    &&& new_descent(s, new_root, key, s.header_view().total_pages as nat, s0.header_view().total_pages, table_writes(s0, t, row))
    &&& forall|j: int|
        k <= j < t.indexes.len() ==> #[trigger] index_ready(s, t, row, j) && index_writes(s, t, row, j) == index_writes(s0, t, row, j)
    &&& insert_apart(s0, t, row) ==> catalog_ready(s, t.name) && catalog_writes(s, t.name) == catalog_writes(s0, t.name)
    &&& s.header_view().total_pages >= s0.header_view().total_pages
    &&& s.header_view().schema_catalog_root == s0.header_view().schema_catalog_root
    &&& s.header_view().total_pages == s0.header_view().total_pages ==> forall|j: int|
        0 <= j < k ==> #[trigger] index_holds(s, t, row, j) && new_descent(
            s,
            t.indexes[j].root_page,
            index_key_of(t, t.indexes[j], row)->Ok_0,
            s.header_view().total_pages as nat,
            s0.header_view().total_pages,
            index_writes(s0, t, row, j),
        )
}

/// The indexes from `from` on stay as ready, with the same pages to write,
/// where only a set of pages apart from their writes changes.
proof fn lemma_indexes_kept(a: Database, b: Database, t: TableSchemaV, row: Seq<ValueV>, ws: Seq<u64>, from: int)
    requires
        0 <= from,
        forall|j: int| from <= j < t.indexes.len() ==> #[trigger] index_ready(a, t, row, j),
        kept_outside(a, b, ws),
        a.header_view().total_pages <= b.header_view().total_pages,
        forall|j: int| from <= j < t.indexes.len() ==> apart(#[trigger] index_writes(a, t, row, j), ws),
    ensures
        forall|j: int| from <= j < t.indexes.len() ==> #[trigger] index_ready(b, t, row, j),
        forall|j: int| from <= j < t.indexes.len() ==> #[trigger] index_writes(b, t, row, j) == index_writes(a, t, row, j),
{
    assert forall|j: int| from <= j < t.indexes.len() implies #[trigger] index_ready(b, t, row, j) by {
        lemma_index_kept(a, b, t, row, ws, j);
    }
    assert forall|j: int| from <= j < t.indexes.len() implies #[trigger] index_writes(b, t, row, j) == index_writes(a, t, row, j) by {
        lemma_index_kept(a, b, t, row, ws, j);
    }
}

/// One index stays as ready, with the same pages to write, where only a set
/// of pages apart from its writes changes.
proof fn lemma_index_kept(a: Database, b: Database, t: TableSchemaV, row: Seq<ValueV>, ws: Seq<u64>, j: int)
    requires
        0 <= j < t.indexes.len(),
        index_ready(a, t, row, j),
        kept_outside(a, b, ws),
        a.header_view().total_pages <= b.header_view().total_pages,
        apart(index_writes(a, t, row, j), ws),
    ensures
        index_ready(b, t, row, j),
        index_writes(b, t, row, j) == index_writes(a, t, row, j),
{
    let ik = index_key_of(t, t.indexes[j], row)->Ok_0;
    let root = t.indexes[j].root_page;
    assert(index_writes(a, t, row, j) == insert_writes(a, root, ik, a.header_view().total_pages as nat));
    lemma_split_ready_kept(a, b, root, ik, ws);
    assert(index_writes(b, t, row, j) == insert_writes(b, root, ik, b.header_view().total_pages as nat));
}

/// The catalog stays as ready, with the same pages to write, where only a
/// set of pages apart from them changes.
proof fn lemma_catalog_kept(a: Database, b: Database, name: Seq<char>, ws: Seq<u64>)
    requires
        catalog_ready(a, name),
        apart(catalog_writes(a, name), ws),
        kept_outside(a, b, ws),
        a.header_view().total_pages <= b.header_view().total_pages,
        a.header_view().schema_catalog_root == b.header_view().schema_catalog_root,
    ensures
        catalog_ready(b, name),
        catalog_writes(b, name) == catalog_writes(a, name),
{
    let root = a.header_view().schema_catalog_root;
    if root != 0 {
        lemma_split_ready_kept(a, b, root, crate::codec::utf8_of(name), ws);
    }
}

/// An insert's stage once the table's tree took the row (from `s0` through
/// reads to `s_b`, then the table insert to `s_c`).
proof fn lemma_stage_start(
    s0: Database,
    s_b: Database,
    s_c: Database,
    t: TableSchemaV,
    row: Seq<ValueV>,
    new_root: u64,
    key: Seq<u8>,
    v: Seq<u8>,
)
    requires
        insert_ready(s0, t, row),
        pk_key_of(t, row) == Ok::<Seq<u8>, DbError>(key),
        pages_kept(s0, s_b),
        s_b.header_view() == s0.header_view(),
        split_ready(s_b, t.root_page, key, s_b.header_view().total_pages as nat) ==> tree_lookup(
            s_c,
            new_root,
            key,
            s_c.header_view().total_pages as nat,
        ) == Some(Some(v)) && new_descent(
            s_c,
            new_root,
            key,
            s_c.header_view().total_pages as nat,
            s_b.header_view().total_pages,
            insert_writes(s_b, t.root_page, key, s_b.header_view().total_pages as nat),
        ),
        split_ready(s_b, t.root_page, key, s_b.header_view().total_pages as nat) ==> kept_outside(
            s_b,
            s_c,
            insert_writes(s_b, t.root_page, key, s_b.header_view().total_pages as nat),
        ),
        s_c.header_view().total_pages >= s_b.header_view().total_pages,
        s_c.header_view().schema_catalog_root == s_b.header_view().schema_catalog_root,
    ensures
        insert_stage(s_c, s0, t, row, new_root, key, v, 0),
{
    let tws = table_writes(s0, t, row);
    assert forall|m: u64| #![trigger s_b.stored(m)] m < s0.header_view().total_pages && s0.stored(m) is Some && !Seq::<u64>::empty().contains(
        m,
    ) implies s_b.stored(m) == s0.stored(m) by {}
    lemma_split_ready_kept(s0, s_b, t.root_page, key, Seq::empty());
    assert(table_writes(s_b, t, row) == tws);
    assert forall|j: int| 0 <= j < t.indexes.len() implies apart(#[trigger] index_writes(s0, t, row, j), Seq::<u64>::empty()) by {}
    lemma_indexes_kept(s0, s_b, t, row, Seq::empty(), 0);
    assert forall|j: int| 0 <= j < t.indexes.len() implies apart(#[trigger] index_writes(s_b, t, row, j), tws) by {
        assert(index_writes(s_b, t, row, j) == index_writes(s0, t, row, j));
        assert(apart(index_writes(s0, t, row, j), table_writes(s0, t, row)));
    }
    lemma_indexes_kept(s_b, s_c, t, row, tws, 0);
    if insert_apart(s0, t, row) {
        lemma_catalog_kept(s0, s_b, t.name, Seq::empty());
        lemma_catalog_kept(s_b, s_c, t.name, tws);
    }
}

/// An insert's stage after index `k` took its key (from `s` to `s2`).
#[verifier::spinoff_prover]
#[verifier::rlimit(40)]
proof fn lemma_stage_step(
    s: Database,
    s2: Database,
    s0: Database,
    t: TableSchemaV,
    row: Seq<ValueV>,
    new_root: u64,
    key: Seq<u8>,
    v: Seq<u8>,
    k: int,
    nr: u64,
)
    requires
        insert_ready(s0, t, row),
        pk_key_of(t, row) == Ok::<Seq<u8>, DbError>(key),
        insert_stage(s, s0, t, row, new_root, key, v, k),
        0 <= k < t.indexes.len(),
        kept_outside(s, s2, index_writes(s, t, row, k)),
        s2.header_view().total_pages >= s.header_view().total_pages,
        s2.header_view().schema_catalog_root == s.header_view().schema_catalog_root,
        tree_lookup(s2, nr, index_key_of(t, t.indexes[k], row)->Ok_0, s2.header_view().total_pages as nat) == Some(Some(key)),
        new_descent(
            s2,
            nr,
            index_key_of(t, t.indexes[k], row)->Ok_0,
            s2.header_view().total_pages as nat,
            s.header_view().total_pages,
            index_writes(s, t, row, k),
        ),
        s2.header_view().total_pages == s.header_view().total_pages ==> nr == t.indexes[k].root_page,
    ensures
        insert_stage(s2, s0, t, row, new_root, key, v, k + 1),
{
    let iws = index_writes(s0, t, row, k);
    let tws = table_writes(s0, t, row);
    assert(index_ready(s, t, row, k));
    assert(index_ready(s0, t, row, k));
    let ik = index_key_of(t, t.indexes[k], row).unwrap();
    lemma_insert_writes_below(s0, t.indexes[k].root_page, ik);
    assert(apart(iws, tws));
    let fs = s.header_view().total_pages as nat;
    let nps = descent_pages(s, new_root, key, fs).unwrap();
    lemma_descent_held(s, new_root, key, fs);
    assert forall|i: int| 0 <= i < nps.len() implies s2.stored(#[trigger] nps[i]) == s.stored(nps[i]) by {
        if iws.contains(nps[i]) {
            let j = choose|j: int| 0 <= j < iws.len() && iws[j] == nps[i];
            if nps[i] >= s0.header_view().total_pages {
                assert(iws[j] < s0.header_view().total_pages || iws[j] == 0);
            } else {
                assert(tws.contains(nps[i]));
                let jj = choose|jj: int| 0 <= jj < tws.len() && tws[jj] == nps[i];
                assert(iws[j] != tws[jj]);
            }
        }
    }
    lemma_descent_agrees(s, s2, new_root, key, fs, s2.header_view().total_pages as nat);
    assert forall|j: int| k + 1 <= j < t.indexes.len() implies apart(#[trigger] index_writes(s, t, row, j), iws) by {
        assert(index_ready(s, t, row, j));
        assert(index_writes(s, t, row, j) == index_writes(s0, t, row, j));
        assert(apart(index_writes(s0, t, row, k), index_writes(s0, t, row, j)));
        lemma_apart_sym(index_writes(s0, t, row, k), index_writes(s0, t, row, j));
    }
    assert forall|j: int| k + 1 <= j < t.indexes.len() implies #[trigger] index_ready(s, t, row, j) by {}
    lemma_indexes_kept(s, s2, t, row, iws, k + 1);
    assert forall|j: int| k + 1 <= j < t.indexes.len() implies #[trigger] index_ready(s2, t, row, j) && index_writes(s2, t, row, j)
        == index_writes(s0, t, row, j) by {
        assert(index_ready(s, t, row, j));
        assert(index_writes(s, t, row, j) == index_writes(s0, t, row, j));
    }
    if insert_apart(s0, t, row) {
        assert(apart(catalog_writes(s0, t.name), iws));
        lemma_catalog_kept(s, s2, t.name, iws);
    }
    if s2.header_view().total_pages == s0.header_view().total_pages {
        assert forall|j: int| 0 <= j < k + 1 implies #[trigger] index_holds(s2, t, row, j) && new_descent(
            s2,
            t.indexes[j].root_page,
            index_key_of(t, t.indexes[j], row)->Ok_0,
            s2.header_view().total_pages as nat,
            s0.header_view().total_pages,
            index_writes(s0, t, row, j),
        ) by {
            if j < k {
                assert(index_holds(s, t, row, j));
                lemma_entry_kept(s, s2, s0, t, row, j, k);
            }
        }
    }
}

/// An index entry that the insert of an earlier index left is kept through
/// the insert into index `k`, whose writes are apart from its pages.
proof fn lemma_entry_kept(s: Database, s2: Database, s0: Database, t: TableSchemaV, row: Seq<ValueV>, j: int, k: int)
    requires
        insert_ready(s0, t, row),
        0 <= j < k < t.indexes.len(),
        s.header_view().total_pages == s0.header_view().total_pages,
        s2.header_view().total_pages == s0.header_view().total_pages,
        index_holds(s, t, row, j),
        new_descent(
            s,
            t.indexes[j].root_page,
            index_key_of(t, t.indexes[j], row)->Ok_0,
            s.header_view().total_pages as nat,
            s0.header_view().total_pages,
            index_writes(s0, t, row, j),
        ),
        kept_outside(s, s2, index_writes(s0, t, row, k)),
    ensures
        index_holds(s2, t, row, j),
        new_descent(
            s2,
            t.indexes[j].root_page,
            index_key_of(t, t.indexes[j], row)->Ok_0,
            s2.header_view().total_pages as nat,
            s0.header_view().total_pages,
            index_writes(s0, t, row, j),
        ),
{
    let ik = index_key_of(t, t.indexes[j], row)->Ok_0;
    let root = t.indexes[j].root_page;
    let f = s.header_view().total_pages as nat;
    let ps = descent_pages(s, root, ik, f).unwrap();
    let wj = index_writes(s0, t, row, j);
    let wk = index_writes(s0, t, row, k);
    assert(apart(wj, wk));
    lemma_descent_held(s, root, ik, f);
    assert forall|i: int| 0 <= i < ps.len() implies s2.stored(#[trigger] ps[i]) == s.stored(ps[i]) by {
        assert(wj.contains(ps[i]));
        if wk.contains(ps[i]) {
            let a = choose|a: int| 0 <= a < wj.len() && wj[a] == ps[i];
            let b = choose|b: int| 0 <= b < wk.len() && wk[b] == ps[i];
            assert(wj[a] != wk[b]);
        }
    }
    lemma_descent_agrees(s, s2, root, ik, f, f);
}

/// When an insert moved the root of a table's tree and then stored the
/// table's schema in the catalog, what the new tree held for the key before
/// the catalog was written, it holds after.
proof fn lemma_root_moved(
    s0: Database,
    s_i: Database,
    s_p: Database,
    sf: Database,
    t: TableSchemaV,
    row: Seq<ValueV>,
    key: Seq<u8>,
    v: Seq<u8>,
    new_root: u64,
)
    requires
        insert_ready(s0, t, row),
        insert_apart(s0, t, row),
        pk_key_of(t, row) == Ok::<Seq<u8>, DbError>(key),
        insert_stage(s_i, s0, t, row, new_root, key, v, t.indexes.len() as int),
        pages_kept(s_i, s_p),
        s_p.header_view() == s_i.header_view(),
        catalog_ready(s_p, t.name) ==> kept_outside(s_p, sf, catalog_writes(s_p, t.name)),
        sf.header_view().total_pages >= s_p.header_view().total_pages,
    ensures
        tree_lookup(sf, new_root, key, sf.header_view().total_pages as nat) == Some(Some(v)),
{
    let tws = table_writes(s0, t, row);
    let cws = catalog_writes(s0, t.name);
    let croot = s0.header_view().schema_catalog_root;
    let nk = crate::codec::utf8_of(t.name);
    assert forall|m: u64| #![trigger s_p.stored(m)] m < s_i.header_view().total_pages && s_i.stored(m) is Some && !Seq::<u64>::empty().contains(
        m,
    ) implies s_p.stored(m) == s_i.stored(m) by {}
    if croot != 0 {
        lemma_catalog_kept(s_i, s_p, t.name, Seq::empty());
        lemma_insert_writes_below(s0, croot, nk);
    }
    assert(catalog_writes(s_p, t.name) == cws);
    let fi = s_i.header_view().total_pages as nat;
    let nps = descent_pages(s_i, new_root, key, fi).unwrap();
    lemma_descent_held(s_i, new_root, key, fi);
    assert forall|i: int| 0 <= i < nps.len() implies sf.stored(#[trigger] nps[i]) == s_i.stored(nps[i]) by {
        if cws.contains(nps[i]) {
            let j = choose|j: int| 0 <= j < cws.len() && cws[j] == nps[i];
            if nps[i] >= s0.header_view().total_pages {
                assert(cws[j] < s0.header_view().total_pages || cws[j] == 0);
            } else {
                assert(tws.contains(nps[i]));
                let k = choose|k: int| 0 <= k < tws.len() && tws[k] == nps[i];
                assert(cws[j] != tws[k]);
            }
        }
        assert(s_p.stored(nps[i]) == s_i.stored(nps[i]));
    }
    lemma_descent_agrees(s_i, sf, new_root, key, fi, sf.header_view().total_pages as nat);
}

/// What a split below a path leaves for the descent for `key`: the page
/// `sub` now leads the descent to value `v` within `f` levels, through
/// pages below the page count that the path above does not visit, each of
/// them new (at or above `lim`) or one of the pages `orig`.
spec fn below_ok(db: Database, sub: u64, key: Seq<u8>, v: Seq<u8>, f: nat, above: Seq<u64>, lim: u64, orig: Seq<u64>) -> bool {
    &&& tree_lookup(db, sub, key, f) == Some(Some(v))
    &&& descent_pages(db, sub, key, f) matches Some(ps)
    &&& forall|i: int|
        0 <= i < ps.len() ==> (#[trigger] ps[i]) < db.header_view().total_pages && !above.contains(ps[i]) && (ps[i] >= lim
            || orig.contains(ps[i]))
}

/// What `propagate_split` needs for the descent for `key` to find `v` in
/// the tree it leaves: `path` is the descent from `root` to the page
/// `left` that was split into `left` and `right` around separator `sep`;
/// its pages are distinct, below `lim`, among `orig` and hold ordered keys,
/// and below the split the descent finds `v` on the side that `sep` sends
/// `key` to.
spec fn propagate_ready(
    db: Database,
    path: Seq<(u64, usize)>,
    sep: Seq<u8>,
    left: u64,
    right: u64,
    root: u64,
    key: Seq<u8>,
    v: Seq<u8>,
    f: nat,
    lim: u64,
    orig: Seq<u64>,
) -> bool {
    &&& lim <= db.header_view().total_pages
    &&& path_to(db, root, key, path, left)
    &&& forall|i: int| 0 <= i < path.len() ==> (#[trigger] path[i]).0 < lim && sorted_node(db.stored(path[i].0)) && orig.contains(path[i].0)
    &&& path_pages(path).no_duplicates()
    &&& f >= 1
    &&& below_ok(db, if lex_lt(key, sep) { left } else { right }, key, v, f, path_pages(path), lim, orig)
}

/// What `split_and_propagate` needs for the descent for `key` to find `v`
/// in the tree it leaves: `path` is the descent from `root` to the leaf
/// page `leaf_page`, which is to hold the entries of `l`; the pages are
/// distinct, below `lim`, and the path's nodes hold ordered keys; the next
/// leaf is none or another page below `lim` off the path; the path's pages
/// and the leaf page are among `orig`; and `l` holds `key` with value `v`
/// at `pos`, its other keys below `key` before it and above it after it.
spec fn leaf_split_ready(
    db: Database,
    leaf_page: u64,
    l: crate::btree::leaf_node::LeafV,
    path: Seq<(u64, usize)>,
    root: u64,
    key: Seq<u8>,
    v: Seq<u8>,
    pos: int,
    lim: u64,
    orig: Seq<u64>,
) -> bool {
    &&& lim <= db.header_view().total_pages
    &&& path_to(db, root, key, path, leaf_page)
    &&& forall|i: int| 0 <= i < path.len() ==> (#[trigger] path[i]).0 < lim && sorted_node(db.stored(path[i].0)) && orig.contains(path[i].0)
    &&& orig.contains(leaf_page)
    &&& path_pages(path).no_duplicates()
    &&& !path_pages(path).contains(leaf_page)
    &&& 0 < leaf_page < lim
    &&& (l.next_leaf == 0 || (l.next_leaf < lim && l.next_leaf != leaf_page && !path_pages(path).contains(l.next_leaf)))
    &&& 0 <= pos < l.keys.len()
    &&& l.keys[pos] == key
    &&& l.values[pos] == v
    &&& forall|j: int| 0 <= j < pos ==> lex_lt(#[trigger] l.keys[j], key)
    &&& forall|j: int| pos < j < l.keys.len() ==> lex_lt(key, #[trigger] l.keys[j])
}

/// What an insert learns of a descent that `split_ready` accepts, once it
/// has followed the descent to the leaf (on `s1`) and read the leaf `l`
/// (reaching `s2`): the path and the leaf are the descent's pages, with the
/// properties that `split_ready` gives them.
#[verifier::spinoff_prover]
proof fn lemma_insert_descent(
    s0: Database,
    s1: Database,
    s2: Database,
    root: u64,
    key: Seq<u8>,
    fuel0: nat,
    leaf_page: u64,
    path: Seq<(u64, usize)>,
    l: crate::btree::leaf_node::LeafV,
)
    requires
        split_ready(s0, root, key, fuel0),
        fuel0 == s0.header_view().total_pages,
        pages_kept(s0, s1),
        pages_kept(s1, s2),
        s1.header_view() == s0.header_view(),
        s2.header_view() == s0.header_view(),
        path_to(s1, root, key, path, leaf_page) || meets_header(s1, root, key, fuel0),
        leaf_page != 0 ==> leaf_tagged(s1.stored(leaf_page)) && crate::btree::leaf_node::decode_leaf(s1.stored(leaf_page).unwrap())
            == Ok::<crate::btree::leaf_node::LeafV, DbError>(l),
    ensures
        leaf_page != 0,
        path_to(s1, root, key, path, leaf_page),
        path_to(s2, root, key, path, leaf_page),
        descent_pages(s0, root, key, fuel0) == Some(path_pages(path).push(leaf_page)),
        crate::btree::leaf_node::decode_leaf(s0.stored(leaf_page).unwrap()) == Ok::<crate::btree::leaf_node::LeafV, DbError>(l),
        insert_writes(s0, root, key, fuel0) == path_pages(path).push(leaf_page).push(l.next_leaf),
        path.len() + 1 <= fuel0,
        forall|i: int| 0 <= i < path.len() ==> (#[trigger] path[i]).0 < fuel0 && sorted_node(s2.stored(path[i].0)),
        path_pages(path).no_duplicates(),
        !path_pages(path).contains(leaf_page),
        leaf_page < fuel0,
        keys_sorted(l.keys),
        l.next_leaf == 0 || (l.next_leaf < fuel0 && l.next_leaf != leaf_page && !path_pages(path).contains(l.next_leaf)),
{
    let ps = descent_pages(s0, root, key, fuel0).unwrap();
    lemma_descent_held(s0, root, key, fuel0);
    assert forall|i: int| 0 <= i < ps.len() implies s1.stored(#[trigger] ps[i]) == s0.stored(ps[i]) by {}
    lemma_descent_agrees(s0, s1, root, key, fuel0, fuel0);
    lemma_descent_held(s1, root, key, fuel0);
    lemma_path_prefix(s1, root, key, path, leaf_page, fuel0);
    let f2 = (fuel0 - path.len()) as nat;
    let rest = descent_pages(s1, leaf_page, key, f2).unwrap();
    lemma_descent_held(s1, leaf_page, key, f2);
    lemma_descent_agrees(s1, s1, leaf_page, key, f2, f2);
    assert(rest[0] == leaf_page);
    assert(leaf_page != 0);
    assert(rest == seq![leaf_page]);
    let pp = path_pages(path);
    assert(ps == pp + seq![leaf_page]);
    assert(ps =~= pp.push(leaf_page));
    assert forall|i: int| 0 <= i < path.len() implies (#[trigger] path[i]).0 < fuel0 && sorted_node(s2.stored(path[i].0)) by {
        assert(ps[i] == pp[i]);
        assert(pp[i] == path[i].0);
        assert(s2.stored(ps[i]) == s0.stored(ps[i]));
    }
    assert(pp.no_duplicates()) by {
        assert forall|i: int, j: int| 0 <= i < pp.len() && 0 <= j < pp.len() && i != j implies pp[i] != pp[j] by {
            assert(ps[i] == pp[i] && ps[j] == pp[j]);
        }
    }
    assert(!pp.contains(leaf_page)) by {
        if pp.contains(leaf_page) {
            let j = choose|j: int| 0 <= j < pp.len() && pp[j] == leaf_page;
            assert(ps[j] == leaf_page && ps[pp.len() as int] == leaf_page);
        }
    }
    assert(ps.last() == leaf_page);
    assert(ps[pp.len() as int] == leaf_page);
    assert(s0.stored(leaf_page) == s1.stored(leaf_page));
    if l.next_leaf != 0 {
        assert(!ps.contains(l.next_leaf));
        if pp.contains(l.next_leaf) {
            let j = choose|j: int| 0 <= j < pp.len() && pp[j] == l.next_leaf;
            assert(ps[j] == l.next_leaf);
        }
        if l.next_leaf == leaf_page {
            assert(ps[pp.len() as int] == l.next_leaf);
        }
    }
    assert forall|i: int| 0 <= i < pp.len() implies s2.stored(#[trigger] pp[i]) == s1.stored(pp[i]) by {
        assert(ps[i] == pp[i]);
    }
    lemma_path_agrees(s1, s2, root, key, path, leaf_page);
}

/// A descent through old pages that all come first among `ws` is a new
/// descent in the sense of `new_descent`.
proof fn lemma_same_descent_new(db: Database, root: u64, key: Seq<u8>, ps: Seq<u64>, lim: u64, ws: Seq<u64>)
    requires
        descent_pages(db, root, key, db.header_view().total_pages as nat) == Some(ps),
        ps.len() <= ws.len(),
        forall|i: int| 0 <= i < ps.len() ==> ws[i] == ps[i] && (#[trigger] ps[i]) < lim,
        lim <= db.header_view().total_pages,
    ensures
        new_descent(db, root, key, db.header_view().total_pages as nat, lim, ws),
{
    assert forall|i: int| 0 <= i < ps.len() implies (#[trigger] ps[i]) < db.header_view().total_pages && (ps[i] >= lim || ws.contains(
        ps[i],
    )) by {
        assert(ws[i] == ps[i]);
    }
}

/// Rewriting one leaf page among the pages `ws` keeps every other page below
/// the page count.
proof fn lemma_leaf_frame(s0: Database, s2: Database, s3: Database, leaf_page: u64, ws: Seq<u64>)
    requires
        pages_kept(s0, s2),
        ws.contains(leaf_page),
        forall|m: u64| #![trigger s3.stored(m)] m != leaf_page && s2.stored(m) is Some ==> s3.stored(m) == s2.stored(m),
    ensures
        kept_outside(s0, s3, ws),
{
    assert forall|m: u64| #![trigger s3.stored(m)] m < s0.header_view().total_pages && s0.stored(m) is Some && !ws.contains(m) implies s3.stored(m)
        == s0.stored(m) by {
        assert(s2.stored(m) == s0.stored(m));
    }
}

/// Before an insert splits the leaf it reached: the leaf `after`, which is
/// `before` with `key` and `v` put in at the position that the search for
/// `key` gave, is ready to be split along the descent.
proof fn lemma_split_entry(
    s0: Database,
    s1: Database,
    s2: Database,
    root: u64,
    key: Seq<u8>,
    v: Seq<u8>,
    fuel0: nat,
    leaf_page: u64,
    path: Seq<(u64, usize)>,
    before: crate::btree::leaf_node::LeafV,
    after: crate::btree::leaf_node::LeafV,
    pos: int,
)
    requires
        split_ready(s0, root, key, fuel0),
        fuel0 == s0.header_view().total_pages,
        pages_kept(s0, s1),
        pages_kept(s1, s2),
        s1.header_view() == s0.header_view(),
        s2.header_view() == s0.header_view(),
        path_to(s1, root, key, path, leaf_page) || meets_header(s1, root, key, fuel0),
        leaf_page != 0 ==> leaf_tagged(s1.stored(leaf_page)) && crate::btree::leaf_node::decode_leaf(s1.stored(leaf_page).unwrap())
            == Ok::<crate::btree::leaf_node::LeafV, DbError>(before),
        0 <= pos <= before.keys.len(),
        before.values.len() == before.keys.len(),
        forall|j: int| 0 <= j < pos ==> lex_order(before.keys[j], key) == KeyOrder::Less,
        pos < before.keys.len() ==> lex_le(key, before.keys[pos]) && before.keys[pos] != key,
        after.keys == before.keys.insert(pos, key),
        after.values == before.values.insert(pos, v),
        after.next_leaf == before.next_leaf,
    ensures
        leaf_split_ready(s2, leaf_page, after, path, root, key, v, pos, fuel0 as u64, insert_writes(s0, root, key, fuel0)),
{
    lemma_insert_descent(s0, s1, s2, root, key, fuel0, leaf_page, path, before);
    assert forall|j: int| pos < j < after.keys.len() implies lex_lt(key, #[trigger] after.keys[j]) by {
        assert(after.keys[j] == before.keys[j - 1]);
        crate::codec::lemma_lex_order_flip(key, before.keys[pos]);
        assert(lex_lt(key, before.keys[pos]));
        if j - 1 > pos {
            assert(lex_le(before.keys[pos], before.keys[j - 1]));
            lemma_lex_lt_le(key, before.keys[pos], before.keys[j - 1]);
        }
    }
    assert forall|j: int| 0 <= j < pos implies lex_lt(#[trigger] after.keys[j], key) by {
        assert(after.keys[j] == before.keys[j]);
    }
    let pp = path_pages(path);
    let ws = insert_writes(s0, root, key, fuel0);
    assert(ws[pp.len() as int] == leaf_page);
    assert forall|i: int| 0 <= i < path.len() implies ws.contains((#[trigger] path[i]).0) by {
        assert(ws[i] == pp[i]);
    }
}

/// After an insert split the leaf it reached: what `split_and_propagate`
/// gives, stated with the page count as fuel and over the pages of the
/// database before the insert.
proof fn lemma_split_exit(
    s0: Database,
    s2: Database,
    sf: Database,
    root: u64,
    key: Seq<u8>,
    v: Seq<u8>,
    fuel0: nat,
    pp: Seq<u64>,
    leaf_page: u64,
    next: u64,
    nr: u64,
)
    requires
        fuel0 == s0.header_view().total_pages,
        pp.len() + 1 <= fuel0,
        insert_writes(s0, root, key, fuel0) == pp.push(leaf_page).push(next),
        pages_kept(s0, s2),
        s2.header_view() == s0.header_view(),
        sf.header_view().total_pages > s0.header_view().total_pages,
        tree_lookup(sf, nr, key, pp.len() + 2) == Some(Some(v)),
        new_descent(sf, nr, key, pp.len() + 2, fuel0 as u64, insert_writes(s0, root, key, fuel0)),
        kept_outside(s2, sf, pp + seq![leaf_page, next]),
    ensures
        tree_lookup(sf, nr, key, sf.header_view().total_pages as nat) == Some(Some(v)),
        new_descent(sf, nr, key, sf.header_view().total_pages as nat, fuel0 as u64, insert_writes(s0, root, key, fuel0)),
        kept_outside(s0, sf, insert_writes(s0, root, key, fuel0)),
{
    let total = sf.header_view().total_pages as nat;
    lemma_descent_agrees(sf, sf, nr, key, pp.len() + 2, total);
    let ws = insert_writes(s0, root, key, fuel0);
    assert forall|m: u64| #![trigger sf.stored(m)] m < s0.header_view().total_pages && s0.stored(m) is Some && !ws.contains(m) implies sf.stored(m)
        == s0.stored(m) by {
        assert(s2.stored(m) == s0.stored(m));
        let ws2 = pp + seq![leaf_page, next];
        if ws2.contains(m) {
            let j = choose|j: int| 0 <= j < ws2.len() && ws2[j] == m;
            assert(ws[j] == ws2[j]);
        }
    }
}

/// Where the pages of a path from `root` to `leaf_page` are kept and the
/// descent from the leaf page finds something, the descent from `root`,
/// with as much fuel as the page count, finds the same.
proof fn lemma_found_on_path(s1: Database, s3: Database, root: u64, key: Seq<u8>, path: Seq<(u64, usize)>, leaf_page: u64, fuel0: nat)
    requires
        path_to(s1, root, key, path, leaf_page),
        agrees_on(s3, s1, path_pages(path)),
        descent_pages(s3, leaf_page, key, 1) is Some,
        path.len() + 1 <= fuel0,
        fuel0 <= s3.header_view().total_pages,
    ensures
        tree_lookup(s3, root, key, s3.header_view().total_pages as nat) == tree_lookup(s3, leaf_page, key, 1),
        descent_pages(s3, root, key, s3.header_view().total_pages as nat) == Some(path_pages(path).push(leaf_page)),
{
    lemma_path_agrees(s1, s3, root, key, path, leaf_page);
    lemma_path_descent(s3, root, key, path, leaf_page, 1);
    lemma_descent_agrees(s3, s3, root, key, 1 + path.len(), s3.header_view().total_pages as nat);
    lemma_descent_agrees(s3, s3, leaf_page, key, 1, 1);
    assert(descent_pages(s3, leaf_page, key, 1).unwrap() =~= seq![leaf_page]);
    assert(path_pages(path) + seq![leaf_page] =~= path_pages(path).push(leaf_page));
}

/// After a full parent on a path is split in two (the left half kept at its
/// page, the right half at a page just allocated), the path above it with
/// the two halves and the promoted middle key is ready for the next level.
#[verifier::rlimit(60)]
#[verifier::spinoff_prover]
proof fn lemma_split_ready(
    s0: Database,
    s1: Database,
    s2: Database,
    s3: Database,
    s4: Database,
    path0: Seq<(u64, usize)>,
    parent_page: u64,
    rp: u64,
    left: crate::btree::internal_node::InternalV,
    right: crate::btree::internal_node::InternalV,
    keys0: Seq<Seq<u8>>,
    children1: Seq<u64>,
    c: int,
    mid: int,
    sep: Seq<u8>,
    left_child: u64,
    right_child: u64,
    root: u64,
    kg: Seq<u8>,
    vg: Seq<u8>,
    f: nat,
    lim: u64,
    orig: Seq<u64>,
)
    requires
        propagate_ready(s0, path0, sep, left_child, right_child, root, kg, vg, f, lim, orig),
        path0.len() > 0,
        path0.last().0 == parent_page,
        child_for(keys0, kg, c),
        keys_sorted(keys0),
        children1.len() == keys0.len() + 2,
        children1[if lex_lt(kg, sep) { c } else { c + 1 }] == (if lex_lt(kg, sep) { left_child } else { right_child }),
        0 <= mid < keys0.len() + 1,
        left.keys == keys0.insert(c, sep).subrange(0, mid),
        left.children == children1.subrange(0, mid + 1),
        right.keys == keys0.insert(c, sep).subrange(mid + 1, keys0.len() + 1 as int),
        right.children == children1.subrange(mid + 1, children1.len() as int),
        pages_kept(s0, s1),
        s1.header_view() == s0.header_view(),
        rp == s1.header_view().total_pages,
        s2.header_view().total_pages == rp + 1,
        page_written(s1, s2, rp, zero_page()),
        page_written(s2, s3, parent_page, crate::btree::internal_node::internal_bytes(left)),
        crate::btree::internal_node::internal_fits(left),
        s3.header_view() == s2.header_view(),
        page_written(s3, s4, rp, crate::btree::internal_node::internal_bytes(right)),
        crate::btree::internal_node::internal_fits(right),
        s4.header_view() == s3.header_view(),
    ensures
        propagate_ready(s4, path0.drop_last(), keys0.insert(c, sep)[mid], parent_page, rp, root, kg, vg, f + 1, lim, orig),
{
    let pre = path0.drop_last();
    let keys1 = keys0.insert(c, sep);
    let promoted = keys1[mid];
    let sub = if lex_lt(kg, sep) { left_child } else { right_child };
    let c2 = if lex_lt(kg, sep) { c } else { c + 1 };
    let ds = descent_pages(s0, sub, kg, f).unwrap();
    let total0 = s0.header_view().total_pages;
    lemma_descent_held(s0, sub, kg, f);
    lemma_path_pop(s0, root, kg, path0, left_child);
    assert(path_pages(path0) =~= path_pages(pre).push(parent_page));
    assert(path_pages(path0)[path0.len() - 1] == parent_page);
    assert(path_pages(path0).contains(parent_page));
    lemma_child_insert(keys0, kg, c, sep);
    // the pages that the rest of the proof keeps track of sit below `rp`
    assert forall|i: int| 0 <= i < ds.len() implies (#[trigger] ds[i]) < rp && ds[i] != parent_page by {}
    assert(parent_page < rp && orig.contains(parent_page)) by {
        assert(path0[path0.len() - 1].0 < lim);
    }
    assert forall|i: int| 0 <= i < pre.len() implies (#[trigger] pre[i]).0 < lim && pre[i].0 != parent_page && s0.stored(
        pre[i].0,
    ) is Some by {
        assert(pre[i] == path0[i]);
        assert(path_pages(path0)[i] == pre[i].0);
        assert(descends(s0, path0[i], kg, if i + 1 < path0.len() { path0[i + 1].0 } else { left_child }));
    }
    // the descent below the split is kept through the three writes
    assert forall|i: int| 0 <= i < ds.len() implies s3.stored(#[trigger] ds[i]) == s0.stored(ds[i]) by {}
    lemma_descent_agrees(s0, s3, sub, kg, f, f);
    assert(s0.stored(parent_page) is Some) by {
        assert(descends(s0, path0.last(), kg, left_child));
    }
    let sub2 = if lex_lt(kg, promoted) { parent_page } else { rp };
    if lex_lt(kg, promoted) {
        lemma_child_split_left(keys1, kg, c2, mid);
        assert(left.children[c2] == sub);
        assert forall|i: int| 0 <= i < ds.len() implies s2.stored(#[trigger] ds[i]) == s0.stored(ds[i]) by {}
        lemma_descent_agrees(s0, s2, sub, kg, f, f);
        lemma_node_written(s2, s3, parent_page, left, kg, c2, sub, f);
        let ds2 = seq![parent_page] + ds;
        assert forall|i: int| 0 <= i < ds2.len() implies s4.stored(#[trigger] ds2[i]) == s3.stored(ds2[i]) by {
            if i > 0 {
                assert(ds2[i] == ds[i - 1]);
            }
        }
        lemma_descent_agrees(s3, s4, parent_page, kg, f + 1, f + 1);
    } else {
        lemma_child_after_mid(keys0, kg, c, sep, mid);
        lemma_child_split_right(keys1, kg, c2, mid);
        assert(right.children[c2 - mid - 1] == sub);
        lemma_node_written(s3, s4, rp, right, kg, c2 - mid - 1, sub, f);
    }
    let ps2 = seq![sub2] + ds;
    assert(descent_pages(s4, sub2, kg, f + 1) == Some(ps2));
    assert forall|i: int| 0 <= i < ps2.len() implies (#[trigger] ps2[i]) < s4.header_view().total_pages && !path_pages(pre).contains(
        ps2[i],
    ) && (ps2[i] >= lim || orig.contains(ps2[i])) by {
        if i > 0 {
            assert(ps2[i] == ds[i - 1]);
            assert(!path_pages(path0).contains(ds[i - 1]));
            if path_pages(pre).contains(ds[i - 1]) {
                let j = choose|j: int| 0 <= j < path_pages(pre).len() && path_pages(pre)[j] == ds[i - 1];
                assert(path_pages(path0)[j] == ds[i - 1]);
            }
        } else {
            if path_pages(pre).contains(sub2) {
                let j = choose|j: int| 0 <= j < path_pages(pre).len() && path_pages(pre)[j] == sub2;
                assert(pre[j].0 == sub2);
            }
        }
    }
    // the path above is kept
    assert forall|i: int| 0 <= i < path_pages(pre).len() implies s4.stored(#[trigger] path_pages(pre)[i]) == s0.stored(
        path_pages(pre)[i],
    ) by {
        assert(path_pages(pre)[i] == pre[i].0);
    }
    lemma_path_agrees(s0, s4, root, kg, pre, parent_page);
    assert forall|i: int| 0 <= i < pre.len() implies (#[trigger] pre[i]).0 < lim && sorted_node(s4.stored(pre[i].0)) && orig.contains(
        pre[i].0,
    ) by {
        assert(pre[i] == path0[i]);
        assert(path_pages(pre)[i] == pre[i].0);
    }

    assert(path_pages(pre).no_duplicates()) by {
        assert forall|i: int, j: int| 0 <= i < path_pages(pre).len() && 0 <= j < path_pages(pre).len() && i != j implies path_pages(
            pre,
        )[i] != path_pages(pre)[j] by {
            assert(path_pages(pre)[i] == path_pages(path0)[i]);
            assert(path_pages(pre)[j] == path_pages(path0)[j]);
        }
    }
}

/// The keys come in order.
pub open spec fn keys_sorted(ks: Seq<Seq<u8>>) -> bool {
    forall|i: int, j: int| 0 <= i < j < ks.len() ==> lex_le(ks[i], ks[j])
}

/// The bytes decode as an internal node whose keys come in order.
pub open spec fn sorted_node(o: Option<Seq<u8>>) -> bool {
    o matches Some(b) && crate::btree::internal_node::decode_internal(b) matches Ok(n) && keys_sorted(n.keys)
}

/// The bytes decode as a leaf whose keys come in order and whose next leaf
/// is none, or a page below `total` that the descent `ps` does not visit.
pub open spec fn ready_leaf(o: Option<Seq<u8>>, ps: Seq<u64>, total: u64) -> bool {
    o matches Some(b) && crate::btree::leaf_node::decode_leaf(b) matches Ok(l) && keys_sorted(l.keys) && (l.next_leaf == 0 || (
    l.next_leaf < total && !ps.contains(l.next_leaf)))
}

/// The descent for `key` from `root` is one that an insert can split along:
/// it reaches a leaf, visits no page twice and only pages below the page
/// count, its internal nodes and its leaf keep their keys in order, and the
/// leaf's next leaf is none or another page below the page count.
pub open spec fn split_ready(db: Database, root: u64, key: Seq<u8>, fuel: nat) -> bool {
    match descent_pages(db, root, key, fuel) {
        Some(ps) => {
            &&& ps.no_duplicates()
            &&& forall|i: int| 0 <= i < ps.len() ==> (#[trigger] ps[i]) < db.header_view().total_pages
            &&& forall|i: int| 0 <= i < ps.len() - 1 ==> sorted_node(db.stored(#[trigger] ps[i]))
            &&& ready_leaf(db.stored(ps.last()), ps, db.header_view().total_pages)
        },
        None => false,
    }
}

/// `a` comes strictly before `c` when it comes strictly before `b` and `b`
/// does not come after `c`.
pub proof fn lemma_lex_lt_le(a: Seq<u8>, b: Seq<u8>, c: Seq<u8>)
    requires
        lex_lt(a, b),
        lex_le(b, c),
    ensures
        lex_lt(a, c),
{
    crate::codec::lemma_lex_order_flip(b, c);
    if lex_lt(b, c) {
        crate::codec::lemma_lex_lt_transitive(a, b, c);
    }
}

/// Inserting separator `sep` at the child position `c` of `key` moves the
/// child for `key` to `c` when `key` is below `sep`, else to `c + 1`.
pub proof fn lemma_child_insert(keys: Seq<Seq<u8>>, key: Seq<u8>, c: int, sep: Seq<u8>)
    requires
        child_for(keys, key, c),
    ensures
        child_for(keys.insert(c, sep), key, if lex_lt(key, sep) { c } else { c + 1 }),
{
    let ks = keys.insert(c, sep);
    if lex_lt(key, sep) {
        assert forall|j: int| 0 <= j < c implies !lex_lt(key, ks[j]) by {
            assert(ks[j] == keys[j]);
        }
    } else {
        assert forall|j: int| 0 <= j < c + 1 implies !lex_lt(key, ks[j]) by {
            if j < c {
                assert(ks[j] == keys[j]);
            }
        }
        if c + 1 < ks.len() {
            assert(ks[c + 1] == keys[c]);
        }
    }
}

/// Splitting the keys `ks` around position `mid`: a key below `ks[mid]`
/// has its child among the first `mid` keys at the same position.
pub proof fn lemma_child_split_left(ks: Seq<Seq<u8>>, key: Seq<u8>, c: int, mid: int)
    requires
        child_for(ks, key, c),
        0 <= mid < ks.len(),
        lex_lt(key, ks[mid]),
    ensures
        c <= mid,
        child_for(ks.subrange(0, mid), key, c),
{
}

/// Splitting the keys `ks` around position `mid`: a key whose child comes
/// after `mid` has its child among the keys after `mid`, `mid + 1` places
/// earlier.
pub proof fn lemma_child_split_right(ks: Seq<Seq<u8>>, key: Seq<u8>, c: int, mid: int)
    requires
        child_for(ks, key, c),
        0 <= mid < c,
    ensures
        child_for(ks.subrange(mid + 1, ks.len() as int), key, c - mid - 1),
{
    let rs = ks.subrange(mid + 1, ks.len() as int);
    assert forall|j: int| 0 <= j < c - mid - 1 implies !lex_lt(key, rs[j]) by {
        assert(rs[j] == ks[j + mid + 1]);
    }
    if c - mid - 1 < rs.len() {
        assert(rs[c - mid - 1] == ks[c]);
    }
}

/// After a separator is inserted into ordered keys at the child position of
/// `key`, a key not below the middle key has its child after the middle.
pub proof fn lemma_child_after_mid(keys: Seq<Seq<u8>>, key: Seq<u8>, c: int, sep: Seq<u8>, mid: int)
    requires
        child_for(keys, key, c),
        keys_sorted(keys),
        0 <= mid < keys.len() + 1,
        !lex_lt(key, keys.insert(c, sep)[mid]),
    ensures
        child_for(keys.insert(c, sep), key, if lex_lt(key, sep) { c } else { c + 1 }),
        mid < (if lex_lt(key, sep) { c } else { c + 1 }),
{
    lemma_child_insert(keys, key, c, sep);
    let ks = keys.insert(c, sep);
    let c2 = if lex_lt(key, sep) { c } else { c + 1 };
    if c2 <= mid {
        assert(c2 != mid);
        assert(c < mid);
        assert(ks[mid] == keys[mid - 1]);
        assert(lex_lt(key, keys[c]));
        if c < mid - 1 {
            assert(lex_le(keys[c], keys[mid - 1]));
            lemma_lex_lt_le(key, keys[c], keys[mid - 1]);
        }
    }
}

/// A leaf none of whose keys from position `i` on is `key` gives nothing for
/// it.
pub proof fn lemma_leaf_scan_absent(keys: Seq<Seq<u8>>, values: Seq<Seq<u8>>, key: Seq<u8>, i: int)
    requires
        0 <= i,
        forall|j: int| i <= j < keys.len() ==> keys[j] != key,
    ensures
        leaf_scan(keys, values, key, i) is None,
    decreases keys.len() - i,
{
    if i < keys.len() && !lex_lt(key, keys[i]) {
        lemma_leaf_scan_absent(keys, values, key, i + 1);
    }
}

/// The entries of a scan as plain values.
pub open spec fn entries_view(v: Seq<Entry>) -> Seq<(Seq<u8>, Seq<u8>)> {
    Seq::new(v.len(), |i: int| (v[i].0@, v[i].1@))
}

/// What a scan collects: the keys in `[lo, hi)` (an absent bound does not
/// limit), or the keys that start with a prefix.
pub enum ScanMode {
    Range { lo: Option<Seq<u8>>, hi: Option<Seq<u8>> },
    Prefix { p: Seq<u8> },
}

/// What a scan does with key `k`: take it (1), skip it (0), or stop before
/// it (2). A range scan skips keys below `lo` and stops at the first key not
/// below `hi`; a prefix scan takes keys that start with the prefix and stops
/// at the first other key above it.
pub open spec fn scan_step(mode: ScanMode, k: Seq<u8>) -> int {
    match mode {
        ScanMode::Range { lo, hi } => if (match lo {
            Some(l) => lex_lt(k, l),
            None => false,
        }) {
            0
        } else if (match hi {
            Some(h) => !lex_lt(k, h),
            None => false,
        }) {
            2
        } else {
            1
        },
        ScanMode::Prefix { p } => if is_prefix(p, k) {
            1
        } else if lex_order(k, p) == KeyOrder::Greater {
            2
        } else {
            0
        },
    }
}

/// The entries a scan takes from a leaf, from position `i` on, and whether
/// it stops in that leaf.
pub open spec fn leaf_collect(keys: Seq<Seq<u8>>, values: Seq<Seq<u8>>, mode: ScanMode, i: int) -> (Seq<(Seq<u8>, Seq<u8>)>, bool)
    decreases keys.len() - i,
{
    if i < 0 || i >= keys.len() {
        (seq![], false)
    } else if scan_step(mode, keys[i]) == 2 {
        (seq![], true)
    } else {
        let rest = leaf_collect(keys, values, mode, i + 1);
        if scan_step(mode, keys[i]) == 1 {
            (seq![(keys[i], values[i])] + rest.0, rest.1)
        } else {
            rest
        }
    }
}

/// The entries a scan collects along the leaf chain from page `p`, visiting
/// at most `fuel` leaves: `None` when a page is not held or is not a leaf
/// that decodes, or the chain is longer than `fuel`.
pub open spec fn chain_collect(db: Database, p: u64, mode: ScanMode, fuel: nat) -> Option<Seq<(Seq<u8>, Seq<u8>)>>
    decreases fuel,
{
    if fuel == 0 {
        None
    } else {
        match db.stored(p) {
            None => None,
            Some(b) => match crate::btree::leaf_node::decode_leaf(b) {
                Err(_) => None,
                Ok(l) => {
                    let c = leaf_collect(l.keys, l.values, mode, 0);
                    if c.1 || l.next_leaf == 0 {
                        Some(c.0)
                    } else {
                        match chain_collect(db, l.next_leaf, mode, (fuel - 1) as nat) {
                            Some(rest) => Some(c.0 + rest),
                            None => None,
                        }
                    }
                },
            },
        }
    }
}

/// The leaves that a scan along the leaf chain from page `p` visits (as
/// `chain_collect` walks it) when it gets through.
pub open spec fn chain_pages(db: Database, p: u64, mode: ScanMode, fuel: nat) -> Option<Seq<u64>>
    decreases fuel,
{
    if fuel == 0 {
        None
    } else {
        match db.stored(p) {
            None => None,
            Some(b) => match crate::btree::leaf_node::decode_leaf(b) {
                Err(_) => None,
                Ok(l) => {
                    let c = leaf_collect(l.keys, l.values, mode, 0);
                    if c.1 || l.next_leaf == 0 {
                        Some(seq![p])
                    } else {
                        match chain_pages(db, l.next_leaf, mode, (fuel - 1) as nat) {
                            Some(ps) => Some(seq![p] + ps),
                            None => None,
                        }
                    }
                },
            },
        }
    }
}

/// A chain of leaves that visits pages starts at its first page.
proof fn lemma_chain_pages_first(db: Database, p: u64, mode: ScanMode, fuel: nat)
    requires
        chain_pages(db, p, mode, fuel) is Some,
    ensures
        chain_pages(db, p, mode, fuel).unwrap().len() > 0,
        chain_pages(db, p, mode, fuel).unwrap()[0] == p,
{
    let b = db.stored(p).unwrap();
    let l = crate::btree::leaf_node::decode_leaf(b).unwrap();
    let c = leaf_collect(l.keys, l.values, mode, 0);
    if !(c.1 || l.next_leaf == 0) {
        let rest = chain_pages(db, l.next_leaf, mode, (fuel - 1) as nat).unwrap();
        assert((seq![p] + rest)[0] == p);
    }
}

/// The pages that the descent to the start of a scan visits: the descent for
/// `start`, or the one down the first children without a start.
pub open spec fn start_pages(db: Database, root: u64, start: Option<Seq<u8>>, fuel: nat) -> Option<Seq<u64>> {
    match start {
        Some(k) => descent_pages(db, root, k, fuel),
        None => leftmost_pages(db, root, fuel),
    }
}

/// A scan of the tree at `root` from `start` gets through on the pages of
/// `db`, and every page it visits, down to its first leaf and along the
/// leaf chain, is readable.
pub open spec fn scan_readable(db: Database, root: u64, start: Option<Seq<u8>>, mode: ScanMode, fuel: nat) -> bool {
    match start_pages(db, root, start, fuel) {
        Some(ps) => pages_readable(db, ps) && match chain_pages(db, ps.last(), mode, fuel) {
            Some(cs) => pages_readable(db, cs),
            None => false,
        },
        None => false,
    }
}

/// The leaf that `find_leaf_with_path` gives, on pages that keep those of
/// `a`, is the last page of the descent in `a` when that descent reaches
/// a leaf.
proof fn lemma_start_leaf_found(a: Database, b: Database, root: u64, key: Seq<u8>, fuel: nat, leaf: u64, pp: Seq<u64>)
    requires
        pages_kept(a, b),
        descent_pages(a, root, key, fuel) is Some,
        leaf != 0 ==> leaf_tagged(b.stored(leaf)),
        leaf == 0 ==> forall|x: Database| #[trigger] agrees_on(x, b, pp) ==> meets_header(x, root, key, fuel),
        forall|x: Database| #[trigger] agrees_on(x, b, pp) && leaf_tagged(x.stored(leaf)) ==> tree_lookup(x, root, key, fuel) == tree_lookup(
            x,
            leaf,
            key,
            1,
        ) && descent_leaf(x, root, key, fuel) == descent_leaf(x, leaf, key, 1) || meets_header(x, root, key, fuel),
    ensures
        leaf == descent_pages(a, root, key, fuel).unwrap().last(),
{
    let ps = descent_pages(a, root, key, fuel).unwrap();
    lemma_descent_stored(a, root, key, fuel);
    assert forall|i: int| 0 <= i < ps.len() implies b.stored(#[trigger] ps[i]) == a.stored(ps[i]) by {
        assert(a.stored(ps[i]) is Some);
    }
    lemma_descent_agrees(a, b, root, key, fuel, fuel);
    lemma_descent_leaf_pages(b, root, key, fuel);
    lemma_descent_kept(b, b, root, key, fuel);
    assert(agrees_on(b, b, pp));
    if leaf == 0 {
        assert(meets_header(b, root, key, fuel));
    }
}

/// A descent whose pages are readable stays so, visits the same pages and
/// finds the same, on pages that keep those of `a`.
proof fn lemma_descent_readable_kept(a: Database, x: Database, root: u64, key: Seq<u8>, fuel: nat)
    requires
        descent_pages(a, root, key, fuel) is Some,
        pages_readable(a, descent_pages(a, root, key, fuel).unwrap()),
        pages_kept(a, x),
        cache_writable(x.cache_view()),
        x.file_page_count() == a.file_page_count(),
    ensures
        descent_pages(x, root, key, fuel) == descent_pages(a, root, key, fuel),
        pages_readable(x, descent_pages(a, root, key, fuel).unwrap()),
        tree_lookup(a, root, key, fuel) is Some,
        tree_lookup(x, root, key, fuel) == tree_lookup(a, root, key, fuel),
        !meets_header(x, root, key, fuel),
{
    let ps = descent_pages(a, root, key, fuel).unwrap();
    lemma_descent_stored(a, root, key, fuel);
    assert forall|i: int| 0 <= i < ps.len() implies x.stored(#[trigger] ps[i]) == a.stored(ps[i]) by {
        assert(a.stored(ps[i]) is Some);
    }
    lemma_descent_agrees(a, x, root, key, fuel, fuel);
    lemma_pages_readable_kept(a, x, ps);
    lemma_descent_leaf_pages(x, root, key, fuel);
    lemma_descent_kept(x, x, root, key, fuel);
}

/// Every lookup of the values of `es` in the tree at `root` visits only
/// readable pages down to a leaf, and what it finds decodes as a row for
/// the columns `cols`.
pub open spec fn lookups_readable(
    db: Database,
    root: u64,
    cols: Seq<crate::schema::column::ColumnV>,
    es: Seq<(Seq<u8>, Seq<u8>)>,
    fuel: nat,
) -> bool {
    forall|k: int|
        0 <= k < es.len() ==> match #[trigger] descent_pages(db, root, es[k].1, fuel) {
            Some(ps) => pages_readable(db, ps) && match tree_lookup(db, root, es[k].1, fuel) {
                Some(Some(b)) => crate::row::decode_row(b, cols) is Ok,
                _ => true,
            },
            None => false,
        }
}

/// The tree at `root` takes `key` with `value` in place, without a split:
/// the descent for `key` reaches a leaf over readable pages, and that leaf,
/// with one more entry of `key` and `value`, stays below the entry count at
/// which a leaf splits and still fits in a page.
pub open spec fn insert_fits(db: Database, root: u64, key: Seq<u8>, value: Seq<u8>, fuel: nat) -> bool {
    match descent_pages(db, root, key, fuel) {
        Some(ps) => pages_readable(db, ps) && match crate::btree::leaf_node::decode_leaf(db.stored(ps.last()).unwrap()) {
            Ok(l) => l.keys.len() + 1 < crate::btree::leaf_node::LEAF_SPLIT_ENTRIES && crate::btree::leaf_node::leaf_body(l).len() + 4
                + key.len() + value.len() <= PAGE_SIZE,
            Err(_) => false,
        },
        None => false,
    }
}

/// The parent at the end of `path` takes the separator `key` between
/// `left` and `right` without a split: it is readable, decodes as an
/// internal node whose child at the path's position exists, and with the
/// separator and the two children in place it stays below the key count at
/// which a node splits and still fits in a page.
pub open spec fn parent_takes(db: Database, path: Seq<(u64, usize)>, key: Seq<u8>, left: u64, right: u64) -> bool {
    let (pg, ci) = path.last();
    &&& path.len() > 0
    &&& pages_readable(db, seq![pg])
    &&& match crate::btree::internal_node::decode_internal(db.stored(pg).unwrap()) {
        Ok(n) => {
            &&& ci < n.children.len()
            &&& n.keys.len() + 1 < crate::btree::internal_node::BTREE_ORDER - 1
            &&& crate::btree::internal_node::internal_fits(
                crate::btree::internal_node::InternalV {
                    keys: n.keys.insert(ci as int, key),
                    children: n.children.update(ci as int, left).insert(ci + 1, right),
                },
            )
        },
        Err(_) => false,
    }
}

/// A new root over `left` and `right` with the separator `key` can be
/// placed on a new page of `db`.
pub open spec fn new_root_fits(db: Database, key: Seq<u8>, left: u64, right: u64) -> bool {
    &&& db.header_view().total_pages < u64::MAX
    &&& cache_writable(db.cache_view())
    &&& write_in_range(db.header_view().total_pages, PAGE_SIZE as nat)
    &&& crate::btree::internal_node::internal_fits(
        crate::btree::internal_node::InternalV { keys: seq![key], children: seq![left, right] },
    )
}

/// A leaf `l` at `leaf_page` that is the root of its tree can be split on
/// the pages of `db`, with a new root above the halves: it fits in a page,
/// two more pages can be numbered and written (`l` goes to page
/// `leaf_page`, which can be written too), its next leaf, if any, is an
/// older page apart from it that is readable and writable, and the new root
/// fits in a page.
pub open spec fn root_split_fits(db: Database, leaf_page: u64, l: crate::btree::leaf_node::LeafV) -> bool {
    let t = db.header_view().total_pages;
    &&& crate::btree::leaf_node::leaf_fits(l)
    &&& l.keys.len() >= 2
    &&& t + 1 < u64::MAX
    &&& cache_writable(db.cache_view())
    &&& write_in_range(t, PAGE_SIZE as nat)
    &&& write_in_range((t + 1) as u64, PAGE_SIZE as nat)
    &&& write_in_range(leaf_page, PAGE_SIZE as nat)
    &&& l.next_leaf != 0 ==> {
        &&& l.next_leaf < t
        &&& l.next_leaf != leaf_page
        &&& pages_readable(db, seq![l.next_leaf])
        &&& write_in_range(l.next_leaf, PAGE_SIZE as nat)
    }
    &&& crate::btree::internal_node::internal_fits(
        crate::btree::internal_node::InternalV { keys: seq![l.keys[(l.keys.len() / 2) as int]], children: seq![leaf_page, t] },
    )
}

/// A scan of the whole tree of table `t` on the pages of `db` gets through
/// over readable pages, and every value it collects decodes as a row of `t`.
pub open spec fn scan_decodes(db: Database, t: TableSchemaV, fuel: nat) -> bool {
    &&& scan_readable(db, t.root_page, None, ScanMode::Range { lo: None, hi: None }, fuel)
    &&& tree_collect(db, t.root_page, None, ScanMode::Range { lo: None, hi: None }, fuel) matches Some(es) && forall|k: int|
        0 <= k < es.len() ==> (#[trigger] crate::row::decode_row(es[k].1, t.columns)) is Ok
}

/// The order of two lists of key cells from position `i` on: cell by cell
/// in the key order, and a list that runs out first comes first.
pub open spec fn cells_order(a: Seq<ValueV>, b: Seq<ValueV>, i: nat) -> KeyOrder
    decreases a.len() - i,
{
    if i >= a.len() || i >= b.len() {
        if a.len() < b.len() {
            KeyOrder::Less
        } else if a.len() > b.len() {
            KeyOrder::Greater
        } else {
            KeyOrder::Equal
        }
    } else {
        match crate::value::key_order(a[i as int], b[i as int]) {
            KeyOrder::Equal => cells_order(a, b, i + 1),
            o => o,
        }
    }
}

/// The key cells `k` lie in `[start, end)`; an absent bound does not limit.
pub open spec fn key_in_range(k: Seq<ValueV>, start: Option<Seq<ValueV>>, end: Option<Seq<ValueV>>) -> bool {
    &&& start matches Some(s) ==> cells_order(k, s, 0) != KeyOrder::Less
    &&& end matches Some(e) ==> cells_order(k, e, 0) == KeyOrder::Less
}

/// The rows among `rows`, in their order, whose cells at `ps` lie in
/// `[start, end)`.
pub open spec fn range_rows(rows: Seq<Seq<ValueV>>, ps: Seq<int>, start: Option<Seq<ValueV>>, end: Option<Seq<ValueV>>) -> Seq<
    Seq<ValueV>,
>
    decreases rows.len(),
{
    if rows.len() == 0 {
        seq![]
    } else {
        let before = range_rows(rows.drop_last(), ps, start, end);
        if key_in_range(cells_at(rows.last(), ps), start, end) {
            before.push(rows.last())
        } else {
            before
        }
    }
}

/// Optional key cells as plain values.
pub open spec fn opt_cells(o: Option<&[Value]>) -> Option<Seq<ValueV>> {
    match o {
        Some(v) => Some(crate::row::values_view(v@)),
        None => None,
    }
}

/// The rows of table `t` among `all` whose primary key lies in
/// `[start, end)` in the key order of the cells; none when the key columns
/// do not exist.
pub open spec fn pk_range_rows(t: TableSchemaV, all: Seq<Seq<ValueV>>, start: Option<Seq<ValueV>>, end: Option<Seq<ValueV>>) -> Seq<
    Seq<ValueV>,
> {
    match column_positions(t.columns, t.primary_key) {
        Some(ps) => range_rows(all, ps, start, end),
        None => seq![],
    }
}

/// A one-cell `Int64` key lies in `[start, end)` exactly when its number
/// does, a missing bound leaving that side open.
pub proof fn lemma_int64_key_in_range(k: i64, s: Option<i64>, e: Option<i64>)
    ensures
        key_in_range(
            seq![ValueV::Int64(k)],
            match s { Some(x) => Some(seq![ValueV::Int64(x)]), None => None },
            match e { Some(x) => Some(seq![ValueV::Int64(x)]), None => None },
        ) == ((s matches Some(x) ==> x <= k) && (e matches Some(x) ==> k < x)),
{
    reveal_with_fuel(cells_order, 2);
    if let Some(x) = s {
        crate::value::lemma_key_order_numbers(k, x, 0, 0);
    }
    if let Some(x) = e {
        crate::value::lemma_key_order_numbers(k, x, 0, 0);
    }
}

/// Compares two lists of key cells in the key order.
fn compare_cells(a: &Vec<Value>, b: &[Value]) -> (r: KeyOrder)
    ensures
        r == cells_order(crate::row::values_view(a@), crate::row::values_view(b@), 0),
{
    let ghost av = crate::row::values_view(a@);
    let ghost bv = crate::row::values_view(b@);
    let mut i: usize = 0;
    while i < a.len() && i < b.len()
        invariant
            i <= a@.len(),
            i <= b@.len(),
            av == crate::row::values_view(a@),
            bv == crate::row::values_view(b@),
            cells_order(av, bv, 0) == cells_order(av, bv, i as nat),
        decreases a@.len() - i,
    {
        let o = a[i].key_compare(&b[i]);
        assert(av[i as int] == a@[i as int]@ && bv[i as int] == b@[i as int]@);
        match o {
            KeyOrder::Equal => {},
            _ => return o,
        }
        i = i + 1;
    }
    if a.len() < b.len() {
        KeyOrder::Less
    } else if a.len() > b.len() {
        KeyOrder::Greater
    } else {
        KeyOrder::Equal
    }
}

/// Whether key cells `k` lie in `[start, end)`.
fn cells_in_range(k: &Vec<Value>, start: Option<&[Value]>, end: Option<&[Value]>) -> (r: bool)
    ensures
        r == key_in_range(crate::row::values_view(k@), opt_cells(start), opt_cells(end)),
{
    let low_ok = match start {
        Some(s) => match compare_cells(k, s) {
            KeyOrder::Less => false,
            _ => true,
        },
        None => true,
    };
    let high_ok = match end {
        Some(e) => match compare_cells(k, e) {
            KeyOrder::Less => true,
            _ => false,
        },
        None => true,
    };
    low_ok && high_ok
}

/// A lookup of `key` in the tree at `root` on the pages of `db` visits only
/// readable pages down to a leaf, and what it finds decodes as a row for the
/// columns `cols`.
pub open spec fn lookup_readable(db: Database, root: u64, cols: Seq<crate::schema::column::ColumnV>, key: Seq<u8>, fuel: nat) -> bool {
    match descent_pages(db, root, key, fuel) {
        Some(ps) => pages_readable(db, ps) && match tree_lookup(db, root, key, fuel) {
            Some(Some(b)) => crate::row::decode_row(b, cols) is Ok,
            _ => true,
        },
        None => false,
    }
}

/// The leaf that the descent for `key` from `root` reaches on the pages of
/// `db` holds `key`.
pub open spec fn leaf_has_key(db: Database, root: u64, key: Seq<u8>, fuel: nat) -> bool {
    match descent_leaf(db, root, key, fuel) {
        Some(lf) => match crate::btree::leaf_node::decode_leaf(db.stored(lf).unwrap()) {
            Ok(l) => l.keys.contains(key),
            Err(_) => false,
        },
        None => false,
    }
}

/// Pages that agree on a descent find the same leaf, holding the same keys.
proof fn lemma_leaf_has_key_agrees(a: Database, x: Database, root: u64, key: Seq<u8>, fuel: nat)
    requires
        descent_pages(a, root, key, fuel) is Some,
        agrees_on(x, a, descent_pages(a, root, key, fuel).unwrap()),
    ensures
        leaf_has_key(x, root, key, fuel) == leaf_has_key(a, root, key, fuel),
        descent_leaf(x, root, key, fuel) == descent_leaf(a, root, key, fuel),
        descent_leaf(a, root, key, fuel) is Some,
{
    let ps = descent_pages(a, root, key, fuel).unwrap();
    lemma_descent_agrees(a, x, root, key, fuel, fuel);
    lemma_descent_leaf_pages(a, root, key, fuel);
    lemma_descent_leaf_pages(x, root, key, fuel);
    assert(ps.last() == ps[ps.len() - 1]);
    assert(x.stored(ps.last()) == a.stored(ps.last()));
}

/// The schema `s` can be stored in the catalog on the pages of `db`: as
/// the one entry of a new catalog leaf on a new page when there is no
/// catalog yet, or by an insert into the catalog's tree without a split.
pub open spec fn schema_save_fits(db: Database, s: TableSchemaV) -> bool {
    let root = db.header_view().schema_catalog_root;
    let k = crate::codec::utf8_of(s.name);
    let v = crate::schema::table_schema::schema_bytes(s);
    if root == 0 {
        &&& db.header_view().total_pages < u64::MAX
        &&& cache_writable(db.cache_view())
        &&& write_in_range(db.header_view().total_pages, PAGE_SIZE as nat)
        &&& crate::btree::leaf_node::leaf_fits(crate::btree::leaf_node::LeafV { keys: seq![k], values: seq![v], next_leaf: 0, prev_leaf: 0 })
    } else {
        insert_fits(db, root, k, v, db.header_view().total_pages as nat)
    }
}

/// An insert that fits without a split still does on pages that agree on
/// its descent, with at least as much fuel.
proof fn lemma_insert_fits_kept(a: Database, b: Database, root: u64, k: Seq<u8>, v: Seq<u8>, fa: nat, fb: nat)
    requires
        insert_fits(a, root, k, v, fa),
        fa <= fb,
        agrees_on(b, a, descent_pages(a, root, k, fa).unwrap()),
        cache_writable(b.cache_view()),
        b.file_page_count() == a.file_page_count(),
    ensures
        insert_fits(b, root, k, v, fb),
{
    let ps = descent_pages(a, root, k, fa).unwrap();
    lemma_descent_agrees(a, b, root, k, fa, fb);
    assert forall|i: int| 0 <= i < ps.len() implies (#[trigger] ps[i]) < b.file_page_count() && b.stored(ps[i]) is Some by {
        assert(a.stored(ps[i]) is Some);
    }
    assert(ps.last() == ps[ps.len() - 1]);
}

/// A table with schema `s` can be created on the pages of `db`: two more
/// pages (its root, then perhaps the catalog's) can be numbered and
/// written, and its schema, with the new root, fits in the catalog: as a
/// new catalog leaf, or by an insert into the catalog's tree without a
/// split along pages below the page count.
pub open spec fn create_fits(db: Database, s: TableSchemaV) -> bool {
    let t = db.header_view().total_pages;
    let root = db.header_view().schema_catalog_root;
    let k = crate::codec::utf8_of(s.name);
    let v = crate::schema::table_schema::schema_bytes(TableSchemaV { root_page: t, ..s });
    &&& t + 1 < u64::MAX
    &&& t > 0
    &&& cache_writable(db.cache_view())
    &&& write_in_range(t, PAGE_SIZE as nat)
    &&& write_in_range((t + 1) as u64, PAGE_SIZE as nat)
    &&& if root == 0 {
        crate::btree::leaf_node::leaf_fits(crate::btree::leaf_node::LeafV { keys: seq![k], values: seq![v], next_leaf: 0, prev_leaf: 0 })
    } else {
        &&& insert_fits(db, root, k, v, t as nat)
        &&& forall|i: int|
            0 <= i < descent_pages(db, root, k, t as nat).unwrap().len() ==> #[trigger] descent_pages(db, root, k, t as nat).unwrap()[i] < t
    }
}

/// Storing a schema fits alike on pages that keep those of `a`, under the
/// same header, cache and page count.
proof fn lemma_save_fits_kept(a: Database, b: Database, s: TableSchemaV)
    requires
        schema_save_fits(a, s),
        pages_kept(a, b),
        b.header_view() == a.header_view(),
        b.cache_view() == a.cache_view(),
        b.file_page_count() == a.file_page_count(),
    ensures
        schema_save_fits(b, s),
{
    let root = a.header_view().schema_catalog_root;
    if root != 0 {
        let k = crate::codec::utf8_of(s.name);
        let fuel = a.header_view().total_pages as nat;
        lemma_descent_stored(a, root, k, fuel);
        let ps = descent_pages(a, root, k, fuel).unwrap();
        assert forall|i: int| 0 <= i < ps.len() implies b.stored(#[trigger] ps[i]) == a.stored(ps[i]) by {
            assert(a.stored(ps[i]) is Some);
        }
        lemma_insert_fits_kept(a, b, root, k, crate::schema::table_schema::schema_bytes(s), fuel, fuel);
    }
}

/// A scan that decodes on the pages of `a` still does on pages that keep
/// them, with the cache still writable and the same page count.
proof fn lemma_scan_decodes_kept(a: Database, b: Database, t: TableSchemaV, fuel: nat)
    requires
        scan_decodes(a, t, fuel),
        pages_kept(a, b),
        cache_writable(b.cache_view()),
        b.file_page_count() == a.file_page_count(),
    ensures
        scan_decodes(b, t, fuel),
{
    let mode = ScanMode::Range { lo: None, hi: None };
    let ps = leftmost_pages(a, t.root_page, fuel).unwrap();
    lemma_leftmost_pages_kept(a, b, t.root_page, fuel);
    let cs = chain_pages(a, ps.last(), mode, fuel).unwrap();
    lemma_chain_pages_kept(a, b, ps.last(), mode, fuel);
    lemma_pages_readable_kept(a, b, ps);
    lemma_pages_readable_kept(a, b, cs);
    lemma_collect_kept(a, b, t.root_page, None, mode, fuel);
}

/// Lookups that are readable on the pages of `a` stay so on pages that
/// keep them, with the cache still writable and the same page count.
proof fn lemma_lookups_readable_kept(
    a: Database,
    b: Database,
    root: u64,
    cols: Seq<crate::schema::column::ColumnV>,
    es: Seq<(Seq<u8>, Seq<u8>)>,
    fuel: nat,
)
    requires
        lookups_readable(a, root, cols, es, fuel),
        pages_kept(a, b),
        cache_writable(b.cache_view()),
        b.file_page_count() == a.file_page_count(),
    ensures
        lookups_readable(b, root, cols, es, fuel),
{
    assert forall|k: int| 0 <= k < es.len() implies match #[trigger] descent_pages(b, root, es[k].1, fuel) {
        Some(ps) => pages_readable(b, ps) && match tree_lookup(b, root, es[k].1, fuel) {
            Some(Some(x)) => crate::row::decode_row(x, cols) is Ok,
            _ => true,
        },
        None => false,
    } by {
        assert(descent_pages(a, root, es[k].1, fuel) is Some);
        lemma_descent_readable_kept(a, b, root, es[k].1, fuel);
    }
}

/// A lookup of the key cells `key` through the index at position `k` of
/// table `t` on the pages of `db` gets through: the prefix scan of the
/// index reads only readable pages, and so does every lookup of the keys it
/// finds in the table's tree, each finding a row that decodes.
pub open spec fn index_lookup_readable(db: Database, t: TableSchemaV, k: int, key: Seq<u8>, fuel: nat) -> bool {
    index_scan_readable(db, t, k, Some(key), ScanMode::Prefix { p: key }, fuel)
}

/// A scan of the index at position `k` of table `t` from `start` in `mode`
/// on the pages of `db` gets through over readable pages, and so does every
/// lookup of the keys it finds in the table's tree, each finding a row that
/// decodes.
pub open spec fn index_scan_readable(db: Database, t: TableSchemaV, k: int, start: Option<Seq<u8>>, mode: ScanMode, fuel: nat) -> bool {
    let root = t.indexes[k].root_page;
    &&& scan_readable(db, root, start, mode, fuel)
    &&& match tree_collect(db, root, start, mode, fuel) {
        Some(es) => lookups_readable(db, t.root_page, t.columns, es, fuel),
        None => false,
    }
}

/// A scan of an index that is readable on the pages of `a` stays so on
/// pages that keep them, with the cache still writable and the same page
/// count.
proof fn lemma_index_scan_readable_kept(a: Database, b: Database, t: TableSchemaV, k: int, start: Option<Seq<u8>>, mode: ScanMode, fuel: nat)
    requires
        index_scan_readable(a, t, k, start, mode, fuel),
        pages_kept(a, b),
        cache_writable(b.cache_view()),
        b.file_page_count() == a.file_page_count(),
    ensures
        index_scan_readable(b, t, k, start, mode, fuel),
{
    let root = t.indexes[k].root_page;
    let ps = start_pages(a, root, start, fuel).unwrap();
    match start {
        Some(sk) => {
            lemma_descent_readable_kept(a, b, root, sk, fuel);
        },
        None => {
            lemma_leftmost_pages_kept(a, b, root, fuel);
            lemma_pages_readable_kept(a, b, ps);
        },
    }
    let cs = chain_pages(a, ps.last(), mode, fuel).unwrap();
    lemma_chain_pages_kept(a, b, ps.last(), mode, fuel);
    lemma_pages_readable_kept(a, b, cs);
    lemma_collect_kept(a, b, root, start, mode, fuel);
    let es = tree_collect(a, root, start, mode, fuel).unwrap();
    lemma_lookups_readable_kept(a, b, t.root_page, t.columns, es, fuel);
}

/// An index join of table `lt` with table `rt` through the index at
/// position `k` of `rt`, on column `lci` of `lt`, gets through on the pages
/// of `db`: the scan of `lt` decodes, and for every row it finds, the
/// lookup of that row's cell through the index does.
pub open spec fn index_join_readable(db: Database, lt: TableSchemaV, rt: TableSchemaV, lci: int, k: int, fuel: nat) -> bool {
    &&& scan_decodes(db, lt, fuel)
    &&& match tree_collect(db, lt.root_page, None, ScanMode::Range { lo: None, hi: None }, fuel) {
        Some(es) => forall|q: int|
            0 <= q < es.len() ==> match #[trigger] crate::row::decode_row(es[q].1, lt.columns) {
                Ok(row) => index_lookup_readable(db, rt, k, crate::value::values_bytes(seq![row[lci]]), fuel),
                Err(_) => true,
            },
        None => false,
    }
}

/// Reading pages keeps the leaves a chain visits.
proof fn lemma_chain_pages_kept(a: Database, b: Database, p: u64, mode: ScanMode, fuel: nat)
    requires
        pages_kept(a, b),
        chain_pages(a, p, mode, fuel) is Some,
    ensures
        chain_pages(b, p, mode, fuel) == chain_pages(a, p, mode, fuel),
    decreases fuel,
{
    let bytes = a.stored(p).unwrap();
    assert(b.stored(p) == a.stored(p));
    let l = crate::btree::leaf_node::decode_leaf(bytes).unwrap();
    let c = leaf_collect(l.keys, l.values, mode, 0);
    if !(c.1 || l.next_leaf == 0) {
        lemma_chain_pages_kept(a, b, l.next_leaf, mode, (fuel - 1) as nat);
    }
}

/// A leftmost descent that visits pages ends at its last page, on pages
/// that keep those of `a`.
proof fn lemma_leftmost_pages_kept(a: Database, b: Database, p: u64, fuel: nat)
    requires
        pages_kept(a, b),
        leftmost_pages(a, p, fuel) is Some,
    ensures
        leftmost(b, p, fuel) == Some(leftmost_pages(a, p, fuel).unwrap().last()),
        !leftmost_meets_header(b, p, fuel),
        leftmost_pages(b, p, fuel) == leftmost_pages(a, p, fuel),
    decreases fuel,
{
    let bytes = a.stored(p).unwrap();
    assert(b.stored(p) == a.stored(p));
    assert(p != 0);
    if bytes[0] == NODE_INTERNAL {
        let n = crate::btree::internal_node::decode_internal(bytes).unwrap();
        let rest = leftmost_pages(a, n.children[0], (fuel - 1) as nat).unwrap();
        lemma_leftmost_pages_kept(a, b, n.children[0], (fuel - 1) as nat);
        assert((seq![p] + rest).last() == rest.last());
    }
}

/// The leaf that a descent along first children from page `p` reaches
/// within `fuel` levels.
pub open spec fn leftmost(db: Database, p: u64, fuel: nat) -> Option<u64>
    decreases fuel,
{
    if fuel == 0 {
        None
    } else {
        match db.stored(p) {
            None => None,
            Some(b) => if b[0] == NODE_INTERNAL {
                match crate::btree::internal_node::decode_internal(b) {
                    Ok(n) => leftmost(db, n.children[0], (fuel - 1) as nat),
                    Err(_) => None,
                }
            } else if b[0] == NODE_LEAF {
                Some(p)
            } else {
                None
            },
        }
    }
}

/// The pages that the descent along first children from page `p` visits
/// within `fuel` levels, down to the leaf it reaches.
pub open spec fn leftmost_pages(db: Database, p: u64, fuel: nat) -> Option<Seq<u64>>
    decreases fuel,
{
    if fuel == 0 {
        None
    } else {
        match db.stored(p) {
            None => None,
            Some(b) => if b[0] == NODE_INTERNAL {
                match crate::btree::internal_node::decode_internal(b) {
                    Ok(n) => match leftmost_pages(db, n.children[0], (fuel - 1) as nat) {
                        Some(ps) => Some(seq![p] + ps),
                        None => None,
                    },
                    Err(_) => None,
                }
            } else if b[0] == NODE_LEAF {
                Some(seq![p])
            } else {
                None
            },
        }
    }
}

/// A leftmost descent that visits pages starts at its first page.
proof fn lemma_leftmost_pages_first(db: Database, p: u64, fuel: nat)
    requires
        leftmost_pages(db, p, fuel) is Some,
    ensures
        leftmost_pages(db, p, fuel).unwrap().len() > 0,
        leftmost_pages(db, p, fuel).unwrap()[0] == p,
{
    let b = db.stored(p).unwrap();
    if b[0] == NODE_INTERNAL {
        let n = crate::btree::internal_node::decode_internal(b).unwrap();
        let rest = leftmost_pages(db, n.children[0], (fuel - 1) as nat).unwrap();
        assert((seq![p] + rest)[0] == p);
    }
}

/// The descent along first children from page `p` reaches the header page
/// within `fuel` levels.
pub open spec fn leftmost_meets_header(db: Database, p: u64, fuel: nat) -> bool
    decreases fuel,
{
    if fuel == 0 {
        false
    } else if p == 0 {
        true
    } else {
        match db.stored(p) {
            None => false,
            Some(b) => if b[0] == NODE_INTERNAL {
                match crate::btree::internal_node::decode_internal(b) {
                    Ok(n) => leftmost_meets_header(db, n.children[0], (fuel - 1) as nat),
                    Err(_) => false,
                }
            } else {
                false
            },
        }
    }
}

/// The leaf where a scan of the tree at `root` starts: where the descent
/// for `start` ends, or the leftmost leaf without one.
pub open spec fn scan_start(db: Database, root: u64, start: Option<Seq<u8>>, fuel: nat) -> Option<u64> {
    match start {
        Some(k) => descent_leaf(db, root, k, fuel),
        None => leftmost(db, root, fuel),
    }
}

/// The descent to the start of a scan passes through the header page.
pub open spec fn scan_meets_header(db: Database, root: u64, start: Option<Seq<u8>>, fuel: nat) -> bool {
    match start {
        Some(k) => meets_header(db, root, k, fuel),
        None => leftmost_meets_header(db, root, fuel),
    }
}

/// `es` in front of what `o` holds, if it holds something.
pub open spec fn prepend(es: Seq<(Seq<u8>, Seq<u8>)>, o: Option<Seq<(Seq<u8>, Seq<u8>)>>) -> Option<Seq<(Seq<u8>, Seq<u8>)>> {
    match o {
        Some(r) => Some(es + r),
        None => None,
    }
}

/// An optional byte string as plain bytes.
pub open spec fn opt_bytes(o: Option<&[u8]>) -> Option<Seq<u8>> {
    match o {
        Some(s) => Some(s@),
        None => None,
    }
}

/// What a scan of the tree at `root` collects on the pages of `db`.
pub open spec fn tree_collect(db: Database, root: u64, start: Option<Seq<u8>>, mode: ScanMode, fuel: nat) -> Option<Seq<(Seq<u8>, Seq<u8>)>> {
    match scan_start(db, root, start, fuel) {
        Some(p) => chain_collect(db, p, mode, fuel),
        None => None,
    }
}

/// The leftmost leaf is a page that is held.
pub proof fn lemma_leftmost_held(db: Database, p: u64, fuel: nat)
    ensures
        leftmost(db, p, fuel) is Some ==> db.stored(leftmost(db, p, fuel).unwrap()) is Some,
    decreases fuel,
{
    if fuel > 0 && db.stored(p) is Some {
        let bytes = db.stored(p).unwrap();
        if bytes[0] == NODE_INTERNAL {
            match crate::btree::internal_node::decode_internal(bytes) {
                Ok(n) => lemma_leftmost_held(db, n.children[0], (fuel - 1) as nat),
                Err(_) => {},
            }
        }
    }
}

/// `rows` are the values of the entries `es` decoded as rows of a table
/// with columns `cols`, in order.
pub open spec fn rows_decoded(es: Seq<(Seq<u8>, Seq<u8>)>, cols: Seq<crate::schema::column::ColumnV>, rows: Seq<Seq<ValueV>>) -> bool {
    &&& rows.len() == es.len()
    &&& forall|i: int| 0 <= i < es.len() ==> crate::row::decode_row(es[i].1, cols) == Ok::<Seq<ValueV>, DbError>(#[trigger] rows[i])
}

/// `rows` are the rows that a scan of the tree at `root` collects on the
/// pages of `db`, decoded for columns `cols` (unless the descent to the
/// start of the scan passes through the header page).
pub open spec fn scanned_rows(
    db: Database,
    root: u64,
    start: Option<Seq<u8>>,
    mode: ScanMode,
    fuel: nat,
    cols: Seq<crate::schema::column::ColumnV>,
    rows: Seq<Seq<ValueV>>,
) -> bool {
    scan_meets_header(db, root, start, fuel) || match tree_collect(db, root, start, mode, fuel) {
        Some(es) => rows_decoded(es, cols, rows),
        None => false,
    }
}

/// The key bytes of optional key cells.
pub open spec fn opt_key(o: Option<&[Value]>) -> Option<Seq<u8>> {
    match o {
        Some(v) => Some(key_bytes(v@)),
        None => None,
    }
}

/// Reading pages keeps what a chain of leaves gives.
pub proof fn lemma_chain_kept(a: Database, b: Database, p: u64, mode: ScanMode, fuel: nat)
    requires
        pages_kept(a, b),
    ensures
        chain_collect(a, p, mode, fuel) is Some ==> chain_collect(b, p, mode, fuel) == chain_collect(a, p, mode, fuel),
    decreases fuel,
{
    if fuel > 0 && a.stored(p) is Some {
        assert(b.stored(p) == a.stored(p));
        match crate::btree::leaf_node::decode_leaf(a.stored(p).unwrap()) {
            Ok(l) => {
                if l.next_leaf != 0 {
                    lemma_chain_kept(a, b, l.next_leaf, mode, (fuel - 1) as nat);
                }
            },
            Err(_) => {},
        }
    }
}

/// Reading pages keeps the leftmost leaf, and a descent along first children
/// that meets the header page.
pub proof fn lemma_leftmost_kept(a: Database, b: Database, p: u64, fuel: nat)
    requires
        pages_kept(a, b),
    ensures
        leftmost(a, p, fuel) is Some ==> leftmost(b, p, fuel) == leftmost(a, p, fuel),
        leftmost_meets_header(a, p, fuel) ==> leftmost_meets_header(b, p, fuel),
    decreases fuel,
{
    if fuel > 0 && a.stored(p) is Some {
        assert(b.stored(p) == a.stored(p));
        let bytes = a.stored(p).unwrap();
        if bytes[0] == NODE_INTERNAL {
            match crate::btree::internal_node::decode_internal(bytes) {
                Ok(n) => lemma_leftmost_kept(a, b, n.children[0], (fuel - 1) as nat),
                Err(_) => {},
            }
        }
    }
}

/// Reading pages keeps what a scan collects, and a start descent that meets
/// the header page.
pub proof fn lemma_collect_kept(a: Database, b: Database, root: u64, start: Option<Seq<u8>>, mode: ScanMode, fuel: nat)
    requires
        pages_kept(a, b),
    ensures
        tree_collect(a, root, start, mode, fuel) is Some ==> tree_collect(b, root, start, mode, fuel) == tree_collect(a, root, start, mode, fuel),
        scan_meets_header(a, root, start, fuel) ==> scan_meets_header(b, root, start, fuel),
{
    match start {
        Some(k) => {
            lemma_descent_kept(a, b, root, k, fuel);
            lemma_lookup_kept(a, b, root, k, fuel);
        },
        None => {
            lemma_leftmost_kept(a, b, root, fuel);
        },
    }
    match scan_start(a, root, start, fuel) {
        Some(p) => lemma_chain_kept(a, b, p, mode, fuel),
        None => {},
    }
}

/// Reading pages keeps what a tree holds for a key.
pub proof fn lemma_holds_kept(a: Database, b: Database, root: u64, key: Seq<u8>, fuel: nat, v: Option<Seq<u8>>)
    requires
        pages_kept(a, b),
        tree_holds(a, root, key, fuel, v),
    ensures
        tree_holds(b, root, key, fuel, v),
{
    lemma_lookup_kept(a, b, root, key, fuel);
}

/// `rows` are the rows that the table's tree at `root` holds under the
/// values of the entries `es`, in order: an entry whose value the tree holds
/// nothing under gives no row; any other gives its row decoded for columns
/// `cols`.
pub open spec fn found_rows(
    db: Database,
    root: u64,
    cols: Seq<crate::schema::column::ColumnV>,
    es: Seq<(Seq<u8>, Seq<u8>)>,
    fuel: nat,
    rows: Seq<Seq<ValueV>>,
) -> bool
    decreases es.len(),
{
    if es.len() == 0 {
        rows.len() == 0
    } else {
        let key = es.last().1;
        ||| tree_holds(db, root, key, fuel, None) && found_rows(db, root, cols, es.drop_last(), fuel, rows)
        ||| rows.len() > 0 && (exists|b: Seq<u8>|
            crate::row::decode_row(b, cols) == Ok::<Seq<ValueV>, DbError>(rows.last()) && #[trigger] tree_holds(db, root, key, fuel, Some(b)))
            && found_rows(db, root, cols, es.drop_last(), fuel, rows.drop_last())
    }
}

/// Reading pages keeps the rows found under a list of keys.
pub proof fn lemma_found_rows_kept(
    a: Database,
    b: Database,
    root: u64,
    cols: Seq<crate::schema::column::ColumnV>,
    es: Seq<(Seq<u8>, Seq<u8>)>,
    fuel: nat,
    rows: Seq<Seq<ValueV>>,
)
    requires
        pages_kept(a, b),
        found_rows(a, root, cols, es, fuel, rows),
    ensures
        found_rows(b, root, cols, es, fuel, rows),
    decreases es.len(),
{
    if es.len() > 0 {
        let key = es.last().1;
        if tree_holds(a, root, key, fuel, None) && found_rows(a, root, cols, es.drop_last(), fuel, rows) {
            lemma_holds_kept(a, b, root, key, fuel, None);
            lemma_found_rows_kept(a, b, root, cols, es.drop_last(), fuel, rows);
        } else {
            let w = choose|w: Seq<u8>|
                crate::row::decode_row(w, cols) == Ok::<Seq<ValueV>, DbError>(rows.last()) && #[trigger] tree_holds(a, root, key, fuel, Some(w));
            lemma_holds_kept(a, b, root, key, fuel, Some(w));
            lemma_found_rows_kept(a, b, root, cols, es.drop_last(), fuel, rows.drop_last());
            assert(tree_holds(b, root, key, fuel, Some(w)));
        }
    }
}

/// What looking rows up through the index of table `t` called `name`
/// gives: the rows that the table holds under the values of the index
/// entries that a scan of the index from `start` collects (unless the
/// descent to the start passes through the header page).
pub open spec fn index_rows(
    db: Database,
    t: TableSchemaV,
    name: Seq<char>,
    start: Option<Seq<u8>>,
    mode: ScanMode,
    fuel: nat,
    rows: Seq<Seq<ValueV>>,
) -> bool {
    match crate::schema::table_schema::index_position(t.indexes, name) {
        Some(ix) => scan_meets_header(db, t.indexes[ix].root_page, start, fuel) || match tree_collect(
            db,
            t.indexes[ix].root_page,
            start,
            mode,
            fuel,
        ) {
            Some(es) => found_rows(db, t.root_page, t.columns, es, fuel, rows),
            None => false,
        },
        None => false,
    }
}

/// Keeping pages is transitive.
pub proof fn lemma_kept_trans(a: Database, b: Database, c: Database)
    requires
        pages_kept(a, b),
        pages_kept(b, c),
    ensures
        pages_kept(a, c),
{
    assert forall|n: u64| #![trigger a.stored(n)] #![trigger c.stored(n)] a.stored(n) is Some implies c.stored(n) == a.stored(n) by {
        assert(b.stored(n) == a.stored(n));
    }
}

/// `rows` are the rows of table `t` as a scan of its tree finds them on the
/// pages of `db` (as a later read sees those pages).
pub open spec fn table_rows(db: Database, t: TableSchemaV, rows: Seq<Seq<ValueV>>) -> bool {
    exists|d: Database|
        #[trigger] pages_kept(db, d) && scanned_rows(
            d,
            t.root_page,
            None,
            ScanMode::Range { lo: None, hi: None },
            db.header_view().total_pages as nat,
            t.columns,
            rows,
        )
}

/// `rows` are what looking the key `key` up in the index called `name` of
/// table `t` finds on the pages of `db` (as a later read sees those pages).
pub open spec fn index_lookup_rows(db: Database, t: TableSchemaV, name: Seq<char>, key: Seq<u8>, rows: Seq<Seq<ValueV>>) -> bool {
    exists|d: Database|
        #[trigger] pages_kept(db, d) && index_rows(d, t, name, Some(key), ScanMode::Prefix { p: key }, db.header_view().total_pages as nat, rows)
}

/// Rows found after reads are rows found before them.
pub proof fn lemma_found_earlier(a: Database, b: Database, t: TableSchemaV, name: Seq<char>, key: Seq<u8>, rows: Seq<Seq<ValueV>>)
    requires
        pages_kept(a, b),
        b.header_view() == a.header_view(),
    ensures
        table_rows(b, t, rows) ==> table_rows(a, t, rows),
        index_lookup_rows(b, t, name, key, rows) ==> index_lookup_rows(a, t, name, key, rows),
{
    if table_rows(b, t, rows) {
        let d = choose|d: Database|
            #[trigger] pages_kept(b, d) && scanned_rows(
                d,
                t.root_page,
                None,
                ScanMode::Range { lo: None, hi: None },
                b.header_view().total_pages as nat,
                t.columns,
                rows,
            );
        lemma_kept_trans(a, b, d);
    }
    if index_lookup_rows(b, t, name, key, rows) {
        let d = choose|d: Database|
            #[trigger] pages_kept(b, d) && index_rows(d, t, name, Some(key), ScanMode::Prefix { p: key }, b.header_view().total_pages as nat, rows);
        lemma_kept_trans(a, b, d);
    }
}

/// A descent that succeeds does not pass through the header page.
pub proof fn lemma_lookup_not_header(db: Database, p: u64, key: Seq<u8>, fuel: nat)
    ensures
        tree_lookup(db, p, key, fuel) is Some ==> !meets_header(db, p, key, fuel),
    decreases fuel,
{
    if fuel > 0 && db.stored(p) is Some {
        let bytes = db.stored(p).unwrap();
        if bytes[0] == NODE_INTERNAL {
            match crate::btree::internal_node::decode_internal(bytes) {
                Ok(n) => lemma_lookup_not_header(db, n.children[child_pos(n.keys, key)], key, (fuel - 1) as nat),
                Err(_) => {},
            }
        }
    }
}

/// The descent for `key` from page `p` on the pages of `db` reaches the
/// header page within `fuel` levels.
pub open spec fn meets_header(db: Database, p: u64, key: Seq<u8>, fuel: nat) -> bool
    decreases fuel,
{
    if fuel == 0 {
        false
    } else if p == 0 {
        true
    } else {
        match db.stored(p) {
            None => false,
            Some(b) => if b[0] == NODE_INTERNAL {
                match crate::btree::internal_node::decode_internal(b) {
                    Ok(n) => meets_header(db, n.children[child_pos(n.keys, key)], key, (fuel - 1) as nat),
                    Err(_) => false,
                }
            } else {
                false
            },
        }
    }
}

/// Picks the child of `node` to descend into for `key`.
fn child_index(node: &InternalNode, key: &[u8]) -> (r: usize)
    ensures
        child_for(node@.keys, key@, r as int),
{
    let mut i: usize = 0;
    while i < node.keys.len()
        invariant
            0 <= i <= node@.keys.len(),
            forall|j: int| 0 <= j < i ==> !lex_lt(key@, node@.keys[j]),
        decreases node@.keys.len() - i,
    {
        assert(node.keys@[i as int]@ == node@.keys[i as int]);
        if compare_bytes(key, node.keys[i].as_slice()) == KeyOrder::Less {
            return i;
        }
        i = i + 1;
    }
    i
}

/// Looks `key` up in a leaf, scanning keys in order and stopping at the first
/// key above it.
fn leaf_lookup(leaf: &LeafNode, key: &[u8]) -> (r: Option<Vec<u8>>)
    requires
        leaf.keys@.len() == leaf.values@.len(),
    ensures
        match r {
            Some(v) => Some(v@),
            None => None,
        } == leaf_scan(leaf@.keys, leaf@.values, key@, 0),
{
    let ghost ks = leaf@.keys;
    let ghost vs = leaf@.values;
    let mut i: usize = 0;
    while i < leaf.keys.len()
        invariant
            0 <= i <= ks.len(),
            ks == leaf@.keys,
            vs == leaf@.values,
            leaf.keys@.len() == leaf.values@.len(),
            leaf_scan(ks, vs, key@, 0) == leaf_scan(ks, vs, key@, i as int),
        decreases ks.len() - i,
    {
        assert(leaf.keys@[i as int]@ == ks[i as int]);
        let c = compare_bytes(leaf.keys[i].as_slice(), key);
        proof {
            crate::codec::lemma_lex_order_flip(ks[i as int], key@);
        }
        if c == KeyOrder::Equal {
            let v = vstd::slice::slice_to_vec(leaf.values[i].as_slice());
            assert(leaf.values@[i as int]@ == vs[i as int]);
            return Some(v);
        }
        if c == KeyOrder::Greater {
            return None;
        }
        i = i + 1;
    }
    None
}

/// The position of the first key equal to `key`.
fn leaf_position(leaf: &LeafNode, key: &[u8]) -> (r: Option<usize>)
    ensures
        match r {
            Some(i) => i < leaf@.keys.len() && leaf@.keys[i as int] == key@ && forall|j: int| 0 <= j < i ==> leaf@.keys[j] != key@,
            None => forall|j: int| 0 <= j < leaf@.keys.len() ==> leaf@.keys[j] != key@,
        },
{
    let mut i: usize = 0;
    while i < leaf.keys.len()
        invariant
            0 <= i <= leaf@.keys.len(),
            forall|j: int| 0 <= j < i ==> leaf@.keys[j] != key@,
        decreases leaf@.keys.len() - i,
    {
        assert(leaf.keys@[i as int]@ == leaf@.keys[i as int]);
        if bytes_equal(leaf.keys[i].as_slice(), key) {
            return Some(i);
        }
        i = i + 1;
    }
    None
}

/// A key-value entry of a tree.
pub type Entry = (Vec<u8>, Vec<u8>);

impl Database {
    /// Follows separators from `root` down to a leaf and looks `key` up there.
    /// Fails with `InvalidData` on a page that is neither kind of node, or
    /// when the descent is longer than the file has pages. What it finds is
    /// what the tree in the database holds for `key` (unless the descent
    /// passes through the header page).
    fn btree_search(&mut self, root: u64, key: &[u8]) -> (r: Result<Option<Vec<u8>>, DbError>)
        requires
            old(self).inv(),
        ensures
            final(self).inv(),
            final(self).tables() == old(self).tables(),
            final(self).header_view() == old(self).header_view(),
            r is Ok ==> pages_kept(*old(self), *final(self)),
            r matches Ok(v) ==> tree_lookup(*final(self), root, key@, old(self).header_view().total_pages as nat) == Some(
                match v {
                    Some(x) => Some(x@),
                    None => None,
                },
            ) || meets_header(*final(self), root, key@, old(self).header_view().total_pages as nat),
            descent_pages(*old(self), root, key@, old(self).header_view().total_pages as nat) matches Some(ps) && pages_readable(*old(self), ps)
                ==> r is Ok,
            final(self).file_page_count() == old(self).file_page_count(),
            cache_writable(old(self).cache_view()) && r is Ok ==> cache_writable(final(self).cache_view()),
    {
        let mut current = root;
        let mut fuel = self.header.total_pages();
        let ghost fuel0 = fuel as nat;
        let ghost mut met = false;
        let ghost s_old = *old(self);
        let ghost good = descent_pages(s_old, root, key@, fuel0) is Some && pages_readable(s_old, descent_pages(s_old, root, key@, fuel0).unwrap());
        let ghost ps0 = descent_pages(s_old, root, key@, fuel0).unwrap();
        while fuel > 0
            invariant
                self.inv(),
                self.tables() == old(self).tables(),
                self.header_view() == old(self).header_view(),
                fuel0 == old(self).header_view().total_pages,
                fuel <= fuel0,
                pages_kept(*old(self), *self),
                !met ==> forall|x: Database| #[trigger] pages_kept(*self, x) ==> tree_lookup(x, root, key@, fuel0) == tree_lookup(x, current, key@, fuel as nat)
                    && meets_header(x, root, key@, fuel0) == meets_header(x, current, key@, fuel as nat),
                met ==> forall|x: Database| #[trigger] pages_kept(*self, x) ==> meets_header(x, root, key@, fuel0),
                self.file_page_count() == old(self).file_page_count(),
                cache_writable(old(self).cache_view()) ==> cache_writable(self.cache_view()),
                s_old == *old(self),
                fuel0 == old(self).header_view().total_pages as nat,
                ps0 == descent_pages(s_old, root, key@, fuel0).unwrap(),
                good == (descent_pages(s_old, root, key@, fuel0) is Some && pages_readable(s_old, ps0)),
                good ==> pages_readable(s_old, ps0),
                good ==> pages_readable(*self, ps0),
                good ==> descent_pages(s_old, current, key@, fuel as nat) is Some,
                good ==> forall|i: int|
                    0 <= i < descent_pages(s_old, current, key@, fuel as nat).unwrap().len() ==> ps0.contains(
                        #[trigger] descent_pages(s_old, current, key@, fuel as nat).unwrap()[i],
                    ),
            decreases fuel,
        {
            let ghost s0 = *self;
            let ghost f0 = fuel as nat;
            proof {
                if !met && current == 0 {
                    assert forall|x: Database| #[trigger] pages_kept(*self, x) implies meets_header(x, root, key@, fuel0) by {
                        assert(meets_header(x, current, key@, f0));
                    }
                    met = true;
                }
            }
            proof {
                if good {
                    let cur = descent_pages(s_old, current, key@, f0).unwrap();
                    lemma_descent_agrees(s_old, s_old, current, key@, f0, f0);
                    assert(cur[0] == current);
                    assert(ps0.contains(cur[0]));
                    lemma_pages_readable(s0, ps0, current);
                    lemma_pages_readable(s_old, ps0, current);
                }
            }
            fuel = fuel - 1;
            let page = match self.read_page(current) {
                Ok(p) => p,
                Err(e) => return Err(e),
            };
            let ghost s1 = *self;
            proof {
                if good {
                    lemma_pages_readable_kept(s0, s1, ps0);
                    assert(s0.stored(current) == Some(page@));
                    assert(s0.stored(current) == s_old.stored(current));
                    assert(s_old.stored(current) == Some(page@));
                }
                assert forall|x: Database| #[trigger] pages_kept(s1, x) implies pages_kept(s0, x) by {
                    assert forall|n: u64| #![trigger s0.stored(n)] #![trigger x.stored(n)] s0.stored(n) is Some implies x.stored(n) == s0.stored(n) by {
                        assert(s1.stored(n) == s0.stored(n));
                    }
                }
            }
            if page[0] == NODE_INTERNAL {
                let node = match InternalNode::deserialize(page.as_slice()) {
                    Ok(n) => n,
                    Err(e) => return Err(e),
                };
                let c = child_index(&node, key);
                proof {
                    lemma_child_pos(node@.keys, key@, c as int);
                    if good {
                        let cur = descent_pages(s_old, current, key@, f0).unwrap();
                        let ch = node.children@[c as int];
                        assert(node@.children[c as int] == ch);
                        let rest = descent_pages(s_old, ch, key@, fuel as nat).unwrap();
                        assert(cur == seq![current] + rest);
                        assert forall|i: int| 0 <= i < rest.len() implies ps0.contains(#[trigger] rest[i]) by {
                            assert(rest[i] == cur[i + 1]);
                        }
                    }
                    if !met {
                        assert forall|x: Database| #[trigger] pages_kept(s1, x) implies tree_lookup(x, root, key@, fuel0) == tree_lookup(x, node.children@[c as int], key@, fuel as nat)
                            && meets_header(x, root, key@, fuel0) == meets_header(x, node.children@[c as int], key@, fuel as nat) by {
                            assert(pages_kept(s0, x));
                            assert(x.stored(current) == Some(page@));
                            assert(node@.children[c as int] == node.children@[c as int]);
                        }
                    }
                }
                current = node.children[c];
            } else if page[0] == NODE_LEAF {
                let leaf = match LeafNode::deserialize(page.as_slice()) {
                    Ok(l) => l,
                    Err(e) => return Err(e),
                };
                let found = leaf_lookup(&leaf, key);
                proof {
                    assert(pages_kept(s1, s1));
                    assert(pages_kept(s0, s1));
                    if !met {
                        assert(s1.stored(current) == Some(page@));
                        assert(tree_lookup(s1, current, key@, f0) == Some(leaf_scan(leaf@.keys, leaf@.values, key@, 0)));
                    }
                }
                return Ok(found);
            } else {
                return Err(DbError::InvalidData);
            }
        }
        Err(DbError::InvalidData)
    }

    /// Follows separators from `root` down to the leaf for `key`, recording
    /// each internal page and the child taken.
    fn find_leaf_with_path(&mut self, root: u64, key: &[u8]) -> (r: Result<(u64, Vec<(u64, usize)>), DbError>)
        requires
            old(self).inv(),
        ensures
            final(self).inv(),
            final(self).tables() == old(self).tables(),
            final(self).header_view() == old(self).header_view(),
            r is Ok ==> pages_kept(*old(self), *final(self)),
            r matches Ok((leaf, path)) ==> {
                &&& leaf != 0 ==> leaf_tagged(final(self).stored(leaf))
                &&& leaf == 0 ==> forall|x: Database| #[trigger] agrees_on(x, *final(self), path_pages(path@)) ==> meets_header(x, root, key@, old(self).header_view().total_pages as nat)
                &&& forall|i: int| 0 <= i < path@.len() && (#[trigger] path@[i]).0 != 0 ==> internal_tagged(final(self).stored(path@[i].0))
                &&& forall|x: Database| #[trigger] agrees_on(x, *final(self), path_pages(path@)) && leaf_tagged(x.stored(leaf)) ==> tree_lookup(
                    x,
                    root,
                    key@,
                    old(self).header_view().total_pages as nat,
                ) == tree_lookup(x, leaf, key@, 1) && descent_leaf(x, root, key@, old(self).header_view().total_pages as nat)
                    == descent_leaf(x, leaf, key@, 1) || meets_header(x, root, key@, old(self).header_view().total_pages as nat)
                &&& path_to(*final(self), root, key@, path@, leaf) || meets_header(*final(self), root, key@, old(self).header_view().total_pages as nat)
            },
            descent_pages(*old(self), root, key@, old(self).header_view().total_pages as nat) matches Some(ps) && pages_readable(*old(self), ps)
                ==> r is Ok,
            final(self).file_page_count() == old(self).file_page_count(),
            cache_writable(old(self).cache_view()) && r is Ok ==> cache_writable(final(self).cache_view()),
    {
        let mut path: Vec<(u64, usize)> = Vec::new();
        let mut current = root;
        let mut fuel = self.header.total_pages();
        let ghost fuel0 = fuel as nat;
        let ghost mut met = false;
        let ghost s_old = *old(self);
        let ghost good = descent_pages(s_old, root, key@, fuel0) is Some && pages_readable(s_old, descent_pages(s_old, root, key@, fuel0).unwrap());
        let ghost ps0 = descent_pages(s_old, root, key@, fuel0).unwrap();
        assert(path_pages(path@) =~= Seq::<u64>::empty());
        while fuel > 0
            invariant
                self.inv(),
                self.tables() == old(self).tables(),
                self.header_view() == old(self).header_view(),
                fuel0 == old(self).header_view().total_pages,
                fuel <= fuel0,
                pages_kept(*old(self), *self),
                forall|i: int| 0 <= i < path@.len() && (#[trigger] path@[i]).0 != 0 ==> internal_tagged(self.stored(path@[i].0)),
                !met ==> forall|x: Database| #[trigger] agrees_on(x, *self, path_pages(path@)) ==> tree_lookup(x, root, key@, fuel0) == tree_lookup(x, current, key@, fuel as nat)
                    && meets_header(x, root, key@, fuel0) == meets_header(x, current, key@, fuel as nat)
                    && descent_leaf(x, root, key@, fuel0) == descent_leaf(x, current, key@, fuel as nat),
                met ==> forall|x: Database| #[trigger] agrees_on(x, *self, path_pages(path@)) ==> meets_header(x, root, key@, fuel0),
                !met ==> path_to(*self, root, key@, path@, current),
                self.file_page_count() == old(self).file_page_count(),
                cache_writable(old(self).cache_view()) ==> cache_writable(self.cache_view()),
                s_old == *old(self),
                ps0 == descent_pages(s_old, root, key@, fuel0).unwrap(),
                good == (descent_pages(s_old, root, key@, fuel0) is Some && pages_readable(s_old, ps0)),
                good ==> pages_readable(*self, ps0),
                good ==> descent_pages(s_old, current, key@, fuel as nat) is Some,
                good ==> forall|i: int|
                    0 <= i < descent_pages(s_old, current, key@, fuel as nat).unwrap().len() ==> ps0.contains(
                        #[trigger] descent_pages(s_old, current, key@, fuel as nat).unwrap()[i],
                    ),
            decreases fuel,
        {
            let ghost s0 = *self;
            let ghost f0 = fuel as nat;
            let ghost pp0 = path_pages(path@);
            let ghost path0 = path@;
            proof {
                if !met && current == 0 {
                    assert forall|x: Database| #[trigger] agrees_on(x, *self, path_pages(path@)) implies meets_header(x, root, key@, fuel0) by {
                        assert(meets_header(x, current, key@, f0));
                    }
                    met = true;
                }
            }
            proof {
                if good {
                    let cur = descent_pages(s_old, current, key@, f0).unwrap();
                    lemma_descent_agrees(s_old, s_old, current, key@, f0, f0);
                    assert(cur[0] == current);
                    assert(ps0.contains(cur[0]));
                    lemma_pages_readable(s0, ps0, current);
                    lemma_pages_readable(s_old, ps0, current);
                }
            }
            fuel = fuel - 1;
            let page = match self.read_page(current) {
                Ok(p) => p,
                Err(e) => return Err(e),
            };
            let ghost s1 = *self;
            proof {
                if good {
                    lemma_pages_readable_kept(s0, s1, ps0);
                    assert(s0.stored(current) == Some(page@));
                    assert(s0.stored(current) == s_old.stored(current));
                    assert(s_old.stored(current) == Some(page@));
                }
                assert forall|i: int| 0 <= i < pp0.len() implies s1.stored(#[trigger] pp0[i]) == s0.stored(pp0[i]) by {
                    if pp0[i] != 0 {
                        assert(path@[i].0 == pp0[i]);
                    }
                }
                assert forall|i: int| 0 <= i < path@.len() && (#[trigger] path@[i]).0 != 0 implies internal_tagged(s1.stored(path@[i].0)) by {
                    assert(pp0[i] == path@[i].0);
                }
                assert(agrees_on(s1, s0, pp0));
                if !met {
                    lemma_path_agrees(s0, s1, root, key@, path0, current);
                }
            }
            if page[0] == NODE_INTERNAL {
                let node = match InternalNode::deserialize(page.as_slice()) {
                    Ok(n) => n,
                    Err(e) => return Err(e),
                };
                let c = child_index(&node, key);
                let ghost next = node.children@[c as int];
                path.push((current, c));
                let ghost pp1 = path_pages(path@);
                proof {
                    if good {
                        let cur = descent_pages(s_old, current, key@, f0).unwrap();
                        assert(node@.children[c as int] == next);
                        let rest = descent_pages(s_old, next, key@, fuel as nat).unwrap();
                        assert(cur == seq![current] + rest);
                        assert forall|i: int| 0 <= i < rest.len() implies ps0.contains(#[trigger] rest[i]) by {
                            assert(rest[i] == cur[i + 1]);
                        }
                    }
                    assert(pp1 =~= pp0.push(current));
                    lemma_child_pos(node@.keys, key@, c as int);
                    assert(node@.children[c as int] == next);
                    if !met {
                        assert forall|x: Database| #[trigger] agrees_on(x, s1, pp1) implies tree_lookup(x, root, key@, fuel0) == tree_lookup(x, next, key@, fuel as nat)
                            && meets_header(x, root, key@, fuel0) == meets_header(x, next, key@, fuel as nat)
                            && descent_leaf(x, root, key@, fuel0) == descent_leaf(x, next, key@, fuel as nat) by {
                            assert forall|i: int| 0 <= i < pp0.len() implies x.stored(#[trigger] pp0[i]) == s0.stored(pp0[i]) by {
                                assert(pp1[i] == pp0[i]);
                            }
                            assert(agrees_on(x, s0, pp0));
                            assert(pp1[pp0.len() as int] == current);
                            assert(x.stored(current) == Some(page@));
                        }
                    } else {
                        assert forall|x: Database| #[trigger] agrees_on(x, s1, pp1) implies meets_header(x, root, key@, fuel0) by {
                            assert forall|i: int| 0 <= i < pp0.len() implies x.stored(#[trigger] pp0[i]) == s0.stored(pp0[i]) by {
                                assert(pp1[i] == pp0[i]);
                            }
                            assert(agrees_on(x, s0, pp0));
                        }
                    }
                    assert forall|i: int| 0 <= i < path@.len() && (#[trigger] path@[i]).0 != 0 implies internal_tagged(s1.stored(path@[i].0)) by {
                        if i == path@.len() - 1 {
                            assert(path@[i].0 == current);
                        } else {
                            assert(pp0[i] == path@[i].0);
                        }
                    }
                    if !met {
                        assert(s1.stored(current) == Some(page@));
                        assert(node@.children.len() == node@.keys.len() + 1);
                        assert(descends(s1, (current, c), key@, next));
                        assert forall|i: int| 0 <= i < path@.len() implies descends(s1, #[trigger] path@[i], key@, if i + 1 < path@.len() {
                            path@[i + 1].0
                        } else {
                            next
                        }) by {
                            if i < path0.len() {
                                assert(path@[i] == path0[i]);
                                assert(descends(s1, path0[i], key@, if i + 1 < path0.len() { path0[i + 1].0 } else { current }));
                            }
                        }
                        assert(path_to(s1, root, key@, path@, next));
                    }
                }
                current = node.children[c];
            } else if page[0] == NODE_LEAF {
                proof {
                    assert forall|x: Database| #[trigger] agrees_on(x, s1, pp0) && leaf_tagged(x.stored(current)) implies tree_lookup(
                        x,
                        root,
                        key@,
                        fuel0,
                    ) == tree_lookup(x, current, key@, 1) && descent_leaf(x, root, key@, fuel0) == descent_leaf(x, current, key@, 1)
                        || meets_header(x, root, key@, fuel0) by {
                        assert forall|i: int| 0 <= i < pp0.len() implies x.stored(#[trigger] pp0[i]) == s0.stored(pp0[i]) by {}
                        assert(agrees_on(x, s0, pp0));
                    }
                    if current == 0 {
                        assert forall|x: Database| #[trigger] agrees_on(x, s1, pp0) implies meets_header(x, root, key@, fuel0) by {
                            assert forall|i: int| 0 <= i < pp0.len() implies x.stored(#[trigger] pp0[i]) == s0.stored(pp0[i]) by {}
                            assert(agrees_on(x, s0, pp0));
                        }
                    }
                }
                return Ok((current, path));
            } else {
                return Err(DbError::InvalidData);
            }
        }
        Err(DbError::InvalidData)
    }

    /// Inserts or replaces the value of `key` in the tree at `root`, splitting
    /// nodes that become full; returns the (possibly new) root.
    #[verifier::rlimit(100)]
    #[verifier::spinoff_prover]
    fn btree_insert(&mut self, root: u64, key: Vec<u8>, value: Vec<u8>) -> (r: Result<u64, DbError>)
        requires
            old(self).inv(),
        ensures
            final(self).inv(),
            final(self).tables() == old(self).tables(),
            final(self).header_view().schema_catalog_root == old(self).header_view().schema_catalog_root,
            final(self).header_view().total_pages >= old(self).header_view().total_pages,
            r is Ok && final(self).header_view().total_pages == old(self).header_view().total_pages ==> r == Ok::<u64, DbError>(root)
                && tree_holds(*final(self), root, key@, old(self).header_view().total_pages as nat, Some(value@)),
            split_ready(*old(self), root, key@, old(self).header_view().total_pages as nat) ==> (r matches Ok(nr) ==> tree_lookup(
                *final(self),
                nr,
                key@,
                final(self).header_view().total_pages as nat,
            ) == Some(Some(value@)) && new_descent(
                *final(self),
                nr,
                key@,
                final(self).header_view().total_pages as nat,
                old(self).header_view().total_pages,
                insert_writes(*old(self), root, key@, old(self).header_view().total_pages as nat),
            )),
            split_ready(*old(self), root, key@, old(self).header_view().total_pages as nat) ==> (r is Ok ==> kept_outside(
                *old(self),
                *final(self),
                insert_writes(*old(self), root, key@, old(self).header_view().total_pages as nat),
            )),
            insert_fits(*old(self), root, key@, value@, old(self).header_view().total_pages as nat) ==> r == Ok::<u64, DbError>(root),
            r is Ok && final(self).header_view().total_pages == old(self).header_view().total_pages ==> forall|k2: Seq<u8>|
                k2 != key@ && (#[trigger] tree_lookup(*old(self), root, k2, old(self).header_view().total_pages as nat)) is Some
                    ==> tree_lookup(*final(self), root, k2, old(self).header_view().total_pages as nat) == tree_lookup(
                    *old(self),
                    root,
                    k2,
                    old(self).header_view().total_pages as nat,
                ),
            insert_fits(*old(self), root, key@, value@, old(self).header_view().total_pages as nat) ==> forall|k2: Seq<u8>|
                k2 != key@ && (#[trigger] tree_lookup(*old(self), root, k2, old(self).header_view().total_pages as nat)) is Some
                    ==> tree_lookup(*final(self), root, k2, old(self).header_view().total_pages as nat) == tree_lookup(
                    *old(self),
                    root,
                    k2,
                    old(self).header_view().total_pages as nat,
                ),
    {
        let ghost kv = key@;
        let ghost vv = value@;
        let ghost s0 = *self;
        let ghost fuel0 = old(self).header_view().total_pages as nat;
        let ghost ready = split_ready(s0, root, kv, fuel0);
        let ghost fits = insert_fits(s0, root, kv, vv, fuel0);
        let ghost ps0 = descent_pages(s0, root, kv, fuel0).unwrap();
        let (leaf_page, path) = match self.find_leaf_with_path(root, key.as_slice()) {
            Ok(x) => x,
            Err(e) => return Err(e),
        };
        let ghost s1 = *self;
        let ghost pp = path_pages(path@);
        proof {
            if fits {
                lemma_start_leaf_found(s0, s1, root, kv, fuel0, leaf_page, pp);
                lemma_descent_readable_kept(s0, s1, root, kv, fuel0);
                assert(ps0.contains(ps0.last())) by {
                    assert(ps0[ps0.len() - 1] == ps0.last());
                }
                lemma_pages_readable(s1, ps0, ps0.last());
                lemma_descent_stored(s0, root, kv, fuel0);
                assert(s1.stored(leaf_page) == s0.stored(leaf_page));
            }
        }
        let mut leaf = match self.read_leaf(leaf_page) {
            Ok(l) => l,
            Err(e) => return Err(e),
        };
        let ghost s2 = *self;
        let ghost read = leaf@;
        proof {
            if ready {
                lemma_insert_descent(s0, s1, s2, root, kv, fuel0, leaf_page, path@, leaf@);
            }
        }
        let pos = leaf.find_key_position(key.as_slice());
        if pos < leaf.keys.len() && bytes_equal(leaf.keys[pos].as_slice(), key.as_slice()) {
            assert(leaf.keys@[pos as int]@ == leaf@.keys[pos as int]);
            let ghost before = leaf@;
            leaf.values.set(pos, value);
            assert(leaf@.keys == before.keys);
            assert(leaf@.values =~= before.values.update(pos as int, vv));
            proof {
                if fits {
                    crate::btree::leaf_node::lemma_leaf_update_fits(before, pos as int, vv);
                    assert(leaf@ == (crate::btree::leaf_node::LeafV { values: before.values.update(pos as int, vv), ..before }));
                }
            }
            match self.write_leaf(leaf_page, &leaf) {
                Ok(()) => {
                    proof {
                        assert forall|k2: Seq<u8>| k2 != kv implies #[trigger] leaf_scan(leaf@.keys, leaf@.values, k2, 0) == leaf_scan(
                            read.keys,
                            read.values,
                            k2,
                            0,
                        ) by {
                            lemma_scan_update_other(read.keys, read.values, vv, pos as int, k2, 0);
                        }
                        lemma_leaf_write_keeps_others(s0, s1, s2, *self, root, kv, fuel0, leaf_page, read, leaf@);
                        self.lemma_leaf_rewritten(s1, s2, root, kv, fuel0, leaf_page, pp, leaf@, pos as int, vv);
                        if ready {
                            lemma_found_on_path(s1, *self, root, kv, path@, leaf_page, fuel0);
                            assert(insert_writes(s0, root, kv, fuel0)[pp.len() as int] == leaf_page);
                            lemma_leaf_frame(s0, s2, *self, leaf_page, insert_writes(s0, root, kv, fuel0));
                            lemma_same_descent_new(*self, root, kv, pp.push(leaf_page), fuel0 as u64, insert_writes(s0, root, kv, fuel0));
                        }
                    }
                    return Ok(root);
                },
                Err(e) => return Err(e),
            }
        }
        let ghost before = leaf@;
        leaf.keys.insert(pos, key);
        leaf.values.insert(pos, value);
        assert(leaf@.keys =~= before.keys.insert(pos as int, kv));
        assert(leaf@.values =~= before.values.insert(pos as int, vv));
        proof {
            if fits {
                crate::btree::leaf_node::lemma_leaf_insert_fits(before, pos as int, kv, vv);
                assert(leaf@ == (crate::btree::leaf_node::LeafV {
                    keys: before.keys.insert(pos as int, kv),
                    values: before.values.insert(pos as int, vv),
                    ..before
                }));
            }
        }
        if !leaf.is_full() {
            match self.write_leaf(leaf_page, &leaf) {
                Ok(()) => {
                    proof {
                        assert forall|k2: Seq<u8>| k2 != kv implies #[trigger] leaf_scan(leaf@.keys, leaf@.values, k2, 0) == leaf_scan(
                            read.keys,
                            read.values,
                            k2,
                            0,
                        ) by {
                            lemma_scan_insert_other(read.keys, read.values, kv, vv, pos as int, k2, 0);
                        }
                        lemma_leaf_write_keeps_others(s0, s1, s2, *self, root, kv, fuel0, leaf_page, read, leaf@);
                        self.lemma_leaf_rewritten(s1, s2, root, kv, fuel0, leaf_page, pp, leaf@, pos as int, vv);
                        if ready {
                            lemma_found_on_path(s1, *self, root, kv, path@, leaf_page, fuel0);
                            assert(insert_writes(s0, root, kv, fuel0)[pp.len() as int] == leaf_page);
                            lemma_leaf_frame(s0, s2, *self, leaf_page, insert_writes(s0, root, kv, fuel0));
                            lemma_same_descent_new(*self, root, kv, pp.push(leaf_page), fuel0 as u64, insert_writes(s0, root, kv, fuel0));
                        }
                    }
                    Ok(root)
                },
                Err(e) => Err(e),
            }
        } else {
            proof {
                if ready {
                    lemma_split_entry(s0, s1, s2, root, kv, vv, fuel0, leaf_page, path@, before, leaf@, pos as int);
                }
            }
            let ghost path_len = path@.len();
            let ghost next = leaf@.next_leaf;
            assert(next == before.next_leaf);
            let r = self.split_and_propagate(
                leaf_page,
                leaf,
                path,
                root,
                Ghost(kv),
                Ghost(vv),
                Ghost(pos as int),
                Ghost(fuel0 as u64),
                Ghost(insert_writes(s0, root, kv, fuel0)),
            );
            proof {
                if ready && r is Ok {
                    lemma_split_exit(s0, s2, *self, root, kv, vv, fuel0, pp, leaf_page, next, r->Ok_0);
                }
            }
            r
        }
    }

    /// After the leaf that the descent for `key` reached is rewritten with
    /// `key` at `pos` (every key before it coming first) and value `v`, the
    /// tree gives `v` for `key`.
    proof fn lemma_leaf_rewritten(
        &self,
        s1: Database,
        s2: Database,
        root: u64,
        key: Seq<u8>,
        fuel0: nat,
        leaf_page: u64,
        pp: Seq<u64>,
        l: crate::btree::leaf_node::LeafV,
        pos: int,
        v: Seq<u8>,
    )
        requires
            pages_kept(s1, s2),
            page_written(s2, *self, leaf_page, crate::btree::leaf_node::leaf_bytes(l)),
            crate::btree::leaf_node::leaf_fits(l),
            leaf_page != 0 ==> leaf_tagged(s1.stored(leaf_page)),
            leaf_page == 0 ==> forall|x: Database| #[trigger] agrees_on(x, s1, pp) ==> meets_header(x, root, key, fuel0),
            forall|i: int| 0 <= i < pp.len() && (#[trigger] pp[i]) != 0 ==> internal_tagged(s1.stored(pp[i])),
            forall|x: Database| #[trigger] agrees_on(x, s1, pp) && leaf_tagged(x.stored(leaf_page)) ==> tree_lookup(x, root, key, fuel0)
                == tree_lookup(x, leaf_page, key, 1) || meets_header(x, root, key, fuel0),
            0 <= pos < l.keys.len(),
            l.keys[pos] == key,
            l.values[pos] == v,
            forall|j: int| 0 <= j < pos ==> lex_lt(#[trigger] l.keys[j], key),
        ensures
            tree_lookup(*self, root, key, fuel0) == Some(Some(v)) || meets_header(*self, root, key, fuel0),
            agrees_on(*self, s1, pp),
            leaf_page != 0 ==> tree_lookup(*self, leaf_page, key, 1) == Some(Some(v)) && descent_pages(*self, leaf_page, key, 1) is Some,
    {
        assert forall|i: int| 0 <= i < pp.len() implies self.stored(#[trigger] pp[i]) == s1.stored(pp[i]) by {
            if pp[i] != 0 {
                assert(internal_tagged(s1.stored(pp[i])));
                if leaf_page != 0 {
                    assert(pp[i] != leaf_page);
                }
                assert(s2.stored(pp[i]) == s1.stored(pp[i]));
            }
        }
        assert(agrees_on(*self, s1, pp));
        if leaf_page != 0 {
            crate::btree::leaf_node::lemma_leaf_roundtrip(l);
            let b = crate::btree::leaf_node::leaf_bytes(l);
            assert(self.stored(leaf_page) == Some(b));
            assert(b[0] == NODE_LEAF);
            lemma_leaf_scan_finds(l.keys, l.values, key, pos, 0);
            assert(tree_lookup(*self, leaf_page, key, 1) == Some(Some(v)));
        }
    }

    /// Splits a full leaf in two halves, links the new right half into the
    /// leaf chain, and inserts its first key into the parent. When the leaf
    /// holds `kg` at `pos` in key order on a descent that `leaf_split_ready`
    /// accepts, the tree returned finds `vg` for `kg`.
    #[verifier::rlimit(60)]
    #[verifier::spinoff_prover]
    fn split_and_propagate(
        &mut self,
        leaf_page: u64,
        leaf: LeafNode,
        path: Vec<(u64, usize)>,
        root: u64,
        Ghost(kg): Ghost<Seq<u8>>,
        Ghost(vg): Ghost<Seq<u8>>,
        Ghost(pos): Ghost<int>,
        Ghost(lim): Ghost<u64>,
        Ghost(orig): Ghost<Seq<u64>>,
    ) -> (r: Result<u64, DbError>)
        requires
            old(self).inv(),
            leaf.keys@.len() == leaf.values@.len(),
            leaf.keys@.len() >= 2,
        ensures
            final(self).inv(),
            final(self).tables() == old(self).tables(),
            final(self).header_view().schema_catalog_root == old(self).header_view().schema_catalog_root,
            final(self).header_view().total_pages >= old(self).header_view().total_pages,
            r is Ok ==> final(self).header_view().total_pages > old(self).header_view().total_pages,
            leaf_split_ready(*old(self), leaf_page, leaf@, path@, root, kg, vg, pos, lim, orig) ==> (r matches Ok(nr) ==> tree_lookup(
                *final(self),
                nr,
                kg,
                path@.len() + 2,
            ) == Some(Some(vg)) && new_descent(*final(self), nr, kg, path@.len() + 2, lim, orig)),
            r is Ok ==> kept_outside(*old(self), *final(self), path_pages(path@) + seq![leaf_page, leaf@.next_leaf]),
            path@.len() == 0 && root_split_fits(*old(self), leaf_page, leaf@) ==> r == Ok::<u64, DbError>(
                (old(self).header_view().total_pages + 1) as u64,
            ),
    {
        let ghost s0 = *self;
        let ghost ready = leaf_split_ready(s0, leaf_page, leaf@, path@, root, kg, vg, pos, lim, orig);
        let ghost l0 = leaf@;
        let ghost fits = path@.len() == 0 && root_split_fits(s0, leaf_page, l0);
        let ghost t0 = s0.header_view().total_pages;
        let mid = leaf.keys.len() / 2;
        let LeafNode { keys, values, next_leaf, prev_leaf } = leaf;
        let mut left_keys = keys;
        let right_keys = left_keys.split_off(mid);
        let mut left_values = values;
        let right_values = left_values.split_off(mid);
        let right_page = match self.allocate_page() {
            Ok(p) => p,
            Err(e) => return Err(e),
        };
        let ghost s1 = *self;
        let left = LeafNode { keys: left_keys, values: left_values, next_leaf: right_page, prev_leaf };
        let right = LeafNode { keys: right_keys, values: right_values, next_leaf, prev_leaf: leaf_page };
        proof {
            assert(left@.keys =~= l0.keys.subrange(0, mid as int));
            assert(left@.values =~= l0.values.subrange(0, mid as int));
            assert(right@.keys =~= l0.keys.subrange(mid as int, l0.keys.len() as int));
            assert(right@.values =~= l0.values.subrange(mid as int, l0.keys.len() as int));
            if fits {
                crate::btree::leaf_node::lemma_leaf_halves_fit(l0, mid as int, right_page, prev_leaf, next_leaf, leaf_page);
                assert(l0.keys.take(mid as int) =~= l0.keys.subrange(0, mid as int));
                assert(l0.values.take(mid as int) =~= l0.values.subrange(0, mid as int));
                assert(l0.keys.skip(mid as int) =~= l0.keys.subrange(mid as int, l0.keys.len() as int));
                assert(l0.values.skip(mid as int) =~= l0.values.subrange(mid as int, l0.keys.len() as int));
                assert(right_page == t0);
            }
        }
        match self.write_leaf(leaf_page, &left) {
            Ok(()) => {},
            Err(e) => return Err(e),
        }
        let ghost s2 = *self;
        match self.write_leaf(right_page, &right) {
            Ok(()) => {},
            Err(e) => return Err(e),
        }
        let ghost s3 = *self;
        let ghost sep = l0.keys[mid as int];
        let ghost sub = if lex_lt(kg, sep) { leaf_page } else { right_page };
        proof {
            if ready {
                assert(leaf_page < right_page);
                if (pos < mid) {
                    assert(lex_lt(kg, sep));
                    lemma_leaf_written(s1, s2, leaf_page, left@, kg, pos);
                    assert(s3.stored(leaf_page) == s2.stored(leaf_page));
                    lemma_descent_agrees(s2, s3, leaf_page, kg, 1, 1);
                } else {
                    crate::codec::lemma_lex_order_flip(kg, sep);
                    assert(!lex_lt(kg, sep));
                    assert(right@.keys[pos - mid] == kg);
                    assert forall|j: int| 0 <= j < pos - mid implies lex_lt(#[trigger] right@.keys[j], kg) by {
                        assert(right@.keys[j] == l0.keys[j + mid]);
                    }
                    lemma_leaf_written(s2, s3, right_page, right@, kg, pos - mid);
                }
            }
        }
        proof {
            if fits && next_leaf != 0 {
                assert(pages_readable(s0, seq![next_leaf]));
                assert(seq![next_leaf][0] == next_leaf);
                assert(s0.stored(next_leaf) is Some);
                assert(next_leaf != right_page);
                assert(s1.stored(next_leaf) == s0.stored(next_leaf));
                assert(s2.stored(next_leaf) == s1.stored(next_leaf));
                assert(s3.stored(next_leaf) == s2.stored(next_leaf));
                assert(pages_readable(s3, seq![next_leaf]));
                assert(seq![next_leaf].contains(next_leaf));
                lemma_pages_readable(s3, seq![next_leaf], next_leaf);
            }
        }
        if next_leaf != 0 {
            let mut next_data = match self.read_page(next_leaf) {
                Ok(d) => d,
                Err(e) => return Err(e),
            };
            let ghost s4 = *self;
            write_at(&mut next_data, 9, u64_to_le_bytes(right_page).as_slice());
            match self.write_page(next_leaf, next_data.as_slice()) {
                Ok(()) => {},
                Err(e) => return Err(e),
            }
            proof {
                assert forall|m: u64| #![trigger self.stored(m)] m != next_leaf && s3.stored(m) is Some implies self.stored(m) == s3.stored(m) by {
                    assert(s4.stored(m) == s3.stored(m));
                }
            }
        }
        let ghost s5 = *self;
        proof {
            if ready {
                assert(s5.stored(sub) == s3.stored(sub));
                lemma_descent_agrees(s3, s5, sub, kg, 1, 1);
                let pp = path_pages(path@);
                assert forall|i: int| 0 <= i < pp.len() implies s5.stored(#[trigger] pp[i]) == s0.stored(pp[i]) by {
                    assert(pp[i] == path@[i].0);
                    assert(path@[i].0 < lim);
                    assert(descends(s0, path@[i], kg, if i + 1 < path@.len() { path@[i + 1].0 } else { leaf_page }));
                    assert(pp[i] != leaf_page);
                    assert(pp[i] != next_leaf || next_leaf == 0);
                }
                lemma_path_agrees(s0, s5, root, kg, path@, leaf_page);
                assert(descent_pages(s5, sub, kg, 1) == Some(seq![sub]));
                assert forall|i: int| 0 <= i < seq![sub].len() implies (#[trigger] seq![sub][i]) < s5.header_view().total_pages
                    && !pp.contains(seq![sub][i]) by {
                    if pp.contains(sub) {
                        let j = choose|j: int| 0 <= j < pp.len() && pp[j] == sub;
                        assert(pp[j] == path@[j].0);
                    }
                }
                assert(lim <= s5.header_view().total_pages);
                assert(path_to(s5, root, kg, path@, leaf_page));
                assert forall|i: int| 0 <= i < path@.len() implies (#[trigger] path@[i]).0 < lim && sorted_node(s5.stored(path@[i].0)) by {
                    assert(pp[i] == path@[i].0);
                    assert(s5.stored(pp[i]) == s0.stored(pp[i]));
                }
                assert(path_pages(path@).no_duplicates());
                assert(tree_lookup(s5, sub, kg, 1) == Some(Some(vg)));
                assert forall|i: int| 0 <= i < path@.len() implies orig.contains((#[trigger] path@[i]).0) by {}
                assert(below_ok(s5, sub, kg, vg, 1, path_pages(path@), lim, orig));
                assert(propagate_ready(s5, path@, sep, leaf_page, right_page, root, kg, vg, 1, lim, orig));
            }
        }
        let promoted = vstd::slice::slice_to_vec(right.keys[0].as_slice());
        proof {
            assert(right.keys@[0]@ == right@.keys[0]);
            if fits {
                assert(promoted@ == l0.keys[(l0.keys.len() / 2) as int]);
                assert(new_root_fits(*self, promoted@, leaf_page, right_page));
            }
        }
        let ghost pp0 = path_pages(path@);
        let r = self.propagate_split(path, promoted, leaf_page, right_page, root, Ghost(kg), Ghost(vg), Ghost(1), Ghost(lim), Ghost(orig));
        proof {
            if r is Ok {
                let ws = pp0 + seq![leaf_page, l0.next_leaf];
                assert(ws[pp0.len() as int] == leaf_page);
                assert(ws[pp0.len() + 1 as int] == l0.next_leaf);
                assert forall|m: u64| #![trigger self.stored(m)] m < s0.header_view().total_pages && s0.stored(m) is Some
                    && !ws.contains(m) implies self.stored(m) == s0.stored(m) by {
                    assert(s1.stored(m) == s0.stored(m));
                    assert(m != leaf_page);
                    assert(s2.stored(m) == s1.stored(m));
                    assert(s3.stored(m) == s2.stored(m));
                    assert(m != l0.next_leaf);
                    assert(s5.stored(m) == s3.stored(m));
                    if pp0.contains(m) {
                        let j = choose|j: int| 0 <= j < pp0.len() && pp0[j] == m;
                        assert(ws[j] == m);
                    }
                }
            }
        }
        r
    }

    /// Inserts separator `key` between `left_child` and `right_child` in the
    /// parent at the end of `path`, splitting full parents upwards; creates a
    /// new root when the path is used up. When the split below left the
    /// descent for `kg` finding `vg` within `f` levels on the side that the
    /// separator sends it to, the tree returned finds `vg` for `kg`.
    #[verifier::rlimit(60)]
    #[verifier::spinoff_prover]
    fn propagate_split(
        &mut self,
        path: Vec<(u64, usize)>,
        key: Vec<u8>,
        left_child: u64,
        right_child: u64,
        root: u64,
        Ghost(kg): Ghost<Seq<u8>>,
        Ghost(vg): Ghost<Seq<u8>>,
        Ghost(f): Ghost<nat>,
        Ghost(lim): Ghost<u64>,
        Ghost(orig): Ghost<Seq<u64>>,
    ) -> (r: Result<u64, DbError>)
        requires
            old(self).inv(),
        ensures
            final(self).inv(),
            final(self).tables() == old(self).tables(),
            final(self).header_view().schema_catalog_root == old(self).header_view().schema_catalog_root,
            final(self).header_view().total_pages >= old(self).header_view().total_pages,
            propagate_ready(*old(self), path@, key@, left_child, right_child, root, kg, vg, f, lim, orig) ==> (r matches Ok(nr)
                ==> tree_lookup(*final(self), nr, kg, f + path@.len() + 1) == Some(Some(vg)) && new_descent(
                *final(self),
                nr,
                kg,
                f + path@.len() + 1,
                lim,
                orig,
            )),
            r is Ok ==> kept_outside(*old(self), *final(self), path_pages(path@)),
            path@.len() == 0 && new_root_fits(*old(self), key@, left_child, right_child) ==> r == Ok::<u64, DbError>(
                old(self).header_view().total_pages,
            ),
            parent_takes(*old(self), path@, key@, left_child, right_child) ==> r == Ok::<u64, DbError>(root),
        decreases path@.len(),
    {
        let ghost s0 = *self;
        let ghost ready = propagate_ready(s0, path@, key@, left_child, right_child, root, kg, vg, f, lim, orig);
        let ghost sep = key@;
        let ghost sub = if lex_lt(kg, sep) { left_child } else { right_child };
        let ghost path0 = path@;
        let ghost ds = descent_pages(s0, sub, kg, f).unwrap();
        proof {
            if ready {
                lemma_descent_held(s0, sub, kg, f);
                lemma_descent_agrees(s0, s0, sub, kg, f, f);
            }
        }
        let mut path = path;
        if path.len() == 0 {
            let new_root_page = match self.allocate_page() {
                Ok(p) => p,
                Err(e) => return Err(e),
            };
            let ghost s1 = *self;
            let mut new_root = InternalNode::new();
            new_root.keys.push(key);
            new_root.children.push(left_child);
            new_root.children.push(right_child);
            let ghost x = new_root@;
            proof {
                assert(x.keys =~= seq![key@]);
                assert(x.children =~= seq![left_child, right_child]);
            }
            return match self.write_internal(new_root_page, &new_root) {
                Ok(()) => {
                    proof {
                        if ready {
                            assert(x.keys =~= seq![sep]);
                            assert(x.children =~= seq![left_child, right_child]);
                            assert forall|i: int| 0 <= i < ds.len() implies s1.stored(#[trigger] ds[i]) == s0.stored(ds[i]) by {
                                assert(ds[i] < s0.header_view().total_pages);
                            }
                            lemma_descent_agrees(s0, s1, sub, kg, f, f);
                            assert(ds[0] == sub);
                            assert(new_root_page != 0);
                            let c: int = if lex_lt(kg, sep) { 0 } else { 1 };
                            assert(child_for(x.keys, kg, c));
                            assert forall|i: int| 0 <= i < ds.len() implies (#[trigger] ds[i]) != new_root_page by {
                                assert(ds[i] < s0.header_view().total_pages);
                            }
                            lemma_node_written(s1, *self, new_root_page, x, kg, c, sub, f);
                            let ps = seq![new_root_page] + ds;
                            assert forall|i: int| 0 <= i < ps.len() implies (#[trigger] ps[i]) < self.header_view().total_pages && (
                            ps[i] >= lim || orig.contains(ps[i])) by {
                                if i > 0 {
                                    assert(ps[i] == ds[i - 1]);
                                }
                            }
                        }
                        assert forall|m: u64| #![trigger self.stored(m)] m < s0.header_view().total_pages && s0.stored(m) is Some
                            && !path_pages(path0).contains(m) implies self.stored(m) == s0.stored(m) by {
                            assert(s1.stored(m) == s0.stored(m));
                        }
                    }
                    Ok(new_root_page)
                },
                Err(e) => Err(e),
            };
        }
        let (parent_page, child_idx) = path.pop().unwrap();
        let ghost pre = path@;
        proof {
            assert(pre =~= path0.drop_last());
            assert(path0.last() == (parent_page, child_idx));
            if ready {
                lemma_path_pop(s0, root, kg, path0, left_child);
                assert(path_pages(path0) =~= path_pages(pre).push(parent_page));
            }
        }
        let ghost takes = parent_takes(s0, path0, key@, left_child, right_child);
        proof {
            if takes {
                assert(seq![parent_page].contains(parent_page)) by {
                    assert(seq![parent_page][0] == parent_page);
                }
                lemma_pages_readable(s0, seq![parent_page], parent_page);
            }
        }
        let page = match self.read_page(parent_page) {
            Ok(p) => p,
            Err(e) => return Err(e),
        };
        let ghost s1 = *self;
        if page[0] != NODE_INTERNAL {
            return Err(DbError::InvalidData);
        }
        let mut parent = match InternalNode::deserialize(page.as_slice()) {
            Ok(n) => n,
            Err(e) => return Err(e),
        };
        if child_idx >= parent.children.len() {
            return Err(DbError::InvalidData);
        }
        let ghost keys0 = parent@.keys;
        let ghost children0 = parent@.children;
        let ghost c = child_idx as int;
        let ghost c2 = if lex_lt(kg, sep) { c } else { c + 1 };
        parent.keys.insert(child_idx, key);
        parent.children.set(child_idx, left_child);
        parent.children.insert(child_idx + 1, right_child);
        let ghost keys1 = parent@.keys;
        let ghost children1 = parent@.children;
        proof {
            if takes {
                assert(keys1 =~= keys0.insert(c, key@));
                assert(children1 =~= children0.update(c, left_child).insert(c + 1, right_child));
            }
        }
        proof {
            assert(keys1 =~= keys0.insert(c, sep));
            assert(children1 =~= children0.update(c, left_child).insert(c + 1, right_child));
            if ready {
                assert(descends(s0, path0.last(), kg, left_child));
                assert(parent_page != 0);
                assert(s0.stored(parent_page) == Some(page@));
                assert(keys_sorted(keys0));
                lemma_child_insert(keys0, kg, c, sep);
                assert(children1[c2] == sub);
                assert(pages_kept(s0, s1));
                assert forall|i: int| 0 <= i < ds.len() implies s1.stored(#[trigger] ds[i]) == s0.stored(ds[i]) by {}
                lemma_descent_agrees(s0, s1, sub, kg, f, f);
                assert(path_pages(path0)[path0.len() - 1] == parent_page);
                assert(path_pages(path0).contains(parent_page));
                assert forall|i: int| 0 <= i < ds.len() implies (#[trigger] ds[i]) != parent_page by {}
            }
        }
        if !parent.is_full() {
            return match self.write_internal(parent_page, &parent) {
                Ok(()) => {
                    proof {
                        if ready {
                            lemma_node_written(s1, *self, parent_page, parent@, kg, c2, sub, f);
                            assert forall|i: int| 0 <= i < path_pages(pre).len() implies self.stored(#[trigger] path_pages(pre)[i]) == s0.stored(
                                path_pages(pre)[i],
                            ) by {
                                assert(path_pages(pre)[i] == path_pages(path0)[i]);
                                assert(path_pages(path0)[i] != parent_page);
                                assert(descends(s0, path0[i], kg, if i + 1 < path0.len() { path0[i + 1].0 } else { left_child }));
                            }
                            lemma_path_agrees(s0, *self, root, kg, pre, parent_page);
                            lemma_path_descent(*self, root, kg, pre, parent_page, f + 1);
                            lemma_descent_agrees(*self, *self, root, kg, f + 1 + pre.len(), f + path0.len() + 1);
                            let ps = path_pages(pre) + (seq![parent_page] + ds);
                            assert(descent_pages(*self, root, kg, f + path0.len() + 1) == Some(ps));
                            assert(path_pages(path0)[path0.len() - 1] == parent_page);
                            assert forall|i: int| 0 <= i < ps.len() implies (#[trigger] ps[i]) < self.header_view().total_pages && (
                            ps[i] >= lim || orig.contains(ps[i])) by {
                                if i < pre.len() {
                                    assert(ps[i] == pre[i].0);
                                    assert(pre[i] == path0[i]);
                                } else if i == pre.len() {
                                    assert(ps[i] == path0[path0.len() - 1].0);
                                } else {
                                    assert(ps[i] == ds[i - pre.len() - 1]);
                                }
                            }
                        }
                        assert(path_pages(path0)[path0.len() - 1] == parent_page);
                        assert forall|m: u64| #![trigger self.stored(m)] m < s0.header_view().total_pages && s0.stored(m) is Some
                            && !path_pages(path0).contains(m) implies self.stored(m) == s0.stored(m) by {
                            assert(s1.stored(m) == s0.stored(m));
                            assert(m != parent_page);
                        }
                    }
                    Ok(root)
                },
                Err(e) => Err(e),
            };
        }
        let mid = parent.keys.len() / 2;
        let InternalNode { keys, children } = parent;
        let mut left_keys = keys;
        let mut right_keys = left_keys.split_off(mid);
        let promoted = right_keys.remove(0);
        let mut left_children = children;
        let right_children = left_children.split_off(mid + 1);
        let right_internal_page = match self.allocate_page() {
            Ok(p) => p,
            Err(e) => return Err(e),
        };
        let ghost s2 = *self;
        let left_internal = InternalNode { keys: left_keys, children: left_children };
        let right_internal = InternalNode { keys: right_keys, children: right_children };
        match self.write_internal(parent_page, &left_internal) {
            Ok(()) => {},
            Err(e) => return Err(e),
        }
        let ghost s3 = *self;
        match self.write_internal(right_internal_page, &right_internal) {
            Ok(()) => {},
            Err(e) => return Err(e),
        }
        let ghost s4 = *self;
        proof {
            if ready {
                assert(left_internal@.keys =~= keys1.subrange(0, mid as int));
                assert(right_internal@.keys =~= keys1.subrange(mid + 1, keys1.len() as int));
                assert(left_internal@.children =~= children1.subrange(0, mid + 1));
                assert(right_internal@.children =~= children1.subrange(mid + 1, children1.len() as int));
                assert(promoted@ == keys1[mid as int]);
                lemma_split_ready(
                    s0, s1, s2, s3, s4, path0, parent_page, right_internal_page, left_internal@, right_internal@,
                    keys0, children1, c, mid as int, sep, left_child, right_child, root, kg, vg, f, lim, orig,
                );
            }
        }
        let r = self.propagate_split(
            path,
            promoted,
            parent_page,
            right_internal_page,
            root,
            Ghost(kg),
            Ghost(vg),
            Ghost(f + 1),
            Ghost(lim),
            Ghost(orig),
        );
        proof {
            if r is Ok {
                assert(path_pages(path0) =~= path_pages(pre).push(parent_page));
                assert(path_pages(path0)[path0.len() - 1] == parent_page);
                assert forall|m: u64| #![trigger self.stored(m)] m < s0.header_view().total_pages && s0.stored(m) is Some
                    && !path_pages(path0).contains(m) implies self.stored(m) == s0.stored(m) by {
                    assert(s1.stored(m) == s0.stored(m));
                    assert(m != parent_page);
                    assert(s2.stored(m) == s1.stored(m));
                    assert(s3.stored(m) == s2.stored(m));
                    assert(s4.stored(m) == s3.stored(m));
                    if path_pages(pre).contains(m) {
                        let j = choose|j: int| 0 <= j < path_pages(pre).len() && path_pages(pre)[j] == m;
                        assert(path_pages(path0)[j] == m);
                    }
                }
            }
        }
        r
    }

    /// Removes `key` from the leaf it belongs to (without rebalancing);
    /// returns whether it was there.
    #[verifier::rlimit(60)]
    #[verifier::spinoff_prover]
    fn btree_delete(&mut self, root: u64, key: &[u8]) -> (r: Result<bool, DbError>)
        requires
            old(self).inv(),
        ensures
            final(self).inv(),
            final(self).tables() == old(self).tables(),
            final(self).header_view() == old(self).header_view(),
            r is Ok && descent_leaf_distinct(*old(self), root, key@, old(self).header_view().total_pages as nat) ==> tree_holds(
                *final(self),
                root,
                key@,
                old(self).header_view().total_pages as nat,
                None,
            ),
            r is Ok ==> match descent_leaf(*old(self), root, key@, old(self).header_view().total_pages as nat) {
                Some(lf) => kept_but(*old(self), *final(self), lf),
                None => true,
            },
            r is Ok ==> match descent_pages(*old(self), root, key@, old(self).header_view().total_pages as nat) {
                Some(ps) => descent_pages(*final(self), root, key@, old(self).header_view().total_pages as nat) == Some(ps),
                None => true,
            },
            descent_pages(*old(self), root, key@, old(self).header_view().total_pages as nat) matches Some(ps) && pages_readable(*old(self), ps)
                ==> r is Ok,
            final(self).file_page_count() == old(self).file_page_count(),
            descent_leaf(*old(self), root, key@, old(self).header_view().total_pages as nat) is Some ==> (r matches Ok(b) ==> b
                == leaf_has_key(*old(self), root, key@, old(self).header_view().total_pages as nat)),
            r is Ok && descent_leaf_sorted(*old(self), root, key@, old(self).header_view().total_pages as nat) ==> forall|k2: Seq<u8>|
                k2 != key@ && (#[trigger] tree_lookup(*old(self), root, k2, old(self).header_view().total_pages as nat)) is Some
                    ==> tree_lookup(*final(self), root, k2, old(self).header_view().total_pages as nat) == tree_lookup(
                    *old(self),
                    root,
                    k2,
                    old(self).header_view().total_pages as nat,
                ),
    {
        let ghost fuel0 = old(self).header_view().total_pages as nat;
        let ghost s0 = *old(self);
        let ghost good = descent_pages(s0, root, key@, fuel0) is Some && pages_readable(s0, descent_pages(s0, root, key@, fuel0).unwrap());
        let ghost ps0 = descent_pages(s0, root, key@, fuel0).unwrap();
        proof {
            if good {
                lemma_descent_agrees(s0, s0, root, key@, fuel0, fuel0);
                assert(ps0.contains(ps0[0]));
                lemma_pages_readable(s0, ps0, root);
            }
        }
        let page = match self.read_page(root) {
            Ok(p) => p,
            Err(e) => return Err(e),
        };
        let ghost sa = *self;
        proof {
            if good {
                lemma_descent_readable_kept(s0, sa, root, key@, fuel0);
                assert(s0.stored(root) == Some(page@));
            }
        }
        let ghost mut pp: Seq<u64> = Seq::empty();
        let leaf_page = if page[0] == NODE_LEAF {
            root
        } else if page[0] == NODE_INTERNAL {
            match self.find_leaf_with_path(root, key) {
                Ok((p, path)) => {
                    proof {
                        pp = path_pages(path@);
                    }
                    p
                },
                Err(e) => return Err(e),
            }
        } else {
            return Err(DbError::InvalidData);
        };
        let ghost s1 = *self;
        proof {
            if good {
                lemma_descent_readable_kept(s0, s1, root, key@, fuel0);
                lemma_descent_leaf_pages(s0, root, key@, fuel0);
                lemma_descent_stored(s0, root, key@, fuel0);
                assert(ps0.contains(ps0.last())) by {
                    assert(ps0[ps0.len() - 1] == ps0.last());
                }
                lemma_pages_readable(s1, ps0, ps0.last());
                self.lemma_stored_len(ps0.last());
                if page[0] == NODE_LEAF {
                    assert(ps0 == seq![root]);
                    assert(leaf_page == ps0.last());
                } else {
                    lemma_start_leaf_found(s0, s1, root, key@, fuel0, leaf_page, pp);
                }
                lemma_descent_tags(s0, root, key@, fuel0);
                assert(s1.stored(leaf_page) == s0.stored(leaf_page));
                assert(crate::btree::leaf_node::decode_leaf(s1.stored(leaf_page).unwrap()) is Ok);
            }
        }
        let mut leaf = match self.read_leaf(leaf_page) {
            Ok(l) => l,
            Err(e) => return Err(e),
        };
        let ghost s2 = *self;
        let ghost l0 = leaf@;
        proof {
            assert(pages_kept(s0, s1));
            if descent_leaf_distinct(s0, root, key@, fuel0) {
                let lf = descent_leaf(s0, root, key@, fuel0).unwrap();
                lemma_descent_kept(s0, s1, root, key@, fuel0);
                if page[0] == NODE_LEAF {
                    assert(root != 0);
                    assert(s0.stored(root) == Some(page@));
                    assert(lf == root);
                } else {
                    assert(agrees_on(s1, s1, pp));
                    lemma_descent_kept(s1, s1, root, key@, fuel0);
                    assert(!meets_header(s1, root, key@, fuel0));
                    assert(leaf_page != 0) by {
                        if leaf_page == 0 {
                            assert(meets_header(s1, root, key@, fuel0));
                        }
                    }
                    assert(leaf_tagged(s1.stored(leaf_page)));
                    assert(descent_leaf(s1, leaf_page, key@, 1) == Some(leaf_page));
                    assert(lf == leaf_page);
                }
                assert(s0.stored(lf) == s1.stored(lf));
                assert(l0.keys.no_duplicates());
            }
            if descent_leaf(s0, root, key@, fuel0) is Some {
                let lf = descent_leaf(s0, root, key@, fuel0).unwrap();
                lemma_descent_kept(s0, s1, root, key@, fuel0);
                if page[0] == NODE_LEAF {
                    assert(root != 0);
                    assert(s0.stored(root) == Some(page@));
                    assert(lf == root);
                } else {
                    assert(agrees_on(s1, s1, pp));
                    lemma_descent_kept(s1, s1, root, key@, fuel0);
                    assert(!meets_header(s1, root, key@, fuel0));
                    assert(leaf_page != 0) by {
                        if leaf_page == 0 {
                            assert(meets_header(s1, root, key@, fuel0));
                        }
                    }
                    assert(leaf_tagged(s1.stored(leaf_page)));
                    assert(descent_leaf(s1, leaf_page, key@, 1) == Some(leaf_page));
                }
                assert(lf == leaf_page);
            }
        }
        match leaf_position(&leaf, key) {
            Some(pos) => {
                leaf.keys.remove(pos);
                leaf.values.remove(pos);
                let ghost l1 = leaf@;
                assert(l1.keys =~= l0.keys.remove(pos as int));
                assert(l1.values =~= l0.values.remove(pos as int));
                proof {
                    if good {
                        crate::btree::leaf_node::lemma_decoded_leaf_fits(s0.stored(leaf_page).unwrap());
                        crate::btree::leaf_node::lemma_leaf_remove_fits(l0, pos as int);
                        assert(l1 == (crate::btree::leaf_node::LeafV { keys: l0.keys.remove(pos as int), values: l0.values.remove(pos as int), ..l0 }));
                    }
                }
                match self.write_leaf(leaf_page, &leaf) {
                    Ok(()) => {
                        proof {
                            if descent_leaf_distinct(s0, root, key@, fuel0) {
                                assert forall|j: int| 0 <= j < l1.keys.len() implies l1.keys[j] != key@ by {
                                    if j < pos {
                                        assert(l1.keys[j] == l0.keys[j]);
                                    } else {
                                        assert(l1.keys[j] == l0.keys[j + 1]);
                                        assert(l0.keys[pos as int] == key@);
                                    }
                                }
                                lemma_leaf_scan_absent(l1.keys, l1.values, key@, 0);
                                self.lemma_leaf_replaced(s1, s2, root, key@, fuel0, leaf_page, pp, l1, page[0] == NODE_LEAF);
                            }
                            if descent_leaf(s0, root, key@, fuel0) is Some {
                                assert forall|m: u64| #![trigger self.stored(m)] m != leaf_page && s0.stored(m) is Some implies self.stored(m)
                                    == s0.stored(m) by {
                                    assert(s2.stored(m) == s0.stored(m));
                                }
                            }
                            if descent_pages(s0, root, key@, fuel0) is Some {
                                lemma_descent_leaf_pages(s0, root, key@, fuel0);
                                lemma_leaf_rewrite_keeps_descent(s0, *self, root, key@, fuel0, leaf_page, l1);
                            }
                            if descent_leaf_sorted(s0, root, key@, fuel0) {
                                assert(keys_sorted(l0.keys));
                                assert forall|k2: Seq<u8>| k2 != key@ implies #[trigger] leaf_scan(l1.keys, l1.values, k2, 0) == leaf_scan(
                                    l0.keys,
                                    l0.values,
                                    k2,
                                    0,
                                ) by {
                                    lemma_scan_remove_other(l0.keys, l0.values, pos as int, k2, 0);
                                }
                                lemma_leaf_write_keeps_others(s0, s1, s2, *self, root, key@, fuel0, leaf_page, l0, l1);
                            }
                        }
                        Ok(true)
                    },
                    Err(e) => Err(e),
                }
            },
            None => {
                proof {
                    if descent_pages(s0, root, key@, fuel0) is Some {
                        assert(pages_kept(s0, *self));
                        lemma_descent_stored(s0, root, key@, fuel0);
                        let ps = descent_pages(s0, root, key@, fuel0).unwrap();
                        assert forall|i: int| 0 <= i < ps.len() implies self.stored(#[trigger] ps[i]) == s0.stored(ps[i]) by {
                            assert(s0.stored(ps[i]) is Some);
                        }
                        lemma_descent_agrees(s0, *self, root, key@, fuel0, fuel0);
                    }
                    if descent_leaf_distinct(s0, root, key@, fuel0) {
                        lemma_leaf_scan_absent(l0.keys, l0.values, key@, 0);
                        assert(pages_kept(s1, s2));
                        if page[0] == NODE_LEAF {
                            assert(tree_lookup(s2, root, key@, fuel0) == Some(leaf_scan(l0.keys, l0.values, key@, 0)));
                        } else {
                            assert(agrees_on(s2, s1, pp)) by {
                                assert forall|i: int| 0 <= i < pp.len() implies s2.stored(#[trigger] pp[i]) == s1.stored(pp[i]) by {
                                    if pp[i] != 0 {
                                        assert(internal_tagged(s1.stored(pp[i])));
                                    }
                                }
                            }
                            lemma_descent_kept(s0, s2, root, key@, fuel0);
                            assert(tree_lookup(s2, leaf_page, key@, 1) == Some(leaf_scan(l0.keys, l0.values, key@, 0)));
                        }
                    }
                    assert forall|k2: Seq<u8>|
                        k2 != key@ && (#[trigger] tree_lookup(s0, root, k2, fuel0)) is Some implies tree_lookup(*self, root, k2, fuel0)
                        == tree_lookup(s0, root, k2, fuel0) by {
                        lemma_lookup_kept(s0, *self, root, k2, fuel0);
                    }
                }
                Ok(false)
            },
        }
    }

    /// After the leaf that the descent for `key` reached is rewritten as `l`,
    /// the tree gives what `l` gives for `key`.
    proof fn lemma_leaf_replaced(
        &self,
        s1: Database,
        s2: Database,
        root: u64,
        key: Seq<u8>,
        fuel0: nat,
        leaf_page: u64,
        pp: Seq<u64>,
        l: crate::btree::leaf_node::LeafV,
        root_is_leaf: bool,
    )
        requires
            pages_kept(s1, s2),
            page_written(s2, *self, leaf_page, crate::btree::leaf_node::leaf_bytes(l)),
            crate::btree::leaf_node::leaf_fits(l),
            leaf_page != 0,
            fuel0 > 0,
            root_is_leaf ==> leaf_page == root,
            !root_is_leaf ==> {
                &&& forall|i: int| 0 <= i < pp.len() && (#[trigger] pp[i]) != 0 ==> internal_tagged(s1.stored(pp[i]))
                &&& leaf_tagged(s1.stored(leaf_page))
                &&& forall|x: Database| #[trigger] agrees_on(x, s1, pp) && leaf_tagged(x.stored(leaf_page)) ==> tree_lookup(x, root, key, fuel0)
                    == tree_lookup(x, leaf_page, key, 1) && descent_leaf(x, root, key, fuel0) == descent_leaf(x, leaf_page, key, 1)
                    || meets_header(x, root, key, fuel0)
            },
        ensures
            tree_holds(*self, root, key, fuel0, leaf_scan(l.keys, l.values, key, 0)),
    {
        crate::btree::leaf_node::lemma_leaf_roundtrip(l);
        let b = crate::btree::leaf_node::leaf_bytes(l);
        assert(self.stored(leaf_page) == Some(b));
        assert(b[0] == NODE_LEAF);
        if !root_is_leaf {
            assert forall|i: int| 0 <= i < pp.len() implies self.stored(#[trigger] pp[i]) == s1.stored(pp[i]) by {
                if pp[i] != 0 {
                    assert(internal_tagged(s1.stored(pp[i])));
                    assert(pp[i] != leaf_page);
                    assert(s2.stored(pp[i]) == s1.stored(pp[i]));
                }
            }
            assert(agrees_on(*self, s1, pp));
        }
        assert(tree_lookup(*self, leaf_page, key, 1) == Some(leaf_scan(l.keys, l.values, key, 0)));
    }

    /// Descends along first children from `root` to the leftmost leaf.
    fn leftmost_leaf(&mut self, root: u64) -> (r: Result<u64, DbError>)
        requires
            old(self).inv(),
        ensures
            final(self).inv(),
            final(self).tables() == old(self).tables(),
            final(self).header_view() == old(self).header_view(),
            r is Ok ==> pages_kept(*old(self), *final(self)),
            r matches Ok(p) ==> forall|x: Database| #[trigger] pages_kept(*final(self), x) ==> leftmost(x, root, old(self).header_view().total_pages as nat)
                == Some(p) || leftmost_meets_header(x, root, old(self).header_view().total_pages as nat),
            leftmost_pages(*old(self), root, old(self).header_view().total_pages as nat) matches Some(ps) && pages_readable(*old(self), ps)
                ==> r is Ok,
            final(self).file_page_count() == old(self).file_page_count(),
            cache_writable(old(self).cache_view()) && r is Ok ==> cache_writable(final(self).cache_view()),
    {
        let mut current = root;
        let mut fuel = self.header.total_pages();
        let ghost fuel0 = fuel as nat;
        let ghost mut met = false;
        let ghost s_old = *old(self);
        let ghost good = leftmost_pages(s_old, root, fuel0) is Some && pages_readable(s_old, leftmost_pages(s_old, root, fuel0).unwrap());
        let ghost ps0 = leftmost_pages(s_old, root, fuel0).unwrap();
        while fuel > 0
            invariant
                self.inv(),
                self.tables() == old(self).tables(),
                self.header_view() == old(self).header_view(),
                fuel0 == old(self).header_view().total_pages,
                fuel <= fuel0,
                pages_kept(*old(self), *self),
                !met ==> forall|x: Database| #[trigger] pages_kept(*self, x) ==> leftmost(x, root, fuel0) == leftmost(x, current, fuel as nat)
                    && leftmost_meets_header(x, root, fuel0) == leftmost_meets_header(x, current, fuel as nat),
                met ==> forall|x: Database| #[trigger] pages_kept(*self, x) ==> leftmost_meets_header(x, root, fuel0),
                self.file_page_count() == old(self).file_page_count(),
                cache_writable(old(self).cache_view()) ==> cache_writable(self.cache_view()),
                s_old == *old(self),
                ps0 == leftmost_pages(s_old, root, fuel0).unwrap(),
                good == (leftmost_pages(s_old, root, fuel0) is Some && pages_readable(s_old, ps0)),
                good ==> pages_readable(*self, ps0),
                good ==> leftmost_pages(s_old, current, fuel as nat) is Some,
                good ==> forall|i: int|
                    0 <= i < leftmost_pages(s_old, current, fuel as nat).unwrap().len() ==> ps0.contains(
                        #[trigger] leftmost_pages(s_old, current, fuel as nat).unwrap()[i],
                    ),
            decreases fuel,
        {
            let ghost s0 = *self;
            let ghost f0 = fuel as nat;
            proof {
                if !met && current == 0 {
                    assert forall|x: Database| #[trigger] pages_kept(*self, x) implies leftmost_meets_header(x, root, fuel0) by {
                        assert(leftmost_meets_header(x, current, f0));
                    }
                    met = true;
                }
            }
            proof {
                if good {
                    let cur = leftmost_pages(s_old, current, f0).unwrap();
                    lemma_leftmost_pages_first(s_old, current, f0);
                    assert(ps0.contains(cur[0]));
                    lemma_pages_readable(s0, ps0, current);
                    lemma_pages_readable(s_old, ps0, current);
                }
            }
            fuel = fuel - 1;
            let page = match self.read_page(current) {
                Ok(p) => p,
                Err(e) => return Err(e),
            };
            let ghost s1 = *self;
            proof {
                if good {
                    lemma_pages_readable_kept(s0, s1, ps0);
                    assert(s0.stored(current) == Some(page@));
                    assert(s0.stored(current) == s_old.stored(current));
                    assert(s_old.stored(current) == Some(page@));
                }
                assert forall|x: Database| #[trigger] pages_kept(s1, x) implies pages_kept(s0, x) by {
                    assert forall|n: u64| #![trigger s0.stored(n)] #![trigger x.stored(n)] s0.stored(n) is Some implies x.stored(n) == s0.stored(n) by {
                        assert(s1.stored(n) == s0.stored(n));
                    }
                }
            }
            if page[0] == NODE_INTERNAL {
                let node = match InternalNode::deserialize(page.as_slice()) {
                    Ok(n) => n,
                    Err(e) => return Err(e),
                };
                proof {
                    if good {
                        let cur = leftmost_pages(s_old, current, f0).unwrap();
                        let ch = node.children@[0];
                        assert(node@.children[0] == ch);
                        let rest = leftmost_pages(s_old, ch, fuel as nat).unwrap();
                        assert(cur == seq![current] + rest);
                        assert forall|i: int| 0 <= i < rest.len() implies ps0.contains(#[trigger] rest[i]) by {
                            assert(rest[i] == cur[i + 1]);
                        }
                    }
                    if !met {
                        assert forall|x: Database| #[trigger] pages_kept(s1, x) implies leftmost(x, root, fuel0) == leftmost(x, node.children@[0], fuel as nat)
                            && leftmost_meets_header(x, root, fuel0) == leftmost_meets_header(x, node.children@[0], fuel as nat) by {
                            assert(pages_kept(s0, x));
                            assert(x.stored(current) == Some(page@));
                            assert(node@.children[0] == node.children@[0]);
                        }
                    }
                }
                current = node.children[0];
            } else if page[0] == NODE_LEAF {
                proof {
                    if !met {
                        assert forall|x: Database| #[trigger] pages_kept(s1, x) implies leftmost(x, root, fuel0) == Some(current) by {
                            assert(pages_kept(s0, x));
                            assert(x.stored(current) == Some(page@));
                        }
                    }
                }
                return Ok(current);
            } else {
                return Err(DbError::InvalidData);
            }
        }
        Err(DbError::InvalidData)
    }

    /// All entries of the tree at `root`, following the leaf chain from the
    /// leftmost leaf.
    fn scan_btree(&mut self, root: u64) -> (r: Result<Vec<Entry>, DbError>)
        requires
            old(self).inv(),
        ensures
            final(self).inv(),
            final(self).tables() == old(self).tables(),
            final(self).header_view() == old(self).header_view(),
            r is Ok ==> pages_kept(*old(self), *final(self)),
            r matches Ok(v) ==> tree_collect(
                *final(self),
                root,
                None,
                ScanMode::Range { lo: None, hi: None },
                old(self).header_view().total_pages as nat,
            ) == Some(entries_view(v@)) || scan_meets_header(*final(self), root, None, old(self).header_view().total_pages as nat),
            scan_readable(*old(self), root, None, ScanMode::Range { lo: None, hi: None }, old(self).header_view().total_pages as nat)
                ==> r is Ok,
            final(self).file_page_count() == old(self).file_page_count(),
            cache_writable(old(self).cache_view()) && r is Ok ==> cache_writable(final(self).cache_view()),
    {
        let ghost s_old = *old(self);
        let ghost fuel = old(self).header_view().total_pages as nat;
        let start = match self.leftmost_leaf(root) {
            Ok(p) => p,
            Err(e) => return Err(e),
        };
        let ghost s1 = *self;
        proof {
            let mode = ScanMode::Range { lo: None, hi: None };
            if leftmost_pages(s_old, root, fuel) is Some && pages_readable(s_old, leftmost_pages(s_old, root, fuel).unwrap()) {
                let ps = leftmost_pages(s_old, root, fuel).unwrap();
                lemma_leftmost_pages_kept(s_old, s1, root, fuel);
                if chain_pages(s_old, ps.last(), mode, fuel) is Some && pages_readable(s_old, chain_pages(s_old, ps.last(), mode, fuel).unwrap()) {
                    let cs = chain_pages(s_old, ps.last(), mode, fuel).unwrap();
                    assert(pages_kept(s1, s1));
                    assert(start == ps.last());
                    lemma_chain_pages_kept(s_old, s1, start, mode, fuel);
                    lemma_pages_readable_kept(s_old, s1, cs);
                }
            }
            assert(opt_bytes(None) == None::<Seq<u8>>);
        }
        let r = self.collect_range(start, None, None);
        proof {
            if r is Ok {
                let fuel = old(self).header_view().total_pages as nat;
                assert(pages_kept(s1, *self));
                lemma_leftmost_held(*self, root, fuel);
                assert(opt_bytes(None) == None::<Seq<u8>>);
            }
        }
        r
    }

    /// Entries of the leaf chain from `start`: those not below `lo` (when
    /// given), up to the first that is not below `hi` (when given).
    #[verifier::loop_isolation(false)]
    fn collect_range(&mut self, start: u64, lo: Option<&[u8]>, hi: Option<&[u8]>) -> (r: Result<Vec<Entry>, DbError>)
        requires
            old(self).inv(),
        ensures
            final(self).inv(),
            final(self).tables() == old(self).tables(),
            final(self).header_view() == old(self).header_view(),
            r is Ok ==> pages_kept(*old(self), *final(self)),
            r matches Ok(v) ==> start == 0 || chain_collect(
                *final(self),
                start,
                ScanMode::Range { lo: opt_bytes(lo), hi: opt_bytes(hi) },
                old(self).header_view().total_pages as nat,
            ) == Some(entries_view(v@)),
            chain_pages(
                *old(self),
                start,
                ScanMode::Range { lo: opt_bytes(lo), hi: opt_bytes(hi) },
                old(self).header_view().total_pages as nat,
            ) matches Some(ps) && pages_readable(*old(self), ps) ==> r is Ok,
            final(self).file_page_count() == old(self).file_page_count(),
            cache_writable(old(self).cache_view()) && r is Ok ==> cache_writable(final(self).cache_view()),
    {
        let ghost mode = ScanMode::Range { lo: opt_bytes(lo), hi: opt_bytes(hi) };
        let ghost s_old = *old(self);
        let ghost good = chain_pages(s_old, start, mode, old(self).header_view().total_pages as nat) is Some && pages_readable(
            s_old,
            chain_pages(s_old, start, mode, old(self).header_view().total_pages as nat).unwrap(),
        );
        let ghost ps0 = chain_pages(s_old, start, mode, old(self).header_view().total_pages as nat).unwrap();
        let mut results: Vec<Entry> = Vec::new();
        let mut current = start;
        let mut fuel = self.header.total_pages();
        let ghost fuel0 = fuel as nat;
        assert(entries_view(results@) =~= Seq::<(Seq<u8>, Seq<u8>)>::empty());
        while fuel > 0
            invariant
                self.inv(),
                self.tables() == old(self).tables(),
                self.header_view() == old(self).header_view(),
                fuel0 == old(self).header_view().total_pages,
                fuel <= fuel0,
                pages_kept(*old(self), *self),
                start != 0 ==> current != 0,
                start != 0 ==> forall|x: Database| #[trigger] pages_kept(*self, x) ==> chain_collect(x, start, mode, fuel0) == prepend(
                    entries_view(results@),
                    chain_collect(x, current, mode, fuel as nat),
                ),
                self.file_page_count() == old(self).file_page_count(),
                cache_writable(old(self).cache_view()) ==> cache_writable(self.cache_view()),
                good ==> pages_readable(*self, ps0),
                good ==> chain_pages(s_old, current, mode, fuel as nat) is Some,
                good ==> forall|i: int|
                    0 <= i < chain_pages(s_old, current, mode, fuel as nat).unwrap().len() ==> ps0.contains(
                        #[trigger] chain_pages(s_old, current, mode, fuel as nat).unwrap()[i],
                    ),
            decreases fuel,
        {
            let ghost s0 = *self;
            let ghost f0 = fuel as nat;
            let ghost e0 = entries_view(results@);
            proof {
                if good {
                    let cur = chain_pages(s_old, current, mode, f0).unwrap();
                    lemma_chain_pages_first(s_old, current, mode, f0);
                    assert(ps0.contains(cur[0]));
                    lemma_pages_readable(s0, ps0, current);
                    lemma_pages_readable(s_old, ps0, current);
                    assert(s0.stored(current) == s_old.stored(current));
                }
            }
            fuel = fuel - 1;
            let leaf = match self.read_leaf(current) {
                Ok(l) => l,
                Err(e) => return Err(e),
            };
            let ghost s1 = *self;
            proof {
                if good {
                    lemma_pages_readable_kept(s0, s1, ps0);
                    assert(crate::btree::leaf_node::decode_leaf(s_old.stored(current).unwrap()) == Ok::<crate::btree::leaf_node::LeafV, DbError>(leaf@));
                }
            }
            let ghost ks = leaf@.keys;
            let ghost vs = leaf@.values;
            proof {
                assert forall|x: Database| #[trigger] pages_kept(s1, x) implies pages_kept(s0, x) by {
                    assert forall|n: u64| #![trigger s0.stored(n)] #![trigger x.stored(n)] s0.stored(n) is Some implies x.stored(n) == s0.stored(n) by {
                        assert(s1.stored(n) == s0.stored(n));
                    }
                }
            }
            let ghost mut taken: Seq<(Seq<u8>, Seq<u8>)> = Seq::empty();
            let mut i: usize = 0;
            assert(leaf_collect(ks, vs, mode, 0) == (taken + leaf_collect(ks, vs, mode, 0).0, leaf_collect(ks, vs, mode, 0).1)) by {
                assert(taken + leaf_collect(ks, vs, mode, 0).0 =~= leaf_collect(ks, vs, mode, 0).0);
            }
            while i < leaf.keys.len()
                invariant
                    leaf.keys@.len() == leaf.values@.len(),
                    self.inv(),
                    self.tables() == old(self).tables(),
                    self.header_view() == old(self).header_view(),
                    *self == s1,
                    ks == leaf@.keys,
                    vs == leaf@.values,
                    mode == (ScanMode::Range { lo: opt_bytes(lo), hi: opt_bytes(hi) }),
                    0 <= i <= ks.len(),
                    entries_view(results@) == e0 + taken,
                    leaf_collect(ks, vs, mode, 0) == (taken + leaf_collect(ks, vs, mode, i as int).0, leaf_collect(ks, vs, mode, i as int).1),
                decreases leaf.keys@.len() - i,
            {
                let k = leaf.keys[i].as_slice();
                assert(k@ == ks[i as int]);
                let below = match lo {
                    Some(s) => compare_bytes(k, s) == KeyOrder::Less,
                    None => false,
                };
                if !below {
                    let past = match hi {
                        Some(e) => compare_bytes(k, e) != KeyOrder::Less,
                        None => false,
                    };
                    if past {
                        proof {
                            assert(scan_step(mode, ks[i as int]) == 2);
                            assert(leaf_collect(ks, vs, mode, 0) == (taken, true)) by {
                                assert(taken + Seq::<(Seq<u8>, Seq<u8>)>::empty() =~= taken);
                            }
                            if start != 0 {
                                assert forall|x: Database| #[trigger] pages_kept(s1, x) implies chain_collect(x, start, mode, fuel0) == Some(entries_view(results@)) by {
                                    assert(pages_kept(s0, x));
                                    assert(x.stored(current) == s0.stored(current));
                                }
                                assert(pages_kept(s1, s1));
                            }
                        }
                        return Ok(results);
                    }
                    let ghost entry = (ks[i as int], vs[i as int]);
                    let ghost before = entries_view(results@);
                    results.push((vstd::slice::slice_to_vec(k), vstd::slice::slice_to_vec(leaf.values[i].as_slice())));
                    proof {
                        assert(leaf.values@[i as int]@ == vs[i as int]);
                        assert(entries_view(results@) =~= before.push(entry));
                        assert(scan_step(mode, ks[i as int]) == 1);
                        let rest = leaf_collect(ks, vs, mode, i + 1);
                        assert(leaf_collect(ks, vs, mode, i as int) == (seq![entry] + rest.0, rest.1));
                        assert(taken + (seq![entry] + rest.0) =~= taken.push(entry) + rest.0);
                        assert(e0 + taken.push(entry) =~= (e0 + taken).push(entry));
                        taken = taken.push(entry);
                    }
                } else {
                    assert(scan_step(mode, ks[i as int]) == 0);
                }
                i = i + 1;
            }
            proof {
                assert(leaf_collect(ks, vs, mode, i as int) == (Seq::<(Seq<u8>, Seq<u8>)>::empty(), false));
                assert(taken + Seq::<(Seq<u8>, Seq<u8>)>::empty() =~= taken);
            }
            if leaf.next_leaf == 0 {
                proof {
                    if start != 0 {
                        assert forall|x: Database| #[trigger] pages_kept(s1, x) implies chain_collect(x, start, mode, fuel0) == Some(entries_view(results@)) by {
                            assert(pages_kept(s0, x));
                            assert(x.stored(current) == s0.stored(current));
                        }
                        assert(pages_kept(s1, s1));
                    }
                }
                return Ok(results);
            }
            proof {
                if good {
                    let cur = chain_pages(s_old, current, mode, f0).unwrap();
                    let rest = chain_pages(s_old, leaf.next_leaf, mode, fuel as nat).unwrap();
                    assert(cur == seq![current] + rest);
                    assert forall|i: int| 0 <= i < rest.len() implies ps0.contains(#[trigger] rest[i]) by {
                        assert(rest[i] == cur[i + 1]);
                    }
                }
                if start != 0 {
                    assert forall|x: Database| #[trigger] pages_kept(s1, x) implies chain_collect(x, start, mode, fuel0) == prepend(
                        entries_view(results@),
                        chain_collect(x, leaf.next_leaf, mode, fuel as nat),
                    ) by {
                        assert(pages_kept(s0, x));
                        assert(x.stored(current) == s0.stored(current));
                        match chain_collect(x, leaf.next_leaf, mode, fuel as nat) {
                            Some(rest) => {
                                assert(e0 + (taken + rest) =~= (e0 + taken) + rest);
                            },
                            None => {},
                        }
                    }
                }
            }
            current = leaf.next_leaf;
        }
        Err(DbError::InvalidData)
    }

    /// Entries with keys in `[start, end)` (an absent bound does not limit),
    /// in key order, starting from the leaf where `start` belongs.
    fn btree_range_scan(&mut self, root: u64, start: Option<&[u8]>, end: Option<&[u8]>) -> (r: Result<Vec<Entry>, DbError>)
        requires
            old(self).inv(),
        ensures
            final(self).inv(),
            final(self).tables() == old(self).tables(),
            final(self).header_view() == old(self).header_view(),
            r is Ok ==> pages_kept(*old(self), *final(self)),
            r matches Ok(v) ==> tree_collect(
                *final(self),
                root,
                opt_bytes(start),
                ScanMode::Range { lo: opt_bytes(start), hi: opt_bytes(end) },
                old(self).header_view().total_pages as nat,
            ) == Some(entries_view(v@)) || scan_meets_header(*final(self), root, opt_bytes(start), old(self).header_view().total_pages as nat),
            scan_readable(
                *old(self),
                root,
                opt_bytes(start),
                ScanMode::Range { lo: opt_bytes(start), hi: opt_bytes(end) },
                old(self).header_view().total_pages as nat,
            ) ==> r is Ok,
            final(self).file_page_count() == old(self).file_page_count(),
            cache_writable(old(self).cache_view()) && r is Ok ==> cache_writable(final(self).cache_view()),
    {
        let ghost fuel = old(self).header_view().total_pages as nat;
        let ghost s_old = *old(self);
        let ghost mode = ScanMode::Range { lo: opt_bytes(start), hi: opt_bytes(end) };
        let ghost mut pp: Seq<u64> = Seq::empty();
        let start_leaf = match start {
            Some(s) => match self.find_leaf_with_path(root, s) {
                Ok((p, path)) => {
                    proof {
                        pp = path_pages(path@);
                    }
                    p
                },
                Err(e) => return Err(e),
            },
            None => match self.leftmost_leaf(root) {
                Ok(p) => p,
                Err(e) => return Err(e),
            },
        };
        let ghost s1 = *self;
        proof {
            if scan_readable(s_old, root, opt_bytes(start), mode, fuel) {
                let ps = start_pages(s_old, root, opt_bytes(start), fuel).unwrap();
                let cs = chain_pages(s_old, ps.last(), mode, fuel).unwrap();
                match start {
                    Some(sk) => {
                        lemma_start_leaf_found(s_old, s1, root, sk@, fuel, start_leaf, pp);
                    },
                    None => {
                        lemma_leftmost_pages_kept(s_old, s1, root, fuel);
                        assert(pages_kept(s1, s1));
                    },
                }
                assert(start_leaf == ps.last());
                lemma_chain_pages_kept(s_old, s1, start_leaf, mode, fuel);
                lemma_pages_readable_kept(s_old, s1, cs);
            }
        }
        let r = self.collect_range(start_leaf, start, end);
        proof {
            if r is Ok {
                assert(pages_kept(s1, *self));
                match start {
                    Some(sk) => {
                        assert(agrees_on(*self, s1, pp)) by {
                            assert forall|i: int| 0 <= i < pp.len() implies self.stored(#[trigger] pp[i]) == s1.stored(pp[i]) by {
                                if pp[i] != 0 {
                                    assert(internal_tagged(s1.stored(pp[i])));
                                }
                            }
                        }
                        if start_leaf != 0 {
                            assert(leaf_tagged(self.stored(start_leaf)));
                        }
                    },
                    None => {
                        lemma_leftmost_held(*self, root, fuel);
                    },
                }
            }
        }
        r
    }

    /// Entries whose keys start with `prefix`, from the leaf where `prefix`
    /// belongs, up to the first key above `prefix` that does not start with
    /// it.
    #[verifier::loop_isolation(false)]
    fn btree_range_scan_prefix(&mut self, root: u64, prefix: &[u8]) -> (r: Result<Vec<Entry>, DbError>)
        requires
            old(self).inv(),
        ensures
            final(self).inv(),
            final(self).tables() == old(self).tables(),
            final(self).header_view() == old(self).header_view(),
            r is Ok ==> pages_kept(*old(self), *final(self)),
            r matches Ok(v) ==> tree_collect(
                *final(self),
                root,
                Some(prefix@),
                ScanMode::Prefix { p: prefix@ },
                old(self).header_view().total_pages as nat,
            ) == Some(entries_view(v@)) || scan_meets_header(*final(self), root, Some(prefix@), old(self).header_view().total_pages as nat),
            scan_readable(*old(self), root, Some(prefix@), ScanMode::Prefix { p: prefix@ }, old(self).header_view().total_pages as nat)
                ==> r is Ok,
            final(self).file_page_count() == old(self).file_page_count(),
            cache_writable(old(self).cache_view()) && r is Ok ==> cache_writable(final(self).cache_view()),
    {
        let ghost s_old = *old(self);
        let ghost mode = ScanMode::Prefix { p: prefix@ };
        let ghost fuel0 = old(self).header_view().total_pages as nat;
        let mut results: Vec<Entry> = Vec::new();
        let (start, path) = match self.find_leaf_with_path(root, prefix) {
            Ok(x) => x,
            Err(e) => return Err(e),
        };
        let ghost sf = *self;
        let ghost pp = path_pages(path@);
        let ghost good = scan_readable(s_old, root, Some(prefix@), mode, fuel0);
        let ghost ps0 = chain_pages(s_old, start, mode, fuel0).unwrap();
        proof {
            if good {
                let ps = start_pages(s_old, root, Some(prefix@), fuel0).unwrap();
                lemma_start_leaf_found(s_old, sf, root, prefix@, fuel0, start, pp);
                assert(start == ps.last());
                lemma_pages_readable_kept(s_old, sf, ps0);
            }
        }
        let mut current = start;
        let mut fuel = self.header.total_pages();
        assert(entries_view(results@) =~= Seq::<(Seq<u8>, Seq<u8>)>::empty());
        while fuel > 0
            invariant
                self.inv(),
                self.tables() == old(self).tables(),
                self.header_view() == old(self).header_view(),
                fuel <= fuel0,
                pages_kept(*old(self), *self),
                pages_kept(sf, *self),
                start != 0 ==> current != 0,
                start != 0 ==> forall|x: Database| #[trigger] pages_kept(*self, x) ==> chain_collect(x, start, mode, fuel0) == prepend(
                    entries_view(results@),
                    chain_collect(x, current, mode, fuel as nat),
                ),
                self.file_page_count() == old(self).file_page_count(),
                cache_writable(old(self).cache_view()) ==> cache_writable(self.cache_view()),
                good ==> pages_readable(*self, ps0),
                good ==> chain_pages(s_old, current, mode, fuel as nat) is Some,
                good ==> forall|i: int|
                    0 <= i < chain_pages(s_old, current, mode, fuel as nat).unwrap().len() ==> ps0.contains(
                        #[trigger] chain_pages(s_old, current, mode, fuel as nat).unwrap()[i],
                    ),
            decreases fuel,
        {
            let ghost s0 = *self;
            let ghost e0 = entries_view(results@);
            let ghost f0 = fuel as nat;
            proof {
                if good {
                    let cur = chain_pages(s_old, current, mode, f0).unwrap();
                    lemma_chain_pages_first(s_old, current, mode, f0);
                    assert(ps0.contains(cur[0]));
                    lemma_pages_readable(s0, ps0, current);
                    lemma_pages_readable(s_old, ps0, current);
                    assert(s0.stored(current) == s_old.stored(current));
                }
            }
            fuel = fuel - 1;
            let leaf = match self.read_leaf(current) {
                Ok(l) => l,
                Err(e) => return Err(e),
            };
            let ghost s1 = *self;
            proof {
                if good {
                    lemma_pages_readable_kept(s0, s1, ps0);
                    assert(crate::btree::leaf_node::decode_leaf(s_old.stored(current).unwrap()) == Ok::<crate::btree::leaf_node::LeafV, DbError>(leaf@));
                }
            }
            let ghost ks = leaf@.keys;
            let ghost vs = leaf@.values;
            proof {
                assert forall|x: Database| #[trigger] pages_kept(s1, x) implies pages_kept(s0, x) by {
                    assert forall|n: u64| #![trigger s0.stored(n)] #![trigger x.stored(n)] s0.stored(n) is Some implies x.stored(n) == s0.stored(n) by {
                        assert(s1.stored(n) == s0.stored(n));
                    }
                }
            }
            let ghost mut taken: Seq<(Seq<u8>, Seq<u8>)> = Seq::empty();
            let mut i: usize = 0;
            assert(leaf_collect(ks, vs, mode, 0) == (taken + leaf_collect(ks, vs, mode, 0).0, leaf_collect(ks, vs, mode, 0).1)) by {
                assert(taken + leaf_collect(ks, vs, mode, 0).0 =~= leaf_collect(ks, vs, mode, 0).0);
            }
            while i < leaf.keys.len()
                invariant
                    leaf.keys@.len() == leaf.values@.len(),
                    self.inv(),
                    *self == s1,
                    ks == leaf@.keys,
                    vs == leaf@.values,
                    0 <= i <= ks.len(),
                    entries_view(results@) == e0 + taken,
                    leaf_collect(ks, vs, mode, 0) == (taken + leaf_collect(ks, vs, mode, i as int).0, leaf_collect(ks, vs, mode, i as int).1),
                decreases leaf.keys@.len() - i,
            {
                let k = leaf.keys[i].as_slice();
                assert(k@ == ks[i as int]);
                if starts_with(k, prefix) {
                    let ghost entry = (ks[i as int], vs[i as int]);
                    let ghost before = entries_view(results@);
                    results.push((vstd::slice::slice_to_vec(k), vstd::slice::slice_to_vec(leaf.values[i].as_slice())));
                    proof {
                        assert(leaf.values@[i as int]@ == vs[i as int]);
                        assert(entries_view(results@) =~= before.push(entry));
                        assert(scan_step(mode, ks[i as int]) == 1);
                        let rest = leaf_collect(ks, vs, mode, i + 1);
                        assert(leaf_collect(ks, vs, mode, i as int) == (seq![entry] + rest.0, rest.1));
                        assert(taken + (seq![entry] + rest.0) =~= taken.push(entry) + rest.0);
                        assert(e0 + taken.push(entry) =~= (e0 + taken).push(entry));
                        taken = taken.push(entry);
                    }
                } else if compare_bytes(k, prefix) == KeyOrder::Greater {
                    proof {
                        assert(scan_step(mode, ks[i as int]) == 2);
                        assert(leaf_collect(ks, vs, mode, 0) == (taken, true)) by {
                            assert(taken + Seq::<(Seq<u8>, Seq<u8>)>::empty() =~= taken);
                        }
                        if start != 0 {
                            assert forall|x: Database| #[trigger] pages_kept(s1, x) implies chain_collect(x, start, mode, fuel0) == Some(entries_view(results@)) by {
                                assert(pages_kept(s0, x));
                                assert(x.stored(current) == s0.stored(current));
                            }
                        }
                        self.lemma_prefix_scan_done(sf, root, prefix@, fuel0, start, pp, entries_view(results@));
                    }
                    return Ok(results);
                } else {
                    assert(scan_step(mode, ks[i as int]) == 0);
                }
                i = i + 1;
            }
            proof {
                assert(leaf_collect(ks, vs, mode, i as int) == (Seq::<(Seq<u8>, Seq<u8>)>::empty(), false));
                assert(taken + Seq::<(Seq<u8>, Seq<u8>)>::empty() =~= taken);
            }
            if leaf.next_leaf == 0 {
                proof {
                    if start != 0 {
                        assert forall|x: Database| #[trigger] pages_kept(s1, x) implies chain_collect(x, start, mode, fuel0) == Some(entries_view(results@)) by {
                            assert(pages_kept(s0, x));
                            assert(x.stored(current) == s0.stored(current));
                        }
                    }
                    self.lemma_prefix_scan_done(sf, root, prefix@, fuel0, start, pp, entries_view(results@));
                }
                return Ok(results);
            }
            proof {
                if good {
                    let cur = chain_pages(s_old, current, mode, f0).unwrap();
                    let rest = chain_pages(s_old, leaf.next_leaf, mode, fuel as nat).unwrap();
                    assert(cur == seq![current] + rest);
                    assert forall|i: int| 0 <= i < rest.len() implies ps0.contains(#[trigger] rest[i]) by {
                        assert(rest[i] == cur[i + 1]);
                    }
                }
                if start != 0 {
                    assert forall|x: Database| #[trigger] pages_kept(s1, x) implies chain_collect(x, start, mode, fuel0) == prepend(
                        entries_view(results@),
                        chain_collect(x, leaf.next_leaf, mode, fuel as nat),
                    ) by {
                        assert(pages_kept(s0, x));
                        assert(x.stored(current) == s0.stored(current));
                        match chain_collect(x, leaf.next_leaf, mode, fuel as nat) {
                            Some(rest) => {
                                assert(e0 + (taken + rest) =~= (e0 + taken) + rest);
                            },
                            None => {},
                        }
                    }
                }
            }
            current = leaf.next_leaf;
        }
        Err(DbError::InvalidData)
    }

    /// A prefix scan that collected `es` from the leaf chain at `start`,
    /// where the descent for `prefix` ended, collected what the tree gives.
    proof fn lemma_prefix_scan_done(&self, sf: Database, root: u64, prefix: Seq<u8>, fuel0: nat, start: u64, pp: Seq<u64>, es: Seq<(Seq<u8>, Seq<u8>)>)
        requires
            pages_kept(sf, *self),
            start != 0 ==> forall|x: Database| #[trigger] pages_kept(*self, x) ==> chain_collect(x, start, ScanMode::Prefix { p: prefix }, fuel0) == Some(es),
            start != 0 ==> leaf_tagged(sf.stored(start)),
            start == 0 ==> forall|x: Database| #[trigger] agrees_on(x, sf, pp) ==> meets_header(x, root, prefix, fuel0),
            forall|i: int| 0 <= i < pp.len() && (#[trigger] pp[i]) != 0 ==> internal_tagged(sf.stored(pp[i])),
            forall|x: Database| #[trigger] agrees_on(x, sf, pp) && leaf_tagged(x.stored(start)) ==> tree_lookup(x, root, prefix, fuel0)
                == tree_lookup(x, start, prefix, 1) && descent_leaf(x, root, prefix, fuel0) == descent_leaf(x, start, prefix, 1)
                || meets_header(x, root, prefix, fuel0),
        ensures
            tree_collect(*self, root, Some(prefix), ScanMode::Prefix { p: prefix }, fuel0) == Some(es) || scan_meets_header(*self, root, Some(prefix), fuel0),
    {
        assert(agrees_on(*self, sf, pp)) by {
            assert forall|i: int| 0 <= i < pp.len() implies self.stored(#[trigger] pp[i]) == sf.stored(pp[i]) by {
                if pp[i] != 0 {
                    assert(internal_tagged(sf.stored(pp[i])));
                }
            }
        }
        if start != 0 {
            assert(pages_kept(*self, *self));
            assert(chain_collect(*self, start, ScanMode::Prefix { p: prefix }, fuel0) == Some(es));
            assert(leaf_tagged(self.stored(start)));
        }
    }
}

/// The positions of the columns named `names`, when every one of them exists.
pub open spec fn column_positions(cols: Seq<crate::schema::column::ColumnV>, names: Seq<Seq<char>>) -> Option<Seq<int>>
    decreases names.len(),
{
    if names.len() == 0 {
        Some(seq![])
    } else {
        match column_positions(cols, names.drop_last()) {
            Some(ps) => match crate::schema::table_schema::column_position(cols, names.last()) {
                Some(p) => Some(ps.push(p)),
                None => None,
            },
            None => None,
        }
    }
}

/// The cells of `row` at `positions`.
pub open spec fn cells_at(row: Seq<ValueV>, positions: Seq<int>) -> Seq<ValueV> {
    Seq::new(positions.len(), |k: int| row[positions[k]])
}

/// The key of `row` built from the columns `names`: the encodings of those
/// cells one after the other, or `InvalidData` when a column is missing.
pub open spec fn key_of(cols: Seq<crate::schema::column::ColumnV>, names: Seq<Seq<char>>, row: Seq<ValueV>) -> Result<Seq<u8>, DbError> {
    match column_positions(cols, names) {
        Some(ps) => Ok(crate::value::values_bytes(cells_at(row, ps))),
        None => Err(DbError::InvalidData),
    }
}

/// The primary key of `row` in table `t`.
pub open spec fn pk_key_of(t: TableSchemaV, row: Seq<ValueV>) -> Result<Seq<u8>, DbError> {
    key_of(t.columns, t.primary_key, row)
}

/// The index key of `row`: the indexed cells, then the primary key.
pub open spec fn index_key_of(t: TableSchemaV, idx: crate::schema::index_def::IndexDefV, row: Seq<ValueV>) -> Result<Seq<u8>, DbError> {
    match key_of(t.columns, idx.columns, row) {
        Ok(p) => match pk_key_of(t, row) {
            Ok(k) => Ok(p + k),
            Err(e) => Err(e),
        },
        Err(e) => Err(e),
    }
}

/// Every position is a cell of the row.
pub open spec fn positions_in(ps: Seq<int>, n: nat) -> bool {
    forall|k: int| 0 <= k < ps.len() ==> 0 <= #[trigger] ps[k] < n
}

pub(crate) proof fn lemma_column_positions_in(cols: Seq<crate::schema::column::ColumnV>, names: Seq<Seq<char>>)
    ensures
        column_positions(cols, names) matches Some(ps) ==> ps.len() == names.len() && positions_in(ps, cols.len()),
    decreases names.len(),
{
    if names.len() > 0 {
        lemma_column_positions_in(cols, names.drop_last());
        crate::schema::table_schema::lemma_column_position_first(cols, names.last());
    }
}

/// Appends the encodings of the cells `names` of `row`.
fn append_key(schema: &TableSchema, names: &Vec<String>, row: &Row, buf: &mut Vec<u8>) -> (r: Result<(), DbError>)
    requires
        row@.len() == schema@.columns.len(),
    ensures
        match key_of(schema@.columns, crate::codec::strings_view(names@), row@) {
            Ok(k) => r is Ok && final(buf)@ == old(buf)@ + k,
            Err(e) => r == Err::<(), DbError>(e),
        },
{
    let ghost cols = schema@.columns;
    let ghost ns = crate::codec::strings_view(names@);
    let ghost start = buf@;
    let ghost mut positions: Seq<int> = Seq::empty();
    let mut i: usize = 0;
    assert(ns.take(0) =~= Seq::<Seq<char>>::empty());
    while i < names.len()
        invariant
            0 <= i <= names@.len(),
            ns == crate::codec::strings_view(names@),
            cols == schema@.columns,
            row@.len() == cols.len(),
            column_positions(cols, ns.take(i as int)) == Some(positions),
            buf@ == start + crate::value::values_bytes(cells_at(row@, positions)),
        decreases names@.len() - i,
    {
        assert(ns.take(i + 1).drop_last() =~= ns.take(i as int));
        assert(ns.take(i + 1).last() == names@[i as int]@);
        match schema.get_column_index(names[i].as_str()) {
            Some(idx) => {
                let ghost before = positions;
                row.values[idx].serialize(buf);
                proof {
                    positions = before.push(idx as int);
                    let cb = cells_at(row@, before);
                    let ca = cells_at(row@, positions);
                    assert(ca.drop_last() =~= cb);
                    assert(ca.last() == row@[idx as int]);
                    assert(crate::value::values_bytes(ca) == crate::value::values_bytes(cb) + crate::value::value_bytes(row@[idx as int]));
                }
            },
            None => {
                proof {
                    lemma_column_positions_none(cols, ns, (i + 1) as nat);
                }
                return Err(DbError::InvalidData);
            },
        }
        i = i + 1;
    }
    assert(ns.take(names@.len() as int) =~= ns);
    Ok(())
}

pub(crate) proof fn lemma_column_positions_none(cols: Seq<crate::schema::column::ColumnV>, names: Seq<Seq<char>>, i: nat)
    requires
        i <= names.len(),
        column_positions(cols, names.take(i as int)) is None,
    ensures
        column_positions(cols, names) is None,
    decreases names.len() - i,
{
    if i < names.len() {
        assert(names.take((i + 1) as int).drop_last() =~= names.take(i as int));
        lemma_column_positions_none(cols, names, i + 1);
    } else {
        assert(names.take(i as int) =~= names);
    }
}

/// The encodings of `values` one after the other.
pub fn serialize_values(values: &[Value]) -> (r: Vec<u8>)
    ensures
        r@ == crate::value::values_bytes(Seq::new(values@.len(), |i: int| values@[i]@)),
{
    let ghost vs = Seq::new(values@.len(), |i: int| values@[i]@);
    let mut buf: Vec<u8> = Vec::new();
    let mut i: usize = 0;
    assert(vs.take(0) =~= Seq::<ValueV>::empty());
    while i < values.len()
        invariant
            0 <= i <= values@.len(),
            vs == Seq::new(values@.len(), |i: int| values@[i]@),
            buf@ == crate::value::values_bytes(vs.take(i as int)),
        decreases values@.len() - i,
    {
        values[i].serialize(&mut buf);
        assert(vs.take(i + 1).drop_last() =~= vs.take(i as int));
        assert(vs.take(i + 1).last() == values@[i as int]@);
        i = i + 1;
    }
    assert(vs.take(values@.len() as int) =~= vs);
    buf
}

impl Database {
    /// The position of the table called `name`.
    fn table_index(&self, name: &str) -> (r: Option<usize>)
        requires
            self.inv(),
        ensures
            match r {
                Some(i) => table_at(self.tables(), name@, i as int) && table_named(self.tables(), name@) == Some(self.tables()[i as int]),
                None => !has_table(self.tables(), name@) && table_named(self.tables(), name@) is None,
            },
    {
        let mut i: usize = 0;
        while i < self.schemas.len()
            invariant
                self.inv(),
                0 <= i <= self.tables().len(),
                forall|j: int| 0 <= j < i ==> self.tables()[j].name != name@,
            decreases self.tables().len() - i,
        {
            assert(self.schemas@[i as int]@ == self.tables()[i as int]);
            if str_equal(self.schemas[i].name.as_str(), name) {
                proof {
                    lemma_table_named_at(self.tables(), name@, i as int);
                }
                return Some(i);
            }
            i = i + 1;
        }
        None
    }

    /// The schema of the table called `name`.
    pub fn get_schema(&self, name: &str) -> (r: Option<&TableSchema>)
        requires
            self.inv(),
        ensures
            match table_named(self.tables(), name@) {
                Some(t) => r matches Some(s) && s@ == t,
                None => r is None,
            },
    {
        match self.table_index(name) {
            Some(i) => Some(&self.schemas[i]),
            None => None,
        }
    }

    /// The names of the tables.
    pub fn list_tables(&self) -> (r: Vec<&str>)
        ensures
            r@.len() == self.tables().len(),
            forall|i: int| 0 <= i < r@.len() ==> (#[trigger] r@[i])@ == self.tables()[i].name,
    {
        let mut out: Vec<&str> = Vec::new();
        let mut i: usize = 0;
        while i < self.schemas.len()
            invariant
                0 <= i <= self.tables().len(),
                out@.len() == i,
                forall|j: int| 0 <= j < i ==> (#[trigger] out@[j])@ == self.tables()[j].name,
            decreases self.tables().len() - i,
        {
            out.push(self.schemas[i].name.as_str());
            i = i + 1;
        }
        out
    }

    /// The primary key of `row` in table `schema`.
    fn build_pk_key(&self, schema: &TableSchema, row: &Row) -> (r: Result<Vec<u8>, DbError>)
        requires
            row@.len() == schema@.columns.len(),
        ensures
            match pk_key_of(schema@, row@) {
                Ok(k) => r matches Ok(v) && v@ == k,
                Err(e) => r matches Err(x) && x == e,
            },
    {
        let mut key: Vec<u8> = Vec::new();
        match append_key(schema, &schema.primary_key, row, &mut key) {
            Ok(()) => {
                assert(key@ =~= Seq::<u8>::empty() + key@);
                Ok(key)
            },
            Err(e) => Err(e),
        }
    }

    /// The index key of `row`: the indexed cells, then the primary key.
    fn build_index_key(&self, schema: &TableSchema, index: &IndexDef, row: &Row) -> (r: Result<Vec<u8>, DbError>)
        requires
            row@.len() == schema@.columns.len(),
        ensures
            match index_key_of(schema@, index@, row@) {
                Ok(k) => r matches Ok(v) && v@ == k,
                Err(e) => r matches Err(x) && x == e,
            },
    {
        let mut key: Vec<u8> = Vec::new();
        match append_key(schema, &index.columns, row, &mut key) {
            Ok(()) => {},
            Err(e) => return Err(e),
        }
        match self.build_pk_key(schema, row) {
            Ok(pk) => {
                crate::codec::append_bytes(&mut key, pk.as_slice());
                Ok(key)
            },
            Err(e) => Err(e),
        }
    }

    /// The indexed cells of `row`, without the primary key.
    fn build_index_key_prefix(&self, schema: &TableSchema, index: &IndexDef, row: &Row) -> (r: Result<Vec<u8>, DbError>)
        requires
            row@.len() == schema@.columns.len(),
        ensures
            match key_of(schema@.columns, index@.columns, row@) {
                Ok(k) => r matches Ok(v) && v@ == k,
                Err(e) => r matches Err(x) && x == e,
            },
    {
        let mut key: Vec<u8> = Vec::new();
        match append_key(schema, &index.columns, row, &mut key) {
            Ok(()) => {
                assert(key@ =~= Seq::<u8>::empty() + key@);
                Ok(key)
            },
            Err(e) => Err(e),
        }
    }

    /// The key of a primary-key tuple.
    fn serialize_pk(&self, values: &[Value]) -> (r: Vec<u8>)
        ensures
            r@ == crate::value::values_bytes(Seq::new(values@.len(), |i: int| values@[i]@)),
    {
        serialize_values(values)
    }

    /// Reads the schema catalog into memory (nothing when there is none).
    fn load_schema_catalog(&mut self) -> (r: Result<(), DbError>)
        requires
            old(self).inv(),
        ensures
            final(self).inv(),
            final(self).header_view() == old(self).header_view(),
            old(self).header_view().schema_catalog_root == 0 ==> r is Ok && final(self).tables() == old(self).tables(),
            r is Ok ==> pages_kept(*old(self), *final(self)),
            r is Ok && old(self).header_view().schema_catalog_root != 0 ==> exists|es: Seq<(Seq<u8>, Seq<u8>)>|
                #[trigger] catalog_scanned(*final(self), es) && load_tables(old(self).tables(), es) == Ok::<
                    Seq<TableSchemaV>,
                    DbError,
                >(final(self).tables()),
    {
        let root = self.header.schema_catalog_root();
        if root == 0 {
            return Ok(());
        }
        let entries = match self.scan_btree(root) {
            Ok(e) => e,
            Err(e) => return Err(e),
        };
        let ghost s1 = *self;
        let ghost es = entries_view(entries@);
        assert(es.subrange(0, es.len() as int) =~= es);
        let mut i: usize = 0;
        while i < entries.len()
            invariant
                self.inv(),
                self.header_view() == old(self).header_view(),
                old(self).header_view().schema_catalog_root != 0,
                pages_kept(s1, *self),
                es == entries_view(entries@),
                0 <= i <= es.len(),
                load_tables(old(self).tables(), es) == load_tables(self.tables(), es.subrange(i as int, es.len() as int)),
            decreases entries@.len() - i,
        {
            let ghost rest = es.subrange(i as int, es.len() as int);
            assert(rest[0] == es[i as int]);
            assert(rest.drop_first() =~= es.subrange(i + 1, es.len() as int));
            let key = vstd::slice::slice_to_vec(entries[i].0.as_slice());
            match crate::codec::string_from_utf8(key) {
                Some(_) => {},
                None => return Err(DbError::InvalidData),
            }
            let schema = match TableSchema::deserialize(entries[i].1.as_slice()) {
                Ok(s) => s,
                Err(e) => return Err(e),
            };
            let ghost before = self.tables();
            let ghost s2 = *self;
            proof {
                self.lemma_inv_names_distinct();
            }
            self.put_schema(schema);
            proof {
                lemma_put_table(before, schema@, self.tables());
                assert(pages_kept(s2, *self));
                assert forall|n: u64| #![trigger s1.stored(n)] #![trigger self.stored(n)] s1.stored(n) is Some implies self.stored(n) == s1.stored(n) by {
                    assert(s2.stored(n) == s1.stored(n));
                }
            }
            i = i + 1;
        }
        proof {
            assert(es.subrange(es.len() as int, es.len() as int) =~= Seq::<(Seq<u8>, Seq<u8>)>::empty());
            let fuel = old(self).header_view().total_pages as nat;
            lemma_collect_kept(s1, *self, root, None, ScanMode::Range { lo: None, hi: None }, fuel);
            assert(catalog_scanned(*self, es));
        }
        Ok(())
    }

    /// Records `schema` in memory, replacing the table of the same name.
    fn put_schema(&mut self, schema: TableSchema)
        requires
            old(self).inv(),
        ensures
            final(self).inv(),
            final(self).header_view() == old(self).header_view(),
            final(self).cache_view() == old(self).cache_view(),
            final(self).file_page_count() == old(self).file_page_count(),
            pages_kept(*old(self), *final(self)),
            table_named(final(self).tables(), schema@.name) == Some(schema@),
            has_table(old(self).tables(), schema@.name) ==> forall|i: int|
                table_at(old(self).tables(), schema@.name, i) ==> final(self).tables() == old(self).tables().update(i, schema@),
            !has_table(old(self).tables(), schema@.name) ==> final(self).tables() == old(self).tables().push(schema@),
    {
        let ghost sv = schema@;
        match self.table_index(schema.name.as_str()) {
            Some(i) => {
                let ghost before = self.tables();
                self.schemas.set(i, schema);
                assert(self.tables() =~= before.update(i as int, sv));
                proof {
                    assert forall|a: int, b: int| 0 <= a < self.tables().len() && 0 <= b < self.tables().len() && a != b
                        implies self.tables()[a].name != self.tables()[b].name by {
                        assert(before[a].name == self.tables()[a].name);
                        assert(before[b].name == self.tables()[b].name);
                    }
                    lemma_table_named_at(self.tables(), sv.name, i as int);
                    assert forall|j: int| table_at(before, sv.name, j) implies j == i by {}
                }
            },
            None => {
                let ghost before = self.tables();
                self.schemas.push(schema);
                assert(self.tables() =~= before.push(sv));
                proof {
                    assert forall|a: int, b: int| 0 <= a < self.tables().len() && 0 <= b < self.tables().len() && a != b
                        implies self.tables()[a].name != self.tables()[b].name by {
                        if a == before.len() {
                            assert(!table_at(before, sv.name, b));
                        } else if b == before.len() {
                            assert(!table_at(before, sv.name, a));
                        }
                    }
                    lemma_table_named_at(self.tables(), sv.name, before.len() as int);
                }
            },
        }
    }

    /// Stores `schema` in the schema catalog, creating the catalog tree on
    /// first use.
    fn save_schema(&mut self, schema: &TableSchema) -> (r: Result<(), DbError>)
        requires
            old(self).inv(),
        ensures
            final(self).inv(),
            final(self).tables() == old(self).tables(),
            final(self).header_view().total_pages >= old(self).header_view().total_pages,
            r is Ok && catalog_ready(*old(self), schema@.name) ==> kept_outside(*old(self), *final(self), catalog_writes(*old(self), schema@.name)),
            r is Ok && old(self).header_view().schema_catalog_root == 0 ==> final(self).header_view().schema_catalog_root
                == old(self).header_view().total_pages,
            r is Ok && old(self).header_view().schema_catalog_root != 0 && final(self).header_view().total_pages
                == old(self).header_view().total_pages ==> final(self).header_view().schema_catalog_root
                == old(self).header_view().schema_catalog_root,
            r is Ok && old(self).header_view().schema_catalog_root != 0 && catalog_ready(*old(self), schema@.name) ==> tree_lookup(
                *final(self),
                final(self).header_view().schema_catalog_root,
                crate::codec::utf8_of(schema@.name),
                final(self).header_view().total_pages as nat,
            ) == Some(Some(crate::schema::table_schema::schema_bytes(schema@))),
            r is Ok && old(self).header_view().schema_catalog_root == 0 && old(self).header_view().total_pages > 0 ==> tree_lookup(
                *final(self),
                old(self).header_view().total_pages,
                crate::codec::utf8_of(schema@.name),
                final(self).header_view().total_pages as nat,
            ) == Some(Some(crate::schema::table_schema::schema_bytes(schema@))),
            r is Ok && old(self).header_view().schema_catalog_root != 0 && final(self).header_view().total_pages
                == old(self).header_view().total_pages ==> tree_holds(
                *final(self),
                old(self).header_view().schema_catalog_root,
                crate::codec::utf8_of(schema@.name),
                old(self).header_view().total_pages as nat,
                Some(crate::schema::table_schema::schema_bytes(schema@)),
            ),
            schema_save_fits(*old(self), schema@) ==> r is Ok,
    {
        let key = crate::codec::string_bytes(schema.name.as_str());
        let mut value: Vec<u8> = Vec::new();
        schema.serialize(&mut value);
        let ghost s0 = *self;
        if self.header.schema_catalog_root() == 0 {
            let root_page = match self.allocate_page() {
                Ok(p) => p,
                Err(e) => return Err(e),
            };
            let ghost s1 = *self;
            let mut leaf = LeafNode::new();
            leaf.keys.push(key);
            leaf.values.push(value);
            proof {
                assert(leaf@.keys =~= seq![crate::codec::utf8_of(schema@.name)]);
                assert(leaf@.values =~= seq![crate::schema::table_schema::schema_bytes(schema@)]);
            }
            match self.write_leaf(root_page, &leaf) {
                Ok(()) => {},
                Err(e) => return Err(e),
            }
            let ghost s2 = *self;
            self.header.set_schema_catalog_root(root_page);
            let ghost s3 = *self;
            proof {
                assert forall|n: u64| #![trigger s3.stored(n)] s3.stored(n) == s2.stored(n) by {}
            }
            let r = self.flush_header();
            proof {
                if r is Ok && root_page > 0 {
                    let lv = leaf@;
                    assert(lv.keys =~= seq![crate::codec::utf8_of(schema@.name)]);
                    assert(lv.values =~= seq![crate::schema::table_schema::schema_bytes(schema@)]);
                    crate::btree::leaf_node::lemma_leaf_roundtrip(lv);
                    assert(self.stored(root_page) == Some(crate::btree::leaf_node::leaf_bytes(lv)));
                    assert(crate::btree::leaf_node::leaf_bytes(lv)[0] == NODE_LEAF);
                    assert(leaf_scan(lv.keys, lv.values, crate::codec::utf8_of(schema@.name), 0) == Some(
                        crate::schema::table_schema::schema_bytes(schema@),
                    ));
                }
                if r is Ok {
                    assert forall|m: u64| #![trigger self.stored(m)] m < s0.header_view().total_pages && s0.stored(m) is Some
                        && !catalog_writes(s0, schema@.name).contains(m) implies self.stored(m) == s0.stored(m) by {
                        assert(s1.stored(m) == s0.stored(m));
                        assert(s2.stored(m) == s1.stored(m));
                    }
                }
            }
            r
        } else {
            let root = self.header.schema_catalog_root();
            match self.btree_insert(root, key, value) {
                Ok(new_root) => {
                    if new_root != root {
                        let ghost s1 = *self;
                        self.header.set_schema_catalog_root(new_root);
                        let ghost s2 = *self;
                        proof {
                            assert forall|n: u64| #![trigger s2.stored(n)] s2.stored(n) == s1.stored(n) by {}
                        }
                        let r = self.flush_header();
                        proof {
                            let k = crate::codec::utf8_of(schema@.name);
                            let f = s1.header_view().total_pages as nat;
                            lemma_lookup_kept(s1, *self, new_root, k, f);
                            lemma_lookup_kept(s2, *self, new_root, k, f);
                            assert(pages_kept(s1, s2));
                            lemma_lookup_kept(s1, s2, new_root, k, f);
                        }
                        r
                    } else {
                        Ok(())
                    }
                },
                Err(e) => Err(e),
            }
        }
    }

    /// Creates a table: fails with `AlreadyExists` when a table of that name
    /// exists; otherwise gives it a fresh root page holding an empty leaf,
    /// stores its schema in the catalog and adds it.
    pub fn create_table(&mut self, schema: TableSchema) -> (r: Result<(), DbError>)
        requires
            old(self).inv(),
        ensures
            final(self).inv(),
            has_table(old(self).tables(), schema@.name) ==> r == Err::<(), DbError>(DbError::AlreadyExists)
                && *final(self) == *old(self),
            r is Ok ==> final(self).tables() == old(self).tables().push(
                TableSchemaV { root_page: old(self).header_view().total_pages, ..schema@ },
            ),
            r is Err && !has_table(old(self).tables(), schema@.name) ==> final(self).tables() == old(self).tables(),
            r is Ok && old(self).header_view().total_pages > 0 && catalog_ready(*old(self), schema@.name) ==> table_rows(
                *final(self),
                TableSchemaV { root_page: old(self).header_view().total_pages, ..schema@ },
                Seq::empty(),
            ),
            r is Ok && old(self).header_view().total_pages > 0 && catalog_ready(*old(self), schema@.name) ==> forall|k: Seq<u8>|
                #[trigger] tree_lookup(*final(self), old(self).header_view().total_pages, k, final(self).header_view().total_pages as nat)
                    == Some(None::<Seq<u8>>),
            !has_table(old(self).tables(), schema@.name) && create_fits(*old(self), schema@) ==> r is Ok,
    {
        let ghost s0 = *old(self);
        let ghost name = schema@.name;
        let ghost schema_in = schema@;
        if self.table_index(schema.name.as_str()).is_some() {
            return Err(DbError::AlreadyExists);
        }
        let root_page = match self.allocate_page() {
            Ok(p) => p,
            Err(e) => return Err(e),
        };
        let ghost s1 = *self;
        let leaf = LeafNode::new();
        proof {
            lemma_auto_spec_u64_to_from_le_bytes();
            lemma_auto_spec_u16_to_from_le_bytes();
            assert(crate::btree::leaf_node::leaf_fits(leaf@));
        }
        match self.write_leaf(root_page, &leaf) {
            Ok(()) => {},
            Err(e) => return Err(e),
        }
        let ghost s2 = *self;
        let ghost ready = root_page > 0 && catalog_ready(s0, name);
        proof {
            if ready {
                let croot = s0.header_view().schema_catalog_root;
                let ws = seq![root_page];
                assert(kept_outside(s0, s2, ws)) by {
                    assert forall|m: u64| m < s0.header_view().total_pages && s0.stored(m) is Some && !ws.contains(m) implies #[trigger] s2.stored(m)
                        == s0.stored(m) by {
                        assert(m != root_page);
                        assert(s1.stored(m) == s0.stored(m));
                    }
                }
                if croot != 0 {
                    lemma_insert_writes_below(s0, croot, crate::codec::utf8_of(name));
                }
                assert(apart(catalog_writes(s0, name), ws));
                lemma_catalog_kept(s0, s2, name, ws);
            }
        }
        let mut schema = schema;
        schema.root_page = root_page;
        proof {
            if create_fits(s0, schema_in) {
                let t = s0.header_view().total_pages;
                let croot = s0.header_view().schema_catalog_root;
                let k = crate::codec::utf8_of(name);
                if croot != 0 {
                    let ps = descent_pages(s0, croot, k, t as nat).unwrap();
                    assert forall|i: int| 0 <= i < ps.len() implies s2.stored(#[trigger] ps[i]) == s0.stored(ps[i]) by {
                        assert(ps[i] < t);
                        lemma_descent_stored(s0, croot, k, t as nat);
                        assert(s0.stored(ps[i]) is Some);
                        assert(s1.stored(ps[i]) == s0.stored(ps[i]));
                    }
                    lemma_insert_fits_kept(s0, s2, croot, k, crate::schema::table_schema::schema_bytes(schema@), t as nat, (t + 1) as nat);
                }
                assert(schema_save_fits(s2, schema@));
            }
        }
        match self.save_schema(&schema) {
            Ok(()) => {},
            Err(e) => return Err(e),
        }
        let ghost s3 = *self;
        let ghost sv = schema@;
        let ghost before = self.tables();
        proof {
            assert(!has_table(before, sv.name));
        }
        self.put_schema(schema);
        proof {
            if ready {
                let lb = crate::btree::leaf_node::leaf_bytes(leaf@);
                let croot = s0.header_view().schema_catalog_root;
                if croot != 0 {
                    lemma_insert_writes_below(s2, croot, crate::codec::utf8_of(name));
                }
                assert(!catalog_writes(s2, name).contains(root_page));
                assert(s2.stored(root_page) == Some(lb));
                assert(s3.stored(root_page) == Some(lb));
                assert(self.stored(root_page) == Some(lb));
                crate::btree::leaf_node::lemma_leaf_roundtrip(leaf@);
                assert(lb[0] == NODE_LEAF);
                let fuel = self.header_view().total_pages as nat;
                assert forall|k: Seq<u8>| #[trigger] tree_lookup(*self, root_page, k, fuel) == Some(None::<Seq<u8>>) by {
                    assert(leaf_scan(leaf@.keys, leaf@.values, k, 0) == None::<Seq<u8>>);
                }
                let t = TableSchemaV { root_page: root_page, ..sv };
                assert(leftmost(*self, root_page, fuel) == Some(root_page));
                assert(leaf_collect(leaf@.keys, leaf@.values, ScanMode::Range { lo: None, hi: None }, 0).0 =~= Seq::<(Seq<u8>, Seq<u8>)>::empty());
                assert(tree_collect(*self, root_page, None, ScanMode::Range { lo: None, hi: None }, fuel) == Some(Seq::<(Seq<u8>, Seq<u8>)>::empty()));
                assert(pages_kept(*self, *self));
                assert(scanned_rows(*self, root_page, None, ScanMode::Range { lo: None, hi: None }, fuel, sv.columns, Seq::empty()));
                assert(table_rows(*self, t, Seq::empty()));
            }
        }
        Ok(())
    }

    /// Drops a table: fails with `NotFound` when there is no table of that
    /// name; otherwise removes it and deletes its catalog entry (its pages are
    /// not reclaimed).
    pub fn drop_table(&mut self, name: &str) -> (r: Result<(), DbError>)
        requires
            old(self).inv(),
        ensures
            final(self).inv(),
            !has_table(old(self).tables(), name@) ==> r == Err::<(), DbError>(DbError::NotFound)
                && *final(self) == *old(self),
            forall|i: int| table_at(old(self).tables(), name@, i) ==> final(self).tables() == old(self).tables().remove(i),
            final(self).header_view() == old(self).header_view(),
            r is Ok && descent_leaf_distinct(
                *old(self),
                old(self).header_view().schema_catalog_root,
                crate::codec::utf8_of(name@),
                old(self).header_view().total_pages as nat,
            ) ==> tree_holds(
                *final(self),
                old(self).header_view().schema_catalog_root,
                crate::codec::utf8_of(name@),
                old(self).header_view().total_pages as nat,
                None,
            ),
            has_table(old(self).tables(), name@) ==> (descent_pages(
                *old(self),
                old(self).header_view().schema_catalog_root,
                crate::codec::utf8_of(name@),
                old(self).header_view().total_pages as nat,
            ) matches Some(ps) && pages_readable(*old(self), ps) ==> r is Ok),
    {
        let i = match self.table_index(name) {
            Some(i) => i,
            None => return Err(DbError::NotFound),
        };
        assert(table_at(old(self).tables(), name@, i as int));
        assert(has_table(old(self).tables(), name@));
        let ghost before = self.tables();
        self.schemas.remove(i);
        assert(self.tables() =~= before.remove(i as int));
        proof {
            assert forall|a: int, b: int| 0 <= a < self.tables().len() && 0 <= b < self.tables().len() && a != b
                implies self.tables()[a].name != self.tables()[b].name by {
                let a2 = if a < i { a } else { a + 1 };
                let b2 = if b < i { b } else { b + 1 };
                assert(self.tables()[a] == before[a2]);
                assert(self.tables()[b] == before[b2]);
            }
            assert forall|j: int| table_at(before, name@, j) implies j == i by {}
        }
        let key = crate::codec::string_bytes(name);
        let root = self.header.schema_catalog_root();
        proof {
            let fuel = old(self).header_view().total_pages as nat;
            assert(pages_kept(*old(self), *self));
            lemma_descent_kept(*old(self), *self, root, key@, fuel);
            assert(self.cache_view() == old(self).cache_view());
            assert(self.file_page_count() == old(self).file_page_count());
            if descent_pages(*old(self), root, key@, fuel) is Some {
                let ps = descent_pages(*old(self), root, key@, fuel).unwrap();
                if pages_readable(*old(self), ps) {
                    assert forall|k: int| 0 <= k < ps.len() implies self.stored(#[trigger] ps[k]) == old(self).stored(ps[k]) by {}
                    assert(pages_readable(*self, ps));
                    lemma_descent_agrees(*old(self), *self, root, key@, fuel, fuel);
                }
            }
        }
        assert(key@ == crate::codec::utf8_of(name@));
        assert(root == old(self).header_view().schema_catalog_root);
        match self.btree_delete(root, key.as_slice()) {
            Ok(_) => Ok(()),
            Err(e) => Err(e),
        }
    }
}

/// A row of `n` `Null` cells.
pub open spec fn null_row(n: nat) -> Seq<ValueV> {
    Seq::new(n, |i: int| ValueV::Null)
}

/// The joined rows of `l` with each row of `rs` whose cell `rci` equals cell
/// `lci` of `l`, in the order of `rs`.
pub open spec fn join_pairs(l: Seq<ValueV>, rs: Seq<Seq<ValueV>>, lci: int, rci: int) -> Seq<JoinedRowV>
    decreases rs.len(),
{
    if rs.len() == 0 {
        seq![]
    } else {
        join_pairs(l, rs.drop_last(), lci, rci) + if crate::value::value_eq(l[lci], rs.last()[rci]) {
            seq![joined(l, rs.last())]
        } else {
            seq![]
        }
    }
}

/// `x` is the left row `l` joined with one of the right rows `rs` whose cell
/// `rci` equals `l`'s cell `lci`.
pub open spec fn joins_one_of(l: Seq<ValueV>, rs: Seq<Seq<ValueV>>, lci: int, rci: int, x: JoinedRowV) -> bool {
    exists|k: int| 0 <= k < rs.len() && crate::value::value_eq(l[lci], rs[k][rci]) && x == joined(l, #[trigger] rs[k])
}

/// Joining a left row with right rows gives exactly the joins with the
/// right rows whose cell `rci` equals the left row's cell `lci`, in order:
/// every result is the left row followed by such a right row, and every
/// such right row is joined.
pub proof fn lemma_join_pairs_exact(l: Seq<ValueV>, rs: Seq<Seq<ValueV>>, lci: int, rci: int)
    ensures
        join_pairs(l, rs, lci, rci).len() <= rs.len(),
        forall|i: int| 0 <= i < join_pairs(l, rs, lci, rci).len() ==> joins_one_of(l, rs, lci, rci, #[trigger] join_pairs(l, rs, lci, rci)[i]),
        forall|k: int|
            0 <= k < rs.len() && crate::value::value_eq(l[lci], #[trigger] rs[k][rci]) ==> join_pairs(l, rs, lci, rci).contains(joined(l, rs[k])),
    decreases rs.len(),
{
    if rs.len() > 0 {
        let init = rs.drop_last();
        lemma_join_pairs_exact(l, init, lci, rci);
        let f0 = join_pairs(l, init, lci, rci);
        let f = join_pairs(l, rs, lci, rci);
        assert forall|i: int| 0 <= i < f.len() implies joins_one_of(l, rs, lci, rci, #[trigger] f[i]) by {
            if i < f0.len() {
                assert(f[i] == f0[i]);
                assert(joins_one_of(l, init, lci, rci, f0[i]));
                let k = choose|k: int| 0 <= k < init.len() && crate::value::value_eq(l[lci], init[k][rci]) && f0[i] == joined(l, #[trigger] init[k]);
                assert(rs[k] == init[k]);
            } else {
                assert(rs[rs.len() - 1] == rs.last());
                assert(f[i] == joined(l, rs[rs.len() - 1]));
            }
        }
        assert forall|k: int| 0 <= k < rs.len() && crate::value::value_eq(l[lci], #[trigger] rs[k][rci]) implies f.contains(joined(l, rs[k])) by {
            if k < rs.len() - 1 {
                assert(init[k] == rs[k]);
                let m = choose|m: int| 0 <= m < f0.len() && f0[m] == joined(l, rs[k]);
                assert(f[m] == f0[m]);
            } else {
                assert(rs[k] == rs.last());
                assert(f[f.len() - 1] == joined(l, rs.last()));
            }
        }
    }
}

/// A left row without a match joins, in an inner join, to nothing, and in
/// a left outer join to itself followed by `n` `Null` cells.
pub proof fn lemma_join_one_unmatched(l: Seq<ValueV>, rs: Seq<Seq<ValueV>>, lci: int, rci: int, n: nat)
    requires
        forall|k: int| 0 <= k < rs.len() ==> !crate::value::value_eq(l[lci], #[trigger] rs[k][rci]),
    ensures
        join_one(l, rs, lci, rci, JoinType::Inner, n).len() == 0,
        join_one(l, rs, lci, rci, JoinType::LeftOuter, n) == seq![joined(l, null_row(n))],
        null_row(n).len() == n,
        forall|i: int| 0 <= i < n ==> #[trigger] null_row(n)[i] == ValueV::Null,
{
    lemma_join_pairs_exact(l, rs, lci, rci);
    let ps = join_pairs(l, rs, lci, rci);
    if ps.len() > 0 {
        assert(joins_one_of(l, rs, lci, rci, ps[0]));
    }
}

/// The joined rows for one left row: its matches, or, in a left outer join
/// without matches, the row joined with `n` `Null`s.
pub open spec fn join_one(l: Seq<ValueV>, rs: Seq<Seq<ValueV>>, lci: int, rci: int, jt: JoinType, n: nat) -> Seq<JoinedRowV> {
    let ps = join_pairs(l, rs, lci, rci);
    if ps.len() == 0 && jt == JoinType::LeftOuter {
        seq![joined(l, null_row(n))]
    } else {
        ps
    }
}

/// A nested-loop join of two lists of rows on cells `lci` and `rci`.
pub open spec fn join_all(ls: Seq<Seq<ValueV>>, rs: Seq<Seq<ValueV>>, lci: int, rci: int, jt: JoinType, n: nat) -> Seq<JoinedRowV>
    decreases ls.len(),
{
    if ls.len() == 0 {
        seq![]
    } else {
        join_all(ls.drop_last(), rs, lci, rci, jt, n) + join_one(ls.last(), rs, lci, rci, jt, n)
    }
}

/// The joined rows of `l` with each of its matches `ms`, or, in a left outer
/// join without matches, `l` joined with `n` `Null`s.
pub open spec fn join_matches(l: Seq<ValueV>, ms: Seq<Seq<ValueV>>, jt: JoinType, n: nat) -> Seq<JoinedRowV> {
    if ms.len() == 0 {
        if jt == JoinType::LeftOuter {
            seq![joined(l, null_row(n))]
        } else {
            seq![]
        }
    } else {
        Seq::new(ms.len(), |k: int| joined(l, ms[k]))
    }
}

/// `out` is what an index nested-loop join gives on the pages of `db`: the
/// rows `ls` that a scan of `lt` finds, each joined with the rows `mss[k]`
/// that looking its `left_col` value up in the index `index` of `rt` finds.
pub open spec fn index_join_rows(
    db: Database,
    lt: TableSchemaV,
    rt: TableSchemaV,
    left_col: Seq<char>,
    right_col: Seq<char>,
    index: Seq<char>,
    jt: JoinType,
    out: Seq<JoinedRowV>,
) -> bool {
    exists|ls: Seq<Seq<ValueV>>, mss: Seq<Seq<Seq<ValueV>>>|
        all_of_width(ls, lt.columns.len()) && mss.len() == ls.len() && (forall|k: int|
            0 <= k < mss.len() ==> all_of_width(#[trigger] mss[k], rt.columns.len())) && table_rows(db, lt, ls) && (forall|k: int|
            0 <= k < mss.len() ==> index_lookup_rows(
                db,
                rt,
                index,
                crate::value::values_bytes(seq![ls[k][column_position(lt.columns, left_col).unwrap()]]),
                #[trigger] mss[k],
            )) && out == #[trigger] join_each(ls, mss, jt, rt.columns.len())
}

/// The joined rows of each left row with its own list of matches.
pub open spec fn join_each(ls: Seq<Seq<ValueV>>, mss: Seq<Seq<Seq<ValueV>>>, jt: JoinType, n: nat) -> Seq<JoinedRowV>
    decreases ls.len(),
{
    if ls.len() == 0 {
        seq![]
    } else {
        join_each(ls.drop_last(), mss.drop_last(), jt, n) + join_matches(ls.last(), mss.last(), jt, n)
    }
}

/// Every row has `w` cells.
pub open spec fn all_of_width(rs: Seq<Seq<ValueV>>, w: nat) -> bool {
    forall|i: int| 0 <= i < rs.len() ==> (#[trigger] rs[i]).len() == w
}

/// The contents of a list of rows.
pub open spec fn rows_view(v: Seq<Row>) -> Seq<Seq<ValueV>> {
    Seq::new(v.len(), |i: int| v[i]@)
}

/// The contents of a list of joined rows.
pub open spec fn joined_view(v: Seq<JoinedRow>) -> Seq<JoinedRowV> {
    Seq::new(v.len(), |i: int| v[i]@)
}

/// Every row has more than `c` cells.
pub open spec fn rows_wider_than(rs: Seq<Seq<ValueV>>, c: int) -> bool {
    forall|i: int| 0 <= i < rs.len() ==> c < (#[trigger] rs[i]).len()
}

/// A row of `n` `Null` cells.
fn nulls(n: usize) -> (r: Row)
    ensures
        r@ == null_row(n as nat),
{
    let mut v: Vec<Value> = Vec::new();
    let mut i: usize = 0;
    while i < n
        invariant
            0 <= i <= n,
            values_view(v@) == null_row(i as nat),
        decreases n - i,
    {
        let ghost before = v@;
        v.push(Value::Null);
        assert(v@ == before.push(Value::Null));
        assert(values_view(before).len() == before.len());
        assert forall|k: int| 0 <= k < i + 1 implies values_view(v@)[k] == null_row((i + 1) as nat)[k] by {
            if k < i {
                assert(values_view(before)[k] == null_row(i as nat)[k]);
            }
        }
        assert(values_view(v@) =~= null_row((i + 1) as nat));
        i = i + 1;
    }
    Row::new(v)
}

/// Joins two lists of rows by the nested-loop method: for each left row, in
/// order, the right rows whose cell `rci` equals its cell `lci`; a left outer
/// join keeps a left row without matches, joined with `right_width` `Null`s.
pub fn join_rows(left_rows: &Vec<Row>, right_rows: &Vec<Row>, lci: usize, rci: usize, join_type: JoinType, right_width: usize) -> (r: Vec<JoinedRow>)
    requires
        rows_wider_than(rows_view(left_rows@), lci as int),
        rows_wider_than(rows_view(right_rows@), rci as int),
    ensures
        joined_view(r@) == join_all(rows_view(left_rows@), rows_view(right_rows@), lci as int, rci as int, join_type, right_width as nat),
{
    let ghost ls = rows_view(left_rows@);
    let ghost rs = rows_view(right_rows@);
    let mut results: Vec<JoinedRow> = Vec::new();
    let mut i: usize = 0;
    assert(ls.take(0) =~= Seq::<Seq<ValueV>>::empty());
    assert(joined_view(results@) =~= Seq::<JoinedRowV>::empty());
    while i < left_rows.len()
        invariant
            0 <= i <= ls.len(),
            ls == rows_view(left_rows@),
            rs == rows_view(right_rows@),
            rows_wider_than(ls, lci as int),
            rows_wider_than(rs, rci as int),
            joined_view(results@) == join_all(ls.take(i as int), rs, lci as int, rci as int, join_type, right_width as nat),
        decreases ls.len() - i,
    {
        let left_row = &left_rows[i];
        let ghost l = ls[i as int];
        assert(left_row@ == l);
        let ghost base = joined_view(results@);
        let left_value = &left_row.values[lci];
        let mut found_match = false;
        let mut j: usize = 0;
        assert(rs.take(0) =~= Seq::<Seq<ValueV>>::empty());
        assert(joined_view(results@) =~= base + join_pairs(l, rs.take(0), lci as int, rci as int));
        while j < right_rows.len()
            invariant
                0 <= j <= rs.len(),
                rs == rows_view(right_rows@),
                rows_wider_than(rs, rci as int),
                l.len() > lci,
                left_value@ == l[lci as int],
                left_row@ == l,
                joined_view(results@) == base + join_pairs(l, rs.take(j as int), lci as int, rci as int),
                found_match == (join_pairs(l, rs.take(j as int), lci as int, rci as int).len() > 0),
            decreases rs.len() - j,
        {
            let right_row = &right_rows[j];
            assert(right_row@ == rs[j as int]);
            assert(rs[j as int].len() > rci);
            let right_value = &right_row.values[rci];
            assert(rs.take(j + 1).drop_last() =~= rs.take(j as int));
            assert(rs.take(j + 1).last() == rs[j as int]);
            if left_value.equals(right_value) {
                let ghost before = joined_view(results@);
                results.push(JoinedRow::new(left_row.copy(), right_row.copy()));
                assert(joined_view(results@) =~= before.push(joined(l, rs[j as int])));
                found_match = true;
            }
            j = j + 1;
        }
        assert(rs.take(rs.len() as int) =~= rs);
        if !found_match && join_type == JoinType::LeftOuter {
            let ghost before = joined_view(results@);
            results.push(JoinedRow::new(left_row.copy(), nulls(right_width)));
            assert(joined_view(results@) =~= before.push(joined(l, null_row(right_width as nat))));
        }
        assert(ls.take(i + 1).drop_last() =~= ls.take(i as int));
        assert(ls.take(i + 1).last() == l);
        assert(joined_view(results@) =~= join_all(ls.take(i + 1), rs, lci as int, rci as int, join_type, right_width as nat));
        i = i + 1;
    }
    assert(ls.take(ls.len() as int) =~= ls);
    results
}

/// The rows decoded from the values of tree entries, for a table.
fn rows_from_entries(entries: &Vec<Entry>, schema: &TableSchema) -> (r: Result<Vec<Row>, DbError>)
    ensures
        r matches Ok(rows) ==> rows@.len() == entries@.len() && forall|i: int| 0 <= i < rows@.len() ==> (#[trigger] rows@[i])@.len() == schema@.columns.len(),
        r matches Ok(rows) ==> rows_decoded(entries_view(entries@), schema@.columns, rows_view(rows@)),
        (forall|k: int| 0 <= k < entries@.len() ==> (#[trigger] crate::row::decode_row(entries@[k].1@, schema@.columns)) is Ok) ==> r is Ok,
        r matches Err(e) ==> exists|k: int|
            0 <= k < entries@.len() && crate::row::decode_row(entries@[k].1@, schema@.columns) == Err::<Seq<ValueV>, DbError>(e)
                && forall|m: int| 0 <= m < k ==> (#[trigger] crate::row::decode_row(entries@[m].1@, schema@.columns)) is Ok,
{
    let mut rows: Vec<Row> = Vec::with_capacity(entries.len());
    let mut i: usize = 0;
    while i < entries.len()
        invariant
            0 <= i <= entries@.len(),
            rows@.len() == i,
            forall|k: int| 0 <= k < rows@.len() ==> (#[trigger] rows@[k])@.len() == schema@.columns.len(),
            forall|k: int| 0 <= k < rows@.len() ==> crate::row::decode_row(entries@[k].1@, schema@.columns) == Ok::<Seq<ValueV>, DbError>(
                (#[trigger] rows@[k])@,
            ),
        decreases entries@.len() - i,
    {
        match Row::deserialize(entries[i].1.as_slice(), schema) {
            Ok(row) => rows.push(row),
            Err(e) => {
                proof {
                    assert forall|m: int| 0 <= m < i implies (#[trigger] crate::row::decode_row(entries@[m].1@, schema@.columns)) is Ok by {
                        assert(crate::row::decode_row(entries@[m].1@, schema@.columns) == Ok::<Seq<ValueV>, DbError>(rows@[m]@));
                    }
                }
                return Err(e);
            },
        }
        i = i + 1;
    }
    proof {
        assert forall|k: int| 0 <= k < entries@.len() implies crate::row::decode_row(entries_view(entries@)[k].1, schema@.columns) == Ok::<
            Seq<ValueV>,
            DbError,
        >(#[trigger] rows_view(rows@)[k]) by {
            assert(rows_view(rows@)[k] == rows@[k]@);
        }
    }
    Ok(rows)
}

/// The table with one more index definition at the end.
pub open spec fn with_index(t: TableSchemaV, name: Seq<char>, columns: Seq<Seq<char>>, unique: bool, root: u64) -> TableSchemaV {
    TableSchemaV {
        indexes: t.indexes.push(crate::schema::index_def::IndexDefV { name, columns, unique, root_page: root }),
        ..t
    }
}

/// The table after an insert: one more row, and the new root and counter.
pub open spec fn after_insert(t: TableSchemaV, root: u64, counter: u64, iroots: Seq<u64>) -> TableSchemaV {
    TableSchemaV {
        root_page: root,
        row_count: if t.row_count < u64::MAX { (t.row_count + 1) as u64 } else { 0 },
        auto_increment: counter,
        indexes: with_index_roots(t.indexes, iroots),
        ..t
    }
}

/// The root pages of indexes.
pub open spec fn index_roots(ixs: Seq<crate::schema::index_def::IndexDefV>) -> Seq<u64> {
    Seq::new(ixs.len(), |j: int| ixs[j].root_page)
}

/// Indexes with new root pages, one per index.
pub open spec fn with_index_roots(ixs: Seq<crate::schema::index_def::IndexDefV>, roots: Seq<u64>) -> Seq<
    crate::schema::index_def::IndexDefV,
> {
    Seq::new(ixs.len(), |j: int| crate::schema::index_def::IndexDefV { root_page: roots[j], ..ixs[j] })
}

impl Database {
    /// Adds a column to a table: fails with `NotFound` when there is no such
    /// table and with `AlreadyExists` when it has a column of that name;
    /// otherwise appends the column and stores the schema.
    pub fn add_column(&mut self, table_name: &str, column: Column) -> (r: Result<(), DbError>)
        requires
            old(self).inv(),
        ensures
            final(self).inv(),
            match table_named(old(self).tables(), table_name@) {
                None => r == Err::<(), DbError>(DbError::NotFound) && *final(self) == *old(self),
                Some(t) => if crate::schema::table_schema::column_position(t.columns, column@.name) is Some {
                    r == Err::<(), DbError>(DbError::AlreadyExists) && *final(self) == *old(self)
                } else {
                    forall|i: int| table_at(old(self).tables(), table_name@, i) ==> final(self).tables()
                        == old(self).tables().update(i, TableSchemaV { columns: t.columns.push(column@), ..t })
                },
            },
            match table_named(old(self).tables(), table_name@) {
                Some(t) => crate::schema::table_schema::column_position(t.columns, column@.name) is None && schema_save_fits(
                    *old(self),
                    TableSchemaV { columns: t.columns.push(column@), ..t },
                ) ==> r is Ok,
                None => true,
            },
    {
        let i = match self.table_index(table_name) {
            Some(i) => i,
            None => return Err(DbError::NotFound),
        };
        assert(table_at(old(self).tables(), table_name@, i as int));
        assert(has_table(old(self).tables(), table_name@));
        if self.schemas[i].get_column(column.name.as_str()).is_some() {
            return Err(DbError::AlreadyExists);
        }
        let ghost before = self.tables();
        let schema = self.schemas[i].copy().column(column);
        let ghost sv = schema@;
        proof {
            assert(sv.name == before[i as int].name);
        }
        let ghost s0 = *self;
        self.put_schema(schema.copy());
        proof {
            if schema_save_fits(s0, sv) {
                lemma_save_fits_kept(s0, *self, sv);
            }
        }
        proof {
            assert forall|j: int| table_at(before, table_name@, j) implies j == i by {}
        }
        self.save_schema(&schema)
    }

    /// Inserts a row: fails with `NotFound` when there is no such table and
    /// with `InvalidInput` when the row does not have one cell per column.
    /// `Null` cells of auto-increment columns are filled from the table's
    /// counter. Fails with `InvalidInput` when a unique index already holds
    /// the row's indexed values. Otherwise stores the row under its primary
    /// key, adds it to every index and counts it, recording the new root of
    /// each tree that split.
    #[verifier::loop_isolation(false)]
    #[verifier::rlimit(80)]
    #[verifier::spinoff_prover]
    pub fn insert(&mut self, table_name: &str, row: Row) -> (r: Result<(), DbError>)
        requires
            old(self).inv(),
        ensures
            final(self).inv(),
            !has_table(old(self).tables(), table_name@) ==> r == Err::<(), DbError>(DbError::NotFound)
                && *final(self) == *old(self),
            match table_named(old(self).tables(), table_name@) {
                Some(t) => row@.len() != t.columns.len() ==> r == Err::<(), DbError>(DbError::InvalidInput)
                    && *final(self) == *old(self),
                None => true,
            },
            match table_named(old(self).tables(), table_name@) {
                Some(t) => row@.len() == t.columns.len() ==> match autofill(t.columns, row@, t.auto_increment, 0) {
                    Err(e) => r == Err::<(), DbError>(e) && *final(self) == *old(self),
                    Ok(fc) => r is Ok ==> forall|i: int|
                        #![trigger table_at(old(self).tables(), table_name@, i)]
                        table_at(old(self).tables(), table_name@, i) ==> final(self).tables() == old(self).tables().update(
                            i,
                            after_insert(
                                old(self).tables()[i],
                                final(self).tables()[i].root_page,
                                fc.1,
                                index_roots(final(self).tables()[i].indexes),
                            ),
                        ),
                },
                None => true,
            },
            r is Err ==> final(self).tables() == old(self).tables() || forall|i: int|
                #![trigger table_at(old(self).tables(), table_name@, i)]
                table_at(old(self).tables(), table_name@, i) ==> final(self).tables() == old(self).tables().update(
                    i,
                    after_insert(
                        old(self).tables()[i],
                        final(self).tables()[i].root_page,
                        final(self).tables()[i].auto_increment,
                        index_roots(final(self).tables()[i].indexes),
                    ),
                ),
            r is Ok && final(self).header_view().total_pages == old(self).header_view().total_pages ==> match table_named(
                old(self).tables(),
                table_name@,
            ) {
                Some(t) => t.indexes.len() == 0 && no_autofill(t.columns, row@) ==> stored_row(
                    *final(self),
                    t,
                    row@,
                    old(self).header_view().total_pages as nat,
                ),
                None => true,
            },
            r is Ok ==> match table_named(old(self).tables(), table_name@) {
                Some(t) => forall|j: int|
                    0 <= j < t.indexes.len() && t.indexes[j].unique ==> #[trigger] unique_clear(*old(self), t, filled_row(t, row@), j),
                None => true,
            },
            r is Ok ==> match table_named(old(self).tables(), table_name@) {
                Some(t) => insert_ready(*old(self), t, row@) && no_autofill(t.columns, row@) && (table_named(
                    final(self).tables(),
                    table_name@,
                ) matches Some(t2) && t2.root_page == t.root_page && index_roots(t2.indexes) == index_roots(t.indexes)) ==> stored_row(
                    *final(self),
                    t,
                    row@,
                    final(self).header_view().total_pages as nat,
                ),
                None => true,
            },
            r is Ok && final(self).header_view().total_pages == old(self).header_view().total_pages ==> match table_named(
                old(self).tables(),
                table_name@,
            ) {
                Some(t) => insert_ready(*old(self), t, row@) && no_autofill(t.columns, row@) ==> forall|j: int|
                    0 <= j < t.indexes.len() ==> #[trigger] index_holds(*final(self), t, row@, j),
                None => true,
            },
            r is Ok ==> match table_named(old(self).tables(), table_name@) {
                Some(t) => insert_ready(*old(self), t, filled_row(t, row@)) && insert_apart(*old(self), t, filled_row(t, row@))
                    ==> (table_named(final(self).tables(), table_name@) matches Some(t2) && stored_row(
                    *final(self),
                    t2,
                    filled_row(t, row@),
                    final(self).header_view().total_pages as nat,
                )),
                None => true,
            },
            match table_named(old(self).tables(), table_name@) {
                Some(t) => row@.len() == t.columns.len() && no_autofill(t.columns, row@) && t.indexes.len() == 0 && (pk_key_of(t, row@) matches Ok(
                    k,
                ) && insert_fits(
                    *old(self),
                    t.root_page,
                    k,
                    crate::row::row_bytes(row@, t.columns.len()),
                    old(self).header_view().total_pages as nat,
                )) ==> r is Ok,
                None => true,
            },
            match table_named(old(self).tables(), table_name@) {
                Some(t) => row@.len() == t.columns.len() && no_autofill(t.columns, row@) && t.indexes.len() == 0 ==> match pk_key_of(
                    t,
                    row@,
                ) {
                    Ok(k) => insert_fits(
                        *old(self),
                        t.root_page,
                        k,
                        crate::row::row_bytes(row@, t.columns.len()),
                        old(self).header_view().total_pages as nat,
                    ) ==> forall|k2: Seq<u8>|
                        k2 != k && (#[trigger] tree_lookup(*old(self), t.root_page, k2, old(self).header_view().total_pages as nat)) is Some
                            ==> tree_lookup(*final(self), t.root_page, k2, old(self).header_view().total_pages as nat) == tree_lookup(
                            *old(self),
                            t.root_page,
                            k2,
                            old(self).header_view().total_pages as nat,
                        ),
                    Err(_) => true,
                },
                None => true,
            },
    {
        let ghost row0 = row@;
        let ghost s_old = *old(self);
        let ti = match self.table_index(table_name) {
            Some(i) => i,
            None => return Err(DbError::NotFound),
        };
        assert(table_at(old(self).tables(), table_name@, ti as int));
        assert(has_table(old(self).tables(), table_name@));
        proof {
            lemma_table_named_at(old(self).tables(), table_name@, ti as int);
        }
        let schema = self.schemas[ti].copy();
        if row.values.len() != schema.columns.len() {
            return Err(DbError::InvalidInput);
        }
        let mut row = row;
        let mut next_counter = schema.auto_increment;
        let ghost counter0 = next_counter;
        let mut modified = false;
        let mut c: usize = 0;
        while c < schema.columns.len()
            invariant
                row@.len() == schema@.columns.len(),
                self.inv(),
                self.tables() == old(self).tables(),
                table_at(old(self).tables(), table_name@, ti as int),
                schema@ == old(self).tables()[ti as int],
                *self == s_old,
                no_autofill(schema@.columns, row0) ==> !modified && row@ == row0,
                0 <= c <= schema@.columns.len(),
                autofill(schema@.columns, row0, counter0, 0) == autofill(schema@.columns, row@, next_counter, c as nat),
                !modified ==> next_counter == counter0,
                counter0 == schema@.auto_increment,
            decreases schema@.columns.len() - c,
        {
            assert(schema@.columns[c as int] == schema.columns@[c as int]@);
            assert(row@[c as int] == row.values@[c as int]@);
            let ghost row_before = row@;
            if schema.columns[c].auto_increment && matches!(row.values[c], Value::Null) {
                assert(row_before[c as int] is Null);
                let next_id = next_counter;
                let generated = match schema.columns[c].data_type {
                    crate::data_type::DataType::UInt32 => {
                        if next_id > 0xFFFF_FFFFu64 {
                            return Err(DbError::InvalidInput);
                        }
                        Value::UInt32(next_id as u32)
                    },
                    crate::data_type::DataType::UInt64 => Value::UInt64(next_id),
                    crate::data_type::DataType::Int32 => {
                        if next_id > 0x7FFF_FFFFu64 {
                            return Err(DbError::InvalidInput);
                        }
                        Value::Int32(next_id as i32)
                    },
                    crate::data_type::DataType::Int64 => Value::Int64(next_id as i64),
                    _ => return Err(DbError::InvalidInput),
                };
                let ghost gv = generated@;
                assert(auto_value(schema@.columns[c as int].data_type, next_id) == Ok::<ValueV, DbError>(gv));
                row.values.set(c, generated);
                assert(row@ =~= row_before.update(c as int, gv));
                if next_id == u64::MAX {
                    return Err(DbError::InvalidInput);
                }
                next_counter = next_id + 1;
                modified = true;
            } else {
                assert(!(schema@.columns[c as int].auto_increment && row_before[c as int] is Null));
            }
            c = c + 1;
        }
        let ghost filled = row@;
        assert(autofill(schema@.columns, row@, next_counter, schema@.columns.len() as nat) == Ok::<(Seq<ValueV>, u64), DbError>(
            (row@, next_counter),
        ));
        assert(filled_row(schema@, row0) == filled);
        let pk_key = match self.build_pk_key(&schema, &row) {
            Ok(k) => k,
            Err(e) => return Err(e),
        };
        let value = row.serialize(&schema);
        let mut k: usize = 0;
        while k < schema.indexes.len()
            invariant
                self.inv(),
                self.tables() == old(self).tables(),
                row@.len() == schema@.columns.len(),
                table_at(old(self).tables(), table_name@, ti as int),
                row@.len() == old(self).tables()[ti as int].columns.len(),
                schema@.indexes.len() == 0 ==> *self == s_old,
                pages_kept(s_old, *self),
                self.header_view() == s_old.header_view(),
                schema@ == s_old.tables()[ti as int],
                row@ == filled,
                0 <= k <= schema@.indexes.len(),
                forall|j: int| 0 <= j < k && schema@.indexes[j].unique ==> #[trigger] unique_clear(s_old, schema@, filled, j),
            decreases schema@.indexes.len() - k,
        {
            let ghost s_k = *self;
            if schema.indexes[k].unique {
                let prefix = match self.build_index_key_prefix(&schema, &schema.indexes[k], &row) {
                    Ok(p) => p,
                    Err(e) => return Err(e),
                };
                let existing = match self.btree_range_scan_prefix(schema.indexes[k].root_page, prefix.as_slice()) {
                    Ok(x) => x,
                    Err(e) => return Err(e),
                };
                proof {
                    lemma_kept_trans(s_old, s_k, *self);
                    assert(schema.indexes@[k as int]@ == schema@.indexes[k as int]);
                    if existing.len() == 0 {
                        lemma_scan_clear(s_old, *self, schema@.indexes[k as int].root_page, prefix@, entries_view(existing@));
                    }
                }
                if existing.len() > 0 {
                    return Err(DbError::InvalidInput);
                }
            }
            k = k + 1;
        }
        let ghost s_b = *self;
        let ghost vbytes = value@;
        let ghost tt = s_old.tables()[ti as int];
        let ghost ir = insert_ready(s_old, tt, filled);
        let new_root = match self.btree_insert(schema.root_page, vstd::slice::slice_to_vec(pk_key.as_slice()), value) {
            Ok(r) => r,
            Err(e) => return Err(e),
        };
        let ghost s_c = *self;
        proof {
            if ir {
                assert(pk_key_of(tt, filled) == Ok::<Seq<u8>, DbError>(pk_key@));
                lemma_stage_start(s_old, s_b, s_c, tt, filled, new_root, pk_key@, vbytes);
            }
        }
        let mut roots: Vec<u64> = Vec::new();
        let mut k: usize = 0;
        while k < schema.indexes.len()
            invariant
                self.inv(),
                self.tables() == old(self).tables(),
                row@.len() == schema@.columns.len(),
                table_at(old(self).tables(), table_name@, ti as int),
                row@.len() == old(self).tables()[ti as int].columns.len(),
                schema@.indexes.len() == 0 ==> *self == s_c,
                roots@.len() == k,
                forall|j: int| 0 <= j < k ==> (#[trigger] roots@[j]) == tt.indexes[j].root_page || self.header_view().total_pages
                    > s_c.header_view().total_pages,
                self.header_view().total_pages >= s_c.header_view().total_pages,
                schema@ == tt,
                0 <= k <= schema@.indexes.len(),
                row@ == filled,
                ir ==> insert_stage(*self, s_old, tt, filled, new_root, pk_key@, vbytes, k as int),
            decreases schema@.indexes.len() - k,
        {
            let ghost s_k = *self;
            let index_key = match self.build_index_key(&schema, &schema.indexes[k], &row) {
                Ok(key) => key,
                Err(e) => return Err(e),
            };
            let ghost ik = index_key@;
            let index_root = match self.btree_insert(schema.indexes[k].root_page, index_key, vstd::slice::slice_to_vec(pk_key.as_slice())) {
                Ok(r) => r,
                Err(e) => return Err(e),
            };
            proof {
                if ir {
                    assert(schema.indexes@[k as int]@ == tt.indexes[k as int]);
                    assert(index_key_of(tt, tt.indexes[k as int], filled) == Ok::<Seq<u8>, DbError>(ik));
                    assert(index_ready(s_k, tt, filled, k as int));
                    assert(index_writes(s_k, tt, filled, k as int) == insert_writes(
                        s_k,
                        tt.indexes[k as int].root_page,
                        ik,
                        s_k.header_view().total_pages as nat,
                    ));
                    lemma_stage_step(s_k, *self, s_old, tt, filled, new_root, pk_key@, vbytes, k as int, index_root);
                }
                assert(schema.indexes@[k as int]@ == tt.indexes[k as int]);
            }
            roots.push(index_root);
            k = k + 1;
        }
        let ghost s_i = *self;
        assert(k == schema@.indexes.len());
        assert(ir ==> insert_stage(s_i, s_old, tt, filled, new_root, pk_key@, vbytes, tt.indexes.len() as int));
        let mut updated = self.schemas[ti].copy();
        let ghost before = self.tables();
        let ghost t = before[ti as int];
        assert(updated@ == t);
        updated.row_count = if updated.row_count < u64::MAX { updated.row_count + 1 } else { 0 };
        let mut idx_changed = false;
        let mut q: usize = 0;
        while q < updated.indexes.len()
            invariant
                0 <= q <= updated.indexes@.len(),
                updated.indexes@.len() == t.indexes.len(),
                roots@.len() == t.indexes.len(),
                forall|j: int| 0 <= j < q ==> (#[trigger] updated.indexes@[j])@ == (crate::schema::index_def::IndexDefV { root_page: roots@[j], ..t.indexes[j] }),
                forall|j: int| q <= j < t.indexes.len() ==> (#[trigger] updated.indexes@[j])@ == t.indexes[j],
                updated@.name == t.name && updated@.columns == t.columns && updated@.primary_key == t.primary_key,
                updated@.root_page == t.root_page && updated@.auto_increment == t.auto_increment,
                updated@.row_count == (if t.row_count < u64::MAX { (t.row_count + 1) as u64 } else { 0 }),
                !idx_changed ==> forall|j: int| 0 <= j < q ==> roots@[j] == t.indexes[j].root_page,
                idx_changed ==> exists|j: int| 0 <= j < q && roots@[j] != t.indexes[j].root_page,
            decreases t.indexes.len() - q,
        {
            let r = roots[q];
            if r != updated.indexes[q].root_page {
                idx_changed = true;
            }
            let mut ix = updated.indexes[q].copy();
            ix.root_page = r;
            updated.indexes.set(q, ix);
            q = q + 1;
        }
        proof {
            assert(updated@.indexes =~= with_index_roots(t.indexes, roots@));
            if !idx_changed {
                assert(with_index_roots(t.indexes, roots@) =~= t.indexes);
                assert(roots@ =~= index_roots(t.indexes));
            } else {
                let j = choose|j: int| 0 <= j < q && roots@[j] != t.indexes[j].root_page;
                assert(roots@[j] != index_roots(t.indexes)[j]);
                assert(roots@ != index_roots(t.indexes));
            }
        }
        if new_root != schema.root_page || modified || idx_changed {
            updated.root_page = new_root;
            if modified {
                updated.auto_increment = next_counter;
            }
            assert(updated@ == after_insert(t, updated.root_page, updated.auto_increment, roots@));
            assert(updated.auto_increment == next_counter);
            assert(autofill(t.columns, row0, t.auto_increment, 0) == Ok::<(Seq<ValueV>, u64), DbError>((filled, next_counter)));
            let ghost uroot = updated.root_page;
            self.put_schema(updated.copy());
            let ghost s_p = *self;
            proof {
                assert forall|j: int| table_at(before, table_name@, j) implies j == ti by {}
            }
            let r = self.save_schema(&updated);
            proof {
                let tt0 = s_old.tables()[ti as int];
                if tt0.indexes.len() == 0 && no_autofill(tt0.columns, row0) && pk_key_of(tt0, row0) is Ok {
                    assert(s_b == s_old);
                    assert(pk_key_of(tt0, row0) == Ok::<Seq<u8>, DbError>(pk_key@));
                    assert(vbytes == crate::row::row_bytes(row0, tt0.columns.len()));
                    assert(!modified);
                    assert(!idx_changed);
                    assert(!insert_fits(s_old, tt0.root_page, pk_key@, vbytes, s_old.header_view().total_pages as nat));
                }
                assert forall|i: int| #[trigger] table_at(old(self).tables(), table_name@, i) implies self.tables() == old(self).tables().update(
                    i,
                    after_insert(old(self).tables()[i], self.tables()[i].root_page, next_counter, index_roots(self.tables()[i].indexes)),
                ) by {
                    assert(i == ti);
                    assert(self.tables() == old(self).tables().update(i, after_insert(old(self).tables()[i], uroot, next_counter, roots@)));
                    assert(index_roots(self.tables()[i].indexes) =~= roots@);
                }
                let tt = s_old.tables()[ti as int];
                if r is Ok && insert_ready(s_old, tt, filled) && insert_apart(s_old, tt, filled) {
                    assert(pk_key_of(tt, filled) == Ok::<Seq<u8>, DbError>(pk_key@));
                    lemma_root_moved(s_old, s_i, s_p, *self, tt, filled, pk_key@, vbytes, new_root);
                    assert(vbytes == crate::row::row_bytes(filled, tt.columns.len()));
                    assert(table_named(self.tables(), table_name@) == Some(updated@));
                    assert(pk_key_of(updated@, filled) == pk_key_of(tt, filled));
                }
            }
            r
        } else {
            assert(updated@ == after_insert(t, updated.root_page, updated.auto_increment, roots@));
            assert(updated.auto_increment == next_counter);
            assert(autofill(t.columns, row0, t.auto_increment, 0) == Ok::<(Seq<ValueV>, u64), DbError>((filled, next_counter)));
            let ghost s_d = *self;
            let ghost uroot = updated.root_page;
            self.put_schema(updated);
            proof {
                assert forall|i: int| #[trigger] table_at(old(self).tables(), table_name@, i) implies self.tables() == old(self).tables().update(
                    i,
                    after_insert(old(self).tables()[i], self.tables()[i].root_page, next_counter, index_roots(self.tables()[i].indexes)),
                ) by {
                    assert(i == ti);
                    assert(self.tables() == old(self).tables().update(i, after_insert(old(self).tables()[i], uroot, next_counter, roots@)));
                    assert(index_roots(self.tables()[i].indexes) =~= roots@);
                }
                assert forall|j: int| table_at(before, table_name@, j) implies j == ti by {}
                let tt = s_old.tables()[ti as int];
                let fuel0 = s_old.header_view().total_pages as nat;
                if tt.indexes.len() == 0 && no_autofill(tt.columns, row0) && pk_key_of(tt, row0) is Ok && insert_fits(
                    s_old,
                    tt.root_page,
                    pk_key_of(tt, row0)->Ok_0,
                    crate::row::row_bytes(row0, tt.columns.len()),
                    fuel0,
                ) {
                    assert(s_b == s_old);
                    assert(s_d == s_c);
                    assert(pk_key_of(tt, row0) == Ok::<Seq<u8>, DbError>(pk_key@));
                    assert(vbytes == crate::row::row_bytes(row0, tt.columns.len()));
                    assert forall|k2: Seq<u8>|
                        k2 != pk_key@ && (#[trigger] tree_lookup(s_old, tt.root_page, k2, fuel0)) is Some implies tree_lookup(
                        *self,
                        tt.root_page,
                        k2,
                        fuel0,
                    ) == tree_lookup(s_old, tt.root_page, k2, fuel0) by {
                        lemma_lookup_kept(s_c, *self, tt.root_page, k2, fuel0);
                    }
                }
                if tt.indexes.len() == 0 && no_autofill(tt.columns, row0) && self.header_view().total_pages == s_old.header_view().total_pages {
                    assert(s_d == s_c);
                    assert(s_b == s_old);
                    let fuel = s_old.header_view().total_pages as nat;
                    assert(tree_holds(s_c, tt.root_page, pk_key@, fuel, Some(vbytes)));
                    lemma_lookup_kept(s_c, *self, tt.root_page, pk_key@, fuel);
                    assert(pk_key_of(tt, row0) == Ok::<Seq<u8>, DbError>(pk_key@));
                    assert(vbytes == crate::row::row_bytes(row0, tt.columns.len()));
                }
                if insert_ready(s_old, tt, filled) {
                    assert(pk_key_of(tt, filled) == Ok::<Seq<u8>, DbError>(pk_key@));
                    assert(vbytes == crate::row::row_bytes(filled, tt.columns.len()));
                    let fuel = s_i.header_view().total_pages as nat;
                    assert(tree_lookup(s_i, tt.root_page, pk_key@, fuel) == Some(Some(vbytes)));
                    lemma_lookup_kept(s_i, *self, tt.root_page, pk_key@, fuel);
                    assert(table_named(self.tables(), table_name@) == Some(updated@));
                    assert(pk_key_of(updated@, filled) == pk_key_of(tt, filled));
                    if self.header_view().total_pages == s_old.header_view().total_pages {
                        assert forall|j: int| 0 <= j < tt.indexes.len() implies #[trigger] index_holds(*self, tt, filled, j) by {
                            assert(index_holds(s_i, tt, filled, j));
                            let ik = index_key_of(tt, tt.indexes[j], filled)->Ok_0;
                            lemma_lookup_kept(s_i, *self, tt.indexes[j].root_page, ik, fuel);
                        }
                    }
                }
            }
            Ok(())
        }
    }

    /// The row stored under the primary key `pk_values`, if any; fails with
    /// `NotFound` when there is no such table.
    pub fn get(&mut self, table_name: &str, pk_values: &[Value]) -> (r: Result<Option<Row>, DbError>)
        requires
            old(self).inv(),
        ensures
            final(self).inv(),
            final(self).tables() == old(self).tables(),
            !has_table(old(self).tables(), table_name@) ==> r == Err::<Option<Row>, DbError>(DbError::NotFound),
            table_named(old(self).tables(), table_name@) matches Some(t) ==> (r matches Ok(Some(row)) ==> row@.len() == t.columns.len()),
            r is Ok ==> pages_kept(*old(self), *final(self)),
            table_named(old(self).tables(), table_name@) matches Some(t) ==> got_row(*final(self), t, key_bytes(pk_values@), old(self).header_view().total_pages as nat, match r {
                Ok(Some(row)) => Ok(Some(row@)),
                Ok(None) => Ok(None),
                Err(e) => Err(e),
            }),
            table_named(old(self).tables(), table_name@) matches Some(t) && lookup_readable(
                *old(self),
                t.root_page,
                t.columns,
                key_bytes(pk_values@),
                old(self).header_view().total_pages as nat,
            ) ==> r is Ok,
    {
        let ti = match self.table_index(table_name) {
            Some(i) => i,
            None => return Err(DbError::NotFound),
        };
        assert(table_at(old(self).tables(), table_name@, ti as int));
        assert(has_table(old(self).tables(), table_name@));
        proof {
            lemma_table_named_at(old(self).tables(), table_name@, ti as int);
        }
        let schema = self.schemas[ti].copy();
        let key = self.serialize_pk(pk_values);
        assert(key@ == key_bytes(pk_values@));
        let ghost s0 = *self;
        let ghost fuel = old(self).header_view().total_pages as nat;
        let ghost good = lookup_readable(s0, schema@.root_page, schema@.columns, key@, fuel);
        proof {
            if good {
                lemma_descent_readable_kept(s0, s0, schema@.root_page, key@, fuel);
            }
        }
        match self.btree_search(schema.root_page, key.as_slice()) {
            Ok(Some(value)) => {
                proof {
                    if good {
                        lemma_descent_readable_kept(s0, *self, schema@.root_page, key@, fuel);
                        assert(tree_lookup(s0, schema@.root_page, key@, fuel) == Some(Some(value@)));
                    }
                }
                match Row::deserialize(value.as_slice(), &schema) {
                    Ok(row) => {
                        assert(tree_holds(*self, schema@.root_page, key@, old(self).header_view().total_pages as nat, Some(value@)));
                        Ok(Some(row))
                    },
                    Err(e) => Err(e),
                }
            },
            Ok(None) => Ok(None),
            Err(e) => Err(e),
        }
    }

    /// Deletes the row stored under the primary key `pk_values` and its index
    /// entries; returns whether it was there. Fails with `NotFound` when there
    /// is no such table.
    #[verifier::loop_isolation(false)]
    pub fn delete(&mut self, table_name: &str, pk_values: &[Value]) -> (r: Result<bool, DbError>)
        requires
            old(self).inv(),
        ensures
            final(self).inv(),
            !has_table(old(self).tables(), table_name@) ==> r == Err::<bool, DbError>(DbError::NotFound)
                && *final(self) == *old(self),
            r is Err ==> final(self).tables() == old(self).tables(),
            r == Ok::<bool, DbError>(false) ==> final(self).tables() == old(self).tables(),
            r == Ok::<bool, DbError>(true) ==> forall|i: int| table_at(old(self).tables(), table_name@, i) ==> final(self).tables()
                == old(self).tables().update(i, TableSchemaV {
                    row_count: if old(self).tables()[i].row_count > 0 { (old(self).tables()[i].row_count - 1) as u64 } else { 0 },
                    ..old(self).tables()[i]
                }),
            final(self).header_view().total_pages == old(self).header_view().total_pages,
            r is Ok ==> match table_named(old(self).tables(), table_name@) {
                Some(t) => descent_leaf_distinct(
                    *old(self),
                    t.root_page,
                    key_bytes(pk_values@),
                    old(self).header_view().total_pages as nat,
                ) && delete_apart(*old(self), t, key_bytes(pk_values@)) ==> tree_holds(
                    *final(self),
                    t.root_page,
                    key_bytes(pk_values@),
                    old(self).header_view().total_pages as nat,
                    None,
                ),
                None => true,
            },
            r is Ok ==> match table_named(old(self).tables(), table_name@) {
                Some(t) => descent_leaf_distinct(
                    *old(self),
                    t.root_page,
                    key_bytes(pk_values@),
                    old(self).header_view().total_pages as nat,
                ) && delete_apart(*old(self), t, key_bytes(pk_values@)) ==> forall|b: Seq<u8>|
                    tree_lookup(*old(self), t.root_page, key_bytes(pk_values@), old(self).header_view().total_pages as nat) == Some(
                        Some(b),
                    ) ==> (#[trigger] crate::row::decode_row(b, t.columns) matches Ok(row) ==> forall|j: int|
                        0 <= j < t.indexes.len() ==> #[trigger] index_cleared(
                            *final(self),
                            t,
                            row,
                            j,
                            old(self).header_view().total_pages as nat,
                        )),
                None => true,
            },
            r matches Ok(b) ==> match table_named(old(self).tables(), table_name@) {
                Some(t) => descent_leaf_distinct(
                    *old(self),
                    t.root_page,
                    key_bytes(pk_values@),
                    old(self).header_view().total_pages as nat,
                ) && delete_apart(*old(self), t, key_bytes(pk_values@)) ==> b == leaf_has_key(
                    *old(self),
                    t.root_page,
                    key_bytes(pk_values@),
                    old(self).header_view().total_pages as nat,
                ),
                None => true,
            },
            match table_named(old(self).tables(), table_name@) {
                Some(t) => t.indexes.len() == 0 && descent_pages(
                    *old(self),
                    t.root_page,
                    key_bytes(pk_values@),
                    old(self).header_view().total_pages as nat,
                ) is Some && pages_readable(
                    *old(self),
                    descent_pages(*old(self), t.root_page, key_bytes(pk_values@), old(self).header_view().total_pages as nat).unwrap(),
                ) ==> r is Ok,
                None => true,
            },
            r is Ok ==> match table_named(old(self).tables(), table_name@) {
                Some(t) => t.indexes.len() == 0 && descent_leaf_sorted(
                    *old(self),
                    t.root_page,
                    key_bytes(pk_values@),
                    old(self).header_view().total_pages as nat,
                ) ==> forall|k2: Seq<u8>|
                    k2 != key_bytes(pk_values@) && (#[trigger] tree_lookup(
                        *old(self),
                        t.root_page,
                        k2,
                        old(self).header_view().total_pages as nat,
                    )) is Some ==> tree_lookup(*final(self), t.root_page, k2, old(self).header_view().total_pages as nat) == tree_lookup(
                        *old(self),
                        t.root_page,
                        k2,
                        old(self).header_view().total_pages as nat,
                    ),
                None => true,
            },
    {
        let ghost s_old = *old(self);
        let ghost fuel = s_old.header_view().total_pages as nat;
        let ti = match self.table_index(table_name) {
            Some(i) => i,
            None => return Err(DbError::NotFound),
        };
        assert(table_at(old(self).tables(), table_name@, ti as int));
        assert(has_table(old(self).tables(), table_name@));
        proof {
            lemma_table_named_at(old(self).tables(), table_name@, ti as int);
        }
        let schema = self.schemas[ti].copy();
        let pk_key = self.serialize_pk(pk_values);
        assert(pk_key@ == key_bytes(pk_values@));
        let ghost t = s_old.tables()[ti as int];
        let ghost good = descent_leaf_distinct(s_old, t.root_page, pk_key@, fuel) && delete_apart(s_old, t, pk_key@);
        let ghost mut touched: Set<u64> = Set::empty();
        let ghost mut grow: Option<Seq<ValueV>> = None;
        proof {
            if good {
                lemma_descent_leaf_pages(s_old, t.root_page, pk_key@, fuel);
                lemma_descent_agrees(s_old, s_old, t.root_page, pk_key@, fuel, fuel);
            }
        }
        if schema.indexes.len() > 0 {
            match self.btree_search(schema.root_page, pk_key.as_slice()) {
                Ok(Some(row_data)) => {
                    let row = match Row::deserialize(row_data.as_slice(), &schema) {
                        Ok(r) => r,
                        Err(e) => return Err(e),
                    };
                    proof {
                        if good {
                            let s_a = *self;
                            lemma_lookup_kept(s_old, s_a, t.root_page, pk_key@, fuel);
                            lemma_descent_kept(s_old, s_a, t.root_page, pk_key@, fuel);
                            lemma_descent_kept(s_a, s_a, t.root_page, pk_key@, fuel);
                            assert(tree_lookup(s_old, t.root_page, pk_key@, fuel) == Some(Some(row_data@)));
                            assert(crate::row::decode_row(row_data@, t.columns) == Ok::<Seq<ValueV>, DbError>(row@));
                            assert forall|m: u64| s_old.stored(m) is Some && !touched.contains(m) implies #[trigger] s_a.stored(m)
                                == s_old.stored(m) by {}
                        }
                    }
                    let mut k: usize = 0;
                    while k < schema.indexes.len()
                        invariant
                            self.inv(),
                            self.tables() == old(self).tables(),
                            self.header_view() == old(self).header_view(),
                            row@.len() == schema@.columns.len(),
                            0 <= k <= schema@.indexes.len(),
                            good ==> forall|j: int| 0 <= j < t.indexes.len() ==> #[trigger] index_leaf_apart(s_old, t, pk_key@, row@, j),
                            good ==> kept_outside_set(s_old, *self, touched),
                            good ==> forall|m: u64| #[trigger] touched.contains(m) ==> exists|j: int|
                                0 <= j < k && index_key_of(t, t.indexes[j], row@) is Ok && m == #[trigger] index_leaf(s_old, t, row@, j),
                            good ==> forall|j: int| 0 <= j < k ==> #[trigger] index_done(s_old, *self, t, row@, j),
                        decreases schema@.indexes.len() - k,
                    {
                        let index_key = match self.build_index_key(&schema, &schema.indexes[k], &row) {
                            Ok(key) => key,
                            Err(e) => return Err(e),
                        };
                        let ghost s_k = *self;
                        proof {
                            assert(schema.indexes[k as int]@ == t.indexes[k as int]);
                            if good {
                                lemma_index_step(s_old, s_k, t, pk_key@, row@, k as int, touched);
                            }
                        }
                        match self.btree_delete(schema.indexes[k].root_page, index_key.as_slice()) {
                            Ok(_) => {},
                            Err(e) => return Err(e),
                        }
                        proof {
                            if good {
                                let lf = index_leaf(s_old, t, row@, k as int);
                                let s_n = *self;
                                assert(kept_but(s_k, s_n, lf));
                                index_step_done(s_old, s_k, s_n, t, pk_key@, row@, k as int);
                                let t2 = touched.insert(lf);
                                assert forall|m: u64| s_old.stored(m) is Some && !t2.contains(m) implies #[trigger] s_n.stored(m)
                                    == s_old.stored(m) by {
                                    assert(s_k.stored(m) == s_old.stored(m));
                                }
                                assert forall|m: u64| #[trigger] t2.contains(m) implies exists|j: int|
                                    0 <= j < k + 1 && index_key_of(t, t.indexes[j], row@) is Ok && m == #[trigger] index_leaf(s_old, t, row@, j) by {
                                    if m == lf {
                                        assert(index_key_of(t, t.indexes[k as int], row@) is Ok && m == index_leaf(s_old, t, row@, k as int));
                                    } else {
                                        assert(touched.contains(m));
                                    }
                                }
                                touched = t2;
                            }
                        }
                        k = k + 1;
                    }
                    proof {
                        if good {
                            lemma_table_outside(s_old, *self, t, pk_key@, row@, touched);
                        }
                        grow = Some(row@);
                    }
                },
                Ok(None) => {
                    proof {
                        if good {
                            let s_a = *self;
                            lemma_lookup_kept(s_old, s_a, t.root_page, pk_key@, fuel);
                            lemma_descent_kept(s_old, s_a, t.root_page, pk_key@, fuel);
                            lemma_descent_kept(s_a, s_a, t.root_page, pk_key@, fuel);
                            assert(tree_lookup(s_old, t.root_page, pk_key@, fuel) == Some(None::<Seq<u8>>));
                            lemma_descent_stored(s_old, t.root_page, pk_key@, fuel);
                            let ps = descent_pages(s_old, t.root_page, pk_key@, fuel).unwrap();
                            assert forall|i: int| 0 <= i < ps.len() implies self.stored(#[trigger] ps[i]) == s_old.stored(ps[i]) by {
                                assert(s_old.stored(ps[i]) is Some);
                            }
                        }
                    }
                },
                Err(e) => return Err(e),
            }
        }
        let ghost s_b = *self;
        proof {
            if t.indexes.len() == 0 {
                assert(s_b == s_old);
            }
            if good {
                lemma_distinct_kept(s_old, s_b, t.root_page, pk_key@, fuel);
                lemma_leaf_has_key_agrees(s_old, s_b, t.root_page, pk_key@, fuel);
            }
        }
        let deleted = match self.btree_delete(schema.root_page, pk_key.as_slice()) {
            Ok(d) => d,
            Err(e) => return Err(e),
        };
        let ghost s_c = *self;
        if deleted {
            let mut updated = self.schemas[ti].copy();
            let ghost before = self.tables();
            updated.row_count = if updated.row_count > 0 { updated.row_count - 1 } else { 0 };
            self.put_schema(updated);
            proof {
                assert forall|j: int| table_at(before, table_name@, j) implies j == ti by {}
            }
        }
        proof {
            if t.indexes.len() == 0 && descent_leaf_sorted(s_old, t.root_page, pk_key@, fuel) {
                assert(pages_kept(s_c, *self));
                assert forall|k2: Seq<u8>|
                    k2 != pk_key@ && (#[trigger] tree_lookup(s_old, t.root_page, k2, fuel)) is Some implies tree_lookup(
                    *self,
                    t.root_page,
                    k2,
                    fuel,
                ) == tree_lookup(s_old, t.root_page, k2, fuel) by {
                    lemma_lookup_kept(s_c, *self, t.root_page, k2, fuel);
                }
            }
            if good {
                assert(tree_holds(s_c, t.root_page, pk_key@, fuel, None));
                assert(pages_kept(s_c, *self));
                lemma_lookup_kept(s_c, *self, t.root_page, pk_key@, fuel);
                if t.indexes.len() > 0 {
                    match grow {
                        Some(rw) => {
                        let tps = descent_pages(s_old, t.root_page, pk_key@, fuel).unwrap();
                        assert forall|j: int| 0 <= j < t.indexes.len() implies #[trigger] index_cleared(*self, t, rw, j, fuel) by {
                            assert(index_done(s_old, s_b, t, rw, j));
                            assert(index_leaf_apart(s_old, t, pk_key@, rw, j));
                            lemma_index_done_kept(s_old, s_b, s_c, t, rw, j, tps.last());
                            let ik = index_key_of(t, t.indexes[j], rw).unwrap();
                            lemma_lookup_kept(s_c, *self, t.indexes[j].root_page, ik, fuel);
                        }
                        assert forall|b: Seq<u8>|
                            tree_lookup(s_old, t.root_page, pk_key@, fuel) == Some(Some(b)) implies (#[trigger] crate::row::decode_row(
                            b,
                            t.columns,
                        ) matches Ok(row) ==> forall|j: int| 0 <= j < t.indexes.len() ==> #[trigger] index_cleared(*self, t, row, j, fuel)) by {
                            assert(crate::row::decode_row(b, t.columns) == Ok::<Seq<ValueV>, DbError>(rw));
                        }
                        },
                        None => {
                            assert(tree_lookup(s_old, t.root_page, pk_key@, fuel) == Some(None::<Seq<u8>>));
                        },
                    }
                }
            }
        }
        Ok(deleted)
    }

    /// All rows of a table, in primary-key order; fails with `NotFound` when
    /// there is no such table.
    pub fn scan(&mut self, table_name: &str) -> (r: Result<Vec<Row>, DbError>)
        requires
            old(self).inv(),
        ensures
            final(self).inv(),
            final(self).tables() == old(self).tables(),
            !has_table(old(self).tables(), table_name@) ==> (r matches Err(e) && e == DbError::NotFound),
            table_named(old(self).tables(), table_name@) matches Some(t) ==> (r matches Ok(rows) ==> forall|i: int|
                0 <= i < rows@.len() ==> (#[trigger] rows@[i])@.len() == t.columns.len()),
            r is Ok ==> pages_kept(*old(self), *final(self)),
            table_named(old(self).tables(), table_name@) matches Some(t) ==> (r matches Ok(rows) ==> scanned_rows(
                *final(self),
                t.root_page,
                None,
                ScanMode::Range { lo: None, hi: None },
                old(self).header_view().total_pages as nat,
                t.columns,
                rows_view(rows@),
            )),
            table_named(old(self).tables(), table_name@) matches Some(t) ==> (r matches Ok(rows) ==> table_rows(*old(self), t, rows_view(rows@))),
            final(self).header_view() == old(self).header_view(),
            table_named(old(self).tables(), table_name@) matches Some(t) && scan_decodes(
                *old(self),
                t,
                old(self).header_view().total_pages as nat,
            ) ==> r is Ok,
            final(self).file_page_count() == old(self).file_page_count(),
            cache_writable(old(self).cache_view()) && r is Ok ==> cache_writable(final(self).cache_view()),
    {
        let ti = match self.table_index(table_name) {
            Some(i) => i,
            None => return Err(DbError::NotFound),
        };
        assert(table_at(old(self).tables(), table_name@, ti as int));
        assert(has_table(old(self).tables(), table_name@));
        proof {
            lemma_table_named_at(old(self).tables(), table_name@, ti as int);
        }
        let schema = self.schemas[ti].copy();
        let ghost s0 = *self;
        let ghost fuel = old(self).header_view().total_pages as nat;
        let entries = match self.scan_btree(schema.root_page) {
            Ok(e) => e,
            Err(e) => return Err(e),
        };
        proof {
            let t = schema@;
            if scan_decodes(s0, t, fuel) {
                let mode = ScanMode::Range { lo: None, hi: None };
                lemma_collect_kept(s0, *self, t.root_page, None, mode, fuel);
                lemma_leftmost_pages_kept(s0, *self, t.root_page, fuel);
                assert(pages_kept(*self, *self));
                let es = tree_collect(s0, t.root_page, None, mode, fuel).unwrap();
                assert(entries_view(entries@) == es);
                assert forall|k: int| 0 <= k < entries@.len() implies (#[trigger] crate::row::decode_row(entries@[k].1@, schema@.columns)) is Ok by {
                    assert(entries_view(entries@)[k].1 == entries@[k].1@);
                    assert(crate::row::decode_row(es[k].1, t.columns) is Ok);
                }
            }
        }
        let r = rows_from_entries(&entries, &schema);
        proof {
            if r is Ok {
                assert(pages_kept(*old(self), *self));
            }
        }
        r
    }

    /// The rows whose primary keys lie in `[start, end)`, compared cell by
    /// cell in the key order of the values (an absent bound does not limit),
    /// in the order a scan gives them. Fails with `NotFound` when there is no
    /// such table.
    pub fn range_scan(&mut self, table_name: &str, start: Option<&[Value]>, end: Option<&[Value]>) -> (r: Result<Vec<Row>, DbError>)
        requires
            old(self).inv(),
        ensures
            final(self).inv(),
            final(self).tables() == old(self).tables(),
            !has_table(old(self).tables(), table_name@) ==> (r matches Err(e) && e == DbError::NotFound),
            r is Ok ==> pages_kept(*old(self), *final(self)),
            table_named(old(self).tables(), table_name@) matches Some(t) ==> (r matches Ok(rows) ==> exists|all: Seq<Seq<ValueV>>|
                #[trigger] table_rows(*old(self), t, all) && rows_view(rows@) == pk_range_rows(t, all, opt_cells(start), opt_cells(end))),
            table_named(old(self).tables(), table_name@) matches Some(t) && scan_decodes(
                *old(self),
                t,
                old(self).header_view().total_pages as nat,
            ) ==> r is Ok,
    {
        let ti = match self.table_index(table_name) {
            Some(i) => i,
            None => return Err(DbError::NotFound),
        };
        assert(table_at(old(self).tables(), table_name@, ti as int));
        assert(has_table(old(self).tables(), table_name@));
        proof {
            lemma_table_named_at(old(self).tables(), table_name@, ti as int);
        }
        let schema = self.schemas[ti].copy();
        let all = match self.scan(table_name) {
            Ok(rows) => rows,
            Err(e) => return Err(e),
        };
        let ghost t = schema@;
        let ghost av = rows_view(all@);
        let ghost sv = opt_cells(start);
        let ghost ev = opt_cells(end);
        assert(table_rows(*old(self), t, av));
        let positions = match crate::query_builder::column_indices(&schema, &schema.primary_key) {
            Ok(p) => p,
            Err(_) => {
                let none: Vec<Row> = Vec::new();
                assert(rows_view(none@) =~= Seq::<Seq<ValueV>>::empty());
                return Ok(none);
            },
        };
        let ghost ps = column_positions(t.columns, t.primary_key).unwrap();
        let mut out: Vec<Row> = Vec::new();
        let mut i: usize = 0;
        assert(av.take(0) =~= Seq::<Seq<ValueV>>::empty());
        assert(rows_view(out@) =~= Seq::<Seq<ValueV>>::empty());
        while i < all.len()
            invariant
                0 <= i <= all@.len(),
                av == rows_view(all@),
                positions@.len() == ps.len(),
                forall|k: int| 0 <= k < ps.len() ==> (#[trigger] positions@[k]) as int == ps[k],
                forall|k: int| 0 <= k < positions@.len() ==> (#[trigger] positions@[k]) < t.columns.len(),
                forall|j: int| 0 <= j < all@.len() ==> (#[trigger] all@[j])@.len() == t.columns.len(),
                rows_view(out@) == range_rows(av.take(i as int), ps, sv, ev),
                sv == opt_cells(start),
                ev == opt_cells(end),
            decreases all@.len() - i,
        {
            let row = &all[i];
            let mut pk: Vec<Value> = Vec::new();
            let mut k: usize = 0;
            assert(crate::row::values_view(pk@) =~= cells_at(row@, ps).take(0));
            while k < positions.len()
                invariant
                    0 <= k <= positions@.len(),
                    positions@.len() == ps.len(),
                    forall|q: int| 0 <= q < ps.len() ==> (#[trigger] positions@[q]) as int == ps[q],
                    forall|q: int| 0 <= q < positions@.len() ==> (#[trigger] positions@[q]) < row@.len(),
                    row@.len() == row.values@.len(),
                    crate::row::values_view(pk@) == cells_at(row@, ps).take(k as int),
                decreases positions@.len() - k,
            {
                let p = positions[k];
                let ghost before = pk@;
                let c = row.values[p].copy();
                pk.push(c);
                assert(row@[p as int] == row.values@[p as int]@);
                assert(ps[k as int] == p as int);
                assert(cells_at(row@, ps)[k as int] == row@[p as int]);
                assert(pk@ == before.push(c));
                assert(crate::row::values_view(pk@) =~= crate::row::values_view(before).push(c@));
                assert(cells_at(row@, ps).take(k + 1) =~= cells_at(row@, ps).take(k as int).push(cells_at(row@, ps)[k as int]));
                k = k + 1;
            }
            assert(cells_at(row@, ps).take(ps.len() as int) =~= cells_at(row@, ps));
            let keep = cells_in_range(&pk, start, end);
            let ghost before = rows_view(out@);
            assert(av.take(i + 1).drop_last() =~= av.take(i as int));
            assert(av.take(i + 1).last() == row@);
            if keep {
                out.push(row.copy());
                assert(rows_view(out@) =~= before.push(row@));
            }
            i = i + 1;
        }
        assert(av.take(all@.len() as int) =~= av);
        Ok(out)
    }

    /// Creates a secondary index over `columns`: fails with `NotFound` when
    /// there is no such table or a column does not exist, and with
    /// `AlreadyExists` when the table has an index of that name. Fills the
    /// index from the existing rows (failing with `InvalidInput` on a
    /// duplicate of a unique index), then adds it, with the root its tree
    /// ends with, to the schema.
    #[verifier::loop_isolation(false)]
    pub fn create_index(&mut self, table_name: &str, index_name: &str, columns: &[&str], unique: bool) -> (r: Result<(), DbError>)
        requires
            old(self).inv(),
        ensures
            final(self).inv(),
            !has_table(old(self).tables(), table_name@) ==> r == Err::<(), DbError>(DbError::NotFound)
                && *final(self) == *old(self),
            match table_named(old(self).tables(), table_name@) {
                Some(t) => {
                    &&& crate::schema::table_schema::index_position(t.indexes, index_name@) is Some ==> r == Err::<(), DbError>(
                        DbError::AlreadyExists,
                    ) && *final(self) == *old(self)
                    &&& (crate::schema::table_schema::index_position(t.indexes, index_name@) is None && exists|c: int|
                        0 <= c < columns@.len() && crate::schema::table_schema::column_position(t.columns, #[trigger] columns@[c]@) is None)
                        ==> r == Err::<(), DbError>(DbError::NotFound) && *final(self) == *old(self)
                },
                None => true,
            },
            r is Ok ==> forall|i: int| table_at(old(self).tables(), table_name@, i) ==> final(self).tables() == old(self).tables().update(
                i,
                with_index(
                    old(self).tables()[i],
                    index_name@,
                    crate::codec::str_slices_view(columns@),
                    unique,
                    final(self).tables()[i].indexes.last().root_page,
                ),
            ),
            r is Err ==> final(self).tables() == old(self).tables() || forall|i: int|
                table_at(old(self).tables(), table_name@, i) ==> final(self).tables() == old(self).tables().update(
                    i,
                    with_index(
                        old(self).tables()[i],
                        index_name@,
                        crate::codec::str_slices_view(columns@),
                        unique,
                        final(self).tables()[i].indexes.last().root_page,
                    ),
                ),
    {
        let ti = match self.table_index(table_name) {
            Some(i) => i,
            None => return Err(DbError::NotFound),
        };
        assert(table_at(old(self).tables(), table_name@, ti as int));
        assert(has_table(old(self).tables(), table_name@));
        let schema = self.schemas[ti].copy();
        if schema.get_index(index_name).is_some() {
            return Err(DbError::AlreadyExists);
        }
        let mut c: usize = 0;
        while c < columns.len()
            invariant
                self.inv(),
                *self == *old(self),
                table_at(old(self).tables(), table_name@, ti as int),
                schema@ == old(self).tables()[ti as int],
                0 <= c <= columns@.len(),
                forall|j: int| 0 <= j < c ==> crate::schema::table_schema::column_position(schema@.columns, #[trigger] columns@[j]@) is Some,
            decreases columns@.len() - c,
        {
            if schema.get_column(columns[c]).is_none() {
                return Err(DbError::NotFound);
            }
            c = c + 1;
        }
        let root_page = match self.allocate_page() {
            Ok(p) => p,
            Err(e) => return Err(e),
        };
        let leaf = LeafNode::new();
        match self.write_leaf(root_page, &leaf) {
            Ok(()) => {},
            Err(e) => return Err(e),
        }
        let mut names: Vec<String> = Vec::new();
        let mut c: usize = 0;
        while c < columns.len()
            invariant
                0 <= c <= columns@.len(),
                crate::codec::strings_view(names@) == crate::codec::str_slices_view(columns@).take(c as int),
                self.inv(),
                table_at(old(self).tables(), table_name@, ti as int),
                self.tables() == old(self).tables(),
            decreases columns@.len() - c,
        {
            let ghost before = names@;
            names.push(columns[c].to_owned());
            assert(crate::codec::strings_view(before).len() == before.len());
            assert forall|k: int| 0 <= k < c implies crate::codec::strings_view(names@)[k] == crate::codec::str_slices_view(columns@)[k] by {
                assert(crate::codec::strings_view(before)[k] == crate::codec::str_slices_view(columns@).take(c as int)[k]);
            }
            assert(crate::codec::strings_view(names@) =~= crate::codec::str_slices_view(columns@).take(c + 1));
            c = c + 1;
        }
        let mut idx = IndexDef::new(index_name, names, unique);
        idx.root_page = root_page;
        let entries = match self.scan_btree(schema.root_page) {
            Ok(e) => e,
            Err(e) => return Err(e),
        };
        assert(crate::codec::str_slices_view(columns@).take(columns@.len() as int) =~= crate::codec::str_slices_view(columns@));
        let mut i: usize = 0;
        while i < entries.len()
            invariant
                self.inv(),
                self.tables() == old(self).tables(),
                table_at(old(self).tables(), table_name@, ti as int),
                idx@.columns == crate::codec::str_slices_view(columns@),
                idx@.name == index_name@,
                idx@.unique == unique,
            decreases entries@.len() - i,
        {
            let row = match Row::deserialize(entries[i].1.as_slice(), &schema) {
                Ok(r) => r,
                Err(e) => return Err(e),
            };
            let pk_key = match self.build_pk_key(&schema, &row) {
                Ok(k) => k,
                Err(e) => return Err(e),
            };
            let index_key = match self.build_index_key(&schema, &idx, &row) {
                Ok(k) => k,
                Err(e) => return Err(e),
            };
            if unique {
                let prefix = match self.build_index_key_prefix(&schema, &idx, &row) {
                    Ok(p) => p,
                    Err(e) => return Err(e),
                };
                let existing = match self.btree_range_scan_prefix(idx.root_page, prefix.as_slice()) {
                    Ok(x) => x,
                    Err(e) => return Err(e),
                };
                if existing.len() > 0 {
                    return Err(DbError::InvalidInput);
                }
            }
            match self.btree_insert(idx.root_page, index_key, pk_key) {
                Ok(r) => idx.root_page = r,
                Err(e) => return Err(e),
            }
            i = i + 1;
        }
        let ghost before = self.tables();
        let ghost iv = idx@;
        let ghost root = idx.root_page;
        let updated = self.schemas[ti].copy().index(idx);
        assert(updated@ == with_index(before[ti as int], index_name@, crate::codec::str_slices_view(columns@), unique, root));
        assert(updated@.name == table_name@);
        assert(table_at(before, updated@.name, ti as int));
        self.put_schema(updated.copy());
        assert(self.tables() == before.update(ti as int, updated@));
        proof {
            assert forall|j: int| table_at(before, table_name@, j) implies j == ti by {}
        }
        let r = self.save_schema(&updated);
        proof {
            assert(self.tables()[ti as int] == updated@);
            assert(updated@.indexes.last().root_page == root);
        }
        r
    }

    /// Looks up the rows whose indexed cells equal `values`, through the
    /// index: fails with `NotFound` when there is no such table or index.
    pub fn find_by_index(&mut self, table_name: &str, index_name: &str, values: &[Value]) -> (r: Result<Vec<Row>, DbError>)
        requires
            old(self).inv(),
        ensures
            final(self).inv(),
            final(self).tables() == old(self).tables(),
            !has_table(old(self).tables(), table_name@) ==> (r matches Err(e) && e == DbError::NotFound),
            match table_named(old(self).tables(), table_name@) {
                Some(t) => crate::schema::table_schema::index_position(t.indexes, index_name@) is None
                    ==> (r matches Err(e) && e == DbError::NotFound),
                None => true,
            },
            table_named(old(self).tables(), table_name@) matches Some(t) ==> (r matches Ok(rows) ==> forall|i: int|
                0 <= i < rows@.len() ==> (#[trigger] rows@[i])@.len() == t.columns.len()),
            r is Ok ==> pages_kept(*old(self), *final(self)),
            table_named(old(self).tables(), table_name@) matches Some(t) ==> (r matches Ok(rows) ==> index_rows(
                *final(self),
                t,
                index_name@,
                Some(key_bytes(values@)),
                ScanMode::Prefix { p: key_bytes(values@) },
                old(self).header_view().total_pages as nat,
                rows_view(rows@),
            )),
            table_named(old(self).tables(), table_name@) matches Some(t) ==> (r matches Ok(rows) ==> index_lookup_rows(
                *old(self),
                t,
                index_name@,
                key_bytes(values@),
                rows_view(rows@),
            )),
            final(self).header_view() == old(self).header_view(),
            match table_named(old(self).tables(), table_name@) {
                Some(t) => match crate::schema::table_schema::index_position(t.indexes, index_name@) {
                    Some(k) => index_lookup_readable(*old(self), t, k, key_bytes(values@), old(self).header_view().total_pages as nat)
                        ==> r is Ok,
                    None => true,
                },
                None => true,
            },
            final(self).file_page_count() == old(self).file_page_count(),
            cache_writable(old(self).cache_view()) && r is Ok ==> cache_writable(final(self).cache_view()),
    {
        let ti = match self.table_index(table_name) {
            Some(i) => i,
            None => return Err(DbError::NotFound),
        };
        assert(table_at(old(self).tables(), table_name@, ti as int));
        assert(has_table(old(self).tables(), table_name@));
        proof {
            lemma_table_named_at(old(self).tables(), table_name@, ti as int);
        }
        let schema = self.schemas[ti].copy();
        let index_root = match schema.get_index(index_name) {
            Some(idx) => idx.root_page,
            None => return Err(DbError::NotFound),
        };
        let prefix = serialize_values(values);
        assert(prefix@ == key_bytes(values@));
        let index_entries = match self.btree_range_scan_prefix(index_root, prefix.as_slice()) {
            Ok(x) => x,
            Err(e) => return Err(e),
        };
        let ghost s1 = *self;
        proof {
            let fuel = old(self).header_view().total_pages as nat;
            let t = schema@;
            if crate::schema::table_schema::index_position(t.indexes, index_name@) is Some {
                let k = crate::schema::table_schema::index_position(t.indexes, index_name@).unwrap();
                if index_lookup_readable(*old(self), t, k, prefix@, fuel) {
                    let mode = ScanMode::Prefix { p: prefix@ };
                    assert(index_root == t.indexes[k].root_page);
                    lemma_descent_readable_kept(*old(self), s1, index_root, prefix@, fuel);
                    lemma_collect_kept(*old(self), s1, index_root, Some(prefix@), mode, fuel);
                    let es = tree_collect(*old(self), index_root, Some(prefix@), mode, fuel).unwrap();
                    assert(entries_view(index_entries@) == es);
                    lemma_lookups_readable_kept(*old(self), s1, t.root_page, t.columns, es, fuel);
                }
            }
        }
        let r = self.fetch_rows(&schema, &index_entries);
        proof {
            if r is Ok {
                let fuel = old(self).header_view().total_pages as nat;
                lemma_collect_kept(s1, *self, index_root, Some(prefix@), ScanMode::Prefix { p: prefix@ }, fuel);
                assert(pages_kept(*old(self), *self));
            }
        }
        r
    }

    /// The rows whose primary keys are the values of `index_entries`, in that
    /// order, skipping keys that are not in the table.
    fn fetch_rows(&mut self, schema: &TableSchema, index_entries: &Vec<Entry>) -> (r: Result<Vec<Row>, DbError>)
        requires
            old(self).inv(),
        ensures
            final(self).inv(),
            final(self).tables() == old(self).tables(),
            final(self).header_view() == old(self).header_view(),
            r matches Ok(rows) ==> forall|i: int| 0 <= i < rows@.len() ==> (#[trigger] rows@[i])@.len() == schema@.columns.len(),
            r is Ok ==> pages_kept(*old(self), *final(self)),
            r matches Ok(rows) ==> found_rows(
                *final(self),
                schema@.root_page,
                schema@.columns,
                entries_view(index_entries@),
                old(self).header_view().total_pages as nat,
                rows_view(rows@),
            ),
            lookups_readable(
                *old(self),
                schema@.root_page,
                schema@.columns,
                entries_view(index_entries@),
                old(self).header_view().total_pages as nat,
            ) ==> r is Ok,
            final(self).file_page_count() == old(self).file_page_count(),
            cache_writable(old(self).cache_view()) && r is Ok ==> cache_writable(final(self).cache_view()),
    {
        let ghost es = entries_view(index_entries@);
        let ghost fuel = old(self).header_view().total_pages as nat;
        let ghost s_old = *old(self);
        let ghost good = lookups_readable(s_old, schema@.root_page, schema@.columns, es, fuel);
        let mut rows: Vec<Row> = Vec::new();
        let mut i: usize = 0;
        assert(es.take(0) =~= Seq::<(Seq<u8>, Seq<u8>)>::empty());
        assert(rows_view(rows@) =~= Seq::<Seq<ValueV>>::empty());
        while i < index_entries.len()
            invariant
                self.inv(),
                self.tables() == old(self).tables(),
                self.header_view() == old(self).header_view(),
                forall|k: int| 0 <= k < rows@.len() ==> (#[trigger] rows@[k])@.len() == schema@.columns.len(),
                0 <= i <= index_entries@.len(),
                es == entries_view(index_entries@),
                fuel == old(self).header_view().total_pages,
                pages_kept(*old(self), *self),
                found_rows(*self, schema@.root_page, schema@.columns, es.take(i as int), fuel, rows_view(rows@)),
                self.file_page_count() == old(self).file_page_count(),
                cache_writable(old(self).cache_view()) ==> cache_writable(self.cache_view()),
                s_old == *old(self),
                good == lookups_readable(s_old, schema@.root_page, schema@.columns, es, fuel),
            decreases index_entries@.len() - i,
        {
            let ghost s0 = *self;
            let ghost rv0 = rows_view(rows@);
            let ghost key = es[i as int].1;
            assert(index_entries@[i as int].1@ == key);
            assert(es.take(i + 1).drop_last() =~= es.take(i as int));
            assert(es.take(i + 1).last().1 == key);
            proof {
                if good {
                    assert(descent_pages(s_old, schema@.root_page, es[i as int].1, fuel) is Some);
                    lemma_descent_readable_kept(s_old, s0, schema@.root_page, key, fuel);
                }
            }
            match self.btree_search(schema.root_page, index_entries[i].1.as_slice()) {
                Ok(Some(row_data)) => {
                    proof {
                        if good {
                            lemma_descent_readable_kept(s_old, *self, schema@.root_page, key, fuel);
                            assert(tree_lookup(s_old, schema@.root_page, key, fuel) == Some(Some(row_data@)));
                        }
                    }
                    match Row::deserialize(row_data.as_slice(), schema) {
                        Ok(row) => {
                            let ghost s1 = *self;
                            proof {
                                lemma_found_rows_kept(s0, s1, schema@.root_page, schema@.columns, es.take(i as int), fuel, rv0);
                                assert(tree_holds(s1, schema@.root_page, key, fuel, Some(row_data@)));
                            }
                            rows.push(row);
                            proof {
                                assert(rows_view(rows@) =~= rv0.push(row@));
                                assert(rows_view(rows@).drop_last() =~= rv0);
                                assert(rows_view(rows@).last() == row@);
                            }
                        },
                        Err(e) => return Err(e),
                    }
                },
                Ok(None) => {
                    proof {
                        lemma_found_rows_kept(s0, *self, schema@.root_page, schema@.columns, es.take(i as int), fuel, rv0);
                        assert(tree_holds(*self, schema@.root_page, key, fuel, None));
                    }
                },
                Err(e) => return Err(e),
            }
            i = i + 1;
        }
        assert(es.take(index_entries@.len() as int) =~= es);
        Ok(rows)
    }

    /// The rows whose indexed cells lie in `[start, end)` (an absent bound
    /// does not limit), in index order; fails with `NotFound` when there is no
    /// such table or index.
    pub fn index_range_scan(&mut self, table_name: &str, index_name: &str, start: Option<&[Value]>, end: Option<&[Value]>) -> (r: Result<Vec<Row>, DbError>)
        requires
            old(self).inv(),
        ensures
            final(self).inv(),
            final(self).tables() == old(self).tables(),
            !has_table(old(self).tables(), table_name@) ==> (r matches Err(e) && e == DbError::NotFound),
            match table_named(old(self).tables(), table_name@) {
                Some(t) => crate::schema::table_schema::index_position(t.indexes, index_name@) is None
                    ==> (r matches Err(e) && e == DbError::NotFound),
                None => true,
            },
            r is Ok ==> pages_kept(*old(self), *final(self)),
            table_named(old(self).tables(), table_name@) matches Some(t) ==> (r matches Ok(rows) ==> index_rows(
                *final(self),
                t,
                index_name@,
                opt_key(start),
                ScanMode::Range { lo: opt_key(start), hi: opt_key(end) },
                old(self).header_view().total_pages as nat,
                rows_view(rows@),
            )),
            match table_named(old(self).tables(), table_name@) {
                Some(t) => match crate::schema::table_schema::index_position(t.indexes, index_name@) {
                    Some(k) => index_scan_readable(
                        *old(self),
                        t,
                        k,
                        opt_key(start),
                        ScanMode::Range { lo: opt_key(start), hi: opt_key(end) },
                        old(self).header_view().total_pages as nat,
                    ) ==> r is Ok,
                    None => true,
                },
                None => true,
            },
    {
        let ti = match self.table_index(table_name) {
            Some(i) => i,
            None => return Err(DbError::NotFound),
        };
        assert(table_at(old(self).tables(), table_name@, ti as int));
        assert(has_table(old(self).tables(), table_name@));
        proof {
            lemma_table_named_at(old(self).tables(), table_name@, ti as int);
        }
        let schema = self.schemas[ti].copy();
        let index_root = match schema.get_index(index_name) {
            Some(idx) => idx.root_page,
            None => return Err(DbError::NotFound),
        };
        let start_key = match start {
            Some(v) => Some(serialize_values(v)),
            None => None,
        };
        let end_key = match end {
            Some(v) => Some(serialize_values(v)),
            None => None,
        };
        let s = match &start_key {
            Some(k) => Some(k.as_slice()),
            None => None,
        };
        let e = match &end_key {
            Some(k) => Some(k.as_slice()),
            None => None,
        };
        let index_entries = match self.btree_range_scan(index_root, s, e) {
            Ok(x) => x,
            Err(err) => return Err(err),
        };
        let ghost s1 = *self;
        proof {
            let fuel = old(self).header_view().total_pages as nat;
            let t = schema@;
            let mode = ScanMode::Range { lo: opt_bytes(s), hi: opt_bytes(e) };
            assert(opt_bytes(s) == opt_key(start) && opt_bytes(e) == opt_key(end));
            if crate::schema::table_schema::index_position(t.indexes, index_name@) is Some {
                let k = crate::schema::table_schema::index_position(t.indexes, index_name@).unwrap();
                if index_scan_readable(*old(self), t, k, opt_bytes(s), mode, fuel) {
                    assert(index_root == t.indexes[k].root_page);
                    match opt_bytes(s) {
                        Some(sk) => {
                            lemma_descent_readable_kept(*old(self), s1, index_root, sk, fuel);
                        },
                        None => {
                            lemma_leftmost_pages_kept(*old(self), s1, index_root, fuel);
                        },
                    }
                    lemma_collect_kept(*old(self), s1, index_root, opt_bytes(s), mode, fuel);
                    let es = tree_collect(*old(self), index_root, opt_bytes(s), mode, fuel).unwrap();
                    assert(entries_view(index_entries@) == es);
                    lemma_lookups_readable_kept(*old(self), s1, t.root_page, t.columns, es, fuel);
                }
            }
        }
        let r = self.fetch_rows(&schema, &index_entries);
        proof {
            if r is Ok {
                let fuel = old(self).header_view().total_pages as nat;
                lemma_collect_kept(s1, *self, index_root, opt_bytes(s), ScanMode::Range { lo: opt_bytes(s), hi: opt_bytes(e) }, fuel);
            }
        }
        r
    }

    /// Removes an index from its table's schema (its pages are not
    /// reclaimed): fails with `NotFound` when there is no such table or index.
    pub fn drop_index(&mut self, table_name: &str, index_name: &str) -> (r: Result<(), DbError>)
        requires
            old(self).inv(),
        ensures
            final(self).inv(),
            match table_named(old(self).tables(), table_name@) {
                None => r == Err::<(), DbError>(DbError::NotFound) && *final(self) == *old(self),
                Some(t) => match crate::schema::table_schema::index_position(t.indexes, index_name@) {
                    None => r == Err::<(), DbError>(DbError::NotFound) && *final(self) == *old(self),
                    Some(k) => forall|i: int| table_at(old(self).tables(), table_name@, i) ==> final(self).tables()
                        == old(self).tables().update(i, TableSchemaV { indexes: t.indexes.remove(k), ..t }),
                },
            },
            match table_named(old(self).tables(), table_name@) {
                Some(t) => match crate::schema::table_schema::index_position(t.indexes, index_name@) {
                    Some(k) => schema_save_fits(*old(self), TableSchemaV { indexes: t.indexes.remove(k), ..t }) ==> r is Ok,
                    None => true,
                },
                None => true,
            },
    {
        let ti = match self.table_index(table_name) {
            Some(i) => i,
            None => return Err(DbError::NotFound),
        };
        assert(table_at(old(self).tables(), table_name@, ti as int));
        assert(has_table(old(self).tables(), table_name@));
        let mut schema = self.schemas[ti].copy();
        let pos = match schema.get_index_position(index_name) {
            Some(p) => p,
            None => return Err(DbError::NotFound),
        };
        let ghost before = self.tables();
        let ghost ivs = schema.indexes@;
        schema.indexes.remove(pos);
        assert(crate::schema::table_schema::indexes_view(schema.indexes@) =~= crate::schema::table_schema::indexes_view(ivs).remove(pos as int));
        let ghost s0 = *self;
        self.put_schema(schema.copy());
        proof {
            if schema_save_fits(s0, schema@) {
                lemma_save_fits_kept(s0, *self, schema@);
            }
        }
        proof {
            assert forall|j: int| table_at(before, table_name@, j) implies j == ti by {}
        }
        self.save_schema(&schema)
    }

    /// Joins two tables with the nested-loop method on `left_col = right_col`:
    /// fails with `NotFound` when a table does not exist and with
    /// `InvalidInput` when a column does not exist. The result is
    /// `join_all` of the two tables' rows as `scan` reads them.
    pub fn nested_loop_join(&mut self, left_table: &str, right_table: &str, left_col: &str, right_col: &str, join_type: JoinType) -> (r: Result<Vec<JoinedRow>, DbError>)
        requires
            old(self).inv(),
        ensures
            final(self).inv(),
            final(self).tables() == old(self).tables(),
            !has_table(old(self).tables(), left_table@) ==> (r matches Err(e) && e == DbError::NotFound),
            has_table(old(self).tables(), left_table@) && !has_table(old(self).tables(), right_table@) ==> (r matches Err(e) && e == DbError::NotFound),
            match (table_named(old(self).tables(), left_table@), table_named(old(self).tables(), right_table@)) {
                (Some(lt), Some(rt)) => {
                    &&& (column_position(lt.columns, left_col@) is None || column_position(rt.columns, right_col@) is None) ==> (r matches Err(
                        e,
                    ) && e == DbError::InvalidInput)
                    &&& r matches Ok(v) ==> exists|ls: Seq<Seq<ValueV>>, rs: Seq<Seq<ValueV>>|
                        all_of_width(ls, lt.columns.len()) && all_of_width(rs, rt.columns.len()) && table_rows(*old(self), lt, ls)
                            && table_rows(*old(self), rt, rs) && joined_view(v@) == #[trigger] join_all(
                            ls,
                            rs,
                            column_position(lt.columns, left_col@).unwrap(),
                            column_position(rt.columns, right_col@).unwrap(),
                            join_type,
                            rt.columns.len(),
                        )
                },
                _ => true,
            },
            match (table_named(old(self).tables(), left_table@), table_named(old(self).tables(), right_table@)) {
                (Some(lt), Some(rt)) => column_position(lt.columns, left_col@) is Some && column_position(rt.columns, right_col@) is Some
                    && scan_decodes(*old(self), lt, old(self).header_view().total_pages as nat) && scan_decodes(
                    *old(self),
                    rt,
                    old(self).header_view().total_pages as nat,
                ) ==> r is Ok,
                _ => true,
            },
    {
        let li = match self.table_index(left_table) {
            Some(i) => i,
            None => return Err(DbError::NotFound),
        };
        assert(table_at(old(self).tables(), left_table@, li as int));
        assert(has_table(old(self).tables(), left_table@));
        let ri = match self.table_index(right_table) {
            Some(i) => i,
            None => return Err(DbError::NotFound),
        };
        assert(table_at(old(self).tables(), right_table@, ri as int));
        assert(has_table(old(self).tables(), right_table@));
        let left_schema = self.schemas[li].copy();
        let right_schema = self.schemas[ri].copy();
        let lci = match left_schema.get_column_index(left_col) {
            Some(i) => i,
            None => return Err(DbError::InvalidInput),
        };
        let rci = match right_schema.get_column_index(right_col) {
            Some(i) => i,
            None => return Err(DbError::InvalidInput),
        };
        let left_rows = match self.scan(left_table) {
            Ok(r) => r,
            Err(e) => return Err(e),
        };
        let ghost s1 = *self;
        proof {
            lemma_table_named_at(old(self).tables(), left_table@, li as int);
            lemma_table_named_at(old(self).tables(), right_table@, ri as int);
            let fuel = old(self).header_view().total_pages as nat;
            if scan_decodes(*old(self), right_schema@, fuel) && scan_decodes(*old(self), left_schema@, fuel) {
                lemma_scan_decodes_kept(*old(self), s1, right_schema@, fuel);
            }
        }
        let right_rows = match self.scan(right_table) {
            Ok(r) => r,
            Err(e) => return Err(e),
        };
        proof {
            lemma_found_earlier(*old(self), s1, right_schema@, Seq::empty(), Seq::empty(), rows_view(right_rows@));
        }
        proof {
            assert(rows_wider_than(rows_view(left_rows@), lci as int)) by {
                assert forall|i: int| 0 <= i < rows_view(left_rows@).len() implies lci < (#[trigger] rows_view(left_rows@)[i]).len() by {
                    assert(left_rows@[i]@.len() == left_schema@.columns.len());
                }
            }
            assert(rows_wider_than(rows_view(right_rows@), rci as int)) by {
                assert forall|i: int| 0 <= i < rows_view(right_rows@).len() implies rci < (#[trigger] rows_view(right_rows@)[i]).len() by {
                    assert(right_rows@[i]@.len() == right_schema@.columns.len());
                }
            }
        }
        let results = join_rows(&left_rows, &right_rows, lci, rci, join_type, right_schema.columns.len());
        proof {
            lemma_table_named_at(old(self).tables(), left_table@, li as int);
            lemma_table_named_at(old(self).tables(), right_table@, ri as int);
            assert forall|i: int| 0 <= i < rows_view(left_rows@).len() implies (#[trigger] rows_view(left_rows@)[i]).len() == left_schema@.columns.len() by {
                assert(left_rows@[i]@.len() == left_schema@.columns.len());
            }
            assert forall|i: int| 0 <= i < rows_view(right_rows@).len() implies (#[trigger] rows_view(right_rows@)[i]).len() == right_schema@.columns.len() by {
                assert(right_rows@[i]@.len() == right_schema@.columns.len());
            }
            assert(right_schema@.columns.len() == right_schema.columns.len());
            assert(column_position(left_schema@.columns, left_col@) == Some(lci as int));
            assert(column_position(right_schema@.columns, right_col@) == Some(rci as int));
            assert(joined_view(results@) == join_all(rows_view(left_rows@), rows_view(right_rows@), lci as int, rci as int, join_type, right_schema@.columns.len()));
            assert(table_named(old(self).tables(), left_table@) == Some(left_schema@));
            assert(table_named(old(self).tables(), right_table@) == Some(right_schema@));
            assert(all_of_width(rows_view(left_rows@), left_schema@.columns.len()));
            assert(all_of_width(rows_view(right_rows@), right_schema@.columns.len()));
            let lt = left_schema@;
            let rt = right_schema@;
            assert(joined_view(results@) == join_all(
                rows_view(left_rows@),
                rows_view(right_rows@),
                column_position(lt.columns, left_col@).unwrap(),
                column_position(rt.columns, right_col@).unwrap(),
                join_type,
                rt.columns.len(),
            ));
        }
        Ok(results)
    }

    /// Joins two tables on `left_col = right_col`, looking each left row's
    /// value up in `right_index` of the right table: fails with `NotFound`
    /// when a table or the index does not exist and with `InvalidInput` when a
    /// column does not exist. A left outer join keeps left rows without
    /// matches, joined with `Null`s.
    #[verifier::loop_isolation(false)]
    pub fn index_nested_loop_join(&mut self, left_table: &str, right_table: &str, left_col: &str, right_col: &str, right_index: &str, join_type: JoinType) -> (r: Result<Vec<JoinedRow>, DbError>)
        requires
            old(self).inv(),
        ensures
            final(self).inv(),
            final(self).tables() == old(self).tables(),
            !has_table(old(self).tables(), left_table@) ==> (r matches Err(e) && e == DbError::NotFound),
            has_table(old(self).tables(), left_table@) && !has_table(old(self).tables(), right_table@) ==> (r matches Err(e) && e == DbError::NotFound),
            match (table_named(old(self).tables(), left_table@), table_named(old(self).tables(), right_table@)) {
                (Some(lt), Some(rt)) => {
                    &&& (column_position(lt.columns, left_col@) is None || column_position(rt.columns, right_col@) is None) ==> (r matches Err(
                        e,
                    ) && e == DbError::InvalidInput)
                    &&& (column_position(lt.columns, left_col@) is Some && column_position(rt.columns, right_col@) is Some
                        && crate::schema::table_schema::index_position(rt.indexes, right_index@) is None) ==> (r matches Err(e) && e
                        == DbError::NotFound)
                    &&& r matches Ok(v) ==> index_join_rows(*old(self), lt, rt, left_col@, right_col@, right_index@, join_type, joined_view(v@))
                },
                _ => true,
            },
            match (table_named(old(self).tables(), left_table@), table_named(old(self).tables(), right_table@)) {
                (Some(lt), Some(rt)) => match (
                    column_position(lt.columns, left_col@),
                    column_position(rt.columns, right_col@),
                    crate::schema::table_schema::index_position(rt.indexes, right_index@),
                ) {
                    (Some(lc), Some(_), Some(k)) => index_join_readable(*old(self), lt, rt, lc, k, old(self).header_view().total_pages as nat)
                        ==> r is Ok,
                    _ => true,
                },
                _ => true,
            },
    {
        let li = match self.table_index(left_table) {
            Some(i) => i,
            None => return Err(DbError::NotFound),
        };
        assert(table_at(old(self).tables(), left_table@, li as int));
        assert(has_table(old(self).tables(), left_table@));
        let ri = match self.table_index(right_table) {
            Some(i) => i,
            None => return Err(DbError::NotFound),
        };
        assert(table_at(old(self).tables(), right_table@, ri as int));
        assert(has_table(old(self).tables(), right_table@));
        proof {
            lemma_table_named_at(old(self).tables(), left_table@, li as int);
            lemma_table_named_at(old(self).tables(), right_table@, ri as int);
        }
        let left_schema = self.schemas[li].copy();
        let right_schema = self.schemas[ri].copy();
        let lci = match left_schema.get_column_index(left_col) {
            Some(i) => i,
            None => return Err(DbError::InvalidInput),
        };
        if right_schema.get_column_index(right_col).is_none() {
            return Err(DbError::InvalidInput);
        }
        if right_schema.get_index(right_index).is_none() {
            return Err(DbError::NotFound);
        }
        let ghost fuel = old(self).header_view().total_pages as nat;
        let ghost ki: int = if crate::schema::table_schema::index_position(right_schema@.indexes, right_index@) is Some {
            crate::schema::table_schema::index_position(right_schema@.indexes, right_index@).unwrap()
        } else {
            0
        };
        let ghost good = crate::schema::table_schema::index_position(right_schema@.indexes, right_index@) is Some && index_join_readable(
            *old(self),
            left_schema@,
            right_schema@,
            lci as int,
            ki,
            fuel,
        );
        let left_rows = match self.scan(left_table) {
            Ok(r) => r,
            Err(e) => return Err(e),
        };
        let ghost es0 = tree_collect(*old(self), left_schema@.root_page, None, ScanMode::Range { lo: None, hi: None }, fuel).unwrap();
        proof {
            if good {
                let mode = ScanMode::Range { lo: None, hi: None };
                let d = choose|d: Database|
                    #[trigger] pages_kept(*old(self), d) && scanned_rows(d, left_schema@.root_page, None, mode, fuel, left_schema@.columns, rows_view(left_rows@));
                lemma_collect_kept(*old(self), d, left_schema@.root_page, None, mode, fuel);
                lemma_leftmost_pages_kept(*old(self), d, left_schema@.root_page, fuel);
                assert(rows_decoded(es0, left_schema@.columns, rows_view(left_rows@)));
            }
        }
        let ghost ls = rows_view(left_rows@);
        let ghost n = right_schema@.columns.len();
        let ghost mut mss: Seq<Seq<Seq<ValueV>>> = Seq::empty();
        let mut results: Vec<JoinedRow> = Vec::new();
        let mut i: usize = 0;
        assert(ls.take(0) =~= Seq::<Seq<ValueV>>::empty());
        assert(joined_view(results@) =~= Seq::<JoinedRowV>::empty());
        while i < left_rows.len()
            invariant
                self.inv(),
                self.tables() == old(self).tables(),
                forall|k: int| 0 <= k < left_rows@.len() ==> (#[trigger] left_rows@[k])@.len() == left_schema@.columns.len(),
                lci < left_schema@.columns.len(),
                has_table(old(self).tables(), left_table@),
                has_table(old(self).tables(), right_table@),
                0 <= i <= left_rows@.len(),
                ls == rows_view(left_rows@),
                n == right_schema@.columns.len(),
                mss.len() == i,
                forall|k: int| 0 <= k < mss.len() ==> all_of_width(#[trigger] mss[k], n),
                joined_view(results@) == join_each(ls.take(i as int), mss, join_type, n),
                pages_kept(*old(self), *self),
                self.header_view() == old(self).header_view(),
                table_named(old(self).tables(), right_table@) == Some(right_schema@),
                column_position(left_schema@.columns, left_col@) == Some(lci as int),
                self.file_page_count() == old(self).file_page_count(),
                good ==> cache_writable(self.cache_view()),
                good ==> index_join_readable(*old(self), left_schema@, right_schema@, lci as int, ki, fuel),
                good ==> rows_decoded(es0, left_schema@.columns, ls),
                good ==> crate::schema::table_schema::index_position(right_schema@.indexes, right_index@) == Some(ki),
                fuel == old(self).header_view().total_pages as nat,
                es0 == tree_collect(*old(self), left_schema@.root_page, None, ScanMode::Range { lo: None, hi: None }, fuel).unwrap(),
                forall|k: int| 0 <= k < mss.len() ==> index_lookup_rows(
                    *old(self),
                    right_schema@,
                    right_index@,
                    crate::value::values_bytes(seq![ls[k][lci as int]]),
                    #[trigger] mss[k],
                ),
            decreases left_rows@.len() - i,
        {
            let left_row = &left_rows[i];
            assert(left_row@.len() == left_schema@.columns.len());
            assert(left_row@ == ls[i as int]);
            let key = [left_row.values[lci].copy()];
            let ghost sk = *self;
            proof {
                assert(left_row.values@[lci as int]@ == ls[i as int][lci as int]);
                assert(crate::row::values_view(key@) =~= seq![ls[i as int][lci as int]]);
                if good {
                    assert(crate::row::decode_row(es0[i as int].1, left_schema@.columns) == Ok::<Seq<ValueV>, DbError>(ls[i as int]));
                    let kb = crate::value::values_bytes(seq![ls[i as int][lci as int]]);
                    assert(index_lookup_readable(*old(self), right_schema@, ki, kb, fuel));
                    lemma_index_scan_readable_kept(*old(self), sk, right_schema@, ki, Some(kb), ScanMode::Prefix { p: kb }, fuel);
                    assert(key_bytes(key@) == kb);
                }
            }
            let right_matches = match self.find_by_index(right_table, right_index, key.as_slice()) {
                Ok(m) => m,
                Err(e) => return Err(e),
            };
            proof {
                assert(Seq::new(key@.len(), |j: int| key@[j]@) =~= seq![ls[i as int][lci as int]]);
                lemma_found_earlier(*old(self), sk, right_schema@, right_index@, crate::value::values_bytes(seq![ls[i as int][lci as int]]), rows_view(right_matches@));
                lemma_kept_trans(*old(self), sk, *self);
            }
            let ghost ms = rows_view(right_matches@);
            let ghost before = joined_view(results@);
            assert(all_of_width(ms, n)) by {
                assert forall|k: int| 0 <= k < ms.len() implies (#[trigger] ms[k]).len() == n by {
                    assert(ms[k] == right_matches@[k]@);
                }
            }
            if right_matches.len() == 0 {
                if join_type == JoinType::LeftOuter {
                    results.push(JoinedRow::new(left_row.copy(), nulls(right_schema.columns.len())));
                    assert(joined_view(results@) =~= before + seq![joined(ls[i as int], null_row(n))]);
                } else {
                    assert(joined_view(results@) =~= before + Seq::<JoinedRowV>::empty());
                }
            } else {
                let mut j: usize = 0;
                while j < right_matches.len()
                    invariant
                        0 <= j <= right_matches@.len(),
                        ms == rows_view(right_matches@),
                        left_row@ == ls[i as int],
                        joined_view(results@) == before + Seq::new(j as nat, |k: int| joined(ls[i as int], ms[k])),
                    decreases right_matches@.len() - j,
                {
                    let ghost b2 = joined_view(results@);
                    results.push(JoinedRow::new(left_row.copy(), right_matches[j].copy()));
                    assert(ms[j as int] == right_matches@[j as int]@);
                    assert(joined_view(results@) =~= b2.push(joined(ls[i as int], ms[j as int])));
                    assert(joined_view(results@) =~= before + Seq::new((j + 1) as nat, |k: int| joined(ls[i as int], ms[k])));
                    j = j + 1;
                }
                assert(Seq::new(j as nat, |k: int| joined(ls[i as int], ms[k])) =~= join_matches(ls[i as int], ms, join_type, n));
            }
            proof {
                let m2 = mss.push(ms);
                assert(ls.take(i + 1).drop_last() =~= ls.take(i as int));
                assert(ls.take(i + 1).last() == ls[i as int]);
                assert(m2.drop_last() =~= mss);
                assert(m2.last() == ms);
                mss = m2;
            }
            i = i + 1;
        }
        proof {
            assert(ls.take(ls.len() as int) =~= ls);
            assert forall|k: int| 0 <= k < ls.len() implies (#[trigger] ls[k]).len() == left_schema@.columns.len() by {
                assert(ls[k] == left_rows@[k]@);
            }
        }
        Ok(results)
    }
}

} // verus!
