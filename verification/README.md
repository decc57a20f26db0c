# db

A small embedded database engine: typed rows stored in B+ trees over
4096-byte pages, with secondary indexes, joins and a fluent query builder.
The engine is written in Verus; every function in `src/` is verified against
its `requires` / `ensures` contract.

## Layout

- `src/` — the verified library.
  - `codec.rs`: little-endian and length-prefixed encodings, byte-string order.
  - `data_type.rs`, `value.rs`, `row.rs`: column types, cell values (a
    `Float64` is held as its IEEE-754 bit pattern) and rows with their byte
    encodings; decoding is proved to invert encoding.
  - `schema/`, `table_builder.rs`: columns, indexes, table schemas and their
    catalog encoding.
  - `storage/`: the file header, pages, the LRU page cache and the page
    manager, which keeps the database file as an in-memory image.
  - `btree/`: internal and leaf node encodings.
  - `database.rs`: the engine — tables, rows, B+ tree search, insert with
    splits, delete, scans, indexes and joins. Its contracts are stated over
    the pages the database holds (`Database::stored`) and spec functions that
    walk the trees on those pages (`tree_lookup`, `tree_collect`, ...).
  - `query_builder.rs`: filtering, ordering, projection and limits as
    verified functions over rows, and the query builder that drives them.
- `app/` — the file around the library: it reads the database file into the
  image that `Database::open` takes, and writes `Database::file_image` back
  on sync and drop.
- `tests/` — tests of the library on concrete values.

## Errors

Operations return `DbError` (`UnexpectedEof`, `InvalidData`, `NotFound`,
`AlreadyExists`, `InvalidInput`); `app/` maps these to `std::io::Error`.
Decoding damaged bytes or following a damaged tree ends in an error rather
than a panic.
