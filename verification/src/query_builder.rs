use vstd::prelude::*;
use crate::codec::{KeyOrder, lex_order, utf8_of, compare_bytes, str_equal, strings_view, copy_strings};
use crate::database::{Database, JoinType, JoinedRow, rows_view, has_table, table_named, table_at, names_distinct, cells_at, column_positions, table_rows, index_lookup_rows, index_join_rows, joined_view, JoinedRowV};
use crate::error::DbError;
use crate::row::{Row, values_view, copy_values};
use crate::schema::table_schema::{TableSchema, TableSchemaV, column_position};
use crate::schema::column::ColumnV;
use crate::schema::index_def::IndexDefV;
use crate::value::{Value, ValueV, value_eq, int_order, bool_order, f64_order, i32_order, i64_order, u64_order, bools_order, floats_order};

verus! {

/// A comparison of a cell with a value.
#[derive(Debug, Clone, Copy, PartialEq, Eq, Structural)]
pub enum CompareOp {
    Eq,
    NotEq,
    Lt,
    Lte,
    Gt,
    Gte,
}

/// The direction of an ordering.
#[derive(Debug, Clone, Copy, PartialEq, Eq, Structural)]
pub enum OrderDirection {
    Asc,
    Desc,
}

/// A filter: a column, a comparison and the value to compare with.
#[derive(Debug)]
pub struct WhereClause {
    column: String,
    op: CompareOp,
    value: Value,
}

/// A filter as plain values.
pub struct WhereClauseV {
    pub column: Seq<char>,
    pub op: CompareOp,
    pub value: ValueV,
}

impl View for WhereClause {
    type V = WhereClauseV;

    closed spec fn view(&self) -> WhereClauseV {
        WhereClauseV { column: self.column@, op: self.op, value: self.value@ }
    }
}

impl WhereClause {
    /// A filter on `column`.
    pub fn new(column: &str, op: CompareOp, value: Value) -> (w: Self)
        ensures
            w@ == (WhereClauseV { column: column@, op, value: value@ }),
    {
        WhereClause { column: column.to_owned(), op, value }
    }

    fn copy(&self) -> (w: Self)
        ensures
            w@ == self@,
    {
        WhereClause { column: self.column.clone(), op: self.op, value: self.value.copy() }
    }
}

/// A join with another table.
pub struct JoinClause {
    join_type: JoinType,
    table: String,
    left_col: String,
    right_col: String,
    index: Option<String>,
}

/// The result of a query.
#[derive(Debug)]
pub enum QueryResult {
    /// Rows of one table
    Simple(Vec<Row>),
    /// Rows of a join
    Joined(Vec<JoinedRow>),
}

/// The order that ORDER BY and range filters use: `Null` first, same-typed
/// values by their natural order (text by its bytes), everything else equal.
pub open spec fn compare_order(a: ValueV, b: ValueV) -> KeyOrder {
    match (a, b) {
        (ValueV::Null, ValueV::Null) => KeyOrder::Equal,
        (ValueV::Null, _) => KeyOrder::Less,
        (_, ValueV::Null) => KeyOrder::Greater,
        (ValueV::Int32(x), ValueV::Int32(y)) => int_order(x as int, y as int),
        (ValueV::Int64(x), ValueV::Int64(y)) => int_order(x as int, y as int),
        (ValueV::UInt32(x), ValueV::UInt32(y)) => int_order(x as int, y as int),
        (ValueV::UInt64(x), ValueV::UInt64(y)) => int_order(x as int, y as int),
        (ValueV::Float64(x), ValueV::Float64(y)) => f64_order(x, y),
        (ValueV::Text(x), ValueV::Text(y)) => lex_order(utf8_of(x), utf8_of(y)),
        (ValueV::Bool(x), ValueV::Bool(y)) => bool_order(x, y),
        (ValueV::Timestamp(x), ValueV::Timestamp(y)) => int_order(x as int, y as int),
        _ => KeyOrder::Equal,
    }
}

/// Cells of the integer types and timestamps are ordered by queries as the
/// numbers they hold: one comes first exactly when its number is smaller,
/// and they are equal exactly when the numbers are.
pub proof fn lemma_compare_order_numbers(a: i64, b: i64, c: i32, d: i32, x: u64, y: u64, u: u32, w: u32)
    ensures
        (compare_order(ValueV::Int64(a), ValueV::Int64(b)) == KeyOrder::Less) == (a < b),
        (compare_order(ValueV::Int64(a), ValueV::Int64(b)) == KeyOrder::Equal) == (a == b),
        (compare_order(ValueV::Int64(a), ValueV::Int64(b)) == KeyOrder::Greater) == (a > b),
        (compare_order(ValueV::Int32(c), ValueV::Int32(d)) == KeyOrder::Less) == (c < d),
        (compare_order(ValueV::Int32(c), ValueV::Int32(d)) == KeyOrder::Equal) == (c == d),
        (compare_order(ValueV::Int32(c), ValueV::Int32(d)) == KeyOrder::Greater) == (c > d),
        (compare_order(ValueV::UInt64(x), ValueV::UInt64(y)) == KeyOrder::Less) == (x < y),
        (compare_order(ValueV::UInt64(x), ValueV::UInt64(y)) == KeyOrder::Equal) == (x == y),
        (compare_order(ValueV::UInt64(x), ValueV::UInt64(y)) == KeyOrder::Greater) == (x > y),
        (compare_order(ValueV::UInt32(u), ValueV::UInt32(w)) == KeyOrder::Less) == (u < w),
        (compare_order(ValueV::UInt32(u), ValueV::UInt32(w)) == KeyOrder::Equal) == (u == w),
        (compare_order(ValueV::UInt32(u), ValueV::UInt32(w)) == KeyOrder::Greater) == (u > w),
        (compare_order(ValueV::Timestamp(a), ValueV::Timestamp(b)) == KeyOrder::Less) == (a < b),
        (compare_order(ValueV::Timestamp(a), ValueV::Timestamp(b)) == KeyOrder::Equal) == (a == b),
        (compare_order(ValueV::Timestamp(a), ValueV::Timestamp(b)) == KeyOrder::Greater) == (a > b),
{
}

/// Text cells are ordered by their UTF-8 bytes: by the first byte where
/// they differ, a proper prefix first, and equal exactly when the texts
/// are.
pub proof fn lemma_compare_order_text(s: Seq<char>, t: Seq<char>)
    ensures
        utf8_of(s).len() > 0 && utf8_of(t).len() > 0 && utf8_of(s)[0] < utf8_of(t)[0] ==> compare_order(ValueV::Text(s), ValueV::Text(t))
            == KeyOrder::Less,
        utf8_of(s).len() < utf8_of(t).len() && utf8_of(t).subrange(0, utf8_of(s).len() as int) == utf8_of(s) ==> compare_order(
            ValueV::Text(s),
            ValueV::Text(t),
        ) == KeyOrder::Less,
{
    crate::codec::lemma_lex_order_laws(Seq::empty(), utf8_of(s), utf8_of(t));
    if utf8_of(s).len() < utf8_of(t).len() && utf8_of(t).subrange(0, utf8_of(s).len() as int) == utf8_of(s) {
        let rest = utf8_of(t).subrange(utf8_of(s).len() as int, utf8_of(t).len() as int);
        assert(utf8_of(s) + rest =~= utf8_of(t));
        crate::codec::lemma_lex_order_laws(Seq::empty(), utf8_of(s), rest);
    }
}

/// `Null` cells come before every other cell, and `false` before `true`.
pub proof fn lemma_compare_order_null_bool(v: ValueV)
    ensures
        v != ValueV::Null ==> compare_order(ValueV::Null, v) == KeyOrder::Less && compare_order(v, ValueV::Null) == KeyOrder::Greater,
        compare_order(ValueV::Null, ValueV::Null) == KeyOrder::Equal,
        compare_order(ValueV::Bool(false), ValueV::Bool(true)) == KeyOrder::Less,
        compare_order(ValueV::Bool(true), ValueV::Bool(false)) == KeyOrder::Greater,
{
}

/// Compares two cells in the query order.
pub fn compare_values(a: &Value, b: &Value) -> (r: KeyOrder)
    ensures
        r == compare_order(a@, b@),
{
    match (a, b) {
        (Value::Null, Value::Null) => KeyOrder::Equal,
        (Value::Null, _) => KeyOrder::Less,
        (_, Value::Null) => KeyOrder::Greater,
        (Value::Int32(x), Value::Int32(y)) => i32_order(*x, *y),
        (Value::Int64(x), Value::Int64(y)) => i64_order(*x, *y),
        (Value::UInt32(x), Value::UInt32(y)) => u64_order(*x as u64, *y as u64),
        (Value::UInt64(x), Value::UInt64(y)) => u64_order(*x, *y),
        (Value::Float64(x), Value::Float64(y)) => floats_order(*x, *y),
        (Value::Text(x), Value::Text(y)) => compare_bytes(x.as_str().as_bytes(), y.as_str().as_bytes()),
        (Value::Bool(x), Value::Bool(y)) => bools_order(*x, *y),
        (Value::Timestamp(x), Value::Timestamp(y)) => i64_order(*x, *y),
        _ => KeyOrder::Equal,
    }
}

/// A cell passes the comparison with `target`.
pub open spec fn passes(op: CompareOp, v: ValueV, target: ValueV) -> bool {
    match op {
        CompareOp::Eq => value_eq(v, target),
        CompareOp::NotEq => !value_eq(v, target),
        CompareOp::Lt => compare_order(v, target) == KeyOrder::Less,
        CompareOp::Lte => compare_order(v, target) != KeyOrder::Greater,
        CompareOp::Gt => compare_order(v, target) == KeyOrder::Greater,
        CompareOp::Gte => compare_order(v, target) != KeyOrder::Less,
    }
}

/// The rows whose cell `col` passes the comparison, in order.
pub open spec fn filter_spec(rows: Seq<Seq<ValueV>>, col: int, op: CompareOp, target: ValueV) -> Seq<Seq<ValueV>>
    decreases rows.len(),
{
    if rows.len() == 0 {
        seq![]
    } else {
        filter_spec(rows.drop_last(), col, op, target) + if passes(op, rows.last()[col], target) {
            seq![rows.last()]
        } else {
            seq![]
        }
    }
}

/// On integer cells a filter compares the numbers: `Eq`, `NotEq`, `Lt`,
/// `Lte`, `Gt` and `Gte` mean `==`, `!=`, `<`, `<=`, `>` and `>=`.
pub proof fn lemma_passes_numbers(op: CompareOp, a: i64, b: i64, c: i32, d: i32)
    ensures
        passes(op, ValueV::Int64(a), ValueV::Int64(b)) == match op {
            CompareOp::Eq => a == b,
            CompareOp::NotEq => a != b,
            CompareOp::Lt => a < b,
            CompareOp::Lte => a <= b,
            CompareOp::Gt => a > b,
            CompareOp::Gte => a >= b,
        },
        passes(op, ValueV::Int32(c), ValueV::Int32(d)) == match op {
            CompareOp::Eq => c == d,
            CompareOp::NotEq => c != d,
            CompareOp::Lt => c < d,
            CompareOp::Lte => c <= d,
            CompareOp::Gt => c > d,
            CompareOp::Gte => c >= d,
        },
{
    lemma_compare_order_numbers(a, b, c, d, 0, 0, 0, 0);
}

/// A filter keeps exactly the rows whose cell passes, in their order: every
/// kept row is a row that passes, every row that passes is kept, and the
/// kept rows are never more than the rows.
pub proof fn lemma_filter_exact(rows: Seq<Seq<ValueV>>, col: int, op: CompareOp, target: ValueV)
    ensures
        filter_spec(rows, col, op, target).len() <= rows.len(),
        forall|i: int| 0 <= i < filter_spec(rows, col, op, target).len() ==> rows.contains(#[trigger] filter_spec(rows, col, op, target)[i])
            && passes(op, filter_spec(rows, col, op, target)[i][col], target),
        forall|i: int| 0 <= i < rows.len() && passes(op, #[trigger] rows[i][col], target) ==> filter_spec(rows, col, op, target).contains(rows[i]),
    decreases rows.len(),
{
    if rows.len() > 0 {
        let init = rows.drop_last();
        lemma_filter_exact(init, col, op, target);
        let f0 = filter_spec(init, col, op, target);
        let f = filter_spec(rows, col, op, target);
        assert forall|i: int| 0 <= i < f.len() implies rows.contains(#[trigger] f[i]) && passes(op, f[i][col], target) by {
            if i < f0.len() {
                assert(f[i] == f0[i]);
                let k = choose|k: int| 0 <= k < init.len() && init[k] == f0[i];
                assert(rows[k] == init[k]);
            } else {
                assert(f[i] == rows.last());
                assert(rows[rows.len() - 1] == rows.last());
            }
        }
        assert forall|i: int| 0 <= i < rows.len() && passes(op, #[trigger] rows[i][col], target) implies f.contains(rows[i]) by {
            if i < rows.len() - 1 {
                assert(init[i] == rows[i]);
                let k = choose|k: int| 0 <= k < f0.len() && f0[k] == rows[i];
                assert(f[k] == f0[k]);
            } else {
                assert(rows[i] == rows.last());
                assert(f[f.len() - 1] == rows.last());
            }
        }
    }
}

/// A limit keeps the first rows, as many as the limit allows.
pub proof fn lemma_limit_prefix(rows: Seq<Seq<ValueV>>, n: Option<usize>)
    ensures
        limit_spec(rows, n).len() == match n {
            Some(k) => if k < rows.len() { k as int } else { rows.len() as int },
            None => rows.len() as int,
        },
        forall|i: int| 0 <= i < limit_spec(rows, n).len() ==> #[trigger] limit_spec(rows, n)[i] == rows[i],
{
}

/// Filtering keeps rows of the rows only, so it keeps their width.
pub proof fn lemma_filter_width(rows: Seq<Seq<ValueV>>, col: int, op: CompareOp, target: ValueV, w: int)
    requires
        forall|i: int| 0 <= i < rows.len() ==> (#[trigger] rows[i]).len() == w,
    ensures
        forall|i: int| 0 <= i < filter_spec(rows, col, op, target).len() ==> (#[trigger] filter_spec(rows, col, op, target)[i]).len() == w,
    decreases rows.len(),
{
    if rows.len() > 0 {
        let t = rows.drop_last();
        assert forall|i: int| 0 <= i < t.len() implies (#[trigger] t[i]).len() == w by {
            assert(t[i] == rows[i]);
        }
        lemma_filter_width(t, col, op, target, w);
        assert(rows[rows.len() - 1].len() == w);
        let f = filter_spec(t, col, op, target);
        let tail = if passes(op, rows.last()[col], target) { seq![rows.last()] } else { Seq::<Seq<ValueV>>::empty() };
        assert(filter_spec(rows, col, op, target) == f + tail);
        assert forall|i: int| 0 <= i < (f + tail).len() implies (#[trigger] (f + tail)[i]).len() == w by {
            if i < f.len() {
                assert((f + tail)[i] == f[i]);
            } else {
                assert((f + tail)[i] == tail[i - f.len()]);
            }
        }
    }
}

/// The order of two rows by cell `col` in direction `dir`.
pub open spec fn row_order(a: Seq<ValueV>, b: Seq<ValueV>, col: int, dir: OrderDirection) -> KeyOrder {
    match dir {
        OrderDirection::Asc => compare_order(a[col], b[col]),
        OrderDirection::Desc => compare_order(a[col], b[col]).flipped(),
    }
}

/// Rows whose ordering cells are `Int64` numbers come in ascending order of
/// those numbers under `Asc` and in descending order under `Desc`: a sorted
/// result never puts a row before one whose number it exceeds (`Asc`) or
/// falls short of (`Desc`).
pub proof fn lemma_row_order_int64(a: Seq<ValueV>, b: Seq<ValueV>, col: int, x: i64, y: i64)
    requires
        0 <= col < a.len(),
        0 <= col < b.len(),
        a[col] == ValueV::Int64(x),
        b[col] == ValueV::Int64(y),
    ensures
        (row_order(a, b, col, OrderDirection::Asc) == KeyOrder::Greater) == (x > y),
        (row_order(a, b, col, OrderDirection::Desc) == KeyOrder::Greater) == (x < y),
        (row_order(a, b, col, OrderDirection::Asc) == KeyOrder::Less) == (x < y),
        (row_order(a, b, col, OrderDirection::Desc) == KeyOrder::Less) == (x > y),
{
    lemma_compare_order_numbers(x, y, 0, 0, 0, 0, 0, 0);
}

/// A sequence of rows sorted by an `Int64` column has non-decreasing
/// numbers there under `Asc`, and non-increasing under `Desc`.
pub proof fn lemma_sorted_int64(s: Seq<Seq<ValueV>>, col: int, dir: OrderDirection, i: int, j: int, x: i64, y: i64)
    requires
        sorted_by(s, col, dir),
        0 <= i < j < s.len(),
        0 <= col < s[i].len(),
        0 <= col < s[j].len(),
        s[i][col] == ValueV::Int64(x),
        s[j][col] == ValueV::Int64(y),
    ensures
        dir == OrderDirection::Asc ==> x <= y,
        dir == OrderDirection::Desc ==> x >= y,
{
    assert(row_order(s[i], s[j], col, dir) != KeyOrder::Greater);
    lemma_row_order_int64(s[i], s[j], col, x, y);
}

/// Where a stable insertion puts row `r` into `sorted`: before the first row
/// that `r` comes strictly before.
pub open spec fn insert_position(sorted: Seq<Seq<ValueV>>, r: Seq<ValueV>, col: int, dir: OrderDirection) -> int
    decreases sorted.len(),
{
    if sorted.len() == 0 {
        0
    } else {
        let p = insert_position(sorted.drop_last(), r, col, dir);
        if p < sorted.len() - 1 {
            p
        } else if row_order(r, sorted.last(), col, dir) == KeyOrder::Less {
            sorted.len() - 1
        } else {
            sorted.len() as int
        }
    }
}

/// The rows sorted by cell `col` in direction `dir`, stably: rows are taken
/// in order and each is placed after every row it does not come strictly
/// before.
pub open spec fn sort_spec(rows: Seq<Seq<ValueV>>, col: int, dir: OrderDirection) -> Seq<Seq<ValueV>>
    decreases rows.len(),
{
    if rows.len() == 0 {
        seq![]
    } else {
        let s = sort_spec(rows.drop_last(), col, dir);
        s.insert(insert_position(s, rows.last(), col, dir), rows.last())
    }
}

/// The cells at `positions` of every row.
pub open spec fn project_spec(rows: Seq<Seq<ValueV>>, positions: Seq<int>) -> Seq<Seq<ValueV>> {
    Seq::new(rows.len(), |i: int| cells_at(rows[i], positions))
}

/// The first `n` rows (all of them when there are fewer).
pub open spec fn limit_spec(rows: Seq<Seq<ValueV>>, n: Option<usize>) -> Seq<Seq<ValueV>> {
    match n {
        Some(k) => if k < rows.len() {
            rows.take(k as int)
        } else {
            rows
        },
        None => rows,
    }
}

/// `insert_position` is a position where the row can be inserted.
pub proof fn lemma_insert_position_range(sorted: Seq<Seq<ValueV>>, r: Seq<ValueV>, col: int, dir: OrderDirection)
    ensures
        0 <= insert_position(sorted, r, col, dir) <= sorted.len(),
        forall|j: int| 0 <= j < insert_position(sorted, r, col, dir) ==> row_order(r, #[trigger] sorted[j], col, dir) != KeyOrder::Less,
        insert_position(sorted, r, col, dir) < sorted.len() ==> row_order(r, sorted[insert_position(sorted, r, col, dir)], col, dir) == KeyOrder::Less,
    decreases sorted.len(),
{
    if sorted.len() > 0 {
        lemma_insert_position_range(sorted.drop_last(), r, col, dir);
        let p = insert_position(sorted.drop_last(), r, col, dir);
        assert forall|j: int| 0 <= j < insert_position(sorted, r, col, dir) implies row_order(r, #[trigger] sorted[j], col, dir) != KeyOrder::Less by {
            if j < sorted.len() - 1 {
                assert(sorted.drop_last()[j] == sorted[j]);
            }
        }
        if p < sorted.len() - 1 {
            assert(sorted.drop_last()[p] == sorted[p]);
        }
    }
}

/// Sorting rearranges the rows and keeps every one of them.
#[verifier::spinoff_prover]
#[verifier::rlimit(30)]
pub proof fn lemma_sort_permutes(rows: Seq<Seq<ValueV>>, col: int, dir: OrderDirection)
    ensures
        sort_spec(rows, col, dir).to_multiset() == rows.to_multiset(),
        sort_spec(rows, col, dir).len() == rows.len(),
    decreases rows.len(),
{
    broadcast use vstd::seq_lib::group_to_multiset_ensures;
    if rows.len() > 0 {
        let t = rows.drop_last();
        let s = sort_spec(t, col, dir);
        lemma_sort_permutes(t, col, dir);
        lemma_insert_position_range(s, rows.last(), col, dir);
        let p = insert_position(s, rows.last(), col, dir);
        vstd::seq_lib::lemma_seq_union_to_multiset_commutative(s.take(p), s.skip(p));
        assert(s.insert(p, rows.last()) =~= s.take(p) + seq![rows.last()] + s.skip(p));
        assert(s =~= s.take(p) + s.skip(p));
        assert(rows =~= t.push(rows.last()));
        vstd::seq_lib::lemma_multiset_commutative(s.take(p) + seq![rows.last()], s.skip(p));
        vstd::seq_lib::lemma_multiset_commutative(s.take(p), seq![rows.last()]);
        vstd::seq_lib::lemma_multiset_commutative(s.take(p), s.skip(p));
    }
}

/// Rows in order: no row comes strictly after a later one.
pub open spec fn sorted_by(s: Seq<Seq<ValueV>>, col: int, dir: OrderDirection) -> bool {
    forall|i: int, j: int| 0 <= i < j < s.len() ==> #[trigger] row_order(s[i], s[j], col, dir) != KeyOrder::Greater
}

/// The row order is a total preorder on the rows of `all`: swapping two rows
/// flips their order, and "not after" is transitive.
#[verifier::opaque]
pub open spec fn preorder_on(all: Seq<Seq<ValueV>>, col: int, dir: OrderDirection) -> bool {
    &&& forall|a: Seq<ValueV>, b: Seq<ValueV>|
        all.contains(a) && all.contains(b) ==> #[trigger] row_order(a, b, col, dir) == row_order(b, a, col, dir).flipped()
    &&& forall|a: Seq<ValueV>, b: Seq<ValueV>, c: Seq<ValueV>|
        all.contains(a) && all.contains(b) && all.contains(c) && #[trigger] row_order(a, b, col, dir) != KeyOrder::Greater
            && #[trigger] row_order(b, c, col, dir) != KeyOrder::Greater ==> row_order(a, c, col, dir) != KeyOrder::Greater
}

/// Swapping two rows of `all` flips their order.
proof fn lemma_preorder_flip(all: Seq<Seq<ValueV>>, a: Seq<ValueV>, b: Seq<ValueV>, col: int, dir: OrderDirection)
    requires
        preorder_on(all, col, dir),
        all.contains(a),
        all.contains(b),
    ensures
        row_order(a, b, col, dir) == row_order(b, a, col, dir).flipped(),
{
    reveal(preorder_on);
}

/// "Not after" is transitive on the rows of `all`.
proof fn lemma_preorder_trans(all: Seq<Seq<ValueV>>, a: Seq<ValueV>, b: Seq<ValueV>, c: Seq<ValueV>, col: int, dir: OrderDirection)
    requires
        preorder_on(all, col, dir),
        all.contains(a),
        all.contains(b),
        all.contains(c),
        row_order(a, b, col, dir) != KeyOrder::Greater,
        row_order(b, c, col, dir) != KeyOrder::Greater,
    ensures
        row_order(a, c, col, dir) != KeyOrder::Greater,
{
    reveal(preorder_on);
}

/// Every row of the sorted rows is one of the rows.
proof fn lemma_sort_members(rows: Seq<Seq<ValueV>>, col: int, dir: OrderDirection)
    ensures
        forall|i: int| 0 <= i < sort_spec(rows, col, dir).len() ==> rows.contains(#[trigger] sort_spec(rows, col, dir)[i]),
    decreases rows.len(),
{
    lemma_sort_permutes(rows, col, dir);
    if rows.len() > 0 {
        let t = rows.drop_last();
        let x = rows.last();
        lemma_sort_members(t, col, dir);
        let s = sort_spec(t, col, dir);
        lemma_insert_position_range(s, x, col, dir);
        let p = insert_position(s, x, col, dir);
        let u = s.insert(p, x);
        assert forall|i: int| 0 <= i < u.len() implies rows.contains(#[trigger] u[i]) by {
            if i == p {
                assert(rows[rows.len() - 1] == x);
            } else {
                let e = if i < p { s[i] } else { s[i - 1] };
                assert(u[i] == e);
                assert(t.contains(e));
                let k = choose|k: int| 0 <= k < t.len() && t[k] == e;
                assert(rows[k] == e);
            }
        }
    }
}

/// Inserting a row at its insert position keeps rows in order.
proof fn lemma_insert_sorted(all: Seq<Seq<ValueV>>, s: Seq<Seq<ValueV>>, x: Seq<ValueV>, col: int, dir: OrderDirection)
    requires
        preorder_on(all, col, dir),
        sorted_by(s, col, dir),
        forall|i: int| 0 <= i < s.len() ==> all.contains(#[trigger] s[i]),
        all.contains(x),
    ensures
        sorted_by(s.insert(insert_position(s, x, col, dir), x), col, dir),
{
    lemma_insert_position_range(s, x, col, dir);
    let p = insert_position(s, x, col, dir);
    let u = s.insert(p, x);
    assert forall|i: int, j: int| 0 <= i < j < u.len() implies #[trigger] row_order(u[i], u[j], col, dir) != KeyOrder::Greater by {
        if j < p {
            assert(u[i] == s[i] && u[j] == s[j]);
            assert(row_order(s[i], s[j], col, dir) != KeyOrder::Greater);
        } else if j == p {
            assert(u[i] == s[i] && u[j] == x);
            assert(row_order(x, s[i], col, dir) != KeyOrder::Less);
            lemma_preorder_flip(all, s[i], x, col, dir);
        } else if i < p {
            assert(u[i] == s[i] && u[j] == s[j - 1]);
            assert(row_order(s[i], s[j - 1], col, dir) != KeyOrder::Greater);
        } else if i == p {
            assert(u[i] == x && u[j] == s[j - 1]);
            assert(row_order(x, s[p], col, dir) == KeyOrder::Less);
            if j - 1 > p {
                assert(row_order(s[p], s[j - 1], col, dir) != KeyOrder::Greater);
                lemma_preorder_trans(all, x, s[p], s[j - 1], col, dir);
            }
        } else {
            assert(u[i] == s[i - 1] && u[j] == s[j - 1]);
            assert(row_order(s[i - 1], s[j - 1], col, dir) != KeyOrder::Greater);
        }
    }
}

/// Where the order is a total preorder on the rows, sorting puts them in
/// order.
pub proof fn lemma_sort_sorted(rows: Seq<Seq<ValueV>>, col: int, dir: OrderDirection)
    requires
        preorder_on(rows, col, dir),
    ensures
        sorted_by(sort_spec(rows, col, dir), col, dir),
    decreases rows.len(),
{
    if rows.len() > 0 {
        let t = rows.drop_last();
        let x = rows.last();
        assert forall|a: Seq<ValueV>| t.contains(a) implies rows.contains(a) by {
            let k = choose|k: int| 0 <= k < t.len() && t[k] == a;
            assert(rows[k] == a);
        }
        assert(rows[rows.len() - 1] == x);
        assert(preorder_on(t, col, dir)) by {
            reveal(preorder_on);
        }
        lemma_sort_sorted(t, col, dir);
        lemma_sort_members(t, col, dir);
        let s = sort_spec(t, col, dir);
        assert forall|i: int| 0 <= i < s.len() implies rows.contains(#[trigger] s[i]) by {
            assert(t.contains(s[i]));
        }
        lemma_insert_sorted(rows, s, x, col, dir);
    }
}

/// The rows whose cell `col` passes the comparison, in order.
pub fn filter_rows(rows: Vec<Row>, col: usize, op: CompareOp, target: &Value) -> (r: Vec<Row>)
    requires
        crate::database::rows_wider_than(rows_view(rows@), col as int),
    ensures
        rows_view(r@) == filter_spec(rows_view(rows@), col as int, op, target@),
{
    let ghost rs = rows_view(rows@);
    let mut out: Vec<Row> = Vec::new();
    let mut i: usize = 0;
    assert(rs.take(0) =~= Seq::<Seq<ValueV>>::empty());
    assert(rows_view(out@) =~= Seq::<Seq<ValueV>>::empty());
    while i < rows.len()
        invariant
            0 <= i <= rs.len(),
            rs == rows_view(rows@),
            crate::database::rows_wider_than(rs, col as int),
            rows_view(out@) == filter_spec(rs.take(i as int), col as int, op, target@),
        decreases rs.len() - i,
    {
        let row = &rows[i];
        assert(row@ == rs[i as int]);
        assert(rs[i as int].len() > col);
        let v = &row.values[col];
        let keep = match op {
            CompareOp::Eq => v.equals(target),
            CompareOp::NotEq => !v.equals(target),
            CompareOp::Lt => compare_values(v, target) == KeyOrder::Less,
            CompareOp::Lte => compare_values(v, target) != KeyOrder::Greater,
            CompareOp::Gt => compare_values(v, target) == KeyOrder::Greater,
            CompareOp::Gte => compare_values(v, target) != KeyOrder::Less,
        };
        assert(rs.take(i + 1).drop_last() =~= rs.take(i as int));
        assert(rs.take(i + 1).last() == rs[i as int]);
        if keep {
            let ghost before = rows_view(out@);
            out.push(row.copy());
            assert(rows_view(out@) =~= before.push(rs[i as int]));
        } else {
            assert(filter_spec(rs.take(i + 1), col as int, op, target@) =~= filter_spec(rs.take(i as int), col as int, op, target@));
        }
        i = i + 1;
    }
    assert(rs.take(rs.len() as int) =~= rs);
    out
}

/// Sorts rows by cell `col` in direction `dir`, stably.
pub fn sort_rows(rows: Vec<Row>, col: usize, dir: OrderDirection) -> (r: Vec<Row>)
    requires
        crate::database::rows_wider_than(rows_view(rows@), col as int),
    ensures
        rows_view(r@) == sort_spec(rows_view(rows@), col as int, dir),
{
    let ghost rs = rows_view(rows@);
    let mut sorted: Vec<Row> = Vec::new();
    let mut taken: usize = 0;
    assert(rs.take(0) =~= Seq::<Seq<ValueV>>::empty());
    assert(rows_view(sorted@) =~= Seq::<Seq<ValueV>>::empty());
    while taken < rows.len()
        invariant
            0 <= taken <= rs.len(),
            rs == rows_view(rows@),
            crate::database::rows_wider_than(rs, col as int),
            rows_view(sorted@) == sort_spec(rs.take(taken as int), col as int, dir),
            crate::database::rows_wider_than(rows_view(sorted@), col as int),
        decreases rs.len() - taken,
    {
        let x = rows[taken].copy();
        assert(x@ == rs[taken as int]);
        assert(x@.len() > col);
        let ghost s = rows_view(sorted@);
        let ghost ip = insert_position(s, x@, col as int, dir);
        proof {
            lemma_insert_position_range(s, x@, col as int, dir);
        }
        let mut p: usize = 0;
        let mut found = false;
        while !found && p < sorted.len()
            invariant
                0 <= p <= s.len(),
                s == rows_view(sorted@),
                crate::database::rows_wider_than(s, col as int),
                x@.len() > col,
                ip == insert_position(s, x@, col as int, dir),
                0 <= ip <= s.len(),
                forall|j: int| 0 <= j < ip ==> row_order(x@, #[trigger] s[j], col as int, dir) != KeyOrder::Less,
                ip < s.len() ==> row_order(x@, s[ip], col as int, dir) == KeyOrder::Less,
                p <= ip,
                found ==> p == ip,
            decreases s.len() - p + (if found { 0int } else { 1int }),
        {
            assert(sorted@[p as int]@ == s[p as int]);
            let c = compare_values(&x.values[col], &sorted[p].values[col]);
            let o = match dir {
                OrderDirection::Asc => c,
                OrderDirection::Desc => match c {
                    KeyOrder::Less => KeyOrder::Greater,
                    KeyOrder::Equal => KeyOrder::Equal,
                    KeyOrder::Greater => KeyOrder::Less,
                },
            };
            assert(o == row_order(x@, s[p as int], col as int, dir));
            if o == KeyOrder::Less {
                found = true;
            } else {
                p = p + 1;
            }
        }
        assert(p == ip);
        let ghost xv = x@;
        sorted.insert(p, x);
        assert(rows_view(sorted@) =~= s.insert(p as int, xv));
        assert(rs.take(taken + 1).drop_last() =~= rs.take(taken as int));
        assert(rs.take(taken + 1).last() == xv);
        assert forall|i: int| 0 <= i < rows_view(sorted@).len() implies col < (#[trigger] rows_view(sorted@)[i]).len() by {
            if i < p {
                assert(rows_view(sorted@)[i] == s[i]);
            } else if i > p {
                assert(rows_view(sorted@)[i] == s[i - 1]);
            }
        }
        taken = taken + 1;
    }
    assert(rs.take(rs.len() as int) =~= rs);
    sorted
}

/// The cells at `positions` of every row.
pub fn project_rows(rows: Vec<Row>, positions: &Vec<usize>) -> (r: Vec<Row>)
    requires
        forall|i: int, k: int| 0 <= i < rows@.len() && 0 <= k < positions@.len() ==> #[trigger] positions@[k] < (#[trigger] rows@[i])@.len(),
    ensures
        rows_view(r@) == project_spec(rows_view(rows@), Seq::new(positions@.len(), |k: int| positions@[k] as int)),
{
    let ghost ps = Seq::new(positions@.len(), |k: int| positions@[k] as int);
    let ghost rs = rows_view(rows@);
    let mut out: Vec<Row> = Vec::new();
    let mut i: usize = 0;
    while i < rows.len()
        invariant
            0 <= i <= rows@.len(),
            rs == rows_view(rows@),
            ps == Seq::new(positions@.len(), |k: int| positions@[k] as int),
            forall|a: int, k: int| 0 <= a < rows@.len() && 0 <= k < positions@.len() ==> #[trigger] positions@[k] < (#[trigger] rows@[a])@.len(),
            rows_view(out@) == project_spec(rs, ps).take(i as int),
        decreases rows@.len() - i,
    {
        let row = &rows[i];
        assert(row@ == rs[i as int]);
        assert forall|q: int| 0 <= q < positions@.len() implies positions@[q] < row@.len() by {
            assert(positions@[q] < rows@[i as int]@.len());
        }
        let mut vals: Vec<Value> = Vec::new();
        let mut k: usize = 0;
        while k < positions.len()
            invariant
                0 <= k <= positions@.len(),
                0 <= i < rows@.len(),
                rs == rows_view(rows@),
                ps == Seq::new(positions@.len(), |k: int| positions@[k] as int),
                row@ == rs[i as int],
                row@.len() == row.values@.len(),
                forall|q: int| 0 <= q < positions@.len() ==> positions@[q] < row@.len(),
                values_view(vals@) == cells_at(rs[i as int], ps).take(k as int),
            decreases positions@.len() - k,
        {
            let ghost before = values_view(vals@);
            vals.push(row.values[positions[k]].copy());
            assert(values_view(vals@) =~= before.push(row@[positions@[k as int] as int]));
            assert(values_view(vals@) =~= cells_at(rs[i as int], ps).take(k + 1));
            k = k + 1;
        }
        assert(cells_at(rs[i as int], ps).take(positions@.len() as int) =~= cells_at(rs[i as int], ps));
        let ghost before = rows_view(out@);
        let nr = Row::new(vals);
        assert(nr@ == cells_at(rs[i as int], ps));
        out.push(nr);
        assert(rows_view(out@) =~= before.push(cells_at(rs[i as int], ps)));
        assert(project_spec(rs, ps)[i as int] == cells_at(rs[i as int], ps));
        assert(rows_view(out@) =~= project_spec(rs, ps).take(i + 1));
        i = i + 1;
    }
    assert(project_spec(rs, ps).take(rows@.len() as int) =~= project_spec(rs, ps));
    out
}

/// Keeps the first `n` rows.
pub fn limit_rows(rows: Vec<Row>, n: Option<usize>) -> (r: Vec<Row>)
    ensures
        rows_view(r@) == limit_spec(rows_view(rows@), n),
{
    let mut rows = rows;
    match n {
        Some(k) => {
            let ghost before = rows_view(rows@);
            if k < rows.len() {
                rows.truncate(k);
                assert(rows_view(rows@) =~= before.take(k as int));
            }
            rows
        },
        None => rows,
    }
}

/// The positions of the columns `names` in `schema`, failing with
/// `InvalidInput` at the first that does not exist.
pub fn column_indices(schema: &TableSchema, names: &Vec<String>) -> (r: Result<Vec<usize>, DbError>)
    ensures
        match column_positions(schema@.columns, strings_view(names@)) {
            Some(ps) => r matches Ok(v) && v@.len() == ps.len() && forall|k: int| 0 <= k < ps.len() ==> (#[trigger] v@[k]) as int == ps[k],
            None => r == Err::<Vec<usize>, DbError>(DbError::InvalidInput),
        },
        r matches Ok(v) ==> forall|k: int| 0 <= k < v@.len() ==> (#[trigger] v@[k]) < schema@.columns.len(),
{
    let ghost cols = schema@.columns;
    let ghost ns = strings_view(names@);
    let mut out: Vec<usize> = Vec::new();
    let mut i: usize = 0;
    assert(ns.take(0) =~= Seq::<Seq<char>>::empty());
    while i < names.len()
        invariant
            0 <= i <= names@.len(),
            ns == strings_view(names@),
            cols == schema@.columns,
            column_positions(cols, ns.take(i as int)) == Some(Seq::new(out@.len(), |k: int| out@[k] as int)),
            out@.len() == i,
            forall|k: int| 0 <= k < out@.len() ==> (#[trigger] out@[k]) < cols.len(),
        decreases names@.len() - i,
    {
        assert(ns.take(i + 1).drop_last() =~= ns.take(i as int));
        assert(ns.take(i + 1).last() == names@[i as int]@);
        match schema.get_column_index(names[i].as_str()) {
            Some(c) => {
                let ghost before = Seq::new(out@.len(), |k: int| out@[k] as int);
                out.push(c);
                assert(Seq::new(out@.len(), |k: int| out@[k] as int) =~= before.push(c as int));
            },
            None => {
                proof {
                    crate::database::lemma_column_positions_none(cols, ns, (i + 1) as nat);
                }
                return Err(DbError::InvalidInput);
            },
        }
        i = i + 1;
    }
    assert(ns.take(names@.len() as int) =~= ns);
    Ok(out)
}

/// The index is over exactly the one column `col`.
pub open spec fn covers_only(idx: IndexDefV, col: Seq<char>) -> bool {
    idx.columns.len() == 1 && idx.columns[0] == col
}

/// The first index over exactly the one column `col`, if any.
pub open spec fn first_index_on(indexes: Seq<IndexDefV>, col: Seq<char>) -> Option<int> {
    if exists|i: int| 0 <= i < indexes.len() && covers_only(#[trigger] indexes[i], col) {
        Some(choose|i: int| 0 <= i < indexes.len() && covers_only(#[trigger] indexes[i], col)
            && forall|j: int| 0 <= j < i ==> !covers_only(#[trigger] indexes[j], col))
    } else {
        None
    }
}

/// The position of the first index of `schema` over exactly the one column
/// `column`.
pub fn index_on_column(schema: &TableSchema, column: &str) -> (r: Option<usize>)
    ensures
        match first_index_on(schema@.indexes, column@) {
            Some(i) => r == Some(i as usize),
            None => r is None,
        },
        r matches Some(i) ==> i < schema@.indexes.len() && first_index_on(schema@.indexes, column@) == Some(i as int),
{
    let ghost ix = schema@.indexes;
    let mut k: usize = 0;
    while k < schema.indexes.len()
        invariant
            0 <= k <= ix.len(),
            ix == schema@.indexes,
            forall|j: int| 0 <= j < k ==> !covers_only(#[trigger] ix[j], column@),
        decreases ix.len() - k,
    {
        let idx = &schema.indexes[k];
        assert(idx@ == ix[k as int]);
        if idx.columns.len() == 1 && str_equal(idx.columns[0].as_str(), column) {
            assert(covers_only(ix[k as int], column@));
            proof {
                let c = choose|i: int| 0 <= i < ix.len() && covers_only(#[trigger] ix[i], column@)
                    && forall|j: int| 0 <= j < i ==> !covers_only(#[trigger] ix[j], column@);
                assert(0 <= c < ix.len() && covers_only(ix[c], column@) && forall|j: int| 0 <= j < c ==> !covers_only(#[trigger] ix[j], column@));
                if c < k {
                } else if c > k {
                    assert(!covers_only(ix[k as int], column@));
                }
            }
            return Some(k);
        }
        assert(!covers_only(ix[k as int], column@));
        k = k + 1;
    }
    None
}

/// What a query makes of the rows it fetched from a table with columns
/// `cols`: ordered by `order_by`, cut to `limit`, then cut down to the
/// selected `columns` (all of them when none are selected). A missing column
/// is `InvalidInput`.
pub open spec fn finish_spec(
    cols: Seq<ColumnV>,
    rows: Seq<Seq<ValueV>>,
    order_by: Option<(Seq<char>, OrderDirection)>,
    limit: Option<usize>,
    columns: Seq<Seq<char>>,
) -> Result<Seq<Seq<ValueV>>, DbError> {
    let ordered = match order_by {
        Some((c, d)) => match column_position(cols, c) {
            Some(ci) => Ok(sort_spec(rows, ci, d)),
            None => Err(DbError::InvalidInput),
        },
        None => Ok(rows),
    };
    match ordered {
        Ok(o) => {
            let cut = limit_spec(o, limit);
            if columns.len() == 0 {
                Ok(cut)
            } else {
                match column_positions(cols, columns) {
                    Some(ps) => Ok(project_spec(cut, ps)),
                    None => Err(DbError::InvalidInput),
                }
            }
        },
        Err(e) => Err(e),
    }
}

/// Every row has `w` cells.
pub open spec fn rows_of_width(rows: Seq<Seq<ValueV>>, w: int) -> bool {
    forall|i: int| 0 <= i < rows.len() ==> (#[trigger] rows[i]).len() == w
}

/// Orders, cuts and projects the rows fetched from the table of `schema`.
pub fn finish_rows(
    schema: &TableSchema,
    rows: Vec<Row>,
    order_by: &Option<(String, OrderDirection)>,
    limit: Option<usize>,
    columns: &Vec<String>,
) -> (r: Result<Vec<Row>, DbError>)
    requires
        rows_of_width(rows_view(rows@), schema@.columns.len() as int),
    ensures
        match finish_spec(schema@.columns, rows_view(rows@), match order_by {
            Some((c, d)) => Some((c@, *d)),
            None => None,
        }, limit, strings_view(columns@)) {
            Ok(v) => r matches Ok(x) && rows_view(x@) == v,
            Err(e) => r == Err::<Vec<Row>, DbError>(e),
        },
{
    let ghost w = schema@.columns.len() as int;
    let ghost rs = rows_view(rows@);
    let ordered = match order_by {
        Some((c, d)) => match schema.get_column_index(c.as_str()) {
            Some(ci) => {
                proof {
                    crate::schema::table_schema::lemma_column_position_first(schema@.columns, c@);
                }
                sort_rows(rows, ci, *d)
            },
            None => return Err(DbError::InvalidInput),
        },
        None => rows,
    };
    proof {
        match order_by {
            Some((c, d)) => {
                lemma_sort_permutes(rs, column_position(schema@.columns, c@).unwrap(), *d);
                lemma_sort_members(rs, column_position(schema@.columns, c@).unwrap(), *d);
                let srt = sort_spec(rs, column_position(schema@.columns, c@).unwrap(), *d);
                assert forall|i: int| 0 <= i < srt.len() implies (#[trigger] srt[i]).len() == w by {
                    assert(rs.contains(srt[i]));
                }
            },
            None => {},
        }
    }
    let ghost os = rows_view(ordered@);
    let cut = limit_rows(ordered, limit);
    assert forall|i: int| 0 <= i < rows_view(cut@).len() implies (#[trigger] rows_view(cut@)[i]).len() == w by {
        assert(rows_view(cut@)[i] == os[i]);
    }
    if columns.len() == 0 {
        return Ok(cut);
    }
    let positions = match column_indices(schema, columns) {
        Ok(p) => p,
        Err(e) => return Err(e),
    };
    assert forall|i: int, k: int| 0 <= i < cut@.len() && 0 <= k < positions@.len() implies #[trigger] positions@[k] < (#[trigger] cut@[i])@.len() by {
        assert(rows_view(cut@)[i] == cut@[i]@);
    }
    let ghost ps = Seq::new(positions@.len(), |k: int| positions@[k] as int);
    let out = project_rows(cut, &positions);
    assert(ps =~= column_positions(schema@.columns, strings_view(columns@)).unwrap());
    Ok(out)
}

/// The rows of a fetch result as plain values.
pub open spec fn rows_result(r: Result<Vec<Row>, DbError>) -> Result<Seq<Seq<ValueV>>, DbError> {
    match r {
        Ok(v) => Ok(rows_view(v@)),
        Err(e) => Err(e),
    }
}

/// `rows` is what fetching table `t` with the filter `w` gives on the pages
/// of `db`: rows of the table's width; without a filter, the rows a scan of
/// the table finds; with an equality filter on a column that a one-column
/// index covers, the rows that looking the value up in the first such index
/// finds; with any other filter, the rows of a scan that pass it, in scan
/// order.
pub open spec fn fetched_from(db: Database, t: TableSchemaV, w: Option<WhereClauseV>, rows: Seq<Seq<ValueV>>) -> bool {
    &&& rows_of_width(rows, t.columns.len() as int)
    &&& match w {
        None => table_rows(db, t, rows),
        Some(wc) => if wc.op == CompareOp::Eq && first_index_on(t.indexes, wc.column) is Some {
            index_lookup_rows(db, t, t.indexes[first_index_on(t.indexes, wc.column).unwrap()].name, crate::value::values_bytes(seq![wc.value]), rows)
        } else {
            exists|all: Seq<Seq<ValueV>>|
                rows_of_width(all, t.columns.len() as int) && #[trigger] table_rows(db, t, all) && rows == filter_spec(
                    all,
                    column_position(t.columns, wc.column).unwrap(),
                    wc.op,
                    wc.value,
                )
        },
    }
}

/// The outcome of fetching the rows of the table called `name` with the
/// filter `w` from `db`: `NotFound` without such a table, `InvalidInput`
/// when the filter's column is missing, and otherwise, on success, the rows
/// that `fetched_from` describes.
pub open spec fn fetch_outcome(db: Database, name: Seq<char>, w: Option<WhereClauseV>, r: Result<Seq<Seq<ValueV>>, DbError>) -> bool {
    match table_named(db.tables(), name) {
        None => r == Err::<Seq<Seq<ValueV>>, DbError>(DbError::NotFound),
        Some(t) => {
            &&& (w matches Some(wc) && column_position(t.columns, wc.column) is None) ==> r == Err::<Seq<Seq<ValueV>>, DbError>(
                DbError::InvalidInput,
            )
            &&& r matches Ok(rows) ==> fetched_from(db, t, w, rows)
            &&& fetch_readable(db, t, w) ==> r is Ok
        },
    }
}

/// The rows of table `t` that the filter `w` lets through can be fetched on
/// the pages of `db`: the filter's column exists; an equality on a column
/// that a one-column index covers reads through that index (found by its
/// name), and the lookup gets through; any other filter, or none, reads a
/// scan of the table, which gets through.
pub open spec fn fetch_readable(db: Database, t: TableSchemaV, w: Option<WhereClauseV>) -> bool {
    let fuel = db.header_view().total_pages as nat;
    match w {
        Some(wc) => column_position(t.columns, wc.column) is Some && if wc.op == CompareOp::Eq && first_index_on(
            t.indexes,
            wc.column,
        ) is Some {
            let k = first_index_on(t.indexes, wc.column).unwrap();
            match crate::schema::table_schema::index_position(t.indexes, t.indexes[k].name) {
                Some(kp) => crate::database::index_lookup_readable(db, t, kp, crate::value::values_bytes(seq![wc.value]), fuel),
                None => false,
            }
        } else {
            crate::database::scan_decodes(db, t, fuel)
        },
        None => crate::database::scan_decodes(db, t, fuel),
    }
}

/// Ordering, cutting and projecting rows of a table with columns `cols`
/// succeeds: the ordering column, if any, and the selected columns exist.
pub open spec fn finish_ok(cols: Seq<ColumnV>, order_by: Option<(Seq<char>, OrderDirection)>, columns: Seq<Seq<char>>) -> bool {
    &&& order_by matches Some((c, _)) ==> column_position(cols, c) is Some
    &&& columns.len() > 0 ==> column_positions(cols, columns) is Some
}

/// Two schemas of the same table that agree on everything but its counters
/// and the root pages of the table and of its indexes.
pub open spec fn same_shape(a: TableSchemaV, b: TableSchemaV) -> bool {
    &&& a.name == b.name && a.columns == b.columns && a.primary_key == b.primary_key
    &&& a.indexes.len() == b.indexes.len()
    &&& forall|j: int| 0 <= j < a.indexes.len() ==> {
        &&& #[trigger] a.indexes[j].name == b.indexes[j].name
        &&& a.indexes[j].columns == b.indexes[j].columns
        &&& a.indexes[j].unique == b.indexes[j].unique
    }
}

/// The table called `name` has the shape of `t`.
pub open spec fn shaped_like(ts: Seq<TableSchemaV>, name: Seq<char>, t: TableSchemaV) -> bool {
    &&& names_distinct(ts)
    &&& table_named(ts, name) matches Some(u) && same_shape(u, t)
}

/// Replacing the table called `name` by one of the same shape keeps it
/// shaped like `t`.
proof fn lemma_shape_kept(ts: Seq<TableSchemaV>, name: Seq<char>, t: TableSchemaV, i: int, u: TableSchemaV)
    requires
        shaped_like(ts, name, t),
        table_at(ts, name, i),
        same_shape(u, ts[i]),
    ensures
        shaped_like(ts.update(i, u), name, t),
{
    crate::database::lemma_table_named_at(ts, name, i);
    let us = ts.update(i, u);
    assert(names_distinct(us));
    assert(table_at(us, name, i));
    crate::database::lemma_table_named_at(us, name, i);
}

/// The names of the columns that an update sets.
pub open spec fn set_names(sets: Seq<(Seq<char>, ValueV)>) -> Seq<Seq<char>> {
    Seq::new(sets.len(), |i: int| sets[i].0)
}

/// The outcome of an update of the table called `name` in `db`: the errors
/// of the fetch; on success, one updated row for each fetched row, which
/// takes the key columns and the columns set to exist.
pub open spec fn update_outcome(db: Database, name: Seq<char>, q: QueryV, r: Result<usize, DbError>) -> bool {
    match table_named(db.tables(), name) {
        None => r == Err::<usize, DbError>(DbError::NotFound),
        Some(t) => {
            &&& (q.where_clause matches Some(wc) && column_position(t.columns, wc.column) is None) ==> r == Err::<usize, DbError>(
                DbError::InvalidInput,
            )
            &&& r matches Ok(n) ==> exists|rows: Seq<Seq<ValueV>>|
                fetched_from(db, t, q.where_clause, rows) && n == rows.len() && (n > 0 ==> column_positions(t.columns, t.primary_key) is Some
                    && column_positions(t.columns, set_names(q.set_clauses)) is Some)
        },
    }
}

/// What an insert of the row `row` into the table called `name` of `db`
/// answers: `NotFound` without such a table, `InvalidInput` for a row
/// without one cell per column, the error of filling in auto-increment
/// cells; on success no unique index already held the row's indexed
/// cells; and it succeeds for a row without cells to fill into a table
/// without indexes whose tree takes the row without a split.
pub open spec fn insert_answer(db: Database, name: Seq<char>, row: Seq<ValueV>, r: Result<(), DbError>) -> bool {
    match table_named(db.tables(), name) {
        None => r == Err::<(), DbError>(DbError::NotFound),
        Some(t) => {
            &&& row.len() != t.columns.len() ==> r == Err::<(), DbError>(DbError::InvalidInput)
            &&& row.len() == t.columns.len() ==> (crate::database::autofill(t.columns, row, t.auto_increment, 0) matches Err(e)
                ==> r == Err::<(), DbError>(e))
            &&& r is Ok ==> forall|j: int|
                0 <= j < t.indexes.len() && t.indexes[j].unique ==> #[trigger] crate::database::unique_clear(
                    db,
                    t,
                    crate::database::filled_row(t, row),
                    j,
                )
            &&& row.len() == t.columns.len() && crate::database::no_autofill(t.columns, row) && t.indexes.len() == 0 && (
            crate::database::pk_key_of(t, row) matches Ok(k) && crate::database::insert_fits(
                db,
                t.root_page,
                k,
                crate::row::row_bytes(row, t.columns.len()),
                db.header_view().total_pages as nat,
            )) ==> r is Ok
        },
    }
}

/// `row` with its cells at `ps` set, in turn, to `vs` (the first `k` of
/// them): a later setting of the same cell wins.
pub open spec fn set_cells(row: Seq<ValueV>, ps: Seq<int>, vs: Seq<ValueV>, k: nat) -> Seq<ValueV>
    decreases k,
{
    if k == 0 {
        row
    } else {
        set_cells(row, ps, vs, (k - 1) as nat).update(ps[k - 1], vs[k - 1])
    }
}

/// Setting cells keeps the row's length; each cell set by no later setting
/// holds the value it was set to, and every cell that no setting names keeps
/// its value.
pub proof fn lemma_set_cells(row: Seq<ValueV>, ps: Seq<int>, vs: Seq<ValueV>, k: nat)
    requires
        k <= ps.len(),
        k <= vs.len(),
        forall|j: int| 0 <= j < k ==> 0 <= #[trigger] ps[j] < row.len(),
    ensures
        set_cells(row, ps, vs, k).len() == row.len(),
        forall|j: int|
            0 <= j < k && (forall|l: int| j < l < k ==> ps[l] != ps[j]) ==> #[trigger] set_cells(row, ps, vs, k)[ps[j]] == vs[j],
        forall|p: int| 0 <= p < row.len() && (forall|j: int| 0 <= j < k ==> ps[j] != p) ==> #[trigger] set_cells(row, ps, vs, k)[p] == row[p],
    decreases k,
{
    if k > 0 {
        lemma_set_cells(row, ps, vs, (k - 1) as nat);
        let prev = set_cells(row, ps, vs, (k - 1) as nat);
        assert forall|j: int|
            0 <= j < k && (forall|l: int| j < l < k ==> ps[l] != ps[j]) implies #[trigger] set_cells(row, ps, vs, k)[ps[j]] == vs[j] by {
            if j < k - 1 {
                assert(ps[k - 1] != ps[j]);
                assert(forall|l: int| j < l < k - 1 ==> ps[l] != ps[j]);
                assert(prev[ps[j]] == vs[j]);
            }
        }
        assert forall|p: int| 0 <= p < row.len() && (forall|j: int| 0 <= j < k ==> ps[j] != p) implies #[trigger] set_cells(row, ps, vs, k)[p]
            == row[p] by {
            assert(ps[k - 1] != p);
            assert(forall|j: int| 0 <= j < k - 1 ==> ps[j] != p);
        }
    }
}

/// How many of `s` are `true`.
pub open spec fn count_true(s: Seq<bool>) -> nat
    decreases s.len(),
{
    if s.len() == 0 {
        0
    } else {
        count_true(s.drop_last()) + if s.last() { 1nat } else { 0nat }
    }
}

/// The primary key of `row` in table `t` (empty when a key column is
/// missing).
pub open spec fn row_key(t: TableSchemaV, row: Seq<ValueV>) -> Seq<u8> {
    match crate::database::pk_key_of(t, row) {
        Ok(k) => k,
        Err(_) => Seq::empty(),
    }
}

/// The key a builder deletes a row by is the one `Database::insert` stores
/// it under: the encodings of the row's cells in the primary-key columns,
/// each key column in the order the key lists them.
pub proof fn lemma_row_key(t: TableSchemaV, row: Seq<ValueV>)
    requires
        column_positions(t.columns, t.primary_key) is Some,
    ensures
        crate::database::pk_key_of(t, row) == Ok::<Seq<u8>, DbError>(row_key(t, row)),
        row_key(t, row) == crate::value::values_bytes(
            Seq::new(t.primary_key.len(), |k: int| row[column_position(t.columns, t.primary_key[k]).unwrap()]),
        ),
{
    lemma_positions_each(t.columns, t.primary_key);
    let ps = column_positions(t.columns, t.primary_key).unwrap();
    assert(cells_at(row, ps) =~= Seq::new(t.primary_key.len(), |k: int| row[column_position(t.columns, t.primary_key[k]).unwrap()]));
}

/// `Database::delete` of `key` from the table called `name`, run on `a`,
/// succeeded with answer `found` and left `b`: the table's count is one
/// less when the key was found and the schemas are otherwise as they were;
/// the key is then gone and `found` says whether its leaf held it, when
/// that leaf has distinct keys and no index page is shared with it; and a
/// table without indexes whose leaf keeps its keys in order keeps every
/// other key.
pub open spec fn delete_step(a: Database, b: Database, name: Seq<char>, key: Seq<u8>, found: bool) -> bool {
    let fuel = a.header_view().total_pages as nat;
    &&& b.inv()
    &&& b.header_view().total_pages == a.header_view().total_pages
    &&& !found ==> b.tables() == a.tables()
    &&& found ==> forall|i: int| table_at(a.tables(), name, i) ==> b.tables() == a.tables().update(i, TableSchemaV {
        row_count: if a.tables()[i].row_count > 0 { (a.tables()[i].row_count - 1) as u64 } else { 0 },
        ..a.tables()[i]
    })
    &&& match table_named(a.tables(), name) {
        Some(t) => {
            &&& crate::database::descent_leaf_distinct(a, t.root_page, key, fuel) && crate::database::delete_apart(a, t, key) ==> (
            crate::database::tree_holds(b, t.root_page, key, fuel, None) && found == crate::database::leaf_has_key(a, t.root_page, key, fuel))
            &&& t.indexes.len() == 0 && crate::database::descent_leaf_sorted(a, t.root_page, key, fuel) ==> forall|k2: Seq<u8>|
                k2 != key && (#[trigger] crate::database::tree_lookup(a, t.root_page, k2, fuel)) is Some
                    ==> crate::database::tree_lookup(b, t.root_page, k2, fuel) == crate::database::tree_lookup(a, t.root_page, k2, fuel)
        },
        None => false,
    }
}

/// A builder delete from `db0` took `rows` (what its filter fetches), and
/// deleted their primary keys in turn through the states `sts`, from one
/// with the schemas of `db0` to `db1`, finding the keys as `found` says;
/// `n` is how many it found.
pub open spec fn delete_trace(
    db0: Database,
    db1: Database,
    name: Seq<char>,
    t: TableSchemaV,
    w: Option<WhereClauseV>,
    rows: Seq<Seq<ValueV>>,
    sts: Seq<Database>,
    found: Seq<bool>,
    n: nat,
) -> bool {
    &&& fetched_from(db0, t, w, rows)
    &&& sts.len() == rows.len() + 1
    &&& found.len() == rows.len()
    &&& sts[0].tables() == db0.tables()
    &&& sts.last() == db1
    &&& forall|j: int| 0 <= j < rows.len() ==> #[trigger] delete_step(sts[j], sts[j + 1], name, row_key(t, rows[j]), found[j])
    &&& n == count_true(found)
}

/// What a successful builder delete on the table called `name` leaves.
pub open spec fn delete_done(db0: Database, db1: Database, name: Seq<char>, q: QueryV, n: usize) -> bool {
    match table_named(db0.tables(), name) {
        Some(t) => exists|rows: Seq<Seq<ValueV>>, sts: Seq<Database>, found: Seq<bool>|
            #[trigger] delete_trace(db0, db1, name, t, q.where_clause, rows, sts, found, n as nat),
        None => false,
    }
}

/// The values that the SET clauses `sets` give, in order.
pub open spec fn set_values(sets: Seq<(Seq<char>, ValueV)>) -> Seq<ValueV> {
    Seq::new(sets.len(), |i: int| sets[i].1)
}

/// The row that an update with SET clauses `sets` makes of `row` in table
/// `t`: each named column set, in turn, to its clause's value.
pub open spec fn updated_row(t: TableSchemaV, sets: Seq<(Seq<char>, ValueV)>, row: Seq<ValueV>) -> Seq<ValueV> {
    match column_positions(t.columns, set_names(sets)) {
        Some(ps) => set_cells(row, ps, set_values(sets), sets.len()),
        None => row,
    }
}

/// Each position that `column_positions` gives is the position of the
/// column of that name.
proof fn lemma_positions_each(cols: Seq<ColumnV>, names: Seq<Seq<char>>)
    requires
        column_positions(cols, names) is Some,
    ensures
        column_positions(cols, names).unwrap().len() == names.len(),
        forall|k: int| 0 <= k < names.len() ==> column_position(cols, #[trigger] names[k]) == Some(column_positions(cols, names).unwrap()[k]),
    decreases names.len(),
{
    if names.len() > 0 {
        lemma_positions_each(cols, names.drop_last());
        let ps = column_positions(cols, names).unwrap();
        assert forall|k: int| 0 <= k < names.len() implies column_position(cols, #[trigger] names[k]) == Some(ps[k]) by {
            if k < names.len() - 1 {
                assert(names.drop_last()[k] == names[k]);
            }
        }
    }
}

/// An update sets, in the updated row, each column named by a SET clause
/// that no later clause names again to that clause's value, keeps every
/// column that no clause names, and keeps the row's length.
pub proof fn lemma_updated_row(t: TableSchemaV, sets: Seq<(Seq<char>, ValueV)>, row: Seq<ValueV>)
    requires
        column_positions(t.columns, set_names(sets)) is Some,
        row.len() == t.columns.len(),
    ensures
        updated_row(t, sets, row).len() == row.len(),
        forall|j: int|
            0 <= j < sets.len() && (forall|l: int| j < l < sets.len() ==> sets[l].0 != sets[j].0) ==> updated_row(t, sets, row)[column_position(
                t.columns,
                #[trigger] sets[j].0,
            ).unwrap()] == sets[j].1,
        forall|p: int|
            0 <= p < row.len() && (forall|j: int| 0 <= j < sets.len() ==> sets[j].0 != t.columns[p].name) ==> #[trigger] updated_row(
                t,
                sets,
                row,
            )[p] == row[p],
{
    let names = set_names(sets);
    let ps = column_positions(t.columns, names).unwrap();
    lemma_positions_each(t.columns, names);
    crate::database::lemma_column_positions_in(t.columns, names);
    assert forall|j: int| 0 <= j < sets.len() implies column_position(t.columns, sets[j].0) == Some(ps[j]) && t.columns[ps[j]].name
        == sets[j].0 by {
        assert(names[j] == sets[j].0);
        crate::schema::table_schema::lemma_column_position_first(t.columns, sets[j].0);
    }
    assert forall|j: int| 0 <= j < sets.len() implies 0 <= #[trigger] ps[j] < row.len() by {
        assert(column_position(t.columns, sets[j].0) == Some(ps[j]));
        crate::schema::table_schema::lemma_column_position_first(t.columns, sets[j].0);
    }
    lemma_set_cells(row, ps, set_values(sets), sets.len());
    assert forall|j: int|
        0 <= j < sets.len() && (forall|l: int| j < l < sets.len() ==> sets[l].0 != sets[j].0) implies updated_row(t, sets, row)[column_position(
            t.columns,
            #[trigger] sets[j].0,
        ).unwrap()] == sets[j].1 by {
        assert forall|l: int| j < l < sets.len() implies ps[l] != ps[j] by {
            assert(t.columns[ps[l]].name == sets[l].0);
            assert(t.columns[ps[j]].name == sets[j].0);
        }
        assert(set_values(sets)[j] == sets[j].1);
    }
    assert forall|p: int|
        0 <= p < row.len() && (forall|j: int| 0 <= j < sets.len() ==> sets[j].0 != t.columns[p].name) implies #[trigger] updated_row(
        t,
        sets,
        row,
    )[p] == row[p] by {
        assert forall|j: int| 0 <= j < sets.len() implies ps[j] != p by {
            assert(t.columns[ps[j]].name == sets[j].0);
        }
    }
}

/// Selecting columns by name keeps every row and gives, for each selected
/// name in order, the row's cell in the column of that name.
pub proof fn lemma_project_named(cols: Seq<ColumnV>, names: Seq<Seq<char>>, rows: Seq<Seq<ValueV>>)
    requires
        column_positions(cols, names) is Some,
    ensures
        project_spec(rows, column_positions(cols, names).unwrap()).len() == rows.len(),
        forall|i: int, k: int|
            0 <= i < rows.len() && 0 <= k < names.len() ==> (#[trigger] project_spec(rows, column_positions(cols, names).unwrap())[i])[k]
                == rows[i][column_position(cols, #[trigger] names[k]).unwrap()],
        forall|i: int| 0 <= i < rows.len() ==> (#[trigger] project_spec(rows, column_positions(cols, names).unwrap())[i]).len() == names.len(),
{
    lemma_positions_each(cols, names);
}

/// `Database::insert` of `row` into the table called `name`, run on `a`,
/// succeeded and left `b`.
pub open spec fn insert_step(a: Database, b: Database, name: Seq<char>, row: Seq<ValueV>) -> bool {
    &&& b.inv()
    &&& insert_effect(a, b, name, row, Ok(()))
}

/// Step `j` of an update through the states `sts`: the `j`-th fetched row
/// deleted by its key, then its updated row inserted.
pub open spec fn update_pair(
    sts: Seq<Database>,
    j: int,
    name: Seq<char>,
    t: TableSchemaV,
    sets: Seq<(Seq<char>, ValueV)>,
    rows: Seq<Seq<ValueV>>,
    found: Seq<bool>,
) -> bool {
    &&& delete_step(sts[2 * j], sts[2 * j + 1], name, row_key(t, rows[j]), found[j])
    &&& insert_step(sts[2 * j + 1], sts[2 * j + 2], name, updated_row(t, sets, rows[j]))
}

/// A builder update from `db0` took `rows` (what its filter fetches), and
/// for each in turn deleted it by its primary key and inserted its updated
/// row, through the states `sts`, from one with the schemas of `db0` to
/// `db1`; `n` is the number of rows.
pub open spec fn update_trace(
    db0: Database,
    db1: Database,
    name: Seq<char>,
    t: TableSchemaV,
    q: QueryV,
    rows: Seq<Seq<ValueV>>,
    sts: Seq<Database>,
    found: Seq<bool>,
    n: nat,
) -> bool {
    &&& fetched_from(db0, t, q.where_clause, rows)
    &&& sts.len() == 2 * rows.len() + 1
    &&& found.len() == rows.len()
    &&& sts[0].tables() == db0.tables()
    &&& sts.last() == db1
    &&& forall|j: int| 0 <= j < rows.len() ==> #[trigger] update_pair(sts, j, name, t, q.set_clauses, rows, found)
    &&& n == rows.len()
}

/// What a successful builder update on the table called `name` leaves.
pub open spec fn update_done(db0: Database, db1: Database, name: Seq<char>, q: QueryV, n: usize) -> bool {
    match table_named(db0.tables(), name) {
        Some(t) => exists|rows: Seq<Seq<ValueV>>, sts: Seq<Database>, found: Seq<bool>|
            #[trigger] update_trace(db0, db1, name, t, q, rows, sts, found, n as nat),
        None => false,
    }
}

/// What an insert into the table called `name` of `db0` that answered `r`
/// leaves in `db1`: on success, the table with one more row, its new roots
/// and counter; and the row stored under its key when the trees were
/// ready for it and apart from the catalog.
pub open spec fn insert_effect(db0: Database, db1: Database, name: Seq<char>, row: Seq<ValueV>, r: Result<(), DbError>) -> bool {
    match table_named(db0.tables(), name) {
        None => db1.tables() == db0.tables(),
        Some(t) => {
            &&& r is Ok ==> (crate::database::autofill(t.columns, row, t.auto_increment, 0) matches Ok(fc) && forall|i: int|
                #![trigger table_at(db0.tables(), name, i)]
                table_at(db0.tables(), name, i) ==> db1.tables() == db0.tables().update(
                    i,
                    crate::database::after_insert(
                        db0.tables()[i],
                        db1.tables()[i].root_page,
                        fc.1,
                        crate::database::index_roots(db1.tables()[i].indexes),
                    ),
                ))
            &&& r is Ok && crate::database::insert_ready(db0, t, crate::database::filled_row(t, row))
                && crate::database::insert_apart(db0, t, crate::database::filled_row(t, row)) ==> (table_named(db1.tables(), name) matches Some(
                t2,
            ) && crate::database::stored_row(
                db1,
                t2,
                crate::database::filled_row(t, row),
                db1.header_view().total_pages as nat,
            ))
        },
    }
}

/// The outcome of a delete from the table called `name` in `db`: the
/// errors of the fetch; on success, at most one deleted row for each
/// fetched row, whose key columns then exist.
pub open spec fn delete_outcome(db: Database, name: Seq<char>, q: QueryV, r: Result<usize, DbError>) -> bool {
    match table_named(db.tables(), name) {
        None => r == Err::<usize, DbError>(DbError::NotFound),
        Some(t) => {
            &&& (q.where_clause matches Some(wc) && column_position(t.columns, wc.column) is None) ==> r == Err::<usize, DbError>(
                DbError::InvalidInput,
            )
            &&& r matches Ok(n) ==> exists|rows: Seq<Seq<ValueV>>|
                fetched_from(db, t, q.where_clause, rows) && n <= rows.len() && (rows.len() > 0 ==> column_positions(
                    t.columns,
                    t.primary_key,
                ) is Some)
        },
    }
}

/// The outcome of a query on one table: the errors of the fetch; on
/// success, the fetched rows ordered, cut and projected.
pub open spec fn simple_outcome(db: Database, name: Seq<char>, q: QueryV, r: Result<QueryResult, DbError>) -> bool {
    match table_named(db.tables(), name) {
        None => r matches Err(e) && e == DbError::NotFound,
        Some(t) => {
            &&& (q.where_clause matches Some(wc) && column_position(t.columns, wc.column) is None) ==> (r matches Err(e) && e
                == DbError::InvalidInput)
            &&& r matches Ok(res) ==> res matches QueryResult::Simple(v) && exists|rows: Seq<Seq<ValueV>>|
                fetched_from(db, t, q.where_clause, rows) && finish_spec(t.columns, rows, q.order_by, q.limit, q.columns) == Ok::<
                    Seq<Seq<ValueV>>,
                    DbError,
                >(rows_view(v@))
            &&& fetch_readable(db, t, q.where_clause) && finish_ok(t.columns, q.order_by, q.columns) ==> r is Ok
        },
    }
}

/// The index through which a join reads its right table: the one the join
/// names, else the first index of the right table over exactly the right
/// column.
pub open spec fn join_index(ts: Seq<TableSchemaV>, j: JoinClauseV) -> Option<Seq<char>> {
    match j.index {
        Some(n) => Some(n),
        None => match table_named(ts, j.table) {
            Some(rt) => match first_index_on(rt.indexes, j.right_col) {
                Some(k) => Some(rt.indexes[k].name),
                None => None,
            },
            None => None,
        },
    }
}

/// Joined rows cut to at most `n` of them.
pub open spec fn limit_joined(rows: Seq<JoinedRowV>, n: Option<usize>) -> Seq<JoinedRowV> {
    match n {
        Some(k) => if k < rows.len() {
            rows.take(k as int)
        } else {
            rows
        },
        None => rows,
    }
}

/// The outcome of a query with one join `j` from the table called `left`:
/// a missing table is `NotFound`; without an index to read the right table
/// through, `InvalidInput`; then the errors of the index nested-loop join,
/// and on success its joined rows, cut to `limit`.
pub open spec fn join_outcome(db: Database, left: Seq<char>, j: JoinClauseV, limit: Option<usize>, r: Result<QueryResult, DbError>) -> bool {
    let ts = db.tables();
    &&& !has_table(ts, j.table) ==> (r matches Err(e) && e == DbError::NotFound)
    &&& (has_table(ts, j.table) && join_index(ts, j) is None) ==> (r matches Err(e) && e == DbError::InvalidInput)
    &&& (join_index(ts, j) is Some && !has_table(ts, left)) ==> (r matches Err(e) && e == DbError::NotFound)
    &&& match (join_index(ts, j), table_named(ts, left), table_named(ts, j.table)) {
        (Some(ix), Some(lt), Some(rt)) => {
            &&& (column_position(lt.columns, j.left_col) is None || column_position(rt.columns, j.right_col) is None) ==> (r matches Err(
                e,
            ) && e == DbError::InvalidInput)
            &&& (column_position(lt.columns, j.left_col) is Some && column_position(rt.columns, j.right_col) is Some
                && crate::schema::table_schema::index_position(rt.indexes, ix) is None) ==> (r matches Err(e) && e == DbError::NotFound)
            &&& r matches Ok(res) ==> res matches QueryResult::Joined(v) && exists|full: Seq<JoinedRowV>|
                index_join_rows(db, lt, rt, j.left_col, j.right_col, ix, j.join_type, full) && joined_view(v@) == limit_joined(
                    full,
                    limit,
                )
            &&& match (
                column_position(lt.columns, j.left_col),
                column_position(rt.columns, j.right_col),
                crate::schema::table_schema::index_position(rt.indexes, ix),
            ) {
                (Some(lc), Some(_), Some(k)) => crate::database::index_join_readable(
                    db,
                    lt,
                    rt,
                    lc,
                    k,
                    db.header_view().total_pages as nat,
                ) ==> r is Ok,
                _ => true,
            }
        },
        _ => true,
    }
}

/// A fluent query over a database.
pub struct QueryBuilder<'a> {
    pub db: &'a mut Database,
    pub table: Option<String>,
    pub columns: Vec<String>,
    pub joins: Vec<JoinClause>,
    pub where_clause: Option<WhereClause>,
    pub order_by: Option<(String, OrderDirection)>,
    pub limit: Option<usize>,
    pub values: Option<Vec<Value>>,
    pub set_clauses: Vec<(String, Value)>,
}

/// A join of a query as plain values.
pub struct JoinClauseV {
    pub join_type: JoinType,
    pub table: Seq<char>,
    pub left_col: Seq<char>,
    pub right_col: Seq<char>,
    pub index: Option<Seq<char>>,
}

/// A query as plain values.
pub struct QueryV {
    pub table: Option<Seq<char>>,
    pub columns: Seq<Seq<char>>,
    pub joins: Seq<JoinClauseV>,
    pub where_clause: Option<WhereClauseV>,
    pub order_by: Option<(Seq<char>, OrderDirection)>,
    pub limit: Option<usize>,
    pub values: Option<Seq<ValueV>>,
    pub set_clauses: Seq<(Seq<char>, ValueV)>,
}

/// An optional filter as plain values.
pub open spec fn where_view(o: Option<WhereClause>) -> Option<WhereClauseV> {
    match o {
        Some(w) => Some(w@),
        None => None,
    }
}

/// An optional string as plain characters.
pub open spec fn opt_str(o: Option<String>) -> Option<Seq<char>> {
    match o {
        Some(s) => Some(s@),
        None => None,
    }
}

spec fn join_view(j: JoinClause) -> JoinClauseV {
    JoinClauseV {
        join_type: j.join_type,
        table: j.table@,
        left_col: j.left_col@,
        right_col: j.right_col@,
        index: opt_str(j.index),
    }
}

impl<'a> QueryBuilder<'a> {
    /// The query as plain values.
    pub closed spec fn query(&self) -> QueryV {
        QueryV {
            table: opt_str(self.table),
            columns: strings_view(self.columns@),
            joins: Seq::new(self.joins@.len(), |i: int| join_view(self.joins@[i])),
            where_clause: where_view(self.where_clause),
            order_by: match self.order_by {
                Some((c, d)) => Some((c@, d)),
                None => None,
            },
            limit: self.limit,
            values: match self.values {
                Some(v) => Some(values_view(v@)),
                None => None,
            },
            set_clauses: Seq::new(self.set_clauses@.len(), |i: int| (self.set_clauses@[i].0@, self.set_clauses@[i].1@)),
        }
    }

    /// The database the query runs on.
    pub closed spec fn database(&self) -> Database {
        *self.db
    }

    /// An empty query over `db`.
    pub fn new(db: &'a mut Database) -> (q: Self)
        ensures
            q.database() == *old(db),
            q.query() == (QueryV {
                table: None,
                columns: Seq::empty(),
                joins: Seq::empty(),
                where_clause: None,
                order_by: None,
                limit: None,
                values: None,
                set_clauses: Seq::empty(),
            }),
    {
        let q = QueryBuilder {
            db,
            table: None,
            columns: Vec::new(),
            joins: Vec::new(),
            where_clause: None,
            order_by: None,
            limit: None,
            values: None,
            set_clauses: Vec::new(),
        };
        assert(q.query().columns =~= Seq::<Seq<char>>::empty());
        assert(q.query().joins =~= Seq::<JoinClauseV>::empty());
        assert(q.query().set_clauses =~= Seq::<(Seq<char>, ValueV)>::empty());
        q
    }

    /// Queries `table`.
    pub fn from(self, table: &str) -> (q: Self)
        ensures
            q.database() == self.database(),
            q.query() == (QueryV { table: Some(table@), ..self.query() }),
    {
        let mut q = self;
        q.table = Some(table.to_owned());
        q
    }

    /// Keeps only the columns `columns`, in that order.
    pub fn select(self, columns: &[&str]) -> (q: Self)
        ensures
            q.database() == self.database(),
            q.query() == (QueryV { columns: crate::codec::str_slices_view(columns@), ..self.query() }),
    {
        let mut q = self;
        let mut names: Vec<String> = Vec::new();
        let mut i: usize = 0;
        while i < columns.len()
            invariant
                0 <= i <= columns@.len(),
                strings_view(names@) == crate::codec::str_slices_view(columns@).take(i as int),
            decreases columns@.len() - i,
        {
            let ghost before = names@;
            names.push(columns[i].to_owned());
            assert(strings_view(before).len() == before.len());
            assert forall|k: int| 0 <= k < i implies strings_view(names@)[k] == crate::codec::str_slices_view(columns@)[k] by {
                assert(strings_view(before)[k] == crate::codec::str_slices_view(columns@).take(i as int)[k]);
            }
            assert(strings_view(names@) =~= crate::codec::str_slices_view(columns@).take(i + 1));
            i = i + 1;
        }
        assert(crate::codec::str_slices_view(columns@).take(columns@.len() as int) =~= crate::codec::str_slices_view(columns@));
        q.columns = names;
        q
    }

    fn add_join(self, join: JoinClause) -> (q: Self)
        ensures
            q.database() == self.database(),
            q.query() == (QueryV { joins: self.query().joins.push(join_view(join)), ..self.query() }),
    {
        let mut q = self;
        let ghost before = q.joins@;
        let ghost jv = join_view(join);
        q.joins.push(join);
        assert(q.query().joins =~= Seq::new(before.len(), |i: int| join_view(before[i])).push(jv));
        q
    }

    /// Adds an inner join with `table` on `left_col = right_col`.
    pub fn inner_join(self, table: &str, left_col: &str, right_col: &str) -> (q: Self)
        ensures
            q.database() == self.database(),
            q.query() == (QueryV {
                joins: self.query().joins.push(JoinClauseV {
                    join_type: JoinType::Inner,
                    table: table@,
                    left_col: left_col@,
                    right_col: right_col@,
                    index: None,
                }),
                ..self.query()
            }),
    {
        self.add_join(JoinClause {
            join_type: JoinType::Inner,
            table: table.to_owned(),
            left_col: left_col.to_owned(),
            right_col: right_col.to_owned(),
            index: None,
        })
    }

    /// Adds an inner join that uses the index `index` of `table`.
    pub fn inner_join_indexed(self, table: &str, left_col: &str, right_col: &str, index: &str) -> (q: Self)
        ensures
            q.database() == self.database(),
            q.query() == (QueryV {
                joins: self.query().joins.push(JoinClauseV {
                    join_type: JoinType::Inner,
                    table: table@,
                    left_col: left_col@,
                    right_col: right_col@,
                    index: Some(index@),
                }),
                ..self.query()
            }),
    {
        self.add_join(JoinClause {
            join_type: JoinType::Inner,
            table: table.to_owned(),
            left_col: left_col.to_owned(),
            right_col: right_col.to_owned(),
            index: Some(index.to_owned()),
        })
    }

    /// Adds a left outer join with `table` on `left_col = right_col`.
    pub fn left_join(self, table: &str, left_col: &str, right_col: &str) -> (q: Self)
        ensures
            q.database() == self.database(),
            q.query() == (QueryV {
                joins: self.query().joins.push(JoinClauseV {
                    join_type: JoinType::LeftOuter,
                    table: table@,
                    left_col: left_col@,
                    right_col: right_col@,
                    index: None,
                }),
                ..self.query()
            }),
    {
        self.add_join(JoinClause {
            join_type: JoinType::LeftOuter,
            table: table.to_owned(),
            left_col: left_col.to_owned(),
            right_col: right_col.to_owned(),
            index: None,
        })
    }

    /// Filters on `column = value` (replacing any earlier filter).
    pub fn where_eq(self, column: &str, value: Value) -> (q: Self)
        ensures
            q.database() == self.database(),
            q.query() == (QueryV {
                where_clause: Some(WhereClauseV { column: column@, op: CompareOp::Eq, value: value@ }),
                ..self.query()
            }),
    {
        let mut q = self;
        q.where_clause = Some(WhereClause::new(column, CompareOp::Eq, value));
        q
    }

    /// Orders by `column` in `direction`.
    pub fn order_by(self, column: &str, direction: OrderDirection) -> (q: Self)
        ensures
            q.database() == self.database(),
            q.query() == (QueryV { order_by: Some((column@, direction)), ..self.query() }),
    {
        let mut q = self;
        q.order_by = Some((column.to_owned(), direction));
        q
    }

    /// Keeps at most `n` results.
    pub fn limit(self, n: usize) -> (q: Self)
        ensures
            q.database() == self.database(),
            q.query() == (QueryV { limit: Some(n), ..self.query() }),
    {
        let mut q = self;
        q.limit = Some(n);
        q
    }

    /// The cells of the row to insert.
    pub fn values(self, values: Vec<Value>) -> (q: Self)
        ensures
            q.database() == self.database(),
            q.query() == (QueryV { values: Some(values_view(values@)), ..self.query() }),
    {
        let mut q = self;
        q.values = Some(values);
        q
    }

    /// Adds `column = value` to what an update sets.
    pub fn set(self, column: &str, value: Value) -> (q: Self)
        ensures
            q.database() == self.database(),
            q.query() == (QueryV { set_clauses: self.query().set_clauses.push((column@, value@)), ..self.query() }),
    {
        let mut q = self;
        let ghost before = q.set_clauses@;
        let ghost cv = column@;
        let ghost vv = value@;
        q.set_clauses.push((column.to_owned(), value));
        assert(q.query().set_clauses =~= Seq::new(before.len(), |i: int| (before[i].0@, before[i].1@)).push((cv, vv)));
        q
    }

    /// Inserts the row of `values` into the table: fails with `InvalidInput`
    /// when no table or no values were given, and otherwise as
    /// `Database::insert` does.
    pub fn insert(self) -> (r: Result<(), DbError>)
        requires
            self.database().inv(),
        ensures
            self.query().table is None ==> r == Err::<(), DbError>(DbError::InvalidInput),
            self.query().table is Some && self.query().values is None ==> r == Err::<(), DbError>(DbError::InvalidInput),
            match (self.query().table, self.query().values) {
                (Some(tn), Some(vs)) => insert_answer(self.database(), tn, vs, r),
                _ => true,
            },
            final(self.db).inv(),
            match (self.query().table, self.query().values) {
                (Some(tn), Some(vs)) => insert_effect(self.database(), *final(self.db), tn, vs, r),
                _ => final(self.db).tables() == self.database().tables(),
            },
    {
        let q = self;
        let table = match q.table {
            Some(t) => t,
            None => return Err(DbError::InvalidInput),
        };
        let values = match q.values {
            Some(v) => v,
            None => return Err(DbError::InvalidInput),
        };
        let ghost db0 = *q.db;
        let row = Row::new(values);
        let r = q.db.insert(table.as_str(), row);
        proof {
            if table_named(db0.tables(), table@) is None {
                assert(!has_table(db0.tables(), table@));
            }
        }
        r
    }

    /// The rows of `table` that pass the filter: through an index when the
    /// filter is an equality on a column that a one-column index covers,
    /// else by scanning and filtering.
    #[verifier::rlimit(40)]
    fn apply_where(db: &mut Database, table: &str, where_clause: &WhereClause) -> (r: Result<Vec<Row>, DbError>)
        requires
            old(db).inv(),
        ensures
            final(db).inv(),
            final(db).tables() == old(db).tables(),
            fetch_outcome(*old(db), table@, Some(where_clause@), rows_result(r)),
    {
        let ghost ts = db.tables();
        let ghost db0 = *db;
        let schema = match db.get_schema(table) {
            Some(s) => s.copy(),
            None => return Err(DbError::NotFound),
        };
        let ghost t = schema@;
        assert(table_named(ts, table@) == Some(t));
        let col_idx = match schema.get_column_index(where_clause.column.as_str()) {
            Some(c) => c,
            None => return Err(DbError::InvalidInput),
        };
        if where_clause.op == CompareOp::Eq {
            match index_on_column(&schema, where_clause.column.as_str()) {
                Some(k) => {
                    let key = [where_clause.value.copy()];
                    let r = db.find_by_index(table, schema.indexes[k].name.as_str(), key.as_slice());
                    proof {
                        assert(Seq::new(key@.len(), |j: int| key@[j]@) =~= seq![where_clause@.value]);
                        assert(schema.indexes@[k as int]@.name == t.indexes[k as int].name);
                        assert(crate::database::key_bytes(key@) == crate::value::values_bytes(seq![where_clause@.value]));
                        assert(first_index_on(t.indexes, where_clause@.column) == Some(k as int));
                        if r is Ok {
                            assert(index_lookup_rows(db0, t, t.indexes[k as int].name, crate::database::key_bytes(key@), rows_view(r->Ok_0@)));
                            assert(fetched_from(db0, t, Some(where_clause@), rows_view(r->Ok_0@)));
                            let rows = r->Ok_0;
                            assert forall|i: int| 0 <= i < rows_view(rows@).len() implies (#[trigger] rows_view(rows@)[i]).len()
                                == t.columns.len() by {
                                assert(rows_view(rows@)[i] == rows@[i]@);
                            }
                        }
                    }
                    return r;
                },
                None => {},
            }
        }
        let all_rows = match db.scan(table) {
            Ok(r) => r,
            Err(e) => return Err(e),
        };
        let ghost all = rows_view(all_rows@);
        proof {
            assert forall|i: int| 0 <= i < all.len() implies (#[trigger] all[i]).len() == t.columns.len() by {
                assert(all[i] == all_rows@[i]@);
            }
        }
        let kept = filter_rows(all_rows, col_idx, where_clause.op, &where_clause.value);
        proof {
            lemma_filter_width(all, col_idx as int, where_clause.op, where_clause.value@, t.columns.len() as int);
            assert(rows_of_width(all, t.columns.len() as int));
            assert(rows_view(kept@) == filter_spec(all, column_position(t.columns, where_clause@.column).unwrap(), where_clause@.op, where_clause@.value));
        }
        Ok(kept)
    }

    /// The rows of `table` that the filter lets through (all of them
    /// without a filter).
    fn fetch(db: &mut Database, table: &str, where_clause: &Option<WhereClause>) -> (r: Result<Vec<Row>, DbError>)
        requires
            old(db).inv(),
        ensures
            final(db).inv(),
            final(db).tables() == old(db).tables(),
            fetch_outcome(*old(db), table@, where_view(*where_clause), rows_result(r)),
    {
        match where_clause {
            Some(w) => Self::apply_where(db, table, w),
            None => {
                let r = db.scan(table);
                proof {
                    if r is Ok {
                        let rows = r->Ok_0;
                        let t = table_named(old(db).tables(), table@).unwrap();
                        assert forall|i: int| 0 <= i < rows_view(rows@).len() implies (#[trigger] rows_view(rows@)[i]).len()
                            == t.columns.len() by {
                            assert(rows_view(rows@)[i] == rows@[i]@);
                        }
                    }
                }
                r
            },
        }
    }

    /// The names of the columns that the update sets.
    fn set_column_names(&self) -> (r: Vec<String>)
        ensures
            strings_view(r@) == set_names(self.query().set_clauses),
    {
        let mut names: Vec<String> = Vec::new();
        let mut i: usize = 0;
        while i < self.set_clauses.len()
            invariant
                0 <= i <= self.set_clauses@.len(),
                strings_view(names@) == set_names(self.query().set_clauses).take(i as int),
            decreases self.set_clauses@.len() - i,
        {
            let ghost before = strings_view(names@);
            names.push(self.set_clauses[i].0.clone());
            assert(strings_view(names@) =~= before.push(self.set_clauses@[i as int].0@));
            assert(strings_view(names@) =~= set_names(self.query().set_clauses).take(i + 1));
            i = i + 1;
        }
        assert(set_names(self.query().set_clauses).take(self.set_clauses@.len() as int) =~= set_names(self.query().set_clauses));
        names
    }

    /// Updates the rows that pass the filter (every row without one): each
    /// is deleted by its key and inserted again with the columns set.
    /// Fails with `InvalidInput` without a table or without SET clauses;
    /// returns how many rows were updated.
    #[verifier::loop_isolation(false)]
    #[verifier::rlimit(60)]
    #[verifier::spinoff_prover]
    pub fn update(self) -> (r: Result<usize, DbError>)
        requires
            self.database().inv(),
        ensures
            self.query().table is None ==> r == Err::<usize, DbError>(DbError::InvalidInput),
            self.query().table matches Some(tn) ==> if self.query().set_clauses.len() == 0 {
                r == Err::<usize, DbError>(DbError::InvalidInput)
            } else {
                update_outcome(self.database(), tn, self.query(), r)
            },
            final(self.db).inv(),
            self.query().table matches Some(tn) ==> (table_named(self.database().tables(), tn) matches Some(t) ==> shaped_like(
                final(self.db).tables(),
                tn,
                t,
            )),
            self.query().table matches Some(tn) ==> (table_named(self.database().tables(), tn) is None ==> final(self.db).tables()
                == self.database().tables()),
            self.query().table matches Some(tn) ==> (r matches Ok(n) ==> update_done(self.database(), *final(self.db), tn, self.query(), n)),
    {
        let ghost q0 = self.query();
        let ghost db0 = self.database();
        let ghost ts = self.database().tables();
        let set_cols = self.set_column_names();
        let QueryBuilder { db, table: q_table, where_clause: q_where, set_clauses: q_sets, .. } = self;
        let table = match &q_table {
            Some(t) => t.clone(),
            None => return Err(DbError::InvalidInput),
        };
        let where_clause = match &q_where {
            Some(w) => Some(w.copy()),
            None => None,
        };
        proof {
            db0.lemma_inv_names_distinct();
            assert(q0.table == Some(table@));
            if table_named(ts, table@) is Some {
                let t1 = table_named(ts, table@).unwrap();
                assert(same_shape(t1, t1));
                assert(shaped_like(ts, table@, t1));
            }
        }
        if q_sets.len() == 0 {
            return Err(DbError::InvalidInput);
        }
        let rows = match Self::fetch(&mut *db, table.as_str(), &where_clause) {
            Ok(r) => r,
            Err(e) => return Err(e),
        };
        let ghost t0 = table_named(ts, table@).unwrap();
        let ghost fetched = rows_view(rows@);
        assert(fetched_from(db0, t0, q0.where_clause, fetched));
        proof {
            db.lemma_inv_names_distinct();
        }
        let ghost mut sts: Seq<Database> = seq![*db];
        let ghost mut fs: Seq<bool> = Seq::empty();
        let mut count: usize = 0;
        let mut i: usize = 0;
        while i < rows.len()
            invariant
                0 <= i <= rows@.len(),
                count == i,
                db.inv(),
                shaped_like(db.tables(), table@, t0),
                fetched == rows_view(rows@),
                rows_of_width(fetched, t0.columns.len() as int),
                strings_view(set_cols@) == set_names(q0.set_clauses),
                set_names(q0.set_clauses).len() == q_sets@.len(),
                i > 0 ==> column_positions(t0.columns, t0.primary_key) is Some && column_positions(t0.columns, set_names(q0.set_clauses)) is Some,
                sts.len() == 2 * i + 1,
                fs.len() == i,
                sts.last() == *db,
                sts[0].tables() == db0.tables(),
                forall|j: int| 0 <= j < i ==> #[trigger] update_pair(sts, j, table@, t0, q0.set_clauses, fetched, fs),
                q0.set_clauses.len() == q_sets@.len(),
                forall|j: int| 0 <= j < q_sets@.len() ==> (#[trigger] q0.set_clauses[j]).1 == q_sets@[j].1@,
            decreases rows@.len() - i,
        {
            let ghost sts0 = sts;
            let ghost fs0 = fs;
            let row = &rows[i];
            assert(row@ == fetched[i as int]);
            let schema = match db.get_schema(table.as_str()) {
                Some(s) => s.copy(),
                None => return Err(DbError::NotFound),
            };
            assert(same_shape(schema@, t0));
            let pk_idx = match column_indices(&schema, &schema.primary_key) {
                Ok(p) => p,
                Err(_) => return Err(DbError::InvalidData),
            };
            let set_idx = match column_indices(&schema, &set_cols) {
                Ok(p) => p,
                Err(e) => return Err(e),
            };
            let mut pk_values: Vec<Value> = Vec::new();
            let mut k: usize = 0;
            while k < pk_idx.len()
                invariant
                    0 <= k <= pk_idx@.len(),
                    row@.len() == t0.columns.len(),
                    row@.len() == row.values@.len(),
                    schema@.columns.len() == t0.columns.len(),
                    forall|j: int| 0 <= j < pk_idx@.len() ==> (#[trigger] pk_idx@[j]) < schema@.columns.len(),
                    pk_values@.len() == k,
                    forall|j: int| 0 <= j < k ==> (#[trigger] pk_values@[j])@ == row@[pk_idx@[j] as int],
                decreases pk_idx@.len() - k,
            {
                assert(row.values@[pk_idx@[k as int] as int]@ == row@[pk_idx@[k as int] as int]);
                pk_values.push(row.values[pk_idx[k]].copy());
                k = k + 1;
            }
            proof {
                let ps = column_positions(t0.columns, t0.primary_key).unwrap();
                assert(Seq::new(pk_values@.len(), |j: int| pk_values@[j]@) =~= cells_at(row@, ps));
                assert(crate::database::key_bytes(pk_values@) == row_key(t0, fetched[i as int]));
            }
            let ghost sps = column_positions(t0.columns, set_names(q0.set_clauses)).unwrap();
            let ghost svs = set_values(q0.set_clauses);
            proof {
                crate::database::lemma_column_positions_in(schema@.columns, strings_view(set_cols@));
            }
            let mut new_values = copy_values(&row.values);
            let mut k: usize = 0;
            while k < set_idx.len()
                invariant
                    0 <= k <= set_idx@.len(),
                    set_idx@.len() == q_sets@.len(),
                    new_values@.len() == t0.columns.len(),
                    schema@.columns.len() == t0.columns.len(),
                    forall|j: int| 0 <= j < set_idx@.len() ==> (#[trigger] set_idx@[j]) < schema@.columns.len(),
                    sps.len() == set_idx@.len(),
                    forall|j: int| 0 <= j < sps.len() ==> (#[trigger] set_idx@[j]) as int == sps[j],
                    values_view(new_values@) == set_cells(row@, sps, svs, k as nat),
                decreases set_idx@.len() - k,
            {
                let ghost before = values_view(new_values@);
                new_values.set(set_idx[k], q_sets[k].1.copy());
                assert(values_view(new_values@) =~= before.update(sps[k as int], svs[k as int]));
                k = k + 1;
            }
            assert(values_view(new_values@) == updated_row(t0, q0.set_clauses, fetched[i as int]));
            let ghost pre = *db;
            let ghost before_delete = db.tables();
            match db.delete(table.as_str(), pk_values.as_slice()) {
                Ok(d) => {
                    proof {
                        if d {
                            let j = choose|j: int| table_at(before_delete, table@, j);
                            assert(table_at(before_delete, table@, j));
                            lemma_shape_kept(before_delete, table@, t0, j, db.tables()[j]);
                            assert(db.tables() == before_delete.update(j, db.tables()[j]));
                        }
                        assert(delete_step(pre, *db, table@, row_key(t0, fetched[i as int]), d));
                        sts = sts.push(*db);
                        fs = fs.push(d);
                    }
                },
                Err(e) => return Err(e),
            }
            let ghost mid = *db;
            let ghost before_insert = db.tables();
            match db.insert(table.as_str(), Row::new(new_values)) {
                Ok(()) => {
                    proof {
                        let j = choose|j: int| table_at(before_insert, table@, j);
                        assert(table_at(before_insert, table@, j));
                        let (root, counter, iroots) = choose|root: u64, counter: u64, iroots: Seq<u64>| db.tables()
                            == before_insert.update(j, #[trigger] crate::database::after_insert(before_insert[j], root, counter, iroots));
                        lemma_shape_kept(before_insert, table@, t0, j, crate::database::after_insert(before_insert[j], root, counter, iroots));
                        assert(insert_step(mid, *db, table@, updated_row(t0, q0.set_clauses, fetched[i as int])));
                        sts = sts.push(*db);
                    }
                },
                Err(e) => {
                    proof {
                        if db.tables() != before_insert {
                            let j = choose|j: int| table_at(before_insert, table@, j);
                            assert(table_at(before_insert, table@, j));
                            let u = crate::database::after_insert(
                                before_insert[j],
                                db.tables()[j].root_page,
                                db.tables()[j].auto_increment,
                                crate::database::index_roots(db.tables()[j].indexes),
                            );
                            assert(db.tables() == before_insert.update(j, u));
                            lemma_shape_kept(before_insert, table@, t0, j, u);
                        }
                    }
                    return Err(e);
                },
            }
            proof {
                assert(sts.len() == 2 * i + 3);
                assert(sts[2 * i] == pre);
                assert(sts[2 * i + 1] == mid);
                assert(sts[2 * i + 2] == *db);
                assert(delete_step(sts[2 * i], sts[2 * i + 1], table@, row_key(t0, fetched[i as int]), fs[i as int]));
                assert(insert_step(sts[2 * i + 1], sts[2 * i + 2], table@, updated_row(t0, q0.set_clauses, fetched[i as int])));
                assert forall|j: int| 0 <= j < i + 1 implies #[trigger] update_pair(sts, j, table@, t0, q0.set_clauses, fetched, fs) by {
                    if j < i {
                        assert(update_pair(sts0, j, table@, t0, q0.set_clauses, fetched, fs0));
                        assert(sts[2 * j] == sts0[2 * j]);
                        assert(sts[2 * j + 1] == sts0[2 * j + 1]);
                        assert(sts[2 * j + 2] == sts0[2 * j + 2]);
                        assert(fs[j] == fs0[j]);
                    }
                }
            }
            count = count + 1;
            i = i + 1;
        }
        assert(update_trace(db0, *db, table@, t0, q0, fetched, sts, fs, count as nat));
        Ok(count)
    }

    /// Deletes the rows that pass the filter (every row without one) by
    /// their keys. Fails with `InvalidInput` without a table; returns how
    /// many rows were deleted.
    #[verifier::loop_isolation(false)]
    pub fn delete(self) -> (r: Result<usize, DbError>)
        requires
            self.database().inv(),
        ensures
            self.query().table is None ==> r == Err::<usize, DbError>(DbError::InvalidInput),
            self.query().table matches Some(tn) ==> delete_outcome(self.database(), tn, self.query(), r),
            final(self.db).inv(),
            self.query().table matches Some(tn) ==> (table_named(self.database().tables(), tn) matches Some(t) ==> shaped_like(
                final(self.db).tables(),
                tn,
                t,
            )),
            self.query().table matches Some(tn) ==> (table_named(self.database().tables(), tn) is None ==> final(self.db).tables()
                == self.database().tables()),
            self.query().table matches Some(tn) ==> (r matches Ok(n) ==> delete_done(self.database(), *final(self.db), tn, self.query(), n)),
    {
        let ghost q0 = self.query();
        let ghost db0 = self.database();
        let ghost ts = self.database().tables();
        proof {
            db0.lemma_inv_names_distinct();
        }
        let QueryBuilder { db, table: q_table, where_clause: q_where, .. } = self;
        let table = match &q_table {
            Some(t) => t.clone(),
            None => return Err(DbError::InvalidInput),
        };
        let where_clause = match &q_where {
            Some(w) => Some(w.copy()),
            None => None,
        };
        proof {
            assert(q0.table == Some(table@));
            if table_named(ts, table@) is Some {
                let t1 = table_named(ts, table@).unwrap();
                assert(same_shape(t1, t1));
                assert(shaped_like(ts, table@, t1));
            }
        }
        let rows = match Self::fetch(&mut *db, table.as_str(), &where_clause) {
            Ok(r) => r,
            Err(e) => return Err(e),
        };
        let ghost t0 = table_named(ts, table@).unwrap();
        let ghost fetched = rows_view(rows@);
        assert(fetched_from(db0, t0, q0.where_clause, fetched));
        proof {
            db.lemma_inv_names_distinct();
        }
        let ghost mut sts: Seq<Database> = seq![*db];
        let ghost mut fs: Seq<bool> = Seq::empty();
        let mut count: usize = 0;
        let mut i: usize = 0;
        while i < rows.len()
            invariant
                0 <= i <= rows@.len(),
                count <= i,
                db.inv(),
                shaped_like(db.tables(), table@, t0),
                fetched == rows_view(rows@),
                rows_of_width(fetched, t0.columns.len() as int),
                i > 0 ==> column_positions(t0.columns, t0.primary_key) is Some,
                sts.len() == i + 1,
                fs.len() == i,
                sts.last() == *db,
                sts[0].tables() == db0.tables(),
                count == count_true(fs),
                forall|j: int| 0 <= j < i ==> #[trigger] delete_step(sts[j], sts[j + 1], table@, row_key(t0, fetched[j]), fs[j]),
            decreases rows@.len() - i,
        {
            let row = &rows[i];
            assert(row@ == fetched[i as int]);
            let schema = match db.get_schema(table.as_str()) {
                Some(s) => s.copy(),
                None => return Err(DbError::NotFound),
            };
            assert(same_shape(schema@, t0));
            let pk_idx = match column_indices(&schema, &schema.primary_key) {
                Ok(p) => p,
                Err(_) => return Err(DbError::InvalidData),
            };
            let mut pk_values: Vec<Value> = Vec::new();
            let mut k: usize = 0;
            while k < pk_idx.len()
                invariant
                    0 <= k <= pk_idx@.len(),
                    row@.len() == t0.columns.len(),
                    row@.len() == row.values@.len(),
                    schema@.columns.len() == t0.columns.len(),
                    forall|j: int| 0 <= j < pk_idx@.len() ==> (#[trigger] pk_idx@[j]) < schema@.columns.len(),
                    pk_values@.len() == k,
                    forall|j: int| 0 <= j < k ==> (#[trigger] pk_values@[j])@ == row@[pk_idx@[j] as int],
                decreases pk_idx@.len() - k,
            {
                assert(row.values@[pk_idx@[k as int] as int]@ == row@[pk_idx@[k as int] as int]);
                pk_values.push(row.values[pk_idx[k]].copy());
                k = k + 1;
            }
            proof {
                let ps = column_positions(t0.columns, t0.primary_key).unwrap();
                assert(Seq::new(pk_values@.len(), |j: int| pk_values@[j]@) =~= cells_at(row@, ps));
                assert(crate::database::key_bytes(pk_values@) == row_key(t0, fetched[i as int]));
            }
            let ghost pre = *db;
            let ghost before_delete = db.tables();
            match db.delete(table.as_str(), pk_values.as_slice()) {
                Ok(d) => {
                    proof {
                        if d {
                            let j = choose|j: int| table_at(before_delete, table@, j);
                            assert(table_at(before_delete, table@, j));
                            lemma_shape_kept(before_delete, table@, t0, j, db.tables()[j]);
                            assert(db.tables() == before_delete.update(j, db.tables()[j]));
                        }
                    }
                    proof {
                        assert(delete_step(pre, *db, table@, row_key(t0, fetched[i as int]), d));
                        assert(fs.push(d).drop_last() =~= fs);
                        sts = sts.push(*db);
                        fs = fs.push(d);
                    }
                    if d {
                        count = count + 1;
                    }
                },
                Err(e) => return Err(e),
            }
            i = i + 1;
        }
        assert(delete_trace(db0, *db, table@, t0, q0.where_clause, fetched, sts, fs, count as nat));
        Ok(count)
    }

    /// Runs the query: fails with `InvalidInput` without a table; a query
    /// without joins returns the fetched rows ordered, cut and projected; a
    /// query with one join returns the joined rows, cut; more than one join
    /// is `InvalidInput`.
    pub fn execute(self) -> (r: Result<QueryResult, DbError>)
        requires
            self.database().inv(),
        ensures
            self.query().table is None ==> (r matches Err(e) && e == DbError::InvalidInput),
            self.query().table matches Some(tn) ==> if self.query().joins.len() == 0 {
                simple_outcome(self.database(), tn, self.query(), r)
            } else if self.query().joins.len() > 1 {
                r matches Err(e) && e == DbError::InvalidInput
            } else {
                join_outcome(self.database(), tn, self.query().joins[0], self.query().limit, r)
            },
    {
        let table = match &self.table {
            Some(t) => t.clone(),
            None => return Err(DbError::InvalidInput),
        };
        if self.joins.len() == 0 {
            self.execute_simple(table.as_str())
        } else {
            self.execute_join(table.as_str())
        }
    }

    /// Runs a query on the one table `table`.
    fn execute_simple(self, table: &str) -> (r: Result<QueryResult, DbError>)
        requires
            self.database().inv(),
        ensures
            simple_outcome(self.database(), table@, self.query(), r),
    {
        let mut q = self;
        let ghost q0 = q.query();
        let ghost db0 = q.database();
        let ghost ts = q.database().tables();
        let where_clause = match &q.where_clause {
            Some(w) => Some(w.copy()),
            None => None,
        };
        let rows = match Self::fetch(&mut *q.db, table, &where_clause) {
            Ok(r) => r,
            Err(e) => return Err(e),
        };
        let schema = match q.db.get_schema(table) {
            Some(s) => s.copy(),
            None => return Err(DbError::NotFound),
        };
        let ghost t = table_named(ts, table@).unwrap();
        assert(schema@ == t);
        assert(fetched_from(db0, t, q0.where_clause, rows_view(rows@)));
        let ghost fetched = rows_view(rows@);
        match finish_rows(&schema, rows, &q.order_by, q.limit, &q.columns) {
            Ok(v) => {
                assert(finish_spec(t.columns, fetched, q0.order_by, q0.limit, q0.columns) == Ok::<Seq<Seq<ValueV>>, DbError>(rows_view(v@)));
                Ok(QueryResult::Simple(v))
            },
            Err(e) => Err(e),
        }
    }

    /// Runs a query with joins from the table `left_table`: only one join is
    /// supported.
    fn execute_join(self, left_table: &str) -> (r: Result<QueryResult, DbError>)
        requires
            self.database().inv(),
            self.query().joins.len() > 0,
        ensures
            self.query().joins.len() > 1 ==> (r matches Err(e) && e == DbError::InvalidInput),
            self.query().joins.len() == 1 ==> join_outcome(self.database(), left_table@, self.query().joins[0], self.query().limit, r),
    {
        let q = self;
        if q.joins.len() != 1 {
            return Err(DbError::InvalidInput);
        }
        let ghost jv = q.query().joins[0];
        let join = &q.joins[0];
        assert(join_view(*join) == jv);
        let join_type = join.join_type;
        let right_table = join.table.clone();
        let left_col = join.left_col.clone();
        let right_col = join.right_col.clone();
        let hint = match &join.index {
            Some(n) => Some(n.clone()),
            None => None,
        };
        let index_name = match hint {
            Some(n) => n,
            None => {
                let rs = match q.db.get_schema(right_table.as_str()) {
                    Some(s) => s,
                    None => return Err(DbError::NotFound),
                };
                match index_on_column(rs, right_col.as_str()) {
                    Some(k) => {
                        assert(rs.indexes@[k as int]@.name == rs@.indexes[k as int].name);
                        rs.indexes[k].name.clone()
                    },
                    None => return Err(DbError::InvalidInput),
                }
            },
        };
        assert(join_index(q.database().tables(), jv) == Some(index_name@));
        let mut results = match q.db.index_nested_loop_join(
            left_table,
            right_table.as_str(),
            left_col.as_str(),
            right_col.as_str(),
            index_name.as_str(),
            join_type,
        ) {
            Ok(x) => x,
            Err(e) => return Err(e),
        };
        let ghost full = joined_view(results@);
        match q.limit {
            Some(n) => {
                if n < results.len() {
                    results.truncate(n);
                }
            },
            None => {},
        }
        assert(joined_view(results@) =~= limit_joined(full, q.query().limit));
        Ok(QueryResult::Joined(results))
    }
}

} // verus!
