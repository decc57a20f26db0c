use vstd::prelude::*;
use crate::codec::append_bytes;
use crate::data_type::DataType;
use crate::error::DbError;
use crate::schema::column::ColumnV;
use crate::schema::table_schema::TableSchema;
use crate::value::{Value, ValueV, value_bytes, values_bytes, decode_value, value_type, value_roundtrips, lemma_value_roundtrip};

verus! {

/// A row: one cell per column of its table, in column order.
#[derive(Debug)]
pub struct Row {
    pub values: Vec<Value>,
}

/// The contents of a list of cells.
pub open spec fn values_view(v: Seq<Value>) -> Seq<ValueV> {
    Seq::new(v.len(), |i: int| v[i]@)
}

impl View for Row {
    type V = Seq<ValueV>;

    open spec fn view(&self) -> Seq<ValueV> {
        values_view(self.values@)
    }
}

/// Number of bytes of the null bitmap of a table with `n` columns.
pub open spec fn bitmap_len(n: nat) -> nat {
    ((n + 7) / 8) as nat
}

/// Cell `i` exists and is `Null`.
pub open spec fn is_null_at(vals: Seq<ValueV>, i: int) -> bool {
    0 <= i < vals.len() && vals[i] is Null
}

/// The first `k` bits of byte `j` of the null bitmap: bit `k` is set when cell
/// `8 * j + k` is `Null`.
pub open spec fn bitmap_byte_upto(vals: Seq<ValueV>, j: int, k: nat) -> u8
    decreases k,
{
    if k == 0 {
        0u8
    } else {
        let prev = bitmap_byte_upto(vals, j, (k - 1) as nat);
        if is_null_at(vals, 8 * j + k - 1) {
            prev | (1u8 << ((k - 1) as u8))
        } else {
            prev
        }
    }
}

/// The null bitmap of a row, `nbytes` bytes long.
pub open spec fn null_bitmap(vals: Seq<ValueV>, nbytes: nat) -> Seq<u8> {
    Seq::new(nbytes, |j: int| bitmap_byte_upto(vals, j, 8))
}

/// The bytes `Row::serialize` produces for a table of `ncols` columns: the
/// null bitmap, then the encodings of the cells that are not `Null`.
pub open spec fn row_bytes(vals: Seq<ValueV>, ncols: nat) -> Seq<u8> {
    null_bitmap(vals, bitmap_len(ncols)) + values_bytes(vals)
}

/// Bit `k` of a byte is set.
pub open spec fn bit_set(b: u8, k: nat) -> bool {
    ((b >> (k as u8)) & 1u8) == 1u8
}

/// Reading the cells of the first `n` columns, starting at `off`.
pub open spec fn decode_cells(
    data: Seq<u8>,
    cols: Seq<ColumnV>,
    off: int,
    n: nat,
) -> Result<(Seq<ValueV>, int), DbError>
    decreases n,
{
    if n == 0 {
        Ok((seq![], off))
    } else {
        match decode_cells(data, cols, off, (n - 1) as nat) {
            Err(e) => Err(e),
            Ok((vs, o)) => {
                let i = n - 1;
                if bit_set(data[i / 8], (i % 8) as nat) {
                    Ok((vs.push(ValueV::Null), o))
                } else {
                    match decode_value(cols[i].data_type, data, o) {
                        Ok((v, o2)) => Ok((vs.push(v), o2)),
                        Err(e) => Err(e),
                    }
                }
            },
        }
    }
}

/// What `Row::deserialize` reads for a table with columns `cols`.
pub open spec fn decode_row(data: Seq<u8>, cols: Seq<ColumnV>) -> Result<Seq<ValueV>, DbError> {
    if data.len() < bitmap_len(cols.len()) {
        Err(DbError::UnexpectedEof)
    } else {
        match decode_cells(data, cols, bitmap_len(cols.len()) as int, cols.len()) {
            Ok((vs, _)) => Ok(vs),
            Err(e) => Err(e),
        }
    }
}

/// A row that reads back for the columns `cols`: one cell per column, each
/// `Null` or of its column's type and readable back.
pub open spec fn row_roundtrips(vals: Seq<ValueV>, cols: Seq<ColumnV>) -> bool {
    &&& vals.len() == cols.len()
    &&& forall|i: int|
        0 <= i < vals.len() ==> (#[trigger] vals[i] is Null || (value_type(vals[i])
            == cols[i].data_type && value_roundtrips(vals[i])))
}

proof fn lemma_or_bit(x: u8, m: u8, k: u8)
    requires
        m < 8,
        k < 8,
    ensures
        ((x | (1u8 << m)) >> k) & 1u8 == (if k == m {
            1u8
        } else {
            (x >> k) & 1u8
        }),
{
    assert(((x | (1u8 << m)) >> k) & 1u8 == (if k == m {
        1u8
    } else {
        (x >> k) & 1u8
    })) by (bit_vector)
        requires
            m < 8,
            k < 8,
    ;
}

proof fn lemma_zero_bits(k: u8)
    ensures
        (0u8 >> k) & 1u8 == 0u8,
{
    assert((0u8 >> k) & 1u8 == 0u8) by (bit_vector);
}

/// Bit `k` of byte `j` of the bitmap tells whether cell `8 * j + k` is `Null`.
pub proof fn lemma_bitmap_bit(vals: Seq<ValueV>, j: int, n: nat, k: nat)
    requires
        n <= 8,
        k < 8,
    ensures
        bit_set(bitmap_byte_upto(vals, j, n), k) == (k < n && is_null_at(vals, 8 * j + k)),
    decreases n,
{
    if n == 0 {
        lemma_zero_bits(k as u8);
    } else {
        let prev = bitmap_byte_upto(vals, j, (n - 1) as nat);
        lemma_bitmap_bit(vals, j, (n - 1) as nat, k);
        if is_null_at(vals, 8 * j + n - 1) {
            lemma_or_bit(prev, (n - 1) as u8, k as u8);
        }
    }
}

/// The encoded cells of a row read back, each at its place.
proof fn lemma_cells_roundtrip(vals: Seq<ValueV>, cols: Seq<ColumnV>, n: nat, nb: nat, p: Seq<u8>, r: Seq<u8>)
    requires
        row_roundtrips(vals, cols),
        n <= vals.len(),
        p.len() == nb,
        nb == bitmap_len(cols.len()),
        p == null_bitmap(vals, nb),
    ensures
        decode_cells(p + values_bytes(vals.take(n as int)) + r, cols, nb as int, n) == Ok::<
            (Seq<ValueV>, int),
            DbError,
        >((vals.take(n as int), (nb + values_bytes(vals.take(n as int)).len()) as int)),
    decreases n,
{
    if n > 0 {
        let m = (n - 1) as nat;
        let v = vals[m as int];
        let front = vals.take(m as int);
        assert(vals.take(n as int).drop_last() =~= front);
        assert(vals.take(n as int).last() == v);
        let vb = value_bytes(v);
        assert(p + values_bytes(vals.take(n as int)) + r =~= p + values_bytes(front) + (vb + r));
        lemma_cells_roundtrip(vals, cols, m, nb, p, vb + r);
        let d = p + values_bytes(vals.take(n as int)) + r;
        let i = m as int;
        assert(i / 8 < nb);
        assert(d[i / 8] == p[i / 8]);
        lemma_bitmap_bit(vals, i / 8, 8, (i % 8) as nat);
        assert(8 * (i / 8) + i % 8 == i);
        if v is Null {
            assert(vb =~= Seq::<u8>::empty());
        } else {
            let q = p + values_bytes(front);
            assert(d =~= q + vb + r);
            lemma_value_roundtrip(v, q, r);
        }
        assert(front.push(v) =~= vals.take(n as int));
    } else {
        assert(vals.take(0) =~= Seq::<ValueV>::empty());
    }
}

/// Reading back the encoding of a row that `row_roundtrips` admits, followed
/// by any bytes, gives the row.
pub proof fn lemma_row_roundtrip(vals: Seq<ValueV>, cols: Seq<ColumnV>, r: Seq<u8>)
    requires
        row_roundtrips(vals, cols),
    ensures
        decode_row(row_bytes(vals, cols.len()) + r, cols) == Ok::<Seq<ValueV>, DbError>(vals),
{
    let nb = bitmap_len(cols.len());
    let p = null_bitmap(vals, nb);
    lemma_cells_roundtrip(vals, cols, vals.len(), nb, p, r);
    assert(vals.take(vals.len() as int) =~= vals);
}

fn bitmap_byte(values: &Vec<Value>, j: usize) -> (b: u8)
    requires
        j <= usize::MAX / 8,
    ensures
        b == bitmap_byte_upto(values_view(values@), j as int, 8),
{
    let mut b: u8 = 0;
    let mut k: u8 = 0;
    while k < 8
        invariant
            0 <= k <= 8,
            j <= usize::MAX / 8,
            b == bitmap_byte_upto(values_view(values@), j as int, k as nat),
        decreases 8 - k,
    {
        let idx = j * 8 + k as usize;
        let is_null = idx < values.len() && matches!(values[idx], Value::Null);
        assert(is_null == is_null_at(values_view(values@), 8 * j + k));
        if is_null {
            b = b | (1u8 << k);
        }
        k = k + 1;
    }
    b
}

fn bit_is_set(b: u8, k: usize) -> (r: bool)
    requires
        k < 8,
    ensures
        r == bit_set(b, k as nat),
{
    let kk = k as u8;
    ((b >> kk) & 1u8) == 1u8
}

impl Row {
    /// A row of the given cells.
    pub fn new(values: Vec<Value>) -> (r: Self)
        ensures
            r@ == values_view(values@),
    {
        Row { values }
    }

    /// Cell `index`, if there is one.
    pub fn get(&self, index: usize) -> (r: Option<&Value>)
        ensures
            match r {
                Some(v) => index < self@.len() && v@ == self@[index as int],
                None => index >= self@.len(),
            },
    {
        if index < self.values.len() {
            Some(&self.values[index])
        } else {
            None
        }
    }

    /// A copy of the row.
    pub fn copy(&self) -> (r: Self)
        ensures
            r@ == self@,
    {
        Row { values: copy_values(&self.values) }
    }

    /// Encodes the row for a table: the null bitmap (one bit per column), then
    /// the cells that are not `Null`.
    pub fn serialize(&self, schema: &TableSchema) -> (r: Vec<u8>)
        requires
            forall|i: int| #[trigger] is_null_at(self@, i) ==> i < 8 * bitmap_len(schema@.columns.len()),
        ensures
            r@ == row_bytes(self@, schema@.columns.len()),
    {
        let n = schema.columns.len();
        let nbytes = n / 8 + if n % 8 != 0 { 1 } else { 0 };
        assert(nbytes == bitmap_len(n as nat));
        let mut buf: Vec<u8> = Vec::new();
        let mut j: usize = 0;
        while j < nbytes
            invariant
                0 <= j <= nbytes,
                nbytes == bitmap_len(n as nat),
                nbytes <= usize::MAX / 8 + 1,
                buf@ == null_bitmap(self@, nbytes as nat).take(j as int),
            decreases nbytes - j,
        {
            let b = bitmap_byte(&self.values, j);
            buf.push(b);
            assert(buf@ =~= null_bitmap(self@, nbytes as nat).take(j + 1));
            j = j + 1;
        }
        assert(null_bitmap(self@, nbytes as nat).take(nbytes as int) =~= null_bitmap(self@, nbytes as nat));
        let mut i: usize = 0;
        let ghost head = buf@;
        assert(self@.take(0) =~= Seq::<ValueV>::empty());
        while i < self.values.len()
            invariant
                0 <= i <= self@.len(),
                buf@ == head + values_bytes(self@.take(i as int)),
            decreases self@.len() - i,
        {
            self.values[i].serialize(&mut buf);
            assert(self@.take(i + 1).drop_last() =~= self@.take(i as int));
            assert(self@.take(i + 1).last() == self.values@[i as int]@);
            assert(buf@ =~= head + values_bytes(self@.take(i + 1)));
            i = i + 1;
        }
        assert(self@.take(self@.len() as int) =~= self@);
        buf
    }

    /// Decodes a row of a table: the null bitmap, then one cell per column.
    pub fn deserialize(data: &[u8], schema: &TableSchema) -> (r: Result<Self, DbError>)
        ensures
            match decode_row(data@, schema@.columns) {
                Ok(vs) => r matches Ok(row) && row@ == vs,
                Err(e) => r matches Err(x) && x == e,
            },
            r matches Ok(row) ==> row@.len() == schema@.columns.len(),
    {
        let n = schema.columns.len();
        let nbytes = n / 8 + if n % 8 != 0 { 1 } else { 0 };
        assert(nbytes == bitmap_len(n as nat));
        if data.len() < nbytes {
            return Err(DbError::UnexpectedEof);
        }
        let ghost cols = schema@.columns;
        let mut values: Vec<Value> = Vec::with_capacity(n);
        let mut off: usize = nbytes;
        let mut i: usize = 0;
        assert(values_view(values@) =~= Seq::<ValueV>::empty());
        while i < n
            invariant
                0 <= i <= n,
                n == cols.len(),
                cols == schema@.columns,
                nbytes == bitmap_len(n as nat),
                data@.len() >= nbytes,
                decode_cells(data@, cols, nbytes as int, i as nat) == Ok::<
                    (Seq<ValueV>, int),
                    DbError,
                >((values_view(values@), off as int)),
                values@.len() == i,
            decreases n - i,
        {
            assert(i / 8 < nbytes);
            let is_null = bit_is_set(data[i / 8], i % 8);
            let ghost before = values@;
            if is_null {
                values.push(Value::Null);
            } else {
                let dt: DataType = schema.columns[i].data_type;
                assert(dt == cols[i as int].data_type);
                match Value::deserialize(dt, data, &mut off) {
                    Ok(v) => {
                        values.push(v);
                    },
                    Err(e) => {
                        proof {
                            lemma_decode_cells_err(data@, cols, nbytes as int, (i + 1) as nat, n as nat);
                        }
                        return Err(e);
                    },
                }
            }
            assert(values_view(values@) =~= values_view(before).push(values@.last()@));
            i = i + 1;
        }
        Ok(Row { values })
    }
}

/// Once reading cells fails, reading more of them fails the same way.
pub proof fn lemma_decode_cells_err(data: Seq<u8>, cols: Seq<ColumnV>, off: int, i: nat, n: nat)
    requires
        i <= n,
        decode_cells(data, cols, off, i) is Err,
    ensures
        decode_cells(data, cols, off, n) == decode_cells(data, cols, off, i),
    decreases n,
{
    if n > i {
        lemma_decode_cells_err(data, cols, off, i, (n - 1) as nat);
    }
}

/// A copy of a list of cells.
pub fn copy_values(v: &Vec<Value>) -> (r: Vec<Value>)
    ensures
        values_view(r@) == values_view(v@),
{
    let mut out: Vec<Value> = Vec::new();
    let mut i: usize = 0;
    while i < v.len()
        invariant
            0 <= i <= v@.len(),
            values_view(out@) == values_view(v@).take(i as int),
        decreases v@.len() - i,
    {
        let c = v[i].copy();
        let ghost before = out@;
        out.push(c);
        assert(out@ == before.push(c));
        assert(values_view(before).len() == before.len());
        assert(before.len() == i);
        assert forall|j: int| 0 <= j < i implies values_view(out@)[j] == values_view(v@).take(i + 1)[j] by {
            assert(values_view(before)[j] == values_view(v@).take(i as int)[j]);
        }
        assert(values_view(out@) =~= values_view(v@).take(i + 1));
        i = i + 1;
    }
    assert(values_view(v@).take(v@.len() as int) =~= values_view(v@));
    out
}

impl Clone for Row {
    fn clone(&self) -> (r: Self)
        ensures
            r@ == self@,
    {
        self.copy()
    }
}

} // verus!
