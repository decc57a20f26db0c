//! Byte-level helpers shared by the on-disk formats: little-endian integers,
//! byte appends and in-place writes, lexicographic byte order, UTF-8 text.
use vstd::prelude::*;
use vstd::bytes::*;
use vstd::utf8::*;
use vstd::string::*;
use crate::error::DbError;

verus! {

broadcast use vstd::utf8::group_utf8_lib;

/// Outcome of a three-way comparison.
#[derive(Debug, Clone, Copy, PartialEq, Eq, Structural)]
pub enum KeyOrder {
    Less,
    Equal,
    Greater,
}

impl KeyOrder {
    /// The same comparison seen from the other side.
    pub open spec fn flipped(self) -> KeyOrder {
        match self {
            KeyOrder::Less => KeyOrder::Greater,
            KeyOrder::Equal => KeyOrder::Equal,
            KeyOrder::Greater => KeyOrder::Less,
        }
    }
}

/// Lexicographic order of byte sequences (a proper prefix comes first).
pub open spec fn lex_order(a: Seq<u8>, b: Seq<u8>) -> KeyOrder
    decreases a.len(),
{
    if a.len() == 0 {
        if b.len() == 0 {
            KeyOrder::Equal
        } else {
            KeyOrder::Less
        }
    } else if b.len() == 0 {
        KeyOrder::Greater
    } else if a[0] < b[0] {
        KeyOrder::Less
    } else if a[0] > b[0] {
        KeyOrder::Greater
    } else {
        lex_order(a.drop_first(), b.drop_first())
    }
}

/// `a` comes strictly before `b`.
pub open spec fn lex_lt(a: Seq<u8>, b: Seq<u8>) -> bool {
    lex_order(a, b) == KeyOrder::Less
}

/// `a` comes before `b` or equals it.
pub open spec fn lex_le(a: Seq<u8>, b: Seq<u8>) -> bool {
    lex_order(a, b) != KeyOrder::Greater
}

/// Byte strings are ordered by their first differing byte, a proper prefix
/// coming first; a shared prefix does not change the order.
pub proof fn lemma_lex_order_laws(p: Seq<u8>, a: Seq<u8>, b: Seq<u8>)
    ensures
        b.len() > 0 ==> lex_order(a, a + b) == KeyOrder::Less,
        lex_order(p + a, p + b) == lex_order(a, b),
        a.len() > 0 && b.len() > 0 && a[0] < b[0] ==> lex_order(a, b) == KeyOrder::Less,
        a.len() > 0 && b.len() > 0 && a[0] > b[0] ==> lex_order(a, b) == KeyOrder::Greater,
    decreases p.len() + a.len(),
{
    if p.len() > 0 {
        lemma_lex_order_laws(p.drop_first(), a, b);
        assert((p + a).drop_first() =~= p.drop_first() + a);
        assert((p + b).drop_first() =~= p.drop_first() + b);
    } else {
        assert(p + a =~= a);
        assert(p + b =~= b);
        if a.len() > 0 {
            lemma_lex_order_laws(p, a.drop_first(), b);
            assert((a + b).drop_first() =~= a.drop_first() + b);
        } else {
            assert(a + b =~= b);
        }
    }
}

/// The lexicographic order is antisymmetric, and `Equal` means equal.
pub proof fn lemma_lex_order_flip(a: Seq<u8>, b: Seq<u8>)
    ensures
        lex_order(b, a) == lex_order(a, b).flipped(),
        lex_order(a, b) == KeyOrder::Equal <==> a == b,
    decreases a.len(),
{
    if a.len() > 0 && b.len() > 0 && a[0] == b[0] {
        lemma_lex_order_flip(a.drop_first(), b.drop_first());
        if a.drop_first() == b.drop_first() {
            assert forall|i: int| 0 <= i < a.len() implies a[i] == b[i] by {
                if i > 0 {
                    assert(a[i] == a.drop_first()[i - 1]);
                    assert(b[i] == b.drop_first()[i - 1]);
                }
            }
            assert(a =~= b);
        }
    }
    if a.len() == 0 && b.len() == 0 {
        assert(a =~= b);
    }
    if a == b && a.len() > 0 {
        assert(a.drop_first() == b.drop_first());
    }
}

/// The lexicographic order is transitive.
pub proof fn lemma_lex_lt_transitive(a: Seq<u8>, b: Seq<u8>, c: Seq<u8>)
    requires
        lex_lt(a, b),
        lex_lt(b, c),
    ensures
        lex_lt(a, c),
    decreases a.len(),
{
    if a.len() > 0 && b.len() > 0 && c.len() > 0 && a[0] == b[0] && b[0] == c[0] {
        lemma_lex_lt_transitive(a.drop_first(), b.drop_first(), c.drop_first());
    }
}

/// Compares two byte strings lexicographically.
pub fn compare_bytes(a: &[u8], b: &[u8]) -> (r: KeyOrder)
    ensures
        r == lex_order(a@, b@),
{
    let mut i: usize = 0;
    assert(a@.skip(0) =~= a@);
    assert(b@.skip(0) =~= b@);
    while i < a.len() && i < b.len()
        invariant
            0 <= i <= a@.len(),
            i <= b@.len(),
            a@.subrange(0, i as int) == b@.subrange(0, i as int),
            lex_order(a@, b@) == lex_order(a@.skip(i as int), b@.skip(i as int)),
        decreases a@.len() - i,
    {
        if a[i] < b[i] {
            return KeyOrder::Less;
        }
        if a[i] > b[i] {
            return KeyOrder::Greater;
        }
        assert(a@.skip(i as int).drop_first() =~= a@.skip(i + 1));
        assert(b@.skip(i as int).drop_first() =~= b@.skip(i + 1));
        assert(a@.subrange(0, i + 1) =~= a@.subrange(0, i as int).push(a@[i as int]));
        assert(b@.subrange(0, i + 1) =~= b@.subrange(0, i as int).push(b@[i as int]));
        i = i + 1;
    }
    if i < a.len() {
        KeyOrder::Greater
    } else if i < b.len() {
        KeyOrder::Less
    } else {
        KeyOrder::Equal
    }
}

/// Byte-for-byte equality of two byte strings.
pub fn bytes_equal(a: &[u8], b: &[u8]) -> (r: bool)
    ensures
        r == (a@ == b@),
{
    if a.len() != b.len() {
        return false;
    }
    let mut i: usize = 0;
    while i < a.len()
        invariant
            0 <= i <= a@.len(),
            a@.len() == b@.len(),
            forall|j: int| 0 <= j < i ==> a@[j] == b@[j],
        decreases a@.len() - i,
    {
        if a[i] != b[i] {
            return false;
        }
        i = i + 1;
    }
    assert(a@ =~= b@);
    true
}

/// `p` is a prefix of `s`.
pub open spec fn is_prefix(p: Seq<u8>, s: Seq<u8>) -> bool {
    p.len() <= s.len() && s.subrange(0, p.len() as int) == p
}

/// Tests whether `s` starts with `p`.
pub fn starts_with(s: &[u8], p: &[u8]) -> (r: bool)
    ensures
        r == is_prefix(p@, s@),
{
    if p.len() > s.len() {
        return false;
    }
    let head = vstd::slice::slice_subrange(s, 0, p.len());
    bytes_equal(head, p)
}

/// Appends bytes at the end of a buffer.
pub fn append_bytes(buf: &mut Vec<u8>, bytes: &[u8])
    ensures
        final(buf)@ == old(buf)@ + bytes@,
{
    let mut i: usize = 0;
    let ghost start = buf@;
    while i < bytes.len()
        invariant
            0 <= i <= bytes@.len(),
            buf@ == start + bytes@.subrange(0, i as int),
        decreases bytes@.len() - i,
    {
        buf.push(bytes[i]);
        assert(bytes@.subrange(0, i + 1) =~= bytes@.subrange(0, i as int).push(bytes@[i as int]));
        i = i + 1;
    }
    assert(bytes@.subrange(0, bytes@.len() as int) =~= bytes@);
}

/// Overwrites `bytes.len()` bytes of a buffer, starting at `pos`.
pub fn write_at(buf: &mut Vec<u8>, pos: usize, bytes: &[u8])
    requires
        pos + bytes@.len() <= old(buf)@.len(),
    ensures
        final(buf)@ == old(buf)@.subrange(0, pos as int) + bytes@ + old(buf)@.subrange(
            pos + bytes@.len(),
            old(buf)@.len() as int,
        ),
{
    let mut i: usize = 0;
    let ghost start = buf@;
    let blen = buf.len();
    while i < bytes.len()
        invariant
            0 <= i <= bytes@.len(),
            pos + bytes@.len() <= start.len(),
            buf@.len() == start.len(),
            blen == start.len(),
            forall|j: int| 0 <= j < pos ==> buf@[j] == start[j],
            forall|j: int| 0 <= j < i ==> buf@[pos + j] == bytes@[j],
            forall|j: int| pos + i <= j < start.len() ==> buf@[j] == start[j],
        decreases bytes@.len() - i,
    {
        assert(pos + i < buf@.len());
        buf.set(pos + i, bytes[i]);
        i = i + 1;
    }
    assert(buf@ =~= start.subrange(0, pos as int) + bytes@ + start.subrange(
        pos + bytes@.len(),
        start.len() as int,
    ));
}

/// A buffer of `n` zero bytes.
pub fn zeros(n: usize) -> (r: Vec<u8>)
    ensures
        r@ == Seq::new(n as nat, |i: int| 0u8),
{
    let mut v: Vec<u8> = Vec::with_capacity(n);
    let mut i: usize = 0;
    while i < n
        invariant
            0 <= i <= n,
            v@ == Seq::new(i as nat, |j: int| 0u8),
        decreases n - i,
    {
        v.push(0u8);
        i = i + 1;
        assert(v@ =~= Seq::new(i as nat, |j: int| 0u8));
    }
    v
}

/// `b` followed by zeros up to `total` bytes.
pub open spec fn padded(b: Seq<u8>, total: nat) -> Seq<u8> {
    b + Seq::new((total - b.len()) as nat, |i: int| 0u8)
}

/// Writing `w` just after the bytes `b` of a zero-padded buffer extends `b`.
pub proof fn lemma_write_after(b: Seq<u8>, w: Seq<u8>, total: nat)
    requires
        b.len() + w.len() <= total,
    ensures
        padded(b, total).len() == total,
        padded(b, total).subrange(0, b.len() as int) + w + padded(b, total).subrange(
            (b.len() + w.len()) as int,
            total as int,
        ) == padded(b + w, total),
{
    assert(padded(b, total).subrange(0, b.len() as int) + w + padded(b, total).subrange(
        (b.len() + w.len()) as int,
        total as int,
    ) =~= padded(b + w, total));
}

/// Writes `w` just after the first `pos` bytes of a zero-padded buffer.
pub fn write_after(buf: &mut Vec<u8>, pos: usize, w: &[u8], Ghost(b): Ghost<Seq<u8>>, Ghost(total): Ghost<nat>)
    requires
        old(buf)@ == padded(b, total),
        pos == b.len(),
        b.len() + w@.len() <= total,
    ensures
        final(buf)@ == padded(b + w@, total),
{
    proof {
        lemma_write_after(b, w@, total);
    }
    write_at(buf, pos, w);
}

/// Reads a little-endian `u16` at `off`, if the bytes are there.
pub fn read_u16_le(data: &[u8], off: usize) -> (r: Option<u16>)
    ensures
        r == (if off + 2 <= data@.len() {
            Some(spec_u16_from_le_bytes(data@.subrange(off as int, off + 2)))
        } else {
            None::<u16>
        }),
{
    if off > data.len() || data.len() - off < 2 {
        return None;
    }
    let s = vstd::slice::slice_subrange(data, off, off + 2);
    Some(u16_from_le_bytes(s))
}

/// Reads a little-endian `u32` at `off`, if the bytes are there.
pub fn read_u32_le(data: &[u8], off: usize) -> (r: Option<u32>)
    ensures
        r == (if off + 4 <= data@.len() {
            Some(spec_u32_from_le_bytes(data@.subrange(off as int, off + 4)))
        } else {
            None::<u32>
        }),
{
    if off > data.len() || data.len() - off < 4 {
        return None;
    }
    let s = vstd::slice::slice_subrange(data, off, off + 4);
    Some(u32_from_le_bytes(s))
}

/// Reads a little-endian `u64` at `off`, if the bytes are there.
pub fn read_u64_le(data: &[u8], off: usize) -> (r: Option<u64>)
    ensures
        r == (if off + 8 <= data@.len() {
            Some(spec_u64_from_le_bytes(data@.subrange(off as int, off + 8)))
        } else {
            None::<u64>
        }),
{
    if off > data.len() || data.len() - off < 8 {
        return None;
    }
    let s = vstd::slice::slice_subrange(data, off, off + 8);
    Some(u64_from_le_bytes(s))
}

/// The contents of a list of byte vectors.
pub open spec fn byte_strings(v: Seq<Vec<u8>>) -> Seq<Seq<u8>> {
    Seq::new(v.len(), |i: int| v[i]@)
}

/// A byte string preceded by its length as a little-endian `u16`.
pub open spec fn u16_prefixed(b: Seq<u8>) -> Seq<u8> {
    spec_u16_to_le_bytes(b.len() as u16) + b
}

/// Reading a `u16`-length-prefixed byte string at `off`: the bytes and the
/// offset just past them.
pub open spec fn decode_u16_prefixed(data: Seq<u8>, off: int) -> Option<(Seq<u8>, int)> {
    if 0 <= off && off + 2 <= data.len() {
        let n = spec_u16_from_le_bytes(data.subrange(off, off + 2)) as int;
        if off + 2 + n <= data.len() {
            Some((data.subrange(off + 2, off + 2 + n), off + 2 + n))
        } else {
            None
        }
    } else {
        None
    }
}

/// The encoded length of a `u16`-prefixed byte string.
pub proof fn lemma_u16_prefixed_len(b: Seq<u8>)
    ensures
        u16_prefixed(b).len() == b.len() + 2,
{
    lemma_auto_spec_u16_to_from_le_bytes();
}

/// A `u16`-prefixed byte string reads back, wherever it stands.
pub proof fn lemma_u16_prefixed_roundtrip(p: Seq<u8>, b: Seq<u8>, r: Seq<u8>)
    requires
        b.len() < 0x1_0000,
    ensures
        decode_u16_prefixed(p + u16_prefixed(b) + r, p.len() as int) == Some(
            (b, (p.len() + 2 + b.len()) as int),
        ),
{
    lemma_auto_spec_u16_to_from_le_bytes();
    let d = p + u16_prefixed(b) + r;
    let off = p.len() as int;
    assert(d.subrange(off, off + 2) =~= spec_u16_to_le_bytes(b.len() as u16));
    assert(d.subrange(off + 2, off + 2 + b.len()) =~= b);
}

/// Reads a `u16`-length-prefixed byte string at `off`.
pub fn read_u16_prefixed(data: &[u8], off: usize) -> (r: Option<(Vec<u8>, usize)>)
    ensures
        match decode_u16_prefixed(data@, off as int) {
            Some((b, end)) => r matches Some((v, e)) && v@ == b && e as int == end,
            None => r is None,
        },
{
    let dlen = data.len();
    match read_u16_le(data, off) {
        None => None,
        Some(n) => {
            let start = off + 2;
            if (n as usize) > dlen - start {
                return None;
            }
            let end = start + n as usize;
            let bytes = vstd::slice::slice_to_vec(vstd::slice::slice_subrange(data, start, end));
            Some((bytes, end))
        },
    }
}

/// A list of items, each encoded by `enc`, one after the other.
pub open spec fn encode_list<T>(enc: spec_fn(T) -> Seq<u8>, xs: Seq<T>) -> Seq<u8>
    decreases xs.len(),
{
    if xs.len() == 0 {
        seq![]
    } else {
        encode_list(enc, xs.drop_last()) + enc(xs.last())
    }
}

/// Reading `n` items with `dec` from `off`: the items and the offset past
/// them, or the first error.
pub open spec fn decode_list<T>(
    dec: spec_fn(Seq<u8>, int) -> Result<(T, int), DbError>,
    data: Seq<u8>,
    off: int,
    n: nat,
) -> Result<(Seq<T>, int), DbError>
    decreases n,
{
    if n == 0 {
        Ok((seq![], off))
    } else {
        match decode_list(dec, data, off, (n - 1) as nat) {
            Ok((xs, o)) => match dec(data, o) {
                Ok((x, o2)) => Ok((xs.push(x), o2)),
                Err(e) => Err(e),
            },
            Err(e) => Err(e),
        }
    }
}

/// Once reading a list fails, reading a longer one fails the same way.
pub proof fn lemma_decode_list_err<T>(
    dec: spec_fn(Seq<u8>, int) -> Result<(T, int), DbError>,
    data: Seq<u8>,
    off: int,
    i: nat,
    n: nat,
)
    requires
        i <= n,
        decode_list(dec, data, off, i) is Err,
    ensures
        decode_list(dec, data, off, n) == decode_list(dec, data, off, i),
    decreases n,
{
    if n > i {
        lemma_decode_list_err(dec, data, off, i, (n - 1) as nat);
    }
}

/// A decoder that reads back what the encoder writes, wherever it stands.
pub open spec fn reads_back<T>(
    enc: spec_fn(T) -> Seq<u8>,
    dec: spec_fn(Seq<u8>, int) -> Result<(T, int), DbError>,
    x: T,
) -> bool {
    forall|p: Seq<u8>, r: Seq<u8>|
        #[trigger] dec(p + enc(x) + r, p.len() as int) == Ok::<(T, int), DbError>(
            (x, (p.len() + enc(x).len()) as int),
        )
}

/// An encoded list reads back item by item when each item does.
pub proof fn lemma_list_roundtrip<T>(
    enc: spec_fn(T) -> Seq<u8>,
    dec: spec_fn(Seq<u8>, int) -> Result<(T, int), DbError>,
    xs: Seq<T>,
    p: Seq<u8>,
    r: Seq<u8>,
)
    requires
        forall|i: int| 0 <= i < xs.len() ==> reads_back(enc, dec, #[trigger] xs[i]),
    ensures
        decode_list(dec, p + encode_list(enc, xs) + r, p.len() as int, xs.len()) == Ok::<
            (Seq<T>, int),
            DbError,
        >((xs, (p.len() + encode_list(enc, xs).len()) as int)),
    decreases xs.len(),
{
    if xs.len() > 0 {
        let ys = xs.drop_last();
        let x = xs.last();
        assert forall|i: int| 0 <= i < ys.len() implies reads_back(enc, dec, #[trigger] ys[i]) by {
            assert(ys[i] == xs[i]);
        }
        lemma_list_roundtrip(enc, dec, ys, p, enc(x) + r);
        let e = encode_list(enc, ys);
        assert(p + e + (enc(x) + r) =~= p + encode_list(enc, xs) + r);
        assert(reads_back(enc, dec, xs[xs.len() - 1]));
        let q = p + e;
        assert(p + encode_list(enc, xs) + r =~= q + enc(x) + r);
        assert(dec(q + enc(x) + r, q.len() as int) == Ok::<(T, int), DbError>(
            (x, (q.len() + enc(x).len()) as int),
        ));
        assert(ys.push(x) =~= xs);
    } else {
        assert(xs =~= Seq::<T>::empty());
    }
}

/// A string preceded by the length of its UTF-8 bytes as one byte.
pub open spec fn u8_prefixed_str(s: Seq<char>) -> Seq<u8> {
    seq![utf8_of(s).len() as u8] + utf8_of(s)
}

/// Reading a one-byte-length-prefixed string at `off`.
pub open spec fn decode_u8_str(data: Seq<u8>, off: int) -> Result<(Seq<char>, int), DbError> {
    if 0 <= off && off < data.len() {
        let n = data[off] as int;
        if off + 1 + n <= data.len() {
            let b = data.subrange(off + 1, off + 1 + n);
            if valid_utf8(b) {
                Ok((decode_utf8(b), off + 1 + n))
            } else {
                Err(DbError::InvalidData)
            }
        } else {
            Err(DbError::UnexpectedEof)
        }
    } else {
        Err(DbError::UnexpectedEof)
    }
}

/// A string of fewer than 256 UTF-8 bytes reads back, wherever it stands.
pub proof fn lemma_u8_str_roundtrip(s: Seq<char>)
    requires
        utf8_of(s).len() < 256,
    ensures
        forall|p: Seq<u8>, r: Seq<u8>|
            #[trigger] decode_u8_str(p + u8_prefixed_str(s) + r, p.len() as int) == Ok::<
                (Seq<char>, int),
                DbError,
            >((s, (p.len() + u8_prefixed_str(s).len()) as int)),
{
    assert forall|p: Seq<u8>, r: Seq<u8>|
        #[trigger] decode_u8_str(p + u8_prefixed_str(s) + r, p.len() as int) == Ok::<
            (Seq<char>, int),
            DbError,
        >((s, (p.len() + u8_prefixed_str(s).len()) as int)) by {
        let d = p + u8_prefixed_str(s) + r;
        let off = p.len() as int;
        assert(d[off] == utf8_of(s).len() as u8);
        assert(d.subrange(off + 1, off + 1 + utf8_of(s).len()) =~= utf8_of(s));
    }
}

/// Reads a one-byte-length-prefixed string at `off`.
pub fn read_u8_str(data: &[u8], off: usize) -> (r: Result<(String, usize), DbError>)
    ensures
        match decode_u8_str(data@, off as int) {
            Ok((s, end)) => r matches Ok((x, e)) && x@ == s && e as int == end,
            Err(err) => r == Err::<(String, usize), DbError>(err),
        },
{
    let dlen = data.len();
    if off >= dlen {
        return Err(DbError::UnexpectedEof);
    }
    let n = data[off] as usize;
    if n > dlen - off - 1 {
        return Err(DbError::UnexpectedEof);
    }
    let start = off + 1;
    let bytes = vstd::slice::slice_to_vec(vstd::slice::slice_subrange(data, start, start + n));
    match string_from_utf8(bytes) {
        Some(s) => Ok((s, start + n)),
        None => Err(DbError::InvalidData),
    }
}

/// Appends a string preceded by its UTF-8 length as one byte (the length is
/// truncated to its lowest byte).
pub fn write_u8_str(buf: &mut Vec<u8>, s: &str)
    ensures
        final(buf)@ == old(buf)@ + u8_prefixed_str(s@),
{
    let bytes = s.as_bytes();
    buf.push(bytes.len() as u8);
    append_bytes(buf, bytes);
    assert(final(buf)@ =~= old(buf)@ + u8_prefixed_str(s@));
}

/// The contents of a list of strings.
pub open spec fn strings_view(v: Seq<String>) -> Seq<Seq<char>> {
    Seq::new(v.len(), |i: int| v[i]@)
}

/// The contents of a list of string slices.
pub open spec fn str_slices_view(v: Seq<&str>) -> Seq<Seq<char>> {
    Seq::new(v.len(), |i: int| v[i]@)
}

/// The one-byte-prefixed string encoder and decoder as spec closures.
pub open spec fn str_encoder() -> spec_fn(Seq<char>) -> Seq<u8> {
    |s: Seq<char>| u8_prefixed_str(s)
}

pub open spec fn str_decoder() -> spec_fn(Seq<u8>, int) -> Result<(Seq<char>, int), DbError> {
    |d: Seq<u8>, o: int| decode_u8_str(d, o)
}

/// Strings of fewer than 256 UTF-8 bytes each read back as a list.
pub proof fn lemma_str_list_roundtrip(xs: Seq<Seq<char>>, p: Seq<u8>, r: Seq<u8>)
    requires
        forall|i: int| 0 <= i < xs.len() ==> utf8_of(#[trigger] xs[i]).len() < 256,
    ensures
        decode_list(str_decoder(), p + encode_list(str_encoder(), xs) + r, p.len() as int, xs.len())
            == Ok::<(Seq<Seq<char>>, int), DbError>(
            (xs, (p.len() + encode_list(str_encoder(), xs).len()) as int),
        ),
{
    assert forall|i: int| 0 <= i < xs.len() implies reads_back(
        str_encoder(),
        str_decoder(),
        #[trigger] xs[i],
    ) by {
        lemma_u8_str_roundtrip(xs[i]);
        assert forall|p: Seq<u8>, r: Seq<u8>|
            #[trigger] (str_decoder())(p + (str_encoder())(xs[i]) + r, p.len() as int) == Ok::<
                (Seq<char>, int),
                DbError,
            >((xs[i], (p.len() + (str_encoder())(xs[i]).len()) as int)) by {
            assert(decode_u8_str(p + u8_prefixed_str(xs[i]) + r, p.len() as int) == Ok::<
                (Seq<char>, int),
                DbError,
            >((xs[i], (p.len() + u8_prefixed_str(xs[i]).len()) as int)));
        }
    }
    lemma_list_roundtrip(str_encoder(), str_decoder(), xs, p, r);
}

/// Appends each string, one-byte-length-prefixed.
pub fn write_str_list(buf: &mut Vec<u8>, v: &Vec<String>)
    ensures
        final(buf)@ == old(buf)@ + encode_list(str_encoder(), strings_view(v@)),
{
    let ghost start = buf@;
    let ghost sv = strings_view(v@);
    let mut i: usize = 0;
    assert(sv.take(0) =~= Seq::<Seq<char>>::empty());
    while i < v.len()
        invariant
            0 <= i <= v@.len(),
            sv == strings_view(v@),
            buf@ == start + encode_list(str_encoder(), sv.take(i as int)),
        decreases v@.len() - i,
    {
        write_u8_str(buf, v[i].as_str());
        assert(sv.take(i + 1).drop_last() =~= sv.take(i as int));
        assert(sv.take(i + 1).last() == v@[i as int]@);
        assert(buf@ =~= start + encode_list(str_encoder(), sv.take(i + 1)));
        i = i + 1;
    }
    assert(sv.take(v@.len() as int) =~= sv);
}

/// Reads `n` one-byte-length-prefixed strings from `off`.
pub fn read_str_list(data: &[u8], off: usize, n: usize) -> (r: Result<(Vec<String>, usize), DbError>)
    ensures
        match decode_list(str_decoder(), data@, off as int, n as nat) {
            Ok((xs, end)) => r matches Ok((v, e)) && strings_view(v@) == xs && e as int == end,
            Err(err) => r == Err::<(Vec<String>, usize), DbError>(err),
        },
{
    let mut v: Vec<String> = Vec::new();
    let mut o = off;
    let mut i: usize = 0;
    assert(strings_view(v@) =~= Seq::<Seq<char>>::empty());
    while i < n
        invariant
            0 <= i <= n,
            decode_list(str_decoder(), data@, off as int, i as nat) == Ok::<
                (Seq<Seq<char>>, int),
                DbError,
            >((strings_view(v@), o as int)),
        decreases n - i,
    {
        match read_u8_str(data, o) {
            Ok((s, e)) => {
                let ghost before = strings_view(v@);
                v.push(s);
                assert(strings_view(v@) =~= before.push(s@));
                o = e;
            },
            Err(err) => {
                proof {
                    lemma_decode_list_err(str_decoder(), data@, off as int, (i + 1) as nat, n as nat);
                }
                return Err(err);
            },
        }
        i = i + 1;
    }
    Ok((v, o))
}

/// A copy of a list of strings.
pub fn copy_strings(v: &Vec<String>) -> (r: Vec<String>)
    ensures
        strings_view(r@) == strings_view(v@),
{
    let mut out: Vec<String> = Vec::new();
    let mut i: usize = 0;
    while i < v.len()
        invariant
            0 <= i <= v@.len(),
            strings_view(out@) == strings_view(v@).take(i as int),
        decreases v@.len() - i,
    {
        let c = v[i].clone();
        assert(c@ == v@[i as int]@);
        let ghost before = out@;
        out.push(c);
        assert(out@ == before.push(c));
        assert(strings_view(before).len() == before.len());
        assert(before.len() == i);
        assert(out@.len() == i + 1);
        assert forall|j: int| 0 <= j < i implies strings_view(out@)[j] == strings_view(v@).take(i + 1)[j] by {
            assert(strings_view(before)[j] == strings_view(v@).take(i as int)[j]);
        }
        assert(strings_view(out@) =~= strings_view(v@).take(i + 1));
        i = i + 1;
    }
    assert(strings_view(v@).take(v@.len() as int) =~= strings_view(v@));
    out
}

/// The UTF-8 bytes of a string.
pub open spec fn utf8_of(s: Seq<char>) -> Seq<u8> {
    encode_utf8(s)
}

/// Copies the UTF-8 bytes of a string into a new vector.
pub fn string_bytes(s: &str) -> (r: Vec<u8>)
    ensures
        r@ == utf8_of(s@),
{
    vstd::slice::slice_to_vec(s.as_bytes())
}

/// `std::string::String::from_utf8`: the bytes as a string when they are
/// valid UTF-8 (the string then is the characters they encode), and nothing
/// when they are not.
#[verifier::external_body]
fn std_string_from_utf8(bytes: Vec<u8>) -> (r: Option<String>)
    ensures
        match r {
            Some(s) => valid_utf8(bytes@) && s@ == decode_utf8(bytes@),
            None => !valid_utf8(bytes@),
        },
{
    String::from_utf8(bytes).ok()
}

/// Decodes UTF-8 bytes into a string.
pub fn string_from_utf8(bytes: Vec<u8>) -> (r: Option<String>)
    ensures
        match r {
            Some(s) => valid_utf8(bytes@) && s@ == decode_utf8(bytes@) && utf8_of(s@) == bytes@,
            None => !valid_utf8(bytes@),
        },
{
    std_string_from_utf8(bytes)
}

/// Decoding the UTF-8 bytes of a string gives the string back.
pub proof fn lemma_utf8_roundtrip(s: Seq<char>)
    ensures
        valid_utf8(utf8_of(s)),
        decode_utf8(utf8_of(s)) == s,
{
}

/// Equality of two strings, decided on their bytes.
pub fn str_equal(a: &str, b: &str) -> (r: bool)
    ensures
        r == (a@ == b@),
{
    let r = bytes_equal(a.as_bytes(), b.as_bytes());
    proof {
        if r {
            assert(decode_utf8(encode_utf8(a@)) == a@);
            assert(decode_utf8(encode_utf8(b@)) == b@);
        }
    }
    r
}

} // verus!
