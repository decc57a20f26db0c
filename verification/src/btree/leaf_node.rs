use vstd::prelude::*;
use vstd::bytes::*;
use crate::codec::{
    KeyOrder, lex_order, lex_le, compare_bytes, u16_prefixed, decode_u16_prefixed,
    lemma_u16_prefixed_len, lemma_u16_prefixed_roundtrip, read_u16_prefixed, read_u16_le,
    read_u64_le, padded, write_after, zeros, byte_strings,
};
use crate::error::DbError;
use crate::storage::file_header::PAGE_SIZE;

verus! {

/// Tag byte of a leaf page.
pub const NODE_LEAF: u8 = 0x02;

/// A leaf splits when it reaches this many entries.
pub const LEAF_SPLIT_ENTRIES: usize = 30;

/// Bytes before the first entry of a leaf page: tag, two sibling pointers,
/// entry count.
pub const LEAF_HEADER_LEN: usize = 19;

/// A leaf of a B+ tree: sorted keys with their values, and the page numbers
/// of its neighbours in key order (0 where there is none).
#[derive(Debug)]
pub struct LeafNode {
    pub keys: Vec<Vec<u8>>,
    pub values: Vec<Vec<u8>>,
    pub next_leaf: u64,
    pub prev_leaf: u64,
}

/// A leaf as plain values.
pub struct LeafV {
    pub keys: Seq<Seq<u8>>,
    pub values: Seq<Seq<u8>>,
    pub next_leaf: u64,
    pub prev_leaf: u64,
}

impl View for LeafNode {
    type V = LeafV;

    open spec fn view(&self) -> LeafV {
        LeafV {
            keys: byte_strings(self.keys@),
            values: byte_strings(self.values@),
            next_leaf: self.next_leaf,
            prev_leaf: self.prev_leaf,
        }
    }
}

/// One entry as stored: the key, then the value, each `u16`-length-prefixed.
pub open spec fn entry_bytes(k: Seq<u8>, v: Seq<u8>) -> Seq<u8> {
    u16_prefixed(k) + u16_prefixed(v)
}

/// The first `n` entries as stored.
pub open spec fn entries_bytes(ks: Seq<Seq<u8>>, vs: Seq<Seq<u8>>, n: nat) -> Seq<u8>
    decreases n,
{
    if n == 0 {
        seq![]
    } else {
        entries_bytes(ks, vs, (n - 1) as nat) + entry_bytes(ks[n - 1], vs[n - 1])
    }
}

/// The meaningful prefix of a leaf page.
pub open spec fn leaf_body(l: LeafV) -> Seq<u8> {
    seq![NODE_LEAF] + spec_u64_to_le_bytes(l.next_leaf) + spec_u64_to_le_bytes(l.prev_leaf)
        + spec_u16_to_le_bytes(l.keys.len() as u16) + entries_bytes(l.keys, l.values, l.keys.len())
}

/// The page that `LeafNode::serialize` writes.
pub open spec fn leaf_bytes(l: LeafV) -> Seq<u8> {
    padded(leaf_body(l), PAGE_SIZE as nat)
}

/// A leaf with as many values as keys, whose encoding fits in a page.
pub open spec fn leaf_fits(l: LeafV) -> bool {
    l.keys.len() == l.values.len() && leaf_body(l).len() <= PAGE_SIZE
}

/// Reading `n` entries from `off`: keys, values and the offset past them.
pub open spec fn decode_entries(data: Seq<u8>, off: int, n: nat) -> Option<
    (Seq<Seq<u8>>, Seq<Seq<u8>>, int),
>
    decreases n,
{
    if n == 0 {
        Some((seq![], seq![], off))
    } else {
        match decode_entries(data, off, (n - 1) as nat) {
            Some((ks, vs, o)) => match decode_u16_prefixed(data, o) {
                Some((k, o2)) => match decode_u16_prefixed(data, o2) {
                    Some((v, o3)) => Some((ks.push(k), vs.push(v), o3)),
                    None => None,
                },
                None => None,
            },
            None => None,
        }
    }
}

/// What `LeafNode::deserialize` reads from a page.
pub open spec fn decode_leaf(data: Seq<u8>) -> Result<LeafV, DbError> {
    if data[0] != NODE_LEAF {
        Err(DbError::InvalidData)
    } else {
        let n = spec_u16_from_le_bytes(data.subrange(17, 19));
        match decode_entries(data, LEAF_HEADER_LEN as int, n as nat) {
            Some((ks, vs, _)) => Ok(
                LeafV {
                    keys: ks,
                    values: vs,
                    next_leaf: spec_u64_from_le_bytes(data.subrange(1, 9)),
                    prev_leaf: spec_u64_from_le_bytes(data.subrange(9, 17)),
                },
            ),
            None => Err(DbError::UnexpectedEof),
        }
    }
}

/// The encoding of the first `n` entries depends only on those entries.
pub proof fn lemma_entries_prefix(ks: Seq<Seq<u8>>, vs: Seq<Seq<u8>>, ks2: Seq<Seq<u8>>, vs2: Seq<Seq<u8>>, n: nat)
    requires
        n <= ks.len(),
        n <= vs.len(),
        n <= ks2.len(),
        n <= vs2.len(),
        forall|i: int| 0 <= i < n ==> ks[i] == ks2[i] && vs[i] == vs2[i],
    ensures
        entries_bytes(ks, vs, n) == entries_bytes(ks2, vs2, n),
    decreases n,
{
    if n > 0 {
        lemma_entries_prefix(ks, vs, ks2, vs2, (n - 1) as nat);
    }
}

/// Entries read from a page take up exactly their encoding, within the
/// page.
pub proof fn lemma_decode_entries_len(data: Seq<u8>, off: int, n: nat)
    requires
        0 <= off,
        decode_entries(data, off, n) is Some,
    ensures
        decode_entries(data, off, n).unwrap().0.len() == n,
        decode_entries(data, off, n).unwrap().1.len() == n,
        decode_entries(data, off, n).unwrap().2 == off + entries_bytes(
            decode_entries(data, off, n).unwrap().0,
            decode_entries(data, off, n).unwrap().1,
            n,
        ).len(),
        decode_entries(data, off, n).unwrap().2 <= data.len() || n == 0,
    decreases n,
{
    if n > 0 {
        let (ks0, vs0, o0) = decode_entries(data, off, (n - 1) as nat).unwrap();
        lemma_decode_entries_len(data, off, (n - 1) as nat);
        let (k, o2) = decode_u16_prefixed(data, o0).unwrap();
        let (v, o3) = decode_u16_prefixed(data, o2).unwrap();
        let ks = ks0.push(k);
        let vs = vs0.push(v);
        lemma_entries_prefix(ks, vs, ks0, vs0, (n - 1) as nat);
        lemma_u16_prefixed_len(k);
        lemma_u16_prefixed_len(v);
        assert(entries_bytes(ks, vs, n) == entries_bytes(ks, vs, (n - 1) as nat) + entry_bytes(k, v));
    }
}

/// A leaf read from a page fits in a page.
pub proof fn lemma_decoded_leaf_fits(data: Seq<u8>)
    requires
        data.len() == PAGE_SIZE,
        decode_leaf(data) is Ok,
    ensures
        leaf_fits(decode_leaf(data).unwrap()),
{
    lemma_auto_spec_u64_to_from_le_bytes();
    lemma_auto_spec_u16_to_from_le_bytes();
    let l = decode_leaf(data).unwrap();
    let n = spec_u16_from_le_bytes(data.subrange(17, 19));
    lemma_decode_entries_len(data, LEAF_HEADER_LEN as int, n as nat);
    assert((l.keys.len() as u16) == n);
}

/// Dropping one entry leaves an encoding no longer than before.
pub proof fn lemma_entries_remove_len(ks: Seq<Seq<u8>>, vs: Seq<Seq<u8>>, n: nat, pos: int)
    requires
        n == ks.len(),
        n == vs.len(),
        0 <= pos < n,
    ensures
        entries_bytes(ks.remove(pos), vs.remove(pos), (n - 1) as nat).len() <= entries_bytes(ks, vs, n).len(),
    decreases n,
{
    let ks2 = ks.remove(pos);
    let vs2 = vs.remove(pos);
    if pos == n - 1 {
        lemma_entries_prefix(ks2, vs2, ks, vs, (n - 1) as nat);
    } else {
        let ksd = ks.drop_last();
        let vsd = vs.drop_last();
        lemma_entries_remove_len(ksd, vsd, (n - 1) as nat, pos);
        lemma_entries_prefix(ks2, vs2, ksd.remove(pos), vsd.remove(pos), (n - 2) as nat);
        lemma_entries_prefix(ks, vs, ksd, vsd, (n - 1) as nat);
        assert(ks2[n - 2] == ks[n - 1]);
        assert(vs2[n - 2] == vs[n - 1]);
    }
}

/// One more entry, wherever it goes, lengthens the encoding by the entry.
pub proof fn lemma_entries_insert_len(ks: Seq<Seq<u8>>, vs: Seq<Seq<u8>>, n: nat, pos: int, k: Seq<u8>, v: Seq<u8>)
    requires
        n == ks.len(),
        n == vs.len(),
        0 <= pos <= n,
    ensures
        entries_bytes(ks.insert(pos, k), vs.insert(pos, v), n + 1).len() == entries_bytes(ks, vs, n).len() + 4 + k.len() + v.len(),
    decreases n,
{
    lemma_u16_prefixed_len(k);
    lemma_u16_prefixed_len(v);
    let ks2 = ks.insert(pos, k);
    let vs2 = vs.insert(pos, v);
    if pos == n {
        lemma_entries_prefix(ks2, vs2, ks, vs, n);
        assert(ks2[n as int] == k && vs2[n as int] == v);
    } else {
        let ksd = ks.drop_last();
        let vsd = vs.drop_last();
        lemma_entries_insert_len(ksd, vsd, (n - 1) as nat, pos, k, v);
        lemma_entries_prefix(ks2, vs2, ksd.insert(pos, k), vsd.insert(pos, v), n);
        lemma_entries_prefix(ks, vs, ksd, vsd, (n - 1) as nat);
        assert(ks2[n as int] == ks[n - 1]);
        assert(vs2[n as int] == vs[n - 1]);
        lemma_u16_prefixed_len(ks[n - 1]);
        lemma_u16_prefixed_len(vs[n - 1]);
    }
}

/// A new value for one entry changes the length of the encoding by the
/// difference of the values' lengths.
pub proof fn lemma_entries_update_len(ks: Seq<Seq<u8>>, vs: Seq<Seq<u8>>, n: nat, pos: int, v: Seq<u8>)
    requires
        n == ks.len(),
        n == vs.len(),
        0 <= pos < n,
    ensures
        entries_bytes(ks, vs.update(pos, v), n).len() == entries_bytes(ks, vs, n).len() - vs[pos].len() + v.len(),
    decreases n,
{
    let vs2 = vs.update(pos, v);
    lemma_u16_prefixed_len(v);
    lemma_u16_prefixed_len(vs[pos]);
    if pos == n - 1 {
        lemma_entries_prefix(ks, vs2, ks, vs, (n - 1) as nat);
    } else {
        let ksd = ks.drop_last();
        let vsd = vs.drop_last();
        lemma_entries_update_len(ksd, vsd, (n - 1) as nat, pos, v);
        lemma_entries_prefix(ks, vs2, ksd, vsd.update(pos, v), (n - 1) as nat);
        lemma_entries_prefix(ks, vs, ksd, vsd, (n - 1) as nat);
        assert(vs2[n - 1] == vs[n - 1]);
    }
}

/// A leaf with one more entry still fits when there was room for the entry.
pub proof fn lemma_leaf_insert_fits(l: LeafV, pos: int, k: Seq<u8>, v: Seq<u8>)
    requires
        l.keys.len() == l.values.len(),
        0 <= pos <= l.keys.len(),
        l.keys.len() + 1 < 65536,
        leaf_body(l).len() + 4 + k.len() + v.len() <= PAGE_SIZE,
    ensures
        leaf_fits(LeafV { keys: l.keys.insert(pos, k), values: l.values.insert(pos, v), ..l }),
{
    lemma_auto_spec_u64_to_from_le_bytes();
    lemma_auto_spec_u16_to_from_le_bytes();
    lemma_entries_insert_len(l.keys, l.values, l.keys.len(), pos, k, v);
}

/// A leaf with a new value for one entry still fits when there was room for
/// the new value.
pub proof fn lemma_leaf_update_fits(l: LeafV, pos: int, v: Seq<u8>)
    requires
        l.keys.len() == l.values.len(),
        0 <= pos < l.keys.len(),
        leaf_body(l).len() + v.len() <= PAGE_SIZE,
    ensures
        leaf_fits(LeafV { values: l.values.update(pos, v), ..l }),
{
    lemma_auto_spec_u64_to_from_le_bytes();
    lemma_auto_spec_u16_to_from_le_bytes();
    lemma_entries_update_len(l.keys, l.values, l.keys.len(), pos, v);
}

/// The encoding of entries splits where the entries do.
pub proof fn lemma_entries_split(ks: Seq<Seq<u8>>, vs: Seq<Seq<u8>>, n: nat, mid: nat)
    requires
        n == ks.len(),
        n == vs.len(),
        mid <= n,
    ensures
        entries_bytes(ks, vs, n) == entries_bytes(ks, vs, mid) + entries_bytes(ks.skip(mid as int), vs.skip(mid as int), (n - mid) as nat),
        entries_bytes(ks.take(mid as int), vs.take(mid as int), mid) == entries_bytes(ks, vs, mid),
    decreases n,
{
    lemma_entries_prefix(ks.take(mid as int), vs.take(mid as int), ks, vs, mid);
    if n == mid {
        assert(entries_bytes(ks.skip(mid as int), vs.skip(mid as int), 0) =~= seq![]);
        assert(entries_bytes(ks, vs, mid) + seq![] =~= entries_bytes(ks, vs, mid));
    } else {
        let ksd = ks.drop_last();
        let vsd = vs.drop_last();
        lemma_entries_split(ksd, vsd, (n - 1) as nat, mid);
        lemma_entries_prefix(ks, vs, ksd, vsd, (n - 1) as nat);
        lemma_entries_prefix(ks, vs, ksd, vsd, mid);
        lemma_entries_prefix(ks.skip(mid as int), vs.skip(mid as int), ksd.skip(mid as int), vsd.skip(mid as int), (n - 1 - mid) as nat);
        assert(ks.skip(mid as int)[n - 1 - mid] == ks[n - 1]);
        assert(vs.skip(mid as int)[n - 1 - mid] == vs[n - 1]);
        let a = entries_bytes(ks, vs, mid);
        let b = entries_bytes(ksd.skip(mid as int), vsd.skip(mid as int), (n - 1 - mid) as nat);
        let e = entry_bytes(ks[n - 1], vs[n - 1]);
        assert(a + b + e =~= a + (b + e));
    }
}

/// Both halves of a leaf that fits fit, whatever their sibling pages.
pub proof fn lemma_leaf_halves_fit(l: LeafV, mid: int, a: u64, b: u64, c: u64, d: u64)
    requires
        leaf_fits(l),
        0 <= mid <= l.keys.len(),
    ensures
        leaf_fits(LeafV { keys: l.keys.take(mid), values: l.values.take(mid), next_leaf: a, prev_leaf: b }),
        leaf_fits(LeafV { keys: l.keys.skip(mid), values: l.values.skip(mid), next_leaf: c, prev_leaf: d }),
{
    lemma_auto_spec_u64_to_from_le_bytes();
    lemma_auto_spec_u16_to_from_le_bytes();
    lemma_entries_split(l.keys, l.values, l.keys.len(), mid as nat);
}

/// A leaf that fits still fits with one entry dropped.
pub proof fn lemma_leaf_remove_fits(l: LeafV, pos: int)
    requires
        leaf_fits(l),
        0 <= pos < l.keys.len(),
    ensures
        leaf_fits(LeafV { keys: l.keys.remove(pos), values: l.values.remove(pos), ..l }),
{
    lemma_auto_spec_u64_to_from_le_bytes();
    lemma_auto_spec_u16_to_from_le_bytes();
    lemma_entries_remove_len(l.keys, l.values, l.keys.len(), pos);
}

/// Once reading entries fails, reading more of them fails too.
pub proof fn lemma_decode_entries_none(data: Seq<u8>, off: int, i: nat, n: nat)
    requires
        i <= n,
        decode_entries(data, off, i) is None,
    ensures
        decode_entries(data, off, n) is None,
    decreases n,
{
    if n > i {
        lemma_decode_entries_none(data, off, i, (n - 1) as nat);
    }
}

/// The stored length of the first `n` entries, and that it grows with `n`.
pub proof fn lemma_entries_len(ks: Seq<Seq<u8>>, vs: Seq<Seq<u8>>, i: nat, n: nat)
    requires
        i < n,
    ensures
        entries_bytes(ks, vs, (i + 1) as nat).len() == entries_bytes(ks, vs, i).len() + 4
            + ks[i as int].len() + vs[i as int].len(),
        entries_bytes(ks, vs, n).len() >= entries_bytes(ks, vs, (i + 1) as nat).len(),
    decreases n,
{
    lemma_u16_prefixed_len(ks[i as int]);
    lemma_u16_prefixed_len(vs[i as int]);
    if n > i + 1 {
        lemma_entries_len(ks, vs, i, (n - 1) as nat);
        lemma_u16_prefixed_len(ks[n - 1]);
        lemma_u16_prefixed_len(vs[n - 1]);
    }
}

/// Stored entries read back, wherever they stand.
pub proof fn lemma_entries_roundtrip(
    ks: Seq<Seq<u8>>,
    vs: Seq<Seq<u8>>,
    n: nat,
    p: Seq<u8>,
    r: Seq<u8>,
)
    requires
        n <= ks.len(),
        n <= vs.len(),
        forall|i: int| 0 <= i < n ==> ks[i].len() < 0x1_0000 && vs[i].len() < 0x1_0000,
    ensures
        decode_entries(p + entries_bytes(ks, vs, n) + r, p.len() as int, n) == Some(
            (ks.take(n as int), vs.take(n as int), (p.len() + entries_bytes(ks, vs, n).len()) as int),
        ),
    decreases n,
{
    if n > 0 {
        let m = (n - 1) as nat;
        let k = ks[m as int];
        let v = vs[m as int];
        let e = entries_bytes(ks, vs, m);
        lemma_entries_roundtrip(ks, vs, m, p, entry_bytes(k, v) + r);
        assert(p + e + (entry_bytes(k, v) + r) =~= p + entries_bytes(ks, vs, n) + r);
        let d = p + entries_bytes(ks, vs, n) + r;
        assert(d =~= (p + e) + u16_prefixed(k) + (u16_prefixed(v) + r));
        lemma_u16_prefixed_roundtrip(p + e, k, u16_prefixed(v) + r);
        assert(d =~= (p + e + u16_prefixed(k)) + u16_prefixed(v) + r);
        lemma_u16_prefixed_roundtrip(p + e + u16_prefixed(k), v, r);
        lemma_u16_prefixed_len(k);
        lemma_u16_prefixed_len(v);
        assert(ks.take(m as int).push(k) =~= ks.take(n as int));
        assert(vs.take(m as int).push(v) =~= vs.take(n as int));
    }
}

/// Every key and value of a leaf that fits is shorter than 2^16 bytes.
pub proof fn lemma_leaf_fits_lengths(l: LeafV)
    requires
        leaf_fits(l),
    ensures
        forall|i: int|
            0 <= i < l.keys.len() ==> l.keys[i].len() < 0x1_0000 && l.values[i].len() < 0x1_0000,
        l.keys.len() < 0x1_0000,
{
    lemma_auto_spec_u64_to_from_le_bytes();
    lemma_auto_spec_u16_to_from_le_bytes();
    assert forall|i: int| 0 <= i < l.keys.len() implies l.keys[i].len() < 0x1_0000 && l.values[i].len()
        < 0x1_0000 by {
        lemma_entries_len(l.keys, l.values, i as nat, l.keys.len());
    }
    if l.keys.len() > 0 {
        lemma_entries_len_lower(l.keys, l.values, l.keys.len());
    }
}

/// Each stored entry takes at least four bytes.
pub proof fn lemma_entries_len_lower(ks: Seq<Seq<u8>>, vs: Seq<Seq<u8>>, n: nat)
    ensures
        entries_bytes(ks, vs, n).len() >= 4 * n,
    decreases n,
{
    if n > 0 {
        lemma_entries_len_lower(ks, vs, (n - 1) as nat);
        lemma_u16_prefixed_len(ks[n - 1]);
        lemma_u16_prefixed_len(vs[n - 1]);
    }
}

/// Reading back the page of a leaf that fits gives the leaf.
pub proof fn lemma_leaf_roundtrip(l: LeafV)
    requires
        leaf_fits(l),
    ensures
        leaf_bytes(l).len() == PAGE_SIZE,
        decode_leaf(leaf_bytes(l)) == Ok::<LeafV, DbError>(l),
{
    lemma_auto_spec_u64_to_from_le_bytes();
    lemma_auto_spec_u16_to_from_le_bytes();
    lemma_leaf_fits_lengths(l);
    let n = l.keys.len();
    let head = seq![NODE_LEAF] + spec_u64_to_le_bytes(l.next_leaf) + spec_u64_to_le_bytes(l.prev_leaf)
        + spec_u16_to_le_bytes(n as u16);
    let e = entries_bytes(l.keys, l.values, n);
    let zs = Seq::new((PAGE_SIZE - leaf_body(l).len()) as nat, |i: int| 0u8);
    let d = leaf_bytes(l);
    assert(d =~= head + e + zs);
    assert(d.subrange(1, 9) =~= spec_u64_to_le_bytes(l.next_leaf));
    assert(d.subrange(9, 17) =~= spec_u64_to_le_bytes(l.prev_leaf));
    assert(d.subrange(17, 19) =~= spec_u16_to_le_bytes(n as u16));
    assert((n as u16) as nat == n);
    lemma_entries_roundtrip(l.keys, l.values, n, head, zs);
    assert(l.keys.take(n as int) =~= l.keys);
    assert(l.values.take(n as int) =~= l.values);
}

impl LeafNode {
    /// An empty leaf with no neighbours.
    pub fn new() -> (l: Self)
        ensures
            l@.keys.len() == 0,
            l@.values.len() == 0,
            l@.next_leaf == 0,
            l@.prev_leaf == 0,
    {
        LeafNode { keys: Vec::new(), values: Vec::new(), next_leaf: 0, prev_leaf: 0 }
    }

    /// Whether the encoding of the leaf fits in a page.
    pub fn fits_in_page(&self) -> (r: bool)
        ensures
            r == leaf_fits(self@),
    {
        if self.keys.len() != self.values.len() {
            return false;
        }
        proof {
            lemma_auto_spec_u64_to_from_le_bytes();
            lemma_auto_spec_u16_to_from_le_bytes();
        }
        let ghost l = self@;
        let mut total: usize = LEAF_HEADER_LEN;
        let mut i: usize = 0;
        while i < self.keys.len()
            invariant
                0 <= i <= l.keys.len(),
                l == self@,
                l.keys.len() == l.values.len(),
                total == LEAF_HEADER_LEN + entries_bytes(l.keys, l.values, i as nat).len(),
                total <= PAGE_SIZE,
            decreases l.keys.len() - i,
        {
            proof {
                lemma_entries_len(l.keys, l.values, i as nat, (i + 1) as nat);
            }
            let step_k = self.keys[i].len();
            let step_v = self.values[i].len();
            if step_k > PAGE_SIZE || step_v > PAGE_SIZE || total + 4 + step_k + step_v > PAGE_SIZE {
                proof {
                    lemma_auto_spec_u64_to_from_le_bytes();
                    lemma_auto_spec_u16_to_from_le_bytes();
                    lemma_entries_len(l.keys, l.values, i as nat, l.keys.len());
                    assert(leaf_body(l).len() == LEAF_HEADER_LEN + entries_bytes(l.keys, l.values, l.keys.len()).len());
                }
                return false;
            }
            total = total + 4 + step_k + step_v;
            i = i + 1;
        }
        true
    }

    /// Encodes the leaf as a page.
    pub fn serialize(&self) -> (r: Vec<u8>)
        requires
            leaf_fits(self@),
        ensures
            r@ == leaf_bytes(self@),
            r@.len() == PAGE_SIZE,
    {
        proof {
            lemma_auto_spec_u64_to_from_le_bytes();
            lemma_auto_spec_u16_to_from_le_bytes();
            lemma_leaf_fits_lengths(self@);
        }
        let ghost l = self@;
        let n = self.keys.len();
        let mut buf = zeros(PAGE_SIZE);
        let tag: [u8; 1] = [NODE_LEAF];
        assert(buf@ =~= padded(Seq::<u8>::empty(), PAGE_SIZE as nat));
        write_after(&mut buf, 0, tag.as_slice(), Ghost(Seq::<u8>::empty()), Ghost(PAGE_SIZE as nat));
        let ghost h1 = Seq::<u8>::empty() + tag@;
        let w = u64_to_le_bytes(self.next_leaf);
        write_after(&mut buf, 1, w.as_slice(), Ghost(h1), Ghost(PAGE_SIZE as nat));
        let ghost h2 = h1 + w@;
        let w = u64_to_le_bytes(self.prev_leaf);
        write_after(&mut buf, 9, w.as_slice(), Ghost(h2), Ghost(PAGE_SIZE as nat));
        let ghost h3 = h2 + w@;
        let w = u16_to_le_bytes(n as u16);
        write_after(&mut buf, 17, w.as_slice(), Ghost(h3), Ghost(PAGE_SIZE as nat));
        let ghost head = h3 + w@;
        assert(head =~= seq![NODE_LEAF] + spec_u64_to_le_bytes(l.next_leaf) + spec_u64_to_le_bytes(
            l.prev_leaf,
        ) + spec_u16_to_le_bytes(l.keys.len() as u16));
        let mut off: usize = LEAF_HEADER_LEN;
        let mut i: usize = 0;
        while i < n
            invariant
                0 <= i <= n,
                n == l.keys.len(),
                l == self@,
                leaf_fits(l),
                head.len() == LEAF_HEADER_LEN,
                buf@ == padded(head + entries_bytes(l.keys, l.values, i as nat), PAGE_SIZE as nat),
                off == head.len() + entries_bytes(l.keys, l.values, i as nat).len(),
                forall|j: int|
                    0 <= j < l.keys.len() ==> l.keys[j].len() < 0x1_0000 && l.values[j].len()
                        < 0x1_0000,
                head + entries_bytes(l.keys, l.values, n as nat) == leaf_body(l),
            decreases n - i,
        {
            proof {
                lemma_entries_len(l.keys, l.values, i as nat, n as nat);
                lemma_u16_prefixed_len(l.keys[i as int]);
                lemma_u16_prefixed_len(l.values[i as int]);
            }
            let ghost before = head + entries_bytes(l.keys, l.values, i as nat);
            let key = &self.keys[i];
            let value = &self.values[i];
            assert(key@ == l.keys[i as int]);
            assert(value@ == l.values[i as int]);
            let wk = u16_to_le_bytes(key.len() as u16);
            write_after(&mut buf, off, wk.as_slice(), Ghost(before), Ghost(PAGE_SIZE as nat));
            write_after(&mut buf, off + 2, key.as_slice(), Ghost(before + wk@), Ghost(PAGE_SIZE as nat));
            let wv = u16_to_le_bytes(value.len() as u16);
            write_after(
                &mut buf,
                off + 2 + key.len(),
                wv.as_slice(),
                Ghost(before + wk@ + key@),
                Ghost(PAGE_SIZE as nat),
            );
            write_after(
                &mut buf,
                off + 4 + key.len(),
                value.as_slice(),
                Ghost(before + wk@ + key@ + wv@),
                Ghost(PAGE_SIZE as nat),
            );
            assert(before + wk@ + key@ + wv@ + value@ =~= head + entries_bytes(
                l.keys,
                l.values,
                (i + 1) as nat,
            ));
            off = off + 4 + key.len() + value.len();
            i = i + 1;
        }
        buf
    }

    /// Decodes a leaf page. Fails with `InvalidData` when the tag is not that
    /// of a leaf and with `UnexpectedEof` when the entries run past the data.
    pub fn deserialize(data: &[u8]) -> (r: Result<Self, DbError>)
        requires
            data@.len() >= 1,
            data@[0] == NODE_LEAF ==> data@.len() >= LEAF_HEADER_LEN,
        ensures
            match decode_leaf(data@) {
                Ok(v) => r matches Ok(l) && l@ == v,
                Err(e) => r matches Err(x) && x == e,
            },
            r matches Ok(l) ==> l@.keys.len() == l@.values.len() && l.keys@.len() == l.values@.len(),
    {
        if data[0] != NODE_LEAF {
            return Err(DbError::InvalidData);
        }
        let next_leaf = read_u64_le(data, 1).unwrap();
        let prev_leaf = read_u64_le(data, 9).unwrap();
        let n = read_u16_le(data, 17).unwrap();
        let mut keys: Vec<Vec<u8>> = Vec::new();
        let mut values: Vec<Vec<u8>> = Vec::new();
        let mut off: usize = LEAF_HEADER_LEN;
        let mut i: u16 = 0;
        assert(byte_strings(keys@) =~= Seq::<Seq<u8>>::empty());
        assert(byte_strings(values@) =~= Seq::<Seq<u8>>::empty());
        while i < n
            invariant
                0 <= i <= n,
                data@[0] == NODE_LEAF,
                n == spec_u16_from_le_bytes(data@.subrange(17, 19)),
                decode_entries(data@, LEAF_HEADER_LEN as int, i as nat) == Some(
                    (byte_strings(keys@), byte_strings(values@), off as int),
                ),
                keys@.len() == i,
                values@.len() == i,
            decreases n - i,
        {
            match read_u16_prefixed(data, off) {
                Some((k, o2)) => match read_u16_prefixed(data, o2) {
                    Some((v, o3)) => {
                        let ghost kd = byte_strings(keys@);
                        let ghost vd = byte_strings(values@);
                        keys.push(k);
                        values.push(v);
                        assert(byte_strings(keys@) =~= kd.push(k@));
                        assert(byte_strings(values@) =~= vd.push(v@));
                        off = o3;
                    },
                    None => {
                        proof {
                            assert(decode_entries(data@, LEAF_HEADER_LEN as int, (i + 1) as nat) is None);
                            lemma_decode_entries_none(data@, LEAF_HEADER_LEN as int, (i + 1) as nat, n as nat);
                        }
                        return Err(DbError::UnexpectedEof);
                    },
                },
                None => {
                    proof {
                        lemma_decode_entries_none(data@, LEAF_HEADER_LEN as int, (i + 1) as nat, n as nat);
                    }
                    return Err(DbError::UnexpectedEof);
                },
            }
            i = i + 1;
        }
        Ok(LeafNode { keys, values, next_leaf, prev_leaf })
    }

    /// A leaf splits once it holds this many entries.
    pub fn is_full(&self) -> (r: bool)
        ensures
            r == (self@.keys.len() >= LEAF_SPLIT_ENTRIES),
    {
        self.keys.len() >= LEAF_SPLIT_ENTRIES
    }

    /// The position of the first key that is not below `key`, or the number of
    /// keys when there is none.
    pub fn find_key_position(&self, key: &[u8]) -> (r: usize)
        ensures
            r <= self@.keys.len(),
            forall|j: int| 0 <= j < r ==> lex_order(self@.keys[j], key@) == KeyOrder::Less,
            r < self@.keys.len() ==> lex_le(key@, self@.keys[r as int]),
    {
        let mut i: usize = 0;
        while i < self.keys.len()
            invariant
                0 <= i <= self@.keys.len(),
                forall|j: int| 0 <= j < i ==> lex_order(self@.keys[j], key@) == KeyOrder::Less,
            decreases self@.keys.len() - i,
        {
            let c = compare_bytes(self.keys[i].as_slice(), key);
            assert(self.keys@[i as int]@ == self@.keys[i as int]);
            if c != KeyOrder::Less {
                proof {
                    crate::codec::lemma_lex_order_flip(self@.keys[i as int], key@);
                }
                return i;
            }
            i = i + 1;
        }
        i
    }
}

} // verus!
