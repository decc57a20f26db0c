use vstd::prelude::*;
use vstd::bytes::*;
use crate::codec::{
    u16_prefixed, decode_u16_prefixed, lemma_u16_prefixed_len, lemma_u16_prefixed_roundtrip,
    read_u16_prefixed, read_u16_le, read_u64_le, padded, write_after, zeros, byte_strings,
};
use crate::error::DbError;
use crate::storage::file_header::PAGE_SIZE;

verus! {

/// Tag byte of an internal page.
pub const NODE_INTERNAL: u8 = 0x01;

/// Maximum number of children of an internal node.
pub const BTREE_ORDER: usize = 128;

/// Bytes before the first key of an internal page: tag and key count.
pub const INTERNAL_HEADER_LEN: usize = 3;

/// An internal node of a B+ tree: separator keys and the page numbers of the
/// children between them (one more child than keys).
#[derive(Debug)]
pub struct InternalNode {
    pub keys: Vec<Vec<u8>>,
    pub children: Vec<u64>,
}

/// An internal node as plain values.
pub struct InternalV {
    pub keys: Seq<Seq<u8>>,
    pub children: Seq<u64>,
}

impl View for InternalNode {
    type V = InternalV;

    open spec fn view(&self) -> InternalV {
        InternalV { keys: byte_strings(self.keys@), children: self.children@ }
    }
}

/// The first `n` keys as stored, each `u16`-length-prefixed.
pub open spec fn keys_bytes(ks: Seq<Seq<u8>>, n: nat) -> Seq<u8>
    decreases n,
{
    if n == 0 {
        seq![]
    } else {
        keys_bytes(ks, (n - 1) as nat) + u16_prefixed(ks[n - 1])
    }
}

/// The first `n` child page numbers as stored.
pub open spec fn children_bytes(cs: Seq<u64>, n: nat) -> Seq<u8>
    decreases n,
{
    if n == 0 {
        seq![]
    } else {
        children_bytes(cs, (n - 1) as nat) + spec_u64_to_le_bytes(cs[n - 1])
    }
}

/// The meaningful prefix of an internal page.
pub open spec fn internal_body(x: InternalV) -> Seq<u8> {
    seq![NODE_INTERNAL] + spec_u16_to_le_bytes(x.keys.len() as u16) + keys_bytes(x.keys, x.keys.len())
        + children_bytes(x.children, x.children.len())
}

/// The page that `InternalNode::serialize` writes.
pub open spec fn internal_bytes(x: InternalV) -> Seq<u8> {
    padded(internal_body(x), PAGE_SIZE as nat)
}

/// An internal node whose encoding fits in a page.
pub open spec fn internal_fits(x: InternalV) -> bool {
    internal_body(x).len() <= PAGE_SIZE
}

/// Reading `n` keys from `off`.
pub open spec fn decode_keys(data: Seq<u8>, off: int, n: nat) -> Option<(Seq<Seq<u8>>, int)>
    decreases n,
{
    if n == 0 {
        Some((seq![], off))
    } else {
        match decode_keys(data, off, (n - 1) as nat) {
            Some((ks, o)) => match decode_u16_prefixed(data, o) {
                Some((k, o2)) => Some((ks.push(k), o2)),
                None => None,
            },
            None => None,
        }
    }
}

/// Reading `n` page numbers from `off`.
pub open spec fn decode_children(data: Seq<u8>, off: int, n: nat) -> Option<(Seq<u64>, int)>
    decreases n,
{
    if n == 0 {
        Some((seq![], off))
    } else {
        match decode_children(data, off, (n - 1) as nat) {
            Some((cs, o)) => if 0 <= o && o + 8 <= data.len() {
                Some((cs.push(spec_u64_from_le_bytes(data.subrange(o, o + 8))), o + 8))
            } else {
                None
            },
            None => None,
        }
    }
}

/// What `InternalNode::deserialize` reads from a page: as many keys as the
/// count says, and one child more.
pub open spec fn decode_internal(data: Seq<u8>) -> Result<InternalV, DbError> {
    if data[0] != NODE_INTERNAL {
        Err(DbError::InvalidData)
    } else {
        let n = spec_u16_from_le_bytes(data.subrange(1, 3)) as nat;
        match decode_keys(data, INTERNAL_HEADER_LEN as int, n) {
            Some((ks, o)) => match decode_children(data, o, n + 1) {
                Some((cs, _)) => Ok(InternalV { keys: ks, children: cs }),
                None => Err(DbError::UnexpectedEof),
            },
            None => Err(DbError::UnexpectedEof),
        }
    }
}

pub proof fn lemma_decode_keys_none(data: Seq<u8>, off: int, i: nat, n: nat)
    requires
        i <= n,
        decode_keys(data, off, i) is None,
    ensures
        decode_keys(data, off, n) is None,
    decreases n,
{
    if n > i {
        lemma_decode_keys_none(data, off, i, (n - 1) as nat);
    }
}

pub proof fn lemma_decode_children_none(data: Seq<u8>, off: int, i: nat, n: nat)
    requires
        i <= n,
        decode_children(data, off, i) is None,
    ensures
        decode_children(data, off, n) is None,
    decreases n,
{
    if n > i {
        lemma_decode_children_none(data, off, i, (n - 1) as nat);
    }
}

/// The stored length of the first `n` keys grows with `n`.
pub proof fn lemma_keys_len(ks: Seq<Seq<u8>>, i: nat, n: nat)
    requires
        i < n,
    ensures
        keys_bytes(ks, (i + 1) as nat).len() == keys_bytes(ks, i).len() + 2 + ks[i as int].len(),
        keys_bytes(ks, n).len() >= keys_bytes(ks, (i + 1) as nat).len(),
    decreases n,
{
    lemma_u16_prefixed_len(ks[i as int]);
    if n > i + 1 {
        lemma_keys_len(ks, i, (n - 1) as nat);
        lemma_u16_prefixed_len(ks[n - 1]);
    }
}

/// Each stored key takes at least two bytes.
pub proof fn lemma_keys_len_lower(ks: Seq<Seq<u8>>, n: nat)
    ensures
        keys_bytes(ks, n).len() >= 2 * n,
    decreases n,
{
    if n > 0 {
        lemma_keys_len_lower(ks, (n - 1) as nat);
        lemma_u16_prefixed_len(ks[n - 1]);
    }
}

/// The stored length of `n` page numbers.
pub proof fn lemma_children_len(cs: Seq<u64>, n: nat)
    ensures
        children_bytes(cs, n).len() == 8 * n,
    decreases n,
{
    lemma_auto_spec_u64_to_from_le_bytes();
    if n > 0 {
        lemma_children_len(cs, (n - 1) as nat);
    }
}

/// Stored keys read back, wherever they stand.
pub proof fn lemma_keys_roundtrip(ks: Seq<Seq<u8>>, n: nat, p: Seq<u8>, r: Seq<u8>)
    requires
        n <= ks.len(),
        forall|i: int| 0 <= i < n ==> ks[i].len() < 0x1_0000,
    ensures
        decode_keys(p + keys_bytes(ks, n) + r, p.len() as int, n) == Some(
            (ks.take(n as int), (p.len() + keys_bytes(ks, n).len()) as int),
        ),
    decreases n,
{
    if n > 0 {
        let m = (n - 1) as nat;
        let k = ks[m as int];
        let e = keys_bytes(ks, m);
        lemma_keys_roundtrip(ks, m, p, u16_prefixed(k) + r);
        assert(p + e + (u16_prefixed(k) + r) =~= p + keys_bytes(ks, n) + r);
        assert(p + keys_bytes(ks, n) + r =~= (p + e) + u16_prefixed(k) + r);
        lemma_u16_prefixed_roundtrip(p + e, k, r);
        lemma_u16_prefixed_len(k);
        assert(ks.take(m as int).push(k) =~= ks.take(n as int));
    }
}

/// Stored page numbers read back, wherever they stand.
pub proof fn lemma_children_roundtrip(cs: Seq<u64>, n: nat, p: Seq<u8>, r: Seq<u8>)
    requires
        n <= cs.len(),
    ensures
        decode_children(p + children_bytes(cs, n) + r, p.len() as int, n) == Some(
            (cs.take(n as int), (p.len() + children_bytes(cs, n).len()) as int),
        ),
    decreases n,
{
    lemma_auto_spec_u64_to_from_le_bytes();
    if n > 0 {
        let m = (n - 1) as nat;
        let c = cs[m as int];
        let e = children_bytes(cs, m);
        let w = spec_u64_to_le_bytes(c);
        lemma_children_roundtrip(cs, m, p, w + r);
        assert(p + e + (w + r) =~= p + children_bytes(cs, n) + r);
        let d = p + children_bytes(cs, n) + r;
        let o = (p.len() + e.len()) as int;
        assert(d.subrange(o, o + 8) =~= w);
        assert(cs.take(m as int).push(c) =~= cs.take(n as int));
    }
}

/// Every key of an internal node that fits is shorter than 2^16 bytes, and so
/// is the number of keys.
pub proof fn lemma_internal_fits_lengths(x: InternalV)
    requires
        internal_fits(x),
    ensures
        forall|i: int| 0 <= i < x.keys.len() ==> x.keys[i].len() < 0x1_0000,
        x.keys.len() < 0x1_0000,
{
    lemma_auto_spec_u16_to_from_le_bytes();
    assert forall|i: int| 0 <= i < x.keys.len() implies x.keys[i].len() < 0x1_0000 by {
        lemma_keys_len(x.keys, i as nat, x.keys.len());
    }
    lemma_keys_len_lower(x.keys, x.keys.len());
}

/// Reading back the page of an internal node that fits, and that has one
/// child more than keys, gives the node.
pub proof fn lemma_internal_roundtrip(x: InternalV)
    requires
        internal_fits(x),
        x.children.len() == x.keys.len() + 1,
    ensures
        internal_bytes(x).len() == PAGE_SIZE,
        decode_internal(internal_bytes(x)) == Ok::<InternalV, DbError>(x),
{
    lemma_auto_spec_u16_to_from_le_bytes();
    lemma_internal_fits_lengths(x);
    let n = x.keys.len();
    let head = seq![NODE_INTERNAL] + spec_u16_to_le_bytes(n as u16);
    let kb = keys_bytes(x.keys, n);
    let cb = children_bytes(x.children, x.children.len());
    let zs = Seq::new((PAGE_SIZE - internal_body(x).len()) as nat, |i: int| 0u8);
    let d = internal_bytes(x);
    assert(d =~= head + kb + (cb + zs));
    assert(d.subrange(1, 3) =~= spec_u16_to_le_bytes(n as u16));
    assert((n as u16) as nat == n);
    lemma_keys_roundtrip(x.keys, n, head, cb + zs);
    assert(d =~= (head + kb) + cb + zs);
    lemma_children_roundtrip(x.children, x.children.len(), head + kb, zs);
    assert(x.keys.take(n as int) =~= x.keys);
    assert(x.children.take(x.children.len() as int) =~= x.children);
}

impl InternalNode {
    /// An internal node with no keys and no children.
    pub fn new() -> (x: Self)
        ensures
            x@.keys.len() == 0,
            x@.children.len() == 0,
    {
        InternalNode { keys: Vec::new(), children: Vec::new() }
    }

    /// Whether the encoding of the node fits in a page.
    pub fn fits_in_page(&self) -> (r: bool)
        ensures
            r == internal_fits(self@),
    {
        let ghost x = self@;
        let mut total: usize = INTERNAL_HEADER_LEN;
        let mut i: usize = 0;
        while i < self.keys.len()
            invariant
                0 <= i <= x.keys.len(),
                x == self@,
                total == INTERNAL_HEADER_LEN + keys_bytes(x.keys, i as nat).len(),
                total <= PAGE_SIZE,
            decreases x.keys.len() - i,
        {
            proof {
                lemma_keys_len(x.keys, i as nat, (i + 1) as nat);
            }
            let step = self.keys[i].len();
            if step > PAGE_SIZE || total + 2 + step > PAGE_SIZE {
                proof {
                    lemma_auto_spec_u16_to_from_le_bytes();
                    lemma_keys_len(x.keys, i as nat, x.keys.len());
                    assert(internal_body(x).len() >= INTERNAL_HEADER_LEN + keys_bytes(x.keys, x.keys.len()).len());
                }
                return false;
            }
            total = total + 2 + step;
            i = i + 1;
        }
        proof {
            lemma_auto_spec_u16_to_from_le_bytes();
            lemma_children_len(x.children, x.children.len());
        }
        if self.children.len() > (PAGE_SIZE - total) / 8 {
            return false;
        }
        true
    }

    /// Encodes the node as a page.
    pub fn serialize(&self) -> (r: Vec<u8>)
        requires
            internal_fits(self@),
        ensures
            r@ == internal_bytes(self@),
            r@.len() == PAGE_SIZE,
    {
        proof {
            lemma_auto_spec_u64_to_from_le_bytes();
            lemma_auto_spec_u16_to_from_le_bytes();
            lemma_internal_fits_lengths(self@);
            lemma_children_len(self@.children, self@.children.len());
        }
        let ghost x = self@;
        let n = self.keys.len();
        let mut buf = zeros(PAGE_SIZE);
        let tag: [u8; 1] = [NODE_INTERNAL];
        assert(buf@ =~= padded(Seq::<u8>::empty(), PAGE_SIZE as nat));
        write_after(&mut buf, 0, tag.as_slice(), Ghost(Seq::<u8>::empty()), Ghost(PAGE_SIZE as nat));
        let w = u16_to_le_bytes(n as u16);
        write_after(&mut buf, 1, w.as_slice(), Ghost(Seq::<u8>::empty() + tag@), Ghost(PAGE_SIZE as nat));
        let ghost head = Seq::<u8>::empty() + tag@ + w@;
        assert(head =~= seq![NODE_INTERNAL] + spec_u16_to_le_bytes(x.keys.len() as u16));
        let mut off: usize = INTERNAL_HEADER_LEN;
        let mut i: usize = 0;
        while i < n
            invariant
                0 <= i <= n,
                n == x.keys.len(),
                x == self@,
                internal_fits(x),
                head.len() == INTERNAL_HEADER_LEN,
                buf@ == padded(head + keys_bytes(x.keys, i as nat), PAGE_SIZE as nat),
                off == head.len() + keys_bytes(x.keys, i as nat).len(),
                forall|j: int| 0 <= j < x.keys.len() ==> x.keys[j].len() < 0x1_0000,
                head + keys_bytes(x.keys, n as nat) + children_bytes(x.children, x.children.len())
                    == internal_body(x),
            decreases n - i,
        {
            proof {
                lemma_auto_spec_u16_to_from_le_bytes();
                lemma_keys_len(x.keys, i as nat, n as nat);
                lemma_u16_prefixed_len(x.keys[i as int]);
                lemma_children_len(x.children, x.children.len());
            }
            let ghost before = head + keys_bytes(x.keys, i as nat);
            let key = &self.keys[i];
            assert(key@ == x.keys[i as int]);
            let wk = u16_to_le_bytes(key.len() as u16);
            write_after(&mut buf, off, wk.as_slice(), Ghost(before), Ghost(PAGE_SIZE as nat));
            write_after(&mut buf, off + 2, key.as_slice(), Ghost(before + wk@), Ghost(PAGE_SIZE as nat));
            assert(before + wk@ + key@ =~= head + keys_bytes(x.keys, (i + 1) as nat));
            off = off + 2 + key.len();
            i = i + 1;
        }
        let m = self.children.len();
        let mut j: usize = 0;
        let ghost kh = head + keys_bytes(x.keys, n as nat);
        while j < m
            invariant
                0 <= j <= m,
                m == x.children.len(),
                x == self@,
                internal_fits(x),
                buf@ == padded(kh + children_bytes(x.children, j as nat), PAGE_SIZE as nat),
                off == kh.len() + children_bytes(x.children, j as nat).len(),
                kh + children_bytes(x.children, x.children.len()) == internal_body(x),
            decreases m - j,
        {
            proof {
                lemma_auto_spec_u64_to_from_le_bytes();
                lemma_children_len(x.children, j as nat);
                lemma_children_len(x.children, (j + 1) as nat);
                lemma_children_len(x.children, m as nat);
            }
            let ghost before = kh + children_bytes(x.children, j as nat);
            let wc = u64_to_le_bytes(self.children[j]);
            write_after(&mut buf, off, wc.as_slice(), Ghost(before), Ghost(PAGE_SIZE as nat));
            assert(before + wc@ =~= kh + children_bytes(x.children, (j + 1) as nat));
            off = off + 8;
            j = j + 1;
        }
        buf
    }

    /// Decodes an internal page. Fails with `InvalidData` when the tag is not
    /// that of an internal node and with `UnexpectedEof` when keys or children
    /// run past the data.
    pub fn deserialize(data: &[u8]) -> (r: Result<Self, DbError>)
        requires
            data@.len() >= 1,
            data@[0] == NODE_INTERNAL ==> data@.len() >= INTERNAL_HEADER_LEN,
        ensures
            match decode_internal(data@) {
                Ok(v) => r matches Ok(x) && x@ == v,
                Err(e) => r matches Err(x) && x == e,
            },
            r matches Ok(x) ==> x.children@.len() == x.keys@.len() + 1,
    {
        if data[0] != NODE_INTERNAL {
            return Err(DbError::InvalidData);
        }
        let n = read_u16_le(data, 1).unwrap();
        let mut keys: Vec<Vec<u8>> = Vec::new();
        let mut off: usize = INTERNAL_HEADER_LEN;
        let mut i: u16 = 0;
        assert(byte_strings(keys@) =~= Seq::<Seq<u8>>::empty());
        while i < n
            invariant
                0 <= i <= n,
                data@[0] == NODE_INTERNAL,
                n == spec_u16_from_le_bytes(data@.subrange(1, 3)),
                decode_keys(data@, INTERNAL_HEADER_LEN as int, i as nat) == Some(
                    (byte_strings(keys@), off as int),
                ),
                keys@.len() == i,
            decreases n - i,
        {
            match read_u16_prefixed(data, off) {
                Some((k, o2)) => {
                    let ghost kd = byte_strings(keys@);
                    keys.push(k);
                    assert(byte_strings(keys@) =~= kd.push(k@));
                    off = o2;
                },
                None => {
                    proof {
                        assert(decode_keys(data@, INTERNAL_HEADER_LEN as int, (i + 1) as nat) is None);
                        lemma_decode_keys_none(data@, INTERNAL_HEADER_LEN as int, (i + 1) as nat, n as nat);
                    }
                    return Err(DbError::UnexpectedEof);
                },
            }
            i = i + 1;
        }
        let ghost koff = off as int;
        let count: usize = n as usize + 1;
        let dlen = data.len();
        let mut children: Vec<u64> = Vec::new();
        let mut j: usize = 0;
        assert(children@ =~= Seq::<u64>::empty());
        while j < count
            invariant
                0 <= j <= count,
                count == n + 1,
                dlen == data@.len(),
                data@[0] == NODE_INTERNAL,
                n == spec_u16_from_le_bytes(data@.subrange(1, 3)),
                decode_keys(data@, INTERNAL_HEADER_LEN as int, n as nat) == Some(
                    (byte_strings(keys@), koff),
                ),
                decode_children(data@, koff, j as nat) == Some((children@, off as int)),
                children@.len() == j,
                keys@.len() == n,
            decreases count - j,
        {
            match read_u64_le(data, off) {
                Some(c) => {
                    children.push(c);
                    off = off + 8;
                },
                None => {
                    proof {
                        assert(decode_children(data@, koff, (j + 1) as nat) is None);
                        lemma_decode_children_none(data@, koff, (j + 1) as nat, count as nat);
                    }
                    return Err(DbError::UnexpectedEof);
                },
            }
            j = j + 1;
        }
        Ok(InternalNode { keys, children })
    }

    /// An internal node splits once it holds this many keys.
    pub fn is_full(&self) -> (r: bool)
        ensures
            r == (self@.keys.len() >= BTREE_ORDER - 1),
    {
        self.keys.len() >= BTREE_ORDER - 1
    }
}

} // verus!
