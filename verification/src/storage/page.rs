use vstd::prelude::*;
use crate::codec::{zeros, write_at};
use crate::error::DbError;
use crate::storage::file_header::PAGE_SIZE;

verus! {

/// The kinds of page, by the tag in their first byte.
#[derive(Debug, Clone, Copy, PartialEq, Eq, Structural)]
pub enum PageType {
    /// Free/unused page
    Free,
    /// Internal B+ tree node
    Internal,
    /// Leaf B+ tree node
    Leaf,
    /// Overflow page for large values
    Overflow,
}

/// The tag byte of a page type.
pub open spec fn page_type_byte(t: PageType) -> u8 {
    match t {
        PageType::Free => 0x00,
        PageType::Internal => 0x01,
        PageType::Leaf => 0x02,
        PageType::Overflow => 0x03,
    }
}

/// The page type of a tag byte, if any.
pub open spec fn page_type_of_byte(b: u8) -> Option<PageType> {
    if b == 0x00 {
        Some(PageType::Free)
    } else if b == 0x01 {
        Some(PageType::Internal)
    } else if b == 0x02 {
        Some(PageType::Leaf)
    } else if b == 0x03 {
        Some(PageType::Overflow)
    } else {
        None
    }
}

/// Decoding the tag byte of a page type gives the type back.
pub proof fn lemma_page_type_roundtrip(t: PageType)
    ensures
        page_type_of_byte(page_type_byte(t)) == Some(t),
{
}

impl PageType {
    /// Decodes a tag byte.
    pub fn from_byte(b: u8) -> (r: Option<Self>)
        ensures
            r == page_type_of_byte(b),
    {
        match b {
            0x00 => Some(PageType::Free),
            0x01 => Some(PageType::Internal),
            0x02 => Some(PageType::Leaf),
            0x03 => Some(PageType::Overflow),
            _ => None,
        }
    }

    /// Encodes the type as its tag byte.
    pub fn to_byte(&self) -> (b: u8)
        ensures
            b == page_type_byte(*self),
    {
        match self {
            PageType::Free => 0x00,
            PageType::Internal => 0x01,
            PageType::Leaf => 0x02,
            PageType::Overflow => 0x03,
        }
    }
}

/// A page buffer: its number, its bytes and whether it differs from what the
/// file holds.
#[derive(Debug)]
pub struct Page {
    pub page_num: u64,
    pub data: Vec<u8>,
    pub dirty: bool,
}

/// A page as plain values.
pub struct PageV {
    pub page_num: u64,
    pub data: Seq<u8>,
    pub dirty: bool,
}

impl View for Page {
    type V = PageV;

    open spec fn view(&self) -> PageV {
        PageV { page_num: self.page_num, data: self.data@, dirty: self.dirty }
    }
}

/// A page of zeros.
pub open spec fn zero_page() -> Seq<u8> {
    Seq::new(PAGE_SIZE as nat, |i: int| 0u8)
}

impl Page {
    /// A clean page of zeros.
    pub fn new(page_num: u64) -> (p: Self)
        ensures
            p@ == (PageV { page_num, data: zero_page(), dirty: false }),
    {
        Page { page_num, data: zeros(PAGE_SIZE), dirty: false }
    }

    /// A clean page holding `data`, which is one page long.
    pub fn from_data(page_num: u64, data: Vec<u8>) -> (p: Self)
        requires
            data@.len() == PAGE_SIZE,
        ensures
            p@ == (PageV { page_num, data: data@, dirty: false }),
    {
        Page { page_num, data, dirty: false }
    }

    /// The type given by the tag byte.
    pub fn page_type(&self) -> (r: Option<PageType>)
        requires
            self@.data.len() > 0,
        ensures
            r == page_type_of_byte(self@.data[0]),
    {
        PageType::from_byte(self.data[0])
    }

    /// Sets the tag byte, and marks the page dirty.
    pub fn set_page_type(&mut self, pt: PageType)
        requires
            old(self)@.data.len() > 0,
        ensures
            final(self)@ == (PageV {
                page_num: old(self)@.page_num,
                data: old(self)@.data.update(0, page_type_byte(pt)),
                dirty: true,
            }),
    {
        self.data.set(0, pt.to_byte());
        self.dirty = true;
    }

    /// Marks the page dirty.
    pub fn mark_dirty(&mut self)
        ensures
            final(self)@ == (PageV { dirty: true, ..old(self)@ }),
    {
        self.dirty = true;
    }

    /// The bytes of the page.
    pub fn as_bytes(&self) -> (r: &[u8])
        ensures
            r@ == self@.data,
    {
        self.data.as_slice()
    }

    /// The bytes of the page, to write in place; marks the page dirty. The
    /// page ends holding whatever the bytes hold when the borrow ends.
    pub fn as_bytes_mut(&mut self) -> (r: &mut [u8])
        ensures
            r@ == old(self)@.data,
            final(self)@ == (PageV { page_num: old(self)@.page_num, data: final(r)@, dirty: true }),
    {
        self.dirty = true;
        self.data.as_mut_slice()
    }

    /// Writes `bytes` into the page at `pos`, and marks the page dirty.
    pub fn write_bytes(&mut self, pos: usize, bytes: &[u8])
        requires
            pos + bytes@.len() <= old(self)@.data.len(),
        ensures
            final(self)@ == (PageV {
                page_num: old(self)@.page_num,
                data: old(self)@.data.subrange(0, pos as int) + bytes@ + old(self)@.data.subrange(
                    pos + bytes@.len(),
                    old(self)@.data.len() as int,
                ),
                dirty: true,
            }),
    {
        self.dirty = true;
        write_at(&mut self.data, pos, bytes);
    }

    /// A copy of the page.
    pub fn copy(&self) -> (p: Self)
        ensures
            p@ == self@,
    {
        Page { page_num: self.page_num, data: vstd::slice::slice_to_vec(self.data.as_slice()), dirty: self.dirty }
    }
}

impl Clone for Page {
    fn clone(&self) -> (p: Self)
        ensures
            p@ == self@,
    {
        self.copy()
    }
}

/// The contents of a list of pages.
pub open spec fn pages_view(v: Seq<Page>) -> Seq<PageV> {
    Seq::new(v.len(), |i: int| v[i]@)
}

/// Position `i` holds the page numbered `n`.
pub open spec fn page_at(ps: Seq<PageV>, n: u64, i: int) -> bool {
    0 <= i < ps.len() && ps[i].page_num == n
}

/// Some position holds the page numbered `n`.
pub open spec fn holds_page(ps: Seq<PageV>, n: u64) -> bool {
    exists|i: int| page_at(ps, n, i)
}

/// No two positions hold the same page number.
pub open spec fn distinct_pages(ps: Seq<PageV>) -> bool {
    forall|i: int, j: int| 0 <= i < ps.len() && 0 <= j < ps.len() && i != j ==> ps[i].page_num != ps[j].page_num
}

/// A page cache with least-recently-used eviction.
pub struct PageCache {
    pages: Vec<Page>,
    capacity: usize,
    access_order: Vec<u64>,
}

/// The cache as plain values: the cached pages, the page numbers from most to
/// least recently used, and the capacity.
pub struct PageCacheV {
    pub pages: Seq<PageV>,
    pub order: Seq<u64>,
    pub capacity: usize,
}

impl View for PageCache {
    type V = PageCacheV;

    closed spec fn view(&self) -> PageCacheV {
        PageCacheV { pages: pages_view(self.pages@), order: self.access_order@, capacity: self.capacity }
    }
}

impl PageCacheV {
    /// Every cached page appears once in the access order and the other way
    /// round, and the cache holds no more pages than its capacity (one page
    /// when the capacity is zero).
    pub open spec fn wf(self) -> bool {
        &&& distinct_pages(self.pages)
        &&& self.order.no_duplicates()
        &&& self.order.len() == self.pages.len()
        &&& forall|i: int| 0 <= i < self.order.len() ==> holds_page(self.pages, #[trigger] self.order[i])
        &&& forall|i: int| 0 <= i < self.pages.len() ==> self.order.contains(#[trigger] self.pages[i].page_num)
        &&& self.pages.len() <= self.capacity || self.pages.len() <= 1
    }

    /// The cached page numbered `n`, if any.
    pub open spec fn lookup(self, n: u64) -> Option<PageV> {
        if holds_page(self.pages, n) {
            Some(self.pages[choose|i: int| page_at(self.pages, n, i)])
        } else {
            None
        }
    }

    /// Page `n` moved to the front of the access order.
    pub open spec fn touched(self, n: u64) -> Seq<u64> {
        seq![n] + self.order.filter(not_page(n))
    }
}

/// Keeps the page numbers other than `n`.
pub open spec fn not_page(n: u64) -> spec_fn(u64) -> bool {
    |p: u64| p != n
}

/// The page at a known position is what `lookup` gives.
pub proof fn lemma_lookup_at(c: PageCacheV, n: u64, i: int)
    requires
        c.wf(),
        page_at(c.pages, n, i),
    ensures
        c.lookup(n) == Some(c.pages[i]),
{
    let k = choose|k: int| page_at(c.pages, n, k);
    assert(page_at(c.pages, n, k));
}

/// Two caches that hold the same page numbered `m` (or neither holds one)
/// look `m` up alike.
pub proof fn lemma_lookup_same(o: PageCacheV, f: PageCacheV, m: u64)
    requires
        o.wf(),
        f.wf(),
        forall|j: int| page_at(o.pages, m, j) ==> f.pages.contains(o.pages[j]),
        forall|j: int| page_at(f.pages, m, j) ==> o.pages.contains(f.pages[j]),
    ensures
        f.lookup(m) == o.lookup(m),
{
    if holds_page(o.pages, m) {
        let j = choose|j: int| page_at(o.pages, m, j);
        lemma_lookup_at(o, m, j);
        assert(f.pages.contains(o.pages[j]));
        let k = choose|k: int| 0 <= k < f.pages.len() && f.pages[k] == o.pages[j];
        assert(page_at(f.pages, m, k));
        lemma_lookup_at(f, m, k);
    } else if holds_page(f.pages, m) {
        let k = choose|k: int| page_at(f.pages, m, k);
        assert(o.pages.contains(f.pages[k]));
        let j = choose|j: int| 0 <= j < o.pages.len() && o.pages[j] == f.pages[k];
        assert(page_at(o.pages, m, j));
    }
}

impl PageCache {
    /// The invariant of the cache.
    pub open spec fn inv(&self) -> bool {
        self@.wf()
    }

    /// An empty cache.
    pub fn new(capacity: usize) -> (c: Self)
        ensures
            c.inv(),
            c@.pages.len() == 0,
            c@.order.len() == 0,
            c@.capacity == capacity,
    {
        let c = PageCache { pages: Vec::new(), capacity, access_order: Vec::new() };
        assert(c@.pages =~= Seq::<PageV>::empty());
        c
    }

    /// Number of cached pages.
    pub fn len(&self) -> (r: usize)
        ensures
            r == self@.pages.len(),
    {
        self.pages.len()
    }

    /// The position of page `n` among the cached pages.
    fn position(&self, n: u64) -> (r: Option<usize>)
        ensures
            match r {
                Some(i) => page_at(self@.pages, n, i as int),
                None => !holds_page(self@.pages, n),
            },
    {
        let mut i: usize = 0;
        while i < self.pages.len()
            invariant
                0 <= i <= self@.pages.len(),
                forall|j: int| 0 <= j < i ==> self@.pages[j].page_num != n,
            decreases self@.pages.len() - i,
        {
            if self.pages[i].page_num == n {
                return Some(i);
            }
            i = i + 1;
        }
        None
    }

    /// Removes `n` from the access order.
    fn forget_order(&mut self, n: u64)
        requires
            old(self)@.order.no_duplicates(),
        ensures
            final(self)@.order == old(self)@.order.filter(not_page(n)),
            final(self)@.pages == old(self)@.pages,
            final(self)@.capacity == old(self)@.capacity,
    {
        let ghost start = self.access_order@;
        let mut out: Vec<u64> = Vec::new();
        let mut i: usize = 0;
        while i < self.access_order.len()
            invariant
                0 <= i <= start.len(),
                self.access_order@ == start,
                out@ == start.take(i as int).filter(not_page(n)),
            decreases start.len() - i,
        {
            let p = self.access_order[i];
            assert(start.take(i + 1).drop_last() =~= start.take(i as int));
            if p != n {
                out.push(p);
            }
            proof {
                assert(start.take(i + 1) == start.take(i as int).push(p));
                start.take(i as int).lemma_filter_push(p, not_page(n));
            }
            i = i + 1;
        }
        assert(start.take(start.len() as int) =~= start);
        self.access_order = out;
    }

    /// Page `n` (which is cached) becomes the most recently used.
    fn touch(&mut self, n: u64)
        requires
            old(self)@.wf(),
            holds_page(old(self)@.pages, n),
        ensures
            final(self)@.wf(),
            final(self)@.order == old(self)@.touched(n),
            final(self)@.pages == old(self)@.pages,
            final(self)@.capacity == old(self)@.capacity,
    {
        let ghost old_order = self@.order;
        self.forget_order(n);
        self.access_order.insert(0, n);
        assert(self@.order =~= old(self)@.touched(n));
        assert(self@ == (PageCacheV { order: old(self)@.touched(n), ..old(self)@ }));
        proof {
            lemma_touch_wf(old(self)@, n);
        }
    }

    /// Looks up page `n`; when it is cached it becomes the most recently used.
    pub fn get(&mut self, page_num: u64) -> (r: Option<&Page>)
        requires
            old(self).inv(),
        ensures
            final(self).inv(),
            final(self)@.pages == old(self)@.pages,
            final(self)@.capacity == old(self)@.capacity,
            match old(self)@.lookup(page_num) {
                Some(p) => r matches Some(x) && x@ == p && final(self)@.order == old(self)@.touched(
                    page_num,
                ),
                None => r is None && final(self)@.order == old(self)@.order,
            },
    {
        match self.position(page_num) {
            Some(i) => {
                proof {
                    lemma_lookup_at(self@, page_num, i as int);
                }
                self.touch(page_num);
                Some(&self.pages[i])
            },
            None => None,
        }
    }

    /// Page `n`, to change in place, if it is cached; it then becomes the most
    /// recently used. The cache ends holding the page as the borrow leaves
    /// it, and stays well formed when the page keeps its number.
    pub fn get_mut(&mut self, page_num: u64) -> (r: Option<&mut Page>)
        requires
            old(self).inv(),
        ensures
            final(self)@.capacity == old(self)@.capacity,
            match old(self)@.lookup(page_num) {
                Some(p) => r matches Some(x) && x@ == p && final(self)@.order == old(self)@.touched(page_num) && (forall|i: int|
                    page_at(old(self)@.pages, page_num, i) ==> final(self)@.pages == old(self)@.pages.update(i, final(x)@))
                    && (final(x)@.page_num == page_num ==> final(self).inv()),
                None => r is None && final(self)@ == old(self)@,
            },
    {
        match self.position(page_num) {
            Some(i) => {
                proof {
                    lemma_lookup_at(self@, page_num, i as int);
                }
                self.touch(page_num);
                proof {
                    lemma_page_replaced(self@, i as int);
                    assert forall|pg: Page| #[trigger] pages_view(self.pages@.update(i as int, pg)) == self@.pages.update(i as int, pg@) by {
                        assert(pages_view(self.pages@.update(i as int, pg)) =~= self@.pages.update(i as int, pg@));
                    }
                    assert forall|j: int| page_at(old(self)@.pages, page_num, j) implies j == i by {}
                }
                Some(&mut self.pages[i])
            },
            None => None,
        }
    }

    /// Replaces the bytes of cached page `n` and marks it dirty; when it is
    /// cached it becomes the most recently used. Returns whether it was
    /// cached.
    pub fn update(&mut self, page_num: u64, data: Vec<u8>) -> (r: bool)
        requires
            old(self).inv(),
        ensures
            final(self).inv(),
            final(self)@.capacity == old(self)@.capacity,
            r == holds_page(old(self)@.pages, page_num),
            r ==> final(self)@.order == old(self)@.touched(page_num),
            !r ==> final(self)@ == old(self)@,
            forall|i: int|
                page_at(old(self)@.pages, page_num, i) ==> final(self)@.pages == old(self)@.pages.update(
                    i,
                    PageV { page_num, data: data@, dirty: true },
                ),
    {
        match self.position(page_num) {
            Some(i) => {
                self.touch(page_num);
                let ghost before = self@.pages;
                let ghost pv = PageV { page_num, data: data@, dirty: true };
                self.pages.set(i, Page { page_num, data, dirty: true });
                assert(self@.pages =~= before.update(i as int, pv));
                proof {
                    assert forall|j: int| page_at(old(self)@.pages, page_num, j) implies j == i by {}
                    assert(distinct_pages(self@.pages));
                    assert forall|k: int| 0 <= k < self@.order.len() implies holds_page(self@.pages, #[trigger] self@.order[k]) by {
                        let m = choose|m: int| page_at(before, self@.order[k], m);
                        assert(page_at(self@.pages, self@.order[k], m));
                    }
                }
                true
            },
            None => false,
        }
    }

    /// Inserts a page. A page of that number already cached is replaced and
    /// nothing is evicted. Otherwise, when the cache holds `capacity` pages or
    /// more, the least recently used page is evicted and returned. The
    /// inserted page becomes the most recently used.
    pub fn insert(&mut self, page: Page) -> (evicted: Option<Page>)
        requires
            old(self).inv(),
        ensures
            final(self).inv(),
            final(self)@.capacity == old(self)@.capacity,
            final(self)@.lookup(page@.page_num) == Some(page@),
            final(self)@.order[0] == page@.page_num,
            forall|k: int| 0 <= k < final(self)@.pages.len() ==> final(self)@.pages[k] == page@
                || old(self)@.pages.contains(#[trigger] final(self)@.pages[k]),
            evicted matches Some(e) ==> old(self)@.pages.contains(e@) && e@.page_num != page@.page_num
                && final(self)@.lookup(e@.page_num) is None,
            forall|m: u64| m != page@.page_num && !(evicted matches Some(e) && e@.page_num == m) ==> #[trigger] final(self)@.lookup(m)
                == old(self)@.lookup(m),
            ({
                let o = old(self)@;
                let n = page@.page_num;
                if holds_page(o.pages, n) {
                    &&& evicted is None
                    &&& final(self)@.order == o.touched(n)
                    &&& forall|i: int| page_at(o.pages, n, i) ==> final(self)@.pages == o.pages.update(i, page@)
                } else if o.pages.len() >= o.capacity && o.order.len() > 0 {
                    let lru = o.order.last();
                    &&& evicted matches Some(e) && o.lookup(lru) == Some(e@)
                    &&& final(self)@.order == seq![n] + o.order.drop_last()
                    &&& forall|i: int| page_at(o.pages, lru, i) ==> final(self)@.pages == o.pages.remove(i).push(page@)
                } else {
                    &&& evicted is None
                    &&& final(self)@.order == seq![n] + o.order
                    &&& final(self)@.pages == o.pages.push(page@)
                }
            }),
    {
        let n = page.page_num;
        let ghost pv = page@;
        match self.position(n) {
            Some(i) => {
                self.touch(n);
                let ghost before = self@.pages;
                self.pages.set(i, page);
                assert(self@.pages =~= before.update(i as int, pv));
                proof {
                    assert forall|j: int| page_at(old(self)@.pages, n, j) implies j == i by {}
                    assert forall|k: int| 0 <= k < self@.order.len() implies holds_page(self@.pages, #[trigger] self@.order[k]) by {
                        let m = choose|m: int| page_at(before, self@.order[k], m);
                        assert(page_at(self@.pages, self@.order[k], m));
                    }
                    lemma_lookup_at(self@, n, i as int);
                    assert(self@.order[0] == n);
                    assert forall|m: u64| m != n implies #[trigger] self@.lookup(m) == old(self)@.lookup(m) by {
                        assert forall|j: int| page_at(old(self)@.pages, m, j) implies self@.pages.contains(old(self)@.pages[j]) by {
                            assert(self@.pages[j] == old(self)@.pages[j]);
                        }
                        lemma_lookup_same(old(self)@, self@, m);
                    }
                }
                None
            },
            None => {
                let mut evicted: Option<Page> = None;
                if self.pages.len() >= self.capacity && self.access_order.len() > 0 {
                    let lru = self.access_order.pop().unwrap();
                    let ghost o = old(self)@;
                    proof {
                        assert(lru == o.order.last());
                        assert(holds_page(o.pages, o.order[o.order.len() - 1]));
                    }
                    let j = self.position(lru).unwrap();
                    proof {
                        lemma_lookup_at(o, lru, j as int);
                    }
                    let ghost before = self@.pages;
                    let e = self.pages.remove(j);
                    assert(self@.pages =~= before.remove(j as int));
                    evicted = Some(e);
                    proof {
                        lemma_filter_last(o.order);
                        lemma_remove_wf(o, lru, j as int);
                        lemma_remove_not_held(o.pages, j as int, n);
                        assert(self@ == (PageCacheV { pages: o.pages.remove(j as int), order: o.order.filter(not_page(lru)), capacity: o.capacity }));
                    }
                }
                let ghost mid = self@;
                let ghost before = self@.pages;
                self.pages.push(page);
                self.access_order.insert(0, n);
                assert(self@.pages =~= before.push(pv));
                assert(self@.order =~= seq![n] + mid.order);
                assert(self@ == (PageCacheV { pages: mid.pages.push(pv), order: seq![pv.page_num] + mid.order, capacity: mid.capacity }));
                proof {
                    lemma_insert_new_wf(mid, pv);
                    lemma_lookup_at(self@, n, (self@.pages.len() - 1) as int);
                    assert(self@.order[0] == n);
                    let o = old(self)@;
                    assert forall|m: u64| m != n && !(evicted matches Some(e) && e@.page_num == m) implies #[trigger] self@.lookup(m)
                        == o.lookup(m) by {
                        assert forall|j: int| page_at(o.pages, m, j) implies self@.pages.contains(o.pages[j]) by {
                            if evicted is Some {
                                let lru = o.order.last();
                                let e = evicted->Some_0;
                                assert(e@.page_num == lru);
                                let jj = choose|jj: int| page_at(o.pages, lru, jj) && before == o.pages.remove(jj);
                                assert(jj != j);
                                if j < jj {
                                    assert(self@.pages[j] == o.pages[j]);
                                } else {
                                    assert(self@.pages[j - 1] == o.pages[j]);
                                }
                            } else {
                                assert(self@.pages[j] == o.pages[j]);
                            }
                        }
                        lemma_lookup_same(o, self@, m);
                    }
                    if evicted is Some {
                        let e = evicted->Some_0;
                        assert(!holds_page(self@.pages, e@.page_num)) by {
                            if holds_page(self@.pages, e@.page_num) {
                                let k = choose|k: int| page_at(self@.pages, e@.page_num, k);
                                if k == self@.pages.len() - 1 {
                                    assert(self@.pages[k] == pv);
                                } else {
                                    assert(self@.pages[k] == mid.pages[k]);
                                    assert(holds_page(mid.pages, e@.page_num));
                                }
                            }
                        }
                    }
                    if evicted is None {
                        assert(self@.order =~= seq![n] + old(self)@.order);
                    } else {
                        assert(self@.order =~= seq![n] + old(self)@.order.drop_last());
                        assert forall|i: int| page_at(old(self)@.pages, old(self)@.order.last(), i)
                            implies self@.pages == old(self)@.pages.remove(i).push(pv) by {
                            let lru = old(self)@.order.last();
                            let j = choose|j: int| page_at(old(self)@.pages, lru, j) && before == old(self)@.pages.remove(j);
                            assert(page_at(old(self)@.pages, lru, j));
                            assert(i == j);
                        }
                    }
                }
                evicted
            },
        }
    }

    /// Removes page `n` from the cache, returning it if it was cached.
    pub fn remove(&mut self, page_num: u64) -> (r: Option<Page>)
        requires
            old(self).inv(),
        ensures
            final(self).inv(),
            final(self)@.capacity == old(self)@.capacity,
            final(self)@.order == old(self)@.order.filter(not_page(page_num)),
            final(self)@.lookup(page_num) is None,
            match old(self)@.lookup(page_num) {
                Some(p) => r matches Some(x) && x@ == p && forall|i: int|
                    page_at(old(self)@.pages, page_num, i) ==> final(self)@.pages == old(self)@.pages.remove(i),
                None => r is None && final(self)@.pages == old(self)@.pages,
            },
    {
        self.forget_order(page_num);
        match self.position(page_num) {
            Some(i) => {
                proof {
                    lemma_lookup_at(old(self)@, page_num, i as int);
                }
                let ghost before = self@.pages;
                let p = self.pages.remove(i);
                assert(self@.pages =~= before.remove(i as int));
                proof {
                    lemma_remove_wf(old(self)@, page_num, i as int);
                    assert forall|j: int| page_at(old(self)@.pages, page_num, j) implies j == i by {}
                }
                Some(p)
            },
            None => {
                proof {
                    lemma_filter_absent(old(self)@, page_num);
                }
                None
            },
        }
    }

    /// Copies of the dirty pages, in cache order.
    pub fn dirty_pages(&self) -> (r: Vec<Page>)
        ensures
            pages_view(r@) == self@.pages.filter(|p: PageV| p.dirty),
    {
        let ghost ps = self@.pages;
        let mut out: Vec<Page> = Vec::new();
        let mut i: usize = 0;
        while i < self.pages.len()
            invariant
                0 <= i <= ps.len(),
                ps == self@.pages,
                pages_view(out@) == ps.take(i as int).filter(|p: PageV| p.dirty),
            decreases ps.len() - i,
        {
            let ghost before = out@;
            if self.pages[i].dirty {
                out.push(self.pages[i].copy());
                assert(pages_view(out@) =~= pages_view(before).push(ps[i as int]));
            }
            proof {
                assert(ps.take(i + 1) == ps.take(i as int).push(ps[i as int]));
                ps.take(i as int).lemma_filter_push(ps[i as int], |p: PageV| p.dirty);
            }
            i = i + 1;
        }
        assert(ps.take(ps.len() as int) =~= ps);
        out
    }

    /// Marks every cached page clean.
    pub fn clear_dirty_flags(&mut self)
        requires
            old(self).inv(),
        ensures
            final(self).inv(),
            final(self)@.order == old(self)@.order,
            final(self)@.capacity == old(self)@.capacity,
            final(self)@.pages == Seq::new(
                old(self)@.pages.len(),
                |i: int| PageV { dirty: false, ..old(self)@.pages[i] },
            ),
            forall|m: u64| #[trigger] final(self)@.lookup(m) == match old(self)@.lookup(m) {
                Some(p) => Some(PageV { dirty: false, ..p }),
                None => None,
            },
    {
        let ghost ps = self@.pages;
        let mut i: usize = 0;
        while i < self.pages.len()
            invariant
                0 <= i <= ps.len(),
                self@.pages.len() == ps.len(),
                self@.order == old(self)@.order,
                self@.capacity == old(self)@.capacity,
                ps == old(self)@.pages,
                forall|j: int| 0 <= j < i ==> self@.pages[j] == (PageV { dirty: false, ..ps[j] }),
                forall|j: int| i <= j < ps.len() ==> self@.pages[j] == ps[j],
            decreases ps.len() - i,
        {
            let ghost before = self@.pages;
            let mut p = self.pages.remove(i);
            p.dirty = false;
            let ghost pv = p@;
            self.pages.insert(i, p);
            assert(self@.pages =~= before.update(i as int, pv));
            i = i + 1;
        }
        assert(self@.pages =~= Seq::new(ps.len(), |i: int| PageV { dirty: false, ..ps[i] }));
        proof {
            assert forall|k: int| 0 <= k < self@.order.len() implies holds_page(self@.pages, #[trigger] self@.order[k]) by {
                let m = choose|m: int| page_at(ps, self@.order[k], m);
                assert(page_at(self@.pages, self@.order[k], m));
            }
            assert forall|m: u64| #[trigger] self@.lookup(m) == match old(self)@.lookup(m) {
                Some(p) => Some(PageV { dirty: false, ..p }),
                None => None,
            } by {
                if holds_page(ps, m) {
                    let j = choose|j: int| page_at(ps, m, j);
                    lemma_lookup_at(old(self)@, m, j);
                    assert(page_at(self@.pages, m, j));
                    lemma_lookup_at(self@, m, j);
                } else if holds_page(self@.pages, m) {
                    let j = choose|j: int| page_at(self@.pages, m, j);
                    assert(page_at(ps, m, j));
                }
            }
        }
    }
}

proof fn lemma_touch_wf(c: PageCacheV, n: u64)
    requires
        c.wf(),
        holds_page(c.pages, n),
    ensures
        (PageCacheV { order: c.touched(n), ..c }).wf(),
{
    let rest = c.order.filter(not_page(n));
    let t = seq![n] + rest;
    assert(c.order.contains(n)) by {
        lemma_holds_in_order(c, n);
    }
    lemma_filter_remove_one(c.order, n);
    assert forall|i: int, j: int| 0 <= i < t.len() && 0 <= j < t.len() && i != j implies t[i] != t[j] by {
        if i > 0 && j > 0 {
            assert(t[i] == rest[i - 1]);
            assert(t[j] == rest[j - 1]);
        } else if i == 0 {
            assert(t[j] == rest[j - 1]);
            assert(rest.contains(t[j]));
        } else {
            assert(t[i] == rest[i - 1]);
            assert(rest.contains(t[i]));
        }
    }
    assert forall|i: int| 0 <= i < t.len() implies holds_page(c.pages, #[trigger] t[i]) by {
        if i > 0 {
            assert(t[i] == rest[i - 1]);
            assert(rest.contains(t[i]));
            assert(c.order.contains(t[i]));
            let k = choose|k: int| 0 <= k < c.order.len() && c.order[k] == t[i];
            assert(holds_page(c.pages, c.order[k]));
        }
    }
    assert forall|i: int| 0 <= i < c.pages.len() implies t.contains(#[trigger] c.pages[i].page_num) by {
        let x = c.pages[i].page_num;
        if x == n {
            assert(t[0] == x);
        } else {
            assert(c.order.contains(x));
            let k = choose|k: int| 0 <= k < c.order.len() && c.order[k] == x;
            c.order.lemma_filter_contains(not_page(n), k);
            assert(rest.contains(x));
            let m = choose|m: int| 0 <= m < rest.len() && rest[m] == x;
            assert(t[m + 1] == x);
        }
    }
}

/// A cached page appears in the access order.
proof fn lemma_holds_in_order(c: PageCacheV, n: u64)
    requires
        c.wf(),
        holds_page(c.pages, n),
    ensures
        c.order.contains(n),
{
    // The order maps positions into the cached pages without repetition, and
    // has as many entries as there are pages, so it reaches every page.
    let f = |k: int| choose|m: int| page_at(c.pages, c.order[k], m);
    assert forall|k: int| 0 <= k < c.order.len() implies page_at(c.pages, c.order[k], #[trigger] f(k)) by {
        assert(holds_page(c.pages, c.order[k]));
    }
    if !c.order.contains(n) {
        let i = choose|i: int| page_at(c.pages, n, i);
        assert forall|k: int| 0 <= k < c.order.len() implies #[trigger] f(k) != i by {
            assert(page_at(c.pages, c.order[k], f(k)));
            if f(k) == i {
                assert(c.order[k] == n);
            }
        }
        lemma_injective_onto(f, c.order.len(), c.pages.len(), i, c);
    }
}

/// Positions `0..n` of the order go to distinct positions of the pages, and
/// there are as many of the first as of the second, so every position of the
/// pages is reached.
proof fn lemma_injective_onto(f: spec_fn(int) -> int, n: nat, m: nat, missing: int, c: PageCacheV)
    requires
        c.wf(),
        n == c.order.len(),
        m == c.pages.len(),
        0 <= missing < m,
        forall|k: int| 0 <= k < n ==> page_at(c.pages, c.order[k], #[trigger] f(k)),
    ensures
        exists|k: int| 0 <= k < n && #[trigger] f(k) == missing,
{
    if forall|k: int| 0 <= k < n ==> #[trigger] f(k) != missing {
        lemma_image_avoiding(f, n, m, missing, c);
    }
}

proof fn lemma_image_avoiding(f: spec_fn(int) -> int, n: nat, m: nat, missing: int, c: PageCacheV)
    requires
        c.wf(),
        n == c.order.len(),
        m == c.pages.len(),
        0 <= missing < m,
        forall|k: int| 0 <= k < n ==> page_at(c.pages, c.order[k], #[trigger] f(k)),
        forall|k: int| 0 <= k < n ==> #[trigger] f(k) != missing,
    ensures
        n < m,
{
    let s = Set::new(|x: int| exists|k: int| 0 <= k < n && #[trigger] f(k) == x);
    let full = Set::new(|x: int| 0 <= x < m && x != missing);
    assert(s.subset_of(full)) by {
        assert forall|x: int| s.contains(x) implies full.contains(x) by {
            let k = choose|k: int| 0 <= k < n && #[trigger] f(k) == x;
            assert(page_at(c.pages, c.order[k], f(k)));
        }
    }
    lemma_range_set_len(m, missing);
    lemma_image_len(f, n, c);
    vstd::set_lib::lemma_len_subset(s, full);
}

proof fn lemma_range_set_len(m: nat, missing: int)
    requires
        0 <= missing < m,
    ensures
        Set::new(|x: int| 0 <= x < m && x != missing).finite(),
        Set::new(|x: int| 0 <= x < m && x != missing).len() == m - 1,
{
    let full = Set::new(|x: int| 0 <= x < m && x != missing);
    let r = vstd::set_lib::set_int_range(0, m as int);
    vstd::set_lib::lemma_int_range(0, m as int);
    assert(full =~= r.remove(missing));
}

proof fn lemma_image_len(f: spec_fn(int) -> int, n: nat, c: PageCacheV)
    requires
        c.wf(),
        n <= c.order.len(),
        forall|k: int| 0 <= k < c.order.len() ==> page_at(c.pages, c.order[k], #[trigger] f(k)),
    ensures
        Set::new(|x: int| exists|k: int| 0 <= k < n && #[trigger] f(k) == x).finite(),
        Set::new(|x: int| exists|k: int| 0 <= k < n && #[trigger] f(k) == x).len() == n,
    decreases n,
{
    let s = Set::new(|x: int| exists|k: int| 0 <= k < n && #[trigger] f(k) == x);
    if n == 0 {
        assert(s =~= Set::<int>::empty());
    } else {
        let m = (n - 1) as nat;
        lemma_image_len(f, m, c);
        let t = Set::new(|x: int| exists|k: int| 0 <= k < m && #[trigger] f(k) == x);
        assert(s =~= t.insert(f(m as int)));
        assert(!t.contains(f(m as int))) by {
            if t.contains(f(m as int)) {
                let k = choose|k: int| 0 <= k < m && #[trigger] f(k) == f(m as int);
                assert(page_at(c.pages, c.order[k], f(k)));
                assert(page_at(c.pages, c.order[m as int], f(m as int)));
                assert(c.order[k] == c.order[m as int]);
            }
        }
    }
}

/// Filtering one present element out of a sequence without repetitions.
proof fn lemma_filter_remove_one(s: Seq<u64>, n: u64)
    requires
        s.no_duplicates(),
    ensures
        s.filter(not_page(n)).no_duplicates(),
        forall|x: u64| #[trigger] s.filter(not_page(n)).contains(x) <==> (s.contains(x) && x != n),
        s.contains(n) ==> s.filter(not_page(n)).len() == s.len() - 1,
        !s.contains(n) ==> s.filter(not_page(n)) == s,
    decreases s.len(),
{
    let f = not_page(n);
    if s.len() == 0 {
        assert(s.filter(f) =~= s);
    } else {
        let t = s.drop_last();
        let l = s.last();
        assert(s =~= t.push(l));
        assert(t.no_duplicates());
        lemma_filter_remove_one(t, n);
        t.lemma_filter_push(l, f);
        assert(!t.contains(l));
        if l == n {
            assert(s.filter(f) == t.filter(f));
            assert(!t.contains(n));
            assert(t.filter(f) == t);
        } else {
            assert(s.filter(f) == t.filter(f).push(l));
            assert(!t.filter(f).contains(l));
            assert forall|i: int, j: int| 0 <= i < s.filter(f).len() && 0 <= j < s.filter(f).len() && i != j
                implies s.filter(f)[i] != s.filter(f)[j] by {
                let u = t.filter(f);
                if i < u.len() && j < u.len() {
                } else if i == u.len() {
                    assert(u.contains(u[j]));
                } else {
                    assert(u.contains(u[i]));
                }
            }
        }
        assert forall|x: u64| #[trigger] s.filter(f).contains(x) <==> (s.contains(x) && x != n) by {
            if s.contains(x) && x != n {
                if x == l {
                    assert(s.filter(f)[s.filter(f).len() - 1] == l);
                } else {
                    let k = choose|k: int| 0 <= k < s.len() && s[k] == x;
                    assert(t[k] == x);
                    assert(t.contains(x));
                    assert(t.filter(f).contains(x));
                    let q = choose|q: int| 0 <= q < t.filter(f).len() && t.filter(f)[q] == x;
                    assert(s.filter(f)[q] == x);
                }
            }
            if s.filter(f).contains(x) {
                let q = choose|q: int| 0 <= q < s.filter(f).len() && s.filter(f)[q] == x;
                if l == n || q < t.filter(f).len() {
                    assert(t.filter(f).contains(x));
                    let k = choose|k: int| 0 <= k < t.len() && t[k] == x;
                    assert(s[k] == x);
                } else {
                    assert(x == l);
                    assert(s[s.len() - 1] == x);
                }
            }
        }
    }
}

proof fn lemma_insert_new_wf(c: PageCacheV, p: PageV)
    requires
        c.wf(),
        !holds_page(c.pages, p.page_num),
        c.pages.len() < c.capacity || c.pages.len() == 0,
    ensures
        (PageCacheV { pages: c.pages.push(p), order: seq![p.page_num] + c.order, capacity: c.capacity }).wf(),
{
    let ps = c.pages.push(p);
    let o = seq![p.page_num] + c.order;
    assert forall|i: int, j: int| 0 <= i < ps.len() && 0 <= j < ps.len() && i != j implies ps[i].page_num != ps[j].page_num by {
        if i == ps.len() - 1 {
            assert(!page_at(c.pages, p.page_num, j));
        }
        if j == ps.len() - 1 {
            assert(!page_at(c.pages, p.page_num, i));
        }
    }
    assert(!c.order.contains(p.page_num)) by {
        if c.order.contains(p.page_num) {
            let k = choose|k: int| 0 <= k < c.order.len() && c.order[k] == p.page_num;
            assert(holds_page(c.pages, c.order[k]));
        }
    }
    assert forall|i: int, j: int| 0 <= i < o.len() && 0 <= j < o.len() && i != j implies o[i] != o[j] by {
        if i == 0 {
            assert(o[j] == c.order[j - 1]);
        } else if j == 0 {
            assert(o[i] == c.order[i - 1]);
        } else {
            assert(o[i] == c.order[i - 1]);
            assert(o[j] == c.order[j - 1]);
        }
    }
    assert forall|i: int| 0 <= i < o.len() implies holds_page(ps, #[trigger] o[i]) by {
        if i == 0 {
            assert(page_at(ps, p.page_num, ps.len() - 1));
        } else {
            assert(o[i] == c.order[i - 1]);
            assert(holds_page(c.pages, c.order[i - 1]));
            let q = c.order[i - 1];
            let m = choose|m: int| page_at(c.pages, q, m);
            assert(page_at(ps, o[i], m));
        }
    }
    assert forall|i: int| 0 <= i < ps.len() implies o.contains(#[trigger] ps[i].page_num) by {
        if i == ps.len() - 1 {
            assert(o[0] == p.page_num);
        } else {
            let x = c.pages[i].page_num;
            assert(ps[i] == c.pages[i]);
            assert(c.order.contains(x));
            let k = choose|k: int| 0 <= k < c.order.len() && c.order[k] == x;
            assert(o[k + 1] == x);
        }
    }
}

/// A cache stays well formed when a page is replaced by one of the same
/// number.
proof fn lemma_page_replaced(c: PageCacheV, i: int)
    requires
        c.wf(),
        0 <= i < c.pages.len(),
    ensures
        forall|p: PageV| p.page_num == c.pages[i].page_num ==> (PageCacheV { pages: #[trigger] c.pages.update(i, p), ..c }).wf(),
{
    assert forall|p: PageV| p.page_num == c.pages[i].page_num implies (PageCacheV { pages: #[trigger] c.pages.update(i, p), ..c }).wf() by {
        let ps = c.pages.update(i, p);
        assert forall|k: int| 0 <= k < ps.len() implies ps[k].page_num == c.pages[k].page_num by {}
        assert forall|k: int| 0 <= k < c.order.len() implies holds_page(ps, #[trigger] c.order[k]) by {
            let m = choose|m: int| page_at(c.pages, c.order[k], m);
            assert(page_at(ps, c.order[k], m));
        }
        assert forall|k: int| 0 <= k < ps.len() implies c.order.contains(#[trigger] ps[k].page_num) by {
            assert(ps[k].page_num == c.pages[k].page_num);
        }
    }
}

proof fn lemma_remove_wf(c: PageCacheV, n: u64, i: int)
    requires
        c.wf(),
        page_at(c.pages, n, i),
    ensures
        (PageCacheV { pages: c.pages.remove(i), order: c.order.filter(not_page(n)), capacity: c.capacity }).wf(),
        !holds_page(c.pages.remove(i), n),
{
    let ps = c.pages.remove(i);
    let o = c.order.filter(not_page(n));
    lemma_holds_in_order(c, n);
    lemma_filter_remove_one(c.order, n);
    assert forall|a: int, b: int| 0 <= a < ps.len() && 0 <= b < ps.len() && a != b implies ps[a].page_num != ps[b].page_num by {
        let a2 = if a < i { a } else { a + 1 };
        let b2 = if b < i { b } else { b + 1 };
        assert(ps[a] == c.pages[a2]);
        assert(ps[b] == c.pages[b2]);
    }
    assert(!holds_page(ps, n)) by {
        if holds_page(ps, n) {
            let a = choose|a: int| page_at(ps, n, a);
            let a2 = if a < i { a } else { a + 1 };
            assert(ps[a] == c.pages[a2]);
        }
    }
    assert forall|k: int| 0 <= k < o.len() implies holds_page(ps, #[trigger] o[k]) by {
        assert(o.contains(o[k]));
        assert(c.order.contains(o[k]));
        let q = choose|q: int| 0 <= q < c.order.len() && c.order[q] == o[k];
        assert(holds_page(c.pages, c.order[q]));
        let m = choose|m: int| page_at(c.pages, o[k], m);
        assert(m != i);
        if m < i {
            assert(page_at(ps, o[k], m));
        } else {
            assert(page_at(ps, o[k], m - 1));
        }
    }
}

/// Filtering out the last element of a sequence without repetitions drops it.
proof fn lemma_filter_last(s: Seq<u64>)
    requires
        s.no_duplicates(),
        s.len() > 0,
    ensures
        s.filter(not_page(s.last())) == s.drop_last(),
{
    let t = s.drop_last();
    let l = s.last();
    assert(s =~= t.push(l));
    assert(t.no_duplicates());
    assert(!t.contains(l));
    lemma_filter_remove_one(t, l);
    t.lemma_filter_push(l, not_page(l));
}

/// Removing a position keeps absent page numbers absent.
proof fn lemma_remove_not_held(ps: Seq<PageV>, i: int, x: u64)
    requires
        0 <= i < ps.len(),
        !holds_page(ps, x),
    ensures
        !holds_page(ps.remove(i), x),
{
    if holds_page(ps.remove(i), x) {
        let a = choose|a: int| page_at(ps.remove(i), x, a);
        let a2 = if a < i { a } else { a + 1 };
        assert(ps.remove(i)[a] == ps[a2]);
        assert(page_at(ps, x, a2));
    }
}

proof fn lemma_filter_absent(c: PageCacheV, n: u64)
    requires
        c.wf(),
        !holds_page(c.pages, n),
    ensures
        c.order.filter(not_page(n)) == c.order,
{
    assert(!c.order.contains(n)) by {
        if c.order.contains(n) {
            let k = choose|k: int| 0 <= k < c.order.len() && c.order[k] == n;
            assert(holds_page(c.pages, c.order[k]));
        }
    }
    lemma_filter_remove_one(c.order, n);
}

/// The pages of a database file, held as the file's bytes.
pub struct PageManager {
    image: Vec<u8>,
    total_pages: u64,
}

/// The page file as plain values: its bytes and the number of pages that
/// reads are allowed to reach.
pub struct PageManagerV {
    pub image: Seq<u8>,
    pub total_pages: u64,
}

impl View for PageManager {
    type V = PageManagerV;

    closed spec fn view(&self) -> PageManagerV {
        PageManagerV { image: self.image@, total_pages: self.total_pages }
    }
}

/// The bytes of page `n` of a file image, when the image holds all of them.
pub open spec fn image_page(image: Seq<u8>, n: u64) -> Option<Seq<u8>> {
    if (n + 1) * PAGE_SIZE <= image.len() {
        Some(image.subrange(n * PAGE_SIZE, (n + 1) * PAGE_SIZE))
    } else {
        None
    }
}

/// What reading page `n` gives: out of range past `total_pages`, a short read
/// where the image ends early, the page's bytes otherwise.
pub open spec fn read_page_result(m: PageManagerV, n: u64) -> Result<Seq<u8>, DbError> {
    if n >= m.total_pages {
        Err(DbError::InvalidInput)
    } else {
        match image_page(m.image, n) {
            Some(b) => Ok(b),
            None => Err(DbError::UnexpectedEof),
        }
    }
}

/// The image after writing `data` at the start of page `n`: zeros fill any gap
/// past the old end.
pub open spec fn image_after_write(image: Seq<u8>, n: u64, data: Seq<u8>) -> Seq<u8> {
    let off = n * PAGE_SIZE;
    let grown = if image.len() < off + data.len() {
        image + Seq::new((off + data.len() - image.len()) as nat, |i: int| 0u8)
    } else {
        image
    };
    grown.subrange(0, off) + data + grown.subrange(off + data.len(), grown.len() as int)
}

/// After a full page is written at page `n`, page `n` reads back as written.
pub proof fn lemma_image_write_same(image: Seq<u8>, n: u64, d: Seq<u8>)
    requires
        d.len() == PAGE_SIZE,
    ensures
        image_page(image_after_write(image, n, d), n) == Some(d),
{
    let w = image_after_write(image, n, d);
    let off = n * PAGE_SIZE;
    let grown = if image.len() < off + d.len() {
        image + Seq::new((off + d.len() - image.len()) as nat, |i: int| 0u8)
    } else {
        image
    };
    assert(grown.len() >= off + PAGE_SIZE);
    assert(w.len() == grown.len());
    assert(w.subrange(off as int, off + PAGE_SIZE) =~= d);
}

/// Writing a full page at page `n` leaves every other page that the image
/// held as it was; a page it did not hold becomes readable only as zeros
/// or the bytes the image already had there.
pub proof fn lemma_image_write_other(image: Seq<u8>, n: u64, d: Seq<u8>, m: u64)
    requires
        d.len() == PAGE_SIZE,
        m != n,
    ensures
        image_page(image, m) is Some ==> image_page(image_after_write(image, n, d), m) == image_page(image, m),
        image_after_write(image, n, d).len() >= image.len(),
{
    let w = image_after_write(image, n, d);
    let off = n * PAGE_SIZE;
    let grown = if image.len() < off + d.len() {
        image + Seq::new((off + d.len() - image.len()) as nat, |i: int| 0u8)
    } else {
        image
    };
    assert(w.len() == grown.len());
    if image_page(image, m) is Some {
        let a = m * PAGE_SIZE;
        assert((m + 1) * PAGE_SIZE <= image.len());
        if m < n {
            assert((m + 1) * PAGE_SIZE <= off);
            assert forall|i: int| a <= i < a + PAGE_SIZE implies w[i] == image[i] by {
                assert(w[i] == grown[i]);
            }
        } else {
            assert(a >= off + PAGE_SIZE);
            assert forall|i: int| a <= i < a + PAGE_SIZE implies w[i] == image[i] by {
                assert(w[i] == grown[i]);
            }
        }
        assert(w.subrange(a as int, a + PAGE_SIZE) =~= image.subrange(a as int, a + PAGE_SIZE));
    }
}

/// Writes of `len` bytes at page `n` whose end a `usize` can address.
pub open spec fn write_in_range(n: u64, len: nat) -> bool {
    n * PAGE_SIZE + len <= usize::MAX
}

/// Every cached page can be written back to its place in the file.
pub open spec fn cache_writable(c: PageCacheV) -> bool {
    forall|i: int| 0 <= i < c.pages.len() ==> write_in_range((#[trigger] c.pages[i]).page_num, c.pages[i].data.len())
}

impl PageManager {
    /// A page file over the bytes `image`, whose reads reach `total_pages`
    /// pages.
    pub fn new(image: Vec<u8>, total_pages: u64) -> (m: Self)
        ensures
            m@ == (PageManagerV { image: image@, total_pages }),
    {
        PageManager { image, total_pages }
    }

    /// The number of pages that reads may reach.
    pub fn total_pages(&self) -> (r: u64)
        ensures
            r == self@.total_pages,
    {
        self.total_pages
    }

    /// Gives back the bytes of the file.
    pub fn into_image(self) -> (r: Vec<u8>)
        ensures
            r@ == self@.image,
    {
        self.image
    }

    /// The bytes of the file.
    pub fn image(&self) -> (r: &[u8])
        ensures
            r@ == self@.image,
    {
        self.image.as_slice()
    }

    /// Reads page `n`.
    pub fn read_page(&mut self, page_num: u64) -> (r: Result<Page, DbError>)
        ensures
            final(self)@ == old(self)@,
            match read_page_result(old(self)@, page_num) {
                Ok(b) => r matches Ok(p) && p@ == (PageV { page_num, data: b, dirty: false }),
                Err(e) => r matches Err(x) && x == e,
            },
            r is Ok ==> write_in_range(page_num, PAGE_SIZE as nat),
    {
        proof {
            vstd::std_specs::vec::axiom_spec_len(&self.image);
        }
        if page_num >= self.total_pages {
            return Err(DbError::InvalidInput);
        }
        let avail = (self.image.len() / PAGE_SIZE) as u64;
        let ghost ilen = self.image@.len() as int;
        if page_num >= avail {
            proof {
                assert((page_num + 1) * 4096 > ilen) by (nonlinear_arith)
                    requires
                        page_num >= avail,
                        avail == ilen / 4096,
                        ilen >= 0,
                {}
            }
            return Err(DbError::UnexpectedEof);
        }
        proof {
            assert((page_num + 1) * 4096 <= ilen) by (nonlinear_arith)
                requires
                    page_num < avail,
                    avail == ilen / 4096,
                    ilen >= 0,
            {}
        }
        let off = (page_num as usize) * PAGE_SIZE;
        let data = vstd::slice::slice_to_vec(vstd::slice::slice_subrange(self.image.as_slice(), off, off + PAGE_SIZE));
        Ok(Page::from_data(page_num, data))
    }

    /// Writes a page at its place in the file, growing the file as needed.
    /// Fails with `InvalidInput` when the end of the write is past what a
    /// `usize` can address.
    pub fn write_page(&mut self, page: &Page) -> (r: Result<(), DbError>)
        ensures
            write_in_range(page@.page_num, page@.data.len()) ==> r is Ok && final(self)@ == (PageManagerV {
                image: image_after_write(old(self)@.image, page@.page_num, page@.data),
                total_pages: old(self)@.total_pages,
            }),
            !write_in_range(page@.page_num, page@.data.len()) ==> r == Err::<(), DbError>(DbError::InvalidInput)
                && final(self)@ == old(self)@,
    {
        let len = page.data.len();
        if page.page_num as u128 * PAGE_SIZE as u128 + len as u128 > usize::MAX as u128 {
            return Err(DbError::InvalidInput);
        }
        let off = (page.page_num as usize) * PAGE_SIZE;
        let ghost old_image = self.image@;
        if self.image.len() < off + len {
            let extra = off + len - self.image.len();
            let zs = zeros(extra);
            crate::codec::append_bytes(&mut self.image, zs.as_slice());
        }
        write_at(&mut self.image, off, page.data.as_slice());
        Ok(())
    }

    /// Appends a page of zeros to the file and returns its number.
    pub fn allocate_page(&mut self) -> (r: Result<u64, DbError>)
        requires
            old(self)@.total_pages < u64::MAX,
        ensures
            final(self)@.total_pages == old(self)@.total_pages + 1,
            write_in_range(old(self)@.total_pages, PAGE_SIZE as nat) ==> r == Ok::<u64, DbError>(old(self)@.total_pages)
                && final(self)@.image == image_after_write(old(self)@.image, old(self)@.total_pages, zero_page()),
            !write_in_range(old(self)@.total_pages, PAGE_SIZE as nat) ==> r == Err::<u64, DbError>(DbError::InvalidInput)
                && final(self)@.image == old(self)@.image,
    {
        let page_num = self.total_pages;
        self.total_pages = self.total_pages + 1;
        let page = Page::new(page_num);
        match self.write_page(&page) {
            Ok(()) => Ok(page_num),
            Err(e) => Err(e),
        }
    }
}

} // verus!
