use vstd::prelude::*;

use super::{align_up, MemmapEntry, MEMMAP_USABLE};

verus! {

/// Size of a physical page frame.
pub const PAGE_SIZE: usize = 4096;

/// The number of whole pages that cover `length` bytes.
pub open spec fn page_count(length: u64) -> nat {
    ((length + 4095) / 4096) as nat
}

/// The page frames of one memory-map entry, lowest first.
pub open spec fn entry_frames(e: MemmapEntry) -> Seq<usize> {
    Seq::new(page_count(e.length), |i: int| (e.base + 4096 * i) as usize)
}

/// The page frames of every usable entry, in the order of the entries.
pub open spec fn usable_frames(entries: Seq<MemmapEntry>) -> Seq<usize>
    decreases entries.len(),
{
    if entries.len() == 0 {
        Seq::empty()
    } else {
        let last = entries.last();
        usable_frames(entries.drop_last()) + if last.entry_type == MEMMAP_USABLE {
            entry_frames(last)
        } else {
            Seq::empty()
        }
    }
}

/// An entry whose frames, seen through the direct map at `hhdm`, have addresses
/// that fit in a `usize`.
pub open spec fn entry_fits(e: MemmapEntry, hhdm: usize) -> bool {
    e.entry_type == MEMMAP_USABLE ==> {
        &&& e.length + 4096 <= usize::MAX
        &&& e.base + page_count(e.length) * 4096 + hhdm <= usize::MAX
    }
}

/// `x - n` in the wrapping arithmetic of `usize`.
pub open spec fn wrapping_sub_n(x: usize, n: int) -> usize {
    ((x - n) % (usize::MAX as int + 1)) as usize
}

/// `x + n` in the wrapping arithmetic of `usize`.
pub open spec fn wrapping_add_n(x: usize, n: int) -> usize {
    ((x + n) % (usize::MAX as int + 1)) as usize
}

/// `x + 1` in the wrapping arithmetic of `usize`.
pub open spec fn wrapping_inc(x: usize) -> usize {
    if x == usize::MAX { 0 } else { (x + 1) as usize }
}

/// `x - 1` in the wrapping arithmetic of `usize`.
pub open spec fn wrapping_dec(x: usize) -> usize {
    if x == 0 { usize::MAX } else { (x - 1) as usize }
}

/// The free physical page frames.
///
/// Frames are handed out from the end of the list.  `free_pages` counts the
/// frames that were put in minus those taken out, in wrapping arithmetic.
pub struct FreePageList {
    pages: Vec<usize>,
    free_pages: usize,
}

impl FreePageList {
    /// The free frames; the next one to be handed out is the last.
    pub closed spec fn pages(&self) -> Seq<usize> {
        self.pages@
    }

    /// The free-page counter.
    pub closed spec fn count(&self) -> usize {
        self.free_pages
    }

    /// An empty list with a zero counter.
    pub fn new() -> (r: Self)
        ensures
            r.pages() == Seq::<usize>::empty(),
            r.count() == 0,
    {
        FreePageList { pages: Vec::new(), free_pages: 0 }
    }

    /// The free-page counter.
    pub fn free_pages(&self) -> (r: usize)
        ensures
            r == self.count(),
    {
        self.free_pages
    }
}

/// Takes the next free frame; `None` when no frame is left.
pub fn pmm_alloc(pmm: &mut FreePageList) -> (r: Option<usize>)
    ensures
        old(pmm).pages().len() == 0 ==> r is None && final(pmm).pages() == old(pmm).pages()
            && final(pmm).count() == old(pmm).count(),
        old(pmm).pages().len() > 0 ==> {
            &&& r == Some(old(pmm).pages().last())
            &&& final(pmm).pages() == old(pmm).pages().drop_last()
            &&& final(pmm).count() == wrapping_dec(old(pmm).count())
        },
{
    match pmm.pages.pop() {
        None => None,
        Some(p) => {
            pmm.free_pages = pmm.free_pages.wrapping_sub(1);
            Some(p)
        },
    }
}

/// Gives frame `addr` back.
///
/// The frame takes the place of the frame that would have been handed out
/// next, which drops out of the list; the counter still goes up by one.
/// `None` when the list is empty, and then nothing changes.
pub fn pmm_dealloc(pmm: &mut FreePageList, addr: usize) -> (r: Option<()>)
    ensures
        old(pmm).pages().len() == 0 ==> r is None && final(pmm).pages() == old(pmm).pages()
            && final(pmm).count() == old(pmm).count(),
        old(pmm).pages().len() > 0 ==> {
            &&& r == Some(())
            &&& final(pmm).pages() == old(pmm).pages().drop_last().push(addr)
            &&& final(pmm).count() == wrapping_inc(old(pmm).count())
        },
{
    match pmm.pages.pop() {
        None => None,
        Some(_) => {
            pmm.pages.push(addr);
            pmm.free_pages = pmm.free_pages.wrapping_add(1);
            Some(())
        },
    }
}

/// Taking a frame right after giving back `addr` to a list that holds frames
/// hands out `addr` and leaves the counter as it was; the frame that would
/// have come next before is no longer in the list.
pub proof fn dealloc_then_alloc(pages: Seq<usize>, count: usize, addr: usize)
    requires
        pages.len() > 0,
    ensures
        pages.drop_last().push(addr).len() > 0,
        pages.drop_last().push(addr).last() == addr,
        pages.drop_last().push(addr).drop_last() == pages.drop_last(),
        wrapping_dec(wrapping_inc(count)) == count,
{
    assert(pages.drop_last().push(addr).drop_last() =~= pages.drop_last());
}

/// Counting modulo `usize::MAX + 1` agrees with wrapping increments.
pub(crate) proof fn lemma_mod_wrap(n: int)
    requires
        n >= 0,
    ensures
        0int % (usize::MAX as int + 1) == 0,
        (n + 1) % (usize::MAX as int + 1) == wrapping_inc((n % (usize::MAX as int + 1)) as usize),
{
    let m = usize::MAX as int + 1;
    assert(0int % m == 0) by (nonlinear_arith)
        requires m > 0;
    assert((n + 1) % m == if n % m + 1 == m { 0 } else { n % m + 1 }) by (nonlinear_arith)
        requires m > 0, n >= 0;
}

/// A length rounded up to whole pages is the page count times the page size.
pub(crate) proof fn lemma_page_multiple(len: usize, r: usize)
    requires
        r & 4095 == 0,
        len <= r,
        r < len + 4096,
    ensures
        r == page_count(len as u64) * 4096,
        r % 4096 == 0,
{
    assert(r % 4096 == 0) by (bit_vector)
        requires r & 4095 == 0;
    assert(r == page_count(len as u64) * 4096) by (nonlinear_arith)
        requires r % 4096 == 0, len <= r, r < len + 4096;
}

/// Builds the free-frame list from the usable entries of the memory map.
#[verifier::loop_isolation(false)]
fn free_list_from(entries: &Vec<MemmapEntry>, hhdm: usize) -> (r: FreePageList)
    requires
        forall|k: int| 0 <= k < entries@.len() ==> entry_fits(#[trigger] entries@[k], hhdm),
    ensures
        r.pages() == usable_frames(entries@),
        r.count() == (r.pages().len() as int) % (usize::MAX as int + 1),
{
    let mut list = FreePageList::new();
    proof {
        lemma_mod_wrap(0);
    }
    let mut k: usize = 0;
    while k < entries.len()
        invariant
            k <= entries@.len(),
            forall|j: int| 0 <= j < entries@.len() ==> entry_fits(#[trigger] entries@[j], hhdm),
            list.pages() == usable_frames(entries@.subrange(0, k as int)),
            list.count() == (list.pages().len() as int) % (usize::MAX as int + 1),
        decreases entries@.len() - k,
    {
        let entry = entries[k];
        proof {
            assert(entries@.subrange(0, k + 1).drop_last() == entries@.subrange(0, k as int));
        }
        if entry.entry_type == MEMMAP_USABLE {
            assert(entry_fits(entries@[k as int], hhdm));
            let amount = align_up(entry.length as usize, 4096);
            proof {
                assert(super::is_pow2(4096)) by (bit_vector);
                lemma_page_multiple(entry.length as usize, amount);
            }
            let ghost before = list.pages();
            let mut i: usize = 0;
            while i < amount
                invariant
                    i <= amount,
                    i % 4096 == 0,
                    amount % 4096 == 0,
                    list.pages() == before + entry_frames(entry).subrange(0, (i / 4096) as int),
                    list.count() == (list.pages().len() as int) % (usize::MAX as int + 1),
                decreases amount - i,
            {
                proof {
                    assert(i + 4096 <= amount) by (nonlinear_arith)
                        requires i < amount, i % 4096 == 0, amount % 4096 == 0;
                    assert((i + 4096) / 4096 == i / 4096 + 1) by (nonlinear_arith)
                        requires i % 4096 == 0;
                    assert(4096 * (i / 4096) == i) by (nonlinear_arith)
                        requires i % 4096 == 0;
                }
                proof {
                    lemma_mod_wrap(list.pages().len() as int);
                }
                list.pages.push(entry.base as usize + i);
                list.free_pages = list.free_pages.wrapping_add(1);
                i = i + 4096;
                proof {
                    assert(list.pages() == before + entry_frames(entry).subrange(0, (i / 4096) as int));
                }
            }
            proof {
                assert(entry_frames(entry).subrange(0, (i / 4096) as int) == entry_frames(entry));
            }
        }
        k = k + 1;
    }
    proof {
        assert(entries@.subrange(0, entries@.len() as int) == entries@);
    }
    list
}


/// Bytes a slab header takes at the start of its page.
pub const SLAB_HEADER_SIZE: usize = 24;

/// Link to a free object of a slab, by its address.
pub struct holder_type(pub Option<usize>);

/// Link to a slab header, by its address.
pub struct holder_type2(pub Option<usize>);

impl holder_type2 {
    pub fn from_raw(h: usize) -> (r: Self)
        ensures
            r.0 == Some(h),
    {
        holder_type2(Some(h))
    }

    pub fn new() -> (r: Self)
        ensures
            r.0 is None,
    {
        holder_type2(None)
    }
}

impl holder_type {
    pub fn from_raw(h: usize) -> (r: Self)
        ensures
            r.0 == Some(h),
    {
        holder_type(Some(h))
    }

    pub fn new() -> (r: Self)
        ensures
            r.0 is None,
    {
        holder_type(None)
    }
}

/// The header at the start of a slab page.
///
/// `at` is the address of the page that holds the header; objects follow the
/// header.  A free object carries an empty link (objects are zeroed when they
/// are freed), so the free list of a slab holds at most its head.
pub struct slab_header {
    pub obj_size: usize,
    pub next_slab: holder_type2,
    pub freelist: holder_type,
    pub at: usize,
}

/// A fresh slab for objects of `size` bytes in the page at `at`: its first
/// object, right after the header, is free.
pub open spec fn fresh_slab(size: usize, at: usize) -> slab_header {
    slab_header {
        obj_size: size,
        next_slab: holder_type2(None),
        freelist: holder_type(Some((at + SLAB_HEADER_SIZE) as usize)),
        at,
    }
}

/// `h` with its free list emptied.
pub open spec fn emptied(h: slab_header) -> slab_header {
    slab_header { obj_size: h.obj_size, next_slab: h.next_slab, freelist: holder_type(None), at: h.at }
}

/// `h` with `f` as its free list.
pub open spec fn pushed(h: slab_header, f: usize) -> slab_header {
    slab_header { obj_size: h.obj_size, next_slab: h.next_slab, freelist: holder_type(Some(f)), at: h.at }
}

/// `h` linked to the slab at `next`.
pub open spec fn linked(h: slab_header, next: usize) -> slab_header {
    slab_header { obj_size: h.obj_size, next_slab: holder_type2(Some(next)), freelist: h.freelist, at: h.at }
}

/// Some slab of `s` has a free object.
pub open spec fn has_free(s: Seq<slab_header>) -> bool {
    exists|k: int| 0 <= k < s.len() && (#[trigger] s[k]).freelist.0 is Some
}

/// `k` is the first slab of `s` with a free object.
pub open spec fn first_free(s: Seq<slab_header>, k: int) -> bool {
    &&& 0 <= k < s.len()
    &&& s[k].freelist.0 is Some
    &&& forall|j: int| 0 <= j < k ==> (#[trigger] s[j]).freelist.0 is None
}

/// The slabs `s` after the object at `addr` was given back: the first slab
/// whose header lies in its page has it as its free object.
pub open spec fn freed_slabs(s: Seq<slab_header>, addr: usize) -> Seq<slab_header> {
    Seq::new(
        s.len(),
        |l: int|
            if s[l].at == addr & !0xfffusize && forall|j: int| 0 <= j < l ==> s[j].at != addr & !0xfffusize {
                pushed(s[l], addr)
            } else {
                s[l]
            },
    )
}

/// One of the object sizes of the kmalloc caches.
pub fn is_kmalloc_size(x: usize) -> (r: bool)
    ensures
        r == kmalloc_sizes().contains(x),
{
    proof {
        let ks = kmalloc_sizes();
        if ks.contains(x) {
            let j = choose|j: int| 0 <= j < ks.len() && ks[j] == x;
            assert(j == 0 || j == 1 || j == 2 || j == 3 || j == 4 || j == 5 || j == 6);
        }
        if x == 16 { assert(ks[0] == x); }
        if x == 32 { assert(ks[1] == x); }
        if x == 64 { assert(ks[2] == x); }
        if x == 128 { assert(ks[3] == x); }
        if x == 256 { assert(ks[4] == x); }
        if x == 512 { assert(ks[5] == x); }
        if x == 1024 { assert(ks[6] == x); }
    }
    x == 16 || x == 32 || x == 64 || x == 128 || x == 256 || x == 512 || x == 1024
}

/// No two slabs of `s` share a page.
#[verifier::opaque]
pub open spec fn slab_pages_distinct(s: Seq<slab_header>) -> bool {
    forall|k: int, l: int| 0 <= k < l < s.len() ==> (#[trigger] s[k]).at != (#[trigger] s[l]).at
}

/// Slabs in the same pages as distinct ones are distinct.
proof fn lemma_distinct_same_pages(s: Seq<slab_header>, s2: Seq<slab_header>)
    requires
        slab_pages_distinct(s),
        s2.len() == s.len(),
        forall|k: int| 0 <= k < s.len() ==> (#[trigger] s2[k]).at == s[k].at,
    ensures
        slab_pages_distinct(s2),
{
    reveal(slab_pages_distinct);
    assert forall|k: int, l: int| 0 <= k < l < s2.len() implies (#[trigger] s2[k]).at != (#[trigger] s2[l]).at by {
        assert(s[k].at != s[l].at);
    }
}

/// Adding a slab in a page none of `s` is in keeps them distinct.
proof fn lemma_distinct_push(s: Seq<slab_header>, h: slab_header)
    requires
        slab_pages_distinct(s),
        forall|k: int| 0 <= k < s.len() ==> (#[trigger] s[k]).at != h.at,
    ensures
        slab_pages_distinct(s.push(h)),
{
    reveal(slab_pages_distinct);
    let s2 = s.push(h);
    assert forall|k: int, l: int| 0 <= k < l < s2.len() implies (#[trigger] s2[k]).at != (#[trigger] s2[l]).at by {
        if l < s.len() {
            assert(s[k].at != s[l].at);
        }
    }
}

/// `f` is a non-null object that, when the slab at `at` starts a page, lies
/// in that page.
pub open spec fn in_slab_page(f: usize, at: usize) -> bool {
    f != 0 && (at % 4096 == 0 ==> f & !0xfffusize == at)
}

/// Every slab of `s` starts a page.
pub open spec fn slabs_aligned(s: Seq<slab_header>) -> bool {
    forall|k: int| 0 <= k < s.len() ==> (#[trigger] s[k]).at % 4096 == 0
}

/// The first object of a slab lies in the slab's page.
proof fn lemma_first_object_in_page(at: usize)
    requires
        at + SLAB_HEADER_SIZE <= usize::MAX,
    ensures
        in_slab_page((at + SLAB_HEADER_SIZE) as usize, at),
{
    let f = (at + 24) as usize;
    assert(f != 0 && (at % 4096 == 0 ==> f & !0xfffusize == at)) by (bit_vector)
        requires f == at + 24;
}

/// The slabs of `s` lie at distinct addresses and their free object, if any,
/// lies in the slab's own page when the slab starts a page; they hold objects
/// of `size` bytes and each links to the next.
pub open spec fn slabs_wf(s: Seq<slab_header>, size: usize) -> bool {
    &&& slab_pages_distinct(s)
    &&& forall|k: int|
        0 <= k < s.len() && (#[trigger] s[k]).freelist.0 is Some ==> in_slab_page(s[k].freelist.0->0, s[k].at)
    &&& forall|k: int| 0 <= k < s.len() ==> (#[trigger] s[k]).obj_size == size
    &&& forall|k: int| 0 <= k < s.len() ==> (#[trigger] s[k]).next_slab.0 == if k + 1 < s.len() {
        Some(s[k + 1].at)
    } else {
        None
    }
}

impl slab_header {
    /// Takes a frame and lays out a slab for objects of `size` bytes in it,
    /// seen through the direct map at `hhdm`.
    pub fn init(size: usize, pmm: &mut FreePageList, hhdm: usize) -> (r: slab_header)
        requires
            old(pmm).pages().len() > 0,
            old(pmm).pages().last() + hhdm + SLAB_HEADER_SIZE <= usize::MAX,
        ensures
            final(pmm).pages() == old(pmm).pages().drop_last(),
            final(pmm).count() == wrapping_dec(old(pmm).count()),
            r == fresh_slab(size, (old(pmm).pages().last() + hhdm) as usize),
    {
        let data = pmm_alloc(pmm);
        let at = data.unwrap() + hhdm;
        slab_header {
            obj_size: size,
            next_slab: holder_type2::new(),
            freelist: holder_type::from_raw(at + SLAB_HEADER_SIZE),
            at,
        }
    }

    /// Takes the head of the free list.
    pub fn pop(&mut self) -> (r: Option<usize>)
        ensures
            r == old(self).freelist.0,
            *final(self) == emptied(*old(self)),
    {
        let r = self.freelist.0;
        self.freelist = holder_type::new();
        r
    }

    /// Makes the (zeroed) object at `f` the free list.
    pub fn push(&mut self, f: usize)
        ensures
            *final(self) == pushed(*old(self), f),
    {
        self.freelist = holder_type::from_raw(f);
    }
}

/// The slabs that hand out objects of one size.
pub struct cache {
    size: usize,
    slabs: Vec<slab_header>,
}

/// What [`cache::slab_allocsearch`] does to a cache and the frame list.
pub open spec fn slab_alloc_post(
    old_c: cache,
    new_c: cache,
    old_pmm: FreePageList,
    new_pmm: FreePageList,
    hhdm: usize,
    r: Option<usize>,
) -> bool {
    let s = old_c.slab_seq();
    &&& new_c.obj_size() == old_c.obj_size()
    &&& has_free(s) ==> exists|k: int| {
        &&& first_free(s, k)
        &&& r == s[k].freelist.0
        &&& new_c.slab_seq() == s.update(k, emptied(s[k]))
        &&& new_pmm == old_pmm
    }
    &&& !has_free(s) ==> {
        let at = (old_pmm.pages().last() + hhdm) as usize;
        &&& r == Some((at + SLAB_HEADER_SIZE) as usize)
        &&& new_c.slab_seq() == s.update(s.len() - 1, linked(s.last(), at)).push(
            emptied(fresh_slab(old_c.obj_size(), at)),
        )
        &&& new_pmm.pages() == old_pmm.pages().drop_last()
        &&& new_pmm.count() == wrapping_dec(old_pmm.count())
    }
}

impl cache {
    /// Size of the objects.
    pub closed spec fn obj_size(&self) -> usize {
        self.size
    }

    /// The slabs, in the order they are searched.
    pub closed spec fn slab_seq(&self) -> Seq<slab_header> {
        self.slabs@
    }

    pub open spec fn wf(&self) -> bool {
        slabs_wf(self.slab_seq(), self.obj_size())
    }

    /// A cache for objects of `size` bytes with one fresh slab.
    pub fn init(size: usize, pmm: &mut FreePageList, hhdm: usize) -> (r: Self)
        requires
            old(pmm).pages().len() > 0,
            old(pmm).pages().last() + hhdm + SLAB_HEADER_SIZE <= usize::MAX,
        ensures
            r.wf(),
            r.obj_size() == size,
            r.slab_seq() == seq![fresh_slab(size, (old(pmm).pages().last() + hhdm) as usize)],
            final(pmm).pages() == old(pmm).pages().drop_last(),
            final(pmm).count() == wrapping_dec(old(pmm).count()),
    {
        proof {
            lemma_first_object_in_page((old(pmm).pages().last() + hhdm) as usize);
        }
        let new = slab_header::init(size, pmm, hhdm);
        let mut slabs = Vec::new();
        slabs.push(new);
        proof {
            reveal(slab_pages_distinct);
        }
        cache { size, slabs }
    }

    /// Hands out a free object: the head of the first slab that has one, or
    /// else the first object of a new slab put at the end.
    #[verifier::spinoff_prover]
    #[verifier::rlimit(40)]
    pub fn slab_allocsearch(&mut self, pmm: &mut FreePageList, hhdm: usize) -> (r: Option<usize>)
        requires
            old(self).wf(),
            old(self).slab_seq().len() > 0,
            !has_free(old(self).slab_seq()) ==> {
                &&& old(pmm).pages().len() > 0
                &&& old(pmm).pages().last() + hhdm + SLAB_HEADER_SIZE <= usize::MAX
                &&& forall|k: int|
                    0 <= k < old(self).slab_seq().len() ==> (#[trigger] old(self).slab_seq()[k]).at != old(pmm).pages().last()
                        + hhdm
            },
        ensures
            final(self).wf(),
            r is Some,
            slab_alloc_post(*old(self), *final(self), *old(pmm), *final(pmm), hhdm, r),
            slabs_aligned(final(self).slab_seq()) ==> forall|k: int|
                0 <= k < final(self).slab_seq().len() ==> (#[trigger] final(self).slab_seq()[k]).freelist.0 != r,
            exists|k: int|
                0 <= k < final(self).slab_seq().len() && in_slab_page(
                    r->0,
                    #[trigger] final(self).slab_seq()[k].at,
                ),
    {
        match self.first_free_index() {
            Some(k) => {
                let ghost s = self.slabs@;
                let mut h = self.slabs.remove(k);
                let y = h.pop();
                self.slabs.insert(k, h);
                proof {
                    assert(self.slabs@ == s.update(k as int, emptied(s[k as int])));
                    lemma_distinct_same_pages(s, self.slabs@);
                    assert(slabs_wf(self.slabs@, self.size));
                    assert(in_slab_page(y->0, self.slabs@[k as int].at));
                    reveal(slab_pages_distinct);
                    assert forall|j: int| slabs_aligned(self.slabs@) && 0 <= j < self.slabs@.len() implies (#[trigger] self.slabs@[j]).freelist.0 != y by {
                        if j != k && self.slabs@[j].freelist.0 == y {
                            assert(in_slab_page(y->0, s[j].at));
                            assert(s[j].at != s[k as int].at);
                        }
                    }
                }
                return y;
            },
            None => {},
        }
        let ghost s = self.slabs@;
        proof {
            lemma_first_object_in_page((pmm.pages().last() + hhdm) as usize);
        }
        let mut new = slab_header::init(self.size, pmm, hhdm);
        let at = new.at;
        let y = new.pop();
        let mut last = self.slabs.pop().unwrap();
        last.next_slab = holder_type2::from_raw(at);
        self.slabs.push(last);
        self.slabs.push(new);
        proof {
            assert(!has_free(s));
            let s1 = s.update(s.len() - 1, linked(s.last(), at));
            assert(self.slabs@ == s1.push(emptied(fresh_slab(self.size, at))));
            lemma_distinct_same_pages(s, s1);
            lemma_distinct_push(s1, emptied(fresh_slab(self.size, at)));
            assert(in_slab_page(y->0, self.slabs@[s.len() as int].at));
            assert forall|j: int| 0 <= j < self.slabs@.len() implies (#[trigger] self.slabs@[j]).freelist.0 != y by {
                if j < s.len() && s[j].freelist.0 is Some {
                    assert(has_free(s));
                }
            }
        }
        y
    }

    /// Size of the objects.
    pub fn size(&self) -> (r: usize)
        ensures
            r == self.obj_size(),
    {
        self.size
    }

    /// Gives the object at `addr` back to the first slab whose header lies in
    /// its page; nothing happens for a null address or one whose page is no
    /// slab's.
    #[verifier::spinoff_prover]
    #[verifier::rlimit(40)]
    pub fn free_in_slab(&mut self, addr: usize)
        requires
            old(self).wf(),
        ensures
            final(self).wf(),
            final(self).obj_size() == old(self).obj_size(),
            addr == 0 ==> final(self).slab_seq() == old(self).slab_seq(),
            addr != 0 ==> final(self).slab_seq() == freed_slabs(old(self).slab_seq(), addr),
    {
        if addr == 0 {
            return;
        }
        let page = addr & !0xfff;
        let n = self.slabs.len();
        let mut k: usize = 0;
        let mut found = false;
        while k < n && !found
            invariant
                n == self.slabs@.len(),
                k <= n,
                found ==> k < n && self.slabs@[k as int].at == page,
                !found ==> forall|l: int| 0 <= l < k ==> (#[trigger] self.slabs@[l]).at != page,
            decreases n - k + (if found { 0int } else { 1int }),
        {
            if self.slabs[k].at == page {
                found = true;
            } else {
                k = k + 1;
            }
        }
        if found {
            proof {
                assert(self.slab_seq()[k as int].at == addr & !0xfffusize);
            }
            self.free(addr);
            proof {
                let s0 = old(self).slab_seq();
                let f = freed_slabs(s0, addr);
                assert(f.len() == s0.len());
                assert forall|l: int| 0 <= l < s0.len() implies #[trigger] self.slab_seq()[l] == f[l] by {
                    assert(self.slab_seq()[l] == (if s0[l].at == addr & !0xfffusize && forall|j: int|
                        0 <= j < l ==> s0[j].at != addr & !0xfffusize {
                        pushed(s0[l], addr)
                    } else {
                        s0[l]
                    }));
                }
                assert(self.slab_seq() =~= f);
            }
        } else {
            proof {
                let s0 = old(self).slab_seq();
                let f = freed_slabs(s0, addr);
                assert forall|l: int| 0 <= l < s0.len() implies #[trigger] f[l] == s0[l] by {
                    assert(s0[l].at != addr & !0xfffusize);
                }
                assert(s0 =~= f);
            }
        }
    }

    /// Gives the object at `addr` back to the slab in whose page it lies.
    pub fn free(&mut self, addr: usize)
        requires
            old(self).wf(),
            addr != 0 ==> exists|k: int|
                0 <= k < old(self).slab_seq().len() && (#[trigger] old(self).slab_seq()[k]).at == addr & !0xfffusize,
        ensures
            final(self).wf(),
            final(self).obj_size() == old(self).obj_size(),
            addr == 0 ==> final(self).slab_seq() == old(self).slab_seq(),
            addr != 0 ==> {
                let s = old(self).slab_seq();
                &&& final(self).slab_seq().len() == s.len()
                &&& forall|l: int| 0 <= l < s.len() ==> (#[trigger] final(self).slab_seq()[l]) == if s[l].at
                    == addr & !0xfffusize && forall|j: int| 0 <= j < l ==> s[j].at != addr & !0xfffusize {
                    pushed(s[l], addr)
                } else {
                    s[l]
                }
            },
    {
        if addr == 0 {
            return;
        }
        let page = addr & !0xfff;
        let k = self.slab_at(page);
        let ghost s = self.slabs@;
        let mut h = self.slabs.remove(k);
        h.push(addr);
        self.slabs.insert(k, h);
        proof {
            assert(self.slabs@ == s.update(k as int, pushed(s[k as int], addr)));
            lemma_distinct_same_pages(s, self.slabs@);
            assert forall|i: int| 0 <= i < s.len() implies (#[trigger] self.slabs@[i]) == if s[i].at
                == page && forall|j: int| 0 <= j < i ==> s[j].at != page {
                pushed(s[i], addr)
            } else {
                s[i]
            } by {
                if i > k {
                    assert(s[k as int].at == page);
                }
            }
            assert(slabs_wf(self.slabs@, self.size));
        }
    }

    /// The first slab with a free object, if any.
    fn first_free_index(&self) -> (r: Option<usize>)
        ensures
            r is None ==> !has_free(self.slab_seq()),
            r matches Some(k) ==> first_free(self.slab_seq(), k as int),
    {
        let n = self.slabs.len();
        let mut k: usize = 0;
        while k < n
            invariant
                n == self.slabs@.len(),
                k <= n,
                forall|j: int| 0 <= j < k ==> (#[trigger] self.slabs@[j]).freelist.0 is None,
            decreases n - k,
        {
            if self.slabs[k].freelist.0.is_some() {
                return Some(k);
            }
            k = k + 1;
        }
        None
    }

    /// The first slab whose header lies in the page at `page`.
    fn slab_at(&self, page: usize) -> (k: usize)
        requires
            exists|k: int| 0 <= k < self.slab_seq().len() && (#[trigger] self.slab_seq()[k]).at == page,
        ensures
            k < self.slab_seq().len(),
            self.slab_seq()[k as int].at == page,
            forall|j: int| 0 <= j < k ==> (#[trigger] self.slab_seq()[j]).at != page,
    {
        let n = self.slabs.len();
        let mut k: usize = 0;
        while k < n
            invariant
                n == self.slabs@.len(),
                k <= n,
                exists|k: int| 0 <= k < self.slabs@.len() && (#[trigger] self.slabs@[k]).at == page,
                forall|j: int| 0 <= j < k ==> (#[trigger] self.slabs@[j]).at != page,
            decreases n - k,
        {
            if self.slabs[k].at == page {
                return k;
            }
            k = k + 1;
        }
        proof {
            let w = choose|w: int| 0 <= w < self.slabs@.len() && (#[trigger] self.slabs@[w]).at == page;
            assert(self.slabs@[w].at != page);
        }
        0
    }

    /// Lets go of every slab; each one's free object must be there.
    pub fn clear_all_slabs(&mut self)
        requires
            forall|k: int| 0 <= k < old(self).slab_seq().len() ==> (#[trigger] old(self).slab_seq()[k]).freelist.0 is Some,
        ensures
            final(self).obj_size() == old(self).obj_size(),
            final(self).slab_seq() == Seq::<slab_header>::empty(),
    {
        self.slabs = Vec::new();
    }
}


/// The least power of two that is not below `x`, as `usize::next_power_of_two`
/// gives it.
///
/// Inputs above the highest power of two that fits a `usize` are left out;
/// `usize::next_power_of_two` panics on them in debug builds.
fn next_power_of_two(x: usize) -> (r: usize)
    requires
        x <= usize::MAX / 2 + 1,
    ensures
        super::is_pow2(r),
        x <= r,
        r == 1 || r / 2 < x,
{
    let mut p: usize = 1;
    proof {
        assert(1usize & 0usize == 0) by (bit_vector);
    }
    while p < x
        invariant
            super::is_pow2(p),
            x <= usize::MAX / 2 + 1,
            p == 1 || p / 2 < x,
        decreases usize::MAX - p,
    {
        assert(p <= usize::MAX / 2);
        let q = p * 2;
        proof {
            assert(q & ((q - 1) as usize) == 0 && q > 0) by (bit_vector)
                requires p > 0, p & ((p - 1) as usize) == 0, q == p * 2;
            assert(q / 2 == p);
            assert(q > p);
        }
        p = q;
    }
    p
}

/// The object sizes of the kmalloc caches, smallest first.
pub open spec fn kmalloc_sizes() -> Seq<usize> {
    seq![16usize, 32, 64, 128, 256, 512, 1024]
}

/// The cache that serves requests of `size` bytes: the first whose objects
/// are at least that large.
pub open spec fn size_class(size: usize) -> int {
    if size <= 16 {
        0
    } else if size <= 32 {
        1
    } else if size <= 64 {
        2
    } else if size <= 128 {
        3
    } else if size <= 256 {
        4
    } else if size <= 512 {
        5
    } else {
        6
    }
}

/// A power of two that reaches `s` reaches the least power of two that does.
proof fn lemma_pow2_class(a: usize, s: usize, c: usize)
    requires
        a > 0,
        a & ((a - 1) as usize) == 0,
        a == 1 || a / 2 < s,
        c > 0,
        c & ((c - 1) as usize) == 0,
        s <= c,
    ensures
        a <= c,
{
    assert(a <= c) by (bit_vector)
        requires
            a > 0,
            a & ((a - 1) as usize) == 0,
            a == 1 || a / 2 < s,
            c > 0,
            c & ((c - 1) as usize) == 0,
            s <= c,
    ;
}

/// The first cache reaching the least power of two not below `size` is the
/// size class of `size`.
proof fn lemma_class_found(a: usize, size: usize, i: int)
    requires
        super::is_pow2(a),
        size <= a,
        a == 1 || a / 2 < size,
        0 <= i < 7,
        kmalloc_sizes()[i] >= a,
        forall|j: int| 0 <= j < i ==> #[trigger] kmalloc_sizes()[j] < a,
    ensures
        size <= 1024,
        i == size_class(size),
{
    let c = kmalloc_sizes()[size_class(size)];
    assert(c > 0 && c & ((c - 1) as usize) == 0) by (bit_vector)
        requires c == 16 || c == 32 || c == 64 || c == 128 || c == 256 || c == 512 || c == 1024;
    if size <= 1024 {
        lemma_pow2_class(a, size, c);
        if size_class(size) < i {
            assert(kmalloc_sizes()[size_class(size)] < a);
        }
        if size_class(size) > i {
            assert(kmalloc_sizes()[i] < size);
        }
    }
}

/// The general-purpose allocator: seven caches of slab objects.
pub struct kmallocmanager {
    array: Vec<cache>,
}

/// An object of `size` bytes can be asked of `k`: the caches are well
/// formed, the size can be rounded up to a power of two, and where its cache
/// has no free object, `pmm` has a frame for a new slab whose header, at the
/// frame's address in the direct map at `hhdm`, is not a page of a slab yet.
pub open spec fn kmalloc_alloc_ok(k: kmallocmanager, pmm: FreePageList, hhdm: usize, size: usize) -> bool {
    &&& k.wf()
    &&& size <= usize::MAX / 2 + 1
    &&& size <= 1024 && !has_free(k.caches()[size_class(size)].slab_seq()) ==> {
        &&& pmm.pages().len() > 0
        &&& pmm.pages().last() + hhdm + SLAB_HEADER_SIZE <= usize::MAX
        &&& !k.owns_page((pmm.pages().last() + hhdm) as usize)
    }
}

/// `k2` and `pmm2` are `k` and `pmm` after an object of `size` bytes was
/// asked for and `r` returned: nothing for more than 1024 bytes; else an
/// object of the cache of the size rounded up to a power of two, whose other
/// caches stay as they were.
pub open spec fn kmalloc_alloc_post(
    k: kmallocmanager,
    k2: kmallocmanager,
    pmm: FreePageList,
    pmm2: FreePageList,
    hhdm: usize,
    size: usize,
    r: Option<usize>,
) -> bool {
    &&& k2.wf()
    &&& size > 1024 ==> r is None && k2.caches() == k.caches() && pmm2 == pmm
    &&& size <= 1024 ==> {
        let i = size_class(size);
        &&& r is Some
        &&& r->0 != 0
        &&& k2.aligned() ==> k2.owns_page(r->0 & !0xfffusize)
        &&& k.aligned() && (!has_free(k.caches()[i].slab_seq()) ==> (pmm.pages().last() + hhdm) % 4096 == 0)
            ==> k2.aligned()
        &&& slab_alloc_post(k.caches()[i], k2.caches()[i], pmm, pmm2, hhdm, r)
        &&& k2.caches() == k.caches().update(i, k2.caches()[i])
    }
}

/// An address can be given back to `k`: the caches are well formed.
pub open spec fn kmalloc_free_ok(k: kmallocmanager, addr: usize) -> bool {
    k.wf()
}

/// `k2` is `k` after the object at `addr` was given back: the slab of its
/// page has it as its free object, and nothing else changes; a null address,
/// or one whose page is no slab's, changes nothing.
pub open spec fn kmalloc_free_post(k: kmallocmanager, k2: kmallocmanager, addr: usize) -> bool {
    &&& k2.wf()
    &&& addr == 0 ==> k2.caches() == k.caches()
    &&& addr != 0 ==> k2.caches().len() == 7 && forall|i: int|
        0 <= i < 7 ==> (#[trigger] k2.caches()[i]).slab_seq() == k.caches()[i].slab_seq().map_values(
            |h: slab_header| if h.at == addr & !0xfffusize { pushed(h, addr) } else { h },
        )
}

/// An object handed out for `size` bytes and given back right away is what
/// the next request of that size gets, and no frame is taken for it, when
/// every slab, and the one a new slab would take, starts a page.
pub proof fn free_then_allocate(
    k0: kmallocmanager,
    k1: kmallocmanager,
    k2: kmallocmanager,
    k3: kmallocmanager,
    pmm0: FreePageList,
    pmm1: FreePageList,
    pmm2: FreePageList,
    hhdm: usize,
    size: usize,
    p: usize,
    r: Option<usize>,
)
    requires
        kmalloc_alloc_ok(k0, pmm0, hhdm, size),
        k0.aligned(),
        !has_free(k0.caches()[size_class(size)].slab_seq()) ==> (pmm0.pages().last() + hhdm) % 4096 == 0,
        size <= 1024,
        kmalloc_alloc_post(k0, k1, pmm0, pmm1, hhdm, size, Some(p)),
        kmalloc_free_post(k1, k2, p),
        kmalloc_alloc_post(k2, k3, pmm1, pmm2, hhdm, size, r),
    ensures
        r == Some(p),
        pmm2 == pmm1,
{
    let ci = size_class(size);
    let s0 = k0.caches()[ci].slab_seq();
    let s1 = k1.caches()[ci].slab_seq();
    assert(k0.caches()[ci].wf());
    assert(slab_alloc_post(k0.caches()[ci], k1.caches()[ci], pmm0, pmm1, hhdm, Some(p)));
    let j = if has_free(s0) {
        let kk = choose|kk: int| {
            &&& first_free(s0, kk)
            &&& Some(p) == s0[kk].freelist.0
            &&& s1 == s0.update(kk, emptied(s0[kk]))
            &&& pmm1 == pmm0
        };
        assert(in_slab_page(p, s0[kk].at));
        assert(slabs_aligned(s0));
        assert(s0[kk].at % 4096 == 0);
        assert forall|l: int| 0 <= l < kk implies (#[trigger] s1[l]).freelist.0 is None by {
            assert(s1[l] == s0[l]);
        }
        kk
    } else {
        let at = (pmm0.pages().last() + hhdm) as usize;
        lemma_first_object_in_page(at);
        assert(s1[s0.len() as int].at == at);
        assert forall|l: int| 0 <= l < s0.len() implies (#[trigger] s1[l]).freelist.0 is None by {
            if s0[l].freelist.0 is Some {
                assert(has_free(s0));
            }
        }
        s0.len() as int
    };
    assert(k1.slab(ci, j).at == p & !0xfffusize);
    assert(p != 0);
    lemma_free_then_allocate_at(k1, k2, k3, pmm1, pmm2, hhdm, p, size, j, r);
}

/// An object given back is what the next request of its size gets, as long
/// as no slab searched before its own has a free object; no frame is taken.
proof fn lemma_free_then_allocate_at(
    k: kmallocmanager,
    k2: kmallocmanager,
    k3: kmallocmanager,
    pmm: FreePageList,
    pmm2: FreePageList,
    hhdm: usize,
    addr: usize,
    size: usize,
    j: int,
    r: Option<usize>,
)
    requires
        k.wf(),
        addr != 0,
        size <= 1024,
        0 <= j < k.caches()[size_class(size)].slab_seq().len(),
        k.slab(size_class(size), j).at == addr & !0xfffusize,
        forall|l: int| 0 <= l < j ==> (#[trigger] k.slab(size_class(size), l)).freelist.0 is None,
        kmalloc_free_post(k, k2, addr),
        kmalloc_alloc_post(k2, k3, pmm, pmm2, hhdm, size, r),
    ensures
        r == Some(addr),
        pmm2 == pmm,
{
    reveal(kmallocmanager::pages_distinct);
    let ci = size_class(size);
    let page = addr & !0xfffusize;
    let s = k.caches()[ci].slab_seq();
    let s2 = k2.caches()[ci].slab_seq();
    assert(s2 == s.map_values(|h: slab_header| if h.at == page { pushed(h, addr) } else { h }));
    assert forall|l: int| 0 <= l < j implies (#[trigger] s2[l]).freelist.0 is None by {
        assert(k.slab(ci, l).at != k.slab(ci, j).at);
    }
    assert(s2[j].freelist.0 == Some(addr));
    assert(has_free(s2));
    let kk = choose|kk: int| {
        &&& first_free(s2, kk)
        &&& r == s2[kk].freelist.0
        &&& k3.caches()[ci].slab_seq() == s2.update(kk, emptied(s2[kk]))
        &&& pmm2 == pmm
    };
    if kk < j {
        assert(s2[kk].freelist.0 is None);
    } else if kk > j {
        assert(s2[j].freelist.0 is None);
    }
}

impl kmallocmanager {
    /// The caches, smallest objects first.
    pub closed spec fn caches(&self) -> Seq<cache> {
        self.array@
    }

    /// The slab `k` of cache `i`.
    pub open spec fn slab(&self, i: int, k: int) -> slab_header {
        self.caches()[i].slab_seq()[k]
    }

    /// Every slab starts a page.
    pub open spec fn aligned(&self) -> bool {
        forall|i: int| 0 <= i < 7 ==> slabs_aligned(#[trigger] self.caches()[i].slab_seq())
    }

    /// Some slab has its header in the page at `page`.
    pub open spec fn owns_page(&self, page: usize) -> bool {
        exists|i: int, k: int|
            0 <= i < 7 && 0 <= k < self.caches()[i].slab_seq().len() && #[trigger] self.slab(i, k).at
                == page
    }

    pub open spec fn wf(&self) -> bool {
        &&& self.caches().len() == 7
        &&& forall|i: int|
            0 <= i < 7 ==> {
                &&& (#[trigger] self.caches()[i]).obj_size() == kmalloc_sizes()[i]
                &&& self.caches()[i].wf()
                &&& self.caches()[i].slab_seq().len() > 0
            }
        &&& self.pages_distinct()
    }

    /// No two slabs share a page.
    #[verifier::opaque]
    pub open spec fn pages_distinct(&self) -> bool {
        forall|i: int, k: int, j: int, l: int|
            0 <= i < 7 && 0 <= j < 7 && 0 <= k < self.caches()[i].slab_seq().len() && 0 <= l
                < self.caches()[j].slab_seq().len() && (i != j || k != l) ==> #[trigger] self.slab(
                i,
                k,
            ).at != #[trigger] self.slab(j, l).at
    }

    /// Sets up the seven caches, one fresh slab each, taking frames from `pmm`.
    pub fn init(pmm: &mut FreePageList, hhdm: usize) -> (r: Self)
        requires
            old(pmm).pages().len() >= 7,
            forall|j: int|
                old(pmm).pages().len() - 7 <= j < old(pmm).pages().len() ==> #[trigger] old(pmm).pages()[j]
                    + hhdm + SLAB_HEADER_SIZE <= usize::MAX,
            forall|j: int, l: int|
                old(pmm).pages().len() - 7 <= j < l < old(pmm).pages().len() ==> #[trigger] old(pmm).pages()[j]
                    != #[trigger] old(pmm).pages()[l],
        ensures
            r.wf(),
            final(pmm).pages() == old(pmm).pages().subrange(0, old(pmm).pages().len() - 7),
            final(pmm).count() == wrapping_sub_n(old(pmm).count(), 7),
            forall|i: int|
                0 <= i < 7 ==> (#[trigger] r.caches()[i]).slab_seq() == seq![
                    fresh_slab(
                        kmalloc_sizes()[i],
                        (old(pmm).pages()[old(pmm).pages().len() - 1 - i] + hhdm) as usize,
                    ),
                ],
    {
        let ghost p0 = pmm.pages();
        proof {
            let md = usize::MAX as int + 1;
            let x = pmm.count() as int;
            assert((x - 0) % md == x) by (nonlinear_arith)
                requires md > 0, 0 <= x < md;
        }
        let sizes: [usize; 7] = [16, 32, 64, 128, 256, 512, 1024];
        let mut array: Vec<cache> = Vec::new();
        let mut i: usize = 0;
        while i < 7
            invariant
                i <= 7,
                sizes@ == kmalloc_sizes(),
                array@.len() == i,
                p0 == old(pmm).pages(),
                p0.len() >= 7,
                forall|j: int|
                    p0.len() - 7 <= j < p0.len() ==> #[trigger] p0[j] + hhdm + SLAB_HEADER_SIZE <= usize::MAX,
                pmm.pages() == p0.subrange(0, p0.len() - i),
                pmm.count() == wrapping_sub_n(old(pmm).count(), i as int),
                forall|j: int|
                    0 <= j < i ==> {
                        &&& (#[trigger] array@[j]).obj_size() == kmalloc_sizes()[j]
                        &&& array@[j].wf()
                        &&& array@[j].slab_seq() == seq![
                            fresh_slab(kmalloc_sizes()[j], (p0[p0.len() - 1 - j] + hhdm) as usize),
                        ]
                    },
            decreases 7 - i,
        {
            let ghost c0 = pmm.count();
            let c = cache::init(sizes[i], pmm, hhdm);
            proof {
                let md = usize::MAX as int + 1;
                let x = old(pmm).count() as int;
                assert(c0 as int == (x - i) % md);
                assert(pmm.count() == wrapping_dec(c0));
                assert(((x - i) % md - 1) % md == (x - (i + 1)) % md) by (nonlinear_arith)
                    requires md > 0;
                assert(0 <= (x - i) % md < md) by (nonlinear_arith)
                    requires md > 0;
            }
            array.push(c);
            i = i + 1;
        }
        let r = kmallocmanager { array };
        proof {
            reveal(kmallocmanager::pages_distinct);
            assert forall|i: int, k: int, j: int, l: int|
                0 <= i < 7 && 0 <= j < 7 && 0 <= k < r.caches()[i].slab_seq().len() && 0 <= l
                    < r.caches()[j].slab_seq().len() && (i != j || k != l) implies #[trigger] r.slab(
                    i,
                    k,
                ).at != #[trigger] r.slab(j, l).at by {
                assert(k == 0 && l == 0);
                if i < j {
                    assert(p0[p0.len() - 1 - j] != p0[p0.len() - 1 - i]);
                } else {
                    assert(p0[p0.len() - 1 - i] != p0[p0.len() - 1 - j]);
                }
            }
        }
        r
    }

    /// Hands out an object of at least `size` bytes from the first cache whose
    /// objects are that large; `None` when `size` is above 1024.
    #[verifier::spinoff_prover]
    #[verifier::rlimit(40)]
    pub fn allocate(&mut self, pmm: &mut FreePageList, hhdm: usize, size: usize) -> (r: Option<usize>)
        requires
            kmalloc_alloc_ok(*old(self), *old(pmm), hhdm, size),
        ensures
            kmalloc_alloc_post(*old(self), *final(self), *old(pmm), *final(pmm), hhdm, size, r),
    {
        let a = next_power_of_two(size);
        match self.first_cache_reaching(a) {
            Some(i) => {
                proof {
                    lemma_class_found(a, size, i as int);
                    assert(self.caches()[i as int].wf());
                    if !has_free(self.caches()[i as int].slab_seq()) {
                        let at = (pmm.pages().last() + hhdm) as usize;
                        assert forall|k: int| 0 <= k < self.caches()[i as int].slab_seq().len() implies (#[trigger] self.caches()[i as int].slab_seq()[k]).at != at by {
                            if self.caches()[i as int].slab_seq()[k].at == at {
                                assert(self.slab(i as int, k).at == at);
                            }
                        }
                    }
                }
                let ghost s = self.array@;
                let mut c = self.array.remove(i);
                let r = c.slab_allocsearch(pmm, hhdm);
                self.array.insert(i, c);
                proof {
                    assert(self.array@ == s.update(i as int, c));
                    self.lemma_alloc_keeps_pages_distinct(*old(self), i as int, *old(pmm), *pmm, hhdm, r);
                    let kk = choose|kk: int| 0 <= kk < c.slab_seq().len() && in_slab_page(r->0, #[trigger] c.slab_seq()[kk].at);
                    let old_s = old(self).caches()[i as int].slab_seq();
                    if old(self).aligned() && (!has_free(old_s) ==> (old(pmm).pages().last() + hhdm) % 4096 == 0) {
                        let new_s = self.caches()[i as int].slab_seq();
                        assert(slabs_aligned(old_s));
                        assert forall|q: int| 0 <= q < new_s.len() implies (#[trigger] new_s[q]).at % 4096 == 0 by {
                            if q < old_s.len() {
                                assert(new_s[q].at == old_s[q].at);
                            }
                        }
                        assert forall|a: int| 0 <= a < 7 implies slabs_aligned(#[trigger] self.caches()[a].slab_seq()) by {
                            if a != i {
                                assert(self.caches()[a] == old(self).caches()[a]);
                            }
                        }
                    }
                    if self.aligned() {
                        assert(slabs_aligned(self.caches()[i as int].slab_seq()));
                        assert(self.caches()[i as int].slab_seq()[kk].at % 4096 == 0);
                        assert(self.slab(i as int, kk).at == r->0 & !0xfffusize);
                    }
                }
                r
            },
            None => {
                proof {
                    assert(kmalloc_sizes()[6] < a);
                    assert(a / 2 >= 1024) by (bit_vector)
                        requires a > 1024, a & ((a - 1) as usize) == 0;
                }
                None
            },
        }
    }

    /// The first cache whose objects are at least `a` bytes.
    fn first_cache_reaching(&self, a: usize) -> (r: Option<usize>)
        requires
            self.wf(),
        ensures
            r is None ==> forall|j: int| 0 <= j < 7 ==> #[trigger] kmalloc_sizes()[j] < a,
            r matches Some(i) ==> i < 7 && kmalloc_sizes()[i as int] >= a && forall|j: int|
                0 <= j < i ==> #[trigger] kmalloc_sizes()[j] < a,
    {
        let mut i: usize = 0;
        while i < self.array.len()
            invariant
                self.wf(),
                i <= 7,
                forall|j: int| 0 <= j < i ==> #[trigger] kmalloc_sizes()[j] < a,
            decreases 7 - i,
        {
            proof {
                assert(self.caches()[i as int].obj_size() == kmalloc_sizes()[i as int]);
            }
            if self.array[i].size >= a {
                return Some(i);
            }
            i = i + 1;
        }
        None
    }

    /// Gives the object at `addr` back to the slab whose header shares its
    /// page; nothing happens for a null address.
    #[verifier::spinoff_prover]
    #[verifier::rlimit(40)]
    pub fn free(&mut self, addr: usize)
        requires
            kmalloc_free_ok(*old(self), addr),
        ensures
            kmalloc_free_post(*old(self), *final(self), addr),
    {
        if addr == 0 {
            return;
        }
        let page = addr & !0xfff;
        let (ci, k) = match self.slab_at(page) {
            Some(p) => p,
            None => {
                proof {
                    self.lemma_free_unowned(addr);
                }
                return;
            },
        };
        let obj_size = self.array[ci].slabs[k].obj_size;
        let j = match self.cache_with_size(obj_size) {
            Some(j) => j,
            None => {
                return;
            },
        };
        proof {
            assert(obj_size == kmalloc_sizes()[ci as int]);
            if j < ci { assert(kmalloc_sizes()[j as int] < kmalloc_sizes()[ci as int]); }
            if j > ci { assert(kmalloc_sizes()[j as int] > kmalloc_sizes()[ci as int]); }
        }
        let ghost old_m = *self;
        let ghost s = self.array@;
        let mut c = self.array.remove(j);
        c.free(addr);
        self.array.insert(j, c);
        proof {
            assert(self.array@ == s.update(j as int, c));
            self.lemma_free_updates(old_m, ci as int, k as int, addr);
        }
    }

    /// Giving back an object whose page is no slab's changes no slab.
    proof fn lemma_free_unowned(&self, addr: usize)
        requires
            self.caches().len() == 7,
            !self.owns_page(addr & !0xfffusize),
        ensures
            forall|i: int|
                0 <= i < 7 ==> (#[trigger] self.caches()[i]).slab_seq() == self.caches()[i].slab_seq().map_values(
                    |h: slab_header| if h.at == addr & !0xfffusize { pushed(h, addr) } else { h },
                ),
    {
        assert forall|i: int| 0 <= i < 7 implies (#[trigger] self.caches()[i]).slab_seq() == self.caches()[i].slab_seq().map_values(
            |h: slab_header| if h.at == addr & !0xfffusize { pushed(h, addr) } else { h },
        ) by {
            let s = self.caches()[i].slab_seq();
            assert forall|k: int| 0 <= k < s.len() implies s[k].at != addr & !0xfffusize by {
                assert(self.slab(i, k).at == s[k].at);
            }
            assert(s.map_values(|h: slab_header| if h.at == addr & !0xfffusize { pushed(h, addr) } else { h }) =~= s);
        }
    }

    /// The first cache whose objects are `obj_size` bytes.
    fn cache_with_size(&self, obj_size: usize) -> (r: Option<usize>)
        requires
            self.wf(),
        ensures
            r is None ==> forall|l: int| 0 <= l < 7 ==> #[trigger] kmalloc_sizes()[l] != obj_size,
            r matches Some(j) ==> j < 7 && kmalloc_sizes()[j as int] == obj_size,
    {
        let mut j: usize = 0;
        while j < self.array.len()
            invariant
                self.wf(),
                j <= 7,
                forall|l: int| 0 <= l < j ==> #[trigger] kmalloc_sizes()[l] != obj_size,
            decreases 7 - j,
        {
            proof {
                assert(self.caches()[j as int].obj_size() == kmalloc_sizes()[j as int]);
            }
            if self.array[j].size == obj_size {
                return Some(j);
            }
            j = j + 1;
        }
        None
    }

    /// The slab whose header lies in the page at `page`.
    #[verifier::spinoff_prover]
    fn slab_at(&self, page: usize) -> (r: Option<(usize, usize)>)
        requires
            self.wf(),
        ensures
            r is None ==> !self.owns_page(page),
            r matches Some(p) ==> {
                &&& p.0 < 7
                &&& p.1 < self.caches()[p.0 as int].slab_seq().len()
                &&& self.slab(p.0 as int, p.1 as int).at == page
            },
    {
        let mut i: usize = 0;
        while i < 7
            invariant
                self.caches().len() == 7,
                i <= 7,
                forall|a: int, k: int|
                    0 <= a < i && 0 <= k < self.caches()[a].slab_seq().len() ==> #[trigger] self.slab(a, k).at
                        != page,
            decreases 7 - i,
        {
            let n = self.array[i].slabs.len();
            let mut k: usize = 0;
            while k < n
                invariant
                    self.caches().len() == 7,
                    i < 7,
                    n == self.caches()[i as int].slab_seq().len(),
                    k <= n,
                    forall|l: int| 0 <= l < k ==> #[trigger] self.slab(i as int, l).at != page,
                decreases n - k,
            {
                if self.array[i].slabs[k].at == page {
                    return Some((i, k));
                }
                k = k + 1;
            }
            i = i + 1;
        }
        None
    }

    /// Pushing on the one slab whose header shares the page of `addr` is the
    /// same as mapping every slab.
    proof fn lemma_free_updates(&self, old_m: kmallocmanager, ci: int, k: int, addr: usize)
        requires
            old_m.wf(),
            addr != 0,
            0 <= ci < 7,
            0 <= k < old_m.caches()[ci].slab_seq().len(),
            old_m.slab(ci, k).at == addr & !0xfffusize,
            self.caches() == old_m.caches().update(ci, self.caches()[ci]),
            self.caches()[ci].wf(),
            self.caches()[ci].obj_size() == old_m.caches()[ci].obj_size(),
            ({
                let s = old_m.caches()[ci].slab_seq();
                &&& self.caches()[ci].slab_seq().len() == s.len()
                &&& forall|l: int| 0 <= l < s.len() ==> (#[trigger] self.caches()[ci].slab_seq()[l]) == if s[l].at
                    == addr & !0xfffusize && forall|j: int| 0 <= j < l ==> s[j].at != addr & !0xfffusize {
                    pushed(s[l], addr)
                } else {
                    s[l]
                }
            }),
        ensures
            self.wf(),
            forall|i: int|
                0 <= i < 7 ==> (#[trigger] self.caches()[i]).slab_seq() == old_m.caches()[i].slab_seq().map_values(
                    |h: slab_header| if h.at == addr & !0xfffusize { pushed(h, addr) } else { h },
                ),
    {
        reveal(kmallocmanager::pages_distinct);
        let page = addr & !0xfffusize;
        assert forall|i: int|
            0 <= i < 7 implies (#[trigger] self.caches()[i]).slab_seq() == old_m.caches()[i].slab_seq().map_values(
                |h: slab_header| if h.at == page { pushed(h, addr) } else { h },
            ) by {
            let s = old_m.caches()[i].slab_seq();
            let t = s.map_values(|h: slab_header| if h.at == page { pushed(h, addr) } else { h });
            if i == ci {
                assert forall|l: int| 0 <= l < s.len() implies self.caches()[ci].slab_seq()[l] == t[l] by {
                    if l != k {
                        assert(old_m.slab(ci, l).at != old_m.slab(ci, k).at);
                    } else {
                        assert forall|j: int| 0 <= j < l implies s[j].at != page by {
                            assert(old_m.slab(ci, j).at != old_m.slab(ci, k).at);
                        }
                    }
                }
                assert(self.caches()[ci].slab_seq() =~= t);
            } else {
                assert forall|l: int| 0 <= l < s.len() implies s[l] == t[l] by {
                    assert(old_m.slab(i, l).at != old_m.slab(ci, k).at);
                }
                assert(s =~= t);
            }
        }
        assert forall|i: int, a: int, j: int, b: int|
            0 <= i < 7 && 0 <= j < 7 && 0 <= a < self.caches()[i].slab_seq().len() && 0 <= b
                < self.caches()[j].slab_seq().len() && (i != j || a != b) implies #[trigger] self.slab(
                i,
                a,
            ).at != #[trigger] self.slab(j, b).at by {
            assert(self.slab(i, a).at == old_m.slab(i, a).at);
            assert(self.slab(j, b).at == old_m.slab(j, b).at);
        }
    }

    /// Handing out an object keeps every slab page different.
    proof fn lemma_alloc_keeps_pages_distinct(
        &self,
        old_m: kmallocmanager,
        i: int,
        old_pmm: FreePageList,
        new_pmm: FreePageList,
        hhdm: usize,
        r: Option<usize>,
    )
        requires
            old_m.wf(),
            0 <= i < 7,
            self.caches() == old_m.caches().update(i, self.caches()[i]),
            self.caches()[i].wf(),
            slab_alloc_post(old_m.caches()[i], self.caches()[i], old_pmm, new_pmm, hhdm, r),
            !has_free(old_m.caches()[i].slab_seq()) ==> !old_m.owns_page((old_pmm.pages().last() + hhdm) as usize),
        ensures
            self.wf(),
    {
        let s = old_m.caches()[i].slab_seq();
        let t = self.caches()[i].slab_seq();
        reveal(kmallocmanager::pages_distinct);
        assert(forall|k: int| 0 <= k < s.len() ==> (#[trigger] t[k]).at == s[k].at);
        assert forall|a: int, k: int, b: int, l: int|
            0 <= a < 7 && 0 <= b < 7 && 0 <= k < self.caches()[a].slab_seq().len() && 0 <= l
                < self.caches()[b].slab_seq().len() && (a != b || k != l) implies #[trigger] self.slab(
                a,
                k,
            ).at != #[trigger] self.slab(b, l).at by {
            if a == i && k == s.len() {
                assert(!has_free(s));
                assert(old_m.slab(b, l).at == self.slab(b, l).at);
                if old_m.slab(b, l).at == self.slab(a, k).at {
                    assert(old_m.owns_page(self.slab(a, k).at));
                }
            } else if b == i && l == s.len() {
                assert(!has_free(s));
                assert(old_m.slab(a, k).at == self.slab(a, k).at);
                if old_m.slab(a, k).at == self.slab(b, l).at {
                    assert(old_m.owns_page(self.slab(b, l).at));
                }
            } else {
                assert(old_m.slab(a, k).at == self.slab(a, k).at);
                assert(old_m.slab(b, l).at == self.slab(b, l).at);
            }
        }
    }
}


/// Every frame of the usable entries, seen through the direct map, leaves a
/// page of room below `usize::MAX`.
/// The frames of page-aligned entries are page aligned.
proof fn lemma_usable_frames_aligned(entries: Seq<MemmapEntry>, hhdm: usize)
    requires
        forall|k: int| 0 <= k < entries.len() ==> entry_fits(#[trigger] entries[k], hhdm),
        forall|k: int|
            0 <= k < entries.len() && (#[trigger] entries[k]).entry_type == MEMMAP_USABLE ==> entries[k].base % 4096
                == 0,
    ensures
        forall|j: int| 0 <= j < usable_frames(entries).len() ==> #[trigger] usable_frames(entries)[j] % 4096 == 0,
    decreases entries.len(),
{
    if entries.len() > 0 {
        let init = entries.drop_last();
        assert forall|k: int| 0 <= k < init.len() implies entry_fits(#[trigger] init[k], hhdm) by {
            assert(init[k] == entries[k]);
        }
        assert forall|k: int| 0 <= k < init.len() && (#[trigger] init[k]).entry_type == MEMMAP_USABLE implies init[k].base
            % 4096 == 0 by {
            assert(init[k] == entries[k]);
        }
        lemma_usable_frames_aligned(init, hhdm);
        let e = entries.last();
        assert(entry_fits(entries[entries.len() - 1], hhdm));
        let f = usable_frames(entries);
        let g = usable_frames(init);
        assert forall|j: int| 0 <= j < f.len() implies #[trigger] f[j] % 4096 == 0 by {
            if j >= g.len() {
                let i = j - g.len();
                assert(e.entry_type == MEMMAP_USABLE);
                assert(entries[entries.len() - 1].base % 4096 == 0);
                assert(f[j] == entry_frames(e)[i]);
                assert(i < page_count(e.length));
                assert(e.base + 4096 * i + 4096 <= e.base + page_count(e.length) * 4096) by (nonlinear_arith)
                    requires i < page_count(e.length);
                assert((e.base + 4096 * i) % 4096 == 0) by (nonlinear_arith)
                    requires e.base % 4096 == 0, i >= 0;
            }
        }
    }
}

proof fn lemma_usable_frames_fit(entries: Seq<MemmapEntry>, hhdm: usize)
    requires
        forall|k: int| 0 <= k < entries.len() ==> entry_fits(#[trigger] entries[k], hhdm),
    ensures
        forall|j: int|
            0 <= j < usable_frames(entries).len() ==> #[trigger] usable_frames(entries)[j] + hhdm + 4096
                <= usize::MAX,
    decreases entries.len(),
{
    if entries.len() > 0 {
        let init = entries.drop_last();
        assert forall|k: int| 0 <= k < init.len() implies entry_fits(#[trigger] init[k], hhdm) by {
            assert(init[k] == entries[k]);
        }
        lemma_usable_frames_fit(init, hhdm);
        let e = entries.last();
        assert(entry_fits(entries[entries.len() - 1], hhdm));
        let f = usable_frames(entries);
        let g = usable_frames(init);
        assert forall|j: int| 0 <= j < f.len() implies #[trigger] f[j] + hhdm + 4096 <= usize::MAX by {
            if j >= g.len() {
                let i = j - g.len();
                assert(e.entry_type == MEMMAP_USABLE);
                assert(f[j] == entry_frames(e)[i]);
                assert(i < page_count(e.length));
                assert(e.base + 4096 * i + 4096 <= e.base + page_count(e.length) * 4096) by (nonlinear_arith)
                    requires i < page_count(e.length);
            }
        }
    }
}

/// Sets up physical memory: every page of the usable memory-map entries
/// becomes a free frame, then the kmalloc caches take one frame each.
///
/// `hhdm` is where the direct map of physical memory starts.
pub fn pmm_init(entries: &Vec<MemmapEntry>, hhdm: usize) -> (r: (FreePageList, kmallocmanager))
    requires
        forall|k: int| 0 <= k < entries@.len() ==> entry_fits(#[trigger] entries@[k], hhdm),
        usable_frames(entries@).len() >= 7,
        forall|j: int, l: int|
            usable_frames(entries@).len() - 7 <= j < l < usable_frames(entries@).len() ==> #[trigger] usable_frames(
                entries@,
            )[j] != #[trigger] usable_frames(entries@)[l],
    ensures
        r.0.pages() == usable_frames(entries@).subrange(0, usable_frames(entries@).len() - 7),
        r.0.count() == ((usable_frames(entries@).len() - 7) as int) % (usize::MAX as int + 1),
        r.1.wf(),
        hhdm % 4096 == 0 && (forall|k: int|
            0 <= k < entries@.len() && (#[trigger] entries@[k]).entry_type == MEMMAP_USABLE ==> entries@[k].base
                % 4096 == 0) ==> r.1.aligned(),
        forall|i: int|
            0 <= i < 7 ==> (#[trigger] r.1.caches()[i]).slab_seq() == seq![
                fresh_slab(
                    kmalloc_sizes()[i],
                    (usable_frames(entries@)[usable_frames(entries@).len() - 1 - i] + hhdm) as usize,
                ),
            ],
{
    let mut list = free_list_from(entries, hhdm);
    proof {
        let f = usable_frames(entries@);
        lemma_usable_frames_fit(entries@, hhdm);
        assert forall|j: int| f.len() - 7 <= j < f.len() implies #[trigger] f[j] + hhdm + SLAB_HEADER_SIZE
            <= usize::MAX by {
            assert(f[j] + hhdm + 4096 <= usize::MAX);
        }
    }
    let m = kmallocmanager::init(&mut list, hhdm);
    proof {
        let f = usable_frames(entries@);
        if hhdm % 4096 == 0 && (forall|k: int|
            0 <= k < entries@.len() && (#[trigger] entries@[k]).entry_type == MEMMAP_USABLE ==> entries@[k].base
                % 4096 == 0) {
            lemma_usable_frames_aligned(entries@, hhdm);
            assert forall|i: int| 0 <= i < 7 implies slabs_aligned(#[trigger] m.caches()[i].slab_seq()) by {
                let j = f.len() - 1 - i;
                assert(f[j] % 4096 == 0);
                assert((f[j] + hhdm) % 4096 == 0);
                assert(m.caches()[i].slab_seq()[0].at == (f[j] + hhdm) as usize);
            }
        }
    }
    proof {
        let n = usable_frames(entries@).len() as int;
        let md = usize::MAX as int + 1;
        assert(((n % md) - 7) % md == (n - 7) % md) by (nonlinear_arith)
            requires md > 0;
    }
    (list, m)
}

} // verus!
