//! Byte-granular kernel allocator: a 64-page arena carved into chunks by an
//! implicit free list of in-band headers, first-fit placement, coalescing on
//! free. The arena is modelled as its ordered sequence of header words; chunk
//! `k` starts at byte offset `chunk_off(k)` from the arena head.
use vstd::prelude::*;
use crate::page::{PageAllocator, PAGE_SIZE, find_fit, align_val};
use crate::page::lemma_find_fit_from_sound;

verus! {

/// Total bytes of the kmalloc arena: 64 page frames.
pub const ARENA_SIZE: usize = 64 * 4096;

/// Bytes of one chunk header: one machine word.
pub const HEADER_SIZE: usize = 8;

/// Top bit of a header word: the chunk is taken.
pub const TAKEN_BIT: u64 = 0x8000_0000_0000_0000;

/// Low 63 bits of a header word: the chunk's size in bytes, header included.
pub const SIZE_MASK: u64 = 0x7fff_ffff_ffff_ffff;

pub enum AllocListFlags {
    Taken,
}

impl AllocListFlags {
    pub open spec fn spec_val(self) -> u64 {
        TAKEN_BIT
    }

    pub fn val(self) -> (r: u64)
        ensures
            r == self.spec_val(),
    {
        TAKEN_BIT
    }
}

/// One chunk header: the `Taken` flag packed into the top bit of the size
/// word.
#[derive(Clone, Copy)]
pub struct AllocList {
    pub flags_size: u64,
}

proof fn lemma_header_bits(f: u64, s: u64)
    by (bit_vector)
    ensures
        ((f | 0x8000_0000_0000_0000) & 0x8000_0000_0000_0000) != 0,
        ((f | 0x8000_0000_0000_0000) & 0x7fff_ffff_ffff_ffff) == (f & 0x7fff_ffff_ffff_ffff),
        ((f & 0x7fff_ffff_ffff_ffff) & 0x8000_0000_0000_0000) == 0,
        ((f & 0x7fff_ffff_ffff_ffff) & 0x7fff_ffff_ffff_ffff) == (f & 0x7fff_ffff_ffff_ffff),
        s < 0x8000_0000_0000_0000 ==> (s & 0x7fff_ffff_ffff_ffff) == s,
        (f & 0x7fff_ffff_ffff_ffff) < 0x8000_0000_0000_0000,
        (f & 0x8000_0000_0000_0000) == 0 ==> f == (f & 0x7fff_ffff_ffff_ffff),
        (f & 0x8000_0000_0000_0000) != 0 ==> f == ((f & 0x7fff_ffff_ffff_ffff)
            | 0x8000_0000_0000_0000),
        !0x8000_0000_0000_0000u64 == 0x7fff_ffff_ffff_ffffu64,
        0u64 & 0x8000_0000_0000_0000u64 == 0,
        s < 0x8000_0000_0000_0000 ==> (s & 0x8000_0000_0000_0000) == 0,
        (f & !0x8000_0000_0000_0000u64) == (f & 0x7fff_ffff_ffff_ffff),
{
}

impl AllocList {
    pub open spec fn spec_taken(self) -> bool {
        self.flags_size & TAKEN_BIT != 0
    }

    pub open spec fn spec_size(self) -> u64 {
        self.flags_size & SIZE_MASK
    }

    pub fn is_taken(&self) -> (r: bool)
        ensures
            r == self.spec_taken(),
    {
        self.flags_size & AllocListFlags::Taken.val() != 0
    }

    pub fn is_free(&self) -> (r: bool)
        ensures
            r == !self.spec_taken(),
    {
        !self.is_taken()
    }

    pub fn set_taken(&mut self)
        ensures
            final(self).spec_taken(),
            final(self).spec_size() == old(self).spec_size(),
    {
        proof {
            lemma_header_bits(self.flags_size, 0);
        }
        self.flags_size = self.flags_size | TAKEN_BIT;
    }

    pub fn set_free(&mut self)
        ensures
            !final(self).spec_taken(),
            final(self).spec_size() == old(self).spec_size(),
    {
        proof {
            lemma_header_bits(self.flags_size, 0);
        }
        self.flags_size = self.flags_size & !TAKEN_BIT;
    }

    pub fn set_size(&mut self, sz: u64)
        ensures
            final(self).spec_taken() == old(self).spec_taken(),
            final(self).spec_size() == sz & SIZE_MASK,
            sz < TAKEN_BIT ==> final(self).spec_size() == sz,
    {
        proof {
            lemma_header_bits(self.flags_size, sz);
            lemma_header_bits(sz, sz);
            lemma_header_bits((sz & SIZE_MASK) as u64, sz);
            lemma_header_bits(((sz & SIZE_MASK) | TAKEN_BIT) as u64, sz);
        }
        let k: bool = self.is_taken();
        self.flags_size = sz & !AllocListFlags::Taken.val();
        if k {
            self.flags_size = self.flags_size | AllocListFlags::Taken.val();
        }
    }

    pub fn get_size(&self) -> (r: u64)
        ensures
            r == self.spec_size(),
    {
        proof {
            lemma_header_bits(self.flags_size, 0);
        }
        self.flags_size & !AllocListFlags::Taken.val()
    }
}

/// Byte offset of chunk `k` from the arena head: the sum of the sizes of the
/// chunks before it.
pub open spec fn chunk_off(cs: Seq<AllocList>, k: int) -> int
    decreases k,
{
    if k <= 0 {
        0
    } else {
        chunk_off(cs, k - 1) + cs[k - 1].spec_size()
    }
}

pub proof fn lemma_chunk_off_monotone(cs: Seq<AllocList>, k1: int, k2: int)
    requires
        k1 <= k2,
    ensures
        chunk_off(cs, k1) <= chunk_off(cs, k2),
    decreases k2 - k1,
{
    if k1 < k2 {
        lemma_chunk_off_monotone(cs, k1, k2 - 1);
        if k2 - 1 >= 0 {
            assert(chunk_off(cs, k2) == chunk_off(cs, k2 - 1) + cs[k2 - 1].spec_size());
        }
    }
}

/// `chunk_off` only reads the sizes of the headers before `m`.
pub proof fn lemma_chunk_off_same_sizes(cs1: Seq<AllocList>, cs2: Seq<AllocList>, m: int)
    requires
        forall|j: int| 0 <= j < m ==> (#[trigger] cs1[j]).spec_size() == cs2[j].spec_size(),
    ensures
        chunk_off(cs1, m) == chunk_off(cs2, m),
    decreases m,
{
    if m > 0 {
        lemma_chunk_off_same_sizes(cs1, cs2, m - 1);
    }
}

pub proof fn lemma_chunk_off_skip(cs: Seq<AllocList>, m: int)
    requires
        cs.len() >= 1,
        0 <= m <= cs.len() - 1,
    ensures
        chunk_off(cs.skip(1), m) == chunk_off(cs, m + 1) - cs[0].spec_size(),
    decreases m,
{
    if m == 0 {
        assert(chunk_off(cs, 1) == chunk_off(cs, 0) + cs[0].spec_size());
    } else {
        lemma_chunk_off_skip(cs, m - 1);
        assert(cs.skip(1)[m - 1] == cs[m]);
        assert(chunk_off(cs.skip(1), m) == chunk_off(cs.skip(1), m - 1) + cs.skip(1)[m
            - 1].spec_size());
        assert(chunk_off(cs, m + 1) == chunk_off(cs, m) + cs[m].spec_size());
    }
}

/// The chunk layout is well formed: every size is a positive multiple of 8
/// and the sizes partition the arena exactly.
pub open spec fn wf_chunks(cs: Seq<AllocList>) -> bool {
    &&& cs.len() >= 1
    &&& (forall|k: int|
        0 <= k < cs.len() ==> (#[trigger] cs[k]).spec_size() >= 8 && cs[k].spec_size() % 8 == 0
            && cs[k].spec_size() <= ARENA_SIZE)
    &&& chunk_off(cs, cs.len() as int) == ARENA_SIZE
}

/// First-fit over the chunk list: the lowest index at or after `k` of a free
/// chunk of at least `need` bytes.
pub open spec fn kfind_from(cs: Seq<AllocList>, need: int, k: int) -> Option<int>
    decreases cs.len() - k,
{
    if k < 0 || k >= cs.len() {
        None
    } else if !cs[k].spec_taken() && need <= cs[k].spec_size() {
        Some(k)
    } else {
        kfind_from(cs, need, k + 1)
    }
}

pub open spec fn kfind(cs: Seq<AllocList>, need: int) -> Option<int> {
    kfind_from(cs, need, 0)
}

/// The byte size kmalloc reserves for a request of `sz` bytes: the payload
/// rounded up to 8 bytes, plus the header word.
pub open spec fn spec_need(sz: int) -> int {
    ((sz + 7) / 8) * 8 + 8
}

/// Splitting chunk `k` into two chunks of the same combined size moves the
/// later offsets by one index and changes none of them.
proof fn lemma_split_chunk_off(cs: Seq<AllocList>, cs2: Seq<AllocList>, k: int, m: int)
    requires
        0 <= k < cs.len(),
        cs2.len() == cs.len() + 1,
        forall|j: int| 0 <= j < k ==> (#[trigger] cs2[j]).spec_size() == cs[j].spec_size(),
        forall|j: int|
            k + 1 < j < cs2.len() ==> (#[trigger] cs2[j]).spec_size() == cs[j - 1].spec_size(),
        cs2[k].spec_size() + cs2[k + 1].spec_size() == cs[k].spec_size(),
        k + 1 <= m <= cs.len(),
    ensures
        chunk_off(cs2, m + 1) == chunk_off(cs, m),
    decreases m,
{
    if m == k + 1 {
        lemma_chunk_off_same_sizes(cs2, cs, k);
        assert(chunk_off(cs2, k + 2) == chunk_off(cs2, k + 1) + cs2[k + 1].spec_size());
        assert(chunk_off(cs2, k + 1) == chunk_off(cs2, k) + cs2[k].spec_size());
        assert(chunk_off(cs, k + 1) == chunk_off(cs, k) + cs[k].spec_size());
    } else {
        lemma_split_chunk_off(cs, cs2, k, m - 1);
    }
}

/// The byte allocator: the arena base address, the pages backing it, the
/// ordered chunk headers, and the root page-table frame address handed out at
/// initialization.
pub struct Kmem {
    head: usize,
    total_pages: usize,
    headers: Vec<AllocList>,
    page_table_addr: usize,
}

impl Kmem {
    pub closed spec fn spec_head(self) -> usize {
        self.head
    }

    pub closed spec fn spec_total_pages(self) -> usize {
        self.total_pages
    }

    /// The arena's chunk headers, in address order.
    pub closed spec fn chunks(self) -> Seq<AllocList> {
        self.headers@
    }

    pub closed spec fn spec_page_table(self) -> usize {
        self.page_table_addr
    }

    pub open spec fn wf(self) -> bool {
        &&& wf_chunks(self.chunks())
        &&& self.spec_total_pages() == 64
        &&& self.spec_head() % PAGE_SIZE == 0
        &&& self.spec_head() >= PAGE_SIZE
        &&& self.spec_head() + ARENA_SIZE <= usize::MAX
    }

    /// Address of the arena head.
    pub fn get_head(&self) -> (r: usize)
        ensures
            r == self.spec_head(),
    {
        self.head
    }

    /// Address of the root page-table frame allocated at initialization.
    pub fn get_page_table(&self) -> (r: usize)
        ensures
            r == self.spec_page_table(),
    {
        self.page_table_addr
    }

    /// Number of page frames backing the arena.
    pub fn get_num_allocations(&self) -> (r: usize)
        ensures
            r == self.spec_total_pages(),
    {
        self.total_pages
    }

    /// Take 64 zeroed page frames as the arena, write one free full-size
    /// chunk header at its base, and allocate one further zeroed frame as the
    /// kernel's root page table.
    pub fn init(palloc: &mut PageAllocator) -> (km: Kmem)
        requires
            old(palloc).wf(),
            find_fit(old(palloc).descs(), 64).is_some(),
            crate::page::count_free(old(palloc).descs()) >= 65,
        ensures
            final(palloc).wf(),
            final(palloc).spec_heap_start() == old(palloc).spec_heap_start(),
            final(palloc).spec_heap_size() == old(palloc).spec_heap_size(),
            final(palloc).spec_num_pages() == old(palloc).spec_num_pages(),
            final(palloc).spec_alloc_start() == old(palloc).spec_alloc_start(),
            km.wf(),
            km.chunks().len() == 1,
            !km.chunks()[0].spec_taken(),
            km.chunks()[0].spec_size() == ARENA_SIZE as u64,
            km.spec_total_pages() == 64,
            km.spec_head() == old(palloc).spec_alloc_start() + find_fit(
                old(palloc).descs(),
                64,
            )->Some_0 * PAGE_SIZE,
            km.spec_page_table() != 0,
            km.spec_page_table() % PAGE_SIZE == 0,
            exists|j: int|
                0 <= j < final(palloc).descs().len() && km.spec_page_table() == final(palloc).spec_alloc_start() + j * PAGE_SIZE && (#[trigger] final(palloc).descs()[j]).spec_taken(),
            crate::page::count_free(final(palloc).descs()) == crate::page::count_free(
                old(palloc).descs(),
            ) - 65,
    {
        let ghost descs0 = palloc.descs();
        let ghost fit64 = find_fit(descs0, 64);
        let k_alloc: usize = palloc.zero_alloc(64);
        proof {
            let i = fit64->Some_0;
            lemma_find_fit_from_sound(descs0, 64, 0, i);
            crate::page::lemma_count_free_marked(descs0, palloc.descs(), i, 64);
            crate::page::lemma_free_page_fit(palloc.descs());
        }
        let ghost mid = *palloc;
        let ghost fit1 = find_fit(mid.descs(), 1);
        let pt: usize = palloc.zero_alloc(1);
        proof {
            let i2 = fit1->Some_0;
            lemma_find_fit_from_sound(mid.descs(), 1, 0, i2);
            crate::page::lemma_count_free_marked(mid.descs(), palloc.descs(), i2, 1);
            crate::page::lemma_alloc_result_aligned(mid, 1, i2);
        }
        let mut headers: Vec<AllocList> = Vec::new();
        let mut h: AllocList = AllocList { flags_size: 0 };
        proof {
            lemma_header_bits(0, ARENA_SIZE as u64);
        }
        h.set_size(ARENA_SIZE as u64);
        headers.push(h);
        let km = Kmem { head: k_alloc, total_pages: 64, headers, page_table_addr: pt };
        proof {
            let i = fit64->Some_0;
            lemma_find_fit_from_sound(descs0, 64, 0, i);
            crate::page::lemma_alloc_result_aligned(*old(palloc), 64, i);
            assert(chunk_off(km.chunks(), 1) == chunk_off(km.chunks(), 0)
                + km.chunks()[0].spec_size());
        }
        km
    }

    /// Number of chunks the arena currently holds.
    pub fn chunk_count(&self) -> (r: usize)
        ensures
            r == self.chunks().len(),
    {
        self.headers.len()
    }

    /// The recorded size of chunk `k`, header included.
    pub fn chunk_size_at(&self, k: usize) -> (r: u64)
        requires
            k < self.chunks().len(),
        ensures
            r == self.chunks()[k as int].spec_size(),
    {
        self.headers[k].get_size()
    }

    /// Whether chunk `k` is taken.
    pub fn chunk_taken_at(&self, k: usize) -> (r: bool)
        requires
            k < self.chunks().len(),
        ensures
            r == self.chunks()[k as int].spec_taken(),
    {
        self.headers[k].is_taken()
    }

    /// First-fit allocation of `sz` bytes (rounded up to 8) from the arena;
    /// returns the payload address just after the chunk's header, or 0 when
    /// no free chunk is large enough.
    #[verifier::loop_isolation(false)]
    pub fn kmalloc(&mut self, sz: usize) -> (r: usize)
        requires
            old(self).wf(),
            sz + 16 <= usize::MAX,
        ensures
            final(self).wf(),
            final(self).spec_head() == old(self).spec_head(),
            final(self).spec_total_pages() == old(self).spec_total_pages(),
            final(self).spec_page_table() == old(self).spec_page_table(),
            match kfind(old(self).chunks(), spec_need(sz as int)) {
                Some(k) => {
                    &&& r == old(self).spec_head() + chunk_off(old(self).chunks(), k)
                        + HEADER_SIZE
                    &&& r != 0
                    &&& ({
                        let size = old(self).chunks()[k].spec_size() as int;
                        let need = spec_need(sz as int);
                        let rem = size - need;
                        if rem > 8 {
                            &&& final(self).chunks().len() == old(self).chunks().len() + 1
                            &&& (forall|j: int|
                                0 <= j < k ==> (#[trigger] final(self).chunks()[j]) == old(self).chunks()[j])
                            &&& (forall|j: int|
                                k + 1 < j < final(self).chunks().len() ==> (#[trigger] final(self).chunks()[j]) == old(self).chunks()[j - 1])
                            &&& final(self).chunks()[k].spec_taken()
                            &&& final(self).chunks()[k].spec_size() == need
                            &&& !final(self).chunks()[k + 1].spec_taken()
                            &&& final(self).chunks()[k + 1].spec_size() == rem
                        } else {
                            &&& final(self).chunks().len() == old(self).chunks().len()
                            &&& (forall|j: int|
                                0 <= j < final(self).chunks().len() && j != k ==> (
                                #[trigger] final(self).chunks()[j]) == old(self).chunks()[j])
                            &&& final(self).chunks()[k].spec_taken()
                            &&& final(self).chunks()[k].spec_size() == size
                        }
                    })
                },
                None => {
                    &&& r == 0
                    &&& *final(self) == *old(self)
                },
            },
    {
        proof {
            assert((1usize << 3usize) == 8) by (bit_vector);
        }
        let need_u: usize = align_val(sz, 3) + HEADER_SIZE;
        proof {
            vstd::arithmetic::div_mod::lemma_fundamental_div_mod(sz as int + 7, 8);
            assert(need_u == spec_need(sz as int));
        }
        let need: u64 = need_u as u64;
        let mut k: usize = 0;
        let mut off: usize = 0;
        while k < self.headers.len()
            invariant
                *self == *old(self),
                k <= self.headers.len(),
                off == chunk_off(self.chunks(), k as int),
                kfind(self.chunks(), need as int) == kfind_from(
                    self.chunks(),
                    need as int,
                    k as int,
                ),
            decreases self.headers.len() - k,
        {
            let h: AllocList = self.headers[k];
            proof {
                lemma_chunk_off_monotone(self.chunks(), k as int + 1, self.chunks().len() as int);
            }
            if h.is_free() && need <= h.get_size() {
                let size: u64 = h.get_size();
                let rem: u64 = size - need;
                let ghost cs = self.chunks();
                let mut h2: AllocList = h;
                h2.set_taken();
                if rem > 8 {
                    h2.set_size(need);
                    self.headers.set(k, h2);
                    let mut hn: AllocList = AllocList { flags_size: 0 };
                    proof {
                        lemma_header_bits(0, 0);
                    }
                    hn.set_size(rem);
                    self.headers.insert(k + 1, hn);
                    proof {
                        lemma_split_chunk_off(cs, self.chunks(), k as int, cs.len() as int);
                    }
                } else {
                    h2.set_size(size);
                    self.headers.set(k, h2);
                    proof {
                        lemma_chunk_off_same_sizes(
                            self.chunks(),
                            cs,
                            self.chunks().len() as int,
                        );
                    }
                }
                return self.head + off + HEADER_SIZE;
            }
            off = off + h.get_size() as usize;
            k += 1;
        }
        0
    }

    /// `kmalloc` of the size rounded up to 8 bytes; on the machine the
    /// returned payload is also zeroed, which leaves no trace in the header
    /// model.
    pub fn kzmalloc(&mut self, sz: usize) -> (r: usize)
        requires
            old(self).wf(),
            sz + 24 <= usize::MAX,
        ensures
            final(self).wf(),
            final(self).spec_head() == old(self).spec_head(),
            final(self).spec_total_pages() == old(self).spec_total_pages(),
            final(self).spec_page_table() == old(self).spec_page_table(),
            match kfind(old(self).chunks(), spec_need(sz as int)) {
                Some(k) => {
                    &&& r == old(self).spec_head() + chunk_off(old(self).chunks(), k)
                        + HEADER_SIZE
                    &&& r != 0
                    &&& ({
                        let size = old(self).chunks()[k].spec_size() as int;
                        let need = spec_need(sz as int);
                        let rem = size - need;
                        if rem > 8 {
                            &&& final(self).chunks().len() == old(self).chunks().len() + 1
                            &&& final(self).chunks()[k].spec_taken()
                            &&& final(self).chunks()[k].spec_size() == need
                            &&& !final(self).chunks()[k + 1].spec_taken()
                            &&& final(self).chunks()[k + 1].spec_size() == rem
                        } else {
                            &&& final(self).chunks().len() == old(self).chunks().len()
                            &&& final(self).chunks()[k].spec_taken()
                            &&& final(self).chunks()[k].spec_size() == size
                        }
                    })
                },
                None => {
                    &&& r == 0
                    &&& *final(self) == *old(self)
                },
            },
    {
        proof {
            assert((1usize << 3usize) == 8) by (bit_vector);
        }
        let size: usize = align_val(sz, 3);
        proof {
            vstd::arithmetic::div_mod::lemma_fundamental_div_mod(sz as int + 7, 8);
            vstd::arithmetic::div_mod::lemma_fundamental_div_mod(size as int + 7, 8);
            assert(spec_need(size as int) == spec_need(sz as int));
        }
        self.kmalloc(size)
    }

    /// Merge every run of adjacent free chunks into one chunk, in a single
    /// pass from the arena head; the walk stays on a chunk until its
    /// successor is taken or the arena ends.
    #[verifier::loop_isolation(false)]
    pub fn coalesce(&mut self)
        requires
            old(self).wf(),
        ensures
            final(self).wf(),
            final(self).spec_head() == old(self).spec_head(),
            final(self).spec_total_pages() == old(self).spec_total_pages(),
            final(self).spec_page_table() == old(self).spec_page_table(),
            final(self).chunks() == spec_coalesce(old(self).chunks()),
    {
        proof {
            assert(spec_coalesce(old(self).chunks()) == self.chunks().take(0)
                + spec_coalesce(self.chunks().skip(0))) by {
                assert(self.chunks().take(0) + spec_coalesce(self.chunks().skip(0))
                    =~= spec_coalesce(self.chunks().skip(0)));
                assert(self.chunks().skip(0) =~= self.chunks());
            }
        }
        let mut k: usize = 0;
        while k + 1 < self.headers.len()
            invariant
                k < self.headers.len(),
                self.head == old(self).spec_head(),
                self.total_pages == old(self).spec_total_pages(),
                self.page_table_addr == old(self).spec_page_table(),
                wf_chunks(self.chunks()),
                spec_coalesce(old(self).chunks()) == self.chunks().take(k as int)
                    + spec_coalesce(self.chunks().skip(k as int)),
            decreases self.headers.len() - k,
        {
            let a: AllocList = self.headers[k];
            let b: AllocList = self.headers[k + 1];
            let ghost cs = self.chunks();
            if a.is_free() && b.is_free() {
                proof {
                    lemma_chunk_off_monotone(cs, 0, k as int);
                    lemma_chunk_off_monotone(cs, k as int + 2, cs.len() as int);
                    assert(chunk_off(cs, k as int + 2) == chunk_off(cs, k as int + 1)
                        + cs[k as int + 1].spec_size());
                    assert(chunk_off(cs, k as int + 1) == chunk_off(cs, k as int)
                        + cs[k as int].spec_size());
                }
                let mut h2: AllocList = a;
                h2.set_size(a.get_size() + b.get_size());
                self.headers.set(k, h2);
                self.headers.remove(k + 1);
                proof {
                    let cs2 = self.chunks();
                    lemma_header_bits(h2.flags_size, 0);
                    assert(h2 == merged(a, b));
                    assert(cs2.skip(k as int) =~= seq![merged(a, b)] + cs.skip(k as int + 2));
                    assert(cs.skip(k as int).skip(2) =~= cs.skip(k as int + 2));
                    assert(cs.skip(k as int)[0] == a && cs.skip(k as int)[1] == b);
                    assert(spec_coalesce(cs.skip(k as int)) == spec_coalesce(cs2.skip(k as int)));
                    assert(cs2.take(k as int) =~= cs.take(k as int));
                    // the merged layout still partitions the arena
                    lemma_split_chunk_off(cs2, cs, k as int, cs2.len() as int);
                }
            } else {
                proof {
                    assert(cs.skip(k as int)[0] == a && cs.skip(k as int)[1] == b);
                    assert(spec_coalesce(cs.skip(k as int)) == seq![a] + spec_coalesce(
                        cs.skip(k as int + 1),
                    )) by {
                        assert(cs.skip(k as int).skip(1) =~= cs.skip(k as int + 1));
                    }
                    assert(cs.take(k as int + 1) =~= cs.take(k as int) + seq![a]);
                    assert(cs.take(k as int) + (seq![a] + spec_coalesce(cs.skip(k as int + 1)))
                        =~= (cs.take(k as int) + seq![a]) + spec_coalesce(cs.skip(k as int + 1)));
                }
                k += 1;
            }
        }
        proof {
            let cs = self.chunks();
            assert(spec_coalesce(cs.skip(k as int)) == cs.skip(k as int));
            assert(cs.take(k as int) + cs.skip(k as int) =~= cs);
        }
    }

    /// Byte offset `chunk_off(k)` turned into the payload address of chunk
    /// `k`: one header past the chunk's start.
    pub open spec fn payload_addr(self, k: int) -> int {
        self.spec_head() + chunk_off(self.chunks(), k) + HEADER_SIZE
    }

    /// Free the chunk whose payload starts at `ptr`, then coalesce the arena.
    /// A null `ptr` is ignored.
    #[verifier::loop_isolation(false)]
    pub fn kfree(&mut self, ptr: usize)
        requires
            old(self).wf(),
            ptr == 0 || exists|k: int|
                0 <= k < old(self).chunks().len() && ptr == #[trigger] old(self).payload_addr(k),
        ensures
            final(self).wf(),
            final(self).spec_head() == old(self).spec_head(),
            final(self).spec_total_pages() == old(self).spec_total_pages(),
            final(self).spec_page_table() == old(self).spec_page_table(),
            ptr == 0 ==> *final(self) == *old(self),
            forall|k: int|
                0 <= k < old(self).chunks().len() && ptr == #[trigger] old(self).payload_addr(k)
                    ==> final(self).chunks() == spec_coalesce(free_at(old(self).chunks(), k)),
    {
        if ptr == 0 {
            proof {
                assert forall|k: int| 0 <= k < self.chunks().len() implies #[trigger] self.payload_addr(k) > 0 by {
                    lemma_chunk_off_monotone(self.chunks(), 0, k);
                }
            }
            return ;
        }
        let mut k: usize = 0;
        let mut off: usize = 0;
        while self.head + off + HEADER_SIZE != ptr
            invariant
                *self == *old(self),
                k < self.chunks().len(),
                off == chunk_off(self.chunks(), k as int),
                off + HEADER_SIZE <= ARENA_SIZE,
                exists|k0: int|
                    k <= k0 < self.chunks().len() && ptr == #[trigger] self.payload_addr(k0),
            decreases self.chunks().len() - k,
        {
            proof {
                let k0 = choose|k0: int|
                    k <= k0 < self.chunks().len() && ptr == #[trigger] self.payload_addr(k0);
                assert(self.payload_addr(k as int) == self.head + off + HEADER_SIZE);
                assert(k0 != k as int);
                assert(chunk_off(self.chunks(), k as int + 1) == chunk_off(self.chunks(), k as int)
                    + self.chunks()[k as int].spec_size());
                lemma_chunk_off_monotone(self.chunks(), k as int + 1, k0);
                lemma_chunk_off_monotone(self.chunks(), k0 + 1, self.chunks().len() as int);
                assert(chunk_off(self.chunks(), k0 + 1) == chunk_off(self.chunks(), k0)
                    + self.chunks()[k0].spec_size());
            }
            let h: AllocList = self.headers[k];
            // the header count bounds the walk, so the index fits
            let n: usize = self.headers.len();
            off = off + h.get_size() as usize;
            k += 1;
        }
        proof {
            let k0 = choose|k0: int|
                k <= k0 < self.chunks().len() && ptr == #[trigger] self.payload_addr(k0);
            if k0 > k as int {
                assert(chunk_off(self.chunks(), k as int + 1) == chunk_off(self.chunks(), k as int)
                    + self.chunks()[k as int].spec_size());
                lemma_chunk_off_monotone(self.chunks(), k as int + 1, k0);
                assert(false);
            }
            assert(k as int == k0);
        }
        proof {
            assert forall|k2: int|
                0 <= k2 < self.chunks().len() && ptr == #[trigger] self.payload_addr(k2)
                implies k2 == k as int by {
                if k2 > k as int {
                    assert(chunk_off(self.chunks(), k as int + 1) == chunk_off(
                        self.chunks(),
                        k as int,
                    ) + self.chunks()[k as int].spec_size());
                    lemma_chunk_off_monotone(self.chunks(), k as int + 1, k2);
                }
                if k2 < k as int {
                    assert(chunk_off(self.chunks(), k2 + 1) == chunk_off(self.chunks(), k2)
                        + self.chunks()[k2].spec_size());
                    lemma_chunk_off_monotone(self.chunks(), k2 + 1, k as int);
                }
            }
        }
        let ghost cs = self.chunks();
        let mut h: AllocList = self.headers[k];
        if h.is_taken() {
            h.set_free();
            self.headers.set(k, h);
        }
        proof {
            lemma_header_bits(cs[k as int].flags_size, 0);
            lemma_header_bits(self.chunks()[k as int].flags_size, 0);
            assert(self.chunks() =~= free_at(cs, k as int));
            lemma_chunk_off_same_sizes(self.chunks(), cs, cs.len() as int);
        }
        self.coalesce();
    }
}

/// The two free chunks `a` and `b` fused into one.
pub open spec fn merged(a: AllocList, b: AllocList) -> AllocList {
    AllocList { flags_size: (a.spec_size() + b.spec_size()) as u64 }
}

/// Chunk `k` with its `Taken` bit cleared; the rest unchanged.
pub open spec fn free_at(cs: Seq<AllocList>, k: int) -> Seq<AllocList> {
    cs.update(k, AllocList { flags_size: cs[k].spec_size() })
}

/// One pass of coalescing: a chunk absorbs its successor as long as both are
/// free, so every maximal run of adjacent free chunks becomes one chunk.
pub open spec fn spec_coalesce(cs: Seq<AllocList>) -> Seq<AllocList>
    decreases cs.len(),
{
    if cs.len() <= 1 {
        cs
    } else if !cs[0].spec_taken() && !cs[1].spec_taken() {
        spec_coalesce(seq![merged(cs[0], cs[1])] + cs.skip(2))
    } else {
        seq![cs[0]] + spec_coalesce(cs.skip(1))
    }
}

/// No two adjacent chunks are both free.
pub open spec fn no_adjacent_free(cs: Seq<AllocList>) -> bool {
    forall|j: int|
        0 <= j < cs.len() - 1 ==> (#[trigger] cs[j]).spec_taken() || cs[j + 1].spec_taken()
}

proof fn lemma_coalesce_first_taken(cs: Seq<AllocList>)
    requires
        cs.len() >= 1,
        cs[0].spec_taken(),
    ensures
        spec_coalesce(cs).len() >= 1,
        spec_coalesce(cs)[0].spec_taken(),
{
    if cs.len() <= 1 {
    } else {
        assert(spec_coalesce(cs) == seq![cs[0]] + spec_coalesce(cs.skip(1)));
    }
}

/// After one pass of coalescing no two adjacent free chunks remain.
pub proof fn lemma_coalesce_no_adjacent_free(cs: Seq<AllocList>)
    ensures
        no_adjacent_free(spec_coalesce(cs)),
    decreases cs.len(),
{
    if cs.len() <= 1 {
    } else if !cs[0].spec_taken() && !cs[1].spec_taken() {
        lemma_coalesce_no_adjacent_free(seq![merged(cs[0], cs[1])] + cs.skip(2));
    } else {
        lemma_coalesce_no_adjacent_free(cs.skip(1));
        let rest = spec_coalesce(cs.skip(1));
        assert(spec_coalesce(cs) == seq![cs[0]] + rest);
        if !cs[0].spec_taken() {
            assert(cs[1].spec_taken());
            assert(cs.skip(1)[0] == cs[1]);
            lemma_coalesce_first_taken(cs.skip(1));
        }
        assert forall|j: int|
            0 <= j < spec_coalesce(cs).len() - 1 implies (
        #[trigger] spec_coalesce(cs)[j]).spec_taken() || spec_coalesce(cs)[j + 1].spec_taken() by {
            if j >= 1 {
                assert(spec_coalesce(cs)[j] == rest[j - 1]);
                assert(spec_coalesce(cs)[j + 1] == rest[j]);
            }
        }
    }
}

/// Coalescing an arena with no adjacent free chunks changes nothing.
pub proof fn lemma_coalesce_fixed_point(cs: Seq<AllocList>)
    requires
        no_adjacent_free(cs),
    ensures
        spec_coalesce(cs) == cs,
    decreases cs.len(),
{
    if cs.len() <= 1 {
    } else {
        assert(cs[0].spec_taken() || cs[1].spec_taken());
        assert forall|j: int|
            0 <= j < cs.skip(1).len() - 1 implies (#[trigger] cs.skip(1)[j]).spec_taken() || cs.skip(
            1,
        )[j + 1].spec_taken() by {
            assert(cs.skip(1)[j] == cs[j + 1]);
            assert(cs.skip(1)[j + 1] == cs[j + 2]);
        }
        lemma_coalesce_fixed_point(cs.skip(1));
        assert(seq![cs[0]] + cs.skip(1) =~= cs);
    }
}

/// Coalescing is idempotent: a second pass over an already coalesced arena
/// reproduces the same chunk layout.
pub proof fn lemma_coalesce_idempotent(cs: Seq<AllocList>)
    ensures
        spec_coalesce(spec_coalesce(cs)) == spec_coalesce(cs),
{
    lemma_coalesce_no_adjacent_free(cs);
    lemma_coalesce_fixed_point(spec_coalesce(cs));
}

/// Splitting a free chunk in two and coalescing gives the same layout as
/// coalescing the unsplit arena.
pub proof fn lemma_split_free_coalesce(cs: Seq<AllocList>, k: int, a: u64, b: u64)
    requires
        0 <= k < cs.len(),
        !cs[k].spec_taken(),
        cs[k].spec_size() == a + b,
        chunk_off(cs, cs.len() as int) < TAKEN_BIT,
    ensures
        spec_coalesce(
            cs.update(k, AllocList { flags_size: a }).insert(k + 1, AllocList { flags_size: b }),
        ) == spec_coalesce(cs),
    decreases cs.len(),
{
    let cs2 = cs.update(k, AllocList { flags_size: a }).insert(k + 1, AllocList { flags_size: b });
    lemma_chunk_off_monotone(cs, 0, k);
    lemma_chunk_off_monotone(cs, k + 1, cs.len() as int);
    assert(chunk_off(cs, k + 1) == chunk_off(cs, k) + cs[k].spec_size());
    assert(a < TAKEN_BIT && b < TAKEN_BIT);
    lemma_header_bits(a, a);
    lemma_header_bits(b, b);
    lemma_header_bits(cs[k].flags_size, 0);
    assert(cs2.len() == cs.len() + 1);
    if k == 0 {
        assert(cs2[0] == AllocList { flags_size: a } && cs2[1] == AllocList { flags_size: b });
        assert(!cs2[0].spec_taken() && !cs2[1].spec_taken());
        assert(merged(cs2[0], cs2[1]) == cs[0]);
        assert(seq![merged(cs2[0], cs2[1])] + cs2.skip(2) =~= cs);
        assert(spec_coalesce(cs2) == spec_coalesce(seq![merged(cs2[0], cs2[1])] + cs2.skip(2)));
    } else {
        let s0 = cs[0].spec_size();
        let s1 = cs[1].spec_size();
        lemma_header_bits(cs[0].flags_size, 0);
        lemma_header_bits(cs[1].flags_size, 0);
        assert(cs2[0] == cs[0]);
        assert(cs2[1].spec_taken() == cs[1].spec_taken()) by {
            if k == 1 {
                assert(cs2[1] == AllocList { flags_size: a });
            } else {
                assert(cs2[1] == cs[1]);
            }
        }
        if !cs[0].spec_taken() && !cs[1].spec_taken() {
            let m = merged(cs[0], cs[1]);
            let ms = seq![m] + cs.skip(2);
            assert(chunk_off(cs, 2) == chunk_off(cs, 1) + cs[1].spec_size());
            assert(chunk_off(cs, 1) == chunk_off(cs, 0) + cs[0].spec_size());
            lemma_chunk_off_monotone(cs, 2, cs.len() as int);
            assert(s0 + s1 < TAKEN_BIT);
            lemma_header_bits((s0 + s1) as u64, (s0 + s1) as u64);
            assert(m.spec_size() == s0 + s1 && !m.spec_taken());
            lemma_split_chunk_off(ms, cs, 0, ms.len() as int);
            assert(chunk_off(ms, ms.len() as int) == chunk_off(cs, cs.len() as int));
            assert(spec_coalesce(cs) == spec_coalesce(ms));
            if k == 1 {
                let m1 = merged(cs2[0], cs2[1]);
                assert(s0 + a < TAKEN_BIT);
                lemma_header_bits((s0 + a) as u64, (s0 + a) as u64);
                assert(m1 == AllocList { flags_size: (s0 + a) as u64 });
                assert(spec_coalesce(cs2) == spec_coalesce(seq![m1] + cs2.skip(2)));
                assert(seq![m1] + cs2.skip(2) =~= ms.update(0, AllocList { flags_size: (s0
                    + a) as u64 }).insert(1, AllocList { flags_size: b }));
                assert(!ms[0].spec_taken());
                assert(ms[0].spec_size() == (s0 + a) + b);
                lemma_split_free_coalesce(ms, 0, (s0 + a) as u64, b);
            } else {
                let m2 = merged(cs2[0], cs2[1]);
                assert(m2 == m);
                assert(spec_coalesce(cs2) == spec_coalesce(seq![m] + cs2.skip(2)));
                assert(seq![m] + cs2.skip(2) =~= ms.update(k - 1, AllocList { flags_size: a
                }).insert(k, AllocList { flags_size: b }));
                assert(ms[k - 1] == cs[k]);
                lemma_split_free_coalesce(ms, k - 1, a, b);
            }
        } else {
            let ts = cs.skip(1);
            let ts2 = cs2.skip(1);
            assert(ts2 =~= ts.update(k - 1, AllocList { flags_size: a }).insert(
                k,
                AllocList { flags_size: b },
            ));
            assert(ts[k - 1] == cs[k]);
            lemma_chunk_off_skip(cs, cs.len() - 1);
            assert(chunk_off(ts, ts.len() as int) < TAKEN_BIT);
            lemma_split_free_coalesce(ts, k - 1, a, b);
            assert(spec_coalesce(cs) == seq![cs[0]] + spec_coalesce(ts));
            assert(spec_coalesce(cs2) == seq![cs2[0]] + spec_coalesce(ts2));
        }
    }
}

/// Allocating from a coalesced arena and freeing the same chunk restores the
/// arena exactly: splitting chunk `k` into a taken piece of `need` bytes and
/// a free remainder, then clearing the taken bit and coalescing, gives back
/// the original chunk layout.
pub proof fn lemma_kmalloc_kfree_round_trip(cs: Seq<AllocList>, k: int, need: u64)
    requires
        wf_chunks(cs),
        no_adjacent_free(cs),
        0 <= k < cs.len(),
        !cs[k].spec_taken(),
        0 < need <= cs[k].spec_size(),
    ensures
        spec_coalesce(
            free_at(
                cs.update(k, AllocList { flags_size: need | TAKEN_BIT }).insert(
                    k + 1,
                    AllocList { flags_size: (cs[k].spec_size() - need) as u64 },
                ),
                k,
            ),
        ) == cs,
        spec_coalesce(free_at(cs.update(k, AllocList { flags_size: cs[k].spec_size()
            | TAKEN_BIT }), k)) == cs,
{
    let size = cs[k].spec_size();
    let rem = (size - need) as u64;
    lemma_header_bits(cs[k].flags_size, 0);
    lemma_header_bits(need, need);
    lemma_header_bits((need | TAKEN_BIT) as u64, need);
    lemma_header_bits(rem, rem);
    lemma_header_bits((size | TAKEN_BIT) as u64, size);
    lemma_chunk_off_monotone(cs, 0, k);
    lemma_chunk_off_monotone(cs, k + 1, cs.len() as int);
    assert(chunk_off(cs, k + 1) == chunk_off(cs, k) + cs[k].spec_size());
    // the split case
    let cs1 = cs.update(k, AllocList { flags_size: need | TAKEN_BIT }).insert(
        k + 1,
        AllocList { flags_size: rem },
    );
    assert(cs1[k].spec_size() == need);
    assert(free_at(cs1, k) =~= cs.update(k, AllocList { flags_size: need }).insert(
        k + 1,
        AllocList { flags_size: rem },
    ));
    lemma_split_free_coalesce(cs, k, need, rem);
    lemma_coalesce_fixed_point(cs);
    // the absorb case: freeing the whole chunk reproduces it bit for bit
    let cs3 = cs.update(k, AllocList { flags_size: size | TAKEN_BIT });
    assert(cs3[k].spec_size() == size);
    assert(free_at(cs3, k) =~= cs);
}

/// The arena's chunk sizes always sum to exactly 64 pages: the well-formed
/// layouts partition `ARENA_SIZE`, and every operation preserves them.
pub proof fn lemma_arena_partition(km: Kmem)
    requires
        km.wf(),
    ensures
        chunk_off(km.chunks(), km.chunks().len() as int) == ARENA_SIZE,
{
}

} // verus!
