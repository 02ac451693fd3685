//! Page-frame allocator: one descriptor byte per 4 KiB frame of the heap
//! region, contiguous first-fit allocation of page runs.
use vstd::prelude::*;

verus! {

pub const PAGE_ORDER: usize = 12;
pub const PAGE_SIZE: usize = 4096;

/// Round `val` up to the next multiple of `1 << order`.
pub fn align_val(val: usize, order: usize) -> (r: usize)
    requires
        order < 32,
        val + ((1usize << order) - 1) <= usize::MAX,
    ensures
        r % (1usize << order) == 0,
        val <= r,
        r < val + (1usize << order),
{
    proof {
        assert(1usize << order >= 1) by (bit_vector)
            requires
                order < 32usize,
        ;
    }
    let p: usize = 1usize << order;
    let rem: usize = val % p;
    if rem == 0 {
        val
    } else {
        let r: usize = val + (p - rem);
        proof {
            vstd::arithmetic::div_mod::lemma_fundamental_div_mod(val as int, p as int);
            assert(r == ((val / p) as int + 1) * p) by (nonlinear_arith)
                requires
                    p > 0,
                    rem == val % p,
                    val == (p as int) * ((val / p) as int) + (val % p) as int,
                    r == val + p - rem,
            ;
            vstd::arithmetic::div_mod::lemma_mod_multiples_basic((val / p) as int + 1, p as int);
        }
        r
    }
}

#[derive(Clone, Copy)]
pub enum PageBits {
    Empty,
    Taken,
    Last,
}

impl PageBits {
    pub open spec fn spec_val(self) -> u8 {
        match self {
            PageBits::Empty => 0,
            PageBits::Taken => 1,
            PageBits::Last => 2,
        }
    }

    pub fn val(self) -> (r: u8)
        ensures
            r == self.spec_val(),
    {
        match self {
            PageBits::Empty => 0,
            PageBits::Taken => 1,
            PageBits::Last => 2,
        }
    }
}

/// Descriptor of one physical page frame: bit 0 records `Taken`, bit 1
/// records `Last` (final frame of its allocation).
#[derive(Clone, Copy)]
pub struct Page {
    flags: u8,
}

impl Page {
    pub closed spec fn spec_flags(self) -> u8 {
        self.flags
    }

    pub open spec fn spec_taken(self) -> bool {
        self.spec_flags() & 1 != 0
    }

    pub open spec fn spec_last(self) -> bool {
        self.spec_flags() & 2 != 0
    }

    pub fn is_last(&self) -> (r: bool)
        ensures
            r == self.spec_last(),
    {
        (self.flags & PageBits::Last.val()) != 0
    }

    pub fn is_taken(&self) -> (r: bool)
        ensures
            r == self.spec_taken(),
    {
        (self.flags & PageBits::Taken.val()) != 0
    }

    pub fn clear(&mut self)
        ensures
            final(self).spec_flags() == 0,
    {
        self.flags = PageBits::Empty.val();
    }

    pub fn set_flag(&mut self, flag: PageBits)
        ensures
            final(self).spec_flags() == old(self).spec_flags() | flag.spec_val(),
    {
        let f: u8 = flag.val();
        let g: u8 = self.flags;
        proof {
            assert(f | g == g | f) by (bit_vector);
        }
        self.flags = f | g;
    }

    pub fn clear_flag(&mut self, flag: PageBits)
        ensures
            final(self).spec_flags() == old(self).spec_flags() & !flag.spec_val(),
    {
        self.flags = self.flags & !flag.val();
    }
}

impl Default for Page {
    /// A fresh descriptor: neither taken nor last.
    fn default() -> (r: Page)
        ensures
            r.spec_flags() == 0,
    {
        Page { flags: 0 }
    }
}

/// Machine words (8 bytes each) in one page frame.
pub const WORDS_PER_PAGE: usize = 512;

/// The page-frame allocator: descriptors over the heap region plus a model of
/// the usable frame memory as machine words starting at `alloc_start`.
pub struct PageAllocator {
    heap_start: usize,
    heap_size: usize,
    num_pages: usize,
    alloc_start: usize,
    descriptors: Vec<Page>,
    mem: Vec<u64>,
}

impl PageAllocator {
    pub closed spec fn spec_heap_start(self) -> usize {
        self.heap_start
    }

    pub closed spec fn spec_heap_size(self) -> usize {
        self.heap_size
    }

    pub closed spec fn spec_num_pages(self) -> usize {
        self.num_pages
    }

    pub closed spec fn spec_alloc_start(self) -> usize {
        self.alloc_start
    }

    /// The descriptor bytes, one per page frame.
    pub closed spec fn descs(self) -> Seq<Page> {
        self.descriptors@
    }

    /// The frame region's machine words; word `w` models the 8 bytes at
    /// address `alloc_start + 8 * w`.
    pub closed spec fn mem_words(self) -> Seq<u64> {
        self.mem@
    }

    pub open spec fn wf(self) -> bool {
        &&& self.spec_num_pages() == self.spec_heap_size() / (PAGE_SIZE as usize)
        &&& self.descs().len() == self.spec_num_pages()
        &&& self.mem_words().len() == self.spec_num_pages() * WORDS_PER_PAGE
        &&& self.spec_alloc_start() % PAGE_SIZE == 0
        &&& self.spec_heap_start() + self.spec_num_pages() <= self.spec_alloc_start()
        &&& self.spec_alloc_start() < self.spec_heap_start() + self.spec_num_pages()
            + PAGE_SIZE
        &&& self.spec_alloc_start() + self.spec_num_pages() * PAGE_SIZE <= usize::MAX
        &&& forall|j: int|
            0 <= j < self.descs().len() ==> ((#[trigger] self.descs()[j].spec_flags()) == 0
                || self.descs()[j].spec_flags() == 1 || self.descs()[j].spec_flags() == 3)
    }

    /// Set up the allocator over the heap `[heap_start, heap_start + heap_size)`:
    /// one zeroed descriptor per page, frames from the first page boundary after
    /// the descriptor array.
    pub fn init(heap_start: usize, heap_size: usize) -> (pa: PageAllocator)
        requires
            heap_start + heap_size + heap_size + PAGE_SIZE <= usize::MAX,
        ensures
            pa.wf(),
            pa.spec_heap_start() == heap_start,
            pa.spec_heap_size() == heap_size,
            pa.spec_num_pages() == heap_size / (PAGE_SIZE as usize),
            forall|j: int| 0 <= j < pa.descs().len() ==> pa.descs()[j].spec_flags() == 0,
            forall|j: int| 0 <= j < pa.mem_words().len() ==> pa.mem_words()[j] == 0,
    {
        let num_pages: usize = heap_size / PAGE_SIZE;
        proof {
            vstd::arithmetic::div_mod::lemma_fundamental_div_mod(
                heap_size as int,
                PAGE_SIZE as int,
            );
        }
        let mut descriptors: Vec<Page> = Vec::new();
        let mut i: usize = 0;
        while i < num_pages
            invariant
                i <= num_pages,
                descriptors@.len() == i,
                forall|j: int| 0 <= j < i ==> descriptors@[j].spec_flags() == 0,
            decreases num_pages - i,
        {
            descriptors.push(Page { flags: 0 });
            i += 1;
        }
        let total_words: usize = num_pages * WORDS_PER_PAGE;
        let mut mem: Vec<u64> = Vec::new();
        let mut w: usize = 0;
        while w < total_words
            invariant
                w <= total_words,
                mem@.len() == w,
                forall|j: int| 0 <= j < w ==> mem@[j] == 0,
            decreases total_words - w,
        {
            mem.push(0);
            w += 1;
        }
        proof {
            assert((1usize << 12usize) == 4096) by (bit_vector);
        }
        let alloc_start: usize = align_val(heap_start + num_pages, PAGE_ORDER);
        PageAllocator { heap_start, heap_size, num_pages, alloc_start, descriptors, mem }
    }

    pub fn get_heap_start(&self) -> (r: usize)
        ensures
            r == self.spec_heap_start(),
    {
        self.heap_start
    }

    pub fn get_heap_size(&self) -> (r: usize)
        ensures
            r == self.spec_heap_size(),
    {
        self.heap_size
    }

    pub fn get_num_pages(&self) -> (r: usize)
        ensures
            r == self.spec_num_pages(),
    {
        self.num_pages
    }

    pub fn get_alloc_start(&self) -> (r: usize)
        ensures
            r == self.spec_alloc_start(),
    {
        self.alloc_start
    }
}

/// The descriptors after an allocation of the run `i .. i + n`: the run is
/// taken, only its final frame carries `Last`, and nothing else moved.
pub open spec fn alloc_marked(pre: Seq<Page>, post: Seq<Page>, i: int, n: int) -> bool {
    &&& post.len() == pre.len()
    &&& (forall|j: int| 0 <= j < pre.len() && !(i <= j < i + n) ==> post[j] == pre[j])
    &&& (forall|j: int| i <= j < i + n ==> (#[trigger] post[j]).spec_taken())
    &&& (forall|j: int| i <= j < i + n - 1 ==> !(#[trigger] post[j]).spec_last())
    &&& post[i + n - 1].spec_last()
}

/// Descriptors `i .. i + n` are all free.
pub open spec fn free_run(s: Seq<Page>, i: int, n: int) -> bool {
    forall|j: int| i <= j < i + n ==> !(#[trigger] s[j]).spec_taken()
}

/// A run of `n` free descriptors may start at `i` without crossing the end.
pub open spec fn fits_at(s: Seq<Page>, n: int, i: int) -> bool {
    0 <= i && i + n <= s.len() && free_run(s, i, n)
}

/// The lowest index at or after `k` where `n` free descriptors fit.
pub open spec fn find_fit_from(s: Seq<Page>, n: int, k: int) -> Option<int>
    decreases s.len() - k,
{
    if k < 0 || n <= 0 || k + n > s.len() {
        None
    } else if free_run(s, k, n) {
        Some(k)
    } else {
        find_fit_from(s, n, k + 1)
    }
}

/// The first-fit index for a run of `n` free descriptors.
pub open spec fn find_fit(s: Seq<Page>, n: int) -> Option<int> {
    find_fit_from(s, n, 0)
}

pub proof fn lemma_find_fit_from_sound(s: Seq<Page>, n: int, k: int, i: int)
    requires
        find_fit_from(s, n, k) == Some(i),
    ensures
        fits_at(s, n, i),
        k <= i,
        forall|m: int| k <= m < i ==> !fits_at(s, n, m),
    decreases s.len() - k,
{
    if k < 0 || n <= 0 || k + n > s.len() {
    } else if free_run(s, k, n) {
    } else {
        lemma_find_fit_from_sound(s, n, k + 1, i);
    }
}

proof fn lemma_page_flag_bits(f: u8)
    by (bit_vector)
    ensures
        ((f | 1) & 1) != 0,
        ((f | 1) & 2) == (f & 2),
        ((f | 2) & 2) != 0,
        ((f | 2) & 1) == (f & 1),
        f <= 3 ==> (f | 1) <= 3 && (f | 2) <= 3,
        f <= 3 && (f & 1) == 0 && (f & 2) == 0 ==> f == 0,
        f <= 3 && (f & 1) != 0 && (f & 2) == 0 ==> f == 1,
        f <= 3 && (f & 1) == 0 && (f & 2) != 0 ==> f == 2,
        f <= 3 && (f & 1) != 0 && (f & 2) != 0 ==> f == 3,
{
}

impl PageAllocator {
    /// First-fit allocation of `pages` contiguous frames; returns the address
    /// of the first frame, or 0 (the null sentinel) when no run fits.
    #[verifier::loop_isolation(false)]
    pub fn alloc_pages(&mut self, pages: usize) -> (r: usize)
        requires
            old(self).wf(),
            pages >= 1,
        ensures
            final(self).wf(),
            final(self).spec_heap_start() == old(self).spec_heap_start(),
            final(self).spec_heap_size() == old(self).spec_heap_size(),
            final(self).spec_num_pages() == old(self).spec_num_pages(),
            final(self).spec_alloc_start() == old(self).spec_alloc_start(),
            final(self).mem_words() == old(self).mem_words(),
            match find_fit(old(self).descs(), pages as int) {
                Some(i) => {
                    &&& r == old(self).spec_alloc_start() + i * PAGE_SIZE
                    &&& r != 0
                    &&& alloc_marked(old(self).descs(), final(self).descs(), i, pages as int)
                },
                None => {
                    &&& r == 0
                    &&& *final(self) == *old(self)
                },
            },
    {
        let num_pages: usize = self.num_pages;
        if pages > num_pages {
            return 0;
        }
        let mut i: usize = 0;
        while i + pages <= num_pages
            invariant
                i <= num_pages,
                *self == *old(self),
                find_fit(self.descs(), pages as int) == find_fit_from(
                    self.descs(),
                    pages as int,
                    i as int,
                ),
            decreases num_pages - i,
        {
            let mut j: usize = i;
            let mut blocked: bool = false;
            while j < i + pages
                invariant
                    i <= j <= i + pages,
                    !blocked ==> (forall|k: int|
                        i <= k < j ==> !(#[trigger] self.descs()[k]).spec_taken()),
                    blocked ==> i <= j < i + pages && self.descs()[j as int].spec_taken(),
                decreases i + pages - j,
            {
                if self.descriptors[j].is_taken() {
                    blocked = true;
                    break ;
                }
                j += 1;
            }
            if !blocked {
                proof {
                    assert(free_run(self.descs(), i as int, pages as int));
                }
                let ghost s0 = self.descs();
                let mut k: usize = i;
                while k < i + pages
                    invariant
                        i <= k <= i + pages,
                        self.descs().len() == s0.len(),
                        self.heap_start == old(self).spec_heap_start(),
                        self.heap_size == old(self).spec_heap_size(),
                        self.num_pages == old(self).spec_num_pages(),
                        self.alloc_start == old(self).spec_alloc_start(),
                        self.mem@ == old(self).mem_words(),
                        forall|m: int| 0 <= m < s0.len() && !(i <= m < k) ==> self.descs()[m] == s0[m],
                        forall|m: int|
                            i <= m < k ==> (#[trigger] self.descs()[m]).spec_flags() == (s0[m].spec_flags()
                                | 1),
                    decreases i + pages - k,
                {
                    let mut pg: Page = self.descriptors[k];
                    pg.set_flag(PageBits::Taken);
                    self.descriptors.set(k, pg);
                    k += 1;
                }
                let last_idx: usize = i + pages - 1;
                let mut pg: Page = self.descriptors[last_idx];
                pg.set_flag(PageBits::Last);
                self.descriptors.set(last_idx, pg);
                proof {
                    assert forall|m: int| i <= m < i + pages implies (#[trigger] self.descs()[m]).spec_taken()
                        && (m < i + pages - 1 ==> !self.descs()[m].spec_last()) by {
                        lemma_page_flag_bits(s0[m].spec_flags());
                        lemma_page_flag_bits((s0[m].spec_flags() | 1) as u8);
                    }
                    assert(self.descs()[last_idx as int].spec_last()) by {
                        lemma_page_flag_bits(s0[last_idx as int].spec_flags());
                        lemma_page_flag_bits((s0[last_idx as int].spec_flags() | 1) as u8);
                    }
                    assert forall|m: int| 0 <= m < self.descs().len() implies (
                    #[trigger] self.descs()[m].spec_flags()) == 0 || self.descs()[m].spec_flags() == 1
                        || self.descs()[m].spec_flags() == 3 by {
                        lemma_page_flag_bits(s0[m].spec_flags());
                        lemma_page_flag_bits((s0[m].spec_flags() | 1) as u8);
                        lemma_page_flag_bits(((s0[m].spec_flags() | 1) | 2) as u8);
                    }
                }
                return self.alloc_start + i * PAGE_SIZE;
            }
            proof {
                assert(!free_run(self.descs(), i as int, pages as int));
                assert(find_fit_from(self.descs(), pages as int, i as int) == find_fit_from(
                    self.descs(),
                    pages as int,
                    i as int + 1,
                ));
            }
            i += 1;
        }
        0
    }

    /// `alloc_pages` followed by zeroing the returned run, one machine word at
    /// a time; does not touch memory when the allocation failed.
    #[verifier::loop_isolation(false)]
    pub fn zero_alloc(&mut self, pages: usize) -> (r: usize)
        requires
            old(self).wf(),
            pages >= 1,
        ensures
            final(self).wf(),
            final(self).spec_heap_start() == old(self).spec_heap_start(),
            final(self).spec_heap_size() == old(self).spec_heap_size(),
            final(self).spec_num_pages() == old(self).spec_num_pages(),
            final(self).spec_alloc_start() == old(self).spec_alloc_start(),
            match find_fit(old(self).descs(), pages as int) {
                Some(i) => {
                    &&& r == old(self).spec_alloc_start() + i * PAGE_SIZE
                    &&& r != 0
                    &&& alloc_marked(old(self).descs(), final(self).descs(), i, pages as int)
                    &&& final(self).mem_words().len() == old(self).mem_words().len()
                    &&& (forall|w: int|
                        i * WORDS_PER_PAGE <= w < (i + pages) * WORDS_PER_PAGE
                            ==> (#[trigger] final(self).mem_words()[w]) == 0)
                    &&& (forall|w: int|
                        0 <= w < old(self).mem_words().len() && !(i * WORDS_PER_PAGE <= w < (i
                            + pages) * WORDS_PER_PAGE) ==> final(self).mem_words()[w] == old(
                            self,
                        ).mem_words()[w])
                },
                None => {
                    &&& r == 0
                    &&& *final(self) == *old(self)
                },
            },
    {
        let ghost fit = find_fit(self.descs(), pages as int);
        let r: usize = self.alloc_pages(pages);
        if r != 0 {
            let ghost i = fit->Some_0;
            proof {
                lemma_find_fit_from_sound(old(self).descs(), pages as int, 0, i);
            }
            let start_w: usize = (r - self.alloc_start) / 8;
            let count: usize = pages * WORDS_PER_PAGE;
            proof {
                assert(start_w == i * WORDS_PER_PAGE);
                assert(start_w + count <= self.mem@.len());
            }
            let ghost m1 = *self;
            let mut w: usize = start_w;
            while w < start_w + count
                invariant
                    start_w <= w <= start_w + count,
                    self.heap_start == m1.spec_heap_start(),
                    self.heap_size == m1.spec_heap_size(),
                    self.num_pages == m1.spec_num_pages(),
                    self.alloc_start == m1.spec_alloc_start(),
                    self.descriptors@ == m1.descs(),
                    self.mem@.len() == m1.mem_words().len(),
                    forall|v: int| start_w <= v < w ==> (#[trigger] self.mem@[v]) == 0,
                    forall|v: int|
                        0 <= v < m1.mem_words().len() && !(start_w <= v < w) ==> self.mem@[v]
                            == m1.mem_words()[v],
                decreases start_w + count - w,
            {
                self.mem.set(w, 0);
                w += 1;
            }
        }
        r
    }

    /// Stub kept for symmetry with `alloc_pages`: clears the descriptors of
    /// the run that starts at `ptr` and ends at its `Last` frame. The core
    /// never calls it.
    #[verifier::loop_isolation(false)]
    pub fn dealloc(&mut self, ptr: usize)
        requires
            old(self).wf(),
            ptr % PAGE_SIZE == 0,
            old(self).spec_alloc_start() <= ptr,
            exists|e: int|
                #[trigger] valid_run(
                    old(self).descs(),
                    (ptr - old(self).spec_alloc_start()) / (PAGE_SIZE as int),
                    e,
                ),
        ensures
            final(self).wf(),
            final(self).spec_heap_start() == old(self).spec_heap_start(),
            final(self).spec_heap_size() == old(self).spec_heap_size(),
            final(self).spec_num_pages() == old(self).spec_num_pages(),
            final(self).spec_alloc_start() == old(self).spec_alloc_start(),
            final(self).mem_words() == old(self).mem_words(),
            final(self).descs().len() == old(self).descs().len(),
            forall|e: int, j: int|
                #[trigger] valid_run(
                    old(self).descs(),
                    (ptr - old(self).spec_alloc_start()) / (PAGE_SIZE as int),
                    e,
                ) && (ptr - old(self).spec_alloc_start()) / (PAGE_SIZE as int) <= j <= e
                    ==> (#[trigger] final(self).descs()[j]).spec_flags() == 0,
            forall|e: int, j: int|
                #[trigger] valid_run(
                    old(self).descs(),
                    (ptr - old(self).spec_alloc_start()) / (PAGE_SIZE as int),
                    e,
                ) && 0 <= j < old(self).descs().len() && !((ptr - old(self).spec_alloc_start())
                    / (PAGE_SIZE as int) <= j <= e) ==> (#[trigger] final(self).descs()[j]) == old(
                    self,
                ).descs()[j],
    {
        let start: usize = (ptr - self.alloc_start) / PAGE_SIZE;
        let ghost e = choose|e: int| valid_run(old(self).descs(), start as int, e);
        let mut i: usize = start;
        loop
            invariant
                start <= i <= e,
                self.heap_start == old(self).spec_heap_start(),
                self.heap_size == old(self).spec_heap_size(),
                self.num_pages == old(self).spec_num_pages(),
                self.alloc_start == old(self).spec_alloc_start(),
                self.mem@ == old(self).mem_words(),
                self.descs().len() == old(self).descs().len(),
                forall|j: int| start <= j < i ==> (#[trigger] self.descs()[j]).spec_flags() == 0,
                forall|j: int|
                    0 <= j < old(self).descs().len() && !(start <= j < i) ==> (
                    #[trigger] self.descs()[j]) == old(self).descs()[j],
            decreases e - i,
        {
            if self.descriptors[i].is_last() {
                break ;
            }
            let mut pg: Page = self.descriptors[i];
            pg.clear();
            self.descriptors.set(i, pg);
            i += 1;
        }
        let mut pg: Page = self.descriptors[i];
        pg.clear();
        self.descriptors.set(i, pg);
        proof {
            assert(i == e);
        }
    }

    /// Read the machine word the model holds for address `addr`.
    pub fn read_word(&self, addr: usize) -> (r: u64)
        requires
            self.wf(),
            self.spec_alloc_start() <= addr,
            addr % 8 == 0,
            (addr - self.spec_alloc_start()) / 8 < self.mem_words().len(),
        ensures
            r == self.mem_words()[(addr - self.spec_alloc_start()) / 8],
    {
        let w: usize = (addr - self.alloc_start) / 8;
        self.mem[w]
    }

    /// Store a machine word at address `addr`; models an ordinary store into
    /// the frame region.
    pub fn write_word(&mut self, addr: usize, val: u64)
        requires
            old(self).wf(),
            old(self).spec_alloc_start() <= addr,
            addr % 8 == 0,
            (addr - old(self).spec_alloc_start()) / 8 < old(self).mem_words().len(),
        ensures
            final(self).wf(),
            final(self).spec_heap_start() == old(self).spec_heap_start(),
            final(self).spec_heap_size() == old(self).spec_heap_size(),
            final(self).spec_num_pages() == old(self).spec_num_pages(),
            final(self).spec_alloc_start() == old(self).spec_alloc_start(),
            final(self).descs() == old(self).descs(),
            final(self).mem_words() == old(self).mem_words().update(
                (addr - old(self).spec_alloc_start()) / 8,
                val,
            ),
    {
        let w: usize = (addr - self.alloc_start) / 8;
        self.mem.set(w, val);
        proof {
            assert(final(self).mem_words() =~= old(self).mem_words().update(
                (addr - old(self).spec_alloc_start()) / 8,
                val,
            ));
        }
    }
}

/// Descriptors `i ..= e` form one allocated run: all taken, only `e` is last.
pub open spec fn valid_run(s: Seq<Page>, i: int, e: int) -> bool {
    &&& 0 <= i <= e < s.len()
    &&& s[e].spec_last()
    &&& (forall|k: int| i <= k <= e ==> (#[trigger] s[k]).spec_taken())
    &&& (forall|k: int| i <= k < e ==> !(#[trigger] s[k]).spec_last())
}

/// Number of free descriptors.
pub open spec fn count_free(s: Seq<Page>) -> int
    decreases s.len(),
{
    if s.len() == 0 {
        0
    } else {
        count_free(s.drop_last()) + if s.last().spec_taken() {
            0int
        } else {
            1int
        }
    }
}

/// In a wholly free descriptor array every page counts as free.
pub proof fn lemma_count_free_all(s: Seq<Page>)
    requires
        forall|j: int| 0 <= j < s.len() ==> !(#[trigger] s[j]).spec_taken(),
    ensures
        count_free(s) == s.len(),
    decreases s.len(),
{
    if s.len() > 0 {
        lemma_count_free_all(s.drop_last());
    }
}

/// Marking a free run of `n` descriptors taken lowers the free count by `n`.
pub proof fn lemma_count_free_marked(pre: Seq<Page>, post: Seq<Page>, i: int, n: int)
    requires
        post.len() == pre.len(),
        0 <= i,
        0 <= n,
        i + n <= pre.len(),
        forall|j: int| 0 <= j < pre.len() && !(i <= j < i + n) ==> post[j] == pre[j],
        forall|j: int|
            i <= j < i + n ==> !(#[trigger] pre[j]).spec_taken() && post[j].spec_taken(),
    ensures
        count_free(post) == count_free(pre) - n,
    decreases pre.len(),
{
    if n == 0 {
        assert(post =~= pre);
    } else if pre.len() > 0 {
        let l = pre.len() - 1;
        if i + n == pre.len() {
            lemma_count_free_marked(pre.drop_last(), post.drop_last(), i, n - 1);
        } else {
            lemma_count_free_marked(pre.drop_last(), post.drop_last(), i, n);
        }
    }
}

pub proof fn lemma_find_fit_from_complete(s: Seq<Page>, n: int, k: int, m: int)
    requires
        0 <= k <= m,
        n >= 1,
        find_fit_from(s, n, k) == None::<int>,
    ensures
        !fits_at(s, n, m),
    decreases s.len() - k,
{
    if k + n > s.len() {
    } else if free_run(s, k, n) {
    } else if m == k {
    } else {
        lemma_find_fit_from_complete(s, n, k + 1, m);
    }
}

pub proof fn lemma_count_free_has_free(s: Seq<Page>)
    requires
        count_free(s) > 0,
    ensures
        exists|j: int| 0 <= j < s.len() && !(#[trigger] s[j]).spec_taken(),
    decreases s.len(),
{
    if s.len() == 0 {
    } else if !s.last().spec_taken() {
        assert(!s[s.len() - 1].spec_taken());
    } else {
        lemma_count_free_has_free(s.drop_last());
        let j = choose|j: int|
            0 <= j < s.drop_last().len() && !(#[trigger] s.drop_last()[j]).spec_taken();
        assert(!s[j].spec_taken());
    }
}

/// Any free descriptor at all means a one-page allocation will succeed.
pub proof fn lemma_free_page_fit(s: Seq<Page>)
    requires
        count_free(s) > 0,
    ensures
        find_fit(s, 1).is_some(),
{
    lemma_count_free_has_free(s);
    let j = choose|j: int| 0 <= j < s.len() && !(#[trigger] s[j]).spec_taken();
    assert(fits_at(s, 1, j));
    if find_fit(s, 1).is_none() {
        lemma_find_fit_from_complete(s, 1, 0, j);
    }
}

/// Page disjointness: a run of frames already marked taken cannot overlap the
/// run a first-fit allocation returns, since the latter must be free; the two
/// page address ranges are therefore disjoint.
pub proof fn lemma_page_disjointness(
    s: Seq<Page>,
    alloc_start: usize,
    i1: int,
    n1: int,
    i2: int,
    n2: int,
)
    requires
        n1 >= 1,
        n2 >= 1,
        0 <= i1,
        i1 + n1 <= s.len(),
        forall|k: int| i1 <= k < i1 + n1 ==> (#[trigger] s[k]).spec_taken(),
        find_fit(s, n2) == Some(i2),
    ensures
        i1 + n1 <= i2 || i2 + n2 <= i1,
        alloc_start + (i1 + n1) * PAGE_SIZE <= alloc_start + i2 * PAGE_SIZE || alloc_start + (i2
            + n2) * PAGE_SIZE <= alloc_start + i1 * PAGE_SIZE,
{
    lemma_find_fit_from_sound(s, n2, 0, i2);
    if !(i1 + n1 <= i2 || i2 + n2 <= i1) {
        let k = if i1 >= i2 {
            i1
        } else {
            i2
        };
        assert(s[k].spec_taken());
        assert(!s[k].spec_taken());
    }
}

/// Page alignment: every first-fit result address is `PAGE_SIZE`-aligned and
/// at or above `ALLOC_START`.
pub proof fn lemma_alloc_result_aligned(pa: PageAllocator, n: int, i: int)
    requires
        pa.wf(),
        n >= 1,
        find_fit(pa.descs(), n) == Some(i),
    ensures
        (pa.spec_alloc_start() + i * PAGE_SIZE) % (PAGE_SIZE as int) == 0,
        pa.spec_alloc_start() <= pa.spec_alloc_start() + i * PAGE_SIZE,
{
    lemma_find_fit_from_sound(pa.descs(), n, 0, i);
    assert((pa.spec_alloc_start() + i * PAGE_SIZE) % (PAGE_SIZE as int) == 0)
        by (nonlinear_arith)
        requires
            (pa.spec_alloc_start() as int) % (PAGE_SIZE as int) == 0,
            0 <= i,
            PAGE_SIZE == 4096,
    ;
}

/// Containment in the heap: where the whole run lies below the heap's end, the
/// returned address does too. (The final frames of the region sit past
/// `HEAP_START + HEAP_SIZE`, because the descriptor array occupies the front
/// of the heap; those runs are excluded here.)
pub proof fn lemma_alloc_result_in_heap(pa: PageAllocator, n: int, i: int)
    requires
        pa.wf(),
        n >= 1,
        find_fit(pa.descs(), n) == Some(i),
        pa.spec_alloc_start() + (i + n) * PAGE_SIZE <= pa.spec_heap_start()
            + pa.spec_heap_size(),
    ensures
        pa.spec_alloc_start() <= pa.spec_alloc_start() + i * PAGE_SIZE,
        pa.spec_alloc_start() + i * PAGE_SIZE < pa.spec_heap_start() + pa.spec_heap_size(),
{
    lemma_find_fit_from_sound(pa.descs(), n, 0, i);
}

} // verus!
