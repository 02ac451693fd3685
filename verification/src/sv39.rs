//! Sv39 page-table manager: three levels of 512-entry tables, interior
//! frames allocated on demand from the page-frame allocator. The set of
//! tables is held by index; entries store the Sv39 encoding of each frame's
//! physical address, and a walk resolves an entry's address back to the
//! owning table by that address.
use vstd::prelude::*;
use crate::page::{PageAllocator, PAGE_SIZE, find_fit, count_free, lemma_free_page_fit};
use crate::page::{lemma_find_fit_from_sound, lemma_count_free_marked, lemma_alloc_result_aligned};

verus! {

#[derive(Clone, Copy)]
pub enum EntryBits {
    Empty,
    Valid,
    Read,
    Write,
    Execute,
    User,
    Global,
    Access,
    Dirty,
    ReadWrite,
    ReadExecute,
    ReadWriteExecute,
    UserReadWrite,
    UserReadExecute,
    UserReadWriteExecute,
}

impl EntryBits {
    pub open spec fn spec_val(self) -> i64 {
        match self {
            EntryBits::Empty => 0,
            EntryBits::Valid => 1,
            EntryBits::Read => 2,
            EntryBits::Write => 4,
            EntryBits::Execute => 8,
            EntryBits::User => 16,
            EntryBits::Global => 32,
            EntryBits::Access => 64,
            EntryBits::Dirty => 128,
            EntryBits::ReadWrite => 6,
            EntryBits::ReadExecute => 10,
            EntryBits::ReadWriteExecute => 14,
            EntryBits::UserReadWrite => 22,
            EntryBits::UserReadExecute => 26,
            EntryBits::UserReadWriteExecute => 30,
        }
    }

    pub fn val(self) -> (r: i64)
        ensures
            r == self.spec_val(),
    {
        match self {
            EntryBits::Empty => 0,
            EntryBits::Valid => 1,
            EntryBits::Read => 2,
            EntryBits::Write => 4,
            EntryBits::Execute => 8,
            EntryBits::User => 16,
            EntryBits::Global => 32,
            EntryBits::Access => 64,
            EntryBits::Dirty => 128,
            EntryBits::ReadWrite => 6,
            EntryBits::ReadExecute => 10,
            EntryBits::ReadWriteExecute => 14,
            EntryBits::UserReadWrite => 22,
            EntryBits::UserReadExecute => 26,
            EntryBits::UserReadWriteExecute => 30,
        }
    }
}

/// One page-table entry: bit 0 valid, bits 1..=3 R/W/X, bits 10..=53 the
/// physical page number.
#[derive(Clone, Copy)]
pub struct Entry {
    pub entry: i64,
}

impl Entry {
    pub open spec fn spec_valid(self) -> bool {
        self.entry & 1 != 0
    }

    pub open spec fn spec_leaf(self) -> bool {
        self.entry & 0xE != 0
    }

    pub fn is_valid(&self) -> (r: bool)
        ensures
            r == self.spec_valid(),
    {
        if self.get_entry() & EntryBits::Valid.val() != 0 {
            true
        } else {
            false
        }
    }

    pub fn is_leaf(&self) -> (r: bool)
        ensures
            r == self.spec_leaf(),
    {
        if self.get_entry() & 0xE != 0 {
            true
        } else {
            false
        }
    }

    pub fn set_entry(&mut self, entry: i64)
        ensures
            final(self).entry == entry,
    {
        self.entry = entry;
    }

    pub fn get_entry(&self) -> (r: i64)
        ensures
            r == self.entry,
    {
        self.entry
    }
}

/// One page table: 512 entries filling a 4 KiB frame.
pub struct Table {
    pub entries: Vec<Entry>,
}

impl Table {
    pub open spec fn wf(self) -> bool {
        self.entries@.len() == 512
    }

    pub fn len() -> (r: usize)
        ensures
            r == 512,
    {
        512
    }
}

/// Virtual page number of `va` at walk level `lvl`.
pub open spec fn spec_vpn(va: usize, lvl: int) -> int {
    if lvl == 2 {
        ((va >> 30) & 0x1ff) as int
    } else if lvl == 1 {
        ((va >> 21) & 0x1ff) as int
    } else {
        ((va >> 12) & 0x1ff) as int
    }
}

/// An interior entry: valid with R/W/X all clear.
pub open spec fn spec_interior(en: i64) -> bool {
    en & 1 != 0 && en & 0xE == 0
}

/// The physical address an interior entry points at: drop the ten flag bits,
/// shift back left by two.
pub open spec fn spec_decode(en: i64) -> usize {
    (((en & !0x3ff) << 2)) as usize
}

/// The leaf entry installed for `pa` with the given permission bits.
pub open spec fn spec_leaf_entry(pa: usize, bits: i64) -> i64 {
    ((((pa >> 30) & 0x3ff_ffff) as i64) << 28) | ((((pa >> 21) & 0x1ff) as i64) << 19) | ((((pa
        >> 12) & 0x1ff) as i64) << 10) | bits | 1
}

/// The physical address a leaf found at level `lvl` resolves `va` to.
pub open spec fn spec_leaf_pa(en: i64, va: usize, lvl: int) -> usize {
    let off: usize = ((1usize << ((12 + lvl * 9) as usize)) - 1) as usize;
    (((en << 2) as usize) & !off) | (va & off)
}

proof fn lemma_vpn_bits(va: usize, w: usize)
    by (bit_vector)
    ensures
        ((va >> 30) & 0x1ff) < 512,
        ((va >> 21) & 0x1ff) < 512,
        ((va >> 12) & 0x1ff) < 512,
        (w >> 12) == (va >> 12) ==> ((w >> 30) & 0x1ff) == ((va >> 30) & 0x1ff) && ((w >> 21)
            & 0x1ff) == ((va >> 21) & 0x1ff) && ((w >> 12) & 0x1ff) == ((va >> 12) & 0x1ff),
{
}

proof fn lemma_encode_interior(addr: usize)
    by (bit_vector)
    requires
        addr % 4096 == 0,
        addr < 0x100_0000_0000_0000,
    ensures
        (((addr as i64) >> 2) | 1) & 1 != 0,
        (((addr as i64) >> 2) | 1) & 0xE == 0,
        (((((addr as i64) >> 2) | 1) & !0x3ff) << 2) as usize == addr,
{
}

proof fn lemma_leaf_entry(pa: usize, bits: i64, w: usize)
    by (bit_vector)
    requires
        pa < 0x100_0000_0000_0000,
        0 <= bits < 1024,
        bits & 0xE != 0,
    ensures
        ({
            let en = ((((pa >> 30) & 0x3ff_ffff) as i64) << 28) | ((((pa >> 21) & 0x1ff) as i64)
                << 19) | ((((pa >> 12) & 0x1ff) as i64) << 10) | bits | 1;
            en & 1 != 0 && en & 0xE != 0 && ((((en << 2) as usize) & !(((1usize << 12) - 1) as usize))
                | (w & (((1usize << 12) - 1) as usize))) == (((pa >> 12) << 12) | (w & 0xfff))
        }),
{
}

/// Facts about 4 KiB page arithmetic that relate an address to its page.
pub proof fn lemma_page_bounds(w: usize, m: usize)
    by (bit_vector)
    ensures
        ((w >> 12) << 12) | (w & 0xfff) == w,
        m % 4096 == 0 && m <= w < m + 4096 ==> (w >> 12) == (m >> 12),
        m % 4096 == 0 && w < m ==> (w >> 12) < (m >> 12),
        m % 4096 == 0 && w >= m + 4096 ==> (w >> 12) > (m >> 12),
        w <= m ==> (w >> 12) <= (m >> 12),
        w < 0x80_0000_0000 && m < 0x80_0000_0000 && ((w >> 30) & 0x1ff) == ((m >> 30) & 0x1ff)
            && ((w >> 21) & 0x1ff) == ((m >> 21) & 0x1ff) && ((w >> 12) & 0x1ff) == ((m >> 12)
            & 0x1ff) ==> (w >> 12) == (m >> 12),
{
}

/// `addr` is the start of a taken page frame of `palloc`.
pub open spec fn backed_by(palloc: PageAllocator, addr: usize) -> bool {
    exists|j: int|
        0 <= j < palloc.descs().len() && addr == palloc.spec_alloc_start() + j * PAGE_SIZE && (
        #[trigger] palloc.descs()[j]).spec_taken()
}

/// The page-table manager: table 0 is the root; `addrs[t]` is the physical
/// frame address of table `t`.
pub struct Sv39 {
    tables: Vec<Table>,
    addrs: Vec<usize>,
}

impl Sv39 {
    pub closed spec fn spec_tables(self) -> Seq<Table> {
        self.tables@
    }

    pub closed spec fn spec_addrs(self) -> Seq<usize> {
        self.addrs@
    }

    pub open spec fn entry_at(self, t: int, e: int) -> i64 {
        self.spec_tables()[t].entries@[e].entry
    }

    pub open spec fn has_child(self, addr: usize) -> bool {
        exists|c: int| 0 <= c < self.spec_addrs().len() && self.spec_addrs()[c] == addr
    }

    pub open spec fn child_index(self, addr: usize) -> int {
        choose|c: int| 0 <= c < self.spec_addrs().len() && self.spec_addrs()[c] == addr
    }

    pub open spec fn wf(self) -> bool {
        &&& self.spec_tables().len() == self.spec_addrs().len()
        &&& 1 <= self.spec_tables().len()
        &&& (forall|t: int|
            0 <= t < self.spec_tables().len() ==> (#[trigger] self.spec_tables()[t]).wf())
        &&& (forall|t: int|
            0 <= t < self.spec_addrs().len() ==> (#[trigger] self.spec_addrs()[t]) % PAGE_SIZE
                == 0 && self.spec_addrs()[t] >= PAGE_SIZE && self.spec_addrs()[t]
                < 0x100_0000_0000_0000)
        &&& (forall|t1: int, t2: int|
            0 <= t1 < self.spec_addrs().len() && 0 <= t2 < self.spec_addrs().len() && t1 != t2
                ==> (#[trigger] self.spec_addrs()[t1]) != (#[trigger] self.spec_addrs()[t2]))
        &&& (forall|t: int, e: int|
            0 <= t < self.spec_tables().len() && 0 <= e < 512 && spec_interior(
                #[trigger] self.entry_at(t, e),
            ) ==> self.has_child(spec_decode(self.entry_at(t, e))) && spec_decode(
                self.entry_at(t, e),
            ) != self.spec_addrs()[0] && spec_decode(self.entry_at(t, e)) != self.spec_addrs()[t])
        &&& (forall|t1: int, e1: int, t2: int, e2: int|
            0 <= t1 < self.spec_tables().len() && 0 <= e1 < 512 && 0 <= t2
                < self.spec_tables().len() && 0 <= e2 < 512 && spec_interior(
                #[trigger] self.entry_at(t1, e1),
            ) && spec_interior(#[trigger] self.entry_at(t2, e2)) && spec_decode(
                self.entry_at(t1, e1),
            ) == spec_decode(self.entry_at(t2, e2)) ==> t1 == t2 && e1 == e2)
    }

    /// The walk, from table `t` at level `lvl` downward.
    pub open spec fn spec_translate_at(self, t: int, va: usize, lvl: int) -> Option<usize>
        decreases lvl,
    {
        if lvl < 0 {
            None
        } else {
            let en = self.entry_at(t, spec_vpn(va, lvl));
            if en & 1 == 0 {
                None
            } else if en & 0xE != 0 {
                Some(spec_leaf_pa(en, va, lvl))
            } else if lvl == 0 {
                None
            } else if self.has_child(spec_decode(en)) {
                self.spec_translate_at(self.child_index(spec_decode(en)), va, lvl - 1)
            } else {
                None
            }
        }
    }

    /// The virtual-to-physical translation the tree currently encodes.
    pub open spec fn spec_translate(self, va: usize) -> Option<usize> {
        self.spec_translate_at(0, va, 2)
    }

    /// The walk toward the leaf slot for `va` meets no leaf entry above
    /// `level`: the precondition for installing a mapping at `level`.
    pub open spec fn path_ok(self, t: int, va: usize, lvl: int, level: int) -> bool
        decreases lvl,
    {
        if lvl <= 0 || lvl <= level {
            true
        } else {
            let en = self.entry_at(t, spec_vpn(va, lvl));
            if en & 1 == 0 {
                true
            } else if en & 0xE != 0 {
                false
            } else if self.has_child(spec_decode(en)) {
                self.path_ok(self.child_index(spec_decode(en)), va, lvl - 1, level)
            } else {
                true
            }
        }
    }

    /// Every table frame is a taken page of `palloc`, so a fresh frame from
    /// it can collide with none of them.
    pub open spec fn linked(self, palloc: PageAllocator) -> bool {
        forall|t: int|
            0 <= t < self.spec_addrs().len() ==> backed_by(
                palloc,
                #[trigger] self.spec_addrs()[t],
            )
    }

    /// Start a manager from the root frame address that `Kmem::init` set
    /// aside; the root table starts zeroed.
    pub fn new_root(root_addr: usize, Ghost(palloc): Ghost<PageAllocator>) -> (s: Sv39)
        requires
            root_addr % PAGE_SIZE == 0,
            root_addr >= PAGE_SIZE,
            root_addr < 0x100_0000_0000_0000,
            backed_by(palloc, root_addr),
        ensures
            s.wf(),
            s.linked(palloc),
            s.spec_tables().len() == 1,
            s.spec_addrs()[0] == root_addr,
            forall|e: int| 0 <= e < 512 ==> s.entry_at(0, e) == 0,
            forall|w: usize| s.spec_translate(w) == None::<usize>,
            forall|w: usize| s.path_ok(0, w, 2, 0),
    {
        let table = zeroed_table();
        let mut tables: Vec<Table> = Vec::new();
        let mut addrs: Vec<usize> = Vec::new();
        tables.push(table);
        addrs.push(root_addr);
        let s = Sv39 { tables, addrs };
        proof {
            assert(0i64 & 1 == 0 && 0i64 & 0xE == 0) by (bit_vector);
            assert forall|w: usize| s.spec_translate(w) == None::<usize> by {
                lemma_vpn_bits(w, w);
                assert(s.entry_at(0, spec_vpn(w, 2)) == 0);
            }
            assert forall|w: usize| s.path_ok(0, w, 2, 0) by {
                lemma_vpn_bits(w, w);
                assert(s.entry_at(0, spec_vpn(w, 2)) == 0);
            }
        }
        s
    }

    /// `new_root` with the backing allocator passed by reference, for
    /// callers outside the proof world.
    pub fn new_root_for(palloc: &PageAllocator, root_addr: usize) -> (s: Sv39)
        requires
            root_addr % PAGE_SIZE == 0,
            root_addr >= PAGE_SIZE,
            root_addr < 0x100_0000_0000_0000,
            backed_by(*palloc, root_addr),
        ensures
            s.wf(),
            s.linked(*palloc),
            s.spec_tables().len() == 1,
            s.spec_addrs()[0] == root_addr,
            forall|w: usize| s.spec_translate(w) == None::<usize>,
            forall|w: usize| s.path_ok(0, w, 2, 0),
    {
        Sv39::new_root(root_addr, Ghost(*palloc))
    }

    /// Number of tables the manager holds (root included).
    pub fn table_count(&self) -> (r: usize)
        ensures
            r == self.spec_tables().len(),
    {
        self.tables.len()
    }

    /// Physical address of the root table.
    pub fn root_addr(&self) -> (r: usize)
        requires
            self.wf(),
        ensures
            r == self.spec_addrs()[0],
    {
        self.addrs[0]
    }

    fn find_child(&self, addr: usize) -> (c: usize)
        requires
            self.wf(),
            self.has_child(addr),
        ensures
            c < self.spec_tables().len(),
            self.spec_addrs()[c as int] == addr,
            c as int == self.child_index(addr),
    {
        let mut i: usize = 0;
        let n: usize = self.addrs.len();
        while self.addrs[i] != addr
            invariant
                self.wf(),
                n == self.spec_addrs().len(),
                i < n,
                forall|j: int| 0 <= j < i ==> (#[trigger] self.spec_addrs()[j]) != addr,
                self.has_child(addr),
            decreases self.spec_addrs().len() - i,
        {
            i += 1;
            proof {
                let c0 = choose|c: int|
                    0 <= c < self.spec_addrs().len() && self.spec_addrs()[c] == addr;
                assert(c0 >= i);
            }
        }
        proof {
            let c0 = self.child_index(addr);
            assert(self.spec_addrs()[c0] == addr);
            assert(c0 == i as int);
        }
        i
    }
}

/// Installing a fresh zeroed table under a previously invalid entry changes
/// no translation and no path's standing: `None` before, still `None`
/// through the empty table after.
proof fn lemma_step_frame_at(
    pre: Sv39,
    post: Sv39,
    t: int,
    slot: int,
    c: int,
    start: int,
    w: usize,
    lvl: int,
)
    requires
        pre.wf(),
        post.wf(),
        0 <= t < pre.spec_tables().len(),
        0 <= slot < 512,
        pre.entry_at(t, slot) & 1 == 0,
        post.spec_tables().len() == pre.spec_tables().len() + 1,
        c == pre.spec_tables().len(),
        forall|x: int|
            0 <= x < pre.spec_addrs().len() ==> (#[trigger] post.spec_addrs()[x])
                == pre.spec_addrs()[x],
        spec_interior(post.entry_at(t, slot)),
        spec_decode(post.entry_at(t, slot)) == post.spec_addrs()[c],
        forall|t2: int, e2: int|
            0 <= t2 < pre.spec_tables().len() && 0 <= e2 < 512 && !(t2 == t && e2 == slot)
                ==> post.entry_at(t2, e2) == pre.entry_at(t2, e2),
        forall|e2: int| 0 <= e2 < 512 ==> post.entry_at(c, e2) == 0,
        forall|x: int|
            0 <= x < pre.spec_addrs().len() ==> (#[trigger] pre.spec_addrs()[x])
                != post.spec_addrs()[c],
        0 <= start < pre.spec_tables().len(),
        0 <= lvl <= 2,
    ensures
        post.spec_translate_at(start, w, lvl) == pre.spec_translate_at(start, w, lvl),
        post.path_ok(start, w, lvl, 0) == pre.path_ok(start, w, lvl, 0),
    decreases lvl,
{
    lemma_vpn_bits(w, w);
    let e = spec_vpn(w, lvl);
    assert(0i64 & 1 == 0 && 0i64 & 0xE == 0) by (bit_vector);
    if start == t && e == slot {
        assert(pre.spec_translate_at(start, w, lvl) == None::<usize>);
        let en = post.entry_at(t, slot);
        let d = spec_decode(en);
        assert(post.has_child(d));
        assert(post.child_index(d) == c) by {
            let cx = post.child_index(d);
            assert(post.spec_addrs()[cx] == d);
            if cx != c {
                assert(post.spec_addrs()[cx] == pre.spec_addrs()[cx]);
            }
        }
        if lvl > 0 {
            assert(post.entry_at(c, spec_vpn(w, lvl - 1)) == 0);
            assert(post.spec_translate_at(c, w, lvl - 1) == None::<usize>);
        }
        assert(post.spec_translate_at(start, w, lvl) == None::<usize>);
        assert(pre.path_ok(start, w, lvl, 0));
        assert(post.path_ok(start, w, lvl, 0)) by {
            if lvl > 0 {
                assert(post.path_ok(c, w, lvl - 1, 0)) by {
                    if lvl - 1 > 0 {
                        assert(post.entry_at(c, spec_vpn(w, lvl - 1)) == 0);
                    }
                }
            }
        }
    } else {
        let en = pre.entry_at(start, e);
        assert(post.entry_at(start, e) == en);
        if en & 1 == 0 {
        } else if en & 0xE != 0 {
        } else if lvl == 0 {
        } else {
            assert(spec_interior(en));
            let d = spec_decode(en);
            assert(pre.has_child(d));
            let cx = pre.child_index(d);
            assert(pre.spec_addrs()[cx] == d);
            assert(post.spec_addrs()[cx] == d);
            assert(post.has_child(d));
            assert(post.child_index(d) == cx) by {
                let cy = post.child_index(d);
                assert(post.spec_addrs()[cy] == d);
                if cy == c {
                    assert(pre.spec_addrs()[cx] != post.spec_addrs()[c]);
                }
            }
            lemma_step_frame_at(pre, post, t, slot, c, cx, w, lvl - 1);
        }
    }
}

/// Writing a 4 KiB leaf at the bottom of one path changes no translation of
/// an address with a different index triple, and no path's standing.
proof fn lemma_leaf_frame(
    pre: Sv39,
    post: Sv39,
    tleaf: int,
    slot: int,
    c1: int,
    vn2: int,
    vn1: int,
    w: usize,
)
    requires
        pre.wf(),
        post.wf(),
        post.spec_tables().len() == pre.spec_tables().len(),
        post.spec_addrs() == pre.spec_addrs(),
        0 <= tleaf < pre.spec_tables().len(),
        0 <= slot < 512,
        0 <= c1 < pre.spec_tables().len(),
        0 <= vn2 < 512,
        0 <= vn1 < 512,
        forall|t2: int, e2: int|
            0 <= t2 < pre.spec_tables().len() && 0 <= e2 < 512 && !(t2 == tleaf && e2 == slot)
                ==> post.entry_at(t2, e2) == pre.entry_at(t2, e2),
        spec_interior(pre.entry_at(0, vn2)),
        spec_decode(pre.entry_at(0, vn2)) == pre.spec_addrs()[c1],
        spec_interior(pre.entry_at(c1, vn1)),
        spec_decode(pre.entry_at(c1, vn1)) == pre.spec_addrs()[tleaf],
        c1 != 0,
        tleaf != 0,
        tleaf != c1,
    ensures
        !(spec_vpn(w, 2) == vn2 && spec_vpn(w, 1) == vn1 && spec_vpn(w, 0) == slot)
            ==> post.spec_translate(w) == pre.spec_translate(w),
        post.path_ok(0, w, 2, 0) == pre.path_ok(0, w, 2, 0),
{
    lemma_vpn_bits(w, w);
    let w2 = spec_vpn(w, 2);
    let w1 = spec_vpn(w, 1);
    let w0 = spec_vpn(w, 0);
    assert(post.entry_at(0, w2) == pre.entry_at(0, w2));
    let en2 = pre.entry_at(0, w2);
    if en2 & 1 == 0 {
        assert(post.spec_translate_at(0, w, 2) == None::<usize>);
        assert(pre.spec_translate_at(0, w, 2) == None::<usize>);
        assert(post.path_ok(0, w, 2, 0) && pre.path_ok(0, w, 2, 0));
    } else if en2 & 0xE != 0 {
        assert(post.spec_translate_at(0, w, 2) == Some(spec_leaf_pa(en2, w, 2)));
        assert(pre.spec_translate_at(0, w, 2) == Some(spec_leaf_pa(en2, w, 2)));
        assert(!post.path_ok(0, w, 2, 0) && !pre.path_ok(0, w, 2, 0));
    } else {
        let d2 = spec_decode(en2);
        assert(pre.has_child(d2));
        let x1 = pre.child_index(d2);
        assert(pre.spec_addrs()[x1] == d2);
        assert(post.has_child(d2) && post.child_index(d2) == x1) by {
            assert(post.spec_addrs()[x1] == d2);
            let cy = post.child_index(d2);
            assert(post.spec_addrs()[cy] == d2);
        }
        assert(x1 != tleaf) by {
            if x1 == tleaf {
                assert(spec_decode(pre.entry_at(0, w2)) == spec_decode(pre.entry_at(c1, vn1)));
            }
        }
        assert(post.entry_at(x1, w1) == pre.entry_at(x1, w1));
        assert(post.spec_translate_at(0, w, 2) == post.spec_translate_at(x1, w, 1));
        assert(pre.spec_translate_at(0, w, 2) == pre.spec_translate_at(x1, w, 1));
        assert(post.path_ok(0, w, 2, 0) == post.path_ok(x1, w, 1, 0));
        assert(pre.path_ok(0, w, 2, 0) == pre.path_ok(x1, w, 1, 0));
        let en1 = pre.entry_at(x1, w1);
        if en1 & 1 == 0 {
            assert(post.spec_translate_at(x1, w, 1) == None::<usize>);
            assert(pre.spec_translate_at(x1, w, 1) == None::<usize>);
            assert(post.path_ok(x1, w, 1, 0) && pre.path_ok(x1, w, 1, 0));
        } else if en1 & 0xE != 0 {
            assert(post.spec_translate_at(x1, w, 1) == Some(spec_leaf_pa(en1, w, 1)));
            assert(pre.spec_translate_at(x1, w, 1) == Some(spec_leaf_pa(en1, w, 1)));
            assert(!post.path_ok(x1, w, 1, 0) && !pre.path_ok(x1, w, 1, 0));
        } else {
            let d1 = spec_decode(en1);
            assert(pre.has_child(d1));
            let x2 = pre.child_index(d1);
            assert(pre.spec_addrs()[x2] == d1);
            assert(post.has_child(d1) && post.child_index(d1) == x2) by {
                assert(post.spec_addrs()[x2] == d1);
                let cy = post.child_index(d1);
                assert(post.spec_addrs()[cy] == d1);
            }
            if !(w2 == vn2 && w1 == vn1 && w0 == slot) {
                if x2 == tleaf {
                    // the walk can only land on the written table along the
                    // written path, so the slots must differ
                    assert(spec_decode(pre.entry_at(x1, w1)) == spec_decode(
                        pre.entry_at(c1, vn1),
                    ));
                    assert(x1 == c1 && w1 == vn1);
                    assert(spec_decode(pre.entry_at(0, w2)) == pre.spec_addrs()[c1]);
                    assert(spec_decode(pre.entry_at(0, w2)) == spec_decode(
                        pre.entry_at(0, vn2),
                    ));
                    assert(w2 == vn2);
                    assert(w0 != slot);
                    assert(post.entry_at(x2, w0) == pre.entry_at(x2, w0));
                } else {
                    assert(post.entry_at(x2, w0) == pre.entry_at(x2, w0));
                }
                assert(post.spec_translate_at(x2, w, 0) == pre.spec_translate_at(x2, w, 0));
                assert(post.spec_translate_at(x1, w, 1) == post.spec_translate_at(x2, w, 0));
                assert(pre.spec_translate_at(x1, w, 1) == pre.spec_translate_at(x2, w, 0));
            }
            assert(post.path_ok(x1, w, 1, 0) == post.path_ok(x2, w, 0, 0));
            assert(pre.path_ok(x1, w, 1, 0) == pre.path_ok(x2, w, 0, 0));
            assert(post.path_ok(x2, w, 0, 0) && pre.path_ok(x2, w, 0, 0));
        }
    }
}

impl Sv39 {
    /// Walk one level: return the table the interior entry at `(t, slot)`
    /// points at, allocating and installing a fresh zeroed table when the
    /// entry is invalid.
    fn step(&mut self, palloc: &mut PageAllocator, t: usize, slot: usize) -> (c: usize)
        requires
            old(self).wf(),
            old(palloc).wf(),
            old(self).linked(*old(palloc)),
            t < old(self).spec_tables().len(),
            slot < 512,
            !(old(self).entry_at(t as int, slot as int) & 1 != 0 && old(self).entry_at(
                t as int,
                slot as int,
            ) & 0xE != 0),
            old(self).entry_at(t as int, slot as int) & 1 == 0 ==> count_free(
                old(palloc).descs(),
            ) >= 1,
            old(palloc).spec_alloc_start() + old(palloc).spec_num_pages() * PAGE_SIZE
                < 0x100_0000_0000_0000,
        ensures
            final(self).wf(),
            final(palloc).wf(),
            final(self).linked(*final(palloc)),
            final(palloc).spec_heap_start() == old(palloc).spec_heap_start(),
            final(palloc).spec_heap_size() == old(palloc).spec_heap_size(),
            final(palloc).spec_num_pages() == old(palloc).spec_num_pages(),
            final(palloc).spec_alloc_start() == old(palloc).spec_alloc_start(),
            count_free(final(palloc).descs()) >= count_free(old(palloc).descs()) - 1,
            c < final(self).spec_tables().len(),
            final(self).spec_tables().len() >= old(self).spec_tables().len(),
            forall|x: int|
                0 <= x < old(self).spec_addrs().len() ==> (#[trigger] final(self).spec_addrs()[x])
                    == old(self).spec_addrs()[x],
            final(self).spec_addrs().len() == final(self).spec_tables().len(),
            spec_interior(final(self).entry_at(t as int, slot as int)),
            spec_decode(final(self).entry_at(t as int, slot as int)) == final(self).spec_addrs()[c as int],
            c as int != t as int,
            c != 0,
            forall|t2: int, e2: int|
                0 <= t2 < old(self).spec_tables().len() && 0 <= e2 < 512 && !(t2 == t as int && e2
                    == slot as int) ==> final(self).entry_at(t2, e2) == old(self).entry_at(t2, e2),
            forall|t2: int, e2: int|
                old(self).spec_tables().len() <= t2 < final(self).spec_tables().len() && 0 <= e2
                    < 512 ==> final(self).entry_at(t2, e2) == 0,
            old(self).entry_at(t as int, slot as int) & 1 != 0 ==> *final(self) == *old(self)
                && *final(palloc) == *old(palloc),
            old(self).entry_at(t as int, slot as int) & 1 == 0 ==> c as int == old(self).spec_tables().len() && final(self).spec_tables().len() == old(self).spec_tables().len() + 1,
    {
        let en: Entry = self.tables[t].entries[slot];
        if en.is_valid() {
            let addr: usize = ((en.get_entry() & !0x3ff) << 2) as usize;
            proof {
                assert(spec_interior(old(self).entry_at(t as int, slot as int)));
                assert(addr == spec_decode(old(self).entry_at(t as int, slot as int)));
            }
            let c: usize = self.find_child(addr);
            c
        } else {
            let ghost descs0 = palloc.descs();
            let ghost fit = find_fit(descs0, 1);
            proof {
                lemma_free_page_fit(descs0);
            }
            let addr: usize = palloc.zero_alloc(1);
            proof {
                let i = fit->Some_0;
                lemma_find_fit_from_sound(descs0, 1, 0, i);
                lemma_count_free_marked(descs0, palloc.descs(), i, 1);
                lemma_alloc_result_aligned(*old(palloc), 1, i);
                assert(addr < 0x100_0000_0000_0000);
                assert forall|x: int|
                    0 <= x < self.spec_addrs().len() implies (#[trigger] self.spec_addrs()[x])
                    != addr by {
                    let j = choose|j: int|
                        0 <= j < descs0.len() && self.spec_addrs()[x] == old(palloc).spec_alloc_start() + j * PAGE_SIZE && descs0[j].spec_taken();
                    assert(j != i);
                }
            }
            let new_idx: usize = self.tables.len();
            let table = zeroed_table();
            self.tables.push(table);
            self.addrs.push(addr);
            let entry_val: i64 = ((addr as i64) >> 2) | EntryBits::Valid.val();
            proof {
                lemma_encode_interior(addr);
            }
            self.tables[t].entries[slot] = Entry { entry: entry_val };
            proof {
                let f = *self;
                let pre = *old(self);
                assert(0i64 & 1 == 0 && 0i64 & 0xE == 0) by (bit_vector);
                assert(f.entry_at(t as int, slot as int) == entry_val);
                assert(spec_decode(entry_val) == addr);
                assert(f.spec_addrs()[new_idx as int] == addr);
                assert(f.has_child(addr));
                assert forall|x: int|
                    0 <= x < pre.spec_addrs().len() implies (#[trigger] f.spec_addrs()[x])
                    != addr by {
                    assert(f.spec_addrs()[x] == pre.spec_addrs()[x]);
                }
                // every interior entry other than the new one already resolved
                // to a pre-existing frame
                assert forall|t2: int, e2: int|
                    0 <= t2 < f.spec_tables().len() && 0 <= e2 < 512 && spec_interior(
                        #[trigger] f.entry_at(t2, e2),
                    ) && !(t2 == t as int && e2 == slot as int) implies exists|cx: int|
                    0 <= cx < pre.spec_addrs().len() && pre.spec_addrs()[cx] == spec_decode(
                    f.entry_at(t2, e2),
                ) by {
                    assert(t2 < pre.spec_tables().len());
                    assert(f.entry_at(t2, e2) == pre.entry_at(t2, e2));
                    assert(pre.has_child(spec_decode(pre.entry_at(t2, e2))));
                }
                assert forall|t2: int, e2: int|
                    0 <= t2 < f.spec_tables().len() && 0 <= e2 < 512 && spec_interior(
                        #[trigger] f.entry_at(t2, e2),
                    ) implies f.has_child(spec_decode(f.entry_at(t2, e2))) && spec_decode(
                    f.entry_at(t2, e2),
                ) != f.spec_addrs()[0] && spec_decode(f.entry_at(t2, e2))
                    != f.spec_addrs()[t2] by {
                    if t2 == t as int && e2 == slot as int {
                        assert(f.spec_addrs()[new_idx as int] == addr);
                    } else if t2 >= pre.spec_tables().len() {
                        assert(f.entry_at(t2, e2) == 0);
                    } else {
                        assert(f.entry_at(t2, e2) == pre.entry_at(t2, e2));
                        assert(spec_interior(pre.entry_at(t2, e2)));
                        let d = spec_decode(f.entry_at(t2, e2));
                        assert(d != pre.spec_addrs()[0] && d != pre.spec_addrs()[t2]);
                        let cx = choose|cx: int|
                            0 <= cx < pre.spec_addrs().len() && pre.spec_addrs()[cx] == d;
                        assert(f.spec_addrs()[cx] == d);
                        assert(d != addr);
                        assert(f.spec_addrs()[0] == pre.spec_addrs()[0]);
                        assert(f.spec_addrs()[t2] == pre.spec_addrs()[t2]);
                    }
                }
                assert forall|t1: int, e1: int, t2: int, e2: int|
                    0 <= t1 < f.spec_tables().len() && 0 <= e1 < 512 && 0 <= t2
                        < f.spec_tables().len() && 0 <= e2 < 512 && spec_interior(
                        #[trigger] f.entry_at(t1, e1),
                    ) && spec_interior(#[trigger] f.entry_at(t2, e2)) && spec_decode(
                        f.entry_at(t1, e1),
                    ) == spec_decode(f.entry_at(t2, e2)) implies t1 == t2 && e1 == e2 by {
                    if t1 == t as int && e1 == slot as int {
                        if !(t2 == t as int && e2 == slot as int) {
                            let d = spec_decode(f.entry_at(t2, e2));
                            let cx = choose|cx: int|
                                0 <= cx < pre.spec_addrs().len() && pre.spec_addrs()[cx] == d;
                            assert(f.spec_addrs()[cx] == d);
                            assert(d != addr);
                        }
                    } else if t2 == t as int && e2 == slot as int {
                        let d = spec_decode(f.entry_at(t1, e1));
                        let cx = choose|cx: int|
                            0 <= cx < pre.spec_addrs().len() && pre.spec_addrs()[cx] == d;
                        assert(f.spec_addrs()[cx] == d);
                        assert(d != addr);
                    } else if t1 >= pre.spec_tables().len() || t2 >= pre.spec_tables().len() {
                        if t1 >= pre.spec_tables().len() {
                            assert(f.entry_at(t1, e1) == 0);
                        }
                        if t2 >= pre.spec_tables().len() {
                            assert(f.entry_at(t2, e2) == 0);
                        }
                    } else {
                        assert(f.entry_at(t1, e1) == pre.entry_at(t1, e1));
                        assert(f.entry_at(t2, e2) == pre.entry_at(t2, e2));
                    }
                }
                assert(f.wf());
                let pnow = *palloc;
                assert forall|x: int|
                    0 <= x < f.spec_addrs().len() implies backed_by(
                    pnow,
                    #[trigger] f.spec_addrs()[x],
                ) by {
                    let i = fit->Some_0;
                    if x < pre.spec_addrs().len() {
                        assert(backed_by(*old(palloc), pre.spec_addrs()[x]));
                        let j = choose|j: int|
                            0 <= j < descs0.len() && pre.spec_addrs()[x] == old(palloc).spec_alloc_start() + j * PAGE_SIZE && (
                            #[trigger] descs0[j]).spec_taken();
                        assert(0 <= j < pnow.descs().len() && f.spec_addrs()[x]
                            == pnow.spec_alloc_start() + j * PAGE_SIZE && pnow.descs()[
                            j].spec_taken());
                    } else {
                        assert(0 <= i < pnow.descs().len() && f.spec_addrs()[x]
                            == pnow.spec_alloc_start() + i * PAGE_SIZE && pnow.descs()[
                            i].spec_taken());
                    }
                }
                assert(f.linked(pnow));
            }
            new_idx
        }
    }
}

impl Sv39 {
    /// Install a leaf mapping for `va -> pa` at `level` (0 maps one 4 KiB
    /// page), allocating interior tables from `palloc` on demand.
    pub fn mapping(
        &mut self,
        palloc: &mut PageAllocator,
        va: usize,
        pa: usize,
        bits: i64,
        level: usize,
    )
        requires
            old(self).wf(),
            old(palloc).wf(),
            old(self).linked(*old(palloc)),
            bits & 0xE != 0,
            0 <= bits < 1024,
            level <= 2,
            pa < 0x100_0000_0000_0000,
            old(palloc).spec_alloc_start() + old(palloc).spec_num_pages() * PAGE_SIZE
                < 0x100_0000_0000_0000,
            count_free(old(palloc).descs()) >= 2 - level,
            old(self).path_ok(0, va, 2, level as int),
        ensures
            final(self).wf(),
            final(palloc).wf(),
            final(self).linked(*final(palloc)),
            final(palloc).spec_heap_start() == old(palloc).spec_heap_start(),
            final(palloc).spec_heap_size() == old(palloc).spec_heap_size(),
            final(palloc).spec_num_pages() == old(palloc).spec_num_pages(),
            final(palloc).spec_alloc_start() == old(palloc).spec_alloc_start(),
            final(self).spec_addrs()[0] == old(self).spec_addrs()[0],
            count_free(final(palloc).descs()) >= count_free(old(palloc).descs()) - (2 - level),
            final(self).spec_translate(va) == Some(
                spec_leaf_pa(spec_leaf_entry(pa, bits), va, level as int),
            ),
            level == 0 ==> forall|w: usize|
                (w >> 12) == (va >> 12) ==> final(self).spec_translate(w) == Some(
                    ((pa >> 12) << 12) | (w & 0xfff),
                ),
            level == 0 ==> forall|w: usize|
                !(spec_vpn(w, 2) == spec_vpn(va, 2) && spec_vpn(w, 1) == spec_vpn(va, 1)
                    && spec_vpn(w, 0) == spec_vpn(va, 0)) ==> final(self).spec_translate(w) == old(self).spec_translate(w),
            level == 0 ==> forall|w: usize|
                final(self).path_ok(0, w, 2, 0) == old(self).path_ok(0, w, 2, 0),
    {
        proof {
            lemma_vpn_bits(va, va);
        }
        let vpn2: usize = (va >> 30) & 0x1ff;
        let vpn1: usize = (va >> 21) & 0x1ff;
        let vpn0: usize = (va >> 12) & 0x1ff;
        let mut t: usize = 0;
        let ghost s0 = *self;
        let ghost mut s_a = *self;
        let ghost c1: int = 0;
        if level < 2 {
            t = self.step(palloc, 0, vpn2);
            proof {
                c1 = t as int;
                s_a = *self;
            }
            if level < 1 {
                proof {
                    if s0.entry_at(0, vpn2 as int) & 1 != 0 {
                        assert(*self == s0);
                        let d = spec_decode(s0.entry_at(0, vpn2 as int));
                        assert(s0.has_child(d));
                        assert(s0.child_index(d) == c1) by {
                            let cx = s0.child_index(d);
                            assert(s0.spec_addrs()[cx] == d);
                            assert(s0.spec_addrs()[c1] == d);
                        }
                        assert(s0.path_ok(0, va, 2, 0));
                        assert(self.path_ok(c1, va, 1, 0));
                        assert(!(self.entry_at(c1, vpn1 as int) & 1 != 0 && self.entry_at(
                            c1,
                            vpn1 as int,
                        ) & 0xE != 0));
                    } else {
                        assert(self.entry_at(c1, vpn1 as int) == 0);
                        assert(0i64 & 1 == 0 && 0i64 & 0xE == 0) by (bit_vector);
                    }
                }
                let ghost m1 = *self;
                t = self.step(palloc, t, vpn1);
                proof {
                    assert(self.entry_at(0, vpn2 as int) == m1.entry_at(0, vpn2 as int)) by {
                        assert(c1 != 0);
                    }
                }
            }
        }
        let slot: usize = if level == 0 {
            vpn0
        } else if level == 1 {
            vpn1
        } else {
            vpn2
        };
        let ppn2: usize = (pa >> 30) & 0x3ff_ffff;
        let ppn1: usize = (pa >> 21) & 0x1ff;
        let ppn0: usize = (pa >> 12) & 0x1ff;
        let entry_val: i64 = ((ppn2 as i64) << 28) | ((ppn1 as i64) << 19) | ((ppn0 as i64)
            << 10) | bits | EntryBits::Valid.val();
        proof {
            lemma_leaf_entry(pa, bits, va);
        }
        let ghost m2 = *self;
        let ghost c2: int = t as int;
        self.tables[t].entries[slot] = Entry { entry: entry_val };
        proof {
            let f = *self;
            assert(f.entry_at(c2, slot as int) == entry_val);
            assert forall|t2: int, e2: int|
                0 <= t2 < f.spec_tables().len() && 0 <= e2 < 512 && !(t2 == c2 && e2
                    == slot as int) implies f.entry_at(t2, e2) == m2.entry_at(t2, e2) by {}
            assert(f.spec_addrs() == m2.spec_addrs());
            let p = *palloc;
            assert(m2.linked(p));
            assert forall|x: int| 0 <= x < f.spec_addrs().len() implies backed_by(
                p,
                #[trigger] f.spec_addrs()[x],
            ) by {
                assert(f.spec_addrs()[x] == m2.spec_addrs()[x]);
                assert(backed_by(p, m2.spec_addrs()[x]));
            }
            assert(f.linked(p));
            assert(f.wf()) by {
                assert(!spec_interior(entry_val));
                assert forall|t2: int, e2: int|
                    0 <= t2 < f.spec_tables().len() && 0 <= e2 < 512 && spec_interior(
                        #[trigger] f.entry_at(t2, e2),
                    ) implies f.has_child(spec_decode(f.entry_at(t2, e2))) && spec_decode(
                    f.entry_at(t2, e2),
                ) != f.spec_addrs()[0] && spec_decode(f.entry_at(t2, e2))
                    != f.spec_addrs()[t2] by {
                    assert(f.entry_at(t2, e2) == m2.entry_at(t2, e2));
                    assert(spec_interior(m2.entry_at(t2, e2)));
                }
                assert forall|t1: int, e1: int, t2: int, e2: int|
                    0 <= t1 < f.spec_tables().len() && 0 <= e1 < 512 && 0 <= t2
                        < f.spec_tables().len() && 0 <= e2 < 512 && spec_interior(
                        #[trigger] f.entry_at(t1, e1),
                    ) && spec_interior(#[trigger] f.entry_at(t2, e2)) && spec_decode(
                        f.entry_at(t1, e1),
                    ) == spec_decode(f.entry_at(t2, e2)) implies t1 == t2 && e1 == e2 by {
                    assert(f.entry_at(t1, e1) == m2.entry_at(t1, e1));
                    assert(f.entry_at(t2, e2) == m2.entry_at(t2, e2));
                }
            }
            if level == 0 {
                assert forall|w: usize| (w >> 12) == (va >> 12) implies f.spec_translate(w)
                    == Some::<usize>(((pa >> 12) << 12) | (w & 0xfff)) by {
                    lemma_vpn_bits(va, w);
                    lemma_leaf_entry(pa, bits, w);
                    // the root entry still points at the level-1 table
                    let en2 = f.entry_at(0, spec_vpn(w, 2));
                    assert(en2 == f.entry_at(0, vpn2 as int));
                    assert(spec_interior(en2) && spec_decode(en2) == f.spec_addrs()[c1]) by {
                        assert(c2 != 0);
                        assert(f.entry_at(0, vpn2 as int) == m2.entry_at(0, vpn2 as int));
                    }
                    assert(f.has_child(spec_decode(en2)));
                    assert(f.child_index(spec_decode(en2)) == c1) by {
                        let cx = f.child_index(spec_decode(en2));
                        assert(f.spec_addrs()[cx] == spec_decode(en2));
                    }
                    let en1 = f.entry_at(c1, spec_vpn(w, 1));
                    assert(en1 == f.entry_at(c1, vpn1 as int));
                    assert(spec_interior(en1) && spec_decode(en1) == f.spec_addrs()[c2]) by {
                        assert(f.entry_at(c1, vpn1 as int) == m2.entry_at(c1, vpn1 as int));
                    }
                    assert(f.has_child(spec_decode(en1)));
                    assert(f.child_index(spec_decode(en1)) == c2) by {
                        let cx = f.child_index(spec_decode(en1));
                        assert(f.spec_addrs()[cx] == spec_decode(en1));
                    }
                    let en0 = f.entry_at(c2, spec_vpn(w, 0));
                    assert(en0 == entry_val);
                    assert(f.spec_translate_at(c2, w, 0) == Some::<usize>(
                        spec_leaf_pa(entry_val, w, 0),
                    ));
                    assert(spec_leaf_pa(entry_val, w, 0) == (((pa >> 12) << 12) | (w & 0xfff)));
                    assert(f.spec_translate_at(c1, w, 1) == f.spec_translate_at(c2, w, 0));
                    assert(f.spec_translate_at(0, w, 2) == f.spec_translate_at(c1, w, 1));
                }
                // frame: the first step changed no translation or path
                assert forall|w: usize|
                    s_a.spec_translate(w) == s0.spec_translate(w) && s_a.path_ok(0, w, 2, 0)
                        == s0.path_ok(0, w, 2, 0) by {
                    if s0.entry_at(0, vpn2 as int) & 1 != 0 {
                        assert(s_a == s0);
                    } else {
                        assert forall|x: int|
                            0 <= x < s0.spec_addrs().len() implies (#[trigger] s0.spec_addrs()[x])
                            != s_a.spec_addrs()[c1] by {
                            assert(s_a.spec_addrs()[x] == s0.spec_addrs()[x]);
                        }
                        lemma_step_frame_at(s0, s_a, 0, vpn2 as int, c1, 0, w, 2);
                    }
                }
                // frame: the second step likewise
                assert forall|w: usize|
                    m2.spec_translate(w) == s_a.spec_translate(w) && m2.path_ok(0, w, 2, 0)
                        == s_a.path_ok(0, w, 2, 0) by {
                    if s_a.entry_at(c1, vpn1 as int) & 1 != 0 {
                        assert(m2 == s_a);
                    } else {
                        assert forall|x: int|
                            0 <= x < s_a.spec_addrs().len() implies (
                            #[trigger] s_a.spec_addrs()[x]) != m2.spec_addrs()[c2] by {
                            assert(m2.spec_addrs()[x] == s_a.spec_addrs()[x]);
                        }
                        lemma_step_frame_at(s_a, m2, c1, vpn1 as int, c2, 0, w, 2);
                    }
                }
                // frame: the leaf write touches only its own triple
                assert forall|w: usize|
                    (!(spec_vpn(w, 2) == spec_vpn(va, 2) && spec_vpn(w, 1) == spec_vpn(va, 1)
                        && spec_vpn(w, 0) == spec_vpn(va, 0)) ==> f.spec_translate(w)
                        == m2.spec_translate(w)) && f.path_ok(0, w, 2, 0) == m2.path_ok(
                        0,
                        w,
                        2,
                        0,
                    ) by {
                    lemma_vpn_bits(va, va);
                    assert(spec_interior(m2.entry_at(0, vpn2 as int)) && spec_decode(
                        m2.entry_at(0, vpn2 as int),
                    ) == m2.spec_addrs()[c1]) by {
                        assert(c2 != 0);
                    }
                    lemma_leaf_frame(m2, f, c2, vpn0 as int, c1, vpn2 as int, vpn1 as int, w);
                }
            }
            assert(entry_val == spec_leaf_entry(pa, bits));
            if level == 2 {
                assert(f.entry_at(0, spec_vpn(va, 2)) == entry_val);
                assert(f.spec_translate_at(0, va, 2) == Some(
                    spec_leaf_pa(entry_val, va, 2),
                ));
            }
            if level == 1 {
                let en2 = f.entry_at(0, spec_vpn(va, 2));
                assert(spec_interior(en2) && spec_decode(en2) == f.spec_addrs()[c1]) by {
                    assert(c2 == c1 && c1 != 0);
                    assert(f.entry_at(0, vpn2 as int) == m2.entry_at(0, vpn2 as int));
                }
                assert(f.has_child(spec_decode(en2)));
                assert(f.child_index(spec_decode(en2)) == c1) by {
                    let cx = f.child_index(spec_decode(en2));
                    assert(f.spec_addrs()[cx] == spec_decode(en2));
                }
                assert(f.entry_at(c1, spec_vpn(va, 1)) == entry_val);
                assert(f.spec_translate_at(c1, va, 1) == Some(
                    spec_leaf_pa(entry_val, va, 1),
                ));
                assert(f.spec_translate_at(0, va, 2) == f.spec_translate_at(c1, va, 1));
            }
            if level == 0 {
                assert(f.spec_translate(va) == Some(spec_leaf_pa(entry_val, va, 0)));
            }
        }
    }

    /// Whether a 4 KiB mapping for `va` may be installed: the walk meets no
    /// superpage leaf above the bottom level.
    pub fn path_clear(&self, va: usize) -> (r: bool)
        requires
            self.wf(),
        ensures
            r == self.path_ok(0, va, 2, 0),
    {
        proof {
            lemma_vpn_bits(va, va);
        }
        let vpn2: usize = (va >> 30) & 0x1ff;
        let vpn1: usize = (va >> 21) & 0x1ff;
        let en2: Entry = self.tables[0].entries[vpn2];
        if !en2.is_valid() {
            return true;
        }
        if en2.is_leaf() {
            return false;
        }
        proof {
            assert(spec_interior(self.entry_at(0, spec_vpn(va, 2))));
        }
        let addr2: usize = ((en2.get_entry() & !0x3ff) << 2) as usize;
        proof {
            assert(addr2 == spec_decode(self.entry_at(0, spec_vpn(va, 2))));
            assert(self.has_child(addr2));
        }
        let t: usize = self.find_child(addr2);
        let ghost c1 = t as int;
        proof {
            assert(self.path_ok(0, va, 2, 0) == self.path_ok(c1, va, 1, 0));
        }
        let en1: Entry = self.tables[t].entries[vpn1];
        if !en1.is_valid() {
            return true;
        }
        if en1.is_leaf() {
            return false;
        }
        proof {
            assert(spec_interior(self.entry_at(c1, spec_vpn(va, 1))));
            let d = spec_decode(self.entry_at(c1, spec_vpn(va, 1)));
            assert(self.has_child(d));
            assert(self.path_ok(self.child_index(d), va, 0, 0));
        }
        true
    }

    /// Walk the tables for `va`: `None` on an invalid entry, the translated
    /// physical address when a leaf is found at any level.
    pub fn translate(&self, va: usize) -> (r: Option<usize>)
        requires
            self.wf(),
        ensures
            r == self.spec_translate(va),
    {
        proof {
            lemma_vpn_bits(va, va);
        }
        let vpn2: usize = (va >> 30) & 0x1ff;
        let vpn1: usize = (va >> 21) & 0x1ff;
        let vpn0: usize = (va >> 12) & 0x1ff;
        let mut t: usize = 0;
        let en2: Entry = self.tables[t].entries[vpn2];
        if !en2.is_valid() {
            return None;
        }
        if en2.is_leaf() {
            proof {
                assert((1usize << ((12 + 2 * 9) as usize)) == (1usize << 30) && (1usize << 30)
                    >= 1) by (bit_vector);
            }
            let offset: usize = (1usize << 30) - 1;
            return Some((((en2.get_entry() << 2) as usize) & !offset) | (va & offset));
        }
        let addr2: usize = ((en2.get_entry() & !0x3ff) << 2) as usize;
        t = self.find_child(addr2);
        let ghost c1 = t as int;
        let en1: Entry = self.tables[t].entries[vpn1];
        proof {
            assert(self.spec_translate(va) == self.spec_translate_at(c1, va, 1));
        }
        if !en1.is_valid() {
            return None;
        }
        if en1.is_leaf() {
            proof {
                assert((1usize << ((12 + 1 * 9) as usize)) == (1usize << 21) && (1usize << 21)
                    >= 1) by (bit_vector);
            }
            let offset: usize = (1usize << 21) - 1;
            return Some((((en1.get_entry() << 2) as usize) & !offset) | (va & offset));
        }
        let addr1: usize = ((en1.get_entry() & !0x3ff) << 2) as usize;
        t = self.find_child(addr1);
        let ghost c2 = t as int;
        let en0: Entry = self.tables[t].entries[vpn0];
        proof {
            assert(self.spec_translate_at(c1, va, 1) == self.spec_translate_at(c2, va, 0));
        }
        if !en0.is_valid() {
            return None;
        }
        if en0.is_leaf() {
            proof {
                assert((1usize << ((12 + 0 * 9) as usize)) == (1usize << 12) && (1usize << 12)
                    >= 1) by (bit_vector);
            }
            let offset: usize = (1usize << 12) - 1;
            return Some((((en0.get_entry() << 2) as usize) & !offset) | (va & offset));
        }
        None
    }
}

fn zeroed_table() -> (t: Table)
    ensures
        t.wf(),
        forall|e: int| 0 <= e < 512 ==> t.entries@[e].entry == 0,
{
    let mut entries: Vec<Entry> = Vec::new();
    let mut i: usize = 0;
    while i < 512
        invariant
            i <= 512,
            entries@.len() == i,
            forall|e: int| 0 <= e < i ==> entries@[e].entry == 0,
        decreases 512 - i,
    {
        entries.push(Entry { entry: 0 });
        i += 1;
    }
    Table { entries }
}

} // verus!
