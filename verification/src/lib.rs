//! Memory management core of a small Sv39 (RISC-V) kernel: a page-frame
//! allocator over a fixed heap region, a byte-granular kernel allocator
//! layered on 64 of those pages, and a three-level page-table manager that
//! identity-maps the kernel's own regions at boot.
use vstd::prelude::*;

pub mod kmem;
pub mod page;
pub mod sv39;
pub mod uart;

use crate::page::{PageAllocator, PAGE_SIZE, PAGE_ORDER, align_val, count_free, find_fit};
use crate::kmem::{Kmem, ARENA_SIZE};
use crate::sv39::{Sv39, EntryBits};

verus! {

/// Number of 4 KiB pages that an identity mapping of `[start, end)` covers:
/// `start` rounded down to a page, `end` rounded up.
pub open spec fn spec_range_pages(start: usize, end: usize) -> int {
    (((end + 4095) / 4096) * 4096 - (start / 4096) * 4096) / 4096
}

/// Identity-map every page of `[start, end)` (`start` rounded down, `end`
/// rounded up) with the given permission bits, one 4 KiB leaf per page.
/// Pages whose walk meets a superpage leaf are left as they are.
#[verifier::loop_isolation(false)]
pub fn id_map_range(
    root: &mut Sv39,
    palloc: &mut PageAllocator,
    start: usize,
    end: usize,
    bits: i64,
)
    requires
        old(root).wf(),
        old(palloc).wf(),
        old(root).linked(*old(palloc)),
        bits & 0xE != 0,
        0 <= bits < 1024,
        start <= end,
        end + PAGE_SIZE <= usize::MAX,
        end + PAGE_SIZE <= 0x80_0000_0000,
        old(palloc).spec_alloc_start() + old(palloc).spec_num_pages() * PAGE_SIZE
            < 0x100_0000_0000_0000,
        count_free(old(palloc).descs()) >= 2 * spec_range_pages(start, end),
        forall|w: usize| old(root).path_ok(0, w, 2, 0),
    ensures
        final(root).wf(),
        final(palloc).wf(),
        final(root).linked(*final(palloc)),
        final(palloc).spec_heap_start() == old(palloc).spec_heap_start(),
        final(palloc).spec_heap_size() == old(palloc).spec_heap_size(),
        final(palloc).spec_num_pages() == old(palloc).spec_num_pages(),
        final(palloc).spec_alloc_start() == old(palloc).spec_alloc_start(),
        final(root).spec_addrs()[0] == old(root).spec_addrs()[0],
        count_free(final(palloc).descs()) >= count_free(old(palloc).descs()) - 2
            * spec_range_pages(start, end),
        forall|w: usize| final(root).path_ok(0, w, 2, 0),
        forall|w: usize|
            w < 0x80_0000_0000 && (start / 4096) * 4096 <= w < ((end + 4095) / 4096) * 4096
                ==> final(root).spec_translate(w) == Some(w),
        forall|w: usize|
            w < 0x80_0000_0000 && !((start / 4096) * 4096 <= w < ((end + 4095) / 4096) * 4096)
                ==> final(root).spec_translate(w) == old(root).spec_translate(w),
{
    let mut memaddr: usize = start & !(PAGE_SIZE - 1);
    proof {
        assert(start & !4095usize == (start / 4096) * 4096) by (bit_vector);
        assert((1usize << 12usize) == 4096) by (bit_vector);
    }
    let aligned_end: usize = align_val(end, PAGE_ORDER);
    proof {
        assert(aligned_end == ((end + 4095) / 4096) * 4096) by {
            vstd::arithmetic::div_mod::lemma_fundamental_div_mod(end as int + 4095, 4096);
            vstd::arithmetic::div_mod::lemma_fundamental_div_mod(aligned_end as int, 4096);
        }
    }
    let num_pages: usize = (aligned_end - memaddr) / PAGE_SIZE;
    proof {
        vstd::arithmetic::div_mod::lemma_fundamental_div_mod(
            aligned_end as int - memaddr as int,
            4096,
        );
    }
    let ghost count0 = count_free(palloc.descs());
    let ghost base = memaddr;
    proof {
        vstd::arithmetic::div_mod::lemma_mod_multiples_basic(start as int / 4096, 4096);
        assert(base % 4096 == 0);
        vstd::arithmetic::div_mod::lemma_fundamental_div_mod(
            aligned_end as int - memaddr as int,
            4096,
        );
        assert(aligned_end == base + num_pages * 4096);
    }
    let mut i: usize = 0;
    while i < num_pages
        invariant
            i <= num_pages,
            memaddr == (start / 4096) * 4096 + i * 4096,
            root.wf(),
            palloc.wf(),
            root.linked(*palloc),
            palloc.spec_heap_start() == old(palloc).spec_heap_start(),
            palloc.spec_heap_size() == old(palloc).spec_heap_size(),
            palloc.spec_num_pages() == old(palloc).spec_num_pages(),
            palloc.spec_alloc_start() == old(palloc).spec_alloc_start(),
            root.spec_addrs()[0] == old(root).spec_addrs()[0],
            count_free(palloc.descs()) >= count0 - 2 * i,
            memaddr == base + i * 4096,
            memaddr % 4096 == 0,
            forall|w: usize| root.path_ok(0, w, 2, 0),
            forall|w: usize|
                w < 0x80_0000_0000 && base <= w < memaddr ==> root.spec_translate(w) == Some(w),
            forall|w: usize|
                w < 0x80_0000_0000 && !(base <= w < memaddr) ==> root.spec_translate(w) == old(
                    root,
                ).spec_translate(w),
        decreases num_pages - i,
    {
        let ghost r_prev = *root;
        if root.path_clear(memaddr) {
            root.mapping(palloc, memaddr, memaddr, bits, 0);
        }
        proof {
            assert forall|w: usize| w < 0x80_0000_0000 && base <= w < memaddr + 4096 implies
                root.spec_translate(w) == Some(w) by {
                crate::sv39::lemma_page_bounds(w, memaddr);
                if memaddr <= w {
                    assert(root.spec_translate(w) == Some(((memaddr >> 12) << 12) | (w & 0xfff)));
                    assert(((memaddr >> 12) << 12) | (w & 0xfff) == ((w >> 12) << 12) | (w
                        & 0xfff));
                } else {
                    assert(root.spec_translate(w) == r_prev.spec_translate(w));
                }
            }
            assert forall|w: usize| w < 0x80_0000_0000 && !(base <= w < memaddr + 4096) implies
                root.spec_translate(w) == old(root).spec_translate(w) by {
                crate::sv39::lemma_page_bounds(w, memaddr);
                crate::sv39::lemma_page_bounds(base, memaddr);
                assert(root.spec_translate(w) == r_prev.spec_translate(w));
            }
            assert forall|w: usize| root.path_ok(0, w, 2, 0) by {
                assert(r_prev.path_ok(0, w, 2, 0));
            }
        }
        memaddr = memaddr + PAGE_SIZE;
        i += 1;
    }
}

/// The linker-provided bounds of the kernel's sections and heap.
#[derive(Clone, Copy)]
pub struct KernelLayout {
    pub text_start: usize,
    pub text_end: usize,
    pub rodata_start: usize,
    pub rodata_end: usize,
    pub data_start: usize,
    pub data_end: usize,
    pub bss_start: usize,
    pub bss_end: usize,
    pub stack_start: usize,
    pub stack_end: usize,
    pub heap_start: usize,
    pub heap_size: usize,
}

/// The memory subsystems after boot, plus the root table.
pub struct Kernel {
    pub palloc: PageAllocator,
    pub kmem: Kmem,
    pub root: Sv39,
}

/// Every address of `[start, end)`, widened to page boundaries, translates
/// to itself under `root`.
pub open spec fn identity_mapped(root: Sv39, start: usize, end: usize) -> bool {
    forall|w: usize|
        w < 0x80_0000_0000 && (start / 4096) * 4096 <= w < ((end + 4095) / 4096) * 4096
            ==> #[trigger] root.spec_translate(w) == Some(w)
}

/// A section's bounds are ordered and small enough to identity-map.
pub open spec fn range_ok(start: usize, end: usize) -> bool {
    start <= end && end + PAGE_SIZE <= usize::MAX && end + PAGE_SIZE <= 0x80_0000_0000
}

/// Free pages that booting consumes at most: 65 for the arena and root
/// table, then two per mapped page.
pub open spec fn spec_boot_budget(l: KernelLayout) -> int {
    65 + 2 * (64 + spec_range_pages(
        l.heap_start,
        (l.heap_start + l.heap_size / 4096) as usize,
    ) + spec_range_pages(l.text_start, l.text_end) + spec_range_pages(
        l.rodata_start,
        l.rodata_end,
    ) + spec_range_pages(l.data_start, l.data_end) + spec_range_pages(l.bss_start, l.bss_end)
        + spec_range_pages(l.stack_start, l.stack_end) + 4 + spec_range_pages(
        0x0c00_0000,
        0x0c00_2000,
    ) + spec_range_pages(0x0c20_0000, 0x0c20_8000))
}

/// One-shot bootstrap: initialize the page-frame allocator and the byte
/// allocator, then identity-map the arena, the page descriptors, the kernel
/// sections, the stack and the MMIO windows into the root table, and return
/// the Sv39 `SATP` token for it.
#[verifier::rlimit(100)]
pub fn kinit(l: KernelLayout) -> (r: (Kernel, u64))
    requires
        l.heap_start + l.heap_size + l.heap_size + PAGE_SIZE <= usize::MAX,
        l.heap_start + l.heap_size + l.heap_size + PAGE_SIZE < 0x80_0000_0000,
        l.heap_size / (PAGE_SIZE as usize) >= spec_boot_budget(l),
        range_ok(l.text_start, l.text_end),
        range_ok(l.rodata_start, l.rodata_end),
        range_ok(l.data_start, l.data_end),
        range_ok(l.bss_start, l.bss_end),
        range_ok(l.stack_start, l.stack_end),
        range_ok(l.heap_start, (l.heap_start + l.heap_size / 4096) as usize),
        l.heap_start + l.heap_size / 4096 <= usize::MAX,
    ensures
        r.0.palloc.wf(),
        r.0.kmem.wf(),
        r.0.root.wf(),
        r.0.root.linked(r.0.palloc),
        r.0.root.spec_addrs()[0] == r.0.kmem.spec_page_table(),
        r.1 == ((r.0.kmem.spec_page_table() as u64) >> 12) | (8u64 << 60),
        identity_mapped(r.0.root, r.0.kmem.spec_head(), (r.0.kmem.spec_head() + 64
            * PAGE_SIZE) as usize),
        identity_mapped(r.0.root, l.heap_start, (l.heap_start + l.heap_size / 4096) as usize),
        identity_mapped(r.0.root, l.text_start, l.text_end),
        identity_mapped(r.0.root, l.rodata_start, l.rodata_end),
        identity_mapped(r.0.root, l.data_start, l.data_end),
        identity_mapped(r.0.root, l.bss_start, l.bss_end),
        identity_mapped(r.0.root, l.stack_start, l.stack_end),
        identity_mapped(r.0.root, 0x1000_0000, 0x1000_1000),
        identity_mapped(r.0.root, 0x0200_0000, 0x0200_1000),
        identity_mapped(r.0.root, 0x0200_b000, 0x0200_c000),
        identity_mapped(r.0.root, 0x0200_c000, 0x0200_d000),
        identity_mapped(r.0.root, 0x0c00_0000, 0x0c00_2000),
        identity_mapped(r.0.root, 0x0c20_0000, 0x0c20_8000),
{
    let mut palloc = PageAllocator::init(l.heap_start, l.heap_size);
    proof {
        assert(0u8 & 1 == 0 && 0u8 & 2 == 0) by (bit_vector);
        assert(6i64 & 0xE != 0 && 10i64 & 0xE != 0) by (bit_vector);
        assert forall|j: int| 0 <= j < palloc.descs().len() implies !(
        #[trigger] palloc.descs()[j]).spec_taken() by {
            assert(palloc.descs()[j].spec_flags() == 0);
        }
        crate::page::lemma_count_free_all(palloc.descs());
        assert(crate::page::free_run(palloc.descs(), 0, 64));
        assert(find_fit(palloc.descs(), 64) == Some(0int));
    }
    let mut km = Kmem::init(&mut palloc);
    let kheap_head: usize = km.get_head();
    let total_pages: usize = km.get_num_allocations();
    let pt_addr: usize = km.get_page_table();
    proof {
        let j = choose|j: int|
            0 <= j < palloc.descs().len() && km.spec_page_table() == palloc.spec_alloc_start() + j
                * PAGE_SIZE && (#[trigger] palloc.descs()[j]).spec_taken();
        assert(0 <= j < palloc.descs().len() && pt_addr == palloc.spec_alloc_start() + j
            * PAGE_SIZE && palloc.descs()[j].spec_taken());
        assert(crate::sv39::backed_by(palloc, pt_addr));
    }
    let mut root = Sv39::new_root(pt_addr, Ghost(palloc));
    // map the kmalloc arena
    proof {
        vstd::arithmetic::div_mod::lemma_fundamental_div_mod(kheap_head as int, 4096);
        vstd::arithmetic::div_mod::lemma_fundamental_div_mod(
            kheap_head as int + ARENA_SIZE + 4095,
            4096,
        );
        assert(spec_range_pages(kheap_head, (kheap_head + 64 * PAGE_SIZE) as usize) == 64)
            by (nonlinear_arith)
            requires
                kheap_head % 4096 == 0,
                kheap_head + 64 * PAGE_SIZE + PAGE_SIZE <= usize::MAX,
                PAGE_SIZE == 4096,
        ;
    }
    id_map_range(
        &mut root,
        &mut palloc,
        kheap_head,
        kheap_head + total_pages * PAGE_SIZE,
        EntryBits::ReadWrite.val(),
    );
    // map the heap's page-descriptor bytes
    let num_pages: usize = palloc.get_heap_size() / PAGE_SIZE;
    let heap_start: usize = palloc.get_heap_start();
    id_map_range(
        &mut root,
        &mut palloc,
        heap_start,
        heap_start + num_pages,
        EntryBits::ReadWrite.val(),
    );
    // kernel sections
    id_map_range(&mut root, &mut palloc, l.text_start, l.text_end, EntryBits::ReadExecute.val());
    id_map_range(
        &mut root,
        &mut palloc,
        l.rodata_start,
        l.rodata_end,
        EntryBits::ReadExecute.val(),
    );
    id_map_range(&mut root, &mut palloc, l.data_start, l.data_end, EntryBits::ReadWrite.val());
    id_map_range(&mut root, &mut palloc, l.bss_start, l.bss_end, EntryBits::ReadWrite.val());
    id_map_range(&mut root, &mut palloc, l.stack_start, l.stack_end, EntryBits::ReadWrite.val());
    // UART
    map_one(&mut root, &mut palloc, 0x1000_0000);
    // CLINT: MSIP, MTIMECMP, MTIME
    map_one(&mut root, &mut palloc, 0x0200_0000);
    map_one(&mut root, &mut palloc, 0x0200_b000);
    map_one(&mut root, &mut palloc, 0x0200_c000);
    // PLIC
    id_map_range(&mut root, &mut palloc, 0x0c00_0000, 0x0c00_2000, EntryBits::ReadWrite.val());
    id_map_range(&mut root, &mut palloc, 0x0c20_0000, 0x0c20_8000, EntryBits::ReadWrite.val());
    let satp: u64 = ((pt_addr as u64) >> 12) | (8u64 << 60);
    (Kernel { palloc, kmem: km, root }, satp)
}

/// One read-write page mapping for an MMIO register window.
fn map_one(root: &mut Sv39, palloc: &mut PageAllocator, addr: usize)
    requires
        old(root).wf(),
        old(palloc).wf(),
        old(root).linked(*old(palloc)),
        addr % PAGE_SIZE == 0,
        addr + PAGE_SIZE <= 0x80_0000_0000,
        old(palloc).spec_alloc_start() + old(palloc).spec_num_pages() * PAGE_SIZE
            < 0x100_0000_0000_0000,
        count_free(old(palloc).descs()) >= 2,
        forall|w: usize| old(root).path_ok(0, w, 2, 0),
    ensures
        final(root).wf(),
        final(palloc).wf(),
        final(root).linked(*final(palloc)),
        final(palloc).spec_heap_start() == old(palloc).spec_heap_start(),
        final(palloc).spec_heap_size() == old(palloc).spec_heap_size(),
        final(palloc).spec_num_pages() == old(palloc).spec_num_pages(),
        final(palloc).spec_alloc_start() == old(palloc).spec_alloc_start(),
        final(root).spec_addrs()[0] == old(root).spec_addrs()[0],
        count_free(final(palloc).descs()) >= count_free(old(palloc).descs()) - 2,
        forall|w: usize| final(root).path_ok(0, w, 2, 0),
        forall|w: usize|
            w < 0x80_0000_0000 && addr <= w < addr + PAGE_SIZE ==> final(root).spec_translate(w)
                == Some(w),
        forall|w: usize|
            w < 0x80_0000_0000 && !(addr <= w < addr + PAGE_SIZE) ==> final(root).spec_translate(w) == old(root).spec_translate(w),
{
    proof {
        assert(6i64 & 0xE != 0) by (bit_vector);
    }
    let ghost r_prev = *root;
    if root.path_clear(addr) {
        root.mapping(palloc, addr, addr, EntryBits::ReadWrite.val(), 0);
    }
    proof {
        assert forall|w: usize| root.path_ok(0, w, 2, 0) by {
            assert(r_prev.path_ok(0, w, 2, 0));
        }
        assert forall|w: usize| w < 0x80_0000_0000 && addr <= w < addr + PAGE_SIZE implies
            root.spec_translate(w) == Some(w) by {
            crate::sv39::lemma_page_bounds(w, addr);
            assert(root.spec_translate(w) == Some(((addr >> 12) << 12) | (w & 0xfff)));
            assert(((addr >> 12) << 12) | (w & 0xfff) == ((w >> 12) << 12) | (w & 0xfff));
        }
        assert forall|w: usize| w < 0x80_0000_0000 && !(addr <= w < addr + PAGE_SIZE) implies
            root.spec_translate(w) == r_prev.spec_translate(w) by {
            crate::sv39::lemma_page_bounds(w, addr);
        }
    }
}

} // verus!
