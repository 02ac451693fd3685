use rvmem::page::{PageAllocator, Page, PageBits, align_val, PAGE_SIZE};
use rvmem::kmem::{AllocList, AllocListFlags, Kmem, ARENA_SIZE};

const HEAP_START: usize = 0x8000_0000;

fn heap(pages: usize) -> PageAllocator {
    PageAllocator::init(HEAP_START, pages * PAGE_SIZE)
}

#[test]
fn align_val_rounds_up() {
    assert_eq!(align_val(0, 12), 0);
    assert_eq!(align_val(1, 12), 4096);
    assert_eq!(align_val(4096, 12), 4096);
    assert_eq!(align_val(4097, 12), 8192);
    assert_eq!(align_val(24, 3), 24);
    assert_eq!(align_val(25, 3), 32);
}

#[test]
fn page_flags_round_trip() {
    let mut p = Page::default();
    assert!(!p.is_taken());
    assert!(!p.is_last());
    p.set_flag(PageBits::Taken);
    assert!(p.is_taken());
    assert!(!p.is_last());
    p.set_flag(PageBits::Last);
    assert!(p.is_taken());
    assert!(p.is_last());
    p.clear_flag(PageBits::Taken);
    assert!(!p.is_taken());
    assert!(p.is_last());
    p.clear();
    assert!(!p.is_taken());
    assert!(!p.is_last());
    assert_eq!(PageBits::Empty.val(), 0);
    assert_eq!(PageBits::Taken.val(), 1);
    assert_eq!(PageBits::Last.val(), 2);
}

#[test]
fn first_alloc_is_alloc_start() {
    // a 16-page heap: the descriptor array eats the first page
    let mut pa = heap(16);
    assert_eq!(pa.get_alloc_start(), HEAP_START + 4096);
    let first = pa.alloc_pages(1);
    assert_eq!(first, pa.get_alloc_start());
    let second = pa.alloc_pages(1);
    assert_eq!(second, pa.get_alloc_start() + 4096);
}

#[test]
fn first_fit_reuses_freed_run() {
    let mut pa = heap(16);
    let a = pa.alloc_pages(3);
    let b = pa.alloc_pages(1);
    assert_ne!(a, 0);
    assert_ne!(b, 0);
    pa.dealloc(a);
    let c = pa.alloc_pages(2);
    assert_eq!(c, a);
}

#[test]
fn alloc_results_disjoint_and_aligned() {
    let mut pa = heap(16);
    let a = pa.alloc_pages(2);
    let b = pa.alloc_pages(3);
    assert_eq!(a % PAGE_SIZE, 0);
    assert_eq!(b % PAGE_SIZE, 0);
    assert!(a + 2 * PAGE_SIZE <= b || b + 3 * PAGE_SIZE <= a);
}

#[test]
fn alloc_fails_with_null_when_no_run_fits() {
    let mut pa = heap(4);
    // 4 descriptors, frames at alloc_start
    assert_eq!(pa.alloc_pages(5), 0);
    let a = pa.alloc_pages(4);
    assert_ne!(a, 0);
    assert_eq!(pa.alloc_pages(1), 0);
}

#[test]
fn zero_alloc_zeroes_the_run() {
    let mut pa = heap(16);
    let a = pa.alloc_pages(1);
    // dirty a word of the next frame, then free and re-allocate it zeroed
    pa.write_word(a, 0xdead_beef_dead_beef);
    pa.dealloc(a);
    let b = pa.zero_alloc(1);
    assert_eq!(b, a);
    for w in 0..(PAGE_SIZE / 8) {
        assert_eq!(pa.read_word(b + 8 * w), 0);
    }
}

#[test]
fn alloc_list_header_bits() {
    let mut h = AllocList { flags_size: 0 };
    h.set_size(4096);
    assert_eq!(h.get_size(), 4096);
    assert!(h.is_free());
    assert!(!h.is_taken());
    h.set_taken();
    assert!(h.is_taken());
    assert_eq!(h.get_size(), 4096);
    h.set_size(128);
    assert!(h.is_taken());
    assert_eq!(h.get_size(), 128);
    h.set_free();
    assert!(h.is_free());
    assert_eq!(h.get_size(), 128);
    assert_eq!(AllocListFlags::Taken.val(), 1u64 << 63);
}

fn fresh_kmem() -> (PageAllocator, Kmem) {
    let mut pa = heap(128);
    let km = Kmem::init(&mut pa);
    (pa, km)
}

fn arena_sum(km: &Kmem) -> u64 {
    let mut sum: u64 = 0;
    for k in 0..km.chunk_count() {
        sum += km.chunk_size_at(k);
    }
    sum
}

fn arena_layout(km: &Kmem) -> Vec<(u64, bool)> {
    (0..km.chunk_count()).map(|k| (km.chunk_size_at(k), km.chunk_taken_at(k))).collect()
}

#[test]
fn kmem_init_one_free_chunk() {
    let (_pa, km) = fresh_kmem();
    assert_eq!(km.chunk_count(), 1);
    assert_eq!(km.chunk_size_at(0), ARENA_SIZE as u64);
    assert!(!km.chunk_taken_at(0));
    assert_ne!(km.get_head(), 0);
    assert_ne!(km.get_page_table(), 0);
    assert_eq!(km.get_num_allocations(), 64);
}

#[test]
fn two_kmallocs_are_adjacent() {
    let (_pa, mut km) = fresh_kmem();
    let p = km.kmalloc(24);
    let q = km.kmalloc(24);
    assert_ne!(p, 0);
    assert_ne!(q, 0);
    // align_up(24, 8) + header size
    assert_eq!(q - p, 24 + 8);
}

#[test]
fn kfree_then_kmalloc_returns_same_pointer() {
    let (_pa, mut km) = fresh_kmem();
    let p = km.kmalloc(16);
    km.kfree(p);
    let q = km.kmalloc(16);
    assert_eq!(q, p);
}

#[test]
fn arena_sizes_always_sum_to_sixty_four_pages() {
    let (_pa, mut km) = fresh_kmem();
    assert_eq!(arena_sum(&km), 64 * 4096);
    let p = km.kmalloc(100);
    assert_eq!(arena_sum(&km), 64 * 4096);
    let q = km.kzmalloc(1000);
    assert_eq!(arena_sum(&km), 64 * 4096);
    km.kfree(p);
    assert_eq!(arena_sum(&km), 64 * 4096);
    km.kfree(q);
    assert_eq!(arena_sum(&km), 64 * 4096);
}

#[test]
fn coalesce_twice_gives_same_layout() {
    let (_pa, mut km) = fresh_kmem();
    let p = km.kmalloc(40);
    let q = km.kmalloc(40);
    let r = km.kmalloc(40);
    assert!(p != 0 && q != 0 && r != 0);
    km.kfree(q);
    km.coalesce();
    let once = arena_layout(&km);
    km.coalesce();
    let twice = arena_layout(&km);
    assert_eq!(once, twice);
}

#[test]
fn kmalloc_kfree_round_trip_restores_arena() {
    let (_pa, mut km) = fresh_kmem();
    let p = km.kmalloc(64);
    let before = arena_layout(&km);
    let q = km.kmalloc(200);
    km.kfree(q);
    let after = arena_layout(&km);
    assert_eq!(before, after);
    km.kfree(p);
    assert_eq!(arena_layout(&km), vec![(64 * 4096, false)]);
}

#[test]
fn kmalloc_exhaustion_returns_null() {
    let (_pa, mut km) = fresh_kmem();
    let big = km.kmalloc(64 * 4096);
    // the arena cannot fit a chunk larger than itself plus a header
    assert_eq!(big, 0);
    let almost = km.kmalloc(64 * 4096 - 8);
    assert_ne!(almost, 0);
    assert_eq!(km.kmalloc(8), 0);
}
