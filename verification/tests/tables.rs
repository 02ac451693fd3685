use rvmem::page::{PageAllocator, PAGE_SIZE};
use rvmem::kmem::Kmem;
use rvmem::sv39::{Entry, EntryBits, Sv39, Table};
use rvmem::{id_map_range, kinit, KernelLayout};

const HEAP_START: usize = 0x8100_0000;

fn fresh_tables() -> (PageAllocator, Sv39) {
    let mut pa = PageAllocator::init(HEAP_START, 256 * PAGE_SIZE);
    let km = Kmem::init(&mut pa);
    let root = Sv39::new_root_for(&pa, km.get_page_table());
    (pa, root)
}

#[test]
fn entry_bits_values() {
    assert_eq!(EntryBits::Empty.val(), 0);
    assert_eq!(EntryBits::Valid.val(), 1);
    assert_eq!(EntryBits::Read.val(), 2);
    assert_eq!(EntryBits::Write.val(), 4);
    assert_eq!(EntryBits::Execute.val(), 8);
    assert_eq!(EntryBits::ReadWrite.val(), 6);
    assert_eq!(EntryBits::ReadExecute.val(), 10);
    assert_eq!(EntryBits::UserReadWriteExecute.val(), 30);
}

#[test]
fn entry_valid_and_leaf_flags() {
    let mut e = Entry { entry: 0 };
    assert!(!e.is_valid());
    assert!(!e.is_leaf());
    e.set_entry(1);
    assert!(e.is_valid());
    assert!(!e.is_leaf());
    e.set_entry(1 | 6);
    assert!(e.is_valid());
    assert!(e.is_leaf());
    assert_eq!(e.get_entry(), 7);
    assert_eq!(Table::len(), 512);
}

#[test]
fn translate_inverts_map() {
    let (mut pa, mut root) = fresh_tables();
    root.mapping(&mut pa, 0x8000_0000, 0x9000_0000, EntryBits::ReadWrite.val(), 0);
    assert_eq!(root.translate(0x8000_0abc), Some(0x9000_0abc));
    assert_eq!(root.translate(0x8000_0000), Some(0x9000_0000));
    assert_eq!(root.translate(0x8000_0fff), Some(0x9000_0fff));
}

#[test]
fn translate_misses_unmapped_addresses() {
    let (mut pa, mut root) = fresh_tables();
    assert_eq!(root.translate(0x8000_0000), None);
    root.mapping(&mut pa, 0x8000_0000, 0x9000_0000, EntryBits::ReadWrite.val(), 0);
    // a sibling page in the same bottom table
    assert_eq!(root.translate(0x8000_1000), None);
    // a different top-level slot
    assert_eq!(root.translate(0x4000_0000), None);
}

#[test]
fn identity_range_maps_every_page() {
    let (mut pa, mut root) = fresh_tables();
    id_map_range(&mut root, &mut pa, 0x1000_0000, 0x1000_1000, EntryBits::ReadWrite.val());
    assert_eq!(root.translate(0x1000_0000), Some(0x1000_0000));
    assert_eq!(root.translate(0x2000_0000), None);
}

#[test]
fn identity_range_rounds_to_page_boundaries() {
    let (mut pa, mut root) = fresh_tables();
    id_map_range(&mut root, &mut pa, 0x1000_0800, 0x1000_2800, EntryBits::ReadWrite.val());
    assert_eq!(root.translate(0x1000_0000), Some(0x1000_0000));
    assert_eq!(root.translate(0x1000_1000), Some(0x1000_1000));
    assert_eq!(root.translate(0x1000_2000), Some(0x1000_2000));
    assert_eq!(root.translate(0x1000_3000), None);
}

#[test]
fn superpage_leaf_honoured_on_read() {
    let (mut pa, mut root) = fresh_tables();
    // install a 2 MiB leaf one level above the bottom
    root.mapping(&mut pa, 0x4020_0000, 0x8020_0000, EntryBits::ReadWrite.val(), 1);
    assert_eq!(root.translate(0x4020_0000), Some(0x8020_0000));
    assert_eq!(root.translate(0x4020_5678), Some(0x8020_5678));
    assert_eq!(root.translate(0x4030_5678), Some(0x8030_5678));
}

fn test_layout() -> KernelLayout {
    KernelLayout {
        text_start: 0x8000_0000,
        text_end: 0x8000_4000,
        rodata_start: 0x8000_4000,
        rodata_end: 0x8000_6000,
        data_start: 0x8000_6000,
        data_end: 0x8000_8000,
        bss_start: 0x8000_8000,
        bss_end: 0x8000_a000,
        stack_start: 0x8000_a000,
        stack_end: 0x8001_2000,
        heap_start: HEAP_START,
        heap_size: 1024 * PAGE_SIZE,
    }
}

#[test]
fn kinit_returns_sv39_token() {
    let (kernel, satp) = kinit(test_layout());
    let root_addr = kernel.kmem.get_page_table();
    assert_eq!(satp, ((root_addr as u64) >> 12) | (8u64 << 60));
    assert_eq!(satp >> 60, 8);
}

#[test]
fn kinit_identity_maps_kernel_regions() {
    let (kernel, _satp) = kinit(test_layout());
    // text, data, stack
    assert_eq!(kernel.root.translate(0x8000_0000), Some(0x8000_0000));
    assert_eq!(kernel.root.translate(0x8000_6123), Some(0x8000_6123));
    assert_eq!(kernel.root.translate(0x8001_1fff), Some(0x8001_1fff));
    // the kmalloc arena
    let head = kernel.kmem.get_head();
    assert_eq!(kernel.root.translate(head), Some(head));
    assert_eq!(kernel.root.translate(head + 63 * PAGE_SIZE), Some(head + 63 * PAGE_SIZE));
    // UART, CLINT and PLIC windows
    assert_eq!(kernel.root.translate(0x1000_0005), Some(0x1000_0005));
    assert_eq!(kernel.root.translate(0x0200_0000), Some(0x0200_0000));
    assert_eq!(kernel.root.translate(0x0200_b000), Some(0x0200_b000));
    assert_eq!(kernel.root.translate(0x0200_c000), Some(0x0200_c000));
    assert_eq!(kernel.root.translate(0x0c00_1000), Some(0x0c00_1000));
    assert_eq!(kernel.root.translate(0x0c20_7000), Some(0x0c20_7000));
    // something never mapped
    assert_eq!(kernel.root.translate(0x7000_0000), None);
}
