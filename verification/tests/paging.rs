use nyaux_kt::mem::pmm::{pmm_alloc, pmm_init, SLAB_HEADER_SIZE};
use nyaux_kt::mem::vmm::{PageMap, VMMFlags, KTPRESENT, KTWRITEALLOWED, KTWRITETHROUGH};
use nyaux_kt::mem::{
    MemmapEntry, MemoryManagement, MEMMAP_BAD_MEMORY, MEMMAP_FRAMEBUFFER, MEMMAP_RESERVED, MEMMAP_USABLE,
};

const HHDM: u64 = 0xffff_8000_0000_0000;
const KERNEL_PHYS: u64 = 0x20_0000;
const KERNEL_VIRT: u64 = 0xffff_ffff_8000_0000;

/// The kernel's memory after setting up its address space from 64 usable
/// frames at 1 MiB.
fn setup(entries: &mut Vec<MemmapEntry>) -> MemoryManagement {
    let (mut pmm, kmalloc) = pmm_init(
        &vec![MemmapEntry { base: 0x10_0000, length: 64 * 4096, entry_type: MEMMAP_USABLE }],
        HHDM as usize,
    );
    let kermap = PageMap::new_inital(&mut pmm, KERNEL_PHYS, KERNEL_VIRT, 0x3000, HHDM, entries);
    MemoryManagement { pmm, kmalloc, kermap, hhdm: HHDM as usize }
}

#[test]
fn new_inital_maps_the_kernel_page_by_page() {
    let mut entries = vec![];
    let mm = setup(&mut entries);
    for i in 0..=3u64 {
        assert_eq!(mm.kermap.virt_to_phys(KERNEL_VIRT + i * 4096), Some(KERNEL_PHYS + i * 4096));
    }
    // the page after the last one of the kernel is not mapped
    assert_eq!(mm.kermap.virt_to_phys(KERNEL_VIRT + 4 * 4096), None);
    // root, then a table for each of the three levels below it: the last
    // level table is the fourth frame taken from the top
    assert_eq!(mm.kermap.find_pte(KERNEL_VIRT), Some(0x13_5000));
    assert_eq!(mm.kermap.find_pte(KERNEL_VIRT + 5 * 4096), None);
}

#[test]
fn new_inital_rounds_down_the_mapped_entries() {
    let mut entries = vec![
        MemmapEntry { base: 0x10_0800, length: 0x1000, entry_type: MEMMAP_USABLE },
        MemmapEntry { base: 0xfd00_1000, length: 0x30_0000, entry_type: MEMMAP_FRAMEBUFFER },
        MemmapEntry { base: 0x5_0000_0123, length: 0x1000, entry_type: MEMMAP_BAD_MEMORY },
        MemmapEntry { base: 0x1_2000_0800, length: 0x10_0000, entry_type: MEMMAP_RESERVED },
    ];
    let mut mm = setup(&mut entries);
    assert_eq!(entries[0].base, 0x10_0000);
    assert_eq!(entries[1].base, 0xfd00_0000);
    // an entry that is not mapped keeps its base
    assert_eq!(entries[2].base, 0x5_0000_0123);
    assert_eq!(entries[3].base, 0x1_2000_0000);
    assert_eq!(entries[3].length, 0x10_0000);
    // tables so far: root, three for the kernel, one for the direct map's
    // upper table, four directories for the first 4 GiB and one directory
    // for the entry above 4 GiB
    assert_eq!(pmm_alloc(&mut mm.pmm), Some(0x10_0000 + 46 * 4096));
}

#[test]
fn map_then_translate_and_unmap() {
    let mut entries = vec![];
    let mut mm = setup(&mut entries);
    let va = KERNEL_VIRT + 0x40_0000;
    assert_eq!(mm.kermap.virt_to_phys(va), None);
    let flags = VMMFlags::from_bits(KTPRESENT).union(&VMMFlags::from_bits(KTWRITEALLOWED));
    mm.kermap.map(&mut mm.pmm, 0x7_7000, va, flags.bits());
    assert_eq!(mm.kermap.virt_to_phys(va), Some(0x7_7000));
    // the kernel's pages keep their frames
    assert_eq!(mm.kermap.virt_to_phys(KERNEL_VIRT + 2 * 4096), Some(KERNEL_PHYS + 2 * 4096));
    // a neighbouring page is untouched
    assert_eq!(mm.kermap.virt_to_phys(va + 4096), None);
    assert!(mm.kermap.unmap(va));
    assert_eq!(mm.kermap.virt_to_phys(va), None);
    assert!(!mm.kermap.unmap(va));
    assert!(mm.kermap.unmap(KERNEL_VIRT));
    assert_eq!(mm.kermap.virt_to_phys(KERNEL_VIRT), None);
    assert_eq!(mm.kermap.virt_to_phys(KERNEL_VIRT + 4096), Some(KERNEL_PHYS + 4096));
}

#[test]
fn map_creates_only_the_missing_tables() {
    let mut entries = vec![];
    let mut mm = setup(&mut entries);
    let before = mm.pmm.free_pages();
    // same last-level table as the kernel: nothing to create
    mm.kermap.map(&mut mm.pmm, 0x9000, KERNEL_VIRT + 0x10_0000, KTPRESENT);
    assert_eq!(mm.pmm.free_pages(), before);
    // a new directory entry: one new last-level table
    mm.kermap.map(&mut mm.pmm, 0x9000, KERNEL_VIRT + 0x20_0000, KTPRESENT);
    assert_eq!(mm.pmm.free_pages(), before - 1);
    // a new upper entry: a directory and a last-level table
    mm.kermap.map(&mut mm.pmm, 0x9000, KERNEL_VIRT - 0x4000_0000, KTPRESENT | KTWRITETHROUGH);
    assert_eq!(mm.pmm.free_pages(), before - 3);
    assert_eq!(mm.kermap.virt_to_phys(KERNEL_VIRT - 0x4000_0000), Some(0x9000));
}

#[test]
fn map2mb_creates_the_missing_directory() {
    let mut entries = vec![];
    let mut mm = setup(&mut entries);
    let before = mm.pmm.free_pages();
    // above the first 4 GiB of the direct map: a new directory
    mm.kermap.map2mb(&mut mm.pmm, 0x1_0000_0000, HHDM + 0x1_0000_0000, KTPRESENT | KTWRITEALLOWED);
    assert_eq!(mm.pmm.free_pages(), before - 1);
    // inside the first 4 GiB: the directory is there already
    mm.kermap.map2mb(&mut mm.pmm, 0x20_0000, HHDM + 0x20_0000, KTPRESENT);
    assert_eq!(mm.pmm.free_pages(), before - 1);
}

#[test]
fn vmm_flags_bits() {
    let f = VMMFlags::from_bits(KTPRESENT);
    let g = f.union(&VMMFlags::from_bits(KTWRITETHROUGH));
    assert_eq!(g.bits(), 9);
    assert_eq!(f.bits(), 1);
}

#[test]
fn heap_small_allocations_come_from_the_slab_caches() {
    let mut entries = vec![];
    let mut mm = setup(&mut entries);
    // the cache of 128-byte objects took the fourth highest usable frame
    let a = mm.allocate(100);
    assert_eq!(a, HHDM + 0x13_c000 + SLAB_HEADER_SIZE as u64);
    mm.deallocate(a, 100);
    assert_eq!(mm.allocate(128), a);
    let b = mm.allocate(16);
    assert_eq!(b, HHDM + 0x13_f000 + SLAB_HEADER_SIZE as u64);
}
