use nyaux_kt::mem::pmm::{
    cache, holder_type, holder_type2, kmallocmanager, pmm_alloc, pmm_dealloc, pmm_init, slab_header, FreePageList,
    PAGE_SIZE, SLAB_HEADER_SIZE,
};
use nyaux_kt::mem::{align_down, align_up, MemmapEntry, MEMMAP_RESERVED, MEMMAP_USABLE};

const HHDM: usize = 0xffff_8000_0000_0000;

fn usable(base: u64, pages: u64) -> MemmapEntry {
    MemmapEntry { base, length: pages * 4096, entry_type: MEMMAP_USABLE }
}

#[test]
fn align_up_rounds_to_the_next_multiple() {
    assert_eq!(align_up(0, 4096), 0);
    assert_eq!(align_up(1, 4096), 4096);
    assert_eq!(align_up(4096, 4096), 4096);
    assert_eq!(align_up(4097, 4096), 8192);
    assert_eq!(align_up(0x1234, 0x20_0000), 0x20_0000);
    // a non-power-of-two alignment keeps the mask formula
    assert_eq!(align_up(5, 3), (5 + 3 - 1) & !(3 - 1));
}

#[test]
fn align_down_rounds_to_the_previous_multiple() {
    assert_eq!(align_down(0, 4096), 0);
    assert_eq!(align_down(4095, 4096), 0);
    assert_eq!(align_down(4096, 4096), 4096);
    assert_eq!(align_down(0x20_1234, 0x20_0000), 0x20_0000);
    assert!(align_down(12345, 64) <= 12345 && 12345 <= align_up(12345, 64));
}

#[test]
fn pmm_init_keeps_usable_frames_and_feeds_the_caches() {
    let entries = vec![
        usable(0x10_0000, 4),
        MemmapEntry { base: 0x20_0000, length: 0x4000, entry_type: MEMMAP_RESERVED },
        // a partial page still counts as a frame
        MemmapEntry { base: 0x30_0000, length: 0x6001, entry_type: MEMMAP_USABLE },
    ];
    let (mut pmm, _k) = pmm_init(&entries, HHDM);
    // 4 + 7 usable frames, of which 7 went to the kmalloc caches
    assert_eq!(pmm.free_pages(), 4);
    assert_eq!(pmm_alloc(&mut pmm), Some(0x10_3000));
    assert_eq!(pmm_alloc(&mut pmm), Some(0x10_2000));
    assert_eq!(pmm_alloc(&mut pmm), Some(0x10_1000));
    assert_eq!(pmm_alloc(&mut pmm), Some(0x10_0000));
    assert_eq!(pmm_alloc(&mut pmm), None);
    assert_eq!(pmm.free_pages(), 0);
}

#[test]
fn pmm_alloc_on_an_empty_list_is_none() {
    let mut pmm = FreePageList::new();
    assert_eq!(pmm.free_pages(), 0);
    assert_eq!(pmm_alloc(&mut pmm), None);
    assert_eq!(pmm_dealloc(&mut pmm, 0x5000), None);
    assert_eq!(pmm.free_pages(), 0);
}

#[test]
fn pmm_dealloc_then_alloc_hands_the_frame_back() {
    let (mut pmm, _k) = pmm_init(&vec![usable(0x10_0000, 10)], HHDM);
    assert_eq!(pmm.free_pages(), 3);
    assert_eq!(pmm_dealloc(&mut pmm, 0x9000), Some(()));
    assert_eq!(pmm.free_pages(), 4);
    assert_eq!(pmm_alloc(&mut pmm), Some(0x9000));
    assert_eq!(pmm.free_pages(), 3);
    // the frame that was next before the dealloc is gone
    assert_eq!(pmm_alloc(&mut pmm), Some(0x10_1000));
    assert_eq!(pmm_alloc(&mut pmm), Some(0x10_0000));
    assert_eq!(pmm_alloc(&mut pmm), None);
}

#[test]
fn kmalloc_serves_the_size_classes() {
    // frames 0x100000..0x110000; the caches take the seven highest
    let (mut pmm, mut k) = pmm_init(&vec![usable(0x10_0000, 16)], HHDM);
    let slab = |i: usize| HHDM + 0x10_0000 + (15 - i) * PAGE_SIZE;
    assert_eq!(k.allocate(&mut pmm, HHDM, 1), Some(slab(0) + SLAB_HEADER_SIZE));
    assert_eq!(k.allocate(&mut pmm, HHDM, 17), Some(slab(1) + SLAB_HEADER_SIZE));
    assert_eq!(k.allocate(&mut pmm, HHDM, 64), Some(slab(2) + SLAB_HEADER_SIZE));
    assert_eq!(k.allocate(&mut pmm, HHDM, 65), Some(slab(3) + SLAB_HEADER_SIZE));
    assert_eq!(k.allocate(&mut pmm, HHDM, 200), Some(slab(4) + SLAB_HEADER_SIZE));
    assert_eq!(k.allocate(&mut pmm, HHDM, 512), Some(slab(5) + SLAB_HEADER_SIZE));
    assert_eq!(k.allocate(&mut pmm, HHDM, 1024), Some(slab(6) + SLAB_HEADER_SIZE));
    assert_eq!(pmm.free_pages(), 9);
    // more than the largest cache: nothing, and no frame is taken
    assert_eq!(k.allocate(&mut pmm, HHDM, 1025), None);
    assert_eq!(pmm.free_pages(), 9);
}

#[test]
fn kmalloc_takes_a_new_slab_when_its_cache_is_full() {
    let (mut pmm, mut k) = pmm_init(&vec![usable(0x10_0000, 16)], HHDM);
    let first = k.allocate(&mut pmm, HHDM, 24).unwrap();
    assert_eq!(first, HHDM + 0x10_e000 + SLAB_HEADER_SIZE);
    // the next frame of the list holds the new slab
    let second = k.allocate(&mut pmm, HHDM, 24).unwrap();
    assert_eq!(second, HHDM + 0x10_8000 + SLAB_HEADER_SIZE);
    assert_eq!(pmm.free_pages(), 8);
}

#[test]
fn kmalloc_free_then_allocate_reuses_the_object() {
    let (mut pmm, mut k) = pmm_init(&vec![usable(0x10_0000, 16)], HHDM);
    let a = k.allocate(&mut pmm, HHDM, 100).unwrap();
    k.free(a);
    assert_eq!(k.allocate(&mut pmm, HHDM, 128), Some(a));
    assert_eq!(pmm.free_pages(), 9);
    // a null address, and one in a page that is no slab's, are ignored
    k.free(0);
    k.free(HHDM + 0x50_0010);
    let b = k.allocate(&mut pmm, HHDM, 100).unwrap();
    assert_ne!(a, b);
}

#[test]
fn kmalloc_free_of_an_object_of_a_later_slab() {
    let (mut pmm, mut k) = pmm_init(&vec![usable(0x10_0000, 16)], HHDM);
    let a = k.allocate(&mut pmm, HHDM, 8).unwrap();
    let b = k.allocate(&mut pmm, HHDM, 8).unwrap();
    assert_eq!(b, HHDM + 0x10_8000 + SLAB_HEADER_SIZE);
    k.free(b);
    assert_eq!(k.allocate(&mut pmm, HHDM, 8), Some(b));
    k.free(a);
    assert_eq!(k.allocate(&mut pmm, HHDM, 8), Some(a));
}

#[test]
fn kmallocmanager_init_gives_each_cache_one_slab() {
    // 14 frames: seven feed the caches pmm_init makes, seven are left
    let (mut pmm, _k) = pmm_init(&vec![usable(0x40_0000, 14)], HHDM);
    assert_eq!(pmm.free_pages(), 7);
    let mut k = kmallocmanager::init(&mut pmm, HHDM);
    assert_eq!(pmm.free_pages(), 0);
    // cache 6 (1024 bytes) took the seventh frame from the top of the list
    assert_eq!(k.allocate(&mut pmm, HHDM, 1000), Some(HHDM + 0x40_0000 + SLAB_HEADER_SIZE));
    assert_eq!(k.allocate(&mut pmm, HHDM, 3), Some(HHDM + 0x40_6000 + SLAB_HEADER_SIZE));
}

#[test]
fn cache_hands_out_and_takes_back_objects() {
    let (mut pmm, _k) = pmm_init(&vec![usable(0x10_0000, 16)], HHDM);
    let mut c = cache::init(256, &mut pmm, HHDM);
    let at = HHDM + 0x10_8000;
    assert_eq!(c.slab_allocsearch(&mut pmm, HHDM), Some(at + SLAB_HEADER_SIZE));
    let next = c.slab_allocsearch(&mut pmm, HHDM).unwrap();
    assert_eq!(next, HHDM + 0x10_7000 + SLAB_HEADER_SIZE);
    c.free(at + SLAB_HEADER_SIZE + 256);
    assert_eq!(c.slab_allocsearch(&mut pmm, HHDM), Some(at + SLAB_HEADER_SIZE + 256));
    c.free(next);
    c.free(at + SLAB_HEADER_SIZE);
    c.clear_all_slabs();
}

#[test]
fn slab_header_layout() {
    let (mut pmm, _k) = pmm_init(&vec![usable(0x10_0000, 8)], HHDM);
    let mut h = slab_header::init(32, &mut pmm, HHDM);
    assert_eq!(h.at, HHDM + 0x10_0000);
    assert_eq!(h.obj_size, 32);
    assert_eq!(h.next_slab.0, None);
    assert_eq!(h.pop(), Some(HHDM + 0x10_0000 + SLAB_HEADER_SIZE));
    assert_eq!(h.pop(), None);
    h.push(HHDM + 0x10_0040);
    assert_eq!(h.freelist.0, Some(HHDM + 0x10_0040));
    assert_eq!(pmm_alloc(&mut pmm), None);
}

#[test]
fn holder_links() {
    assert_eq!(holder_type::new().0, None);
    assert_eq!(holder_type::from_raw(0x1234).0, Some(0x1234));
    assert_eq!(holder_type2::new().0, None);
    assert_eq!(holder_type2::from_raw(0x5678).0, Some(0x5678));
}

#[test]
fn kmalloc_free_then_allocate_after_a_new_slab() {
    let (mut pmm, mut k) = pmm_init(&vec![usable(0x10_0000, 16)], HHDM);
    let _a = k.allocate(&mut pmm, HHDM, 300).unwrap();
    // the cache's only slab is empty now: this object opens a new slab
    let b = k.allocate(&mut pmm, HHDM, 300).unwrap();
    assert_eq!(b, HHDM + 0x10_8000 + SLAB_HEADER_SIZE);
    k.free(b);
    assert_eq!(k.allocate(&mut pmm, HHDM, 300), Some(b));
    assert_eq!(pmm.free_pages(), 8);
}

#[test]
fn pmm_init_takes_unaligned_usable_memory() {
    let (mut pmm, mut k) = pmm_init(&vec![usable(0x10_0800, 10)], HHDM);
    assert_eq!(pmm.free_pages(), 3);
    // the 16-byte cache took the highest frame, which does not start a page
    assert_eq!(k.allocate(&mut pmm, HHDM, 8), Some(HHDM + 0x10_9800 + SLAB_HEADER_SIZE));
    assert_eq!(pmm_alloc(&mut pmm), Some(0x10_2800));
}
