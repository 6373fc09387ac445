use nyaux_kt::mem::pmm::{cache, pmm_alloc, pmm_init, FreePageList};
use nyaux_kt::mem::{MemmapEntry, MEMMAP_USABLE};
use nyaux_kt::{List, VList};

const HHDM: usize = 0xffff_8000_0000_0000;

fn frames(n: u64) -> FreePageList {
    let entries = vec![MemmapEntry { base: 0x10_0000, length: n * 4096, entry_type: MEMMAP_USABLE }];
    pmm_init(&entries, HHDM).0
}

#[test]
fn list_push_then_pop_gives_item_back() {
    let mut l: List<u32> = List::new::<()>();
    l.push(1);
    l.push(2);
    l.push(3);
    assert_eq!(l.pop(), Some(3));
    assert_eq!(l.pop(), Some(2));
    l.push(7);
    assert_eq!(l.peek(), Some(&7));
    assert_eq!(l.pop(), Some(7));
    assert_eq!(l.pop(), Some(1));
    assert_eq!(l.pop(), None);
    assert_eq!(l.peek(), None);
}

#[test]
fn list_peek_mut_changes_top() {
    let mut l: List<u32> = List::new::<()>();
    assert!(l.peek_mut().is_none());
    l.push(1);
    l.push(2);
    if let Some(v) = l.peek_mut() {
        *v = 20;
    }
    assert_eq!(l.peek(), Some(&20));
    let node = l.peek_raw().unwrap();
    assert_eq!(node.elem, 20);
    node.elem = 21;
    assert_eq!(l.pop(), Some(21));
    assert_eq!(l.pop(), Some(1));
}

#[test]
fn list_iterators_go_top_first() {
    let mut l: List<u32> = List::new::<()>();
    l.push(1);
    l.push(2);
    l.push(3);
    let mut it = l.iter();
    assert_eq!(it.next(), Some(&3));
    assert_eq!(it.next(), Some(&2));
    assert_eq!(it.next(), Some(&1));
    assert_eq!(it.next(), None);
    let mut im = l.iter_mut();
    while let Some(v) = im.next() {
        *v = *v * 10;
    }
    let mut own = l.into_iter();
    assert_eq!(own.next(), Some(30));
    assert_eq!(own.next(), Some(20));
    assert_eq!(own.next(), Some(10));
    assert_eq!(own.next(), None);
}

#[test]
fn vlist_push_then_pop_gives_item_back() {
    let mut pmm = frames(16);
    let c = cache::init(64, &mut pmm, HHDM);
    let mut l: VList<u64> = VList::new::<()>(c);
    assert_eq!(l.pop(), None);
    l.push(&mut pmm, HHDM, 5);
    l.push(&mut pmm, HHDM, 6);
    assert_eq!(l.peek(), Some(&6));
    if let Some(v) = l.peek_mut() {
        *v = 60;
    }
    assert_eq!(l.peek_raw().unwrap().elem, 60);
    let mut it = l.iter();
    assert_eq!(it.next(), Some(&60));
    assert_eq!(it.next(), Some(&5));
    assert_eq!(it.next(), None);
    assert_eq!(l.pop(), Some(60));
    assert_eq!(l.pop(), Some(5));
    assert_eq!(l.pop(), None);
}

#[test]
fn vlist_push_takes_a_new_slab_when_the_cache_is_full() {
    let mut pmm = frames(16);
    let c = cache::init(64, &mut pmm, HHDM);
    // seven frames went to the kmalloc caches, one to this cache's slab
    assert_eq!(pmm.free_pages(), 8);
    let mut l: VList<u64> = VList::new::<()>(c);
    // the fresh slab's free object serves the first node
    l.push(&mut pmm, HHDM, 1);
    assert_eq!(pmm.free_pages(), 8);
    // its free list held one object: the second node needs a new slab
    l.push(&mut pmm, HHDM, 2);
    assert_eq!(pmm.free_pages(), 7);
    assert_eq!(pmm_alloc(&mut pmm), Some(0x10_0000 + 6 * 4096));
    let mut im = l.iter_mut();
    while let Some(v) = im.next() {
        *v += 1;
    }
    let mut own = l.into_iter();
    assert_eq!(own.next(), Some(3));
    assert_eq!(own.next(), Some(2));
    assert_eq!(own.next(), None);
}

#[test]
fn vlist_pop_gives_the_node_object_back_to_its_slab() {
    let mut pmm = frames(16);
    let c = cache::init(64, &mut pmm, HHDM);
    let mut l: VList<u64> = VList::new::<()>(c);
    l.push(&mut pmm, HHDM, 1);
    assert_eq!(l.pop(), Some(1));
    // the object went back to the slab: the next node takes it again and
    // no new slab is needed
    l.push(&mut pmm, HHDM, 2);
    assert_eq!(pmm.free_pages(), 8);
    assert_eq!(l.pop(), Some(2));
}

#[test]
fn vlist_pop_keeps_objects_of_caches_the_heap_has_no_size_for() {
    let mut pmm = frames(16);
    // 48 is not the object size of any heap cache: popped nodes stay taken
    let c = cache::init(48, &mut pmm, HHDM);
    let mut l: VList<u64> = VList::new::<()>(c);
    l.push(&mut pmm, HHDM, 1);
    assert_eq!(l.pop(), Some(1));
    l.push(&mut pmm, HHDM, 2);
    assert_eq!(pmm.free_pages(), 7);
}
