use slab_alloc::cache::{Cache, MAX_SLABS_PER_CACHE};
use slab_alloc::page::PAGE_SIZE;

const BASE: usize = 0x100_0000;

#[test]
fn new_cache_has_no_slab() {
    let mut cache = Cache::new(32);
    assert_eq!(cache.object_size(), 32);
    assert_eq!(cache.allocate(), 0);
}

#[test]
fn new_slab_hands_out_its_first_slot() {
    let mut cache = Cache::new(1024);
    assert_eq!(cache.add_slab_and_alloc(BASE), BASE);
    assert_eq!(cache.allocate(), BASE + 1024);
    assert_eq!(cache.allocate(), BASE + 2048);
    assert_eq!(cache.allocate(), BASE + 3072);
    assert_eq!(cache.allocate(), 0);
}

#[test]
fn allocation_uses_the_first_slab_with_room() {
    let mut cache = Cache::new(2048);
    let a = cache.add_slab_and_alloc(BASE);
    let b = cache.allocate();
    assert_eq!(cache.allocate(), 0);
    let c = cache.add_slab_and_alloc(BASE + PAGE_SIZE);
    assert_eq!((a, b, c), (BASE, BASE + 2048, BASE + PAGE_SIZE));
    assert!(cache.dealloc(a));
    assert_eq!(cache.allocate(), a);
    assert_eq!(cache.allocate(), BASE + PAGE_SIZE + 2048);
    assert_eq!(cache.allocate(), 0);
}

#[test]
fn dealloc_reports_whether_a_slab_holds_the_address() {
    let mut cache = Cache::new(64);
    let a = cache.add_slab_and_alloc(BASE);
    assert!(!cache.dealloc(BASE + PAGE_SIZE));
    assert!(!cache.dealloc(BASE - 64));
    assert!(cache.dealloc(a));
    assert_eq!(cache.allocate(), a);
}

#[test]
fn may_dealloc_refuses_free_and_misaligned_slots() {
    let mut cache = Cache::new(64);
    let a = cache.add_slab_and_alloc(BASE);
    assert!(cache.may_dealloc(a));
    assert!(!cache.may_dealloc(a + 64));
    assert!(!cache.may_dealloc(a + 3));
    assert!(cache.may_dealloc(BASE + PAGE_SIZE));
    assert!(cache.dealloc(a));
    assert!(!cache.may_dealloc(a));
}

#[test]
fn cache_holds_at_most_max_slabs() {
    let mut cache = Cache::new(2048);
    for i in 0..MAX_SLABS_PER_CACHE {
        let page = BASE + i * PAGE_SIZE;
        assert_eq!(cache.add_slab_and_alloc(page), page);
    }
    let extra = BASE + MAX_SLABS_PER_CACHE * PAGE_SIZE;
    assert_eq!(cache.add_slab_and_alloc(extra), 0);
    assert!(!cache.dealloc(extra));
    // every slab still has one free slot
    for i in 0..MAX_SLABS_PER_CACHE {
        assert_eq!(cache.allocate(), BASE + i * PAGE_SIZE + 2048);
    }
    assert_eq!(cache.allocate(), 0);
}
