use slab_alloc::page::PAGE_SIZE;
use slab_alloc::slab::Slab;

const PAGE: usize = 0x10_0000;

#[test]
fn new_slab_is_empty_and_cut_into_slots() {
    let slab = Slab::new(PAGE, 64);
    assert_eq!(slab.page_ptr(), PAGE);
    assert_eq!(slab.total_slots(), 64);
    assert_eq!(slab.used_slots(), 0);
    assert!(slab.is_empty());
    assert!(!slab.is_full());
}

#[test]
fn small_objects_get_address_sized_slots() {
    let slab = Slab::new(PAGE, 1);
    assert_eq!(slab.total_slots(), PAGE_SIZE / core::mem::size_of::<usize>());
    let slab = Slab::new(PAGE, 0);
    assert_eq!(slab.total_slots(), PAGE_SIZE / core::mem::size_of::<usize>());
}

#[test]
fn odd_object_size_leaves_a_remainder() {
    let slab = Slab::new(PAGE, 24);
    assert_eq!(slab.total_slots(), 170);
    let slab = Slab::new(PAGE, 4096);
    assert_eq!(slab.total_slots(), 1);
    let slab = Slab::new(PAGE, 3000);
    assert_eq!(slab.total_slots(), 1);
}

#[test]
fn slots_are_handed_out_in_address_order() {
    let mut slab = Slab::new(PAGE, 1024);
    assert_eq!(slab.allocate(), PAGE);
    assert_eq!(slab.allocate(), PAGE + 1024);
    assert_eq!(slab.allocate(), PAGE + 2048);
    assert_eq!(slab.allocate(), PAGE + 3072);
    assert!(slab.is_full());
    assert_eq!(slab.used_slots(), 4);
    assert_eq!(slab.allocate(), 0);
    assert_eq!(slab.used_slots(), 4);
}

#[test]
fn freed_slot_is_handed_out_next() {
    let mut slab = Slab::new(PAGE, 512);
    let a = slab.allocate();
    let b = slab.allocate();
    let c = slab.allocate();
    assert_eq!((a, b, c), (PAGE, PAGE + 512, PAGE + 1024));
    slab.dealloc(b);
    assert_eq!(slab.used_slots(), 2);
    slab.dealloc(a);
    assert_eq!(slab.used_slots(), 1);
    assert_eq!(slab.allocate(), a);
    assert_eq!(slab.allocate(), b);
    assert_eq!(slab.allocate(), PAGE + 1536);
    assert_eq!(slab.used_slots(), 4);
}

#[test]
fn full_slab_becomes_usable_after_dealloc() {
    let mut slab = Slab::new(PAGE, 2048);
    let a = slab.allocate();
    let b = slab.allocate();
    assert!(slab.is_full());
    assert_eq!(slab.allocate(), 0);
    slab.dealloc(a);
    assert!(!slab.is_full());
    assert_eq!(slab.allocate(), a);
    slab.dealloc(b);
    slab.dealloc(a);
    assert!(slab.is_empty());
}

#[test]
fn contains_covers_exactly_the_page() {
    let slab = Slab::new(PAGE, 8);
    assert!(slab.contains(PAGE));
    assert!(slab.contains(PAGE + 1));
    assert!(slab.contains(PAGE + PAGE_SIZE - 1));
    assert!(!slab.contains(PAGE + PAGE_SIZE));
    assert!(!slab.contains(PAGE - 1));
    assert!(!slab.contains(0));
}

#[test]
fn is_allocated_tells_handed_out_slots() {
    let mut slab = Slab::new(PAGE, 100);
    assert_eq!(slab.total_slots(), 40);
    assert!(!slab.is_allocated(PAGE));
    let a = slab.allocate();
    assert_eq!(a, PAGE);
    assert!(slab.is_allocated(PAGE));
    assert!(!slab.is_allocated(PAGE + 1));
    assert!(!slab.is_allocated(PAGE + 100));
    assert!(!slab.is_allocated(PAGE + 4000));
    assert!(!slab.is_allocated(PAGE - 100));
    slab.dealloc(a);
    assert!(!slab.is_allocated(PAGE));
}
