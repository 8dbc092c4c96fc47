use slab_alloc::allocator::{size_class_index, SlabAllocator, SlabAllocatorInner, NUM_SIZE_CLASSES};
use slab_alloc::page::{PageProvider, StaticPageProvider, PAGE_SIZE};
use slab_alloc::slab::Slab;

#[test]
fn size_class_is_the_smallest_that_fits() {
    assert_eq!(size_class_index(0), Some(0));
    assert_eq!(size_class_index(1), Some(0));
    assert_eq!(size_class_index(8), Some(0));
    assert_eq!(size_class_index(9), Some(1));
    assert_eq!(size_class_index(16), Some(1));
    assert_eq!(size_class_index(100), Some(4));
    assert_eq!(size_class_index(1025), Some(8));
    assert_eq!(size_class_index(2048), Some(8));
    assert_eq!(size_class_index(2049), None);
    assert_eq!(size_class_index(usize::MAX), None);
}

#[test]
fn slots_per_page_of_each_class() {
    let expected = [512, 256, 128, 64, 32, 16, 8, 4, 2];
    let sizes = [8, 16, 32, 64, 128, 256, 512, 1024, 2048];
    assert_eq!(NUM_SIZE_CLASSES, 9);
    for i in 0..NUM_SIZE_CLASSES {
        assert_eq!(size_class_index(sizes[i]), Some(i));
        assert_eq!(Slab::new(0x10_0000, sizes[i]).total_slots(), expected[i]);
    }
}

#[test]
fn static_provider_aligns_its_region() {
    let provider = StaticPageProvider::<{ 3 * 4096 }>::new(0x10_0010);
    let first = provider.alloc_page();
    assert_eq!(first, 0x10_1000);
    assert_eq!(provider.alloc_page(), 0x10_2000);
    // the bytes before the first aligned page leave no room for a third page
    assert_eq!(provider.alloc_page(), 0);
    assert_eq!(provider.alloc_page(), 0);
    provider.dealloc_page(first);
    assert_eq!(provider.alloc_page(), 0);
}

#[test]
fn static_provider_on_aligned_storage() {
    let provider = StaticPageProvider::<{ 2 * 4096 }>::new(0x20_0000);
    assert_eq!(provider.alloc_page(), 0x20_0000);
    assert_eq!(provider.alloc_page(), 0x20_1000);
    assert_eq!(provider.alloc_page(), 0);
}

#[test]
fn static_provider_smaller_than_alignment_gap() {
    let provider = StaticPageProvider::<100>::new(0x30_0001);
    assert_eq!(provider.alloc_page(), 0);
}

#[test]
fn allocator_serves_requests_from_size_classes() {
    let allocator = SlabAllocator::new(StaticPageProvider::<{ 4 * 4096 }>::new(0x40_0000));
    let a = allocator.allocate(5, 1);
    assert_eq!(a, 0x40_0000);
    let b = allocator.allocate(8, 8);
    assert_eq!(b, 0x40_0008);
    let c = allocator.allocate(20, 4);
    assert_eq!(c, 0x40_1000);
    let d = allocator.allocate(1, 64);
    assert_eq!(d, 0x40_2000);
    assert_eq!(d % 64, 0);
    assert_eq!(allocator.allocate(2049, 8), 0);
    assert_eq!(allocator.allocate(8, 4096), 0);
}

#[test]
fn allocator_reuses_freed_slots() {
    let allocator = SlabAllocator::new(StaticPageProvider::<{ 4 * 4096 }>::new(0x50_0000));
    let a = allocator.allocate(100, 8);
    let b = allocator.allocate(100, 8);
    assert_eq!((a, b), (0x50_0000, 0x50_0080));
    allocator.dealloc(a, 100, 8);
    assert_eq!(allocator.allocate(128, 1), a);
    // a second free of the same slot changes nothing
    allocator.dealloc(b, 100, 8);
    allocator.dealloc(b, 100, 8);
    assert_eq!(allocator.allocate(100, 8), b);
    assert_eq!(allocator.allocate(100, 8), 0x50_0100);
}

#[test]
fn allocator_runs_out_when_provider_does() {
    let allocator = SlabAllocator::new(StaticPageProvider::<4096>::new(0x60_0000));
    assert_eq!(allocator.allocate(2048, 2048), 0x60_0000);
    assert_eq!(allocator.allocate(2048, 2048), 0x60_0800);
    assert_eq!(allocator.allocate(2048, 2048), 0);
    assert_eq!(allocator.allocate(8, 8), 0);
    allocator.dealloc(0x60_0800, 2000, 1);
    assert_eq!(allocator.allocate(1500, 16), 0x60_0800);
}

#[test]
fn allocator_ignores_oversized_dealloc() {
    let allocator = SlabAllocator::new(StaticPageProvider::<4096>::new(0x70_0000));
    let a = allocator.allocate(16, 16);
    allocator.dealloc(a, 4096, 8);
    assert_eq!(allocator.allocate(16, 16), a + 16);
}

#[test]
fn bump_step_cuts_whole_pages() {
    let provider = StaticPageProvider::<{ 2 * 4096 + 100 }>::new(0x80_0000);
    assert_eq!(provider.bump(0), Some((0x80_0000, 4096)));
    assert_eq!(provider.bump(4096), Some((0x80_1000, 8192)));
    assert_eq!(provider.bump(8192), None);
    assert_eq!(provider.bump(usize::MAX), None);
    assert_eq!(PAGE_SIZE, 4096);
}

#[test]
fn inner_routes_requests_to_the_smallest_class() {
    let provider = StaticPageProvider::<{ 3 * 4096 }>::new(0x90_0000);
    let mut inner = SlabAllocatorInner::new();
    assert_eq!(inner.allocate_request(8, 8, &provider), 0x90_0000);
    assert_eq!(inner.allocate_request(16, 16, &provider), 0x90_1000);
    assert_eq!(inner.allocate_request(8, 8, &provider), 0x90_0008);
    assert_eq!(inner.allocate_request(5, 1, &provider), 0x90_0010);
    assert_eq!(inner.allocate_request(32, 32, &provider), 0x90_2000);
    assert_eq!(inner.allocate_request(64, 1, &provider), 0);
    assert_eq!(inner.allocate_request(4096, 8, &provider), 0);
}

#[test]
fn inner_refill_refuses_null_and_used_pages() {
    let mut inner = SlabAllocatorInner::new();
    assert_eq!(inner.refill(3, 0), 0);
    assert_eq!(inner.refill(3, 0xA0_0000), 0xA0_0000);
    // the same page again, for this class or another one
    assert_eq!(inner.refill(3, 0xA0_0000), 0);
    assert_eq!(inner.refill(5, 0xA0_0000), 0);
    assert_eq!(inner.refill(5, 0xA0_1000), 0xA0_1000);
}

#[test]
fn inner_dealloc_round_trip() {
    let provider = StaticPageProvider::<{ 2 * 4096 }>::new(0xB0_0000);
    let mut inner = SlabAllocatorInner::new();
    let a = inner.allocate_request(200, 8, &provider);
    let b = inner.allocate_request(200, 8, &provider);
    assert_eq!((a, b), (0xB0_0000, 0xB0_0100));
    inner.dealloc_request(a, 200, 8);
    assert_eq!(inner.allocate_request(256, 256, &provider), a);
    // not a slot of the class, not on its pages, and too large: no effect
    inner.dealloc_request(0xC0_0000, 200, 8);
    inner.dealloc_request(b, 9000, 8);
    inner.dealloc_request(b + 1, 200, 8);
    assert_eq!(inner.allocate_request(200, 8, &provider), 0xB0_0200);
}
