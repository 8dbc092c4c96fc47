# slab_alloc

A small slab allocator whose bookkeeping is verified with Verus.

- `src/slab.rs`: one page cut into equal slots, with a last-in, first-out
  free list. Laws: `used_slots` counts the handed-out slots, an allocation
  hands out a free slot, a slot given back is the next one handed out, and a
  fresh slab hands its slots out in address order.
- `src/cache.rs`: up to 32 slabs of one object size on pages that do not
  overlap; allocation uses the first slab with room, deallocation the first
  slab whose page holds the address. Laws: live slots do not overlap, a
  cache never holds more than 32 pages' worth of live objects, and
  an allocation given back restores the cache.
- `src/page.rs`: the `PageProvider` trait and a bump provider over one
  fixed region, which yields `len / PAGE_SIZE` pages one after the other.
- `src/allocator.rs`: nine power-of-two size classes from 8 to 2048 bytes.
  `SlabAllocatorInner` states what each request does to the caches; no two
  slabs of any class share a page, and live slots never overlap.
  `SlabAllocator` puts the caches behind a spin lock; returned addresses are
  aligned to the class size.
- `src/sync.rs`: the `spin` lock items the library relies on, unverified.
- `app/lib.rs`: the `GlobalAlloc` adapter and a provider over a static array.

Addresses are `usize` values and `0` is the null address. The library never
reads or writes the memory it hands out; its own bookkeeping lives in
vectors on the heap, so `SlabGlobalAlloc` serves a program whose global
allocator is another one.
