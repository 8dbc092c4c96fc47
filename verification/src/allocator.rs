//! Top-level slab allocator.
//!
//! The allocator keeps one cache for each size class (powers of two from 8 to
//! 2048 bytes). An allocation request of `size` bytes aligned to `align` is
//! served from the smallest class that holds `max(size, align)` bytes; a
//! request larger than every class fails. When every slab of the class is
//! full, the allocator asks its page provider for a new page.
//!
//! | Class | Slot Size | Slots per Page |
//! |-------|-----------|----------------|
//! | 0     | 8 B       | 512            |
//! | 1     | 16 B      | 256            |
//! | 2     | 32 B      | 128            |
//! | 3     | 64 B      | 64             |
//! | 4     | 128 B     | 32             |
//! | 5     | 256 B     | 16             |
//! | 6     | 512 B     | 8              |
//! | 7     | 1024 B    | 4              |
//! | 8     | 2048 B    | 2              |
//!
//! Addresses are plain `usize` values, and `0` is the null address.
use vstd::prelude::*;
use vstd::arithmetic::div_mod::{lemma_fundamental_div_mod, lemma_mod_multiples_basic};
use vstd::arithmetic::power2::is_pow2;
use crate::cache::{pages_apart, Cache, CacheView, MAX_SLABS_PER_CACHE};
use crate::page::{usable_page, PageProvider, PAGE_SIZE};
use crate::slab::{lemma_slots_apart, slot_size_for};
use crate::sync::{guarded, lock, new_mutex};

verus! {

/// Number of size classes: 8, 16, 32, 64, 128, 256, 512, 1024, 2048.
pub const NUM_SIZE_CLASSES: usize = 9;

/// The size classes available (powers of 2 from 8 to 2048).
const SIZE_CLASSES: [usize; NUM_SIZE_CLASSES] = [8, 16, 32, 64, 128, 256, 512, 1024, 2048];

/// The slot sizes of the size classes, smallest first.
pub open spec fn size_classes() -> Seq<usize> {
    seq![8, 16, 32, 64, 128, 256, 512, 1024, 2048]
}

/// Class `index` is the smallest size class that holds `size` bytes.
pub open spec fn fits_class(size: int, index: int) -> bool {
    &&& 0 <= index < NUM_SIZE_CLASSES
    &&& size <= size_classes()[index]
    &&& forall|j: int| 0 <= j < index ==> size_classes()[j] < size
}

/// The number of bytes a request for `size` bytes aligned to `align` needs.
pub open spec fn request_size(size: int, align: int) -> int {
    if size > align {
        size
    } else {
        align
    }
}

/// Find the index of the smallest size class that fits `size`.
///
/// Returns `None` if the requested size exceeds the largest size class.
pub fn size_class_index(size: usize) -> (index: Option<usize>)
    ensures
        match index {
            Some(i) => fits_class(size as int, i as int),
            None => size > size_classes()[NUM_SIZE_CLASSES - 1],
        },
{
    assert(SIZE_CLASSES@ == size_classes());
    let mut i: usize = 0;
    while i < NUM_SIZE_CLASSES
        invariant
            i <= NUM_SIZE_CLASSES,
            SIZE_CLASSES@ == size_classes(),
            forall|j: int| 0 <= j < i ==> size_classes()[j] < size,
        decreases NUM_SIZE_CLASSES - i,
    {
        if SIZE_CLASSES[i] >= size {
            return Some(i);
        }
        i = i + 1;
    }
    assert(size_classes()[NUM_SIZE_CLASSES - 1] < size);
    None
}

/// Every slab of the cache sits on a `PAGE_SIZE`-aligned page.
pub open spec fn pages_aligned(c: CacheView) -> bool {
    forall|j: int| 0 <= j < c.slabs.len() ==> (#[trigger] c.slabs[j]).page % PAGE_SIZE as int == 0
}

/// A slot of `slot_size` bytes on a `PAGE_SIZE`-aligned page is aligned to
/// `slot_size` when `slot_size` divides the page size.
proof fn lemma_slot_aligned(page: int, k: int, slot_size: int)
    requires
        page >= 0,
        k >= 0,
        slot_size > 0,
        page % PAGE_SIZE as int == 0,
        PAGE_SIZE as int % slot_size == 0,
    ensures
        (page + k * slot_size) % slot_size == 0,
{
    let q = page / PAGE_SIZE as int;
    let t = PAGE_SIZE as int / slot_size;
    lemma_fundamental_div_mod(page, PAGE_SIZE as int);
    lemma_fundamental_div_mod(PAGE_SIZE as int, slot_size);
    assert(page + k * slot_size == (t * q + k) * slot_size) by (nonlinear_arith)
        requires
            page == PAGE_SIZE * q,
            PAGE_SIZE == slot_size * t,
    ;
    lemma_mod_multiples_basic(t * q + k, slot_size);
}

/// A power of two divides every power of two that is not smaller.
pub proof fn lemma_pow2_divides(a: int, c: int)
    requires
        is_pow2(a),
        is_pow2(c),
        a <= c,
    ensures
        a > 0,
        c % a == 0,
    decreases a,
{
    reveal(is_pow2);
    if a == 1 {
    } else {
        let c2 = c / 2;
        let a2 = a / 2;
        lemma_pow2_divides(a2, c2);
        lemma_fundamental_div_mod(c2, a2);
        assert(c == a * (c2 / a2)) by (nonlinear_arith)
            requires
                c == 2 * c2,
                a == 2 * a2,
                c2 == a2 * (c2 / a2) + c2 % a2,
                c2 % a2 == 0,
        ;
        lemma_mod_multiples_basic(c2 / a2, a);
        assert((c2 / a2) * a == a * (c2 / a2)) by (nonlinear_arith);
    }
}

/// Every size class is a power of two that divides the page size.
proof fn lemma_size_classes()
    ensures
        forall|i: int|
            0 <= i < NUM_SIZE_CLASSES ==> {
                &&& is_pow2(#[trigger] size_classes()[i] as int)
                &&& PAGE_SIZE as int % size_classes()[i] as int == 0
                &&& slot_size_for(size_classes()[i] as int) == size_classes()[i]
            },
{
    reveal_with_fuel(is_pow2, 13);
    assert(is_pow2(8) && is_pow2(16) && is_pow2(32) && is_pow2(64) && is_pow2(128) && is_pow2(
        256,
    ) && is_pow2(512) && is_pow2(1024) && is_pow2(2048));
    assert(usize::BITS == 32 || usize::BITS == 64);
    assert forall|i: int| 0 <= i < NUM_SIZE_CLASSES implies {
        &&& is_pow2(#[trigger] size_classes()[i] as int)
        &&& PAGE_SIZE as int % size_classes()[i] as int == 0
        &&& slot_size_for(size_classes()[i] as int) == size_classes()[i]
    } by {
        if i == 0 {
            assert(size_classes()[i] == 8);
        } else if i == 1 {
            assert(size_classes()[i] == 16);
        } else if i == 2 {
            assert(size_classes()[i] == 32);
        } else if i == 3 {
            assert(size_classes()[i] == 64);
        } else if i == 4 {
            assert(size_classes()[i] == 128);
        } else if i == 5 {
            assert(size_classes()[i] == 256);
        } else if i == 6 {
            assert(size_classes()[i] == 512);
        } else if i == 7 {
            assert(size_classes()[i] == 1024);
        } else {
            assert(size_classes()[i] == 2048);
        }
    }
}

/// The abstract states of a sequence of caches.
pub open spec fn views(caches: Seq<Cache>) -> Seq<CacheView> {
    caches.map_values(|c: Cache| c@)
}

/// Cache `i` serves size class `i`, its slabs sit on page-aligned pages, and
/// no two slabs of different caches share a page.
pub open spec fn caches_match_classes(cs: Seq<CacheView>) -> bool {
    &&& cs.len() == NUM_SIZE_CLASSES
    &&& forall|i: int|
        0 <= i < NUM_SIZE_CLASSES ==> {
            &&& (#[trigger] cs[i]).wf()
            &&& cs[i].object_size == size_classes()[i]
            &&& pages_aligned(cs[i])
        }
    &&& forall|i1: int, j1: int, i2: int, j2: int|
        #![trigger cs[i1].slabs[j1], cs[i2].slabs[j2]]
        0 <= i1 < NUM_SIZE_CLASSES && 0 <= i2 < NUM_SIZE_CLASSES && i1 != i2 && 0 <= j1
            < cs[i1].slabs.len() && 0 <= j2 < cs[i2].slabs.len() ==> pages_apart(
            cs[i1].slabs[j1].page,
            cs[i2].slabs[j2].page,
        )
}

/// The page at `page` overlaps no page of any cache.
pub open spec fn page_unused_everywhere(cs: Seq<CacheView>, page: int) -> bool {
    forall|i: int| 0 <= i < NUM_SIZE_CLASSES ==> (#[trigger] cs[i]).page_unused(page)
}

/// Some cache has the slot at `addr` handed out.
pub open spec fn live_anywhere(cs: Seq<CacheView>, addr: int) -> bool {
    exists|i: int| 0 <= i < NUM_SIZE_CLASSES && (#[trigger] cs[i]).is_live(addr)
}

/// Replacing cache `index` by a well-formed cache of the same object size on
/// the same pages keeps the caches matched to their classes.
proof fn lemma_update_keeps_match(cs: Seq<CacheView>, index: int, c: CacheView)
    requires
        caches_match_classes(cs),
        0 <= index < NUM_SIZE_CLASSES,
        c.wf(),
        c.object_size == cs[index].object_size,
        c.same_pages(cs[index]),
    ensures
        caches_match_classes(cs.update(index, c)),
{
    let ns = cs.update(index, c);
    assert(pages_aligned(cs[index]));
    assert forall|j: int| 0 <= j < c.slabs.len() implies (#[trigger] c.slabs[j]).page
        % PAGE_SIZE as int == 0 by {
        assert(c.slabs[j].page == cs[index].slabs[j].page);
    }
    assert forall|i1: int, j1: int, i2: int, j2: int|
        #![trigger ns[i1].slabs[j1], ns[i2].slabs[j2]]
        0 <= i1 < NUM_SIZE_CLASSES && 0 <= i2 < NUM_SIZE_CLASSES && i1 != i2 && 0 <= j1
            < ns[i1].slabs.len() && 0 <= j2 < ns[i2].slabs.len() implies pages_apart(
        ns[i1].slabs[j1].page,
        ns[i2].slabs[j2].page,
    ) by {
        assert(ns[i1].slabs[j1].page == cs[i1].slabs[j1].page);
        assert(ns[i2].slabs[j2].page == cs[i2].slabs[j2].page);
        assert(pages_apart(cs[i1].slabs[j1].page, cs[i2].slabs[j2].page));
    }
}

/// Adding a slab on an unused page to cache `index` keeps the caches matched
/// to their classes.
proof fn lemma_add_keeps_match(cs: Seq<CacheView>, index: int, page: int)
    requires
        caches_match_classes(cs),
        0 <= index < NUM_SIZE_CLASSES,
        usable_page(page),
        page_unused_everywhere(cs, page),
        cs[index].after_add_slab(page).wf(),
    ensures
        caches_match_classes(cs.update(index, cs[index].after_add_slab(page))),
{
    let c = cs[index].after_add_slab(page);
    let ns = cs.update(index, c);
    let n = cs[index].slabs.len() as int;
    assert(pages_aligned(cs[index]));
    assert forall|j: int| 0 <= j < c.slabs.len() implies (#[trigger] c.slabs[j]).page
        % PAGE_SIZE as int == 0 by {
        if j < n {
            assert(c.slabs[j] == cs[index].slabs[j]);
        }
    }
    assert forall|i1: int, j1: int, i2: int, j2: int|
        #![trigger ns[i1].slabs[j1], ns[i2].slabs[j2]]
        0 <= i1 < NUM_SIZE_CLASSES && 0 <= i2 < NUM_SIZE_CLASSES && i1 != i2 && 0 <= j1
            < ns[i1].slabs.len() && 0 <= j2 < ns[i2].slabs.len() implies pages_apart(
        ns[i1].slabs[j1].page,
        ns[i2].slabs[j2].page,
    ) by {
        if i1 == index && j1 == n {
            assert(cs[i2].page_unused(page));
            assert(pages_apart(cs[i2].slabs[j2].page, page));
        } else if i2 == index && j2 == n {
            assert(cs[i1].page_unused(page));
            assert(pages_apart(cs[i1].slabs[j1].page, page));
        } else {
            assert(ns[i1].slabs[j1] == cs[i1].slabs[j1]);
            assert(ns[i2].slabs[j2] == cs[i2].slabs[j2]);
            assert(pages_apart(cs[i1].slabs[j1].page, cs[i2].slabs[j2].page));
        }
    }
}

/// Replacing cache `index` by one in which every live slot stays live keeps
/// every live slot of the caches live.
proof fn lemma_live_kept(cs: Seq<CacheView>, index: int, c: CacheView)
    requires
        cs.len() == NUM_SIZE_CLASSES,
        0 <= index < NUM_SIZE_CLASSES,
        forall|a: int| #[trigger] cs[index].is_live(a) ==> c.is_live(a),
    ensures
        forall|a: int| #[trigger] live_anywhere(cs, a) ==> live_anywhere(cs.update(index, c), a),
{
    assert forall|a: int| #[trigger] live_anywhere(cs, a) implies live_anywhere(cs.update(index, c), a) by {
        let i = choose|i: int| 0 <= i < NUM_SIZE_CLASSES && (#[trigger] cs[i]).is_live(a);
        if i == index {
            assert(cs.update(index, c)[index].is_live(a));
        } else {
            assert(cs.update(index, c)[i].is_live(a));
        }
    }
}

/// An address on a page of cache `index` is live in no other cache.
proof fn lemma_live_only_in(cs: Seq<CacheView>, index: int, j: int, addr: int)
    requires
        caches_match_classes(cs),
        0 <= index < NUM_SIZE_CLASSES,
        0 <= j < cs[index].slabs.len(),
        cs[index].slabs[j].contains(addr),
    ensures
        forall|i: int| 0 <= i < NUM_SIZE_CLASSES && i != index ==> !(#[trigger] cs[i]).is_live(addr),
{
    assert forall|i: int| 0 <= i < NUM_SIZE_CLASSES && i != index implies !(
    #[trigger] cs[i]).is_live(addr) by {
        assert(cs[i].wf());
        assert forall|k: int| 0 <= k < cs[i].slabs.len() implies !(
        #[trigger] cs[i].slabs[k]).is_allocated(addr) by {
            assert(pages_apart(cs[index].slabs[j].page, cs[i].slabs[k].page));
            if cs[i].slabs[k].is_slot(addr) {
                lemma_slots_apart(cs[i].slabs[k], addr, addr);
            }
        }
    }
}

/// An address on an unused page is live in no cache.
proof fn lemma_unused_page_not_live(cs: Seq<CacheView>, page: int)
    requires
        caches_match_classes(cs),
        page_unused_everywhere(cs, page),
    ensures
        !live_anywhere(cs, page),
{
    assert forall|i: int| 0 <= i < NUM_SIZE_CLASSES implies !(#[trigger] cs[i]).is_live(page) by {
        assert(cs[i].wf());
        assert(cs[i].page_unused(page));
        assert forall|k: int| 0 <= k < cs[i].slabs.len() implies !(
        #[trigger] cs[i].slabs[k]).is_allocated(page) by {
            assert(pages_apart(cs[i].slabs[k].page, page));
            if cs[i].slabs[k].is_slot(page) {
                lemma_slots_apart(cs[i].slabs[k], page, page);
            }
        }
    }
}

/// Two different live slots of the allocator's caches do not overlap: a slot
/// of class `i1` at `a` and a slot of class `i2` at `b` are apart by at least
/// the size of the lower one.
pub proof fn lemma_live_slots_disjoint(cs: Seq<CacheView>, i1: int, a: int, i2: int, b: int)
    requires
        caches_match_classes(cs),
        0 <= i1 < NUM_SIZE_CLASSES,
        0 <= i2 < NUM_SIZE_CLASSES,
        cs[i1].is_live(a),
        cs[i2].is_live(b),
        a != b,
    ensures
        a + size_classes()[i1] <= b || b + size_classes()[i2] <= a,
{
    lemma_size_classes();
    let j1 = choose|j: int| 0 <= j < cs[i1].slabs.len() && (#[trigger] cs[i1].slabs[j]).is_allocated(a);
    let j2 = choose|j: int| 0 <= j < cs[i2].slabs.len() && (#[trigger] cs[i2].slabs[j]).is_allocated(b);
    assert(cs[i1].wf() && cs[i2].wf());
    if i1 == i2 {
        crate::cache::lemma_live_slots_apart(cs[i1], j1, a, j2, b);
    } else {
        lemma_slots_apart(cs[i1].slabs[j1], a, a);
        lemma_slots_apart(cs[i2].slabs[j2], b, b);
        assert(pages_apart(cs[i1].slabs[j1].page, cs[i2].slabs[j2].page));
    }
}

/// The caches of the allocator, one per size class, as they sit behind the
/// allocator's lock.
pub struct SlabAllocatorInner {
    caches: Vec<Cache>,
}

impl SlabAllocatorInner {
    /// Cache `i` serves size class `i`, and no two slabs share a page.
    #[verifier::type_invariant]
    spec fn consistent(self) -> bool {
        caches_match_classes(views(self.caches@))
    }

    /// The abstract states of the caches, one per size class.
    pub closed spec fn caches(self) -> Seq<CacheView> {
        views(self.caches@)
    }

    /// One empty cache per size class.
    pub fn new() -> (inner: Self)
        ensures
            inner.caches().len() == NUM_SIZE_CLASSES,
            caches_match_classes(inner.caches()),
            forall|i: int|
                0 <= i < NUM_SIZE_CLASSES ==> (#[trigger] inner.caches()[i]).slabs.len() == 0
                    && inner.caches()[i].object_size == size_classes()[i],
    {
        let mut caches: Vec<Cache> = Vec::new();
        let mut i: usize = 0;
        while i < NUM_SIZE_CLASSES
            invariant
                i <= NUM_SIZE_CLASSES,
                caches@.len() == i,
                SIZE_CLASSES@ == size_classes(),
                forall|j: int|
                    0 <= j < i ==> {
                        &&& (#[trigger] caches@[j])@.wf()
                        &&& caches@[j]@.object_size == size_classes()[j]
                        &&& caches@[j]@.slabs.len() == 0
                    },
            decreases NUM_SIZE_CLASSES - i,
        {
            caches.push(Cache::new(SIZE_CLASSES[i]));
            i = i + 1;
        }
        SlabAllocatorInner { caches }
    }

    /// Moves the caches out, leaving empty caches behind.
    fn take_caches(&mut self) -> (caches: Vec<Cache>)
        ensures
            views(caches@) == old(self).caches(),
            caches_match_classes(views(caches@)),
    {
        let mut taken = SlabAllocatorInner::new();
        core::mem::swap(self, &mut taken);
        proof {
            use_type_invariant(&taken);
        }
        let SlabAllocatorInner { caches } = taken;
        caches
    }

    /// Serve a request for `size` bytes aligned to `align`.
    ///
    /// The request goes to the smallest size class that holds
    /// `max(size, align)` bytes, and fails with `0` when there is none. The
    /// class's cache allocates from its first slab with room; when every
    /// slab is full, `provider` is asked for a page, and `refill` makes a
    /// slab of it. A returned address was live nowhere before and is live
    /// afterwards.
    pub fn allocate_request<P: PageProvider>(
        &mut self,
        size: usize,
        align: usize,
        provider: &P,
    ) -> (ptr: usize)
        ensures
            request_size(size as int, align as int) > size_classes()[NUM_SIZE_CLASSES - 1]
                ==> ptr == 0 && final(self).caches() == old(self).caches(),
            forall|i: int|
                #![trigger fits_class(request_size(size as int, align as int), i)]
                fits_class(request_size(size as int, align as int), i) ==> {
                    &&& final(self).caches().len() == NUM_SIZE_CLASSES
                    &&& forall|j: int|
                        0 <= j < NUM_SIZE_CLASSES && j != i ==> #[trigger] final(self).caches()[j]
                            == old(self).caches()[j]
                    &&& forall|k: int|
                        #[trigger] old(self).caches()[i].first_not_full(k) ==> ptr == old(self).caches()[i].slabs[k].next_slot() && final(self).caches()[i] == old(self).caches()[i].after_alloc_in(k)
                    &&& old(self).caches()[i].all_full() ==> (ptr == 0 && final(self).caches()[i]
                        == old(self).caches()[i]) || (usable_page(ptr as int)
                        && page_unused_everywhere(old(self).caches(), ptr as int) && final(self).caches()[i] == old(self).caches()[i].after_add_slab(ptr as int))
                    &&& ptr != 0 ==> ptr as int % size_classes()[i] as int == 0
                },
            ptr != 0 ==> !live_anywhere(old(self).caches(), ptr as int) && live_anywhere(
                final(self).caches(),
                ptr as int,
            ),
            ptr != 0 && is_pow2(align as int) ==> ptr as int % align as int == 0,
            caches_match_classes(final(self).caches()),
            forall|a: int|
                #[trigger] live_anywhere(old(self).caches(), a) ==> live_anywhere(final(self).caches(), a),
    {
        proof {
            use_type_invariant(&*self);
            lemma_size_classes();
        }
        let request = if size > align {
            size
        } else {
            align
        };
        let index = match size_class_index(request) {
            Some(i) => i,
            None => return 0,
        };
        proof {
            assert forall|i: int| fits_class(request as int, i) implies i == index by {
                if i < index {
                    assert(size_classes()[i] < request);
                } else if i > index {
                    assert(size_classes()[index as int] < request);
                }
            }
        }
        let ghost cs = self.caches();
        let mut caches = self.take_caches();
        proof {
            assert(views(caches@)[index as int] == caches@[index as int]@);
            assert(cs[index as int].wf());
        }
        let ptr = caches[index].allocate();
        proof {
            assert(views(caches@) =~= cs.update(index as int, caches@[index as int]@));
            lemma_update_keeps_match(cs, index as int, caches@[index as int]@);
        }
        if ptr != 0 {
            proof {
                let c = cs[index as int];
                let k = choose|k: int| c.first_not_full(k);
                let slab = c.slabs[k];
                assert(c.wf() && pages_aligned(c));
                assert(slab.wf());
                lemma_slot_aligned(slab.page, slab.free.last() as int, slab.slot_size);
                crate::slab::lemma_alloc_hands_out_free_slot(slab);
                lemma_slots_apart(slab, ptr as int, ptr as int);
                lemma_live_only_in(cs, index as int, k, ptr as int);
                assert(views(caches@)[index as int].is_live(ptr as int));
                lemma_live_kept(cs, index as int, caches@[index as int]@);
                if is_pow2(align as int) {
                    lemma_pow2_aligned(ptr as int, align as int, size_classes()[index as int] as int);
                }
            }
            *self = SlabAllocatorInner { caches };
            return ptr;
        }
        proof {
            assert(views(caches@) =~= cs);
        }
        *self = SlabAllocatorInner { caches };
        let page = provider.alloc_page();
        let ptr = self.refill(index, page);
        proof {
            if ptr != 0 {
                lemma_slot_aligned(ptr as int, 0, size_classes()[index as int] as int);
                if is_pow2(align as int) {
                    lemma_pow2_aligned(ptr as int, align as int, size_classes()[index as int] as int);
                }
            }
        }
        ptr
    }

    /// Make a slab of the page at `page` in the cache of size class `index`
    /// and hand out its first slot.
    ///
    /// Returns `0`, changing nothing, when `page` is null, when it overlaps a
    /// page that some cache already uses, or when the cache already holds
    /// `MAX_SLABS_PER_CACHE` slabs; otherwise returns `page`.
    pub fn refill(&mut self, index: usize, page: usize) -> (ptr: usize)
        requires
            index < NUM_SIZE_CLASSES,
            page == 0 || (page > 0 && usable_page(page as int)),
        ensures
            final(self).caches().len() == NUM_SIZE_CLASSES,
            forall|j: int|
                0 <= j < NUM_SIZE_CLASSES && j != index ==> #[trigger] final(self).caches()[j] == old(self).caches()[j],
            page == 0 || !page_unused_everywhere(old(self).caches(), page as int) || old(self).caches()[index as int].slabs.len() >= MAX_SLABS_PER_CACHE ==> ptr == 0 && final(self).caches() == old(self).caches(),
            page != 0 && page_unused_everywhere(old(self).caches(), page as int) && old(self).caches()[index as int].slabs.len() < MAX_SLABS_PER_CACHE ==> ptr == page && final(self).caches()[index as int] == old(self).caches()[index as int].after_add_slab(
                page as int,
            ),
            ptr != 0 ==> !live_anywhere(old(self).caches(), ptr as int) && live_anywhere(
                final(self).caches(),
                ptr as int,
            ),
            caches_match_classes(final(self).caches()),
            forall|a: int|
                #[trigger] live_anywhere(old(self).caches(), a) ==> live_anywhere(final(self).caches(), a),
    {
        proof {
            use_type_invariant(&*self);
            lemma_size_classes();
        }
        if page == 0 {
            return 0;
        }
        let ghost cs = self.caches();
        let mut caches = self.take_caches();
        let mut i: usize = 0;
        while i < NUM_SIZE_CLASSES
            invariant
                views(caches@) == cs,
                cs == old(self).caches(),
                caches_match_classes(cs),
                i <= NUM_SIZE_CLASSES,
                forall|j: int| 0 <= j < i ==> (#[trigger] cs[j]).page_unused(page as int),
            decreases NUM_SIZE_CLASSES - i,
        {
            assert(views(caches@)[i as int] == caches@[i as int]@);
            if !caches[i].page_unused(page) {
                assert(!cs[i as int].page_unused(page as int));
                *self = SlabAllocatorInner { caches };
                return 0;
            }
            i = i + 1;
        }
        proof {
            assert(views(caches@)[index as int] == caches@[index as int]@);
            assert(cs[index as int].wf());
            assert(cs[index as int].page_unused(page as int));
        }
        let ptr = caches[index].add_slab_and_alloc(page);
        proof {
            let c = cs[index as int];
            assert(c.wf());
            if c.slabs.len() < MAX_SLABS_PER_CACHE {
                lemma_add_keeps_match(cs, index as int, page as int);
                assert(views(caches@) =~= cs.update(index as int, c.after_add_slab(page as int)));
                lemma_unused_page_not_live(cs, page as int);
                assert(views(caches@)[index as int].is_live(ptr as int));
                lemma_live_kept(cs, index as int, c.after_add_slab(page as int));
            } else {
                assert(views(caches@) =~= cs);
            }
        }
        *self = SlabAllocatorInner { caches };
        ptr
    }

    /// Give back the object at `ptr` that was allocated with the same `size`
    /// and `align`.
    ///
    /// Does nothing when the request is larger than every size class, when
    /// no slab of the class's cache holds `ptr`, or when the first slab that
    /// holds it does not have it allocated; otherwise that slab frees it.
    pub fn dealloc_request(&mut self, ptr: usize, size: usize, align: usize)
        ensures
            request_size(size as int, align as int) > size_classes()[NUM_SIZE_CLASSES - 1]
                ==> final(self).caches() == old(self).caches(),
            forall|i: int|
                #![trigger fits_class(request_size(size as int, align as int), i)]
                fits_class(request_size(size as int, align as int), i) ==> {
                    &&& final(self).caches().len() == NUM_SIZE_CLASSES
                    &&& forall|j: int|
                        0 <= j < NUM_SIZE_CLASSES && j != i ==> #[trigger] final(self).caches()[j]
                            == old(self).caches()[j]
                    &&& old(self).caches()[i].owns_none(ptr as int) ==> final(self).caches()[i]
                        == old(self).caches()[i]
                    &&& !old(self).caches()[i].may_dealloc(ptr as int) ==> final(self).caches()[i]
                        == old(self).caches()[i]
                    &&& forall|k: int|
                        old(self).caches()[i].may_dealloc(ptr as int) && #[trigger] old(self).caches()[i].first_containing(k, ptr as int) ==> final(self).caches()[i]
                            == old(self).caches()[i].after_dealloc_in(k, ptr as int)
                },
            caches_match_classes(final(self).caches()),
    {
        proof {
            use_type_invariant(&*self);
        }
        let request = if size > align {
            size
        } else {
            align
        };
        let index = match size_class_index(request) {
            Some(i) => i,
            None => return ,
        };
        proof {
            assert forall|i: int| fits_class(request as int, i) implies i == index by {
                if i < index {
                    assert(size_classes()[i] < request);
                } else if i > index {
                    assert(size_classes()[index as int] < request);
                }
            }
        }
        let ghost cs = self.caches();
        let mut caches = self.take_caches();
        proof {
            assert(views(caches@)[index as int] == caches@[index as int]@);
            assert(cs[index as int].wf());
        }
        if caches[index].may_dealloc(ptr) {
            caches[index].dealloc(ptr);
            proof {
                assert(views(caches@) =~= cs.update(index as int, caches@[index as int]@));
                lemma_update_keeps_match(cs, index as int, caches@[index as int]@);
            }
        }
        *self = SlabAllocatorInner { caches };
    }
}

/// An address aligned to a power-of-two size class is aligned to every power
/// of two that is not larger.
proof fn lemma_pow2_aligned(ptr: int, align: int, class: int)
    requires
        ptr >= 0,
        is_pow2(align),
        is_pow2(class),
        align <= class,
        ptr % class == 0,
    ensures
        ptr % align == 0,
{
    lemma_pow2_divides(align, class);
    lemma_pow2_divides(class, class);
    lemma_fundamental_div_mod(class, align);
    lemma_fundamental_div_mod(ptr, class);
    let m = class / align;
    let q = ptr / class;
    assert(ptr == (q * m) * align) by (nonlinear_arith)
        requires
            ptr == class * q,
            class == align * m,
    ;
    lemma_mod_multiples_basic(q * m, align);
}

/// The top-level slab allocator.
///
/// Holds one [`Cache`] per size class behind a spin lock, and a
/// [`PageProvider`] for obtaining backing pages. What sits behind the lock
/// can change between calls, so the contracts here state what holds of every
/// state; `SlabAllocatorInner` states what each request does to it.
pub struct SlabAllocator<P: PageProvider> {
    inner: spin::Mutex<SlabAllocatorInner>,
    page_provider: P,
}

impl<P: PageProvider> SlabAllocator<P> {
    /// The page provider this allocator takes pages from.
    pub closed spec fn provider(&self) -> P {
        self.page_provider
    }

    /// Create a new slab allocator backed by the given page provider. Every
    /// cache starts without slabs.
    pub fn new(page_provider: P) -> (allocator: Self)
        ensures
            allocator.provider() == page_provider,
    {
        SlabAllocator { inner: new_mutex(SlabAllocatorInner::new()), page_provider }
    }

    /// Allocate `size` bytes aligned to `align`.
    ///
    /// Locks the caches and serves the request as
    /// `SlabAllocatorInner::allocate_request` does. Returns `0` when the
    /// request is larger than every size class, or when no slot can be had.
    /// A returned address is the start of a slot of the smallest class that
    /// holds `max(size, align)` bytes, aligned to the class size, and so to
    /// `align` when `align` is a power of two.
    pub fn allocate(&self, size: usize, align: usize) -> (ptr: usize)
        ensures
            request_size(size as int, align as int) > size_classes()[NUM_SIZE_CLASSES - 1]
                ==> ptr == 0,
            forall|i: int|
                fits_class(request_size(size as int, align as int), i) ==> ptr == 0 || ptr as int
                    % size_classes()[i] as int == 0,
            ptr != 0 && is_pow2(align as int) ==> ptr as int % align as int == 0,
    {
        let mut guard = lock(&self.inner);
        let inner = guarded(&mut guard);
        inner.allocate_request(size, align, &self.page_provider)
    }

    /// Deallocate the object at `ptr` that was allocated with the same
    /// `size` and `align`.
    ///
    /// Locks the caches and gives `ptr` back as
    /// `SlabAllocatorInner::dealloc_request` does: nothing happens when the
    /// request is larger than every size class, or when `ptr` is not a slot
    /// of the class that is currently allocated.
    pub fn dealloc(&self, ptr: usize, size: usize, align: usize) {
        let mut guard = lock(&self.inner);
        let inner = guarded(&mut guard);
        inner.dealloc_request(ptr, size, align);
    }
}

} // verus!
